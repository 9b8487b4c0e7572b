use vstd::prelude::*;

use crate::name::is_suffix;
use crate::record::QueryType;
use crate::record::a_rrset;
use crate::record::query_matches;
use crate::record::soa_rrset;
use crate::zone::HostEntryV;
use crate::zone::ZoneEntriesV;
use crate::zone::a_rrsets_of;
use crate::zone::zone_of;
use crate::zone::zone_ok;
use crate::catalog::AuthorityV;
use crate::catalog::CatalogEntryV;
use crate::catalog::QueryOutcomeV;
use crate::catalog::build_ok;
use crate::catalog::catalog_of;
use crate::catalog::catalog_wf;
use crate::catalog::dispatch_spec;
use crate::catalog::find_rrset;
use crate::catalog::has_dup_apex;
use crate::catalog::lemma_primaries_of_index;
use crate::catalog::lemma_route_idx;
use crate::catalog::root_entry;
use crate::catalog::root_forward_at;
use crate::catalog::route_idx;

verus! {

/// Two suffixes of one name are ordered by the suffix relation: the
/// shorter is itself a suffix of the longer.
pub proof fn lemma_suffix_chain(a: Seq<Seq<u8>>, b: Seq<Seq<u8>>, n: Seq<Seq<u8>>)
    requires
        is_suffix(a, n),
        is_suffix(b, n),
        a.len() <= b.len(),
    ensures
        is_suffix(a, b),
{
    assert forall|i: int| 0 <= i < a.len() implies #[trigger] a[i] == b[b.len() - a.len() + i] by {
        assert(a[i] == n[n.len() - a.len() + i]);
        assert(b[b.len() - a.len() + i] == n[n.len() - b.len() + (b.len() - a.len() + i)]);
    }
}

/// Two suffixes of one name with the same number of labels are the same
/// name.
pub proof fn lemma_suffix_same_len(a: Seq<Seq<u8>>, b: Seq<Seq<u8>>, n: Seq<Seq<u8>>)
    requires
        is_suffix(a, n),
        is_suffix(b, n),
        a.len() == b.len(),
    ensures
        a == b,
{
    assert forall|i: int| 0 <= i < a.len() implies #[trigger] a[i] == b[i] by {
        assert(a[i] == n[n.len() - a.len() + i]);
        assert(b[i] == n[n.len() - b.len() + i]);
    }
    assert(a =~= b);
}

/// Where each entry of the synthesized catalog sits: the zones in
/// configuration order, then the root forwarder.
pub proof fn lemma_catalog_of_index(rs: Seq<ZoneEntriesV>)
    ensures
        catalog_of(rs).len() == rs.len() + 1,
        forall|i: int|
            0 <= i < rs.len() ==> #[trigger] catalog_of(rs)[i] == (CatalogEntryV {
                key: rs[i].apex,
                authority: AuthorityV::Primary(zone_of(rs[i])),
            }),
        catalog_of(rs)[rs.len() as int] == root_entry(),
{
    lemma_primaries_of_index(rs);
}

/// The catalog built from an accepted configuration is well formed:
/// keys are unique and the root forwarder is registered.
pub proof fn lemma_catalog_of_wf(rs: Seq<ZoneEntriesV>)
    requires
        build_ok(rs),
    ensures
        catalog_wf(catalog_of(rs)),
{
    lemma_catalog_of_index(rs);
    let c = catalog_of(rs);
    assert forall|i: int, j: int| 0 <= i < j < c.len() implies #[trigger] c[i].key
        != #[trigger] c[j].key by {
        assert(zone_ok(rs[i]));
        if j < rs.len() {
            assert(zone_ok(rs[j]));
            if rs[i].apex == rs[j].apex {
                assert(has_dup_apex(rs));
            }
        } else {
            assert(c[j].key.len() == 0);
            assert(c[i].key.len() >= 1);
        }
    }
    assert(root_forward_at(c, rs.len() as int));
}

/// Longest-suffix routing: the selected entry's key is a suffix of the
/// queried name, and every registered key that matches the queried name
/// is itself a suffix of the selected key.  With the root forwarder
/// registered, a match always exists.
pub proof fn lemma_longest_suffix_routing(c: Seq<CatalogEntryV>, n: Seq<Seq<u8>>)
    requires
        catalog_wf(c),
    ensures
        ({
            let i = route_idx(c, n);
            &&& 0 <= i < c.len()
            &&& is_suffix(c[i].key, n)
            &&& forall|j: int|
                0 <= j < c.len() && is_suffix(#[trigger] c[j].key, n) ==> is_suffix(
                    c[j].key,
                    c[i].key,
                )
        }),
{
    lemma_route_idx(c, n);
    let rt = choose|k: int| root_forward_at(c, k);
    assert(root_forward_at(c, rt));
    assert(is_suffix(c[rt].key, n));
    let i = route_idx(c, n);
    assert(i != -1);
    assert forall|j: int|
        0 <= j < c.len() && is_suffix(#[trigger] c[j].key, n) implies is_suffix(
        c[j].key,
        c[i].key,
    ) by {
        assert(c[j].key.len() <= c[i].key.len());
        lemma_suffix_chain(c[j].key, c[i].key, n);
    }
}

/// An A query for an entry's name finds exactly that entry's A record
/// set among the zone's synthesized A record sets.
pub proof fn lemma_find_a_in_entries(entries: Seq<HostEntryV>, n: Seq<Seq<u8>>, ei: int)
    requires
        0 <= ei < entries.len(),
        entries[ei].name == n,
        forall|i: int, j: int|
            0 <= i < j < entries.len() ==> #[trigger] entries[i].name != #[trigger] entries[j].name,
    ensures
        find_rrset(a_rrsets_of(entries), n, QueryType::A) == Some(
            a_rrset(n, entries[ei].addr),
        ),
    decreases entries.len(),
{
    let rrs = a_rrsets_of(entries);
    assert(rrs[0] == a_rrset(entries[0].name, entries[0].addr));
    if ei == 0 {
        assert(rrs[0].name == n && query_matches(QueryType::A, rrs[0].rtype));
    } else {
        assert(entries[0].name != entries[ei].name);
        assert(rrs[0].name != n);
        assert(rrs.drop_first() =~= a_rrsets_of(entries.drop_first()));
        let ed = entries.drop_first();
        assert forall|i: int, j: int| 0 <= i < j < ed.len() implies #[trigger] ed[i].name
            != #[trigger] ed[j].name by {
            assert(ed[i] == entries[i + 1]);
            assert(ed[j] == entries[j + 1]);
        }
        assert(ed[ei - 1] == entries[ei]);
        lemma_find_a_in_entries(ed, n, ei - 1);
    }
}

/// An A query against a synthesized zone skips the apex SOA and finds
/// the configured entry's record set.
pub proof fn lemma_zone_find_a(z: ZoneEntriesV, n: Seq<Seq<u8>>, ei: int)
    requires
        0 <= ei < z.entries.len(),
        z.entries[ei].name == n,
        forall|i: int, j: int|
            0 <= i < j < z.entries.len() ==> #[trigger] z.entries[i].name != #[trigger] z.entries[j].name,
    ensures
        find_rrset(zone_of(z).rrsets, n, QueryType::A) == Some(a_rrset(n, z.entries[ei].addr)),
{
    let rrs = zone_of(z).rrsets;
    assert(rrs[0] == soa_rrset(z.apex));
    assert(!query_matches(QueryType::A, rrs[0].rtype));
    assert(rrs.drop_first() =~= a_rrsets_of(z.entries));
    lemma_find_a_in_entries(z.entries, n, ei);
}

/// An SOA query for the apex of a synthesized zone finds the synthesized
/// start-of-authority record set.
pub proof fn lemma_zone_find_soa(z: ZoneEntriesV)
    ensures
        find_rrset(zone_of(z).rrsets, z.apex, QueryType::Soa) == Some(soa_rrset(z.apex)),
{
    let rrs = zone_of(z).rrsets;
    assert(rrs[0] == soa_rrset(z.apex));
    assert(rrs[0].name == z.apex && query_matches(QueryType::Soa, rrs[0].rtype));
}

/// A query for a name matched by zone `zi`'s apex — the most specific
/// configured match for that name — routes to zone `zi`'s authority.
pub proof fn lemma_route_to_zone(rs: Seq<ZoneEntriesV>, zi: int, n: Seq<Seq<u8>>)
    requires
        build_ok(rs),
        0 <= zi < rs.len(),
        is_suffix(rs[zi].apex, n),
        forall|j: int|
            0 <= j < rs.len() && is_suffix(#[trigger] rs[j].apex, n) ==> is_suffix(
                rs[j].apex,
                rs[zi].apex,
            ),
    ensures
        route_idx(catalog_of(rs), n) == zi,
{
    let c = catalog_of(rs);
    lemma_catalog_of_index(rs);
    lemma_catalog_of_wf(rs);
    lemma_route_idx(c, n);
    let i = route_idx(c, n);
    assert(zone_ok(rs[zi]));
    assert(is_suffix(c[zi].key, n));
    assert(i != -1);
    assert(c[zi].key.len() <= c[i].key.len());
    if i == rs.len() {
        assert(c[i].key.len() == 0);
        assert(c[zi].key.len() >= 1);
        assert(false);
    }
    assert(c[i].key == rs[i].apex);
    assert(is_suffix(rs[i].apex, rs[zi].apex));
    assert(rs[i].apex.len() <= rs[zi].apex.len());
    lemma_suffix_same_len(rs[i].apex, rs[zi].apex, n);
    if i != zi {
        assert(has_dup_apex(rs));
        assert(false);
    }
}

/// For every accepted configuration, querying a configured entry's name
/// for an A record — where that entry's zone is the most specific
/// configured match for the name — answers with exactly one value, the
/// configured address, with TTL 30.
pub proof fn lemma_configured_a_answered(rs: Seq<ZoneEntriesV>, zi: int, ei: int)
    requires
        build_ok(rs),
        0 <= zi < rs.len(),
        0 <= ei < rs[zi].entries.len(),
        forall|j: int|
            0 <= j < rs.len() && is_suffix(#[trigger] rs[j].apex, rs[zi].entries[ei].name)
                ==> is_suffix(rs[j].apex, rs[zi].apex),
    ensures
        dispatch_spec(catalog_of(rs), rs[zi].entries[ei].name, QueryType::A)
            == QueryOutcomeV::Answer(
            a_rrset(rs[zi].entries[ei].name, rs[zi].entries[ei].addr),
        ),
{
    let n = rs[zi].entries[ei].name;
    assert(zone_ok(rs[zi]));
    assert(is_suffix(rs[zi].apex, n));
    lemma_route_to_zone(rs, zi, n);
    lemma_catalog_of_index(rs);
    lemma_zone_find_a(rs[zi], n, ei);
}

/// For every accepted configuration, querying a configured apex for its
/// SOA record answers with the synthesized start of authority: serial 1,
/// refresh 60, retry 1, expire 120, minimum TTL 30, and administrative
/// contact `administrator.<apex>`.
pub proof fn lemma_apex_soa_answered(rs: Seq<ZoneEntriesV>, zi: int)
    requires
        build_ok(rs),
        0 <= zi < rs.len(),
    ensures
        dispatch_spec(catalog_of(rs), rs[zi].apex, QueryType::Soa) == QueryOutcomeV::Answer(
            soa_rrset(rs[zi].apex),
        ),
{
    let n = rs[zi].apex;
    assert(zone_ok(rs[zi]));
    assert(is_suffix(n, n));
    lemma_route_to_zone(rs, zi, n);
    lemma_catalog_of_index(rs);
    lemma_zone_find_soa(rs[zi]);
}

/// A query for a name that no configured zone covers routes to the
/// forwarding authority, whatever its query type, rather than being
/// answered locally.
pub proof fn lemma_uncovered_forwarded(rs: Seq<ZoneEntriesV>, n: Seq<Seq<u8>>, q: QueryType)
    requires
        build_ok(rs),
        forall|j: int| 0 <= j < rs.len() ==> !is_suffix((#[trigger] rs[j]).apex, n),
    ensures
        dispatch_spec(catalog_of(rs), n, q) == QueryOutcomeV::Forwarded,
{
    let c = catalog_of(rs);
    lemma_catalog_of_index(rs);
    lemma_catalog_of_wf(rs);
    lemma_route_idx(c, n);
    let i = route_idx(c, n);
    assert(is_suffix(c[rs.len() as int].key, n));
    assert(i != -1);
    assert(0 <= i < c.len());
    if i < rs.len() {
        assert(c[i].key == rs[i].apex);
        assert(is_suffix(rs[i].apex, n));
        assert(false);
    }
    assert(c[i].authority == AuthorityV::Forward);
}

/// Catalog construction is a pure function of the configuration: the
/// same configuration always yields the same catalog, record sets,
/// values and TTLs included.
pub proof fn lemma_catalog_deterministic(r1: Seq<ZoneEntriesV>, r2: Seq<ZoneEntriesV>)
    requires
        r1 == r2,
    ensures
        catalog_of(r1) == catalog_of(r2),
        build_ok(r1) == build_ok(r2),
{
}

} // verus!
