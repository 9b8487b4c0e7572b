use vstd::prelude::*;

use crate::name::DNSName;
use crate::name::is_suffix;
use crate::record::QueryType;
use crate::record::RecordSet;
use crate::record::RecordSetV;
use crate::record::query_matches;
use crate::record::query_type_matches;
use crate::zone::CatalogError;
use crate::zone::Records;
use crate::zone::Zone;
use crate::zone::ZoneV;
use crate::zone::ZoneEntriesV;
use crate::zone::build_zone;
use crate::zone::zone_of;
use crate::zone::zone_ok;

verus! {

/// An authority able to answer queries: a local primary zone, or the
/// forwarder that delegates everything else to the upstream resolvers.
#[derive(Debug, PartialEq, Eq)]
pub enum Authority {
    Primary(Zone),
    Forward,
}

#[verifier::ext_equal]
pub enum AuthorityV {
    Primary(ZoneV),
    Forward,
}

impl View for Authority {
    type V = AuthorityV;

    open spec fn view(&self) -> AuthorityV {
        match self {
            Authority::Primary(z) => AuthorityV::Primary(z@),
            Authority::Forward => AuthorityV::Forward,
        }
    }
}

/// One catalog registration: a domain key and the authority serving it.
#[derive(Debug, PartialEq, Eq)]
pub struct CatalogEntry {
    pub key: DNSName,
    pub authority: Authority,
}

#[verifier::ext_equal]
pub struct CatalogEntryV {
    pub key: Seq<Seq<u8>>,
    pub authority: AuthorityV,
}

impl View for CatalogEntry {
    type V = CatalogEntryV;

    open spec fn view(&self) -> CatalogEntryV {
        CatalogEntryV { key: self.key@, authority: self.authority@ }
    }
}

/// The views of a sequence of owned catalog entries.
pub open spec fn catalog_entry_views(vs: Seq<CatalogEntry>) -> Seq<CatalogEntryV> {
    Seq::new(vs.len(), |i: int| vs[i]@)
}

/// Entry `i` of the catalog is the root key served by the forwarder.
pub open spec fn root_forward_at(c: Seq<CatalogEntryV>, i: int) -> bool {
    0 <= i < c.len() && c[i].key.len() == 0 && c[i].authority is Forward
}

/// A well-formed catalog: at most one authority per domain key, and a
/// forwarding authority registered at the root as the fallback of last
/// resort.
pub open spec fn catalog_wf(c: Seq<CatalogEntryV>) -> bool {
    &&& forall|i: int, j: int| 0 <= i < j < c.len() ==> #[trigger] c[i].key != #[trigger] c[j].key
    &&& exists|i: int| root_forward_at(c, i)
}

/// The routable registry mapping domain keys to authorities.
#[derive(Debug, PartialEq, Eq)]
pub struct Catalog {
    entries: Vec<CatalogEntry>,
}

impl View for Catalog {
    type V = Seq<CatalogEntryV>;

    closed spec fn view(&self) -> Seq<CatalogEntryV> {
        catalog_entry_views(self.entries@)
    }
}

/// The index of the registered key that is the longest suffix of `n`,
/// the earliest such entry on a tie; -1 when no key matches.
pub open spec fn route_idx(c: Seq<CatalogEntryV>, n: Seq<Seq<u8>>) -> int
    decreases c.len(),
{
    if c.len() == 0 {
        -1
    } else {
        let rest = route_idx(c.drop_last(), n);
        if is_suffix(c[c.len() - 1].key, n) && (rest == -1 || c[c.len() - 1].key.len() > c[
            rest
        ].key.len()) {
            c.len() - 1
        } else {
            rest
        }
    }
}

/// The routing scan finds a matching key whenever one exists, and the
/// key it finds is at least as long as every matching key.
pub proof fn lemma_route_idx(c: Seq<CatalogEntryV>, n: Seq<Seq<u8>>)
    ensures
        route_idx(c, n) == -1 ==> forall|j: int|
            0 <= j < c.len() ==> !is_suffix(#[trigger] c[j].key, n),
        route_idx(c, n) != -1 ==> {
            let i = route_idx(c, n);
            &&& 0 <= i < c.len()
            &&& is_suffix(c[i].key, n)
            &&& forall|j: int|
                0 <= j < c.len() && is_suffix(#[trigger] c[j].key, n) ==> c[j].key.len()
                    <= c[i].key.len()
        },
    decreases c.len(),
{
    if c.len() > 0 {
        let cd = c.drop_last();
        lemma_route_idx(cd, n);
        let rest = route_idx(cd, n);
        let last = c.len() - 1;
        assert(forall|j: int| 0 <= j < cd.len() ==> #[trigger] cd[j] == c[j]);
        if is_suffix(c[last].key, n) && (rest == -1 || c[last].key.len() > c[rest].key.len()) {
            assert forall|j: int|
                0 <= j < c.len() && is_suffix(#[trigger] c[j].key, n) implies c[j].key.len()
                <= c[last].key.len() by {
                if j < last {
                    assert(is_suffix(cd[j].key, n));
                    assert(rest != -1);
                    assert(cd[j].key.len() <= cd[rest].key.len());
                }
            }
        } else {
            if rest == -1 {
                assert forall|j: int| 0 <= j < c.len() implies !is_suffix(
                    #[trigger] c[j].key,
                    n,
                ) by {
                    if j < last {
                        assert(!is_suffix(cd[j].key, n));
                    }
                }
            } else {
                assert forall|j: int|
                    0 <= j < c.len() && is_suffix(#[trigger] c[j].key, n) implies c[j].key.len()
                    <= c[rest].key.len() by {
                    if j < last {
                        assert(is_suffix(cd[j].key, n));
                    }
                }
            }
        }
    }
}

/// The first record set of the zone matching the queried name and type.
pub open spec fn find_rrset(rrs: Seq<RecordSetV>, n: Seq<Seq<u8>>, q: QueryType) -> Option<
    RecordSetV,
>
    decreases rrs.len(),
{
    if rrs.len() == 0 {
        None
    } else if rrs[0].name == n && query_matches(q, rrs[0].rtype) {
        Some(rrs[0])
    } else {
        find_rrset(rrs.drop_first(), n, q)
    }
}

/// The outcome of dispatching one query.
#[derive(Debug, PartialEq, Eq)]
pub enum QueryOutcome<'a> {
    Answer(&'a RecordSet),
    NoData,
    Forwarded,
}

#[verifier::ext_equal]
pub enum QueryOutcomeV {
    Answer(RecordSetV),
    NoData,
    Forwarded,
}

impl<'a> View for QueryOutcome<'a> {
    type V = QueryOutcomeV;

    open spec fn view(&self) -> QueryOutcomeV {
        match self {
            QueryOutcome::Answer(rs) => QueryOutcomeV::Answer(rs@),
            QueryOutcome::NoData => QueryOutcomeV::NoData,
            QueryOutcome::Forwarded => QueryOutcomeV::Forwarded,
        }
    }
}

/// What dispatching must yield: route to the authority with the longest
/// matching key; a primary zone answers from its record sets or reports
/// no data, the forwarder takes everything routed to it.
pub open spec fn dispatch_spec(c: Seq<CatalogEntryV>, n: Seq<Seq<u8>>, q: QueryType) -> QueryOutcomeV {
    let i = route_idx(c, n);
    if i == -1 {
        QueryOutcomeV::Forwarded
    } else {
        match c[i].authority {
            AuthorityV::Forward => QueryOutcomeV::Forwarded,
            AuthorityV::Primary(z) => match find_rrset(z.rrsets, n, q) {
                Some(rv) => QueryOutcomeV::Answer(rv),
                None => QueryOutcomeV::NoData,
            },
        }
    }
}

/// The primary catalog entries synthesized for a configuration, in order.
pub open spec fn primaries_of(rs: Seq<ZoneEntriesV>) -> Seq<CatalogEntryV>
    decreases rs.len(),
{
    if rs.len() == 0 {
        Seq::<CatalogEntryV>::empty()
    } else {
        seq![
            CatalogEntryV { key: rs[0].apex, authority: AuthorityV::Primary(zone_of(rs[0])) },
        ] + primaries_of(rs.drop_first())
    }
}

/// The root catalog entry: the forwarding authority, keyed at the root.
pub open spec fn root_entry() -> CatalogEntryV {
    CatalogEntryV { key: Seq::<Seq<u8>>::empty(), authority: AuthorityV::Forward }
}

/// The catalog synthesized from a configuration: one primary authority
/// per configured zone, in order, then the forwarder at the root.
pub open spec fn catalog_of(rs: Seq<ZoneEntriesV>) -> Seq<CatalogEntryV> {
    primaries_of(rs).push(root_entry())
}

/// Two configured zones share an apex.
pub open spec fn has_dup_apex(rs: Seq<ZoneEntriesV>) -> bool {
    exists|i: int, j: int|
        0 <= i < j < rs.len() && #[trigger] rs[i].apex == #[trigger] rs[j].apex
}

/// Every configured zone satisfies the zone invariants.
pub open spec fn all_zones_ok(rs: Seq<ZoneEntriesV>) -> bool {
    forall|i: int| 0 <= i < rs.len() ==> zone_ok(#[trigger] rs[i])
}

/// A configuration the catalog builder accepts.
pub open spec fn build_ok(rs: Seq<ZoneEntriesV>) -> bool {
    !has_dup_apex(rs) && all_zones_ok(rs)
}

/// Appending one zone appends its primary entry.
pub proof fn lemma_primaries_of_push(rs: Seq<ZoneEntriesV>, z: ZoneEntriesV)
    ensures
        primaries_of(rs.push(z)) == primaries_of(rs).push(
            CatalogEntryV { key: z.apex, authority: AuthorityV::Primary(zone_of(z)) },
        ),
    decreases rs.len(),
{
    if rs.len() == 0 {
        assert(rs.push(z).drop_first() =~= Seq::<ZoneEntriesV>::empty());
        assert(primaries_of(Seq::<ZoneEntriesV>::empty()) == Seq::<CatalogEntryV>::empty());
        assert(primaries_of(rs.push(z)) =~= primaries_of(rs).push(
            CatalogEntryV { key: z.apex, authority: AuthorityV::Primary(zone_of(z)) },
        ));
    } else {
        lemma_primaries_of_push(rs.drop_first(), z);
        assert(rs.push(z).drop_first() =~= rs.drop_first().push(z));
        assert(rs.push(z)[0] == rs[0]);
        assert(primaries_of(rs.push(z)) =~= primaries_of(rs).push(
            CatalogEntryV { key: z.apex, authority: AuthorityV::Primary(zone_of(z)) },
        ));
    }
}

/// Each primary entry sits at its zone's index.
pub proof fn lemma_primaries_of_index(rs: Seq<ZoneEntriesV>)
    ensures
        primaries_of(rs).len() == rs.len(),
        forall|i: int|
            0 <= i < rs.len() ==> #[trigger] primaries_of(rs)[i] == (CatalogEntryV {
                key: rs[i].apex,
                authority: AuthorityV::Primary(zone_of(rs[i])),
            }),
    decreases rs.len(),
{
    if rs.len() > 0 {
        lemma_primaries_of_index(rs.drop_first());
        assert forall|i: int|
            0 <= i < rs.len() implies #[trigger] primaries_of(rs)[i] == (CatalogEntryV {
            key: rs[i].apex,
            authority: AuthorityV::Primary(zone_of(rs[i])),
        }) by {
            if i > 0 {
                assert(primaries_of(rs)[i] == primaries_of(rs.drop_first())[i - 1]);
                assert(rs.drop_first()[i - 1] == rs[i]);
            }
        }
    }
}

/// Build the routable catalog from the whole configuration: every zone
/// is synthesized and registered at its apex, then the forwarder is
/// registered at the root.  Fails on a duplicate apex, or on a zone that
/// cannot satisfy the zone invariants.
pub fn generate_catalog(records: Records) -> (r: Result<Catalog, CatalogError>)
    ensures
        match r {
            Ok(c) => build_ok(records@) && c@ == catalog_of(records@),
            Err(e) => match e {
                CatalogError::DuplicateApex => has_dup_apex(records@),
                CatalogError::InvalidZone => !has_dup_apex(records@) && !all_zones_ok(records@),
            },
        },
{
    let ghost rv = records@;

    // No apex may be configured twice.
    let mut i: usize = 0;
    while i < records.0.len()
        invariant
            0 <= i <= records.0@.len(),
            rv == records@,
            rv.len() == records.0@.len(),
            forall|k: int| 0 <= k < records.0@.len() ==> #[trigger] records.0@[k]@ == rv[k],
            forall|a: int, b: int|
                0 <= a < b < records.0@.len() && b < i ==> #[trigger] rv[a].apex != #[trigger] rv[b].apex,
        decreases records.0@.len() - i,
    {
        let mut j: usize = 0;
        while j < i
            invariant
                0 <= j <= i < records.0@.len(),
                rv == records@,
                rv.len() == records.0@.len(),
                forall|k: int| 0 <= k < records.0@.len() ==> #[trigger] records.0@[k]@ == rv[k],
                forall|a: int| 0 <= a < j ==> #[trigger] rv[a].apex != rv[i as int].apex,
            decreases i - j,
        {
            proof {
                assert(records.0@[j as int]@ == rv[j as int]);
                assert(records.0@[i as int]@ == rv[i as int]);
            }
            if records.0[j].apex.eq_name(&records.0[i].apex) {
                proof {
                    assert(rv[j as int].apex == rv[i as int].apex);
                }
                return Err(CatalogError::DuplicateApex);
            }
            j = j + 1;
        }
        i = i + 1;
    }
    proof {
        assert(!has_dup_apex(rv));
    }

    // Synthesize and register each zone, then the forwarder at the root.
    let mut entries: Vec<CatalogEntry> = Vec::new();
    proof {
        assert(rv.take(0) =~= Seq::<ZoneEntriesV>::empty());
        assert(primaries_of(Seq::<ZoneEntriesV>::empty()) == Seq::<CatalogEntryV>::empty());
        assert(catalog_entry_views(entries@) =~= primaries_of(rv.take(0)));
    }
    let mut z: usize = 0;
    while z < records.0.len()
        invariant
            0 <= z <= records.0@.len(),
            rv == records@,
            rv.len() == records.0@.len(),
            !has_dup_apex(rv),
            forall|k: int| 0 <= k < records.0@.len() ==> #[trigger] records.0@[k]@ == rv[k],
            forall|k: int| 0 <= k < z ==> zone_ok(#[trigger] rv[k]),
            catalog_entry_views(entries@) == primaries_of(rv.take(z as int)),
        decreases records.0@.len() - z,
    {
        proof {
            assert(records.0@[z as int]@ == rv[z as int]);
        }
        let key = records.0[z].apex.duplicate();
        let apex_copy = records.0[z].apex.duplicate();
        match build_zone(apex_copy, &records.0[z].entries) {
            Err(_) => {
                proof {
                    assert(!zone_ok(rv[z as int]));
                    assert(!all_zones_ok(rv));
                }
                return Err(CatalogError::InvalidZone);
            },
            Ok(zone) => {
                let ghost prev = catalog_entry_views(entries@);
                entries.push(CatalogEntry { key, authority: Authority::Primary(zone) });
                proof {
                    lemma_primaries_of_push(rv.take(z as int), rv[z as int]);
                    assert(rv.take(z + 1) =~= rv.take(z as int).push(rv[z as int]));
                    assert(catalog_entry_views(entries@) =~= prev.push(
                        CatalogEntryV {
                            key: rv[z as int].apex,
                            authority: AuthorityV::Primary(zone_of(rv[z as int])),
                        },
                    ));
                }
            },
        }
        z = z + 1;
    }
    let ghost prims = catalog_entry_views(entries@);
    entries.push(CatalogEntry { key: DNSName::root(), authority: Authority::Forward });
    proof {
        assert(rv.take(rv.len() as int) =~= rv);
        assert(prims == primaries_of(rv));
        lemma_primaries_of_index(rv);
        assert(catalog_entry_views(entries@) =~= catalog_of(rv));
        let cv = catalog_entry_views(entries@);
        assert forall|a: int, b: int| 0 <= a < b < cv.len() implies #[trigger] cv[a].key
            != #[trigger] cv[b].key by {
            if b < cv.len() - 1 {
                assert(cv[a].key == rv[a].apex);
                assert(cv[b].key == rv[b].apex);
            } else {
                assert(cv[a].key == rv[a].apex);
                assert(zone_ok(rv[a]));
                assert(cv[b].key.len() == 0);
            }
        }
        assert(root_forward_at(cv, cv.len() - 1));
        assert(catalog_wf(cv));
    }
    let c = Catalog { entries };
    Ok(c)
}

impl Catalog {
    /// Route one query to the authority with the longest key that is a
    /// suffix of the queried name, and let it answer: a primary zone
    /// returns its matching record set or reports no data, every name
    /// routed to the root goes to the forwarder.
    pub fn dispatch<'a>(&'a self, name: &DNSName, qtype: QueryType) -> (r: QueryOutcome<'a>)
        ensures
            r@ == dispatch_spec(self@, name@, qtype),
    {
        proof {
            use_type_invariant(self);
        }
        let ghost c = self@;
        let mut best: usize = 0;
        let mut found = false;
        let mut i: usize = 0;
        proof {
            assert(c.take(0) =~= Seq::<CatalogEntryV>::empty());
        }
        while i < self.entries.len()
            invariant
                c == self@,
                catalog_wf(c),
                0 <= i <= self.entries@.len(),
                c.len() == self.entries@.len(),
                forall|k: int| 0 <= k < c.len() ==> #[trigger] self.entries@[k]@ == c[k],
                !found ==> route_idx(c.take(i as int), name@) == -1,
                found ==> 0 <= best < i && route_idx(c.take(i as int), name@) == best as int,
            decreases self.entries@.len() - i,
        {
            proof {
                assert(self.entries@[i as int]@ == c[i as int]);
                assert(c.take(i + 1).drop_last() =~= c.take(i as int));
                assert(c.take(i + 1)[i as int] == c[i as int]);
            }
            let matches_name = self.entries[i].key.suffix_of(name);
            let better;
            if !found {
                better = matches_name;
            } else {
                proof {
                    assert(self.entries@[best as int]@ == c[best as int]);
                }
                better = matches_name && self.entries[i].key.label_count() > self.entries[
                    best
                ].key.label_count();
            }
            if better {
                best = i;
                found = true;
            }
            i = i + 1;
        }
        proof {
            assert(c.take(c.len() as int) =~= c);
            if !found {
                lemma_route_idx(c, name@);
                let rt = choose|k: int| root_forward_at(c, k);
                assert(root_forward_at(c, rt));
                assert(is_suffix(c[rt].key, name@));
                assert(false);
            }
            assert(route_idx(c, name@) == best as int);
            assert(self.entries@[best as int]@ == c[best as int]);
        }
        let entry = &self.entries[best];
        match &entry.authority {
            Authority::Forward => QueryOutcome::Forwarded,
            Authority::Primary(zone) => {
                let ghost zv = zone@;
                let mut j: usize = 0;
                proof {
                    assert(zv.rrsets.skip(0) =~= zv.rrsets);
                }
                while j < zone.rrsets.len()
                    invariant
                        c == self@,
                        route_idx(c, name@) == best as int,
                        0 <= best < c.len(),
                        c[best as int].authority == AuthorityV::Primary(zv),
                        zv == zone@,
                        0 <= j <= zone.rrsets@.len(),
                        zv.rrsets.len() == zone.rrsets@.len(),
                        forall|k: int|
                            0 <= k < zv.rrsets.len() ==> #[trigger] zone.rrsets@[k]@
                                == zv.rrsets[k],
                        find_rrset(zv.rrsets, name@, qtype) == find_rrset(
                            zv.rrsets.skip(j as int),
                            name@,
                            qtype,
                        ),
                    decreases zone.rrsets@.len() - j,
                {
                    proof {
                        assert(zone.rrsets@[j as int]@ == zv.rrsets[j as int]);
                        assert(zv.rrsets.skip(j as int)[0] == zv.rrsets[j as int]);
                    }
                    let rs = &zone.rrsets[j];
                    let type_matches = query_type_matches(qtype, rs.rtype);
                    if type_matches && rs.name.eq_name(name) {
                        return QueryOutcome::Answer(rs);
                    }
                    proof {
                        assert(zv.rrsets.skip(j as int).drop_first() =~= zv.rrsets.skip(j + 1));
                    }
                    j = j + 1;
                }
                proof {
                    assert(zv.rrsets.skip(zv.rrsets.len() as int) =~= Seq::<RecordSetV>::empty());
                }
                QueryOutcome::NoData
            },
        }
    }
}

impl Catalog {
    #[verifier::type_invariant]
    spec fn type_wf(self) -> bool {
        catalog_wf(self@)
    }
}

} // verus!
