use vstd::prelude::*;

use crate::name::DNSName;
use crate::name::is_suffix;
use crate::name::wire_len;
use crate::record::RecordSet;
use crate::record::RecordSetV;
use crate::record::Ipv4;
use crate::record::a_rrset;
use crate::record::soa_rrset;
use crate::record::generate_a;
use crate::record::generate_soa;

verus! {

/// Why catalog construction failed: the same apex configured twice, or a
/// zone that cannot satisfy the zone invariants.
#[derive(Clone, Copy, Debug, PartialEq, Eq, Structural)]
pub enum CatalogError {
    DuplicateApex,
    InvalidZone,
}

/// One configured host entry: a name mapped to an IPv4 address.
#[derive(Debug, PartialEq, Eq)]
pub struct HostEntry {
    pub name: DNSName,
    pub addr: Ipv4,
}

#[verifier::ext_equal]
pub struct HostEntryV {
    pub name: Seq<Seq<u8>>,
    pub addr: Ipv4,
}

impl View for HostEntry {
    type V = HostEntryV;

    open spec fn view(&self) -> HostEntryV {
        HostEntryV { name: self.name@, addr: self.addr }
    }
}

/// The views of a sequence of owned host entries.
pub open spec fn host_entry_views(vs: Seq<HostEntry>) -> Seq<HostEntryV> {
    Seq::new(vs.len(), |i: int| vs[i]@)
}

/// One configured zone: an apex domain and its host entries.
#[derive(Debug, PartialEq, Eq)]
pub struct ZoneEntries {
    pub apex: DNSName,
    pub entries: Vec<HostEntry>,
}

#[verifier::ext_equal]
pub struct ZoneEntriesV {
    pub apex: Seq<Seq<u8>>,
    pub entries: Seq<HostEntryV>,
}

impl View for ZoneEntries {
    type V = ZoneEntriesV;

    open spec fn view(&self) -> ZoneEntriesV {
        ZoneEntriesV { apex: self.apex@, entries: host_entry_views(self.entries@) }
    }
}

/// The whole configuration: the zones to serve, in order.
#[derive(Debug, PartialEq, Eq)]
pub struct Records(pub Vec<ZoneEntries>);

impl View for Records {
    type V = Seq<ZoneEntriesV>;

    open spec fn view(&self) -> Seq<ZoneEntriesV> {
        Seq::new(self.0@.len(), |i: int| self.0@[i]@)
    }
}

/// An authoritative zone: its apex plus its record sets, the apex SOA
/// first, then one A record set per configured entry, in order.
#[derive(Debug, PartialEq, Eq)]
pub struct Zone {
    pub apex: DNSName,
    pub rrsets: Vec<RecordSet>,
}

#[verifier::ext_equal]
pub struct ZoneV {
    pub apex: Seq<Seq<u8>>,
    pub rrsets: Seq<RecordSetV>,
}

/// The views of a sequence of owned record sets.
pub open spec fn record_set_views(vs: Seq<RecordSet>) -> Seq<RecordSetV> {
    Seq::new(vs.len(), |i: int| vs[i]@)
}

impl View for Zone {
    type V = ZoneV;

    open spec fn view(&self) -> ZoneV {
        ZoneV { apex: self.apex@, rrsets: record_set_views(self.rrsets@) }
    }
}

/// The A record sets synthesized for a list of entries, in order.
pub open spec fn a_rrsets_of(entries: Seq<HostEntryV>) -> Seq<RecordSetV>
    decreases entries.len(),
{
    if entries.len() == 0 {
        Seq::<RecordSetV>::empty()
    } else {
        seq![a_rrset(entries[0].name, entries[0].addr)] + a_rrsets_of(entries.drop_first())
    }
}

/// Appending one entry appends its A record set.
pub proof fn lemma_a_rrsets_of_push(entries: Seq<HostEntryV>, e: HostEntryV)
    ensures
        a_rrsets_of(entries.push(e)) == a_rrsets_of(entries).push(a_rrset(e.name, e.addr)),
    decreases entries.len(),
{
    if entries.len() == 0 {
        assert(entries.push(e).drop_first() =~= Seq::<HostEntryV>::empty());
        assert(a_rrsets_of(Seq::<HostEntryV>::empty()) == Seq::<RecordSetV>::empty());
        assert(a_rrsets_of(entries.push(e)) =~= a_rrsets_of(entries).push(
            a_rrset(e.name, e.addr),
        ));
    } else {
        lemma_a_rrsets_of_push(entries.drop_first(), e);
        assert(entries.push(e).drop_first() =~= entries.drop_first().push(e));
        assert(entries.push(e)[0] == entries[0]);
        assert(a_rrsets_of(entries.push(e)) =~= a_rrsets_of(entries).push(
            a_rrset(e.name, e.addr),
        ));
    }
}

/// Each A record set sits at its entry's index.
pub proof fn lemma_a_rrsets_of_index(entries: Seq<HostEntryV>)
    ensures
        a_rrsets_of(entries).len() == entries.len(),
        forall|i: int| 0 <= i < entries.len() ==> #[trigger] a_rrsets_of(entries)[i] == a_rrset(
            entries[i].name,
            entries[i].addr,
        ),
    decreases entries.len(),
{
    if entries.len() > 0 {
        lemma_a_rrsets_of_index(entries.drop_first());
        assert forall|i: int| 0 <= i < entries.len() implies #[trigger] a_rrsets_of(entries)[i]
            == a_rrset(entries[i].name, entries[i].addr) by {
            if i > 0 {
                assert(a_rrsets_of(entries)[i] == a_rrsets_of(entries.drop_first())[i - 1]);
                assert(entries.drop_first()[i - 1] == entries[i]);
            }
        }
    }
}

/// The zone synthesized from one configured zone.
pub open spec fn zone_of(z: ZoneEntriesV) -> ZoneV {
    ZoneV { apex: z.apex, rrsets: seq![soa_rrset(z.apex)] + a_rrsets_of(z.entries) }
}

/// A configured zone the synthesizer accepts: a non-root apex with room
/// for the administrative contact label, and entry names that are unique
/// and at or below the apex.
pub open spec fn zone_ok(z: ZoneEntriesV) -> bool {
    &&& z.apex.len() >= 1
    &&& wire_len(z.apex) + 14 <= 255
    &&& forall|i: int, j: int|
        0 <= i < j < z.entries.len() ==> #[trigger] z.entries[i].name != #[trigger] z.entries[j].name
    &&& forall|i: int| 0 <= i < z.entries.len() ==> is_suffix(z.apex, #[trigger] z.entries[i].name)
}

/// Build the zone for one configured (apex, entries) pair: the apex SOA
/// record set with the fixed parameters, then one A record set per entry.
pub fn build_zone(apex: DNSName, entries: &Vec<HostEntry>) -> (r: Result<Zone, CatalogError>)
    ensures
        ({
            let zv = ZoneEntriesV { apex: apex@, entries: host_entry_views(entries@) };
            match r {
                Ok(z) => zone_ok(zv) && z@ == zone_of(zv),
                Err(e) => e == CatalogError::InvalidZone && !zone_ok(zv),
            }
        }),
{
    let ghost zv = ZoneEntriesV { apex: apex@, entries: host_entry_views(entries@) };

    if apex.label_count() == 0 {
        return Err(CatalogError::InvalidZone);
    }
    let wire = apex.wire_size();
    if wire > 255 - 14 {
        return Err(CatalogError::InvalidZone);
    }

    // Entry names must be unique within the zone.
    let mut i: usize = 0;
    while i < entries.len()
        invariant
            0 <= i <= entries@.len(),
            zv == (ZoneEntriesV { apex: apex@, entries: host_entry_views(entries@) }),
            zv.entries.len() == entries@.len(),
            forall|k: int| 0 <= k < entries@.len() ==> #[trigger] entries@[k]@ == zv.entries[k],
            forall|a: int, b: int|
                0 <= a < b < entries@.len() && b < i ==> #[trigger] zv.entries[a].name
                    != #[trigger] zv.entries[b].name,
        decreases entries@.len() - i,
    {
        let mut j: usize = 0;
        while j < i
            invariant
                0 <= j <= i < entries@.len(),
                zv == (ZoneEntriesV { apex: apex@, entries: host_entry_views(entries@) }),
                zv.entries.len() == entries@.len(),
                forall|k: int| 0 <= k < entries@.len() ==> #[trigger] entries@[k]@ == zv.entries[k],
                forall|a: int| 0 <= a < j ==> #[trigger] zv.entries[a].name != zv.entries[i as int].name,
            decreases i - j,
        {
            proof {
                assert(entries@[j as int]@ == zv.entries[j as int]);
                assert(entries@[i as int]@ == zv.entries[i as int]);
            }
            if entries[j].name.eq_name(&entries[i].name) {
                proof {
                    assert(zv.entries[j as int].name == zv.entries[i as int].name);
                    assert(!zone_ok(zv));
                }
                return Err(CatalogError::InvalidZone);
            }
            j = j + 1;
        }
        i = i + 1;
    }

    // Every entry must lie at or below the apex.
    let mut i2: usize = 0;
    while i2 < entries.len()
        invariant
            0 <= i2 <= entries@.len(),
            zv == (ZoneEntriesV { apex: apex@, entries: host_entry_views(entries@) }),
            zv.entries.len() == entries@.len(),
            zv.apex == apex@,
            forall|k: int| 0 <= k < entries@.len() ==> #[trigger] entries@[k]@ == zv.entries[k],
            forall|k: int| 0 <= k < i2 ==> is_suffix(zv.apex, #[trigger] zv.entries[k].name),
        decreases entries@.len() - i2,
    {
        proof {
            assert(entries@[i2 as int]@ == zv.entries[i2 as int]);
        }
        if !apex.suffix_of(&entries[i2].name) {
            proof {
                assert(!is_suffix(zv.apex, zv.entries[i2 as int].name));
                assert(!zone_ok(zv));
            }
            return Err(CatalogError::InvalidZone);
        }
        i2 = i2 + 1;
    }

    // Synthesize the record sets.
    let apex_copy = apex.duplicate();
    let mut rrsets: Vec<RecordSet> = Vec::new();
    rrsets.push(generate_soa(apex));
    proof {
        assert(zv.entries.take(0) =~= Seq::<HostEntryV>::empty());
        assert(a_rrsets_of(Seq::<HostEntryV>::empty()) == Seq::<RecordSetV>::empty());
        assert(record_set_views(rrsets@) =~= seq![soa_rrset(zv.apex)] + a_rrsets_of(
            zv.entries.take(0),
        ));
    }
    let mut e: usize = 0;
    while e < entries.len()
        invariant
            0 <= e <= entries@.len(),
            zv == (ZoneEntriesV { apex: apex@, entries: host_entry_views(entries@) }),
            zv.entries.len() == entries@.len(),
            zv.apex == apex_copy@,
            forall|k: int| 0 <= k < entries@.len() ==> #[trigger] entries@[k]@ == zv.entries[k],
            record_set_views(rrsets@) == seq![soa_rrset(zv.apex)] + a_rrsets_of(
                zv.entries.take(e as int),
            ),
        decreases entries@.len() - e,
    {
        let name = entries[e].name.duplicate();
        let rs = generate_a(name, entries[e].addr);
        let ghost prev = record_set_views(rrsets@);
        rrsets.push(rs);
        proof {
            lemma_a_rrsets_of_push(zv.entries.take(e as int), zv.entries[e as int]);
            assert(zv.entries.take(e + 1) =~= zv.entries.take(e as int).push(zv.entries[e as int]));
            assert(entries@[e as int]@ == zv.entries[e as int]);
            assert(record_set_views(rrsets@) =~= prev.push(rs@));
            assert(record_set_views(rrsets@) =~= seq![soa_rrset(zv.apex)] + a_rrsets_of(
                zv.entries.take(e + 1),
            ));
        }
        e = e + 1;
    }
    let z = Zone { apex: apex_copy, rrsets };
    proof {
        assert(zv.entries.take(zv.entries.len() as int) =~= zv.entries);
        assert(z@ =~= zone_of(zv));
    }
    Ok(z)
}

} // verus!
