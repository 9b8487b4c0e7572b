use vstd::prelude::*;

use crate::name::DNSName;
use crate::name::admin_label;
use crate::name::wire_len;

verus! {

/// An IPv4 address as four octets.
#[derive(Clone, Copy, Debug, PartialEq, Eq, Structural)]
pub struct Ipv4 {
    pub o0: u8,
    pub o1: u8,
    pub o2: u8,
    pub o3: u8,
}

impl Ipv4 {
    pub fn new(o0: u8, o1: u8, o2: u8, o3: u8) -> (r: Ipv4)
        ensures
            r == (Ipv4 { o0, o1, o2, o3 }),
    {
        Ipv4 { o0, o1, o2, o3 }
    }
}

/// The record types this server synthesizes.
#[derive(Clone, Copy, Debug, PartialEq, Eq, Structural)]
pub enum RecordType {
    A,
    Soa,
}

/// What a query may ask for: one of the two local record types, or
/// anything else, which a local zone answers with no data.
#[derive(Clone, Copy, Debug, PartialEq, Eq, Structural)]
pub enum QueryType {
    A,
    Soa,
    Other,
}

/// Does a record of type `t` answer a query for `q`?
pub open spec fn query_matches(q: QueryType, t: RecordType) -> bool {
    (q is A && t is A) || (q is Soa && t is Soa)
}

/// Does a record of type `t` answer a query for `q`?
pub fn query_type_matches(q: QueryType, t: RecordType) -> (r: bool)
    ensures
        r == query_matches(q, t),
{
    match (q, t) {
        (QueryType::A, RecordType::A) => true,
        (QueryType::Soa, RecordType::Soa) => true,
        _ => false,
    }
}

/// The data of a start-of-authority record.
#[derive(Debug, PartialEq, Eq)]
pub struct SoaData {
    pub mname: DNSName,
    pub rname: DNSName,
    pub serial: u32,
    pub refresh: i32,
    pub retry: i32,
    pub expire: i32,
    pub minimum: u32,
}

#[verifier::ext_equal]
pub struct SoaDataV {
    pub mname: Seq<Seq<u8>>,
    pub rname: Seq<Seq<u8>>,
    pub serial: u32,
    pub refresh: i32,
    pub retry: i32,
    pub expire: i32,
    pub minimum: u32,
}

impl View for SoaData {
    type V = SoaDataV;

    open spec fn view(&self) -> SoaDataV {
        SoaDataV {
            mname: self.mname@,
            rname: self.rname@,
            serial: self.serial,
            refresh: self.refresh,
            retry: self.retry,
            expire: self.expire,
            minimum: self.minimum,
        }
    }
}

/// The value of one record.
#[derive(Debug, PartialEq, Eq)]
pub enum RecordData {
    A(Ipv4),
    Soa(SoaData),
}

#[verifier::ext_equal]
pub enum RecordDataV {
    A(Ipv4),
    Soa(SoaDataV),
}

impl View for RecordData {
    type V = RecordDataV;

    open spec fn view(&self) -> RecordDataV {
        match self {
            RecordData::A(a) => RecordDataV::A(*a),
            RecordData::Soa(s) => RecordDataV::Soa(s@),
        }
    }
}

/// One or more records sharing an owning name, a type and a TTL.
#[derive(Debug, PartialEq, Eq)]
pub struct RecordSet {
    pub name: DNSName,
    pub rtype: RecordType,
    pub ttl: u32,
    pub values: Vec<RecordData>,
}

#[verifier::ext_equal]
pub struct RecordSetV {
    pub name: Seq<Seq<u8>>,
    pub rtype: RecordType,
    pub ttl: u32,
    pub values: Seq<RecordDataV>,
}

/// The views of a sequence of owned record values.
pub open spec fn record_data_views(vs: Seq<RecordData>) -> Seq<RecordDataV> {
    Seq::new(vs.len(), |i: int| vs[i]@)
}

impl View for RecordSet {
    type V = RecordSetV;

    open spec fn view(&self) -> RecordSetV {
        RecordSetV {
            name: self.name@,
            rtype: self.rtype,
            ttl: self.ttl,
            values: record_data_views(self.values@),
        }
    }
}

/// The A record set synthesized for one configured entry: the entry's
/// name, TTL 30, one address value.
pub open spec fn a_rrset(name: Seq<Seq<u8>>, addr: Ipv4) -> RecordSetV {
    RecordSetV { name, rtype: RecordType::A, ttl: 30, values: seq![RecordDataV::A(addr)] }
}

/// The fixed start-of-authority data synthesized for a zone apex:
/// serial 1, refresh 60, retry 1, expire 120, minimum TTL 30, and the
/// administrative contact `administrator.<apex>`.
pub open spec fn soa_rdata(apex: Seq<Seq<u8>>) -> SoaDataV {
    SoaDataV {
        mname: apex,
        rname: seq![admin_label()] + apex,
        serial: 1,
        refresh: 60,
        retry: 1,
        expire: 120,
        minimum: 30,
    }
}

/// The SOA record set synthesized at a zone apex, with TTL 30.
pub open spec fn soa_rrset(apex: Seq<Seq<u8>>) -> RecordSetV {
    RecordSetV {
        name: apex,
        rtype: RecordType::Soa,
        ttl: 30,
        values: seq![RecordDataV::Soa(soa_rdata(apex))],
    }
}

/// Synthesize the single-valued A record set for one configured entry.
pub fn generate_a(name: DNSName, address: Ipv4) -> (r: RecordSet)
    ensures
        r@ == a_rrset(name@, address),
{
    let mut values: Vec<RecordData> = Vec::new();
    values.push(RecordData::A(address));
    let r = RecordSet { name, rtype: RecordType::A, ttl: 30, values };
    proof {
        assert(record_data_views(r.values@) =~= seq![RecordDataV::A(address)]);
        assert(r@ =~~= a_rrset(r.name@, address));
    }
    r
}

/// Synthesize the apex SOA record set with the fixed zone parameters.
pub fn generate_soa(domain: DNSName) -> (r: RecordSet)
    requires
        wire_len(domain@) + 14 <= 255,
    ensures
        r@ == soa_rrset(domain@),
{
    let rname = domain.admin_contact();
    let apex_copy = domain.duplicate();
    let soa = SoaData {
        mname: domain,
        rname,
        serial: 1,
        refresh: 60,
        retry: 1,
        expire: 120,
        minimum: 30,
    };
    let mut values: Vec<RecordData> = Vec::new();
    values.push(RecordData::Soa(soa));
    let r = RecordSet { name: apex_copy, rtype: RecordType::Soa, ttl: 30, values };
    proof {
        assert(record_data_views(r.values@) =~= seq![RecordDataV::Soa(soa_rdata(r.name@))]);
        assert(r@ =~~= soa_rrset(r.name@));
    }
    r
}

} // verus!
