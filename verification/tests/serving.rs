use examplens::name::DNSName;
use examplens::record::Ipv4;
use examplens::record::QueryType;
use examplens::record::RecordData;
use examplens::record::RecordType;
use examplens::record::generate_a;
use examplens::record::generate_soa;
use examplens::zone::CatalogError;
use examplens::zone::HostEntry;
use examplens::zone::Records;
use examplens::zone::ZoneEntries;
use examplens::catalog::Catalog;
use examplens::catalog::QueryOutcome;
use examplens::catalog::generate_catalog;

fn dn(s: &str) -> DNSName {
    DNSName::parse(s.as_bytes()).expect("valid name")
}

fn zone(apex: &str, entries: &[(&str, [u8; 4])]) -> ZoneEntries {
    ZoneEntries {
        apex: dn(apex),
        entries: entries
            .iter()
            .map(|(n, a)| HostEntry { name: dn(n), addr: Ipv4::new(a[0], a[1], a[2], a[3]) })
            .collect(),
    }
}

fn example_catalog() -> Catalog {
    let records = Records(vec![zone("example.com", &[("www.example.com", [93, 184, 216, 34])])]);
    generate_catalog(records).expect("catalog builds")
}

#[test]
fn generate_a_fixed_shape() {
    let rs = generate_a(dn("www.example.com"), Ipv4::new(1, 2, 3, 4));
    assert_eq!(rs.name, dn("www.example.com"));
    assert_eq!(rs.rtype, RecordType::A);
    assert_eq!(rs.ttl, 30);
    assert_eq!(rs.values, vec![RecordData::A(Ipv4::new(1, 2, 3, 4))]);
}

#[test]
fn generate_soa_fixed_parameters() {
    let rs = generate_soa(dn("example.com"));
    assert_eq!(rs.name, dn("example.com"));
    assert_eq!(rs.rtype, RecordType::Soa);
    assert_eq!(rs.ttl, 30);
    assert_eq!(rs.values.len(), 1);
    match &rs.values[0] {
        RecordData::Soa(soa) => {
            assert_eq!(soa.mname, dn("example.com"));
            assert_eq!(soa.rname, dn("administrator.example.com"));
            assert_eq!(soa.serial, 1);
            assert_eq!(soa.refresh, 60);
            assert_eq!(soa.retry, 1);
            assert_eq!(soa.expire, 120);
            assert_eq!(soa.minimum, 30);
        },
        other => panic!("expected SOA data, got {:?}", other),
    }
}

#[test]
fn a_query_returns_configured_address() {
    let catalog = example_catalog();
    match catalog.dispatch(&dn("www.example.com"), QueryType::A) {
        QueryOutcome::Answer(rs) => {
            assert_eq!(rs.rtype, RecordType::A);
            assert_eq!(rs.ttl, 30);
            assert_eq!(rs.name, dn("www.example.com"));
            assert_eq!(rs.values, vec![RecordData::A(Ipv4::new(93, 184, 216, 34))]);
        },
        other => panic!("expected an answer, got {:?}", other),
    }
}

#[test]
fn soa_query_at_apex_returns_fixed_soa() {
    let catalog = example_catalog();
    match catalog.dispatch(&dn("example.com"), QueryType::Soa) {
        QueryOutcome::Answer(rs) => {
            assert_eq!(rs.rtype, RecordType::Soa);
            assert_eq!(rs.ttl, 30);
            match &rs.values[0] {
                RecordData::Soa(soa) => {
                    assert_eq!(soa.serial, 1);
                    assert_eq!(soa.refresh, 60);
                    assert_eq!(soa.retry, 1);
                    assert_eq!(soa.expire, 120);
                    assert_eq!(soa.minimum, 30);
                    assert_eq!(soa.rname, dn("administrator.example.com"));
                },
                other => panic!("expected SOA data, got {:?}", other),
            }
        },
        other => panic!("expected an answer, got {:?}", other),
    }
}

#[test]
fn uncovered_name_is_forwarded() {
    let catalog = example_catalog();
    assert!(matches!(catalog.dispatch(&dn("unknown.org"), QueryType::A), QueryOutcome::Forwarded));
    assert!(matches!(
        catalog.dispatch(&dn("unknown.org"), QueryType::Other),
        QueryOutcome::Forwarded
    ));
}

#[test]
fn covered_name_without_record_is_nodata() {
    let catalog = example_catalog();
    // Covered by the zone, but no A record at the apex itself.
    assert!(matches!(catalog.dispatch(&dn("example.com"), QueryType::A), QueryOutcome::NoData));
    // SOA lives only at the apex.
    assert!(matches!(
        catalog.dispatch(&dn("www.example.com"), QueryType::Soa),
        QueryOutcome::NoData
    ));
    // Other query types get an authoritative empty answer.
    assert!(matches!(
        catalog.dispatch(&dn("www.example.com"), QueryType::Other),
        QueryOutcome::NoData
    ));
    // Unregistered names below the apex are still covered by the zone.
    assert!(matches!(catalog.dispatch(&dn("ftp.example.com"), QueryType::A), QueryOutcome::NoData));
}

#[test]
fn longest_suffix_routing_prefers_deeper_zone() {
    let records = Records(vec![
        zone("a.example", &[("x.b.a.example", [10, 0, 0, 1])]),
        zone("b.a.example", &[("x.b.a.example", [10, 0, 0, 2])]),
    ]);
    let catalog = generate_catalog(records).expect("catalog builds");
    match catalog.dispatch(&dn("x.b.a.example"), QueryType::A) {
        QueryOutcome::Answer(rs) => {
            assert_eq!(rs.values, vec![RecordData::A(Ipv4::new(10, 0, 0, 2))]);
        },
        other => panic!("expected an answer from b.a.example, got {:?}", other),
    }
    // A name under a.example but not under b.a.example routes to a.example.
    assert!(matches!(catalog.dispatch(&dn("y.a.example"), QueryType::A), QueryOutcome::NoData));
}

#[test]
fn apex_a_record_coexists_with_soa() {
    let records = Records(vec![zone("example.com", &[("example.com", [198, 51, 100, 7])])]);
    let catalog = generate_catalog(records).expect("catalog builds");
    match catalog.dispatch(&dn("example.com"), QueryType::A) {
        QueryOutcome::Answer(rs) => {
            assert_eq!(rs.values, vec![RecordData::A(Ipv4::new(198, 51, 100, 7))]);
        },
        other => panic!("expected an answer, got {:?}", other),
    }
    assert!(matches!(
        catalog.dispatch(&dn("example.com"), QueryType::Soa),
        QueryOutcome::Answer(_)
    ));
}

#[test]
fn building_twice_gives_identical_catalogs() {
    let c1 = example_catalog();
    let c2 = example_catalog();
    assert_eq!(c1, c2);
}

#[test]
fn duplicate_apex_is_rejected() {
    let records = Records(vec![
        zone("example.com", &[("www.example.com", [93, 184, 216, 34])]),
        zone("example.com", &[("mail.example.com", [93, 184, 216, 35])]),
    ]);
    assert_eq!(generate_catalog(records), Err(CatalogError::DuplicateApex));
}

#[test]
fn entry_outside_zone_is_rejected() {
    let records = Records(vec![zone("example.com", &[("www.other.org", [192, 0, 2, 1])])]);
    assert_eq!(generate_catalog(records), Err(CatalogError::InvalidZone));
}

#[test]
fn duplicate_entry_name_is_rejected() {
    let records = Records(vec![zone(
        "example.com",
        &[("www.example.com", [192, 0, 2, 1]), ("www.example.com", [192, 0, 2, 2])],
    )]);
    assert_eq!(generate_catalog(records), Err(CatalogError::InvalidZone));
}

#[test]
fn root_apex_zone_is_rejected() {
    let records = Records(vec![zone(".", &[("www.example.com", [192, 0, 2, 1])])]);
    assert_eq!(generate_catalog(records), Err(CatalogError::InvalidZone));
}

#[test]
fn end_to_end_scenario() {
    // Configuration { "example.com": { "www.example.com": "93.184.216.34" } }.
    let catalog = example_catalog();
    match catalog.dispatch(&dn("www.example.com"), QueryType::A) {
        QueryOutcome::Answer(rs) => {
            assert_eq!(rs.values, vec![RecordData::A(Ipv4::new(93, 184, 216, 34))]);
            assert_eq!(rs.ttl, 30);
        },
        other => panic!("expected an answer, got {:?}", other),
    }
    match catalog.dispatch(&dn("example.com"), QueryType::Soa) {
        QueryOutcome::Answer(rs) => match &rs.values[0] {
            RecordData::Soa(soa) => {
                assert_eq!(
                    (soa.serial, soa.refresh, soa.retry, soa.expire, soa.minimum),
                    (1, 60, 1, 120, 30)
                );
            },
            other => panic!("expected SOA data, got {:?}", other),
        },
        other => panic!("expected an answer, got {:?}", other),
    }
    assert!(matches!(catalog.dispatch(&dn("unknown.org"), QueryType::A), QueryOutcome::Forwarded));
}
