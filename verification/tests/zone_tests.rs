use nameserver::parser::Type;
use nameserver::record::{Name, Record, RecordInner};
use nameserver::zone::{same_name, RecordStorage};

fn labels(text: &str) -> Vec<String> {
    text.split('.').map(str::to_owned).collect()
}

fn a(last: u8) -> Record {
    Record { inner: RecordInner::A { addr: [10, 0, 0, last] }, ttl: 60 }
}

fn ns(target: &str) -> Record {
    Record { inner: RecordInner::NS { ns: Name(labels(target)) }, ttl: 60 }
}

fn cname(target: &str) -> Record {
    Record { inner: RecordInner::CNAME { to: Name(labels(target)) }, ttl: 60 }
}

fn soa(serial: u32) -> Record {
    Record {
        inner: RecordInner::SOA {
            serial,
            mname: Name(labels("ns.example.com")),
            rname: Name(labels("admin.example.com")),
            refresh: 1,
            retry: 2,
            expire: 3,
            minimum: 4,
        },
        ttl: 60,
    }
}

fn txt(content: &str) -> Record {
    Record { inner: RecordInner::TXT { content: content.to_string() }, ttl: 60 }
}

fn zone(entries: Vec<(&str, Vec<Record>)>) -> RecordStorage {
    RecordStorage::from_entries(
        entries.into_iter().map(|(name, records)| (Name(labels(name)), records)).collect(),
    )
}

fn describe(records: &[&Record]) -> Vec<String> {
    records.iter().map(|r| format!("{:?}", r)).collect()
}

fn queried(storage: &RecordStorage, name: &str, ty: Type) -> (String, Vec<String>) {
    let segs = if name.is_empty() { Vec::new() } else { labels(name) };
    let (scope, found) = storage.query(&segs, ty);
    (scope.join("."), describe(&found))
}

fn resolved(storage: &RecordStorage, name: &str, ty: Type) -> (String, Vec<String>) {
    let segs = if name.is_empty() { Vec::new() } else { labels(name) };
    let (scope, found) = storage.resolve(&segs, ty);
    (scope.join("."), describe(&found))
}

fn all_at(storage: &RecordStorage, name: &str) -> Vec<String> {
    describe(&storage.query_all(&labels(name)))
}

#[test]
fn names_are_compared_label_by_label() {
    assert!(same_name(&labels("a.b"), &labels("a.b")));
    assert!(same_name(&[], &[]));
    assert!(!same_name(&labels("a.b"), &labels("a")));
    assert!(!same_name(&labels("a.b"), &labels("a.c")));
    assert!(!same_name(&labels("a.b"), &labels("b.a")));
    assert!(!same_name(&labels("A.b"), &labels("a.b")));
    assert!(!same_name(&labels("ab"), &labels("a.b")));
}

#[test]
fn an_empty_zone_knows_nothing() {
    let storage = RecordStorage::new();
    assert!(all_at(&storage, "example.com").is_empty());
    assert_eq!(queried(&storage, "www.example.com", Type::NS), ("com".to_string(), vec![]));
    assert_eq!(queried(&storage, "www.example.com", Type::A), ("www.example.com".to_string(), vec![]));
    assert_eq!(resolved(&storage, "www.example.com", Type::A), ("com".to_string(), vec![]));
}

#[test]
fn all_records_of_a_name_in_their_order() {
    let storage = zone(vec![
        ("example.com", vec![a(1), txt("x"), a(2)]),
        ("other.com", vec![a(3)]),
    ]);
    assert_eq!(all_at(&storage, "example.com"), describe(&[&a(1), &txt("x"), &a(2)]));
    assert_eq!(all_at(&storage, "other.com"), describe(&[&a(3)]));
    assert!(all_at(&storage, "com").is_empty());
    assert!(all_at(&storage, "www.example.com").is_empty());
    assert!(all_at(&storage, "Example.com").is_empty());
}

#[test]
fn of_two_entries_under_one_name_the_later_counts() {
    let storage = zone(vec![
        ("example.com", vec![a(1), a(2)]),
        ("b.com", vec![a(9)]),
        ("example.com", vec![a(3)]),
    ]);
    assert_eq!(all_at(&storage, "example.com"), describe(&[&a(3)]));
    assert_eq!(all_at(&storage, "b.com"), describe(&[&a(9)]));
}

#[test]
fn an_entry_without_records_leaves_its_name_out() {
    let storage = zone(vec![
        ("example.com", vec![a(1)]),
        ("b.com", vec![a(9)]),
        ("example.com", vec![]),
        ("never.there", vec![]),
    ]);
    assert!(all_at(&storage, "example.com").is_empty());
    assert!(all_at(&storage, "never.there").is_empty());
    assert_eq!(all_at(&storage, "b.com"), describe(&[&a(9)]));

    let storage = zone(vec![
        ("example.com", vec![a(1)]),
        ("example.com", vec![]),
        ("example.com", vec![a(5)]),
    ]);
    assert_eq!(all_at(&storage, "example.com"), describe(&[&a(5)]));
}

#[test]
fn a_zone_without_entries_is_the_empty_zone() {
    let storage = RecordStorage::from_entries(vec![]);
    assert!(all_at(&storage, "example.com").is_empty());
    assert_eq!(resolved(&storage, "a.b", Type::A), ("b".to_string(), vec![]));
}

#[test]
fn an_exact_lookup_filters_by_type() {
    let storage = zone(vec![("example.com", vec![a(1), txt("x"), a(2), ns("ns1.example.com")])]);
    let at = "example.com".to_string();
    assert_eq!(queried(&storage, "example.com", Type::A), (at.clone(), describe(&[&a(1), &a(2)])));
    assert_eq!(queried(&storage, "example.com", Type::TXT), (at.clone(), describe(&[&txt("x")])));
    assert_eq!(queried(&storage, "example.com", Type::AAAA), (at, vec![]));
}

#[test]
fn other_types_do_not_climb() {
    let storage = zone(vec![("example.com", vec![a(1), cname("x.y")])]);
    for ty in [Type::A, Type::CNAME, Type::TXT, Type::AAAA, Type::MX, Type::PTR, Type::ANY] {
        assert_eq!(
            queried(&storage, "www.example.com", ty),
            ("www.example.com".to_string(), vec![])
        );
    }
}

#[test]
fn ns_and_soa_climb_to_the_nearest_name_that_has_them() {
    let storage = zone(vec![
        ("example.com", vec![ns("ns1.example.com"), soa(1)]),
        ("com", vec![ns("ns.com")]),
        ("b.example.com", vec![a(1)]),
    ]);
    assert_eq!(
        queried(&storage, "a.b.example.com", Type::NS),
        ("example.com".to_string(), describe(&[&ns("ns1.example.com")]))
    );
    assert_eq!(
        queried(&storage, "a.b.example.com", Type::SOA),
        ("example.com".to_string(), describe(&[&soa(1)]))
    );
    assert_eq!(
        queried(&storage, "x.com", Type::NS),
        ("com".to_string(), describe(&[&ns("ns.com")]))
    );
    assert_eq!(queried(&storage, "x.com", Type::SOA), ("com".to_string(), vec![]));
}

#[test]
fn climbing_stops_with_one_label_left() {
    let storage = RecordStorage::from_entries(vec![(Name(vec![]), vec![ns("root")])]);
    assert_eq!(queried(&storage, "a.b", Type::NS), ("b".to_string(), vec![]));
    assert_eq!(queried(&storage, "", Type::NS), (String::new(), describe(&[&ns("root")])));
    assert_eq!(queried(&storage, "", Type::SOA), (String::new(), vec![]));
}

#[test]
fn resolving_an_address() {
    let storage = zone(vec![("example.com", vec![a(1)])]);
    assert_eq!(
        resolved(&storage, "example.com", Type::A),
        ("example.com".to_string(), describe(&[&a(1)]))
    );
}

#[test]
fn resolving_through_an_alias_returns_the_alias() {
    let storage = zone(vec![
        ("foo.example.com", vec![cname("bar.example.com")]),
        ("bar.example.com", vec![a(7)]),
    ]);
    let alias = ("foo.example.com".to_string(), describe(&[&cname("bar.example.com")]));
    for ty in [Type::A, Type::AAAA, Type::TXT, Type::MX, Type::CNAME] {
        assert_eq!(resolved(&storage, "foo.example.com", ty), alias);
    }
}

#[test]
fn a_question_for_ns_is_never_answered_by_an_alias() {
    let storage = zone(vec![("foo.example.com", vec![cname("bar.example.com")])]);
    assert_eq!(resolved(&storage, "foo.example.com", Type::NS), ("com".to_string(), vec![]));
}

#[test]
fn an_alias_is_found_only_at_the_name_itself() {
    let storage = zone(vec![("example.com", vec![cname("x.y")])]);
    assert_eq!(resolved(&storage, "www.example.com", Type::A), ("com".to_string(), vec![]));
}

#[test]
fn resolving_falls_back_to_the_enclosing_name_servers() {
    let storage = zone(vec![("example.com", vec![ns("ns1.example.com"), ns("ns2.example.com")])]);
    let referral =
        ("example.com".to_string(), describe(&[&ns("ns1.example.com"), &ns("ns2.example.com")]));
    assert_eq!(resolved(&storage, "www.example.com", Type::A), referral);
    assert_eq!(resolved(&storage, "www.example.com", Type::CNAME), referral);
}

#[test]
fn a_nearer_delegation_overrides_a_farther_authority() {
    let storage = zone(vec![
        ("example.com", vec![soa(1)]),
        ("b.example.com", vec![ns("ns.b.example.com")]),
    ]);
    assert_eq!(
        resolved(&storage, "a.b.example.com", Type::SOA),
        ("b.example.com".to_string(), describe(&[&ns("ns.b.example.com")]))
    );
}

#[test]
fn a_farther_delegation_does_not_override_a_nearer_authority() {
    let storage = zone(vec![
        ("a.b.example.com", vec![soa(2)]),
        ("b.example.com", vec![ns("ns.b.example.com")]),
    ]);
    assert_eq!(
        resolved(&storage, "x.a.b.example.com", Type::SOA),
        ("a.b.example.com".to_string(), describe(&[&soa(2)]))
    );
}

#[test]
fn a_delegation_at_the_same_name_does_not_override() {
    let storage = zone(vec![("example.com", vec![soa(3), ns("ns1.example.com")])]);
    assert_eq!(
        resolved(&storage, "www.example.com", Type::SOA),
        ("example.com".to_string(), describe(&[&soa(3)]))
    );
}

#[test]
fn an_authority_question_without_authority_gets_the_delegation() {
    let storage = zone(vec![("example.com", vec![ns("ns1.example.com")])]);
    assert_eq!(
        resolved(&storage, "www.example.com", Type::SOA),
        ("example.com".to_string(), describe(&[&ns("ns1.example.com")]))
    );
}

#[test]
fn an_authority_question_may_be_answered_by_an_alias() {
    let storage = zone(vec![
        ("www.example.com", vec![cname("x.y")]),
        ("example.com", vec![ns("ns1.example.com")]),
    ]);
    assert_eq!(
        resolved(&storage, "www.example.com", Type::SOA),
        ("www.example.com".to_string(), describe(&[&cname("x.y")]))
    );
}
