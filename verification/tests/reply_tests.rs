use nameserver::parser::{parse, OpCode, ReqHeaderStatus};
use nameserver::record::{Name, Record, RecordInner};
use nameserver::reply::{answer, format_error, handle, owned_labels, write_answers, write_resp_header, Rcode};
use nameserver::zone::RecordStorage;

fn split(text: &str) -> Vec<String> {
    text.split('.').map(str::to_owned).collect()
}

fn wire_name(text: &str) -> Vec<u8> {
    let mut out = Vec::new();
    for label in text.split('.') {
        out.push(label.len() as u8);
        out.extend_from_slice(label.as_bytes());
    }
    out.push(0);
    out
}

fn query(id: u16, flags: u8, questions: &[(&str, u16)]) -> Vec<u8> {
    let mut out = Vec::new();
    out.extend_from_slice(&id.to_be_bytes());
    out.extend_from_slice(&[flags, 0]);
    out.extend_from_slice(&(questions.len() as u16).to_be_bytes());
    out.extend_from_slice(&[0, 0, 0, 0, 0, 0]);
    for (name, ty) in questions {
        out.extend_from_slice(&wire_name(name));
        out.extend_from_slice(&ty.to_be_bytes());
        out.extend_from_slice(&[0, 1]);
    }
    out
}

fn header(id: u16, flags: u8, rcode: u8, counts: [u16; 4]) -> Vec<u8> {
    let mut out = Vec::new();
    out.extend_from_slice(&id.to_be_bytes());
    out.extend_from_slice(&[flags, rcode]);
    for count in counts {
        out.extend_from_slice(&count.to_be_bytes());
    }
    out
}

fn a(last: u8, ttl: u32) -> Record {
    Record { inner: RecordInner::A { addr: [10, 0, 0, last] }, ttl }
}

fn ns(target: &str) -> Record {
    Record { inner: RecordInner::NS { ns: Name(split(target)) }, ttl: 3600 }
}

fn cname(target: &str) -> Record {
    Record { inner: RecordInner::CNAME { to: Name(split(target)) }, ttl: 30 }
}

fn soa() -> Record {
    Record {
        inner: RecordInner::SOA {
            serial: 1,
            mname: Name(split("ns")),
            rname: Name(split("me")),
            refresh: 2,
            retry: 3,
            expire: 4,
            minimum: 5,
        },
        ttl: 9,
    }
}

fn zone(entries: Vec<(&str, Vec<Record>)>) -> RecordStorage {
    RecordStorage::from_entries(
        entries.into_iter().map(|(name, records)| (Name(split(name)), records)).collect(),
    )
}

fn record_bytes(record: &Record) -> Vec<u8> {
    let mut out = Vec::new();
    record.serialize(&mut out);
    out
}

const A: u16 = 1;
const NS: u16 = 2;
const SOA: u16 = 6;
const TXT: u16 = 16;

#[test]
fn response_header_layout() {
    let status =
        ReqHeaderStatus { qr: false, opcode: OpCode::Status, rd: true, ad: true, cd: true };
    let mut out = vec![0xee];
    write_resp_header(&mut out, 0xabcd, Rcode::Refused, true, &status, [1, 2, 0x0304, 0xffff]);
    assert_eq!(
        out,
        [0xee, 0xab, 0xcd, 0x80 | 2 << 3 | 1 << 2 | 1, 5, 0, 1, 0, 2, 3, 4, 0xff, 0xff]
    );

    let status =
        ReqHeaderStatus { qr: true, opcode: OpCode::Query, rd: false, ad: false, cd: false };
    let mut out = Vec::new();
    write_resp_header(&mut out, 0, Rcode::OK, false, &status, [0; 4]);
    assert_eq!(out, [0, 0, 0x80, 0, 0, 0, 0, 0, 0, 0, 0, 0]);
}

#[test]
fn response_codes() {
    let codes = [
        (Rcode::OK, 0u8),
        (Rcode::Format, 1),
        (Rcode::Internal, 2),
        (Rcode::Name, 3),
        (Rcode::NotImpl, 4),
        (Rcode::Refused, 5),
    ];
    for (rcode, code) in codes {
        assert_eq!(rcode.code(), code);
    }
}

#[test]
fn an_address_is_answered_with_authority() {
    let storage = zone(vec![("example.com", vec![a(1, 300)])]);
    let reply = handle(&query(0x1234, 0x01, &[("example.com", A)]), &storage).unwrap();
    let mut expected = header(0x1234, 0x80 | 0x04 | 0x01, 0, [0, 1, 0, 0]);
    expected.extend_from_slice(&wire_name("example.com"));
    expected.extend_from_slice(&[0, 1, 0, 1, 0, 0, 0x01, 0x2c, 0, 4, 10, 0, 0, 1]);
    assert_eq!(reply, expected);
}

#[test]
fn every_answer_comes_behind_the_name() {
    let storage = zone(vec![("example.com", vec![a(1, 1), cname("x"), a(2, 2)])]);
    let reply = handle(&query(7, 0, &[("example.com", A)]), &storage).unwrap();
    let mut expected = header(7, 0x84, 0, [0, 2, 0, 0]);
    for record in [a(1, 1), a(2, 2)] {
        expected.extend_from_slice(&wire_name("example.com"));
        expected.extend_from_slice(&record_bytes(&record));
    }
    assert_eq!(reply, expected);
}

#[test]
fn a_name_below_a_delegation_gets_a_referral() {
    let storage = zone(vec![("example.com", vec![ns("ns1.example.com")])]);
    let reply = handle(&query(0x0101, 0, &[("www.example.com", A)]), &storage).unwrap();
    let mut expected = header(0x0101, 0x80, 0, [0, 0, 1, 0]);
    expected.extend_from_slice(&wire_name("example.com"));
    expected.extend_from_slice(&record_bytes(&ns("ns1.example.com")));
    assert_eq!(reply, expected);
    // Not authoritative, and counted as authority.
    assert_eq!(reply[2] & 0x04, 0);
    assert_eq!(&reply[6..8], &[0, 0]);
    assert_eq!(&reply[8..10], &[0, 1]);
}

#[test]
fn a_question_for_name_servers_is_a_referral_too() {
    let storage = zone(vec![("example.com", vec![ns("ns1.example.com"), ns("ns2.example.com")])]);
    let reply = handle(&query(1, 0, &[("example.com", NS)]), &storage).unwrap();
    assert_eq!(&reply[..12], &header(1, 0x80, 0, [0, 0, 2, 0])[..]);
}

#[test]
fn an_alias_is_returned_unresolved() {
    let storage = zone(vec![
        ("foo.example.com", vec![cname("bar.example.com")]),
        ("bar.example.com", vec![a(9, 1)]),
    ]);
    let reply = handle(&query(2, 0, &[("foo.example.com", A)]), &storage).unwrap();
    let mut expected = header(2, 0x84, 0, [0, 1, 0, 0]);
    expected.extend_from_slice(&wire_name("foo.example.com"));
    expected.extend_from_slice(&record_bytes(&cname("bar.example.com")));
    assert_eq!(reply, expected);
}

#[test]
fn an_unknown_name_is_a_name_error() {
    let storage = zone(vec![("example.com", vec![a(1, 1)])]);
    let reply = handle(&query(3, 0x01, &[("nowhere.org", TXT)]), &storage).unwrap();
    assert_eq!(reply, header(3, 0x85, 3, [0, 0, 0, 0]));
    let reply = handle(&query(3, 0, &[("example.com", TXT)]), &storage).unwrap();
    assert_eq!(reply, header(3, 0x84, 3, [0, 0, 0, 0]));
}

#[test]
fn two_questions_are_not_implemented() {
    let storage = zone(vec![("example.com", vec![a(1, 1)])]);
    let input = query(0x0a0b, 0x01, &[("example.com", A), ("example.com", A)]);
    let reply = handle(&input, &storage).unwrap();
    assert_eq!(reply, header(0x0a0b, 0x85, 4, [0, 0, 0, 0]));
}

#[test]
fn no_question_is_not_implemented() {
    let storage = RecordStorage::new();
    let reply = handle(&query(5, 0, &[]), &storage).unwrap();
    assert_eq!(reply, header(5, 0x84, 4, [0, 0, 0, 0]));
}

#[test]
fn a_pointer_in_the_question_is_not_implemented() {
    let storage = zone(vec![("www", vec![a(1, 1)])]);
    let mut input = header(6, 0x01, 0, [1, 0, 0, 0]);
    input.extend_from_slice(&[3, b'w', b'w', b'w', 0xc0, 0x0c, 0, 1, 0, 1]);
    let reply = handle(&input, &storage).unwrap();
    assert_eq!(reply, header(6, 0x85, 4, [0, 0, 0, 0]));
}

#[test]
fn the_opcode_and_rd_are_echoed() {
    let storage = RecordStorage::new();
    for opcode in 0..3u8 {
        for rd in 0..2u8 {
            let reply = handle(&query(1, opcode << 3 | rd, &[("a", A)]), &storage).unwrap();
            assert_eq!(reply[2], 0x80 | opcode << 3 | 0x04 | rd);
            assert_eq!(reply[3], 3);
        }
    }
}

#[test]
fn a_short_datagram_gets_no_reply() {
    let storage = zone(vec![("example.com", vec![a(1, 1)])]);
    assert_eq!(handle(&[], &storage), None);
    assert_eq!(handle(&[0x12], &storage), None);
    assert_eq!(handle(&[0x12, 0x34], &storage), None);
    assert_eq!(handle(&[0x12, 0x34, 0x01], &storage), None);
    assert_eq!(format_error(&[0x12, 0x34, 0x01]), None);
}

#[test]
fn a_malformed_datagram_gets_a_format_error() {
    let storage = RecordStorage::new();
    // Four bytes: an id and readable flags.
    let reply = handle(&[0x12, 0x34, 0x01, 0x00], &storage).unwrap();
    assert_eq!(reply, header(0x1234, 0x85, 1, [0, 0, 0, 0]));
    // Trailing bytes.
    let mut input = query(0x4321, 2 << 3, &[("a", A)]);
    input.push(0);
    let reply = handle(&input, &storage).unwrap();
    assert_eq!(reply, header(0x4321, 0x80 | 2 << 3 | 0x04, 1, [0, 0, 0, 0]));
    assert_eq!(format_error(&input), Some(reply));
    // An unknown type.
    let reply = handle(&query(9, 0, &[("a", 3)]), &storage).unwrap();
    assert_eq!(reply, header(9, 0x84, 1, [0, 0, 0, 0]));
    // An announced answer.
    let mut input = query(9, 0, &[("a", A)]);
    input[7] = 1;
    assert_eq!(handle(&input, &storage).unwrap(), header(9, 0x84, 1, [0, 0, 0, 0]));
}

#[test]
fn unreadable_flags_get_no_reply() {
    let storage = RecordStorage::new();
    // AA set.
    let mut input = query(1, 0x04, &[("a", A)]);
    assert_eq!(handle(&input, &storage), None);
    // A response code.
    input[2] = 0;
    input[3] = 0x03;
    assert_eq!(handle(&input, &storage), None);
    // Opcode 5.
    input[2] = 5 << 3;
    input[3] = 0;
    assert_eq!(handle(&input, &storage), None);
}

#[test]
fn a_nearer_delegation_takes_precedence() {
    let storage = zone(vec![
        ("example.com", vec![soa()]),
        ("b.example.com", vec![ns("ns.b.example.com")]),
    ]);
    let reply = handle(&query(1, 0, &[("a.b.example.com", SOA)]), &storage).unwrap();
    let mut expected = header(1, 0x80, 0, [0, 0, 1, 0]);
    expected.extend_from_slice(&wire_name("b.example.com"));
    expected.extend_from_slice(&record_bytes(&ns("ns.b.example.com")));
    assert_eq!(reply, expected);
}

#[test]
fn a_nearer_authority_stays() {
    let storage = zone(vec![
        ("a.b.example.com", vec![soa()]),
        ("b.example.com", vec![ns("ns.b.example.com")]),
    ]);
    let reply = handle(&query(1, 0, &[("x.a.b.example.com", SOA)]), &storage).unwrap();
    let mut expected = header(1, 0x84, 0, [0, 1, 0, 0]);
    expected.extend_from_slice(&wire_name("a.b.example.com"));
    expected.extend_from_slice(&record_bytes(&soa()));
    assert_eq!(reply, expected);
}

#[test]
fn the_same_datagram_gets_the_same_reply() {
    let storage = zone(vec![
        ("example.com", vec![a(1, 1), ns("ns1.example.com"), soa()]),
        ("www.example.com", vec![cname("example.com")]),
    ]);
    let other = zone(vec![
        ("www.example.com", vec![cname("example.com")]),
        ("example.com", vec![a(1, 1), ns("ns1.example.com"), soa()]),
    ]);
    for name in ["example.com", "www.example.com", "x.www.example.com", "org"] {
        for ty in [A, NS, 5, SOA, TXT, 28, 255] {
            let input = query(0x7777, 1, &[(name, ty)]);
            let first = handle(&input, &storage);
            assert!(first.is_some());
            assert_eq!(handle(&input.clone(), &storage), first);
            assert_eq!(handle(&input, &other), first);
        }
    }
}

#[test]
fn additional_records_are_read_and_ignored() {
    let storage = zone(vec![("example.com", vec![a(1, 1)])]);
    let mut input = query(1, 0, &[("example.com", A)]);
    input[11] = 1;
    input.extend_from_slice(&[0, 0, 41, 0x10, 0, 0, 0, 0, 0, 0, 2, 0xaa, 0xbb]);
    let plain = handle(&query(1, 0, &[("example.com", A)]), &storage);
    assert_eq!(handle(&input, &storage), plain);
}

#[test]
fn labels_that_are_not_utf8_match_their_replacement() {
    let storage = zone(vec![("\u{fffd}.com", vec![a(1, 1)])]);
    let mut input = header(1, 0, 0, [1, 0, 0, 0]);
    input.extend_from_slice(&[1, 0xff, 3, b'c', b'o', b'm', 0, 0, 1, 0, 1]);
    let reply = handle(&input, &storage).unwrap();
    let mut expected = header(1, 0x84, 0, [0, 1, 0, 0]);
    expected.extend_from_slice(&[3, 0xef, 0xbf, 0xbd, 3, b'c', b'o', b'm', 0]);
    expected.extend_from_slice(&record_bytes(&a(1, 1)));
    assert_eq!(reply, expected);
}

#[test]
fn names_are_matched_with_their_case() {
    let storage = zone(vec![("example.com", vec![a(1, 1)])]);
    let reply = handle(&query(1, 0, &[("Example.com", A)]), &storage).unwrap();
    assert_eq!(reply, header(1, 0x84, 3, [0, 0, 0, 0]));
}

#[test]
fn a_decoded_request_is_answered_like_its_datagram() {
    let storage = zone(vec![("example.com", vec![a(1, 1), a(2, 2)])]);
    let input = query(0x0203, 1, &[("example.com", A)]);
    let (_, req) = parse(&input).unwrap();
    assert_eq!(owned_labels(&req.questions[0].name), split("example.com"));
    assert_eq!(Some(answer(&req, &storage)), handle(&input, &storage));
}

#[test]
fn the_record_count_keeps_its_low_sixteen_bits() {
    let record = a(1, 1);
    let status =
        ReqHeaderStatus { qr: false, opcode: OpCode::Query, rd: false, ad: false, cd: false };
    let answers: Vec<&Record> = std::iter::repeat(&record).take(65_537).collect();
    let mut out = Vec::new();
    write_answers(&mut out, 1, &status, &[], &answers);
    assert_eq!(&out[..12], &header(1, 0x84, 0, [0, 1, 0, 0])[..]);
    assert_eq!(out.len(), 12 + 65_537 * 15);

    let mut out = Vec::new();
    write_answers(&mut out, 1, &status, &[], &answers[..65_536].to_vec());
    // Sixty-five thousand five hundred and thirty-six records count as none,
    // and are still an answer.
    assert_eq!(&out[..12], &header(1, 0x84, 0, [0, 0, 0, 0])[..]);
}
