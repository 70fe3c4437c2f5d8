use hashcash::stamp::{FIELD_COUNT, VERSION};
use hashcash::{parse, serialize, Error, Stamp};

const WIRE: &[u8] = b"1:20:1700000000:alice@example.com::Salt000000000007:IgZ";

fn sample() -> Stamp {
    Stamp::new(
        20,
        1700000000,
        b"alice@example.com".to_vec(),
        Vec::new(),
        b"Salt000000000007".to_vec(),
        b"IgZ".to_vec(),
    )
    .unwrap()
}

#[test]
fn new_keeps_the_fields() {
    let stamp = sample();
    assert_eq!(stamp.version(), 1);
    assert_eq!(stamp.version(), VERSION);
    assert_eq!(stamp.bits(), 20);
    assert_eq!(stamp.timestamp(), 1700000000);
    assert_eq!(stamp.resource(), b"alice@example.com");
    assert_eq!(stamp.extension(), b"");
    assert_eq!(stamp.salt(), b"Salt000000000007");
    assert_eq!(stamp.counter(), b"IgZ");
}

#[test]
fn new_refuses_salt_or_counter_outside_the_alphabet() {
    let make = |salt: &[u8], counter: &[u8]| {
        Stamp::new(1, 2, b"r".to_vec(), Vec::new(), salt.to_vec(), counter.to_vec())
    };
    assert_eq!(make(b"sa:lt", b"A"), Err(Error::InvalidInput));
    assert_eq!(make(b"salt", b"A="), Err(Error::InvalidInput));
    assert_eq!(make(b"sa lt", b"A"), Err(Error::InvalidInput));
    assert!(make(b"salt", b"A").is_ok());
    assert!(make(b"", b"").is_ok());
}

#[test]
fn clone_is_equal() {
    let stamp = sample();
    assert_eq!(stamp.clone(), stamp);
}

#[test]
fn serialize_writes_the_seven_fields_in_order() {
    assert_eq!(serialize(&sample()), WIRE.to_vec());
    assert_eq!(FIELD_COUNT, 7);
}

#[test]
fn serialize_escapes_resource_and_extension() {
    let stamp = Stamp::new(
        12,
        1700000000,
        b"a:b%c d\n\xff".to_vec(),
        b"k=v;x:y".to_vec(),
        b"qrstUVWX01234567".to_vec(),
        b"Ey".to_vec(),
    )
    .unwrap();
    assert_eq!(
        serialize(&stamp),
        b"1:12:1700000000:a%3Ab%25c%20d%0A%FF:k=v;x%3Ay:qrstUVWX01234567:Ey".to_vec()
    );
}

#[test]
fn serialize_of_the_smallest_stamp() {
    let stamp = Stamp::new(0, 0, Vec::new(), Vec::new(), Vec::new(), Vec::new()).unwrap();
    assert_eq!(serialize(&stamp), b"1:0:0::::".to_vec());
    assert_eq!(parse(b"1:0:0::::"), Ok(stamp));
}

#[test]
fn parse_reads_the_seven_fields() {
    assert_eq!(parse(WIRE), Ok(sample()));
    let stamp = parse(b"1:12:1700000000:a%3Ab%25c%20d%0A%FF:k=v;x%3Ay:qrstUVWX01234567:Ey").unwrap();
    assert_eq!(stamp.bits(), 12);
    assert_eq!(stamp.resource(), b"a:b%c d\n\xff");
    assert_eq!(stamp.extension(), b"k=v;x:y");
    assert_eq!(stamp.salt(), b"qrstUVWX01234567");
    assert_eq!(stamp.counter(), b"Ey");
}

#[test]
fn parse_of_serialize_is_the_stamp() {
    let stamps = vec![
        sample(),
        Stamp::new(0, 0, Vec::new(), Vec::new(), Vec::new(), Vec::new()).unwrap(),
        Stamp::new(
            u32::MAX,
            u64::MAX,
            (0..=255u8).collect(),
            b"::%%".to_vec(),
            b"+/".to_vec(),
            b"////".to_vec(),
        )
        .unwrap(),
    ];
    for stamp in stamps {
        assert_eq!(parse(&serialize(&stamp)), Ok(stamp));
    }
}

#[test]
fn serialize_of_parse_is_the_wire_string() {
    let wires: Vec<&[u8]> = vec![
        WIRE,
        b"1:0:0::::",
        b"1:12:1700000000:a%3Ab%25c%20d%0A%FF:k=v;x%3Ay:qrstUVWX01234567:Ey",
        b"1:20:1303030600:anni@cypherspace.org::McMybZIhxKXu57jd:ckvi",
        b"1:4294967295:18446744073709551615:x:y:z:A",
    ];
    for wire in wires {
        let stamp = parse(wire).unwrap();
        assert_eq!(serialize(&stamp), wire.to_vec());
    }
}

#[test]
fn parse_refuses_a_wrong_field_count() {
    assert_eq!(parse(b""), Err(Error::ParseError));
    assert_eq!(parse(b"1"), Err(Error::ParseError));
    assert_eq!(parse(b"1:20:1700000000"), Err(Error::ParseError));
    assert_eq!(
        parse(b"1:20:1700000000:alice@example.com::Salt000000000007"),
        Err(Error::ParseError)
    );
    assert_eq!(
        parse(b"1:20:1700000000:alice@example.com::Salt000000000007:IgZ:"),
        Err(Error::ParseError)
    );
    assert_eq!(
        parse(b"1:20:1700000000:alice:example.com::Salt000000000007:IgZ"),
        Err(Error::ParseError)
    );
}

#[test]
fn parse_refuses_a_version_other_than_one() {
    assert_eq!(parse(b"0:20:1700000000:a::s:A"), Err(Error::ParseError));
    assert_eq!(parse(b"2:20:1700000000:a::s:A"), Err(Error::ParseError));
    assert_eq!(parse(b"01:20:1700000000:a::s:A"), Err(Error::ParseError));
    assert_eq!(parse(b"v1:20:1700000000:a::s:A"), Err(Error::ParseError));
    assert_eq!(parse(b":20:1700000000:a::s:A"), Err(Error::ParseError));
}

#[test]
fn parse_refuses_bits_that_are_no_canonical_number() {
    assert_eq!(parse(b"1:twenty:1700000000:a::s:A"), Err(Error::ParseError));
    assert_eq!(parse(b"1::1700000000:a::s:A"), Err(Error::ParseError));
    assert_eq!(parse(b"1:020:1700000000:a::s:A"), Err(Error::ParseError));
    assert_eq!(parse(b"1:-1:1700000000:a::s:A"), Err(Error::ParseError));
    assert_eq!(parse(b"1:4294967296:1700000000:a::s:A"), Err(Error::ParseError));
    assert!(parse(b"1:4294967295:1700000000:a::s:A").is_ok());
}

#[test]
fn parse_refuses_a_timestamp_that_is_no_canonical_number() {
    assert_eq!(parse(b"1:20:060408:a::s:A"), Err(Error::ParseError));
    assert_eq!(parse(b"1:20::a::s:A"), Err(Error::ParseError));
    assert_eq!(parse(b"1:20:yesterday:a::s:A"), Err(Error::ParseError));
    assert_eq!(parse(b"1:20:18446744073709551616:a::s:A"), Err(Error::ParseError));
}

#[test]
fn parse_refuses_an_invalid_encoding() {
    assert_eq!(parse(b"1:20:1700000000:a%3a::s:A"), Err(Error::ParseError));
    assert_eq!(parse(b"1:20:1700000000:a%41::s:A"), Err(Error::ParseError));
    assert_eq!(parse(b"1:20:1700000000:a b::s:A"), Err(Error::ParseError));
    assert_eq!(parse(b"1:20:1700000000:a:%:s:A"), Err(Error::ParseError));
    assert_eq!(parse(b"1:20:1700000000:a:e%2:s:A"), Err(Error::ParseError));
    assert_eq!(parse(b"1:20:1700000000:a::s=:A"), Err(Error::ParseError));
    assert_eq!(parse(b"1:20:1700000000:a::s:A B"), Err(Error::ParseError));
    assert_eq!(parse(b"1:20:1700000000:a::s:A\n"), Err(Error::ParseError));
}

#[test]
fn wire_forms_are_printable_ascii() {
    let stamp = Stamp::new(
        7,
        1,
        (0..=255u8).collect(),
        vec![0, b' ', b':', b'%', 0xff],
        b"+/az09AZ".to_vec(),
        b"//".to_vec(),
    )
    .unwrap();
    let wire = serialize(&stamp);
    assert!(wire.iter().all(|c| (33..=126).contains(c)));
    assert_eq!(wire.iter().filter(|c| **c == b':').count(), 6);
}
