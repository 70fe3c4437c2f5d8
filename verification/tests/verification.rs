use hashcash::{judge, parse, serialize, verify, verify_stamp, Error, Freshness, Stamp, Verdict};

const WIRE: &[u8] = b"1:20:1700000000:alice@example.com::Salt000000000007:IgZ";

fn with_bits(bits: u32) -> Stamp {
    Stamp::new(
        bits,
        1700000000,
        b"alice@example.com".to_vec(),
        Vec::new(),
        b"Salt000000000007".to_vec(),
        b"IgZ".to_vec(),
    )
    .unwrap()
}

#[test]
fn verify_accepts_up_to_the_claimed_bits() {
    // the digest of this wire string has 21 leading zero bits
    for required in 0..=20 {
        assert_eq!(verify(WIRE, required, None), Ok(Verdict::Valid));
    }
    assert_eq!(verify(WIRE, 21, None), Ok(Verdict::ClaimTooLow));
    assert_eq!(verify(WIRE, 160, None), Ok(Verdict::ClaimTooLow));
    assert_eq!(verify(WIRE, u32::MAX, None), Ok(Verdict::ClaimTooLow));
}

#[test]
fn verify_checks_the_digest_and_not_only_the_claim() {
    // claims 30 bits; its digest has none
    let wire = b"1:30:1700000000:alice@example.com::Salt000000000007:IgZ";
    assert_eq!(verify(wire, 0, None), Ok(Verdict::Valid));
    assert_eq!(verify(wire, 1, None), Ok(Verdict::DigestTooWeak));
    assert_eq!(verify(wire, 25, None), Ok(Verdict::DigestTooWeak));
    assert_eq!(verify(wire, 30, None), Ok(Verdict::DigestTooWeak));
    assert_eq!(verify(wire, 31, None), Ok(Verdict::ClaimTooLow));
}

#[test]
fn verify_stamp_is_verify_of_the_wire_form() {
    assert_eq!(verify_stamp(&with_bits(20), 20, None), Ok(Verdict::Valid));
    assert_eq!(verify_stamp(&with_bits(20), 21, None), Ok(Verdict::ClaimTooLow));
    assert_eq!(verify_stamp(&with_bits(30), 25, None), Ok(Verdict::DigestTooWeak));
    let stamp = parse(WIRE).unwrap();
    assert_eq!(verify_stamp(&stamp, 20, None), verify(&serialize(&stamp), 20, None));
}

#[test]
fn verify_of_a_wrong_field_count_is_a_parse_error() {
    assert_eq!(verify(b"", 0, None), Err(Error::ParseError));
    assert_eq!(verify(b"1:20:1700000000", 0, None), Err(Error::ParseError));
    assert_eq!(
        verify(b"1:20:1700000000:alice@example.com::Salt000000000007", 20, None),
        Err(Error::ParseError)
    );
    assert_eq!(
        verify(b"1:20:1700000000:alice@example.com::Salt000000000007:IgZ:x", 20, None),
        Err(Error::ParseError)
    );
}

#[test]
fn verify_of_a_malformed_field_is_a_parse_error() {
    assert_eq!(
        verify(b"1:xx:1700000000:alice@example.com::Salt000000000007:IgZ", 20, None),
        Err(Error::ParseError)
    );
    assert_eq!(
        verify(b"2:20:1700000000:alice@example.com::Salt000000000007:IgZ", 20, None),
        Err(Error::ParseError)
    );
    assert_eq!(
        verify(b"1:20:1700000000:alice@example.com::Salt000000000007:Ig=", 20, None),
        Err(Error::ParseError)
    );
}

#[test]
fn a_changed_character_in_resource_or_counter_fails_verification() {
    let changed: Vec<&[u8]> = vec![
        b"1:20:1700000000:blice@example.com::Salt000000000007:IgZ",
        b"1:20:1700000000:alice@example.org::Salt000000000007:IgZ",
        b"1:20:1700000000:alice@example.com::Salt000000000007:IgY",
        b"1:20:1700000000:alice@example.com::Salt000000000007:JgZ",
        b"1:20:1700000000:alice@example.com::Salt000000000007:IhZ",
    ];
    for wire in changed {
        assert_eq!(verify(wire, 20, None), Ok(Verdict::DigestTooWeak));
        assert!(!verify(wire, 20, None).unwrap().is_valid());
    }
}

#[test]
fn verify_expires_stamps_older_than_the_window() {
    let at = |now: u64, window: u64| Some(Freshness { now, window });
    assert_eq!(verify(WIRE, 20, at(1700000000, 0)), Ok(Verdict::Valid));
    assert_eq!(verify(WIRE, 20, at(1700000100, 100)), Ok(Verdict::Valid));
    assert_eq!(verify(WIRE, 20, at(1700000101, 100)), Err(Error::Expired));
    assert_eq!(verify(WIRE, 20, at(1700000001, 0)), Err(Error::Expired));
    assert_eq!(verify(WIRE, 20, at(u64::MAX, 100)), Err(Error::Expired));
    assert_eq!(verify(WIRE, 20, at(u64::MAX, u64::MAX)), Ok(Verdict::Valid));
    // a stamp from the future is not expired
    assert_eq!(verify(WIRE, 20, at(1600000000, 0)), Ok(Verdict::Valid));
    assert_eq!(verify(WIRE, 20, at(0, 0)), Ok(Verdict::Valid));
}

#[test]
fn expiry_comes_before_the_bits() {
    let at = |now: u64, window: u64| Some(Freshness { now, window });
    assert_eq!(verify(WIRE, 21, at(1700000101, 100)), Err(Error::Expired));
    assert_eq!(verify(WIRE, 21, at(1700000100, 100)), Ok(Verdict::ClaimTooLow));
    // a parse error comes before everything
    assert_eq!(verify(b"1:20:1700000000", 21, at(1700000101, 100)), Err(Error::ParseError));
}

#[test]
fn judge_needs_both_claim_and_digest() {
    let stamp = with_bits(20);
    assert_eq!(judge(&stamp, 20, 20, None), Ok(Verdict::Valid));
    assert_eq!(judge(&stamp, 160, 20, None), Ok(Verdict::Valid));
    assert_eq!(judge(&stamp, 19, 20, None), Ok(Verdict::DigestTooWeak));
    assert_eq!(judge(&stamp, 0, 20, None), Ok(Verdict::DigestTooWeak));
    assert_eq!(judge(&stamp, 160, 21, None), Ok(Verdict::ClaimTooLow));
    assert_eq!(judge(&stamp, 0, 21, None), Ok(Verdict::ClaimTooLow));
    assert_eq!(judge(&stamp, 0, 0, None), Ok(Verdict::Valid));
}

#[test]
fn judge_applies_the_policy_first() {
    let stamp = with_bits(20);
    let late = Some(Freshness { now: 1700086401, window: 86400 });
    let in_time = Some(Freshness { now: 1700086400, window: 86400 });
    assert_eq!(judge(&stamp, 20, 20, late), Err(Error::Expired));
    assert_eq!(judge(&stamp, 0, 160, late), Err(Error::Expired));
    assert_eq!(judge(&stamp, 20, 20, in_time), Ok(Verdict::Valid));
}

#[test]
fn verdict_is_valid_only_for_valid() {
    assert!(Verdict::Valid.is_valid());
    assert!(!Verdict::ClaimTooLow.is_valid());
    assert!(!Verdict::DigestTooWeak.is_valid());
}
