use abv::{av2bv, bv2av, rev, Error, MAX_AID, MIN_AID};

#[test]
fn encode_boundaries() {
    assert_eq!(av2bv(0), Err(Error::AvTooSmall(0)));
    assert_eq!(av2bv(MAX_AID), Err(Error::AvTooBig(1 << 51)));
    assert_eq!(av2bv(u64::MAX), Err(Error::AvTooBig(u64::MAX)));
    assert_eq!(av2bv(MIN_AID).unwrap(), "BV1xx411c7mQ");
    assert_eq!(av2bv((1 << 51) - 1).unwrap(), "BV1aPPTfmvQq");
}

#[test]
fn encode_known_values() {
    assert_eq!(av2bv(2).unwrap(), "BV1xx411c7mD");
    assert_eq!(av2bv(170001).unwrap(), "BV17x411w7KC");
    assert_eq!(av2bv(1700001).unwrap(), "BV1ix411P7qd");
    assert_eq!(av2bv(1145141919810).unwrap(), "BV1B8Ziyo7s2");
}

#[test]
fn encode_format() {
    for aid in [1u64, 2, 58, 170001, 11451419180, (1 << 51) - 1] {
        let token = av2bv(aid).unwrap();
        assert_eq!(token.len(), 12);
        assert!(token.starts_with("BV1"));
        assert!(token.is_ascii());
    }
}

#[test]
fn round_trip_values() {
    for aid in [1u64, 2, 57, 58, 59, 170001, 1700001, 11451419180, 1145141919810, (1 << 50), (1 << 51) - 1] {
        assert_eq!(bv2av(&av2bv(aid).unwrap()), Ok(aid));
    }
}

#[test]
fn distinct_identifiers_distinct_tokens() {
    let a = av2bv(1).unwrap();
    let b = av2bv(2).unwrap();
    let c = av2bv(3).unwrap();
    assert_ne!(a, b);
    assert_ne!(b, c);
    assert_ne!(a, c);
}

#[test]
fn decode_known_values() {
    assert_eq!(bv2av("BV17x411w7KC"), Ok(170001));
    assert_eq!(bv2av("BV1gA4v1m7BV"), Ok(11451419180));
    assert_eq!(bv2av("BV1aPPTfmvQq"), Ok((1 << 51) - 1));
}

#[test]
fn decode_marker_any_case() {
    assert_eq!(bv2av("bv1B8Ziyo7s2"), Ok(1145141919810));
    assert_eq!(bv2av("Bv1B8Ziyo7s2"), Ok(1145141919810));
    assert_eq!(bv2av("bV1B8Ziyo7s2"), Ok(1145141919810));
    assert_eq!(bv2av("BVlB8Ziyo7s2"), Err(Error::BvInvalidPrefix));
}

#[test]
fn decode_payload_case_sensitive() {
    assert_eq!(bv2av("BV1b8Ziyo7s2"), Ok(1145141893774));
}

#[test]
fn decode_value_errors() {
    // every digit zero
    assert_eq!(bv2av("BV1FFFFFFFFF"), Err(Error::BvTooSmall));
    // every digit 57: beyond 52 bits
    assert_eq!(bv2av("BV1fffffffff"), Err(Error::BvTooBig));
    // the payload that identifier zero would have
    assert_eq!(bv2av("BV1xx411c7mX"), Err(Error::BvTooSmall));
}

#[test]
fn decode_length_and_text_errors() {
    assert_eq!(bv2av("BV1B8Ziyo7s"), Err(Error::BvTooSmall));
    assert_eq!(bv2av("BV1B8Ziyo7s22"), Err(Error::BvTooBig));
    assert_eq!(bv2av("BV1B8Ziyo7s\u{e9}"), Err(Error::BvWithUnicode));
    assert_eq!(bv2av("BV1B8Ziyo7sI"), Err(Error::BvInvalidChar('I')));
    // the swap moves position 9 to position 3, so that character is reported first
    assert_eq!(bv2av("BV1l8ZiyoIs2"), Err(Error::BvInvalidChar('I')));
}

#[test]
fn rev_inverts_alphabet() {
    assert_eq!(rev(b'F'), Some(0));
    assert_eq!(rev(b'c'), Some(1));
    assert_eq!(rev(b'f'), Some(57));
    assert_eq!(rev(b'0'), None);
    assert_eq!(rev(b'I'), None);
    assert_eq!(rev(b'l'), None);
    assert_eq!(rev(b'O'), None);
}
