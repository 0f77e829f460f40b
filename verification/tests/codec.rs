//! The value codec: round trips, and byte order as value order.

use std::cmp::Ordering;

use cljrs::codec::{decode, encode_inline, Decoded, StoreValue};

fn encode(v: &StoreValue) -> Vec<u8> {
    let mut out = Vec::new();
    encode_inline(v, &mut out);
    out
}

fn double(x: f64) -> StoreValue {
    StoreValue::Double(x.to_bits())
}

fn roundtrip(v: &StoreValue) {
    let enc = encode(v);
    // Append trailing noise: decode must stop at the value boundary.
    let mut padded = enc.clone();
    padded.extend_from_slice(b"trailing");
    let (decoded, used) = decode(&padded).expect("decode");
    assert_eq!(used, enc.len(), "prefix-free length for {v:?}");
    match decoded {
        Decoded::Value(got) => assert_eq!(&got, v),
        Decoded::Giant { .. } => panic!("inline value decoded as giant"),
    }
}

#[test]
fn every_type_roundtrips_prefix_free() {
    for v in [
        StoreValue::Bool(false),
        StoreValue::Bool(true),
        StoreValue::Long(i64::MIN),
        StoreValue::Long(-1),
        StoreValue::Long(0),
        StoreValue::Long(i64::MAX),
        double(-1.5),
        double(0.0),
        double(2.25),
        StoreValue::Instant(1_724_400_000_000),
        StoreValue::Str(String::new()),
        StoreValue::Str("hello".into()),
        StoreValue::Str("with\u{0}zero".into()),
        StoreValue::Keyword(":ns/name".into()),
        StoreValue::Uuid([7; 16]),
        StoreValue::Ref(42),
        StoreValue::Bytes(vec![0, 1, 0, 255]),
    ] {
        roundtrip(&v);
    }
}

#[test]
fn tuples_roundtrip_and_sort_by_prefix() {
    let short = StoreValue::Vec(vec![StoreValue::Long(1)]);
    let long = StoreValue::Vec(vec![StoreValue::Long(1), StoreValue::Str("x".into())]);
    let higher = StoreValue::Vec(vec![StoreValue::Long(2)]);
    roundtrip(&short);
    roundtrip(&long);
    assert!(encode(&short) < encode(&long));
    assert!(encode(&long) < encode(&higher));
}

#[test]
fn truncated_and_unknown_bytes_are_errors() {
    let full = encode(&StoreValue::Long(5));
    assert!(decode(&full[..full.len() - 1]).is_err());
    assert!(decode(&[]).is_err());
    assert!(decode(&[0xEE]).is_err());
}

/// Semantic order for same-type values (the codec's contract).
fn semantic_cmp(a: &StoreValue, b: &StoreValue) -> Option<Ordering> {
    match (a, b) {
        (StoreValue::Long(x), StoreValue::Long(y)) => Some(x.cmp(y)),
        (StoreValue::Instant(x), StoreValue::Instant(y)) => Some(x.cmp(y)),
        (StoreValue::Double(x), StoreValue::Double(y)) => {
            f64::from_bits(*x).partial_cmp(&f64::from_bits(*y))
        }
        (StoreValue::Str(x), StoreValue::Str(y)) => Some(x.as_bytes().cmp(y.as_bytes())),
        (StoreValue::Bytes(x), StoreValue::Bytes(y)) => Some(x.cmp(y)),
        (StoreValue::Ref(x), StoreValue::Ref(y)) => Some(x.cmp(y)),
        (StoreValue::Bool(x), StoreValue::Bool(y)) => Some(x.cmp(y)),
        _ => None,
    }
}

#[test]
fn byte_order_equals_value_order_randomized() {
    // Deterministic xorshift so the corpus is stable run to run.
    let mut state: u64 = 0x9E37_79B9_7F4A_7C15;
    let mut next = move || {
        state ^= state << 13;
        state ^= state >> 7;
        state ^= state << 17;
        state
    };
    let mut values = Vec::new();
    for _ in 0..400 {
        let r = next();
        let v = match r % 6 {
            0 => StoreValue::Long(next() as i64),
            1 => StoreValue::Double(next() & !(0x7FF << 52) | (1023 << 52)),
            2 => {
                let len = (next() % 12) as usize;
                let s: String = (0..len)
                    .map(|_| char::from(b'a' + (next() % 26) as u8))
                    .collect();
                StoreValue::Str(s)
            }
            3 => {
                let len = (next() % 8) as usize;
                let b: Vec<u8> = (0..len).map(|_| (next() % 256) as u8).collect();
                StoreValue::Bytes(b)
            }
            4 => StoreValue::Ref(next() % 1000),
            _ => StoreValue::Instant((next() % 1_000_000) as i64),
        };
        values.push(v);
    }
    for a in &values {
        for b in &values {
            if let Some(expected) = semantic_cmp(a, b) {
                let got = encode(a).cmp(&encode(b));
                assert_eq!(got, expected, "order mismatch: {a:?} vs {b:?}");
            }
        }
    }
}

#[test]
fn negative_doubles_sort_below_positive_and_zero() {
    let order = [
        double(f64::NEG_INFINITY),
        double(-2.5),
        double(-0.0),
        double(0.0),
        double(1.0e-9),
        double(3.5),
        double(f64::INFINITY),
    ];
    for pair in order.windows(2) {
        assert!(
            encode(&pair[0]) <= encode(&pair[1]),
            "{:?} must not sort above {:?}",
            pair[0],
            pair[1]
        );
    }
}

#[test]
fn known_encodings() {
    // A tag, then the number with its sign bit flipped, big-endian.
    let e = encode(&StoreValue::Long(1));
    assert_eq!(&e[1..], &[0x80, 0, 0, 0, 0, 0, 0, 1]);
    let n = encode(&StoreValue::Long(-1));
    assert_eq!(&n[1..], &[0x7F, 255, 255, 255, 255, 255, 255, 255]);
    assert_eq!(e[0], n[0]);
}
