use ddk_core::{Bucket, LexoRank, ParseError, Rank};

fn key(text: &str) -> LexoRank {
    LexoRank::from_string(text).unwrap()
}

#[test]
fn default_is_middle_key() {
    let d = LexoRank::default();
    assert_eq!(d.to_text(), "1|h");
    assert_eq!(d.bucket().value(), 1);
}

#[test]
fn bucket_accepts_exactly_three_values() {
    assert!(Bucket::new(0).is_some());
    assert!(Bucket::new(1).is_some());
    assert!(Bucket::new(2).is_some());
    assert!(Bucket::new(3).is_none());
    assert!(Bucket::new(255).is_none());
}

#[test]
fn rank_rejects_malformed_symbol_strings() {
    assert!(Rank::from_symbols(vec![]).is_none());
    assert!(Rank::from_symbols(vec![17, 0]).is_none());
    assert!(Rank::from_symbols(vec![36]).is_none());
    assert!(Rank::from_symbols(vec![17]).is_some());
    assert!(Rank::from_symbols(vec![0, 17]).is_some());
}

#[test]
fn next_is_strictly_above() {
    for text in ["1|h", "1|z", "1|a1", "1|zz", "0|1", "2|y9"] {
        let k = key(text);
        let n = k.next();
        assert!(k.lt(&n), "next of {} was not above it", text);
        assert!(!n.lt(&k));
    }
}

#[test]
fn prev_is_strictly_below() {
    for text in ["1|h", "1|1", "1|a1", "1|z", "1|a01", "1|10h"] {
        let k = key(text);
        let p = k.prev();
        assert!(p.lt(&k), "prev of {} was not below it", text);
        assert!(!k.lt(&p));
    }
}

#[test]
fn prev_undoes_next() {
    for text in ["1|h", "1|z", "1|zz", "1|a1", "0|1", "2|gz", "1|y"] {
        let k = key(text);
        let round = k.next().prev();
        assert_eq!(round.to_text(), k.to_text(), "round trip failed for {}", text);
    }
}

#[test]
fn text_round_trips() {
    for text in ["1|h", "0|1", "2|zz", "1|a0b", "1|0h", "2|9"] {
        let k = key(text);
        assert_eq!(k.to_text(), text);
        let again = LexoRank::from_string(&k.to_text()).unwrap();
        assert_eq!(again.to_text(), text);
    }
}

#[test]
fn parse_reports_the_failing_half() {
    assert_eq!(LexoRank::from_string("1h"), Err(ParseError::MissingSeparator));
    assert_eq!(LexoRank::from_string(""), Err(ParseError::MissingSeparator));
    assert_eq!(LexoRank::from_string("|h"), Err(ParseError::BadBucket));
    assert_eq!(LexoRank::from_string("3|h"), Err(ParseError::BadBucket));
    assert_eq!(LexoRank::from_string("12|h"), Err(ParseError::BadBucket));
    assert_eq!(LexoRank::from_string("x|h"), Err(ParseError::BadBucket));
    assert_eq!(LexoRank::from_string("1|"), Err(ParseError::BadRank));
    assert_eq!(LexoRank::from_string("1|H"), Err(ParseError::BadRank));
    assert_eq!(LexoRank::from_string("1|h0"), Err(ParseError::BadRank));
    assert_eq!(LexoRank::from_string("1|a|b"), Err(ParseError::BadRank));
}

#[test]
fn parse_accepts_lenient_bucket_digits() {
    assert_eq!(LexoRank::from_string("01|h").unwrap().to_text(), "1|h");
    assert_eq!(LexoRank::from_string("002|k9").unwrap().to_text(), "2|k9");
}

#[test]
fn parse_failure_falls_back_to_default() {
    assert_eq!(LexoRank::from_string_or_default("oops").to_text(), "1|h");
    assert_eq!(LexoRank::from_string_or_default("2|ab").to_text(), "2|ab");
}

#[test]
fn between_is_strictly_inside() {
    let cases = [("1|a", "1|b"), ("1|a", "1|a1"), ("1|h", "1|i"), ("1|b", "1|y"), ("1|az", "1|b")];
    for (lo, hi) in cases {
        let a = key(lo);
        let b = key(hi);
        let c = a.between(&b).unwrap();
        assert!(a.lt(&c), "between({}, {}) = {} not above", lo, hi, c.to_text());
        assert!(c.lt(&b), "between({}, {}) = {} not below", lo, hi, c.to_text());
    }
}

#[test]
fn between_refuses_equal_or_misordered() {
    let a = key("1|h");
    let b = key("1|i");
    assert!(a.between(&a).is_none());
    assert!(b.between(&a).is_none());
}

#[test]
fn thousand_inserts_stay_distinct_and_ordered() {
    let lower = key("1|b");
    let mut upper = key("1|c");
    let mut produced: Vec<String> = Vec::new();
    for _ in 0..1000 {
        let mid = lower.between(&upper).unwrap();
        assert!(lower.lt(&mid));
        assert!(mid.lt(&upper));
        produced.push(mid.to_text());
        upper = mid;
    }
    for window in produced.windows(2) {
        let earlier = key(&window[0]);
        let later = key(&window[1]);
        assert!(later.lt(&earlier));
        assert_ne!(window[0], window[1]);
    }
}

#[test]
fn bucket_successor_rotates() {
    let b0 = Bucket::new(0).unwrap();
    let b1 = b0.successor();
    let b2 = b1.successor();
    assert_eq!(b1.value(), 1);
    assert_eq!(b2.value(), 2);
    assert_eq!(b2.successor().value(), 0);
}
