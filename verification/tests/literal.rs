use resolution::Literal;
use std::cmp::Ordering;
use std::collections::hash_map::DefaultHasher;
use std::hash::{Hash, Hasher};

fn hash_of(l: &Literal) -> u64 {
    let mut h = DefaultHasher::new();
    l.hash(&mut h);
    h.finish()
}

#[test]
fn literals_are_equal_when_both_fields_match() {
    let a = Literal { m: 4, negated: true };
    assert_eq!(a, Literal { m: 4, negated: true });
    assert_ne!(a, Literal { m: 4, negated: false });
    assert_ne!(a, Literal { m: 5, negated: true });
    assert_eq!(hash_of(&a), hash_of(&Literal { m: 4, negated: true }));
}

#[test]
fn literals_are_ordered_by_variable_then_polarity() {
    let p1 = Literal { m: 1, negated: false };
    let n1 = Literal { m: 1, negated: true };
    let p2 = Literal { m: 2, negated: false };
    assert!(p1 < n1);
    assert!(n1 < p2);
    assert!(p1 < p2);
    assert!(!(n1 < p1));
    assert!(p1 <= p1);
    assert!(p2 > n1);
    assert_eq!(p1.partial_cmp(&n1), Some(Ordering::Less));
    assert_eq!(n1.partial_cmp(&p1), Some(Ordering::Greater));
    assert_eq!(p2.partial_cmp(&p2), Some(Ordering::Equal));
    assert_eq!(p2.partial_cmp(&n1), Some(Ordering::Greater));
}

#[test]
fn total_order_agrees_with_partial_order() {
    let all = [
        Literal { m: 0, negated: false },
        Literal { m: 0, negated: true },
        Literal { m: 7, negated: false },
        Literal { m: 7, negated: true },
        Literal { m: u32::MAX, negated: false },
        Literal { m: u32::MAX, negated: true },
    ];
    for a in all.iter() {
        for b in all.iter() {
            assert_eq!(a.partial_cmp(b), Some(a.cmp(b)));
            assert_eq!(a < b, a.cmp(b) == Ordering::Less);
            assert_eq!(a == b, a.cmp(b) == Ordering::Equal);
        }
    }
    let mut shuffled = vec![all[3], all[5], all[0], all[4], all[1], all[2]];
    shuffled.sort();
    assert_eq!(shuffled, all.to_vec());
}

#[test]
fn normalize_clears_the_polarity() {
    assert_eq!(
        Literal { m: 9, negated: true }.normalize(),
        Literal { m: 9, negated: false }
    );
    assert_eq!(
        Literal { m: 9, negated: false }.normalize(),
        Literal { m: 9, negated: false }
    );
}

#[test]
fn literal_is_written_with_its_number() {
    assert_eq!(Literal { m: 1, negated: false }.to_string(), "p1");
    assert_eq!(Literal { m: 1, negated: true }.to_string(), "\u{ac}p1");
    assert_eq!(Literal { m: 0, negated: false }.to_string(), "p0");
    assert_eq!(Literal { m: 10, negated: false }.to_string(), "p10");
    assert_eq!(Literal { m: 907, negated: true }.to_string(), "\u{ac}p907");
    assert_eq!(
        Literal { m: u32::MAX, negated: false }.to_string(),
        "p4294967295"
    );
}

#[test]
fn literal_text_matches_std_formatting() {
    for m in [0u32, 5, 9, 10, 11, 99, 100, 101, 12345, 1_000_000, 4_000_000_000] {
        assert_eq!(Literal { m, negated: false }.to_string(), format!("p{}", m));
        assert_eq!(Literal { m, negated: true }.to_string(), format!("\u{ac}p{}", m));
    }
}
