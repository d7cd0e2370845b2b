use prdash::order::stable_order_desc;
use prdash::pr::{recency_key, Timestamp};

#[test]
fn order_puts_largest_first_and_keeps_ties() {
    let keys: Vec<u128> = vec![5, 9, 5, 1, 9, 0];
    assert_eq!(stable_order_desc(&keys), vec![1, 4, 0, 2, 3, 5]);
}

#[test]
fn order_of_nothing_is_empty() {
    let keys: Vec<u128> = Vec::new();
    assert!(stable_order_desc(&keys).is_empty());
}

#[test]
fn recency_orders_times() {
    let early = Timestamp { secs: -5, nanos: 999_999_999 };
    let later = Timestamp { secs: -4, nanos: 0 };
    let leap = Timestamp { secs: 100, nanos: 1_500_000_000 };
    let after_leap = Timestamp { secs: 101, nanos: 0 };
    assert_eq!(recency_key(None), 0);
    assert!(recency_key(None) < recency_key(Some(early)));
    assert!(recency_key(Some(early)) < recency_key(Some(later)));
    assert!(recency_key(Some(leap)) < recency_key(Some(after_leap)));
    assert_eq!(recency_key(Some(Timestamp { secs: i64::MIN, nanos: 0 })), 1);
    assert_eq!(
        recency_key(Some(Timestamp { secs: 0, nanos: 7 })),
        1 + (1u128 << 63) * (1u128 << 32) + 7
    );
}
