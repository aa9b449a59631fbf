use chronicle_broker::analytics::Analytics;

fn analytics(transaction_count: u128, message_count: u128, transferred_tokens: u128) -> Analytics {
    Analytics { transaction_count, message_count, transferred_tokens }
}

#[test]
fn analytics_add_counter_by_counter() {
    assert_eq!(analytics(1, 2, 3) + analytics(10, 20, 30), analytics(11, 22, 33));
}

#[test]
fn default_analytics_are_neutral() {
    let x = analytics(7, 9, 1_000_000);
    assert_eq!(Analytics::default(), analytics(0, 0, 0));
    assert_eq!(Analytics::default() + x, x);
    assert_eq!(x + Analytics::default(), x);
}

#[test]
fn analytics_add_in_any_order() {
    let a = analytics(1, 5, 100);
    let b = analytics(2, 6, u64::MAX as u128);
    let c = analytics(3, 7, u64::MAX as u128 * 4);
    assert_eq!(a + b, b + a);
    assert_eq!((a + b) + c, a + (b + c));
    assert_eq!((a + b) + c, analytics(6, 18, 100 + u64::MAX as u128 * 5));
}

#[test]
fn analytics_add_up_to_the_limit() {
    let almost = analytics(u128::MAX - 1, u128::MAX - 2, u128::MAX - 3);
    assert_eq!(almost + analytics(1, 2, 3), analytics(u128::MAX, u128::MAX, u128::MAX));
}
