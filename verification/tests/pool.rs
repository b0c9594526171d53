use crafting_calculator::pool::Pool;

#[test]
fn pool_adds_are_additive() {
    let mut pool = Pool::new();
    assert_eq!(pool.amount("Stick"), 0);
    assert!(pool.add("Stick", 3));
    assert!(pool.add("Stick", 4));
    assert!(pool.add("Oak Log", 2));
    assert_eq!(pool.amount("Stick"), 7);
    assert_eq!(pool.amount("Oak Log"), 2);
}

#[test]
fn pool_take_draws_at_most_what_is_there() {
    let mut pool = Pool::new();
    assert!(pool.add("Stick", 5));
    assert_eq!(pool.take("Stick", 2), 2);
    assert_eq!(pool.amount("Stick"), 3);
    assert_eq!(pool.take("Stick", 10), 3);
    assert_eq!(pool.amount("Stick"), 0);
    assert_eq!(pool.take("Stick", 1), 0);
    assert_eq!(pool.take("Oak Log", 1), 0);
}

#[test]
fn pool_take_all_empties_one_item() {
    let mut pool = Pool::new();
    assert!(pool.add("Stick", 5));
    assert!(pool.add("Oak Log", 2));
    assert_eq!(pool.take_all("Stick"), 5);
    assert_eq!(pool.amount("Stick"), 0);
    assert_eq!(pool.amount("Oak Log"), 2);
}

#[test]
fn pool_add_reports_overflow() {
    let mut pool = Pool::new();
    assert!(pool.add("Stick", usize::MAX));
    assert!(!pool.add("Stick", 1));
    assert_eq!(pool.amount("Stick"), usize::MAX);
}
