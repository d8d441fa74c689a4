use economy::store::Store;

#[test]
fn count() {
    let mut store = Store::new();
    store.add("Apple", 3);
    assert_eq!(store.count("Apple"), 3);
}

#[test]
fn has() {
    let mut store = Store::new();
    store.add("Apple", 3);
    store.add("Orange", 1);
    store.add("Banana", 0);
    assert!(store.has("Apple"));
    assert!(store.has("Orange"));
    assert!(!store.has("Banana"));
    assert!(!store.has("Steak"));
}

#[test]
fn add() {
    let mut store = Store::new();
    assert!(!store.has("Apple"));
    assert!(!store.has("Orange"));
    assert!(!store.has("Banana"));

    store.add("Apple", 3);
    store.add("Orange", 1);
    store.add("Banana", 0);

    assert!(store.has("Apple"));
    assert!(store.has("Orange"));
    assert!(!store.has("Banana"));
    assert!(!store.has("Steak"));
}

#[test]
fn set() {
    let mut store = Store::new();
    assert!(!store.has("Apple"));
    assert!(!store.has("Orange"));
    assert!(!store.has("Banana"));

    store.add("Apple", 3);
    store.add("Orange", 1);
    store.add("Banana", 1);
    store.set("Apple", 0);
    store.set("Banana", 5);

    assert!(!store.has("Apple"));
    assert!(store.has("Orange"));
    assert!(store.has("Banana"));
    assert!(!store.has("Steak"));
}

#[test]
fn take() {
    let mut store = Store::new();
    store.add("Apple", 3);
    store.add("Orange", 1);

    let taken_apples = store.take("Apple", 2);
    assert!(store.has("Apple"));
    assert_eq!(taken_apples, 2);
    assert_eq!(store.count("Apple"), 1);

    let taken_oranges = store.take("Orange", 3);
    assert!(!store.has("Orange"));
    assert_eq!(taken_oranges, 1);
    assert_eq!(store.count("Orange"), 0);

    let taken_grapes = store.take("Grape", 5);
    assert_eq!(taken_grapes, 0);
    assert!(!store.has("Grape"));
}

#[test]
fn clear() {
    let mut store = Store::new();
    store.add("Apple", 3);
    store.add("Orange", 1);
    store.add("Banana", 0);
    assert!(store.has("Apple"));
    assert!(store.has("Orange"));
    store.clear();
    assert!(!store.has("Apple"));
    assert!(!store.has("Orange"));
}

#[test]
fn get_item_kinds() {
    let mut store = Store::new();
    store.add("Apple", 3);
    store.add("Orange", 1);
    store.add("Banana", 0);
    let kinds = store.get_item_kinds();
    assert!(kinds.contains(&"Apple".to_string()));
    assert!(kinds.contains(&"Orange".to_string()));
    assert!(!kinds.contains(&"Banana".to_string()));
}

#[test]
fn fresh_store_counts_zero_and_has_nothing() {
    let store = Store::new();
    assert_eq!(store.count("Apple"), 0);
    assert!(!store.has("Apple"));
    assert!(store.get_item_kinds().is_empty());
}

#[test]
fn take_returns_min_and_never_goes_negative() {
    let mut store = Store::new();
    store.add("Apple", 4);
    assert_eq!(store.take("Apple", 10), 4);
    assert_eq!(store.count("Apple"), 0);
    assert_eq!(store.take("Apple", 1), 0);
    assert_eq!(store.count("Apple"), 0);
    store.add("Pear", 9);
    assert_eq!(store.take("Pear", 0), 0);
    assert_eq!(store.count("Pear"), 9);
    assert_eq!(store.take("Pear", -4), 0);
    assert_eq!(store.count("Pear"), 9);
}

#[test]
fn add_then_take_restores_count() {
    let mut store = Store::new();
    store.add("Apple", 5);
    store.add("Apple", 7);
    assert_eq!(store.count("Apple"), 12);
    assert_eq!(store.take("Apple", 7), 7);
    assert_eq!(store.count("Apple"), 5);
    store.add("Kiwi", 3);
    assert_eq!(store.take("Kiwi", 3), 3);
    assert_eq!(store.count("Kiwi"), 0);
    assert!(!store.has("Kiwi"));
}

#[test]
fn negative_counts_are_held() {
    let mut store = Store::new();
    store.add("Debt", -3);
    assert_eq!(store.count("Debt"), -3);
    assert!(!store.has("Debt"));
    assert!(store.has_count("Debt", -3));
    assert!(!store.has_count("Debt", -2));
    store.set("Debt", 0);
    assert!(!store.has("Debt"));
}
