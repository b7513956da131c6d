use mlc::AtomicCell;

#[test]
fn first() {
    let mut x = AtomicCell::new(5usize);
    x.store(6);
    x.store(7);
}

#[test]
fn store_then_load() {
    let mut cell = AtomicCell::new(0u64);
    cell.store(42);
    assert_eq!(*cell.load(), 42);
}

#[test]
fn load_handle_survives_store() {
    let mut cell = AtomicCell::new(String::from("Bonjour"));
    let before = cell.load();
    cell.store(String::from("Adieu!"));
    assert_eq!(*before, "Bonjour");
    assert_eq!(*cell.load(), "Adieu!");
}

#[test]
fn swap_returns_previous() {
    let mut cell = AtomicCell::new("A");
    let r1 = cell.swap("B");
    assert_eq!(*r1, "A");
    let r2 = cell.swap("C");
    assert_eq!(*r2, "B");
    assert_eq!(*cell.load(), "C");
}

#[test]
fn cas_by_eq_success_and_failure() {
    let mut cell = AtomicCell::new(9u64);
    assert!(cell.cas_by_eq(&9, 12).is_ok());
    assert_eq!(*cell.load(), 12);
    assert!(cell.cas_by_eq(&9, 13).is_err());
    assert_eq!(*cell.load(), 12);
}

#[test]
fn fetch_update_applies_closure() {
    let mut cell = AtomicCell::new(10u64);
    let seen = cell.fetch_update(|a| (std::sync::Arc::new(*a * 2), *a));
    assert_eq!(seen, 10);
    assert_eq!(*cell.load(), 20);
}

#[test]
fn store_bash() {
    let mut cell = AtomicCell::new("A");
    for _ in 0..10 {
        cell.store("B");
    }
    for _ in 0..10 {
        cell.store("C");
    }
    for _ in 0..10 {
        cell.store("D");
    }
    let val = cell.load();
    assert!(*val == "B" || *val == "C" || *val == "D");
}

#[test]
fn load_store_swap_bash() {
    let mut cell = AtomicCell::new(0u64);
    let mut last_written = 0u64;
    for round in 0..10u64 {
        cell.store(round + 1);
        last_written = round + 1;
        let seen = cell.load();
        assert_eq!(*seen, last_written);
        let prev = cell.swap(round + 100);
        assert_eq!(*prev, last_written);
        last_written = round + 100;
    }
    assert_eq!(*cell.load(), last_written);
}

#[test]
fn sum_via_update() {
    let mut cell = AtomicCell::new(0u64);
    for _ in 0..1000 {
        cell.fetch_update(|x| (std::sync::Arc::new(*x + 1), ()));
    }
    assert_eq!(*cell.load(), 1000);
}
