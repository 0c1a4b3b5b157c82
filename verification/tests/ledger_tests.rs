use market_economy::ware::{Ware, WareStore, WareType};

#[test]
fn test_push_pop_amounts() {
    let mut store = WareStore::new();
    store.push_ware(Ware::new(WareType::Money, 5));
    assert_eq!(5, store.ware_amount(WareType::Money));
    store.push_ware(Ware::new(WareType::Money, 3));
    assert_eq!(8, store.ware_amount(WareType::Money));
    assert!(store.pop_ware(Ware::new(WareType::Money, 4)).is_ok());
    assert_eq!(4, store.ware_amount(WareType::Money));
}

#[test]
fn test_ledger_conservation_sequence() {
    // amount after a never-failing run of adds/exact removes is the sum of
    // adds minus the sum of removes
    let mut store = WareStore::new();
    store.push_ware(Ware::new(WareType::Food, 5));
    store.push_ware(Ware::new(WareType::Food, 7));
    assert!(store.pop_ware(Ware::new(WareType::Food, 3)).is_ok());
    store.push_ware(Ware::new(WareType::Food, 2));
    assert!(store.pop_ware(Ware::new(WareType::Food, 9)).is_ok());
    assert_eq!(5 + 7 - 3 + 2 - 9, store.ware_amount(WareType::Food));
    assert_eq!(0, store.ware_amount(WareType::Water));
}

#[test]
fn test_pop_ware_insufficient_fails_unchanged() {
    let mut store = WareStore::new();
    store.push_ware(Ware::new(WareType::Water, 2));
    let before = store.clone();
    assert_eq!(Err(()), store.pop_ware(Ware::new(WareType::Water, 3)));
    assert_eq!(before, store);
    assert_eq!(Err(()), store.pop_ware(Ware::new(WareType::Soil, 1)));
    assert_eq!(before, store);
}

#[test]
fn test_pop_ware_max() {
    let mut store = WareStore::new();
    store.push_ware(Ware::new(WareType::Money, 5));
    assert_eq!(5, store.ware_amount(WareType::Money));

    let mut pop = Ware::new(WareType::Money, 4);
    let popped = store.pop_ware_max(&mut pop);
    assert_eq!(1, store.ware_amount(WareType::Money));
    assert_eq!(0, pop.amount());
    assert_eq!(4, popped.amount());

    let mut pop = Ware::new(WareType::Money, 3);
    let popped = store.pop_ware_max(&mut pop);
    assert_eq!(0, store.ware_amount(WareType::Money));
    assert_eq!(2, pop.amount());
    assert_eq!(1, popped.amount());
}

#[test]
fn test_pop_wares_atomic() {
    let mut store = WareStore::new();
    store.push_ware(Ware::new(WareType::Money, 13));
    store.push_ware(Ware::new(WareType::Water, 3));
    store.push_ware(Ware::new(WareType::Food, 5));
    let mut pop = WareStore::new();
    pop.push_ware(Ware::new(WareType::Money, 11));
    pop.push_ware(Ware::new(WareType::Water, 3));
    pop.push_ware(Ware::new(WareType::Food, 3));
    assert_eq!(Ok(pop.clone()), store.pop_wares(pop.clone()));
    assert_eq!(2, store.ware_amount(WareType::Money));
    assert_eq!(0, store.ware_amount(WareType::Water));
    assert_eq!(2, store.ware_amount(WareType::Food));

    // the second removal is short on every commodity: no partial effect
    let before = store.clone();
    assert_eq!(Err(()), store.pop_wares(pop));
    assert_eq!(before, store);
}

#[test]
fn test_pop_wares_atomic_failure_is_untouched() {
    // one commodity short: even the covered ones must not move
    let mut store = WareStore::new();
    store.push_ware(Ware::new(WareType::Money, 100));
    store.push_ware(Ware::new(WareType::Food, 1));
    let before = store.clone();
    let mut bundle = WareStore::new();
    bundle.push_ware(Ware::new(WareType::Money, 10));
    bundle.push_ware(Ware::new(WareType::Food, 2));
    assert_eq!(Err(()), store.pop_wares(bundle));
    assert_eq!(before, store);
}

#[test]
fn test_pop_wares_max_best_effort() {
    let mut store = WareStore::new();
    store.push_ware(Ware::new(WareType::Money, 13));
    store.push_ware(Ware::new(WareType::Water, 3));
    store.push_ware(Ware::new(WareType::Food, 5));
    let mut pop = WareStore::new();
    pop.push_ware(Ware::new(WareType::Money, 11));
    pop.push_ware(Ware::new(WareType::Water, 4));
    pop.push_ware(Ware::new(WareType::Food, 3));
    let popped = store.pop_wares_max(&mut pop);
    assert_eq!(11, popped.ware_amount(WareType::Money));
    assert_eq!(3, popped.ware_amount(WareType::Water));
    assert_eq!(3, popped.ware_amount(WareType::Food));
    assert_eq!(2, store.ware_amount(WareType::Money));
    assert_eq!(0, store.ware_amount(WareType::Water));
    assert_eq!(2, store.ware_amount(WareType::Food));
    assert_eq!(0, pop.ware_amount(WareType::Money));
    assert_eq!(1, pop.ware_amount(WareType::Water));
    assert_eq!(0, pop.ware_amount(WareType::Food));
}

#[test]
fn test_no_zero_entries_after_operations() {
    // no commodity key ever maps to zero
    let mut store = WareStore::new();
    store.push_ware(Ware::new(WareType::Food, 4));
    store.push_ware(Ware::new(WareType::Water, 0));
    assert!(store.pop_ware(Ware::new(WareType::Food, 4)).is_ok());
    store.push_ware(Ware::new(WareType::Soil, 2));
    let mut rest = Ware::new(WareType::Soil, 10);
    store.pop_ware_max(&mut rest);
    store.push_ware(Ware::new(WareType::Money, 1));
    for w in store.iter() {
        assert!(w.amount() > 0);
    }
    assert_eq!(1, store.iter().len());
}

#[test]
fn test_get_ware_and_iter_types() {
    let mut store = WareStore::new();
    assert_eq!(None, store.get_ware(WareType::Food));
    store.push_ware(Ware::new(WareType::Food, 6));
    let got = store.get_ware(WareType::Food).unwrap();
    assert_eq!(WareType::Food, got.ware_type());
    assert_eq!(6, got.amount());
    let types = store.iter_ware_types();
    assert_eq!(vec![WareType::Food], types);
}

#[test]
fn test_duplicate_is_independent() {
    let mut store = WareStore::new();
    store.push_ware(Ware::new(WareType::Food, 6));
    let copy = store.duplicate();
    assert!(store.pop_ware(Ware::new(WareType::Food, 6)).is_ok());
    assert_eq!(6, copy.ware_amount(WareType::Food));
    assert_eq!(0, store.ware_amount(WareType::Food));
}

#[test]
fn test_ware_accessors() {
    let mut w = Ware::new(WareType::Soil, 7);
    assert_eq!(WareType::Soil, w.ware_type());
    assert_eq!(7, w.amount());
    assert!(!w.is_money());
    *w.amount_mut() = 9;
    assert_eq!(9, w.amount());
    assert!(Ware::new(WareType::Money, 1).is_money());
    assert_eq!(WareType::Money, WareType::default());
}
