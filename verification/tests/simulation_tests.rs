use market_economy::rng::TradeRng;
use market_economy::simulation::{BuyerProperties, SellerProperties, SimulationState};

#[test]
fn test_buyer_seller_price_steps() {
    let mut state = SimulationState::new();
    let b = state.add_buyer(BuyerProperties::new(10));
    let s = state.add_seller(SellerProperties::new(3));
    assert_eq!(10, b.get(&state).expected_price());
    assert_eq!(3, s.get(&state).expected_price());

    let mut buyer = *b.get(&state);
    buyer.increase_expected_price();
    assert_eq!(10, buyer.expected_price());
    buyer.decrease_expected_price();
    assert_eq!(9, buyer.expected_price());
    buyer.increase_expected_price();
    assert_eq!(10, buyer.expected_price());

    let mut seller = *s.get(&state);
    seller.decrease_expected_price();
    assert_eq!(3, seller.expected_price());
    seller.increase_expected_price();
    assert_eq!(4, seller.expected_price());
    seller.decrease_expected_price();
    assert_eq!(3, seller.expected_price());
}

#[test]
fn test_sorted_handles() {
    let mut state = SimulationState::new();
    state.add_buyer(BuyerProperties::new(30));
    state.add_buyer(BuyerProperties::new(10));
    state.add_buyer(BuyerProperties::new(20));
    state.add_seller(SellerProperties::new(9));
    state.add_seller(SellerProperties::new(4));

    let buyers = state.get_sorted_buyers();
    let prices: Vec<i32> = buyers
        .iter()
        .map(|h| h.get(&state).expected_price())
        .collect();
    assert_eq!(vec![10, 20, 30], prices);

    let sellers = state.get_sorted_sellers();
    let prices: Vec<i32> = sellers
        .iter()
        .map(|h| h.get(&state).expected_price())
        .collect();
    assert_eq!(vec![4, 9], prices);
}

#[test]
fn test_trading_round_matches_and_adjusts() {
    // one seller under one buyer's expectation: they match, and their
    // expectations tighten towards each other
    let mut state = SimulationState::new();
    let b = state.add_buyer(BuyerProperties::new(20));
    let s = state.add_seller(SellerProperties::new(5));
    let mut rng = TradeRng::from_seed(1);
    let matched = state.run_trading_round(&mut rng);
    assert_eq!(1, matched);
    assert_eq!(19, b.get(&state).expected_price());
    assert_eq!(6, s.get(&state).expected_price());
}

#[test]
fn test_trading_round_no_match() {
    // the only buyer pays at most 3, the seller wants at least 8: no
    // match, and both are already pinned at their own limits
    let mut state = SimulationState::new();
    let b = state.add_buyer(BuyerProperties::new(3));
    let s = state.add_seller(SellerProperties::new(8));
    let mut rng = TradeRng::from_seed(1);
    let matched = state.run_trading_round(&mut rng);
    assert_eq!(0, matched);
    assert_eq!(3, b.get(&state).expected_price());
    assert_eq!(8, s.get(&state).expected_price());
}

#[test]
fn test_trading_rounds_converge() {
    // prices drift towards each other over repeated rounds
    let mut state = SimulationState::new();
    for _ in 0..10 {
        state.add_buyer(BuyerProperties::new(100));
    }
    for _ in 0..10 {
        state.add_seller(SellerProperties::new(5));
    }
    let mut rng = TradeRng::from_seed(77);
    for _ in 0..30 {
        state.run_trading_round(&mut rng);
    }
    let sellers = state.get_sorted_sellers();
    for h in &sellers {
        let p = h.get(&state).expected_price();
        assert!(p > 5, "seller price {} did not rise", p);
    }
}
