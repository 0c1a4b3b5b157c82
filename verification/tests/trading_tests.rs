use market_economy::entity::Entity;
use market_economy::market::{Market, OfferType};
use market_economy::recipe::Recipe;
use market_economy::rng::TradeRng;
use market_economy::ware::{Ware, WareType};
use market_economy::world::World;

fn eating_recipe() -> Recipe {
    Recipe::new(vec![Ware::new(WareType::Food, 1)], vec![])
}

fn food_creator_recipe() -> Recipe {
    Recipe::new(vec![], vec![Ware::new(WareType::Food, 1)])
}

#[test]
fn test_tradable_wares_and_unmet_demands() {
    let mut entity = Entity::new(
        "Bob".to_owned(),
        vec![Recipe::new(vec![], vec![Ware::new(WareType::Food, 1)])],
    );
    entity.add_ware(Ware::new(WareType::Food, 10));

    let mut tradable_wares = market_economy::ware::WareStore::new();
    tradable_wares.push_ware(Ware::new(WareType::Food, 10));
    let unmet_demands = market_economy::ware::WareStore::new();

    assert_eq!(
        (tradable_wares, unmet_demands),
        entity.tradable_wares_and_unmet_demands()
    );
}

#[test]
fn test_update_market_offers() {
    let mut world = World::new();
    world.create_entity("Alice".to_owned(), vec![eating_recipe()]);
    world.create_entity("Bob".to_owned(), vec![food_creator_recipe()]);
    world
        .get_entity_mut(0)
        .add_ware(Ware::new(WareType::Money, 50));
    world
        .get_entity_mut(1)
        .add_ware(Ware::new(WareType::Food, 10));
    let mut rng = TradeRng::from_seed(7);
    world.update_market_offers(&mut rng);

    let mut market = Market::new();
    market.create_offer(
        Ware::new(WareType::Food, 1),
        OfferType::Buy,
        Ware::new(WareType::Money, 5),
        0,
    );
    market.create_offer(
        Ware::new(WareType::Food, 10),
        OfferType::Sell,
        Ware::new(WareType::Money, 5),
        1,
    );

    assert_eq!(&market, world.market());
}

#[test]
fn test_update_market_offers_no_redundant_offers() {
    let mut world = World::new();
    world.create_entity(
        "Human".to_owned(),
        vec![eating_recipe(), eating_recipe(), eating_recipe()],
    );
    world
        .get_entity_mut(0)
        .add_ware(Ware::new(WareType::Money, 100));
    let mut rng = TradeRng::from_seed(1);
    world.update_market_offers(&mut rng);
    assert_eq!(world.market().offers().len(), 1);
}

#[test]
fn test_alice_and_bob_trade_one_food() {
    // one buyer (1x Food @ 5), one seller (10x Food @ 5): one unit moves,
    // five money move back, all at the uniform price 5
    let mut world = World::new();
    world.create_entity("Alice".to_owned(), vec![eating_recipe()]);
    world.create_entity("Bob".to_owned(), vec![food_creator_recipe()]);
    world
        .get_entity_mut(0)
        .add_ware(Ware::new(WareType::Money, 50));
    world
        .get_entity_mut(1)
        .add_ware(Ware::new(WareType::Food, 10));
    let mut rng = TradeRng::from_seed(42);
    world.update_market_offers(&mut rng);
    let trades = world.resolve_trades(&mut rng).expect("settlement failed");

    assert_eq!(2, trades.len());
    for tr in &trades {
        assert_eq!(WareType::Food, tr.ware_type);
        assert_eq!(5, tr.price);
        assert_eq!(1, tr.amount);
    }
    let alice = world.get_entity(0);
    assert_eq!(1, alice.wares().ware_amount(WareType::Food));
    assert_eq!(45, alice.wares().ware_amount(WareType::Money));
    let bob = world.get_entity(1);
    assert_eq!(9, bob.wares().ware_amount(WareType::Food));
    assert_eq!(5, bob.wares().ware_amount(WareType::Money));
}

#[test]
fn test_three_buyers_ration_one_food() {
    // three equal buyers, one unit for sale: the seller is fully satisfied
    // and exactly one buyer wins the unit
    let mut world = World::new();
    for name in ["A", "B", "C"] {
        let id = world.create_entity(name.to_owned(), vec![eating_recipe()]);
        world
            .get_entity_mut(id)
            .add_ware(Ware::new(WareType::Money, 100));
    }
    let seller = world.create_entity("S".to_owned(), vec![]);
    world
        .get_entity_mut(seller)
        .add_ware(Ware::new(WareType::Food, 1));
    let mut rng = TradeRng::from_seed(3);
    world.update_market_offers(&mut rng);
    assert_eq!(4, world.market().offers().len());
    let trades = world.resolve_trades(&mut rng).expect("settlement failed");
    assert_eq!(2, trades.len());

    assert_eq!(0, world.get_entity(seller).wares().ware_amount(WareType::Food));
    assert_eq!(5, world.get_entity(seller).wares().ware_amount(WareType::Money));
    let mut winners = 0;
    for id in 0..3 {
        let food = world.get_entity(id).wares().ware_amount(WareType::Food);
        let money = world.get_entity(id).wares().ware_amount(WareType::Money);
        if food == 1 {
            winners += 1;
            assert_eq!(95, money);
        } else {
            assert_eq!(0, food);
            assert_eq!(100, money);
        }
    }
    assert_eq!(1, winners);
}

#[test]
fn test_rationing_is_roughly_uniform_over_seeds() {
    // over many seeded runs each of the three equal buyers wins about a
    // third of the time
    let trials = 180;
    let mut wins = [0usize; 3];
    for seed in 0..trials {
        let mut world = World::new();
        for name in ["A", "B", "C"] {
            let id = world.create_entity(name.to_owned(), vec![eating_recipe()]);
            world
                .get_entity_mut(id)
                .add_ware(Ware::new(WareType::Money, 100));
        }
        let seller = world.create_entity("S".to_owned(), vec![]);
        world
            .get_entity_mut(seller)
            .add_ware(Ware::new(WareType::Food, 1));
        let mut rng = TradeRng::from_seed(seed);
        world.update_market_offers(&mut rng);
        world.resolve_trades(&mut rng).expect("settlement failed");
        for id in 0..3 {
            if world.get_entity(id).wares().ware_amount(WareType::Food) == 1 {
                wins[id] += 1;
            }
        }
    }
    // expected 60 wins each; allow a generous band
    for &w in &wins {
        assert!(w >= 25, "win count {} too low: {:?}", w, wins);
        assert!(w <= 95, "win count {} too high: {:?}", w, wins);
    }
    assert_eq!(trials as usize, wins[0] + wins[1] + wins[2]);
}

#[test]
fn test_generation_round_trip_same_offers() {
    // regenerating without any settlement in between yields the same book,
    // whatever order the randomized demand processing used
    let mut world = World::new();
    let id = world.create_entity(
        "Mixed".to_owned(),
        vec![Recipe::new(
            vec![Ware::new(WareType::Food, 1), Ware::new(WareType::Water, 2)],
            vec![],
        )],
    );
    world
        .get_entity_mut(id)
        .add_ware(Ware::new(WareType::Money, 100));
    let other = world.create_entity("Grower".to_owned(), vec![]);
    world
        .get_entity_mut(other)
        .add_ware(Ware::new(WareType::Food, 4));

    let mut rng1 = TradeRng::from_seed(11);
    world.update_market_offers(&mut rng1);
    let first = world.market().clone();

    let mut rng2 = TradeRng::from_seed(99);
    world.update_market_offers(&mut rng2);
    assert_eq!(&first, world.market());
}

#[test]
fn test_resolve_fails_on_uncovered_offer() {
    // a sell offer placed directly in the book without backing stock is a
    // fatal settlement error, and no ledger moves
    let mut world = World::new();
    world.create_entity("Ghost".to_owned(), vec![]);
    let buyer = world.create_entity("Buyer".to_owned(), vec![]);
    world
        .get_entity_mut(buyer)
        .add_ware(Ware::new(WareType::Money, 100));
    world.market_mut().create_offer(
        Ware::new(WareType::Food, 5),
        OfferType::Sell,
        Ware::new(WareType::Money, 5),
        0,
    );
    world.market_mut().create_offer(
        Ware::new(WareType::Food, 5),
        OfferType::Buy,
        Ware::new(WareType::Money, 5),
        buyer,
    );
    world.market_mut().order_offers();
    let mut rng = TradeRng::from_seed(0);
    assert_eq!(Err(()), world.resolve_trades(&mut rng));
    assert_eq!(0, world.get_entity(0).wares().ware_amount(WareType::Food));
    assert_eq!(
        100,
        world.get_entity(buyer).wares().ware_amount(WareType::Money)
    );
}

#[test]
fn test_world_create_offer_moves_stock() {
    let mut world = World::new();
    let id = world.create_entity("Human".to_owned(), vec![]);
    world
        .get_entity_mut(id)
        .add_ware(Ware::new(WareType::Food, 3));
    let offer_id = world
        .create_offer(
            id,
            Ware::new(WareType::Food, 2),
            OfferType::Sell,
            Ware::new(WareType::Money, 5),
        )
        .expect("stock is there");
    assert_eq!(0, offer_id);
    assert_eq!(1, world.get_entity(id).wares().ware_amount(WareType::Food));
    assert_eq!(
        Err(()),
        world.create_offer(
            id,
            Ware::new(WareType::Food, 2),
            OfferType::Sell,
            Ware::new(WareType::Money, 5),
        )
    );
}

#[test]
fn test_split_borrow_and_mut_accessors() {
    let mut world = World::new();
    let id = world.create_entity("Trader".to_owned(), vec![]);
    world
        .get_entity_mut(id)
        .add_ware(Ware::new(WareType::Food, 2));
    world
        .get_entity_mut(id)
        .buy_prices_mut()
        .set_single_price(WareType::Food, 8);
    world
        .get_entity_mut(id)
        .sell_prices_mut()
        .set_single_price(WareType::Food, 6);
    assert_eq!(8, world.get_entity(id).buy_prices().single_price(WareType::Food));
    assert_eq!(6, world.get_entity(id).sell_prices().single_price(WareType::Food));

    // the generator's access pattern: entities and book borrowed at once
    let (entities, market) = world.entities_market_mut();
    let offer_id = market.create_offer(
        Ware::new(WareType::Food, 2),
        OfferType::Sell,
        Ware::new(WareType::Money, 6),
        id,
    );
    entities[id].add_offer_id(offer_id);
    assert_eq!(1, world.market().offers().len());
    assert_eq!(&vec![0usize], world.get_entity(id).offer_ids());

    world.market_mut().offers_mut().clear();
    assert!(world.market().offers().is_empty());
    assert_eq!(1, world.entities_mut().len());
    assert_eq!("Trader", world.get_entity(id).name());
}

#[test]
fn test_conservation_across_trading_day() {
    // the population-wide totals of every commodity are unchanged by a full
    // generate-and-clear cycle
    let mut world = World::new();
    for i in 0..5 {
        let id = world.create_entity(format!("H{}", i), vec![eating_recipe()]);
        world
            .get_entity_mut(id)
            .add_ware(Ware::new(WareType::Money, 50));
    }
    for i in 0..5 {
        let id = world.create_entity(format!("F{}", i), vec![food_creator_recipe()]);
        world
            .get_entity_mut(id)
            .add_ware(Ware::new(WareType::Food, 10));
    }
    let totals = |w: &World| {
        let mut food = 0u64;
        let mut money = 0u64;
        for e in w.entities() {
            food += e.wares().ware_amount(WareType::Food) as u64;
            money += e.wares().ware_amount(WareType::Money) as u64;
        }
        (food, money)
    };
    let before = totals(&world);
    let mut rng = TradeRng::from_seed(5);
    world.update_market_offers(&mut rng);
    world.resolve_trades(&mut rng).expect("settlement failed");
    assert_eq!(before, totals(&world));
}
