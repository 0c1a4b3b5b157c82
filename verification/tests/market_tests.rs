use market_economy::clearing::ration;
use market_economy::market::{Market, Offer, OfferType};
use market_economy::prices::PriceTable;
use market_economy::rng::TradeRng;
use market_economy::ware::{Ware, WareType};
use market_economy::ware_range::{sell_offer_limits, WareRangeIter};

fn offer(t: WareType, amount: u32, side: OfferType, price: u32, owner: usize) -> Offer {
    Offer::new(
        Ware::new(t, amount),
        side,
        Ware::new(WareType::Money, price),
        owner,
    )
}

#[test]
fn test_order_offers_sorts_by_type_side_price() {
    let mut market = Market::new();
    market.create_offer(
        Ware::new(WareType::Water, 1),
        OfferType::Sell,
        Ware::new(WareType::Money, 2),
        0,
    );
    market.create_offer(
        Ware::new(WareType::Food, 2),
        OfferType::Sell,
        Ware::new(WareType::Money, 7),
        1,
    );
    market.create_offer(
        Ware::new(WareType::Food, 3),
        OfferType::Buy,
        Ware::new(WareType::Money, 4),
        2,
    );
    market.create_offer(
        Ware::new(WareType::Food, 4),
        OfferType::Sell,
        Ware::new(WareType::Money, 5),
        3,
    );
    market.create_offer(
        Ware::new(WareType::Water, 5),
        OfferType::Buy,
        Ware::new(WareType::Money, 1),
        4,
    );
    market.order_offers();
    let expected = vec![
        offer(WareType::Food, 3, OfferType::Buy, 4, 2),
        offer(WareType::Food, 4, OfferType::Sell, 5, 3),
        offer(WareType::Food, 2, OfferType::Sell, 7, 1),
        offer(WareType::Water, 5, OfferType::Buy, 1, 4),
        offer(WareType::Water, 1, OfferType::Sell, 2, 0),
    ];
    assert_eq!(&expected, book_offers(&market));
}

fn book_offers(market: &Market) -> &Vec<Offer> {
    market.offers()
}

#[test]
fn test_clear_offers_empties_book() {
    let mut market = Market::new();
    market.create_offer(
        Ware::new(WareType::Food, 1),
        OfferType::Buy,
        Ware::new(WareType::Money, 5),
        0,
    );
    assert_eq!(1, market.offers().len());
    market.clear_offers();
    assert!(market.offers().is_empty());
}

#[test]
fn test_offer_total_price() {
    let o = offer(WareType::Food, 4, OfferType::Sell, 5, 0);
    let total = o.total_price();
    assert_eq!(WareType::Money, total.ware_type());
    assert_eq!(20, total.amount());
    assert_eq!(4, o.amount());
    assert_eq!(0, o.entity_id());
    assert_eq!(OfferType::Sell, o.offer_type());
}

#[test]
fn test_ware_ranges_partition_sorted_book() {
    let offers = vec![
        offer(WareType::Food, 3, OfferType::Buy, 4, 0),
        offer(WareType::Food, 4, OfferType::Sell, 5, 1),
        offer(WareType::Food, 2, OfferType::Sell, 7, 2),
        offer(WareType::Water, 5, OfferType::Buy, 1, 3),
        offer(WareType::Soil, 1, OfferType::Sell, 2, 4),
    ];
    let mut it = WareRangeIter::new();

    let food = it.next(&offers).unwrap();
    assert_eq!(WareType::Food, food.ware_type());
    assert_eq!((0, 1), (food.buy_start, food.buy_end));
    assert_eq!((1, 3), (food.sell_start, food.sell_end));
    assert_eq!(1, food.buy_offers(&offers).len());
    assert_eq!(2, food.sell_offers(&offers).len());

    let water = it.next(&offers).unwrap();
    assert_eq!(WareType::Water, water.ware_type());
    assert_eq!((3, 4), (water.buy_start, water.buy_end));
    assert_eq!((4, 4), (water.sell_start, water.sell_end));

    let soil = it.next(&offers).unwrap();
    assert_eq!(WareType::Soil, soil.ware_type());
    assert_eq!((4, 4), (soil.buy_start, soil.buy_end));
    assert_eq!((4, 5), (soil.sell_start, soil.sell_end));

    assert!(it.next(&offers).is_none());
}

#[test]
fn test_sell_offer_limits_tiers() {
    let offers = vec![
        offer(WareType::Food, 3, OfferType::Buy, 4, 0),
        offer(WareType::Food, 6, OfferType::Buy, 6, 1),
        offer(WareType::Food, 4, OfferType::Sell, 5, 2),
        offer(WareType::Food, 2, OfferType::Sell, 5, 3),
        offer(WareType::Food, 9, OfferType::Sell, 7, 4),
    ];
    let mut it = WareRangeIter::new();
    let food = it.next(&offers).unwrap();
    let limits = sell_offer_limits(&offers, &food);
    assert_eq!(2, limits.len());

    // first tier: price 5, cumulative sells are the two cheap offers, and
    // only the richer buyer is inside the money
    assert_eq!(5, limits[0].price());
    assert_eq!(2, limits[0].sell_offset());
    assert_eq!(4, limits[0].sell_limit());
    assert_eq!(1, limits[0].buy_offset());
    assert_eq!(2, limits[0].buy_limit());
    assert_eq!(2, limits[0].sell_slice(&offers).len());
    assert_eq!(1, limits[0].buy_slice(&offers).len());

    // second tier: price 7, cumulative sells are all three, no buyer pays 7
    assert_eq!(7, limits[1].price());
    assert_eq!(2, limits[1].sell_offset());
    assert_eq!(5, limits[1].sell_limit());
    assert_eq!(2, limits[1].buy_offset());
    assert_eq!(2, limits[1].buy_limit());
}

#[test]
fn test_price_table_defaults_and_overrides() {
    let mut prices = PriceTable::new();
    assert_eq!(5, prices.single_price(WareType::Food));
    assert_eq!(1, prices.single_price(WareType::Water));
    assert_eq!(1, prices.single_price(WareType::Soil));
    assert_eq!(1, prices.single_price(WareType::Money));
    assert_eq!(5, WareType::Food.default_price());

    prices.set_single_price(WareType::Food, 9);
    assert_eq!(9, prices.single_price(WareType::Food));
    assert_eq!(1, prices.single_price(WareType::Water));

    let ware = Ware::new(WareType::Food, 6);
    let unit = prices.single_price_as_ware(&ware);
    assert_eq!(WareType::Money, unit.ware_type());
    assert_eq!(9, unit.amount());
    let total = prices.price(&ware);
    assert_eq!(WareType::Money, total.ware_type());
    assert_eq!(54, total.amount());
}

#[test]
fn test_ration_conserves_and_caps() {
    let amounts = vec![10u32, 30, 60];
    let mut rng = TradeRng::from_seed(17);
    let fills = ration(&amounts, 50, &mut rng);
    assert_eq!(3, fills.len());
    let mut sum = 0u64;
    for (f, a) in fills.iter().zip(amounts.iter()) {
        assert!(f <= a);
        sum += *f as u64;
    }
    assert_eq!(50, sum);
}

#[test]
fn test_ration_is_roughly_proportional() {
    // over many seeded draws each request's average fill approaches its
    // proportional share: 5, 15 and 30 of 50 units
    let amounts = vec![10u32, 30, 60];
    let trials = 300u64;
    let mut totals = [0u64; 3];
    for seed in 0..trials {
        let mut rng = TradeRng::from_seed(seed);
        let fills = ration(&amounts, 50, &mut rng);
        for i in 0..3 {
            totals[i] += fills[i] as u64;
        }
    }
    let expected = [5u64 * trials, 15 * trials, 30 * trials];
    for i in 0..3 {
        let lo = expected[i] * 3 / 4;
        let hi = expected[i] * 5 / 4;
        assert!(
            totals[i] >= lo && totals[i] <= hi,
            "fill totals {:?} not near {:?}",
            totals,
            expected
        );
    }
}

#[test]
fn test_ration_edges() {
    let amounts = vec![4u32, 6];
    let mut rng = TradeRng::from_seed(2);
    let nothing = ration(&amounts, 0, &mut rng);
    assert_eq!(vec![0, 0], nothing);
    let everything = ration(&amounts, 10, &mut rng);
    assert_eq!(vec![4, 6], everything);

    let empty: Vec<u32> = vec![];
    assert_eq!(empty, ration(&empty, 0, &mut rng));
}
