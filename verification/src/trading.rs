//! The offer generator: turns each entity's inventory and recipe needs into
//! bounded buy/sell offers and fills the market book for one trading day.

use vstd::prelude::*;
use crate::entity::{Entity, EntityId};
use crate::market::{offers_sorted, Market, Offer, OfferType};
use crate::recipe::recipes_demand;
use crate::rng::TradeRng;
use crate::ware::{
    lemma_distinct_types_bound, lemma_seq_ware_amount_found, lemma_seq_ware_amount_nonneg,
    lemma_seq_ware_amount_zero_iff_absent, seq_ware_amount, Ware, WareType,
};
use crate::world::World;

verus! {

/// What an entity withholds of commodity `t` for its own recipes: all of it,
/// up to its aggregate recipe demand.
pub open spec fn reserved_of(e: Entity, t: WareType) -> int {
    vstd::math::min(e.amount_of(t), recipes_demand(e.spec_recipes(), t))
}

/// The tradable surplus of commodity `t`: inventory minus the reservation.
pub open spec fn surplus_of(e: Entity, t: WareType) -> int {
    e.amount_of(t) - reserved_of(e, t)
}

/// The unmet demand of commodity `t`: the reservation shortfall.
pub open spec fn unmet_of(e: Entity, t: WareType) -> int {
    recipes_demand(e.spec_recipes(), t) - reserved_of(e, t)
}

/// The one sell offer the generator emits for entity `id` and a commodity it
/// holds in surplus: the whole surplus at the entity's sell-side unit price.
pub open spec fn canonical_sell(e: Entity, id: EntityId, t: WareType) -> Offer {
    Offer {
        offer: Ware { ware_type: t, amount: surplus_of(e, t) as u32 },
        offer_type: OfferType::Sell,
        price_per_ware: Ware {
            ware_type: WareType::Money,
            amount: e.spec_sell_prices().single_price_spec(t) as u32,
        },
        entity_id: id,
    }
}

/// Validity of one generated offer against the entity population: positive
/// quantity, never a market in Money, Money-denominated prices; a sell is
/// exactly its owner's canonical surplus offer, and a buy is bounded by its
/// owner's unmet demand, priced from the buy side, with its full cost
/// committed against the owner's spendable (surplus) money.
pub open spec fn offer_ok(o: Offer, es: Seq<Entity>) -> bool {
    &&& o.entity_id < es.len()
    &&& o.offer.ware_type != WareType::Money
    &&& o.offer.amount > 0
    &&& o.price_per_ware.ware_type == WareType::Money
    &&& o.price_per_ware.amount >= 1
    &&& (o.offer_type == OfferType::Sell ==> o == canonical_sell(
        es[o.entity_id as int],
        o.entity_id,
        o.offer.ware_type,
    ))
    &&& (o.offer_type == OfferType::Buy ==> {
        let e = es[o.entity_id as int];
        &&& o.offer.amount <= unmet_of(e, o.offer.ware_type)
        &&& o.price_per_ware.amount == e.spec_buy_prices().single_price_spec(o.offer.ware_type)
        &&& o.offer.amount * o.price_per_ware.amount <= surplus_of(e, WareType::Money)
    })
}

/// The Money a buy offer commits its owner to, if it is entity `e`'s.
pub open spec fn commit_contrib(o: Offer, e: int) -> int {
    if o.offer_type == OfferType::Buy && o.entity_id == e {
        o.offer.amount * o.price_per_ware.amount
    } else {
        0
    }
}

/// Total Money entity `e` has committed across all its buy offers in the
/// book.
pub open spec fn buy_commit(s: Seq<Offer>, e: int) -> int
    decreases s.len(),
{
    if s.len() == 0 {
        0
    } else {
        buy_commit(s.drop_last(), e) + commit_contrib(s.last(), e)
    }
}

pub proof fn lemma_buy_commit_concat(a: Seq<Offer>, b: Seq<Offer>, e: int)
    ensures
        buy_commit(a + b, e) == buy_commit(a, e) + buy_commit(b, e),
    decreases b.len(),
{
    if b.len() == 0 {
        assert(a + b =~= a);
    } else {
        assert((a + b).drop_last() =~= a + b.drop_last());
        assert((a + b).last() == b.last());
        lemma_buy_commit_concat(a, b.drop_last(), e);
    }
}

/// The committed Money is a fold, so it is the same for any permutation of
/// the book; in particular ordering the book does not change it.
pub proof fn lemma_buy_commit_permutation(s1: Seq<Offer>, s2: Seq<Offer>, e: int)
    requires
        s1.to_multiset() == s2.to_multiset(),
    ensures
        buy_commit(s1, e) == buy_commit(s2, e),
{
    let f = |o: Offer, acc: int| acc + commit_contrib(o, e);
    assert(vstd::seq_lib::commutative_foldr(f)) by {
        assert forall|x: Offer, y: Offer, v: int| #[trigger] f(x, f(y, v)) == f(y, f(x, v)) by {}
    }
    lemma_buy_commit_is_fold(s1, e, 0);
    lemma_buy_commit_is_fold(s2, e, 0);
    vstd::seq_lib::lemma_fold_right_permutation(s1, s2, f, 0);
}

proof fn lemma_buy_commit_is_fold(s: Seq<Offer>, e: int, v: int)
    ensures
        s.fold_right(|o: Offer, acc: int| acc + commit_contrib(o, e), v) == v + buy_commit(s, e),
    decreases s.len(),
{
    if s.len() > 0 {
        lemma_buy_commit_is_fold(s.drop_last(), e, v + commit_contrib(s.last(), e));
    }
}

/// What buying one demand entry in full would cost; Money demands are
/// never bought.
pub open spec fn cost_contrib(w: Ware, prices: crate::prices::PriceTable) -> int {
    if w.ware_type == WareType::Money {
        0
    } else {
        w.amount * prices.single_price_spec(w.ware_type)
    }
}

/// Total cost of buying every demand entry in full, at the given buy-side
/// prices.
pub open spec fn demand_cost(s: Seq<Ware>, prices: crate::prices::PriceTable) -> int
    decreases s.len(),
{
    if s.len() == 0 {
        0
    } else {
        demand_cost(s.drop_last(), prices) + cost_contrib(s.last(), prices)
    }
}

pub proof fn lemma_cost_contrib_nonneg(w: Ware, prices: crate::prices::PriceTable)
    ensures
        cost_contrib(w, prices) >= 0,
{
    vstd::arithmetic::mul::lemma_mul_nonnegative(
        w.amount as int,
        prices.single_price_spec(w.ware_type),
    );
}

pub proof fn lemma_demand_cost_take_step(s: Seq<Ware>, i: int, prices: crate::prices::PriceTable)
    requires
        0 <= i < s.len(),
    ensures
        demand_cost(s.take(i + 1), prices) == demand_cost(s.take(i), prices) + cost_contrib(
            s[i],
            prices,
        ),
{
    assert(s.take(i + 1).drop_last() =~= s.take(i));
    assert(s.take(i + 1).last() == s[i]);
}

pub proof fn lemma_demand_cost_take_le(s: Seq<Ware>, i: int, prices: crate::prices::PriceTable)
    requires
        0 <= i <= s.len(),
    ensures
        demand_cost(s.take(i), prices) <= demand_cost(s, prices),
    decreases s.len(),
{
    if i == s.len() {
        assert(s.take(i) =~= s);
    } else {
        assert(s.drop_last().take(i) =~= s.take(i));
        lemma_demand_cost_take_le(s.drop_last(), i, prices);
        lemma_cost_contrib_nonneg(s.last(), prices);
    }
}

/// Total demand cost is the same for any permutation of the entries; in
/// particular the randomized demand order does not change it.
pub proof fn lemma_demand_cost_permutation(
    s1: Seq<Ware>,
    s2: Seq<Ware>,
    prices: crate::prices::PriceTable,
)
    requires
        s1.to_multiset() == s2.to_multiset(),
    ensures
        demand_cost(s1, prices) == demand_cost(s2, prices),
{
    let f = |w: Ware, acc: int| acc + cost_contrib(w, prices);
    assert(vstd::seq_lib::commutative_foldr(f)) by {
        assert forall|x: Ware, y: Ware, v: int| #[trigger] f(x, f(y, v)) == f(y, f(x, v)) by {}
    }
    lemma_demand_cost_is_fold(s1, prices, 0);
    lemma_demand_cost_is_fold(s2, prices, 0);
    vstd::seq_lib::lemma_fold_right_permutation(s1, s2, f, 0);
}

proof fn lemma_demand_cost_is_fold(s: Seq<Ware>, prices: crate::prices::PriceTable, v: int)
    ensures
        s.fold_right(|w: Ware, acc: int| acc + cost_contrib(w, prices), v) == v + demand_cost(
            s,
            prices,
        ),
    decreases s.len(),
{
    if s.len() > 0 {
        lemma_demand_cost_is_fold(s.drop_last(), prices, v + cost_contrib(s.last(), prices));
    }
}

/// The cost of a demand store is the cost of its per-commodity totals.
pub proof fn lemma_demand_cost_as_amounts(s: Seq<Ware>, prices: crate::prices::PriceTable)
    ensures
        demand_cost(s, prices) == seq_ware_amount(s, WareType::Food) * prices.single_price_spec(
            WareType::Food,
        ) + seq_ware_amount(s, WareType::Water) * prices.single_price_spec(WareType::Water)
            + seq_ware_amount(s, WareType::Soil) * prices.single_price_spec(WareType::Soil),
    decreases s.len(),
{
    if s.len() > 0 {
        lemma_demand_cost_as_amounts(s.drop_last(), prices);
        let w = s.last();
        if w.ware_type != WareType::Money {
            vstd::arithmetic::mul::lemma_mul_is_distributive_add_other_way(
                prices.single_price_spec(w.ware_type),
                seq_ware_amount(s.drop_last(), w.ware_type),
                w.amount as int,
            );
        }
    }
}

/// Total cost of buying this entity's whole unmet demand at its buy-side
/// prices.
pub open spec fn unmet_cost(e: Entity) -> int {
    unmet_of(e, WareType::Food) * e.spec_buy_prices().single_price_spec(WareType::Food)
        + unmet_of(e, WareType::Water) * e.spec_buy_prices().single_price_spec(WareType::Water)
        + unmet_of(e, WareType::Soil) * e.spec_buy_prices().single_price_spec(WareType::Soil)
}

/// The entity's spendable money covers its whole unmet demand, so the
/// randomized demand order cannot decide which demands get funded.
pub open spec fn fully_funded(e: Entity) -> bool {
    unmet_cost(e) <= surplus_of(e, WareType::Money)
}

/// The one buy offer the generator emits for entity `id` and a commodity it
/// cannot reserve in full, when the entity is fully funded: the whole unmet
/// demand at the entity's buy-side unit price.
pub open spec fn canonical_buy(e: Entity, id: EntityId, t: WareType) -> Offer {
    Offer {
        offer: Ware { ware_type: t, amount: unmet_of(e, t) as u32 },
        offer_type: OfferType::Buy,
        price_per_ware: Ware {
            ware_type: WareType::Money,
            amount: e.spec_buy_prices().single_price_spec(t) as u32,
        },
        entity_id: id,
    }
}

/// A value occurring twice in a multiset sits at two distinct positions.
proof fn lemma_ware_count_two_indices(s: Seq<Ware>, v: Ware)
    requires
        s.to_multiset().count(v) >= 2,
    ensures
        exists|a: int, b: int| 0 <= a < b < s.len() && (#[trigger] s[a]) == v && (#[trigger] s[b]) == v,
{
    broadcast use vstd::multiset::group_multiset_axioms;

    s.to_multiset_ensures();
    assert(s.contains(v));
    let a = choose|a: int| 0 <= a < s.len() && s[a] == v;
    let sr = s.remove(a);
    sr.to_multiset_ensures();
    assert(sr.to_multiset() =~= s.to_multiset().remove(v));
    assert(sr.to_multiset().count(v) >= 1);
    assert(sr.contains(v));
    let b0 = choose|b0: int| 0 <= b0 < sr.len() && sr[b0] == v;
    if b0 < a {
        assert(s[b0] == v);
        assert(0 <= b0 < a < s.len() && s[b0] == v && s[a] == v);
    } else {
        assert(s[b0 + 1] == v);
        assert(0 <= a < b0 + 1 < s.len() && s[a] == v && s[b0 + 1] == v);
    }
}

/// Two distinct positions holding one value make its count at least two.
proof fn lemma_ware_dup_count(s: Seq<Ware>, k1: int, k2: int, v: Ware)
    requires
        0 <= k1 < k2 < s.len(),
        s[k1] == v,
        s[k2] == v,
    ensures
        s.to_multiset().count(v) >= 2,
{
    broadcast use vstd::multiset::group_multiset_axioms;

    s.to_multiset_ensures();
    let sr = s.remove(k1);
    sr.to_multiset_ensures();
    assert(sr[k2 - 1] == v);
    assert(sr.contains(v));
    assert(s.contains(v));
    assert(sr.to_multiset() =~= s.to_multiset().remove(v));
    assert(sr.to_multiset().count(v) > 0);
}

/// A permutation of a ledger's entries still has pairwise distinct types.
pub proof fn lemma_permutation_types_distinct(s1: Seq<Ware>, s2: Seq<Ware>)
    requires
        crate::ware::seq_types_distinct(s1),
        s1.to_multiset() == s2.to_multiset(),
    ensures
        crate::ware::seq_types_distinct(s2),
{
    s1.to_multiset_ensures();
    s2.to_multiset_ensures();
    assert forall|i: int, j: int|
        0 <= i < j < s2.len() implies s2[i].ware_type != s2[j].ware_type by {
        if s2[i].ware_type == s2[j].ware_type {
            if s2[i] == s2[j] {
                lemma_ware_dup_count(s2, i, j, s2[i]);
                assert(s1.to_multiset().count(s2[i]) >= 2);
                lemma_ware_count_two_indices(s1, s2[i]);
                let (a, b) = choose|a: int, b: int|
                    0 <= a < b < s1.len() && (#[trigger] s1[a]) == s2[i] && (#[trigger] s1[b])
                        == s2[i];
                assert(s1[a].ware_type == s1[b].ware_type);
                assert(false);
            } else {
                assert(s2.contains(s2[i]));
                assert(s2.to_multiset().count(s2[i]) > 0);
                assert(s1.to_multiset().count(s2[i]) > 0);
                assert(s1.contains(s2[i]));
                assert(s2.contains(s2[j]));
                assert(s2.to_multiset().count(s2[j]) > 0);
                assert(s1.to_multiset().count(s2[j]) > 0);
                assert(s1.contains(s2[j]));
                let a = choose|a: int| 0 <= a < s1.len() && s1[a] == s2[i];
                let b = choose|b: int| 0 <= b < s1.len() && s1[b] == s2[j];
                assert(a != b);
                assert(s1[a].ware_type != s1[b].ware_type);
                assert(false);
            }
        }
    }
}

/// No two distinct book positions hold buy offers of one entity for one
/// commodity: the generator aggregates each entity's demand per commodity
/// into at most one buy offer.
pub open spec fn buys_unique(s: Seq<Offer>) -> bool {
    forall|k1: int, k2: int|
        0 <= k1 < k2 < s.len() && (#[trigger] s[k1]).offer_type == OfferType::Buy && (
        #[trigger] s[k2]).offer_type == OfferType::Buy && s[k1].entity_id == s[k2].entity_id
            && s[k1].offer.ware_type == s[k2].offer.ware_type ==> false
}

/// An offer occurring twice in a multiset sits at two distinct positions.
proof fn lemma_offer_count_two_indices(s: Seq<Offer>, v: Offer)
    requires
        s.to_multiset().count(v) >= 2,
    ensures
        exists|a: int, b: int|
            0 <= a < b < s.len() && (#[trigger] s[a]) == v && (#[trigger] s[b]) == v,
{
    broadcast use vstd::multiset::group_multiset_axioms;

    s.to_multiset_ensures();
    assert(s.contains(v));
    let a = choose|a: int| 0 <= a < s.len() && s[a] == v;
    let sr = s.remove(a);
    sr.to_multiset_ensures();
    assert(sr.to_multiset() =~= s.to_multiset().remove(v));
    assert(sr.to_multiset().count(v) >= 1);
    assert(sr.contains(v));
    let b0 = choose|b0: int| 0 <= b0 < sr.len() && sr[b0] == v;
    if b0 < a {
        assert(s[b0] == v);
        assert(0 <= b0 < a < s.len() && s[b0] == v && s[a] == v);
    } else {
        assert(s[b0 + 1] == v);
        assert(0 <= a < b0 + 1 < s.len() && s[a] == v && s[b0 + 1] == v);
    }
}

/// Two distinct positions holding one offer make its count at least two.
proof fn lemma_offer_two_indices_count(s: Seq<Offer>, k1: int, k2: int, v: Offer)
    requires
        0 <= k1 < k2 < s.len(),
        s[k1] == v,
        s[k2] == v,
    ensures
        s.to_multiset().count(v) >= 2,
{
    broadcast use vstd::multiset::group_multiset_axioms;

    s.to_multiset_ensures();
    let sr = s.remove(k1);
    sr.to_multiset_ensures();
    assert(sr[k2 - 1] == v);
    assert(sr.contains(v));
    assert(s.contains(v));
    assert(sr.to_multiset() =~= s.to_multiset().remove(v));
    assert(sr.to_multiset().count(v) > 0);
}

/// Buy uniqueness carries over to any permutation of the book.
pub proof fn lemma_permutation_buys_unique(s1: Seq<Offer>, s2: Seq<Offer>)
    requires
        buys_unique(s1),
        s1.to_multiset() == s2.to_multiset(),
    ensures
        buys_unique(s2),
{
    broadcast use vstd::multiset::group_multiset_axioms;

    s1.to_multiset_ensures();
    s2.to_multiset_ensures();
    assert forall|k1: int, k2: int|
        0 <= k1 < k2 < s2.len() && (#[trigger] s2[k1]).offer_type == OfferType::Buy && (
        #[trigger] s2[k2]).offer_type == OfferType::Buy && s2[k1].entity_id == s2[k2].entity_id
            && s2[k1].offer.ware_type == s2[k2].offer.ware_type implies false by {
        if s2[k1] == s2[k2] {
            lemma_offer_two_indices_count(s2, k1, k2, s2[k1]);
            assert(s1.to_multiset().count(s2[k1]) >= 2);
            lemma_offer_count_two_indices(s1, s2[k1]);
            let (a, b) = choose|a: int, b: int|
                0 <= a < b < s1.len() && (#[trigger] s1[a]) == s2[k1] && (#[trigger] s1[b])
                    == s2[k1];
            assert(false);
        } else {
            assert(s2.contains(s2[k1]));
            assert(s2.to_multiset().count(s2[k1]) > 0);
            assert(s1.to_multiset().count(s2[k1]) > 0);
            assert(s1.contains(s2[k1]));
            assert(s2.contains(s2[k2]));
            assert(s2.to_multiset().count(s2[k2]) > 0);
            assert(s1.to_multiset().count(s2[k2]) > 0);
            assert(s1.contains(s2[k2]));
            let a = choose|a: int| 0 <= a < s1.len() && s1[a] == s2[k1];
            let b = choose|b: int| 0 <= b < s1.len() && s1[b] == s2[k2];
            assert(a != b);
            assert(false);
        }
    }
}

/// Surplus/demand partition: with reserved(t) = min(inventory(t),
/// demand(t)), the tradable surplus and the reservation together are
/// exactly the inventory, and the reservation and the unmet demand together
/// are exactly the aggregate recipe demand, per commodity.  The hypotheses
/// are precisely what `Entity::tradable_wares_and_unmet_demands` ensures of
/// its two results.
pub proof fn lemma_surplus_demand_partition(e: Entity, tradable: crate::ware::WareStore, unmet: crate::ware::WareStore)
    requires
        forall|t: WareType| #[trigger] tradable.amount_of(t) == surplus_of(e, t),
        forall|t: WareType| #[trigger] unmet.amount_of(t) == unmet_of(e, t),
    ensures
        forall|t: WareType| #[trigger] tradable.amount_of(t) + reserved_of(e, t) == e.amount_of(
            t,
        ),
        forall|t: WareType| reserved_of(e, t) + #[trigger] unmet.amount_of(t) == recipes_demand(
            e.spec_recipes(),
            t,
        ),
{
}

/// A well-formed entity's surplus of any commodity is a value of the
/// amount type.
pub proof fn lemma_surplus_in_range(e: Entity, t: WareType)
    requires
        e.wf(),
    ensures
        0 <= surplus_of(e, t) <= u32::MAX,
{
    crate::ware::lemma_seq_ware_amount_nonneg(e.spec_wares()@, t);
    crate::ware::lemma_seq_ware_amount_le_max(e.spec_wares()@, t);
    crate::recipe::lemma_recipes_demand_nonneg(e.spec_recipes(), t);
}

/// Offer-generation round trip, sell side: two books generated against the
/// same entity population hold exactly the same sell offers, however the
/// randomized demand order fell in either run.  The hypotheses are the
/// postconditions of `World::update_market_offers` for each book.  (The buy
/// side is pinned only when no entity runs out of spendable money, since
/// the demand order then decides which demands are funded.)
pub proof fn lemma_sell_offers_deterministic(
    m1: Seq<Offer>,
    m2: Seq<Offer>,
    es: Seq<Entity>,
    o: Offer,
)
    requires
        forall|i: int| 0 <= i < es.len() ==> (#[trigger] es[i]).wf(),
        forall|k: int| 0 <= k < m1.len() ==> offer_ok(#[trigger] m1[k], es),
        forall|k: int| 0 <= k < m2.len() ==> offer_ok(#[trigger] m2[k], es),
        forall|i: int, t: WareType|
            0 <= i < es.len() && t != WareType::Money && surplus_of(es[i], t) > 0
                ==> #[trigger] m1.to_multiset().count(canonical_sell(es[i], i as EntityId, t))
                == 1,
        forall|i: int, t: WareType|
            0 <= i < es.len() && t != WareType::Money && surplus_of(es[i], t) > 0
                ==> #[trigger] m2.to_multiset().count(canonical_sell(es[i], i as EntityId, t))
                == 1,
        o.offer_type == OfferType::Sell,
    ensures
        m1.to_multiset().count(o) == m2.to_multiset().count(o),
{
    broadcast use vstd::multiset::group_multiset_axioms;

    m1.to_multiset_ensures();
    m2.to_multiset_ensures();
    if m1.to_multiset().count(o) > 0 {
        assert(m1.contains(o));
        let k = choose|k: int| 0 <= k < m1.len() && m1[k] == o;
        assert(offer_ok(m1[k], es));
        assert(o == canonical_sell(es[o.entity_id as int], o.entity_id, o.offer.ware_type));
        lemma_surplus_in_range(es[o.entity_id as int], o.offer.ware_type);
        assert(surplus_of(es[o.entity_id as int], o.offer.ware_type) > 0);
        assert(m1.to_multiset().count(
            canonical_sell(es[o.entity_id as int], (o.entity_id as int) as EntityId, o.offer.ware_type),
        ) == 1);
        assert(m2.to_multiset().count(
            canonical_sell(es[o.entity_id as int], (o.entity_id as int) as EntityId, o.offer.ware_type),
        ) == 1);
        assert(m1.to_multiset().count(o) == 1);
        assert(m2.to_multiset().count(o) == 1);
    } else if m2.to_multiset().count(o) > 0 {
        assert(m2.contains(o));
        let k = choose|k: int| 0 <= k < m2.len() && m2[k] == o;
        assert(offer_ok(m2[k], es));
        assert(o == canonical_sell(es[o.entity_id as int], o.entity_id, o.offer.ware_type));
        lemma_surplus_in_range(es[o.entity_id as int], o.offer.ware_type);
        assert(surplus_of(es[o.entity_id as int], o.offer.ware_type) > 0);
        assert(m1.to_multiset().count(
            canonical_sell(es[o.entity_id as int], (o.entity_id as int) as EntityId, o.offer.ware_type),
        ) == 1);
        assert(m1.to_multiset().count(o) == 1);
        assert(false);
    }
}

/// A well-formed entity's unmet demand of any commodity is a value of the
/// amount type, when its aggregate recipe demand is.
pub proof fn lemma_unmet_in_range(e: Entity, t: WareType)
    requires
        e.wf(),
        recipes_demand(e.spec_recipes(), t) <= u32::MAX,
    ensures
        0 <= unmet_of(e, t) <= u32::MAX,
{
    crate::ware::lemma_seq_ware_amount_nonneg(e.spec_wares()@, t);
    crate::recipe::lemma_recipes_demand_nonneg(e.spec_recipes(), t);
}

/// Offer-generation round trip, buy side: when every entity is fully
/// funded, two books generated against the same population hold exactly the
/// same buy offers, however the randomized demand order fell in either run.
/// The hypotheses are the postconditions of `World::update_market_offers`
/// for each book.
pub proof fn lemma_buy_offers_deterministic(
    m1: Seq<Offer>,
    m2: Seq<Offer>,
    es: Seq<Entity>,
    o: Offer,
)
    requires
        forall|i: int| 0 <= i < es.len() ==> (#[trigger] es[i]).wf(),
        forall|i: int, t: WareType|
            0 <= i < es.len() ==> #[trigger] recipes_demand(es[i].spec_recipes(), t)
                <= u32::MAX,
        forall|i: int| 0 <= i < es.len() ==> fully_funded(#[trigger] es[i]),
        forall|k: int| 0 <= k < m1.len() ==> offer_ok(#[trigger] m1[k], es),
        forall|k: int| 0 <= k < m2.len() ==> offer_ok(#[trigger] m2[k], es),
        forall|i: int, t: WareType|
            0 <= i < es.len() && fully_funded(es[i]) && t != WareType::Money && unmet_of(
                es[i],
                t,
            ) > 0 ==> #[trigger] m1.to_multiset().count(
                canonical_buy(es[i], i as EntityId, t),
            ) == 1,
        forall|i: int, t: WareType|
            0 <= i < es.len() && fully_funded(es[i]) && t != WareType::Money && unmet_of(
                es[i],
                t,
            ) > 0 ==> #[trigger] m2.to_multiset().count(
                canonical_buy(es[i], i as EntityId, t),
            ) == 1,
        forall|k: int|
            0 <= k < m1.len() && (#[trigger] m1[k]).offer_type == OfferType::Buy
                && fully_funded(es[m1[k].entity_id as int]) ==> m1[k] == canonical_buy(
                es[m1[k].entity_id as int],
                m1[k].entity_id,
                m1[k].offer.ware_type,
            ),
        forall|k: int|
            0 <= k < m2.len() && (#[trigger] m2[k]).offer_type == OfferType::Buy
                && fully_funded(es[m2[k].entity_id as int]) ==> m2[k] == canonical_buy(
                es[m2[k].entity_id as int],
                m2[k].entity_id,
                m2[k].offer.ware_type,
            ),
        o.offer_type == OfferType::Buy,
    ensures
        m1.to_multiset().count(o) == m2.to_multiset().count(o),
{
    broadcast use vstd::multiset::group_multiset_axioms;

    m1.to_multiset_ensures();
    m2.to_multiset_ensures();
    if m1.to_multiset().count(o) > 0 {
        assert(m1.contains(o));
        let k = choose|k: int| 0 <= k < m1.len() && m1[k] == o;
        assert(offer_ok(m1[k], es));
        let eidx = o.entity_id as int;
        assert(o == canonical_buy(es[eidx], o.entity_id, o.offer.ware_type));
        lemma_unmet_in_range(es[eidx], o.offer.ware_type);
        assert(unmet_of(es[eidx], o.offer.ware_type) > 0);
        assert(m1.to_multiset().count(
            canonical_buy(es[eidx], (eidx) as EntityId, o.offer.ware_type),
        ) == 1);
        assert(m2.to_multiset().count(
            canonical_buy(es[eidx], (eidx) as EntityId, o.offer.ware_type),
        ) == 1);
        assert(m1.to_multiset().count(o) == 1);
        assert(m2.to_multiset().count(o) == 1);
    } else if m2.to_multiset().count(o) > 0 {
        assert(m2.contains(o));
        let k = choose|k: int| 0 <= k < m2.len() && m2[k] == o;
        assert(offer_ok(m2[k], es));
        let eidx = o.entity_id as int;
        assert(o == canonical_buy(es[eidx], o.entity_id, o.offer.ware_type));
        lemma_unmet_in_range(es[eidx], o.offer.ware_type);
        assert(unmet_of(es[eidx], o.offer.ware_type) > 0);
        assert(m1.to_multiset().count(
            canonical_buy(es[eidx], (eidx) as EntityId, o.offer.ware_type),
        ) == 1);
        assert(m1.to_multiset().count(o) == 1);
        assert(false);
    }
}

/// Offer-generation round trip: generating offers twice in a row with no
/// ledger change in between yields the same book both times, as a multiset
/// of offers — whatever the randomized demand processing order did in each
/// run — provided every entity is fully funded.  (When money runs out, the
/// demand order decides which demands are funded, so only the sell side is
/// then pinned; see `lemma_sell_offers_deterministic`.)  The hypotheses are
/// the postconditions of `World::update_market_offers` for each book, which
/// also ensure the ledgers themselves were left unchanged.
pub proof fn lemma_generation_round_trip(
    m1: Seq<Offer>,
    m2: Seq<Offer>,
    es: Seq<Entity>,
    o: Offer,
)
    requires
        forall|i: int| 0 <= i < es.len() ==> (#[trigger] es[i]).wf(),
        forall|i: int, t: WareType|
            0 <= i < es.len() ==> #[trigger] recipes_demand(es[i].spec_recipes(), t)
                <= u32::MAX,
        forall|i: int| 0 <= i < es.len() ==> fully_funded(#[trigger] es[i]),
        forall|k: int| 0 <= k < m1.len() ==> offer_ok(#[trigger] m1[k], es),
        forall|k: int| 0 <= k < m2.len() ==> offer_ok(#[trigger] m2[k], es),
        forall|i: int, t: WareType|
            0 <= i < es.len() && t != WareType::Money && surplus_of(es[i], t) > 0
                ==> #[trigger] m1.to_multiset().count(canonical_sell(es[i], i as EntityId, t))
                == 1,
        forall|i: int, t: WareType|
            0 <= i < es.len() && t != WareType::Money && surplus_of(es[i], t) > 0
                ==> #[trigger] m2.to_multiset().count(canonical_sell(es[i], i as EntityId, t))
                == 1,
        forall|i: int, t: WareType|
            0 <= i < es.len() && fully_funded(es[i]) && t != WareType::Money && unmet_of(
                es[i],
                t,
            ) > 0 ==> #[trigger] m1.to_multiset().count(
                canonical_buy(es[i], i as EntityId, t),
            ) == 1,
        forall|i: int, t: WareType|
            0 <= i < es.len() && fully_funded(es[i]) && t != WareType::Money && unmet_of(
                es[i],
                t,
            ) > 0 ==> #[trigger] m2.to_multiset().count(
                canonical_buy(es[i], i as EntityId, t),
            ) == 1,
        forall|k: int|
            0 <= k < m1.len() && (#[trigger] m1[k]).offer_type == OfferType::Buy
                && fully_funded(es[m1[k].entity_id as int]) ==> m1[k] == canonical_buy(
                es[m1[k].entity_id as int],
                m1[k].entity_id,
                m1[k].offer.ware_type,
            ),
        forall|k: int|
            0 <= k < m2.len() && (#[trigger] m2[k]).offer_type == OfferType::Buy
                && fully_funded(es[m2[k].entity_id as int]) ==> m2[k] == canonical_buy(
                es[m2[k].entity_id as int],
                m2[k].entity_id,
                m2[k].offer.ware_type,
            ),
    ensures
        m1.to_multiset().count(o) == m2.to_multiset().count(o),
{
    match o.offer_type {
        OfferType::Sell => {
            lemma_sell_offers_deterministic(m1, m2, es, o);
        }
        OfferType::Buy => {
            lemma_buy_offers_deterministic(m1, m2, es, o);
        }
    }
}

/// Two entities agree on everything but their recorded offer ids.
pub open spec fn entity_core_eq(a: Entity, b: Entity) -> bool {
    &&& a.spec_name() == b.spec_name()
    &&& a.spec_wares() == b.spec_wares()
    &&& a.spec_buy_prices() == b.spec_buy_prices()
    &&& a.spec_sell_prices() == b.spec_sell_prices()
    &&& a.spec_recipes() == b.spec_recipes()
}

/// Offer validity only reads the entities' cores.
pub proof fn lemma_offer_ok_core(o: Offer, es1: Seq<Entity>, es2: Seq<Entity>)
    requires
        es1.len() == es2.len(),
        forall|i: int| 0 <= i < es1.len() ==> entity_core_eq(#[trigger] es1[i], es2[i]),
        offer_ok(o, es1),
    ensures
        offer_ok(o, es2),
{
    assert(entity_core_eq(es1[o.entity_id as int], es2[o.entity_id as int]));
}

/// A property of every element carries over to any permutation.
pub proof fn lemma_offers_prop_permutation(s1: Seq<Offer>, s2: Seq<Offer>, p: spec_fn(Offer) -> bool)
    requires
        s1.to_multiset() == s2.to_multiset(),
        forall|i: int| 0 <= i < s1.len() ==> #[trigger] p(s1[i]),
    ensures
        forall|i: int| 0 <= i < s2.len() ==> #[trigger] p(s2[i]),
{
    s1.to_multiset_ensures();
    s2.to_multiset_ensures();
    assert forall|i: int| 0 <= i < s2.len() implies #[trigger] p(s2[i]) by {
        assert(s2.contains(s2[i]));
        assert(s2.to_multiset().count(s2[i]) > 0);
        assert(s1.contains(s2[i]));
        let j = choose|j: int| 0 <= j < s1.len() && s1[j] == s2[i];
        assert(p(s1[j]));
    }
}

/// Generates the offers of one entity into the book: one sell per non-Money
/// surplus commodity, then, in the randomized demand order, one buy per
/// affordable non-Money unmet demand, debiting a local spendable-money
/// counter as buys are committed.
fn generate_entity_offers(
    entities: &mut Vec<Entity>,
    market: &mut Market,
    entity_id: usize,
    rng: &mut TradeRng,
)
    requires
        entity_id < old(entities)@.len(),
        forall|i: int| 0 <= i < old(entities)@.len() ==> (#[trigger] old(entities)@[i]).wf(),
        old(market).wf(),
        forall|t: WareType|
            recipes_demand(old(entities)@[entity_id as int].spec_recipes(), t) <= u32::MAX,
        old(market)@.len() + 8 <= usize::MAX,
    ensures
        final(entities)@.len() == old(entities)@.len(),
        forall|i: int|
            0 <= i < old(entities)@.len() ==> entity_core_eq(
                #[trigger] final(entities)@[i],
                old(entities)@[i],
            ) && final(entities)@[i].wf(),
        forall|i: int|
            0 <= i < old(entities)@.len() && i != entity_id ==> final(entities)@[i] == old(
                entities,
            )@[i],
        final(market).wf(),
        old(market)@.is_prefix_of(final(market)@),
        final(market)@.len() <= old(market)@.len() + 8,
        forall|k: int|
            old(market)@.len() <= k < final(market)@.len() ==> offer_ok(
                #[trigger] final(market)@[k],
                old(entities)@,
            ) && final(market)@[k].entity_id == entity_id,
        forall|t: WareType|
            t != WareType::Money && surplus_of(old(entities)@[entity_id as int], t) > 0
                ==> final(market)@.skip(old(market)@.len() as int).to_multiset().count(
                canonical_sell(old(entities)@[entity_id as int], entity_id, t),
            ) == 1,
        buy_commit(final(market)@.skip(old(market)@.len() as int), entity_id as int)
            <= surplus_of(old(entities)@[entity_id as int], WareType::Money),
        forall|e: int|
            e != entity_id ==> #[trigger] buy_commit(
                final(market)@.skip(old(market)@.len() as int),
                e,
            ) == 0,
        fully_funded(old(entities)@[entity_id as int]) ==> forall|t: WareType|
            t != WareType::Money && unmet_of(old(entities)@[entity_id as int], t) > 0
                ==> final(market)@.skip(old(market)@.len() as int).to_multiset().count(
                canonical_buy(old(entities)@[entity_id as int], entity_id, t),
            ) == 1,
        forall|k1: int, k2: int|
            old(market)@.len() <= k1 < k2 < final(market)@.len()
                && (#[trigger] final(market)@[k1]).offer_type == OfferType::Buy
                && (#[trigger] final(market)@[k2]).offer_type == OfferType::Buy
                ==> final(market)@[k1].offer.ware_type != final(market)@[k2].offer.ware_type,
        fully_funded(old(entities)@[entity_id as int]) ==> forall|k: int|
            old(market)@.len() <= k < final(market)@.len()
                && (#[trigger] final(market)@[k]).offer_type == OfferType::Buy
                ==> final(market)@[k] == canonical_buy(
                old(entities)@[entity_id as int],
                entity_id,
                final(market)@[k].offer.ware_type,
            ),
{
    broadcast use vstd::multiset::group_multiset_axioms;

    let ghost es0 = entities@;
    let ghost m0 = market@;
    let ghost e0 = es0[entity_id as int];
    let (tradable, unmet) = entities[entity_id].tradable_wares_and_unmet_demands();
    entities[entity_id].clear_offer_ids();
    let tradable_list = tradable.iter();
    proof {
        lemma_distinct_types_bound(tradable@);
        assert(market@.skip(m0.len() as int) =~= Seq::<Offer>::empty());
        market@.skip(m0.len() as int).to_multiset_ensures();
    }
    let mut k: usize = 0;
    while k < tradable_list.len()
        invariant
            entity_id < es0.len(),
            e0 == es0[entity_id as int],
            entities@.len() == es0.len(),
            forall|i: int|
                0 <= i < es0.len() ==> entity_core_eq(#[trigger] entities@[i], es0[i])
                    && entities@[i].wf(),
            forall|i: int| 0 <= i < es0.len() && i != entity_id ==> entities@[i] == es0[i],
            market.wf(),
            m0.is_prefix_of(market@),
            tradable_list@ == tradable@,
            tradable.wf(),
            forall|t: WareType| #[trigger] tradable.amount_of(t) == surplus_of(e0, t),
            k <= tradable_list@.len() <= 4,
            market@.len() <= m0.len() + k,
            m0.len() + 8 <= usize::MAX,
            forall|j: int|
                m0.len() <= j < market@.len() ==> offer_ok(#[trigger] market@[j], es0)
                    && market@[j].entity_id == entity_id && market@[j].offer_type
                    == OfferType::Sell,
            forall|t: WareType|
                t != WareType::Money ==> market@.skip(m0.len() as int).to_multiset().count(
                    canonical_sell(e0, entity_id, t),
                ) == (if exists|x: int| 0 <= x < k && tradable@[x].ware_type == t {
                    1int
                } else {
                    0int
                }),
            forall|e: int| #[trigger] buy_commit(market@.skip(m0.len() as int), e) == 0,
        decreases tradable_list@.len() - k,
    {
        let w = tradable_list[k];
        let ghost pre = market@;
        if !w.is_money() {
            proof {
                lemma_seq_ware_amount_found(tradable@, w.ware_type, k as int);
                assert(tradable@[k as int] == w);
                assert(tradable.amount_of(w.ware_type) == surplus_of(e0, w.ware_type));
                assert(surplus_of(e0, w.ware_type) == w.amount as int);
                assert(entity_core_eq(entities@[entity_id as int], e0));
            }
            let price = entities[entity_id].sell_prices().single_price_as_ware(&w);
            let oid = market.create_offer(w, OfferType::Sell, price, entity_id);
            entities[entity_id].add_offer_id(oid);
            proof {
                let o = Offer {
                    offer: w,
                    offer_type: OfferType::Sell,
                    price_per_ware: price,
                    entity_id,
                };
                assert(price.amount == e0.spec_sell_prices().single_price_spec(w.ware_type));
                assert(o == canonical_sell(e0, entity_id, w.ware_type));
                assert(offer_ok(o, es0));
                assert(market@.skip(m0.len() as int) =~= pre.skip(m0.len() as int).push(o));
                assert forall|e: int| #[trigger] buy_commit(market@.skip(m0.len() as int), e)
                    == 0 by {
                    assert(market@.skip(m0.len() as int).len() > 0);
                    assert(market@.skip(m0.len() as int).last() == o);
                    assert(market@.skip(m0.len() as int).drop_last() =~= pre.skip(
                        m0.len() as int,
                    ));
                    assert(buy_commit(pre.skip(m0.len() as int), e) == 0);
                    assert(commit_contrib(o, e) == 0);
                }
                pre.skip(m0.len() as int).to_multiset_ensures();
                assert forall|t: WareType| t != WareType::Money implies market@.skip(
                    m0.len() as int,
                ).to_multiset().count(canonical_sell(e0, entity_id, t)) == (
                if exists|x: int| 0 <= x < k + 1 && tradable@[x].ware_type == t {
                    1int
                } else {
                    0int
                }) by {
                    if t == w.ware_type {
                        assert(forall|x: int|
                            0 <= x < k ==> tradable@[x].ware_type != t);
                        assert(tradable@[k as int].ware_type == t);
                    } else {
                        assert(canonical_sell(e0, entity_id, t).offer.ware_type == t);
                        assert(o != canonical_sell(e0, entity_id, t));
                        assert(forall|x: int|
                            0 <= x < k + 1 && #[trigger] tradable@[x].ware_type == t ==> x < k);
                    }
                }
            }
        } else {
            proof {
                assert forall|t: WareType| t != WareType::Money implies market@.skip(
                    m0.len() as int,
                ).to_multiset().count(canonical_sell(e0, entity_id, t)) == (
                if exists|x: int| 0 <= x < k + 1 && tradable@[x].ware_type == t {
                    1int
                } else {
                    0int
                }) by {
                    assert(tradable@[k as int].ware_type == WareType::Money);
                    if exists|x: int| 0 <= x < k + 1 && tradable@[x].ware_type == t {
                        let x = choose|x: int| 0 <= x < k + 1 && tradable@[x].ware_type == t;
                        assert(x < k);
                        assert(exists|x2: int| 0 <= x2 < k && tradable@[x2].ware_type == t);
                    }
                }
            }
        }
        k = k + 1;
    }
    proof {
        assert forall|t: WareType|
            t != WareType::Money && surplus_of(e0, t) > 0 implies market@.skip(
            m0.len() as int,
        ).to_multiset().count(canonical_sell(e0, entity_id, t)) == 1 by {
            lemma_seq_ware_amount_zero_iff_absent(tradable@, t);
            assert(tradable.amount_of(t) == surplus_of(e0, t));
            assert(exists|x: int|
                0 <= x < tradable@.len() && #[trigger] tradable@[x].ware_type == t);
        }
    }
    let ghost sells_done = market@;
    let money0 = tradable.ware_amount(WareType::Money);
    proof {
        lemma_seq_ware_amount_nonneg(tradable@, WareType::Money);
    }
    let mut money = money0;
    let mut demand_list = unmet.iter();
    rng.shuffle_wares(&mut demand_list);
    let ghost funded = fully_funded(e0);
    proof {
        lemma_distinct_types_bound(unmet@);
        lemma_permutation_types_distinct(unmet@, demand_list@);
        if funded {
            lemma_demand_cost_permutation(demand_list@, unmet@, e0.spec_buy_prices());
            lemma_demand_cost_as_amounts(unmet@, e0.spec_buy_prices());
            assert(unmet.amount_of(WareType::Food) == unmet_of(e0, WareType::Food));
            assert(unmet.amount_of(WareType::Water) == unmet_of(e0, WareType::Water));
            assert(unmet.amount_of(WareType::Soil) == unmet_of(e0, WareType::Soil));
            assert(money0 == surplus_of(e0, WareType::Money));
            assert(demand_cost(unmet@, e0.spec_buy_prices()) == unmet_cost(e0));
            assert(demand_cost(demand_list@, e0.spec_buy_prices()) <= money0);
            assert(demand_list@.take(0).len() == 0);
            assert forall|t: WareType| t != WareType::Money implies market@.skip(
                m0.len() as int,
            ).to_multiset().count(canonical_buy(e0, entity_id, t)) == 0 by {
                let sk = market@.skip(m0.len() as int);
                sk.to_multiset_ensures();
                if sk.to_multiset().count(canonical_buy(e0, entity_id, t)) > 0 {
                    assert(sk.contains(canonical_buy(e0, entity_id, t)));
                    let j = choose|j: int|
                        0 <= j < sk.len() && sk[j] == canonical_buy(e0, entity_id, t);
                    assert(market@[m0.len() + j].offer_type == OfferType::Sell);
                    assert(false);
                }
            }
        }
    }
    let mut k: usize = 0;
    while k < demand_list.len()
        invariant
            entity_id < es0.len(),
            e0 == es0[entity_id as int],
            entities@.len() == es0.len(),
            forall|i: int|
                0 <= i < es0.len() ==> entity_core_eq(#[trigger] entities@[i], es0[i])
                    && entities@[i].wf(),
            forall|i: int| 0 <= i < es0.len() && i != entity_id ==> entities@[i] == es0[i],
            market.wf(),
            m0.is_prefix_of(market@),
            sells_done.is_prefix_of(market@),
            sells_done.len() <= m0.len() + 4,
            demand_list@.len() == unmet@.len() <= 4,
            demand_list@.to_multiset() == unmet@.to_multiset(),
            unmet.wf(),
            forall|t: WareType| #[trigger] unmet.amount_of(t) == unmet_of(e0, t),
            k <= demand_list@.len(),
            market@.len() <= sells_done.len() + k,
            m0.len() + 8 <= usize::MAX,
            money <= money0,
            money0 == surplus_of(e0, WareType::Money),
            buy_commit(market@.skip(m0.len() as int), entity_id as int) == money0 - money,
            forall|e: int|
                e != entity_id ==> #[trigger] buy_commit(market@.skip(m0.len() as int), e)
                    == 0,
            forall|j: int|
                m0.len() <= j < market@.len() ==> offer_ok(#[trigger] market@[j], es0)
                    && market@[j].entity_id == entity_id,
            forall|t: WareType|
                t != WareType::Money && surplus_of(e0, t) > 0 ==> market@.skip(
                    m0.len() as int,
                ).to_multiset().count(canonical_sell(e0, entity_id, t)) == 1,
            crate::ware::seq_types_distinct(demand_list@),
            forall|j: int|
                m0.len() <= j < market@.len() && (#[trigger] market@[j]).offer_type
                    == OfferType::Buy ==> exists|x: int|
                    0 <= x < k && (#[trigger] demand_list@[x]).ware_type == market@[
                        j].offer.ware_type,
            forall|j1: int, j2: int|
                m0.len() <= j1 < j2 < market@.len() && (#[trigger] market@[j1]).offer_type
                    == OfferType::Buy && (#[trigger] market@[j2]).offer_type == OfferType::Buy
                    ==> market@[j1].offer.ware_type != market@[j2].offer.ware_type,
            funded == fully_funded(e0),
            funded ==> money == money0 - demand_cost(
                demand_list@.take(k as int),
                e0.spec_buy_prices(),
            ),
            funded ==> demand_cost(demand_list@, e0.spec_buy_prices()) <= money0,
            funded ==> forall|t: WareType|
                t != WareType::Money ==> market@.skip(m0.len() as int).to_multiset().count(
                    canonical_buy(e0, entity_id, t),
                ) == (if exists|x: int| 0 <= x < k && demand_list@[x].ware_type == t {
                    1int
                } else {
                    0int
                }),
            funded ==> forall|j: int|
                m0.len() <= j < market@.len() && (#[trigger] market@[j]).offer_type
                    == OfferType::Buy ==> market@[j] == canonical_buy(
                    e0,
                    entity_id,
                    market@[j].offer.ware_type,
                ),
        decreases demand_list@.len() - k,
    {
        let d = demand_list[k];
        let ghost pre = market@;
        if !d.is_money() {
            let price_w = entities[entity_id].buy_prices().single_price_as_ware(&d);
            let p = price_w.amount();
            let max_buy = money / p;
            let amt = if d.amount() < max_buy {
                d.amount()
            } else {
                max_buy
            };
            proof {
                if funded {
                    assert(entity_core_eq(entities@[entity_id as int], e0));
                    assert(p == e0.spec_buy_prices().single_price_spec(d.ware_type));
                    lemma_demand_cost_take_step(demand_list@, k as int, e0.spec_buy_prices());
                    lemma_demand_cost_take_le(
                        demand_list@,
                        k as int + 1,
                        e0.spec_buy_prices(),
                    );
                    assert(cost_contrib(d, e0.spec_buy_prices()) == d.amount * p);
                    assert(d.amount * p <= money);
                    vstd::arithmetic::div_mod::lemma_div_is_ordered(
                        d.amount as int * p as int,
                        money as int,
                        p as int,
                    );
                    vstd::arithmetic::div_mod::lemma_div_by_multiple(
                        d.amount as int,
                        p as int,
                    );
                    assert(max_buy >= d.amount);
                    assert(amt == d.amount);
                    demand_list@.to_multiset_ensures();
                    unmet@.to_multiset_ensures();
                    assert(demand_list@[k as int] == d);
                    assert(demand_list@.contains(d));
                    assert(demand_list@.to_multiset().count(d) > 0);
                    assert(unmet@.to_multiset().count(d) > 0);
                    assert(unmet@.contains(d));
                    let idx = choose|idx: int| 0 <= idx < unmet@.len() && unmet@[idx] == d;
                    assert(unmet@[idx].amount > 0);
                    assert(amt > 0);
                }
            }
            if amt > 0 {
                proof {
                    vstd::arithmetic::div_mod::lemma_fundamental_div_mod(
                        money as int,
                        p as int,
                    );
                    vstd::arithmetic::div_mod::lemma_mod_bound(money as int, p as int);
                    vstd::arithmetic::mul::lemma_mul_inequality(
                        amt as int,
                        (money as int) / (p as int),
                        p as int,
                    );
                    vstd::arithmetic::mul::lemma_mul_is_commutative(
                        (money as int) / (p as int),
                        p as int,
                    );
                    assert(amt * p <= money);
                    demand_list@.to_multiset_ensures();
                    unmet@.to_multiset_ensures();
                    assert(demand_list@[k as int] == d);
                    assert(demand_list@.contains(d));
                    assert(demand_list@.to_multiset().count(d) > 0);
                    assert(unmet@.to_multiset().count(d) > 0);
                    assert(unmet@.contains(d));
                    let idx = choose|idx: int|
                        0 <= idx < unmet@.len() && unmet@[idx] == d;
                    lemma_seq_ware_amount_found(unmet@, d.ware_type, idx);
                    assert(unmet.amount_of(d.ware_type) == unmet_of(e0, d.ware_type));
                    assert(d.amount <= unmet_of(e0, d.ware_type));
                    assert(entity_core_eq(entities@[entity_id as int], e0));
                }
                let buy = Ware::new(d.ware_type(), amt);
                let oid = market.create_offer(buy, OfferType::Buy, price_w, entity_id);
                entities[entity_id].add_offer_id(oid);
                money = money - amt * p;
                proof {
                    let o = Offer {
                        offer: buy,
                        offer_type: OfferType::Buy,
                        price_per_ware: price_w,
                        entity_id,
                    };
                    assert(offer_ok(o, es0));
                    assert(market@.skip(m0.len() as int) =~= pre.skip(m0.len() as int).push(o));
                    assert(market@.skip(m0.len() as int).len() > 0);
                    assert(market@.skip(m0.len() as int).last() == o);
                    assert(market@.skip(m0.len() as int).drop_last() =~= pre.skip(
                        m0.len() as int,
                    ));
                    assert(commit_contrib(o, entity_id as int) == amt * p);
                    assert(buy_commit(market@.skip(m0.len() as int), entity_id as int)
                        == buy_commit(pre.skip(m0.len() as int), entity_id as int)
                        + commit_contrib(o, entity_id as int));
                    assert forall|e: int|
                        e != entity_id implies #[trigger] buy_commit(
                        market@.skip(m0.len() as int),
                        e,
                    ) == 0 by {
                        assert(market@.skip(m0.len() as int).len() > 0);
                        assert(market@.skip(m0.len() as int).last() == o);
                        assert(buy_commit(pre.skip(m0.len() as int), e) == 0);
                        assert(commit_contrib(o, e) == 0);
                    }
                    pre.skip(m0.len() as int).to_multiset_ensures();
                    assert forall|t: WareType|
                        t != WareType::Money && surplus_of(e0, t) > 0 implies market@.skip(
                        m0.len() as int,
                    ).to_multiset().count(canonical_sell(e0, entity_id, t)) == 1 by {
                        assert(o.offer_type != canonical_sell(e0, entity_id, t).offer_type);
                        assert(o != canonical_sell(e0, entity_id, t));
                    }
                    assert(market@[market@.len() - 1] == o);
                    assert forall|j: int|
                        m0.len() <= j < market@.len() && (#[trigger] market@[j]).offer_type
                            == OfferType::Buy implies exists|x: int|
                            0 <= x < k + 1 && (#[trigger] demand_list@[x]).ware_type
                                == market@[j].offer.ware_type by {
                        if j < market@.len() - 1 {
                            assert(market@[j] == pre[j]);
                            let x0 = choose|x0: int|
                                0 <= x0 < k && (#[trigger] demand_list@[x0]).ware_type
                                    == pre[j].offer.ware_type;
                            assert(demand_list@[x0].ware_type == market@[j].offer.ware_type);
                        } else {
                            assert(demand_list@[k as int].ware_type
                                == market@[j].offer.ware_type);
                        }
                    }
                    assert forall|j1: int, j2: int|
                        m0.len() <= j1 < j2 < market@.len() && (#[trigger] market@[
                        j1]).offer_type == OfferType::Buy && (#[trigger] market@[
                        j2]).offer_type == OfferType::Buy implies market@[j1].offer.ware_type
                        != market@[j2].offer.ware_type by {
                        if j2 == market@.len() - 1 {
                            assert(market@[j1] == pre[j1]);
                            let x0 = choose|x0: int|
                                0 <= x0 < k && (#[trigger] demand_list@[x0]).ware_type
                                    == pre[j1].offer.ware_type;
                            assert(demand_list@[x0].ware_type != demand_list@[k as int].ware_type);
                        } else {
                            assert(market@[j1] == pre[j1]);
                            assert(market@[j2] == pre[j2]);
                        }
                    }
                    if funded {
                        let idx = choose|idx: int|
                            0 <= idx < unmet@.len() && unmet@[idx] == d;
                        lemma_seq_ware_amount_found(unmet@, d.ware_type, idx);
                        assert(d.amount == unmet_of(e0, d.ware_type));
                        assert(o == canonical_buy(e0, entity_id, d.ware_type));
                        assert forall|t: WareType| t != WareType::Money implies market@.skip(
                            m0.len() as int,
                        ).to_multiset().count(canonical_buy(e0, entity_id, t)) == (
                        if exists|x: int|
                            0 <= x < k + 1 && demand_list@[x].ware_type == t {
                            1int
                        } else {
                            0int
                        }) by {
                            if t == d.ware_type {
                                assert(forall|x: int|
                                    0 <= x < k ==> demand_list@[x].ware_type != t);
                                assert(demand_list@[k as int].ware_type == t);
                            } else {
                                assert(canonical_buy(e0, entity_id, t).offer.ware_type == t);
                                assert(o != canonical_buy(e0, entity_id, t));
                                assert(forall|x: int|
                                    0 <= x < k + 1 && #[trigger] demand_list@[x].ware_type
                                        == t ==> x < k);
                            }
                        }
                    }
                }
            } else {
                proof {
                    if funded {
                        assert(false);
                    }
                }
            }
        } else {
            proof {
                if funded {
                    lemma_demand_cost_take_step(demand_list@, k as int, e0.spec_buy_prices());
                    assert(cost_contrib(d, e0.spec_buy_prices()) == 0);
                    assert forall|t: WareType| t != WareType::Money implies market@.skip(
                        m0.len() as int,
                    ).to_multiset().count(canonical_buy(e0, entity_id, t)) == (
                    if exists|x: int| 0 <= x < k + 1 && demand_list@[x].ware_type == t {
                        1int
                    } else {
                        0int
                    }) by {
                        assert(demand_list@[k as int].ware_type == WareType::Money);
                        if exists|x: int| 0 <= x < k + 1 && demand_list@[x].ware_type == t {
                            let x = choose|x: int|
                                0 <= x < k + 1 && demand_list@[x].ware_type == t;
                            assert(x < k);
                            assert(exists|x2: int|
                                0 <= x2 < k && demand_list@[x2].ware_type == t);
                        }
                    }
                }
            }
        }
        k = k + 1;
    }
    proof {
        if funded {
            assert forall|t: WareType|
                t != WareType::Money && unmet_of(e0, t) > 0 implies market@.skip(
                m0.len() as int,
            ).to_multiset().count(canonical_buy(e0, entity_id, t)) == 1 by {
                lemma_seq_ware_amount_zero_iff_absent(unmet@, t);
                assert(unmet.amount_of(t) == unmet_of(e0, t));
                assert(exists|i: int|
                    0 <= i < unmet@.len() && #[trigger] unmet@[i].ware_type == t);
                let i = choose|i: int|
                    0 <= i < unmet@.len() && #[trigger] unmet@[i].ware_type == t;
                unmet@.to_multiset_ensures();
                demand_list@.to_multiset_ensures();
                assert(unmet@.contains(unmet@[i]));
                assert(unmet@.to_multiset().count(unmet@[i]) > 0);
                assert(demand_list@.to_multiset().count(unmet@[i]) > 0);
                assert(demand_list@.contains(unmet@[i]));
                let x = choose|x: int|
                    0 <= x < demand_list@.len() && demand_list@[x] == unmet@[i];
                assert(demand_list@[x].ware_type == t);
                assert(exists|x2: int|
                    0 <= x2 < demand_list@.len() && demand_list@[x2].ware_type == t);
            }
        }
    }
}

impl World {

/// Fills the market with every entity's offers for this trading day and
/// orders the book.  Entities' inventories, prices and recipes are left
/// untouched; only their recorded offer ids change.  Afterwards the book is
/// sorted, every offer is valid (`offer_ok`), each entity has exactly one
/// sell offer (its whole surplus) per non-Money commodity it holds in
/// surplus, and no entity has committed more Money across its buy offers
/// than its spendable surplus — so the book is always settleable.
#[verifier::rlimit(100)]
#[verifier::spinoff_prover]
pub fn update_market_offers(&mut self, rng: &mut TradeRng)
    requires
        old(self).wf(),
        forall|i: int, t: WareType|
            0 <= i < old(self).spec_entities().len() ==> #[trigger] recipes_demand(
                old(self).spec_entities()[i].spec_recipes(),
                t,
            ) <= u32::MAX,
        old(self).spec_entities().len() <= 0x0fff_ffff,
    ensures
        final(self).wf(),
        final(self).spec_entities().len() == old(self).spec_entities().len(),
        forall|i: int|
            0 <= i < old(self).spec_entities().len() ==> entity_core_eq(
                #[trigger] final(self).spec_entities()[i],
                old(self).spec_entities()[i],
            ),
        offers_sorted(final(self).spec_market()@),
        forall|k: int|
            0 <= k < final(self).spec_market()@.len() ==> offer_ok(
                #[trigger] final(self).spec_market()@[k],
                final(self).spec_entities(),
            ),
        forall|i: int, t: WareType|
            0 <= i < final(self).spec_entities().len() && t != WareType::Money && surplus_of(
                final(self).spec_entities()[i],
                t,
            ) > 0 ==> #[trigger] final(self).spec_market()@.to_multiset().count(
                canonical_sell(final(self).spec_entities()[i], i as EntityId, t),
            ) == 1,
        forall|i: int|
            0 <= i < final(self).spec_entities().len() ==> #[trigger] buy_commit(
                final(self).spec_market()@,
                i,
            ) <= surplus_of(final(self).spec_entities()[i], WareType::Money),
        forall|i: int, t: WareType|
            0 <= i < final(self).spec_entities().len() && fully_funded(
                final(self).spec_entities()[i],
            ) && t != WareType::Money && unmet_of(final(self).spec_entities()[i], t) > 0
                ==> #[trigger] final(self).spec_market()@.to_multiset().count(
                canonical_buy(final(self).spec_entities()[i], i as EntityId, t),
            ) == 1,
        forall|k: int|
            0 <= k < final(self).spec_market()@.len()
                && (#[trigger] final(self).spec_market()@[k]).offer_type == OfferType::Buy
                && fully_funded(
                final(self).spec_entities()[final(self).spec_market()@[k].entity_id as int],
            ) ==> final(self).spec_market()@[k] == canonical_buy(
                final(self).spec_entities()[final(self).spec_market()@[k].entity_id as int],
                final(self).spec_market()@[k].entity_id,
                final(self).spec_market()@[k].offer.ware_type,
            ),
        buys_unique(final(self).spec_market()@),
{
    broadcast use vstd::multiset::group_multiset_axioms;

    let ghost es0 = old(self).spec_entities();
    self.market.clear_offers();
    let n = self.entities.len();
    let mut i: usize = 0;
    while i < n
        invariant
            n == es0.len() <= 0x0fff_ffff,
            self.entities@.len() == n,
            forall|j: int|
                0 <= j < n ==> entity_core_eq(#[trigger] self.entities@[j], es0[j])
                    && self.entities@[j].wf(),
            forall|j: int, t: WareType|
                0 <= j < n ==> #[trigger] recipes_demand(es0[j].spec_recipes(), t) <= u32::MAX,
            self.market.wf(),
            self.market@.len() <= 8 * i,
            i <= n,
            forall|k: int|
                0 <= k < self.market@.len() ==> offer_ok(#[trigger] self.market@[k], es0)
                    && self.market@[k].entity_id < i,
            forall|j: int, t: WareType|
                0 <= j < i && t != WareType::Money && surplus_of(es0[j], t) > 0
                    ==> #[trigger] self.market@.to_multiset().count(
                    canonical_sell(es0[j], j as EntityId, t),
                ) == 1,
            forall|j: int|
                0 <= j < i ==> #[trigger] buy_commit(self.market@, j) <= surplus_of(
                    es0[j],
                    WareType::Money,
                ),
            forall|j: int| i <= j ==> #[trigger] buy_commit(self.market@, j) == 0,
            buys_unique(self.market@),
            forall|j: int, t: WareType|
                0 <= j < i && fully_funded(es0[j]) && t != WareType::Money && unmet_of(
                    es0[j],
                    t,
                ) > 0 ==> #[trigger] self.market@.to_multiset().count(
                    canonical_buy(es0[j], j as EntityId, t),
                ) == 1,
            forall|k: int|
                0 <= k < self.market@.len() && (#[trigger] self.market@[k]).offer_type
                    == OfferType::Buy && fully_funded(es0[self.market@[k].entity_id as int])
                    ==> self.market@[k] == canonical_buy(
                    es0[self.market@[k].entity_id as int],
                    self.market@[k].entity_id,
                    self.market@[k].offer.ware_type,
                ),
        decreases n - i,
    {
        let ghost pre_entities = self.entities@;
        let ghost pre_market = self.market@;
        proof {
            assert(entity_core_eq(pre_entities[i as int], es0[i as int]));
            assert forall|t: WareType| recipes_demand(
                pre_entities[i as int].spec_recipes(),
                t,
            ) <= u32::MAX by {}
        }
        generate_entity_offers(&mut self.entities, &mut self.market, i, rng);
        proof {
            let post_market = self.market@;
            let appended = post_market.skip(pre_market.len() as int);
            assert(post_market =~= pre_market + appended);
            vstd::seq_lib::lemma_multiset_commutative(pre_market, appended);
            pre_market.to_multiset_ensures();
            appended.to_multiset_ensures();
            post_market.to_multiset_ensures();
            // new offers are valid towards es0 and belong to entity i
            assert forall|k: int|
                0 <= k < post_market.len() implies offer_ok(#[trigger] post_market[k], es0)
                && post_market[k].entity_id < i + 1 by {
                if k < pre_market.len() {
                    assert(post_market[k] == pre_market[k]);
                } else {
                    lemma_offer_ok_core(post_market[k], pre_entities, es0);
                }
            }
            // sell counts of entity i: exactly one per surplus commodity
            assert forall|t: WareType|
                t != WareType::Money && surplus_of(es0[i as int], t) > 0 implies
                post_market.to_multiset().count(canonical_sell(es0[i as int], i as EntityId, t))
                == 1 by {
                let canon = canonical_sell(es0[i as int], i as EntityId, t);
                assert(canonical_sell(pre_entities[i as int], i as EntityId, t) == canon);
                assert(surplus_of(pre_entities[i as int], t) == surplus_of(es0[i as int], t));
                assert(appended.to_multiset().count(canon) == 1);
                if pre_market.to_multiset().count(canon) > 0 {
                    assert(pre_market.contains(canon));
                    let x = choose|x: int|
                        0 <= x < pre_market.len() && pre_market[x] == canon;
                    assert(pre_market[x].entity_id < i);
                    assert(false);
                }
                assert(post_market.to_multiset().count(canon) == pre_market.to_multiset().count(
                    canon,
                ) + appended.to_multiset().count(canon));
            }
            // one buy offer per owner and commodity across the grown book
            assert forall|k1: int, k2: int|
                0 <= k1 < k2 < post_market.len() && (#[trigger] post_market[k1]).offer_type
                    == OfferType::Buy && (#[trigger] post_market[k2]).offer_type
                    == OfferType::Buy && post_market[k1].entity_id == post_market[k2].entity_id
                    && post_market[k1].offer.ware_type == post_market[k2].offer.ware_type
                implies false by {
                if k2 < pre_market.len() {
                    assert(post_market[k1] == pre_market[k1]);
                    assert(post_market[k2] == pre_market[k2]);
                } else if k1 >= pre_market.len() {
                } else {
                    assert(post_market[k1] == pre_market[k1]);
                    assert(pre_market[k1].entity_id < i);
                    assert(post_market[k2].entity_id == i);
                }
            }
            assert(buys_unique(post_market));
            // per-entity committed money: split over the old book and the
            // appended offers
            assert forall|j: int| true implies #[trigger] buy_commit(post_market, j)
                == buy_commit(pre_market, j) + buy_commit(appended, j) by {
                lemma_buy_commit_concat(pre_market, appended, j);
            }
            assert(surplus_of(pre_entities[i as int], WareType::Money) == surplus_of(
                es0[i as int],
                WareType::Money,
            ));
            // buy offers of a fully funded entity are its canonical demand
            // offers, exactly once each
            assert(fully_funded(pre_entities[i as int]) == fully_funded(es0[i as int]));
            assert forall|t: WareType|
                fully_funded(es0[i as int]) && t != WareType::Money && unmet_of(
                    es0[i as int],
                    t,
                ) > 0 implies #[trigger] post_market.to_multiset().count(
                canonical_buy(es0[i as int], i as EntityId, t),
            ) == 1 by {
                let canon = canonical_buy(es0[i as int], i as EntityId, t);
                assert(canonical_buy(pre_entities[i as int], i as EntityId, t) == canon);
                assert(unmet_of(pre_entities[i as int], t) == unmet_of(es0[i as int], t));
                assert(appended.to_multiset().count(canon) == 1);
                if pre_market.to_multiset().count(canon) > 0 {
                    assert(pre_market.contains(canon));
                    let x = choose|x: int|
                        0 <= x < pre_market.len() && pre_market[x] == canon;
                    assert(pre_market[x].entity_id < i);
                    assert(false);
                }
                assert(post_market.to_multiset().count(canon) == pre_market.to_multiset().count(
                    canon,
                ) + appended.to_multiset().count(canon));
            }
            assert forall|j2: int, t: WareType|
                0 <= j2 < i && fully_funded(es0[j2]) && t != WareType::Money && unmet_of(
                    es0[j2],
                    t,
                ) > 0 implies #[trigger] post_market.to_multiset().count(
                canonical_buy(es0[j2], j2 as EntityId, t),
            ) == 1 by {
                let canon = canonical_buy(es0[j2], j2 as EntityId, t);
                if appended.to_multiset().count(canon) > 0 {
                    assert(appended.contains(canon));
                    let x = choose|x: int| 0 <= x < appended.len() && appended[x] == canon;
                    assert(post_market[pre_market.len() + x] == canon);
                    assert(canon.entity_id == i);
                    assert(false);
                }
                assert(post_market.to_multiset().count(canon) == pre_market.to_multiset().count(
                    canon,
                ) + appended.to_multiset().count(canon));
            }
            assert forall|k2: int|
                0 <= k2 < post_market.len() && (#[trigger] post_market[k2]).offer_type
                    == OfferType::Buy && fully_funded(es0[post_market[k2].entity_id as int])
                    implies post_market[k2] == canonical_buy(
                es0[post_market[k2].entity_id as int],
                post_market[k2].entity_id,
                post_market[k2].offer.ware_type,
            ) by {
                if k2 < pre_market.len() {
                    assert(post_market[k2] == pre_market[k2]);
                } else {
                    assert(post_market[k2].entity_id == i);
                    assert(fully_funded(pre_entities[i as int]));
                    assert(post_market[k2] == canonical_buy(
                        pre_entities[i as int],
                        i as EntityId,
                        post_market[k2].offer.ware_type,
                    ));
                    assert(canonical_buy(
                        pre_entities[i as int],
                        i as EntityId,
                        post_market[k2].offer.ware_type,
                    ) == canonical_buy(
                        es0[i as int],
                        i as EntityId,
                        post_market[k2].offer.ware_type,
                    ));
                }
            }
            // sell counts of earlier entities are untouched
            assert forall|j: int, t: WareType|
                0 <= j < i && t != WareType::Money && surplus_of(es0[j], t) > 0 implies
                #[trigger] post_market.to_multiset().count(canonical_sell(es0[j], j as EntityId, t))
                == 1 by {
                let canon = canonical_sell(es0[j], j as EntityId, t);
                if appended.to_multiset().count(canon) > 0 {
                    assert(appended.contains(canon));
                    let x = choose|x: int| 0 <= x < appended.len() && appended[x] == canon;
                    assert(post_market[pre_market.len() + x] == canon);
                    assert(canon.entity_id == i);
                    assert(false);
                }
                assert(post_market.to_multiset().count(canon) == pre_market.to_multiset().count(
                    canon,
                ) + appended.to_multiset().count(canon));
            }
        }
        i = i + 1;
    }
    let ghost before_sort = self.market@;
    self.market.order_offers();
    proof {
        let after_sort = self.market@;
        let es_now = self.entities@;
        let p = |o: Offer| offer_ok(o, es0);
        assert forall|k: int| 0 <= k < before_sort.len() implies #[trigger] p(before_sort[k]) by {
            assert(offer_ok(before_sort[k], es0));
        }
        lemma_offers_prop_permutation(before_sort, after_sort, p);
        assert forall|k: int|
            0 <= k < after_sort.len() implies offer_ok(#[trigger] after_sort[k], es_now) by {
            assert(p(after_sort[k]));
            assert(offer_ok(after_sort[k], es0));
            lemma_offer_ok_core(after_sort[k], es0, es_now);
        }
        assert forall|i2: int| 0 <= i2 < es_now.len() implies #[trigger] buy_commit(
            after_sort,
            i2,
        ) <= surplus_of(es_now[i2], WareType::Money) by {
            lemma_buy_commit_permutation(before_sort, after_sort, i2);
            assert(entity_core_eq(es_now[i2], es0[i2]));
            assert(surplus_of(es0[i2], WareType::Money) == surplus_of(
                es_now[i2],
                WareType::Money,
            ));
        }
        assert forall|i2: int, t: WareType|
            0 <= i2 < es_now.len() && t != WareType::Money && surplus_of(
                es_now[i2],
                t,
            ) > 0 implies #[trigger] after_sort.to_multiset().count(
            canonical_sell(es_now[i2], i2 as EntityId, t),
        ) == 1 by {
            assert(entity_core_eq(es_now[i2], es0[i2]));
            assert(canonical_sell(es_now[i2], i2 as EntityId, t) == canonical_sell(
                es0[i2],
                i2 as EntityId,
                t,
            ));
            assert(surplus_of(es0[i2], t) == surplus_of(es_now[i2], t));
        }
        assert forall|i2: int, t: WareType|
            0 <= i2 < es_now.len() && fully_funded(es_now[i2]) && t != WareType::Money
                && unmet_of(es_now[i2], t) > 0 implies
            #[trigger] after_sort.to_multiset().count(
            canonical_buy(es_now[i2], i2 as EntityId, t),
        ) == 1 by {
            assert(entity_core_eq(es_now[i2], es0[i2]));
            assert(canonical_buy(es_now[i2], i2 as EntityId, t) == canonical_buy(
                es0[i2],
                i2 as EntityId,
                t,
            ));
            assert(fully_funded(es0[i2]) == fully_funded(es_now[i2]));
            assert(unmet_of(es0[i2], t) == unmet_of(es_now[i2], t));
        }
        lemma_permutation_buys_unique(before_sort, after_sort);
        let pb = |o: Offer|
            (o.offer_type == OfferType::Buy && 0 <= o.entity_id < es0.len() && fully_funded(
                es0[o.entity_id as int],
            )) ==> o == canonical_buy(es0[o.entity_id as int], o.entity_id, o.offer.ware_type);
        assert forall|k: int| 0 <= k < before_sort.len() implies #[trigger] pb(
            before_sort[k],
        ) by {
            if before_sort[k].offer_type == OfferType::Buy && 0 <= before_sort[k].entity_id
                < es0.len() && fully_funded(es0[before_sort[k].entity_id as int]) {
                assert(before_sort[k] == canonical_buy(
                    es0[before_sort[k].entity_id as int],
                    before_sort[k].entity_id,
                    before_sort[k].offer.ware_type,
                ));
            }
        }
        lemma_offers_prop_permutation(before_sort, after_sort, pb);
        assert forall|k: int|
            0 <= k < after_sort.len() && (#[trigger] after_sort[k]).offer_type
                == OfferType::Buy && fully_funded(
                es_now[after_sort[k].entity_id as int],
            ) implies after_sort[k] == canonical_buy(
            es_now[after_sort[k].entity_id as int],
            after_sort[k].entity_id,
            after_sort[k].offer.ware_type,
        ) by {
            assert(pb(after_sort[k]));
            let eidx = after_sort[k].entity_id as int;
            assert(offer_ok(after_sort[k], es0));
            assert(entity_core_eq(es_now[eidx], es0[eidx]));
            assert(fully_funded(es0[eidx]) == fully_funded(es_now[eidx]));
            assert(after_sort[k] == canonical_buy(
                es0[eidx],
                after_sort[k].entity_id,
                after_sort[k].offer.ware_type,
            ));
            assert(canonical_buy(es0[eidx], after_sort[k].entity_id, after_sort[k].offer.ware_type)
                == canonical_buy(
                es_now[eidx],
                after_sort[k].entity_id,
                after_sort[k].offer.ware_type,
            ));
        }
    }
}

}

} // verus!
