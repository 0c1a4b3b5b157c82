//! The clearing engine and settlement: resolves each per-commodity window
//! of the sorted book at a single uniform clearing price, rations the
//! abundant side fairly at random, and applies the resulting trades to the
//! entities' ledgers.

use vstd::prelude::*;
use crate::entity::Entity;
use crate::ware_range::{limit_wf, sell_offer_limits};
use crate::market::OfferType;
use crate::ware::{Ware, WareAmount, WareType};

verus! {

/// One settled half-trade: the named entity's offer on the given side was
/// filled for `amount` units of `ware_type` at the uniform clearing price
/// `price` (Money per unit).  A sell moves ware out and money in; a buy
/// moves money out and ware in.
#[derive(Clone, Copy, Debug, PartialEq, Eq, Structural)]
pub struct Trade {
    pub entity_id: usize,
    pub offer_type: OfferType,
    pub ware_type: WareType,
    pub amount: WareAmount,
    pub price: WareAmount,
}

/// What one trade removes from its entity's ledger, per commodity.
pub open spec fn trade_out_contrib(tr: Trade, t: WareType) -> int {
    match tr.offer_type {
        OfferType::Sell => if tr.ware_type == t {
            tr.amount as int
        } else {
            0
        },
        OfferType::Buy => if t == WareType::Money {
            tr.amount * tr.price
        } else {
            0
        },
    }
}

/// What one trade adds to its entity's ledger, per commodity.
pub open spec fn trade_in_contrib(tr: Trade, t: WareType) -> int {
    match tr.offer_type {
        OfferType::Sell => if t == WareType::Money {
            tr.amount * tr.price
        } else {
            0
        },
        OfferType::Buy => if tr.ware_type == t {
            tr.amount as int
        } else {
            0
        },
    }
}

/// Total removed from entity `e`'s ledger of commodity `t` by the trades.
pub open spec fn trades_out(ts: Seq<Trade>, e: int, t: WareType) -> int
    decreases ts.len(),
{
    if ts.len() == 0 {
        0
    } else {
        trades_out(ts.drop_last(), e, t) + if ts.last().entity_id == e {
            trade_out_contrib(ts.last(), t)
        } else {
            0
        }
    }
}

/// Total added to entity `e`'s ledger of commodity `t` by the trades.
pub open spec fn trades_in(ts: Seq<Trade>, e: int, t: WareType) -> int
    decreases ts.len(),
{
    if ts.len() == 0 {
        0
    } else {
        trades_in(ts.drop_last(), e, t) + if ts.last().entity_id == e {
            trade_in_contrib(ts.last(), t)
        } else {
            0
        }
    }
}

/// Total removed of commodity `t` across all entities.
pub open spec fn trades_out_type(ts: Seq<Trade>, t: WareType) -> int
    decreases ts.len(),
{
    if ts.len() == 0 {
        0
    } else {
        trades_out_type(ts.drop_last(), t) + trade_out_contrib(ts.last(), t)
    }
}

/// Total added of commodity `t` across all entities.
pub open spec fn trades_in_type(ts: Seq<Trade>, t: WareType) -> int
    decreases ts.len(),
{
    if ts.len() == 0 {
        0
    } else {
        trades_in_type(ts.drop_last(), t) + trade_in_contrib(ts.last(), t)
    }
}

/// Total holdings of commodity `t` across the whole entity population.
pub open spec fn total_amount(es: Seq<Entity>, t: WareType) -> int
    decreases es.len(),
{
    if es.len() == 0 {
        0
    } else {
        total_amount(es.drop_last(), t) + es.last().amount_of(t)
    }
}

pub proof fn lemma_total_amount_nonneg(es: Seq<Entity>, t: WareType)
    ensures
        total_amount(es, t) >= 0,
    decreases es.len(),
{
    if es.len() > 0 {
        lemma_total_amount_nonneg(es.drop_last(), t);
        crate::ware::lemma_seq_ware_amount_nonneg(es.last().spec_wares()@, t);
    }
}

/// One entity's holdings never exceed the population total.
pub proof fn lemma_total_amount_bound(es: Seq<Entity>, i: int, t: WareType)
    requires
        0 <= i < es.len(),
    ensures
        es[i].amount_of(t) <= total_amount(es, t),
    decreases es.len(),
{
    if i == es.len() - 1 {
        lemma_total_amount_nonneg(es.drop_last(), t);
    } else {
        lemma_total_amount_bound(es.drop_last(), i, t);
        crate::ware::lemma_seq_ware_amount_nonneg(es.last().spec_wares()@, t);
    }
}

/// Replacing one entity shifts the population total by its own change.
pub proof fn lemma_total_amount_update(es: Seq<Entity>, i: int, e: Entity, t: WareType)
    requires
        0 <= i < es.len(),
    ensures
        total_amount(es.update(i, e), t) == total_amount(es, t) - es[i].amount_of(t)
            + e.amount_of(t),
    decreases es.len(),
{
    let su = es.update(i, e);
    if i == es.len() - 1 {
        assert(su.drop_last() =~= es.drop_last());
    } else {
        assert(su.drop_last() =~= es.drop_last().update(i, e));
        lemma_total_amount_update(es.drop_last(), i, e, t);
    }
}

pub proof fn lemma_trades_out_take_step(ts: Seq<Trade>, i: int, e: int, t: WareType)
    requires
        0 <= i < ts.len(),
    ensures
        trades_out(ts.take(i + 1), e, t) == trades_out(ts.take(i), e, t) + if ts[i].entity_id
            == e {
            trade_out_contrib(ts[i], t)
        } else {
            0
        },
        trades_in(ts.take(i + 1), e, t) == trades_in(ts.take(i), e, t) + if ts[i].entity_id
            == e {
            trade_in_contrib(ts[i], t)
        } else {
            0
        },
        trades_out_type(ts.take(i + 1), t) == trades_out_type(ts.take(i), t)
            + trade_out_contrib(ts[i], t),
        trades_in_type(ts.take(i + 1), t) == trades_in_type(ts.take(i), t)
            + trade_in_contrib(ts[i], t),
{
    assert(ts.take(i + 1).drop_last() =~= ts.take(i));
    assert(ts.take(i + 1).last() == ts[i]);
}

pub proof fn lemma_trade_contrib_nonneg(tr: Trade, t: WareType)
    ensures
        trade_out_contrib(tr, t) >= 0,
        trade_in_contrib(tr, t) >= 0,
{
    vstd::arithmetic::mul::lemma_mul_nonnegative(tr.amount as int, tr.price as int);
}

pub proof fn lemma_trades_sums_nonneg(ts: Seq<Trade>, e: int, t: WareType)
    ensures
        trades_out(ts, e, t) >= 0,
        trades_in(ts, e, t) >= 0,
        trades_out_type(ts, t) >= 0,
        trades_in_type(ts, t) >= 0,
    decreases ts.len(),
{
    if ts.len() > 0 {
        lemma_trades_sums_nonneg(ts.drop_last(), e, t);
        lemma_trade_contrib_nonneg(ts.last(), t);
    }
}

/// A prefix of the trades removes and adds no more than the whole.
pub proof fn lemma_trades_take_le(ts: Seq<Trade>, i: int, e: int, t: WareType)
    requires
        0 <= i <= ts.len(),
    ensures
        trades_out(ts.take(i), e, t) <= trades_out(ts, e, t),
        trades_in(ts.take(i), e, t) <= trades_in(ts, e, t),
        trades_in_type(ts.take(i), t) <= trades_in_type(ts, t),
    decreases ts.len(),
{
    if i == ts.len() {
        assert(ts.take(i) =~= ts);
    } else {
        assert(ts.drop_last().take(i) =~= ts.take(i));
        lemma_trades_take_le(ts.drop_last(), i, e, t);
        lemma_trade_contrib_nonneg(ts.last(), t);
    }
}

/// The trade sums split over concatenation.
pub proof fn lemma_trades_concat(a: Seq<Trade>, b: Seq<Trade>, e: int, t: WareType)
    ensures
        trades_out(a + b, e, t) == trades_out(a, e, t) + trades_out(b, e, t),
        trades_in(a + b, e, t) == trades_in(a, e, t) + trades_in(b, e, t),
        trades_out_type(a + b, t) == trades_out_type(a, t) + trades_out_type(b, t),
        trades_in_type(a + b, t) == trades_in_type(a, t) + trades_in_type(b, t),
    decreases b.len(),
{
    if b.len() == 0 {
        assert(a + b =~= a);
    } else {
        assert((a + b).drop_last() =~= a + b.drop_last());
        assert((a + b).last() == b.last());
        lemma_trades_concat(a, b.drop_last(), e, t);
    }
}

/// The matched volume of a tier: the smaller of its cumulative sell and
/// in-the-money buy quantities.
pub open spec fn tier_volume(s: Seq<crate::market::Offer>, l: crate::ware_range::SellOfferLimit) -> int {
    vstd::math::min(
        sum_amounts(s, l.sell_offset as int, l.sell_limit as int),
        sum_amounts(s, l.buy_offset as int, l.buy_limit as int),
    )
}

/// The trade that settles the sell offer at book position `k` in full.
pub open spec fn full_sell_trade(s: Seq<crate::market::Offer>, k: int, t: WareType, p: WareAmount) -> Trade {
    Trade {
        entity_id: s[k].entity_id,
        offer_type: OfferType::Sell,
        ware_type: t,
        amount: s[k].offer.amount,
        price: p,
    }
}

/// The trade that settles the buy offer at book position `k` in full.
pub open spec fn full_buy_trade(s: Seq<crate::market::Offer>, k: int, t: WareType, p: WareAmount) -> Trade {
    Trade {
        entity_id: s[k].entity_id,
        offer_type: OfferType::Buy,
        ware_type: t,
        amount: s[k].offer.amount,
        price: p,
    }
}

/// When the sell side is the scarce one, every sell offer of the tier is
/// settled in full at the tier price.
pub open spec fn sell_side_filled(
    s: Seq<crate::market::Offer>,
    ts: Seq<Trade>,
    w: crate::ware_range::WareOfferRange,
    l: crate::ware_range::SellOfferLimit,
) -> bool {
    sum_amounts(s, l.sell_offset as int, l.sell_limit as int) <= sum_amounts(
        s,
        l.buy_offset as int,
        l.buy_limit as int,
    ) ==> forall|k: int|
        l.sell_offset <= k < l.sell_limit ==> ts.contains(
            #[trigger] full_sell_trade(s, k, w.ware_type, l.price),
        )
}

/// When the buy side is the scarce one, every in-the-money buy offer of the
/// tier is settled in full at the tier price.
pub open spec fn buy_side_filled(
    s: Seq<crate::market::Offer>,
    ts: Seq<Trade>,
    w: crate::ware_range::WareOfferRange,
    l: crate::ware_range::SellOfferLimit,
) -> bool {
    sum_amounts(s, l.buy_offset as int, l.buy_limit as int) <= sum_amounts(
        s,
        l.sell_offset as int,
        l.sell_limit as int,
    ) ==> forall|k: int|
        l.buy_offset <= k < l.buy_limit ==> ts.contains(
            #[trigger] full_buy_trade(s, k, w.ware_type, l.price),
        )
}

/// Every settled sell of the window commodity stems from a sell offer of
/// the tier, never exceeding that offer.
pub open spec fn sell_provenance(
    s: Seq<crate::market::Offer>,
    ts: Seq<Trade>,
    w: crate::ware_range::WareOfferRange,
    l: crate::ware_range::SellOfferLimit,
) -> bool {
    forall|j: int|
        0 <= j < ts.len() && (#[trigger] ts[j]).ware_type == w.ware_type && ts[j].offer_type
            == OfferType::Sell ==> exists|k: int|
            l.sell_offset <= k < l.sell_limit && (#[trigger] s[k]).entity_id == ts[j].entity_id
                && ts[j].amount <= s[k].offer.amount
}

/// Every settled buy of the window commodity stems from an in-the-money buy
/// offer of the tier, never exceeding that offer.
pub open spec fn buy_provenance(
    s: Seq<crate::market::Offer>,
    ts: Seq<Trade>,
    w: crate::ware_range::WareOfferRange,
    l: crate::ware_range::SellOfferLimit,
) -> bool {
    forall|j: int|
        0 <= j < ts.len() && (#[trigger] ts[j]).ware_type == w.ware_type && ts[j].offer_type
            == OfferType::Buy ==> exists|k: int|
            l.buy_offset <= k < l.buy_limit && (#[trigger] s[k]).entity_id == ts[j].entity_id
                && ts[j].amount <= s[k].offer.amount
}

/// What one resolved window settles, as a draw-independent function of the
/// book: either some well-formed tier has positive matched volume, and then
/// exactly that volume of the window commodity changes hands, the scarce
/// side is filled offer by offer in full, and every settled trade of the
/// commodity stems from a tier offer; or no tier matches anything, and none
/// of the commodity is settled.
pub open spec fn window_trades_outcome(
    s: Seq<crate::market::Offer>,
    ts: Seq<Trade>,
    w: crate::ware_range::WareOfferRange,
) -> bool {
    ||| (exists|l: crate::ware_range::SellOfferLimit|
        #[trigger] limit_wf(l, s, w) && tier_volume(s, l) > 0 && trades_out_type(
            ts,
            w.ware_type,
        ) == tier_volume(s, l) && trades_in_type(ts, w.ware_type) == tier_volume(s, l)
            && sell_side_filled(s, ts, w, l) && buy_side_filled(s, ts, w, l) && sell_provenance(
            s,
            ts,
            w,
            l,
        ) && buy_provenance(s, ts, w, l))
    ||| ((forall|l: crate::ware_range::SellOfferLimit|
        #[trigger] limit_wf(l, s, w) ==> tier_volume(s, l) <= 0) && trades_out_type(
        ts,
        w.ware_type,
    ) == 0 && trades_in_type(ts, w.ware_type) == 0)
}

/// `w` is the (unique) per-commodity window of its commodity in the sorted
/// book: a maximal buy run followed by a maximal sell run, preceded by a
/// different commodity.
pub open spec fn window_of(s: Seq<crate::market::Offer>, w: crate::ware_range::WareOfferRange) -> bool {
    &&& crate::ware_range::range_wf(w, s)
    &&& w.buy_start < w.sell_end
    &&& (w.buy_start == 0 || s[w.buy_start - 1].offer.ware_type != w.ware_type)
    &&& (w.buy_end == s.len() || !(s[w.buy_end as int].offer.ware_type == w.ware_type
        && s[w.buy_end as int].offer_type == OfferType::Buy))
    &&& (w.sell_end == s.len() || !(s[w.sell_end as int].offer.ware_type == w.ware_type
        && s[w.sell_end as int].offer_type == OfferType::Sell))
}

/// The book holds at least one offer of commodity `t`.
pub open spec fn book_has_type(s: Seq<crate::market::Offer>, t: WareType) -> bool {
    exists|k: int| 0 <= k < s.len() && (#[trigger] s[k]).offer.ware_type == t
}

/// The first `n` book positions hold at least one offer of commodity `t`.
pub open spec fn book_prefix_has_type(s: Seq<crate::market::Offer>, n: int, t: WareType) -> bool {
    exists|k: int| 0 <= k < n && (#[trigger] s[k]).offer.ware_type == t
}

/// Trades of other commodities move none of commodity `t` (Money aside).
proof fn lemma_trades_type_zero(ts: Seq<Trade>, t: WareType)
    requires
        t != WareType::Money,
        forall|j: int| 0 <= j < ts.len() ==> (#[trigger] ts[j]).ware_type != t,
    ensures
        trades_out_type(ts, t) == 0,
        trades_in_type(ts, t) == 0,
    decreases ts.len(),
{
    if ts.len() > 0 {
        assert(ts[ts.len() - 1] == ts.last());
        lemma_trades_type_zero(ts.drop_last(), t);
    }
}

/// A window's settled outcome is unaffected by trades of other commodities
/// before or after its own.
proof fn lemma_window_outcome_frame(
    s: Seq<crate::market::Offer>,
    pre: Seq<Trade>,
    mid: Seq<Trade>,
    post: Seq<Trade>,
    w: crate::ware_range::WareOfferRange,
)
    requires
        w.ware_type != WareType::Money,
        window_trades_outcome(s, mid, w),
        forall|j: int| 0 <= j < pre.len() ==> (#[trigger] pre[j]).ware_type != w.ware_type,
        forall|j: int| 0 <= j < post.len() ==> (#[trigger] post[j]).ware_type != w.ware_type,
    ensures
        window_trades_outcome(s, pre + mid + post, w),
{
    let all = pre + mid + post;
    lemma_trades_type_zero(pre, w.ware_type);
    lemma_trades_type_zero(post, w.ware_type);
    lemma_trades_concat(pre, mid, 0, w.ware_type);
    lemma_trades_concat(pre + mid, post, 0, w.ware_type);
    assert(trades_out_type(all, w.ware_type) == trades_out_type(mid, w.ware_type));
    assert(trades_in_type(all, w.ware_type) == trades_in_type(mid, w.ware_type));
    assert forall|j: int|
        0 <= j < all.len() && (#[trigger] all[j]).ware_type == w.ware_type implies pre.len() <= j
        < pre.len() + mid.len() && all[j] == mid[j - pre.len()] by {
        if j < pre.len() {
            assert(all[j] == pre[j]);
        } else if j < pre.len() + mid.len() {
            assert(all[j] == mid[j - pre.len()]);
        } else {
            assert(all[j] == post[j - pre.len() - mid.len()]);
        }
    }
    assert forall|v: Trade| mid.contains(v) implies all.contains(v) by {
        let j = choose|j: int| 0 <= j < mid.len() && mid[j] == v;
        assert(all[pre.len() + j] == v);
    }
    if exists|l: crate::ware_range::SellOfferLimit|
        #[trigger] limit_wf(l, s, w) && tier_volume(s, l) > 0 && trades_out_type(
            mid,
            w.ware_type,
        ) == tier_volume(s, l) && trades_in_type(mid, w.ware_type) == tier_volume(s, l)
            && sell_side_filled(s, mid, w, l) && buy_side_filled(s, mid, w, l) && sell_provenance(
            s,
            mid,
            w,
            l,
        ) && buy_provenance(s, mid, w, l) {
        let l = choose|l: crate::ware_range::SellOfferLimit|
            #[trigger] limit_wf(l, s, w) && tier_volume(s, l) > 0 && trades_out_type(
                mid,
                w.ware_type,
            ) == tier_volume(s, l) && trades_in_type(mid, w.ware_type) == tier_volume(s, l)
                && sell_side_filled(s, mid, w, l) && buy_side_filled(s, mid, w, l)
                && sell_provenance(s, mid, w, l) && buy_provenance(s, mid, w, l);
        assert(sell_side_filled(s, all, w, l));
        assert(buy_side_filled(s, all, w, l));
        assert(sell_provenance(s, all, w, l));
        assert(buy_provenance(s, all, w, l));
        assert(window_trades_outcome(s, all, w));
    } else {
        assert(window_trades_outcome(s, all, w));
    }
}

pub proof fn lemma_u32_mul_fits_u64(a: int, b: int)
    requires
        0 <= a <= u32::MAX,
        0 <= b <= u32::MAX,
    ensures
        0 <= a * b <= 0xffff_fffe_0000_0001,
{
    assert(0 <= a * b <= 0xffff_fffe_0000_0001) by (nonlinear_arith)
        requires
            0 <= a <= 0xffff_ffff,
            0 <= b <= 0xffff_ffff,
    ;
}

/// Which commodity a trade removes from its entity: the traded ware for a
/// sell, Money for a buy.
pub open spec fn trade_out_type(tr: Trade) -> WareType {
    match tr.offer_type {
        OfferType::Sell => tr.ware_type,
        OfferType::Buy => WareType::Money,
    }
}

/// A positive removal total names some trade of that entity causing it.
proof fn lemma_trades_out_pos_exists(ts: Seq<Trade>, e: int, t: WareType)
    requires
        trades_out(ts, e, t) > 0,
    ensures
        exists|j: int|
            0 <= j < ts.len() && (#[trigger] ts[j]).entity_id == e && trade_out_contrib(ts[j], t)
                > 0,
    decreases ts.len(),
{
    if ts.len() > 0 {
        if ts.last().entity_id == e && trade_out_contrib(ts.last(), t) > 0 {
            assert(ts[ts.len() - 1] == ts.last());
        } else {
            lemma_trade_contrib_nonneg(ts.last(), t);
            lemma_trades_out_pos_exists(ts.drop_last(), e, t);
            let j = choose|j: int|
                0 <= j < ts.drop_last().len() && (#[trigger] ts.drop_last()[j]).entity_id == e
                    && trade_out_contrib(ts.drop_last()[j], t) > 0;
            assert(ts[j] == ts.drop_last()[j]);
        }
    }
}

/// Entities agree on everything except their ware ledgers.
pub open spec fn entity_nonwares_eq(a: Entity, b: Entity) -> bool {
    &&& a.spec_name() == b.spec_name()
    &&& a.spec_buy_prices() == b.spec_buy_prices()
    &&& a.spec_sell_prices() == b.spec_sell_prices()
    &&& a.spec_recipes() == b.spec_recipes()
    &&& a.spec_offer_ids() == b.spec_offer_ids()
}

/// Whether entity `e` holds enough of commodity `t` to give up what all the
/// trades remove from it.
fn covers(entities: &Vec<Entity>, trades: &Vec<Trade>, e: usize, t: WareType) -> (r: bool)
    requires
        e < entities@.len(),
        entities@[e as int].wf(),
    ensures
        r == (entities@[e as int].amount_of(t) >= trades_out(trades@, e as int, t)),
{
    let have = entities[e].wares().ware_amount(t);
    let mut acc: u64 = 0;
    let mut j: usize = 0;
    while j < trades.len()
        invariant
            e < entities@.len(),
            entities@[e as int].wf(),
            j <= trades@.len(),
            have == entities@[e as int].amount_of(t),
            acc == trades_out(trades@.take(j as int), e as int, t),
            acc <= have,
        decreases trades@.len() - j,
    {
        let tr = trades[j];
        proof {
            lemma_trades_out_take_step(trades@, j as int, e as int, t);
            lemma_trade_contrib_nonneg(tr, t);
        }
        if tr.entity_id == e {
            proof {
                lemma_u32_mul_fits_u64(tr.amount as int, tr.price as int);
            }
            let c: u64 = match tr.offer_type {
                OfferType::Sell => if tr.ware_type == t {
                    tr.amount as u64
                } else {
                    0
                },
                OfferType::Buy => if t == WareType::Money {
                    (tr.amount as u64) * (tr.price as u64)
                } else {
                    0
                },
            };
            proof {
                assert(c == trade_out_contrib(tr, t));
            }
            if acc + c > have as u64 {
                proof {
                    lemma_trades_take_le(trades@, j + 1, e as int, t);
                }
                return false;
            }
            acc = acc + c;
        } else {
        }
        j = j + 1;
    }
    proof {
        assert(trades@.take(trades@.len() as int) =~= trades@);
    }
    true
}

/// Applies the trades to the ledgers atomically: a pre-check pass first
/// establishes that every entity can cover all it must give up; only then
/// are the transfers applied, removals before additions, so settlement
/// either fully applies or does not touch any ledger.  Success comes
/// exactly when every entity covers its removals.
pub fn settle_trades(entities: &mut Vec<Entity>, trades: &Vec<Trade>) -> (r: Result<(), ()>)
    requires
        forall|i: int| 0 <= i < old(entities)@.len() ==> (#[trigger] old(entities)@[i]).wf(),
        forall|t: WareType| #[trigger] total_amount(old(entities)@, t) <= u32::MAX,
        forall|j: int|
            0 <= j < trades@.len() ==> (#[trigger] trades@[j]).entity_id < old(entities)@.len(),
        forall|t: WareType| #[trigger] trades_in_type(trades@, t) <= trades_out_type(trades@, t),
    ensures
        final(entities)@.len() == old(entities)@.len(),
        forall|i: int|
            0 <= i < old(entities)@.len() ==> (#[trigger] final(entities)@[i]).wf()
                && entity_nonwares_eq(final(entities)@[i], old(entities)@[i]),
        r.is_err() ==> *final(entities) == *old(entities),
        r.is_ok() <==> (forall|e: int, t: WareType|
            0 <= e < old(entities)@.len() ==> old(entities)@[e].amount_of(t)
                >= #[trigger] trades_out(trades@, e, t)),
        r.is_ok() ==> forall|e: int, t: WareType|
            0 <= e < old(entities)@.len() ==> #[trigger] final(entities)@[e].amount_of(t) == old(
                entities,
            )@[e].amount_of(t) - trades_out(trades@, e, t) + trades_in(trades@, e, t),
        r.is_ok() ==> forall|t: WareType| #[trigger] total_amount(final(entities)@, t)
            == total_amount(old(entities)@, t) - trades_out_type(trades@, t) + trades_in_type(
            trades@,
            t,
        ),
{
    let ghost es0 = entities@;
    let ghost ts = trades@;
    let n = entities.len();
    // pre-check pass
    let mut j: usize = 0;
    while j < trades.len()
        invariant
            n == es0.len(),
            entities@ == es0,
            ts == trades@,
            forall|i: int| 0 <= i < es0.len() ==> (#[trigger] es0[i]).wf(),
            forall|jj: int| 0 <= jj < ts.len() ==> (#[trigger] ts[jj]).entity_id < es0.len(),
            j <= ts.len(),
            forall|jj: int|
                0 <= jj < j ==> es0[(#[trigger] ts[jj]).entity_id as int].amount_of(
                    trade_out_type(ts[jj]),
                ) >= trades_out(ts, ts[jj].entity_id as int, trade_out_type(ts[jj])),
        decreases ts.len() - j,
    {
        let tr = trades[j];
        let ty = match tr.offer_type {
            OfferType::Sell => tr.ware_type,
            OfferType::Buy => WareType::Money,
        };
        if !covers(entities, trades, tr.entity_id, ty) {
            proof {
                assert(es0[tr.entity_id as int].amount_of(trade_out_type(tr)) < trades_out(
                    ts,
                    tr.entity_id as int,
                    trade_out_type(tr),
                ));
            }
            return Err(());
        }
        j = j + 1;
    }
    proof {
        assert forall|e: int, t: WareType|
            0 <= e < es0.len() implies es0[e].amount_of(t) >= #[trigger] trades_out(
            ts,
            e,
            t,
        ) by {
            lemma_trades_sums_nonneg(ts, e, t);
            if trades_out(ts, e, t) > 0 {
                lemma_trades_out_pos_exists(ts, e, t);
                let jj = choose|jj: int|
                    0 <= jj < ts.len() && (#[trigger] ts[jj]).entity_id == e
                        && trade_out_contrib(ts[jj], t) > 0;
                assert(trade_out_type(ts[jj]) == t);
            } else {
                crate::ware::lemma_seq_ware_amount_nonneg(es0[e].spec_wares()@, t);
            }
        }
    }
    // removal pass
    let mut j: usize = 0;
    while j < trades.len()
        invariant
            n == es0.len(),
            entities@.len() == es0.len(),
            ts == trades@,
            forall|i: int|
                0 <= i < es0.len() ==> (#[trigger] entities@[i]).wf() && entity_nonwares_eq(
                    entities@[i],
                    es0[i],
                ),
            forall|i: int| 0 <= i < es0.len() ==> (#[trigger] es0[i]).wf(),
            forall|jj: int| 0 <= jj < ts.len() ==> (#[trigger] ts[jj]).entity_id < es0.len(),
            j <= ts.len(),
            forall|e: int, t: WareType|
                0 <= e < es0.len() ==> es0[e].amount_of(t) >= #[trigger] trades_out(ts, e, t),
            forall|t: WareType| #[trigger] total_amount(es0, t) <= u32::MAX,
            forall|e: int, t: WareType|
                0 <= e < es0.len() ==> #[trigger] entities@[e].amount_of(t) == es0[e].amount_of(
                    t,
                ) - trades_out(ts.take(j as int), e, t),
            forall|t: WareType| #[trigger] total_amount(entities@, t) == total_amount(es0, t)
                - trades_out_type(ts.take(j as int), t),
        decreases ts.len() - j,
    {
        let tr = trades[j];
        let e = tr.entity_id;
        proof {
            lemma_trades_out_take_step(ts, j as int, e as int, trade_out_type(tr));
            lemma_trades_take_le(ts, j + 1, e as int, trade_out_type(tr));
            lemma_trades_sums_nonneg(ts.take(j as int), e as int, trade_out_type(tr));
        }
        let w: Ware = match tr.offer_type {
            OfferType::Sell => Ware::new(tr.ware_type, tr.amount),
            OfferType::Buy => {
                proof {
                    lemma_u32_mul_fits_u64(tr.amount as int, tr.price as int);
                }
                let c64: u64 = (tr.amount as u64) * (tr.price as u64);
                proof {
                    assert(c64 == trade_out_contrib(tr, WareType::Money));
                    assert(c64 <= es0[e as int].amount_of(WareType::Money));
                    lemma_total_amount_bound(es0, e as int, WareType::Money);
                    assert(c64 <= u32::MAX);
                }
                Ware::new(WareType::Money, c64 as u32)
            }
        };
        proof {
            assert(w.amount == trade_out_contrib(tr, trade_out_type(tr)));
            assert(w.ware_type == trade_out_type(tr));
            assert(entities@[e as int].amount_of(w.ware_type) >= w.amount);
        }
        let ghost pre = entities@;
        let res = entities[e].remove_ware(w);
        match res {
            Ok(_) => {}
            Err(_) => {
                proof {
                    assert(false);
                }
                return Err(());
            }
        }
        proof {
            assert(entities@ == pre.update(e as int, entities@[e as int]));
            assert forall|e2: int, t: WareType|
                0 <= e2 < es0.len() implies #[trigger] entities@[e2].amount_of(t) == es0[
                e2].amount_of(t) - trades_out(ts.take(j + 1), e2, t) by {
                lemma_trades_out_take_step(ts, j as int, e2, t);
            }
            assert forall|t: WareType| #[trigger] total_amount(entities@, t) == total_amount(
                es0,
                t,
            ) - trades_out_type(ts.take(j + 1), t) by {
                lemma_total_amount_update(pre, e as int, entities@[e as int], t);
                lemma_trades_out_take_step(ts, j as int, e as int, t);
            }
        }
        j = j + 1;
    }
    let ghost mid = entities@;
    proof {
        assert(ts.take(ts.len() as int) =~= ts);
        assert forall|t: WareType| trades_out_type(ts, t) <= total_amount(es0, t) by {
            lemma_total_amount_nonneg(mid, t);
        }
    }
    // addition pass
    let mut j: usize = 0;
    while j < trades.len()
        invariant
            n == es0.len(),
            entities@.len() == es0.len(),
            ts == trades@,
            forall|i: int|
                0 <= i < es0.len() ==> (#[trigger] entities@[i]).wf() && entity_nonwares_eq(
                    entities@[i],
                    es0[i],
                ),
            forall|jj: int| 0 <= jj < ts.len() ==> (#[trigger] ts[jj]).entity_id < es0.len(),
            j <= ts.len(),
            forall|t: WareType| #[trigger] trades_in_type(ts, t) <= trades_out_type(ts, t),
            forall|t: WareType| #[trigger] trades_out_type(ts, t) <= total_amount(es0, t),
            forall|t: WareType| #[trigger] total_amount(es0, t) <= u32::MAX,
            forall|e: int, t: WareType|
                0 <= e < es0.len() ==> #[trigger] entities@[e].amount_of(t) == es0[e].amount_of(
                    t,
                ) - trades_out(ts, e, t) + trades_in(ts.take(j as int), e, t),
            forall|t: WareType| #[trigger] total_amount(entities@, t) == total_amount(es0, t)
                - trades_out_type(ts, t) + trades_in_type(ts.take(j as int), t),
        decreases ts.len() - j,
    {
        let tr = trades[j];
        let e = tr.entity_id;
        proof {
            lemma_trades_out_take_step(ts, j as int, e as int, trade_out_type(tr));
            lemma_trades_take_le(ts, j + 1, e as int, WareType::Money);
            lemma_trades_take_le(ts, j + 1, e as int, tr.ware_type);
        }
        let w: Ware = match tr.offer_type {
            OfferType::Buy => Ware::new(tr.ware_type, tr.amount),
            OfferType::Sell => {
                proof {
                    lemma_u32_mul_fits_u64(tr.amount as int, tr.price as int);
                }
                let c64: u64 = (tr.amount as u64) * (tr.price as u64);
                proof {
                    assert(c64 == trade_in_contrib(tr, WareType::Money));
                    lemma_trades_out_take_step(ts, j as int, e as int, WareType::Money);
                    assert(trades_in_type(ts.take(j + 1), WareType::Money) <= trades_in_type(
                        ts,
                        WareType::Money,
                    )) by {
                        lemma_trades_take_le(ts, j + 1, e as int, WareType::Money);
                    }
                    lemma_trades_sums_nonneg(ts.take(j as int), e as int, WareType::Money);
                    assert(c64 <= trades_in_type(ts.take(j + 1), WareType::Money));
                    assert(c64 <= u32::MAX);
                }
                Ware::new(WareType::Money, c64 as u32)
            }
        };
        proof {
            assert(w.amount == trade_in_contrib(tr, w.ware_type));
            lemma_total_amount_bound(entities@, e as int, w.ware_type);
            assert(trades_in_type(ts.take(j + 1), w.ware_type) <= trades_in_type(
                ts,
                w.ware_type,
            )) by {
                lemma_trades_take_le(ts, j + 1, e as int, w.ware_type);
            }
            lemma_trades_out_take_step(ts, j as int, e as int, w.ware_type);
            assert(entities@[e as int].amount_of(w.ware_type) + w.amount <= u32::MAX);
        }
        let ghost pre = entities@;
        entities[e].add_ware(w);
        proof {
            assert(entities@ == pre.update(e as int, entities@[e as int]));
            assert forall|e2: int, t: WareType|
                0 <= e2 < es0.len() implies #[trigger] entities@[e2].amount_of(t) == es0[
                e2].amount_of(t) - trades_out(ts, e2, t) + trades_in(ts.take(j + 1), e2, t) by {
                lemma_trades_out_take_step(ts, j as int, e2, t);
            }
            assert forall|t: WareType| #[trigger] total_amount(entities@, t) == total_amount(
                es0,
                t,
            ) - trades_out_type(ts, t) + trades_in_type(ts.take(j + 1), t) by {
                lemma_total_amount_update(pre, e as int, entities@[e as int], t);
                lemma_trades_out_take_step(ts, j as int, e as int, t);
            }
        }
        j = j + 1;
    }
    proof {
        assert(ts.take(ts.len() as int) =~= ts);
    }
    Ok(())
}

/// Sum of a sequence of quantities.
pub open spec fn sum_u32(s: Seq<u32>) -> int
    decreases s.len(),
{
    if s.len() == 0 {
        0
    } else {
        sum_u32(s.drop_last()) + s.last()
    }
}

pub proof fn lemma_sum_u32_nonneg(s: Seq<u32>)
    ensures
        sum_u32(s) >= 0,
    decreases s.len(),
{
    if s.len() > 0 {
        lemma_sum_u32_nonneg(s.drop_last());
    }
}

pub proof fn lemma_sum_u32_update(s: Seq<u32>, i: int, v: u32)
    requires
        0 <= i < s.len(),
    ensures
        sum_u32(s.update(i, v)) == sum_u32(s) - s[i] + v,
    decreases s.len(),
{
    let su = s.update(i, v);
    if i == s.len() - 1 {
        assert(su.drop_last() =~= s.drop_last());
    } else {
        assert(su.drop_last() =~= s.drop_last().update(i, v));
        lemma_sum_u32_update(s.drop_last(), i, v);
    }
}

pub proof fn lemma_sum_u32_take_step(s: Seq<u32>, i: int)
    requires
        0 <= i < s.len(),
    ensures
        sum_u32(s.take(i + 1)) == sum_u32(s.take(i)) + s[i],
{
    assert(s.take(i + 1).drop_last() =~= s.take(i));
    assert(s.take(i + 1).last() == s[i]);
}

/// No sequence of quantities can sum past one full quantity per element.
pub proof fn lemma_sum_u32_bound(s: Seq<u32>)
    ensures
        sum_u32(s) <= 0xffff_ffff * s.len(),
    decreases s.len(),
{
    if s.len() > 0 {
        lemma_sum_u32_bound(s.drop_last());
        vstd::arithmetic::mul::lemma_mul_is_distributive_add(
            0xffff_ffff,
            s.len() - 1,
            1,
        );
        assert(0xffff_ffff * (s.len() as int) == 0xffff_ffff * ((s.len() - 1) + 1));
    }
}

/// Sum of the offered quantities over the book index range `lo..hi`.
pub open spec fn sum_amounts(s: Seq<crate::market::Offer>, lo: int, hi: int) -> int
    decreases hi - lo,
{
    if lo >= hi {
        0
    } else {
        sum_amounts(s, lo, hi - 1) + s[hi - 1].offer.amount
    }
}

pub proof fn lemma_sum_amounts_bound(s: Seq<crate::market::Offer>, lo: int, hi: int)
    requires
        lo <= hi,
    ensures
        sum_amounts(s, lo, hi) <= 0xffff_ffff * (hi - lo),
    decreases hi - lo,
{
    if lo < hi {
        lemma_sum_amounts_bound(s, lo, hi - 1);
        vstd::arithmetic::mul::lemma_mul_is_distributive_add(0xffff_ffff, hi - 1 - lo, 1);
        assert(0xffff_ffff * (hi - lo) == 0xffff_ffff * ((hi - 1 - lo) + 1));
    }
}

fn sum_amounts_exec(offers: &Vec<crate::market::Offer>, lo: usize, hi: usize) -> (r: u64)
    requires
        lo <= hi <= offers@.len(),
        offers@.len() <= u32::MAX,
    ensures
        r == sum_amounts(offers@, lo as int, hi as int),
{
    let mut acc: u64 = 0;
    let mut i: usize = lo;
    while i < hi
        invariant
            lo <= i <= hi <= offers@.len() <= u32::MAX,
            acc == sum_amounts(offers@, lo as int, i as int),
        decreases hi - i,
    {
        let a = offers[i].offer.amount;
        proof {
            lemma_sum_amounts_bound(offers@, lo as int, i as int);
            vstd::arithmetic::mul::lemma_mul_inequality(i - lo, 0xffff_ffff, 0xffff_ffff);
        }
        acc = acc + a as u64;
        i = i + 1;
    }
    acc
}

/// The quantities of the offers in `lo..hi`, in order.
fn collect_amounts(offers: &Vec<crate::market::Offer>, lo: usize, hi: usize) -> (r: Vec<u32>)
    requires
        lo <= hi <= offers@.len(),
    ensures
        r@.len() == hi - lo,
        forall|i: int| 0 <= i < r@.len() ==> r@[i] == offers@[lo + i].offer.amount,
        sum_u32(r@) == sum_amounts(offers@, lo as int, hi as int),
{
    let mut r: Vec<u32> = Vec::new();
    let mut i: usize = lo;
    while i < hi
        invariant
            lo <= i <= hi <= offers@.len(),
            r@.len() == i - lo,
            forall|j: int| 0 <= j < r@.len() ==> r@[j] == offers@[lo + j].offer.amount,
            sum_u32(r@) == sum_amounts(offers@, lo as int, i as int),
        decreases hi - i,
    {
        let ghost r0 = r@;
        r.push(offers[i].offer.amount);
        proof {
            assert(r@.drop_last() =~= r0);
        }
        i = i + 1;
    }
    r
}

/// Fair rationing: distributes exactly `total` units across the requested
/// quantities, never exceeding any request.  Each unit is drawn uniformly
/// at random from the still-unallocated requested units, so every request's
/// expected fill is proportional to its size (sampling without
/// replacement).
pub fn ration(amounts: &Vec<u32>, total: u64, rng: &mut crate::rng::TradeRng) -> (r: Vec<u32>)
    requires
        total <= sum_u32(amounts@),
        amounts@.len() <= u32::MAX,
    ensures
        r@.len() == amounts@.len(),
        forall|i: int| 0 <= i < r@.len() ==> r@[i] <= amounts@[i],
        sum_u32(r@) == total,
{
    let n = amounts.len();
    let mut fills: Vec<u32> = Vec::new();
    let mut remaining: Vec<u32> = Vec::new();
    let mut i: usize = 0;
    while i < n
        invariant
            i <= n == amounts@.len(),
            fills@.len() == i,
            remaining@.len() == i,
            forall|j: int| 0 <= j < i ==> fills@[j] == 0,
            forall|j: int| 0 <= j < i ==> remaining@[j] == amounts@[j],
            sum_u32(fills@) == 0,
            sum_u32(remaining@) == sum_u32(amounts@.take(i as int)),
        decreases n - i,
    {
        let ghost f0 = fills@;
        let ghost r0 = remaining@;
        fills.push(0);
        remaining.push(amounts[i]);
        proof {
            assert(fills@.drop_last() =~= f0);
            assert(remaining@.drop_last() =~= r0);
            lemma_sum_u32_take_step(amounts@, i as int);
        }
        i = i + 1;
    }
    proof {
        assert(amounts@.take(n as int) =~= amounts@);
    }
    let ghost total_all = sum_u32(amounts@);
    proof {
        lemma_sum_u32_nonneg(amounts@);
        lemma_sum_u32_bound(amounts@);
        vstd::arithmetic::mul::lemma_mul_inequality(
            amounts@.len() as int,
            0xffff_ffff,
            0xffff_ffff,
        );
    }
    let mut rem_total: u64 = {
        let mut acc: u64 = 0;
        let mut j: usize = 0;
        while j < n
            invariant
                j <= n == amounts@.len() <= u32::MAX,
                acc == sum_u32(amounts@.take(j as int)),
            decreases n - j,
        {
            proof {
                lemma_sum_u32_take_step(amounts@, j as int);
                assert(amounts@.take(j as int) =~= amounts@.take(j as int));
                lemma_sum_u32_bound(amounts@.take(j as int));
                vstd::arithmetic::mul::lemma_mul_inequality(j as int, 0xffff_ffff, 0xffff_ffff);
            }
            acc = acc + amounts[j] as u64;
            j = j + 1;
        }
        proof {
            assert(amounts@.take(n as int) =~= amounts@);
        }
        acc
    };
    let mut drawn: u64 = 0;
    while drawn < total
        invariant
            fills@.len() == n == amounts@.len(),
            remaining@.len() == n,
            forall|j: int| 0 <= j < n ==> fills@[j] + remaining@[j] == amounts@[j],
            sum_u32(fills@) == drawn,
            sum_u32(remaining@) == rem_total,
            rem_total == total_all - drawn,
            total_all == sum_u32(amounts@),
            total_all <= 0xffff_fffe_0000_0001,
            drawn <= total <= total_all,
        decreases total - drawn,
    {
        let pick = rng.below_u64(rem_total);
        let mut j: usize = 0;
        let mut acc: u64 = 0;
        while j < n && acc + remaining[j] as u64 <= pick
            invariant
                j <= n == remaining@.len(),
                acc == sum_u32(remaining@.take(j as int)),
                acc <= pick,
                pick < rem_total,
                rem_total <= 0xffff_fffe_0000_0001,
                rem_total == sum_u32(remaining@),
            decreases n - j,
        {
            proof {
                lemma_sum_u32_take_step(remaining@, j as int);
            }
            acc = acc + remaining[j] as u64;
            j = j + 1;
        }
        if j == n {
            proof {
                assert(remaining@.take(n as int) =~= remaining@);
                assert(false);
            }
        }
        proof {
            lemma_sum_u32_take_step(remaining@, j as int);
            lemma_sum_u32_nonneg(remaining@.take(j as int));
            assert(remaining@[j as int] > 0);
            assert(fills@[j as int] < amounts@[j as int]);
        }
        let ghost f0 = fills@;
        let ghost r0 = remaining@;
        let fj = fills[j];
        let rj = remaining[j];
        fills[j] = fj + 1;
        remaining[j] = rj - 1;
        proof {
            lemma_sum_u32_update(f0, j as int, (fj + 1) as u32);
            lemma_sum_u32_update(r0, j as int, (rj - 1) as u32);
        }
        drawn = drawn + 1;
        rem_total = rem_total - 1;
    }
    fills
}

/// The quantity offer `o` contributes to entity `e`'s offered stock.
pub open spec fn sell_amount_contrib(o: crate::market::Offer, e: int) -> int {
    if o.entity_id == e {
        o.offer.amount as int
    } else {
        0
    }
}

/// Total quantity entity `e` offers across positions `lo..hi` of the book.
pub open spec fn entity_sell_amount(s: Seq<crate::market::Offer>, lo: int, hi: int, e: int) -> int
    decreases hi - lo,
{
    if lo >= hi {
        0
    } else {
        entity_sell_amount(s, lo, hi - 1, e) + sell_amount_contrib(s[hi - 1], e)
    }
}

pub proof fn lemma_entity_sell_amount_nonneg(
    s: Seq<crate::market::Offer>,
    lo: int,
    hi: int,
    e: int,
)
    ensures
        entity_sell_amount(s, lo, hi, e) >= 0,
    decreases hi - lo,
{
    if lo < hi {
        lemma_entity_sell_amount_nonneg(s, lo, hi - 1, e);
    }
}

pub proof fn lemma_entity_sell_amount_monotone(
    s: Seq<crate::market::Offer>,
    lo: int,
    hi1: int,
    hi2: int,
    e: int,
)
    requires
        hi1 <= hi2,
    ensures
        entity_sell_amount(s, lo, hi1, e) <= entity_sell_amount(s, lo, hi2, e),
    decreases hi2 - hi1,
{
    if hi1 < hi2 {
        lemma_entity_sell_amount_monotone(s, lo, hi1, hi2 - 1, e);
    }
}

pub proof fn lemma_buy_commit_nonneg(s: Seq<crate::market::Offer>, e: int)
    ensures
        crate::trading::buy_commit(s, e) >= 0,
    decreases s.len(),
{
    if s.len() > 0 {
        lemma_buy_commit_nonneg(s.drop_last(), e);
        vstd::arithmetic::mul::lemma_mul_nonnegative(
            s.last().offer.amount as int,
            s.last().price_per_ware.amount as int,
        );
    }
}

/// No trade of commodity `tt` at any side moves a third commodity.
proof fn lemma_trades_out_in_zero(ts: Seq<Trade>, e: int, t: WareType, tt: WareType)
    requires
        forall|j: int| 0 <= j < ts.len() ==> (#[trigger] ts[j]).ware_type == tt,
        t != tt,
        t != WareType::Money,
    ensures
        trades_out(ts, e, t) == 0,
        trades_in(ts, e, t) == 0,
    decreases ts.len(),
{
    if ts.len() > 0 {
        assert(ts[ts.len() - 1] == ts.last());
        lemma_trades_out_in_zero(ts.drop_last(), e, t, tt);
    }
}

/// A positive offered total names a contributing position.
proof fn lemma_entity_sell_amount_pos_exists(
    s: Seq<crate::market::Offer>,
    lo: int,
    hi: int,
    e: int,
)
    requires
        entity_sell_amount(s, lo, hi, e) > 0,
        0 <= lo <= hi <= s.len(),
    ensures
        exists|k: int| lo <= k < hi && (#[trigger] s[k]).entity_id == e,
    decreases hi - lo,
{
    if s[hi - 1].entity_id == e {
        assert(lo <= hi - 1 < hi && s[hi - 1].entity_id == e);
    } else {
        lemma_entity_sell_amount_pos_exists(s, lo, hi - 1, e);
    }
}

/// A value sitting at two distinct positions counts at least twice.
proof fn lemma_dup_count(s: Seq<crate::market::Offer>, k1: int, k2: int, v: crate::market::Offer)
    requires
        0 <= k1 < k2 < s.len(),
        s[k1] == v,
        s[k2] == v,
    ensures
        s.to_multiset().count(v) >= 2,
{
    broadcast use vstd::multiset::group_multiset_axioms;

    s.to_multiset_ensures();
    let s2 = s.remove(k1);
    s2.to_multiset_ensures();
    assert(s2[k2 - 1] == v);
    assert(s2.contains(v));
    assert(s.contains(v));
    assert(s2.to_multiset() =~= s.to_multiset().remove(v));
    assert(s2.to_multiset().count(v) > 0);
}

/// Buy commitments over a run of sell offers vanish for every entity.
proof fn lemma_buy_commit_sells_zero(s: Seq<crate::market::Offer>, lo: int, hi: int, e: int)
    requires
        0 <= lo <= hi <= s.len(),
        forall|k: int|
            lo <= k < hi ==> (#[trigger] s[k]).offer_type == OfferType::Sell,
    ensures
        crate::trading::buy_commit(s.subrange(lo, hi), e) == 0,
    decreases hi - lo,
{
    if lo < hi {
        let sub = s.subrange(lo, hi);
        assert(sub.drop_last() =~= s.subrange(lo, hi - 1));
        assert(sub.last() == s[hi - 1]);
        assert(crate::trading::commit_contrib(s[hi - 1], e) == 0);
        lemma_buy_commit_sells_zero(s, lo, hi - 1, e);
    }
}

/// In a backed book, what entity `e` offers for sale across any run of
/// sell offers of commodity `t` is at most what it holds: a backed book
/// carries at most one sell offer per entity and commodity, and that offer
/// is exactly the owner's surplus.
proof fn lemma_backed_sell_bound(
    m: Seq<crate::market::Offer>,
    es: Seq<Entity>,
    e: int,
    lo: int,
    hi: int,
    t: WareType,
)
    requires
        0 <= e < es.len(),
        0 <= lo <= hi <= m.len(),
        t != WareType::Money,
        forall|i: int| 0 <= i < es.len() ==> (#[trigger] es[i]).wf(),
        forall|k: int| 0 <= k < m.len() ==> crate::trading::offer_ok(#[trigger] m[k], es),
        forall|i: int, t2: WareType|
            0 <= i < es.len() && t2 != WareType::Money && crate::trading::surplus_of(es[i], t2)
                > 0 ==> #[trigger] m.to_multiset().count(
                crate::trading::canonical_sell(es[i], i as crate::entity::EntityId, t2),
            ) == 1,
        forall|k: int|
            lo <= k < hi ==> (#[trigger] m[k]).offer.ware_type == t && m[k].offer_type
                == OfferType::Sell,
    ensures
        entity_sell_amount(m, lo, hi, e) <= es[e].amount_of(t),
    decreases hi - lo,
{
    crate::ware::lemma_seq_ware_amount_nonneg(es[e].spec_wares()@, t);
    crate::recipe::lemma_recipes_demand_nonneg(es[e].spec_recipes(), t);
    if lo < hi {
        if m[hi - 1].entity_id == e {
            assert(crate::trading::offer_ok(m[hi - 1], es));
            assert(m[hi - 1] == crate::trading::canonical_sell(
                es[e],
                e as crate::entity::EntityId,
                t,
            ));
            crate::trading::lemma_surplus_in_range(es[e], t);
            assert(crate::trading::surplus_of(es[e], t) > 0);
            assert(m.to_multiset().count(
                crate::trading::canonical_sell(es[e], e as crate::entity::EntityId, t),
            ) == 1);
            lemma_entity_sell_amount_nonneg(m, lo, hi - 1, e);
            if entity_sell_amount(m, lo, hi - 1, e) > 0 {
                lemma_entity_sell_amount_pos_exists(m, lo, hi - 1, e);
                let k = choose|k: int| lo <= k < hi - 1 && (#[trigger] m[k]).entity_id == e;
                assert(crate::trading::offer_ok(m[k], es));
                assert(m[k] == crate::trading::canonical_sell(
                    es[e],
                    e as crate::entity::EntityId,
                    t,
                ));
                lemma_dup_count(
                    m,
                    k,
                    hi - 1,
                    crate::trading::canonical_sell(es[e], e as crate::entity::EntityId, t),
                );
                assert(false);
            }
            assert(entity_sell_amount(m, lo, hi, e) == crate::trading::surplus_of(es[e], t));
        } else {
            lemma_backed_sell_bound(m, es, e, lo, hi - 1, t);
        }
    }
}

/// The ledgers can cover everything this window's offers may commit them
/// to: each entity's Money covers its buy commitments in the window's buy
/// run, and its stock of the window commodity covers the quantities it
/// offers in the sell run.
pub open spec fn window_feasible(
    es: Seq<Entity>,
    s: Seq<crate::market::Offer>,
    r: crate::ware_range::WareOfferRange,
) -> bool {
    &&& forall|e: int|
        0 <= e < es.len() ==> (#[trigger] es[e]).amount_of(WareType::Money)
            >= crate::trading::buy_commit(
            s.subrange(r.buy_start as int, r.buy_end as int),
            e,
        )
    &&& forall|e: int|
        0 <= e < es.len() ==> (#[trigger] es[e]).amount_of(r.ware_type) >= entity_sell_amount(
            s,
            r.sell_start as int,
            r.sell_end as int,
            e,
        )
}

/// Resolves one per-commodity window: picks the clearing tier (a balanced
/// tier if one exists, otherwise the tier of greatest matched volume),
/// fully satisfies the scarce side, rations the abundant side fairly at
/// random, and settles every matched unit at the tier's single price.
/// Fails, leaving every ledger untouched, only when an entity cannot cover
/// what its offers commit it to.
#[verifier::loop_isolation(false)]
#[verifier::rlimit(100)]
#[verifier::spinoff_prover]
fn resolve_window(
    entities: &mut Vec<Entity>,
    offers: &Vec<crate::market::Offer>,
    range: &crate::ware_range::WareOfferRange,
    rng: &mut crate::rng::TradeRng,
) -> (r: Result<Vec<Trade>, ()>)
    requires
        crate::market::offers_sorted(offers@),
        crate::ware_range::range_wf(*range, offers@),
        crate::market::offers_positive(offers@),
        offers@.len() <= u32::MAX,
        range.ware_type != WareType::Money,
        forall|k: int|
            0 <= k < offers@.len() ==> (#[trigger] offers@[k]).entity_id < old(entities)@.len(),
        forall|i: int| 0 <= i < old(entities)@.len() ==> (#[trigger] old(entities)@[i]).wf(),
        forall|t: WareType| #[trigger] total_amount(old(entities)@, t) <= u32::MAX,
    ensures
        final(entities)@.len() == old(entities)@.len(),
        forall|i: int|
            0 <= i < old(entities)@.len() ==> (#[trigger] final(entities)@[i]).wf()
                && entity_nonwares_eq(final(entities)@[i], old(entities)@[i]),
        forall|t: WareType| #[trigger] total_amount(final(entities)@, t) == total_amount(
            old(entities)@,
            t,
        ),
        r.is_err() ==> *final(entities) == *old(entities),
        r matches Ok(ts) ==> forall|j: int|
            0 <= j < ts@.len() ==> (#[trigger] ts@[j]).ware_type == range.ware_type
                && ts@[j].amount > 0 && ts@[j].entity_id < old(entities)@.len(),
        r matches Ok(ts) ==> forall|j1: int, j2: int|
            0 <= j1 < ts@.len() && 0 <= j2 < ts@.len() ==> (#[trigger] ts@[j1]).price == (
            #[trigger] ts@[j2]).price,
        r.is_ok() ==> forall|e: int|
            0 <= e < old(entities)@.len() ==> (#[trigger] final(entities)@[e]).amount_of(
                WareType::Money,
            ) >= old(entities)@[e].amount_of(WareType::Money) - crate::trading::buy_commit(
                offers@.subrange(range.buy_start as int, range.buy_end as int),
                e,
            ),
        r.is_ok() ==> forall|e: int, t: WareType|
            0 <= e < old(entities)@.len() && t != WareType::Money && t != range.ware_type
                ==> #[trigger] final(entities)@[e].amount_of(t) == old(
                entities,
            )@[e].amount_of(t),
        r matches Ok(ts) ==> forall|e: int, t: WareType|
            0 <= e < old(entities)@.len() ==> #[trigger] final(entities)@[e].amount_of(t)
                == old(entities)@[e].amount_of(t) - trades_out(ts@, e, t) + trades_in(
                ts@,
                e,
                t,
            ),
        r matches Ok(ts) ==> window_trades_outcome(offers@, ts@, *range),
        window_feasible(old(entities)@, offers@, *range) ==> r.is_ok(),
{
    let ghost es0 = entities@;
    let limits = sell_offer_limits(offers, range);
    let mut best: usize = 0;
    let mut have_best = false;
    let mut best_vol: u64 = 0;
    let mut found_balanced = false;
    let mut j: usize = 0;
    while j < limits.len()
        invariant
            j <= limits@.len(),
            have_best ==> best < limits@.len(),
            have_best ==> best_vol > 0,
            have_best ==> best_vol == vstd::math::min(
                sum_amounts(offers@, limits@[best as int].sell_offset as int, limits@[
                    best as int].sell_limit as int),
                sum_amounts(offers@, limits@[best as int].buy_offset as int, limits@[
                    best as int].buy_limit as int),
            ),
            !have_best ==> best_vol == 0,
            found_balanced ==> have_best,
            !have_best ==> forall|k2: int|
                0 <= k2 < j ==> tier_volume(offers@, #[trigger] limits@[k2]) <= 0,
        decreases limits@.len() - j,
    {
        let l = limits[j];
        let s_size = sum_amounts_exec(offers, l.sell_offset, l.sell_limit);
        let b_size = sum_amounts_exec(offers, l.buy_offset, l.buy_limit);
        let v = if s_size < b_size {
            s_size
        } else {
            b_size
        };
        if !found_balanced {
            if s_size == b_size && v > 0 {
                best = j;
                have_best = true;
                best_vol = v;
                found_balanced = true;
            } else if v > best_vol {
                best = j;
                have_best = true;
                best_vol = v;
            }
        }
        j = j + 1;
    }
    if !have_best {
        proof {
            assert forall|e: int|
                0 <= e < es0.len() implies (#[trigger] entities@[e]).amount_of(WareType::Money)
                >= es0[e].amount_of(WareType::Money) - crate::trading::buy_commit(
                offers@.subrange(range.buy_start as int, range.buy_end as int),
                e,
            ) by {
                lemma_buy_commit_nonneg(
                    offers@.subrange(range.buy_start as int, range.buy_end as int),
                    e,
                );
            }
            assert forall|l: crate::ware_range::SellOfferLimit|
                #[trigger] limit_wf(l, offers@, *range) implies tier_volume(offers@, l)
                <= 0 by {
                assert(crate::ware_range::tier_price_present(
                    limits@,
                    offers@[l.sell_limit - 1].price_per_ware.amount,
                ));
                let k = choose|k: int|
                    0 <= k < limits@.len() && (#[trigger] limits@[k]).price == offers@[
                        l.sell_limit - 1].price_per_ware.amount;
                crate::ware_range::lemma_limit_wf_unique(l, limits@[k], offers@, *range);
            }
            let ghost none: Seq<Trade> = Seq::empty();
            assert(window_trades_outcome(offers@, none, *range));
        }
        return Ok(Vec::new());
    }
    let l = limits[best];
    proof {
        assert(limit_wf(l, offers@, *range));
    }
    let s_size = sum_amounts_exec(offers, l.sell_offset, l.sell_limit);
    let b_size = sum_amounts_exec(offers, l.buy_offset, l.buy_limit);
    let vol: u64 = if s_size < b_size {
        s_size
    } else {
        b_size
    };
    let p = l.price;
    let sell_amounts = collect_amounts(offers, l.sell_offset, l.sell_limit);
    let buy_amounts = collect_amounts(offers, l.buy_offset, l.buy_limit);
    let sell_fills: Vec<u32> = if s_size <= b_size {
        sell_amounts
    } else {
        ration(&sell_amounts, vol, rng)
    };
    let buy_fills: Vec<u32> = if b_size <= s_size {
        buy_amounts
    } else {
        ration(&buy_amounts, vol, rng)
    };
    proof {
        assert(sum_u32(sell_fills@) == vol);
        assert(sum_u32(buy_fills@) == vol);
    }
    let ghost tt = range.ware_type;
    let mut trades: Vec<Trade> = Vec::new();
    let ghost mut s_amt: int = 0;
    let mut i: usize = 0;
    while i < sell_fills.len()
        invariant
            i <= sell_fills@.len(),
            sell_fills@.len() == l.sell_limit - l.sell_offset,
            s_amt == sum_u32(sell_fills@.take(i as int)),
            forall|t: WareType| #[trigger] trades_out_type(trades@, t) == if t == tt {
                s_amt
            } else {
                0
            },
            forall|t: WareType| #[trigger] trades_in_type(trades@, t) == if t
                == WareType::Money {
                s_amt * p
            } else {
                0
            },
            forall|jj: int|
                0 <= jj < trades@.len() ==> (#[trigger] trades@[jj]).ware_type == tt
                    && trades@[jj].amount > 0 && trades@[jj].entity_id < es0.len()
                    && trades@[jj].price == p,
            forall|jj: int|
                0 <= jj < trades@.len() ==> (#[trigger] trades@[jj]).offer_type
                    == OfferType::Sell,
            forall|e: int| #[trigger] trades_out(trades@, e, tt) <= entity_sell_amount(
                offers@,
                l.sell_offset as int,
                l.sell_offset + i,
                e,
            ),
            forall|e: int| #[trigger] trades_out(trades@, e, WareType::Money) == 0,
            s_size <= b_size ==> forall|k2: int|
                l.sell_offset <= k2 < l.sell_offset + i ==> trades@.contains(
                    #[trigger] full_sell_trade(offers@, k2, tt, p),
                ),
            forall|j2: int|
                0 <= j2 < trades@.len() && (#[trigger] trades@[j2]).offer_type
                    == OfferType::Sell ==> exists|k2: int|
                    l.sell_offset <= k2 < l.sell_offset + i && (#[trigger] offers@[
                        k2]).entity_id == trades@[j2].entity_id && trades@[j2].amount
                        <= offers@[k2].offer.amount,
        decreases sell_fills@.len() - i,
    {
        let f = sell_fills[i];
        proof {
            lemma_sum_u32_take_step(sell_fills@, i as int);
            assert forall|e: int| entity_sell_amount(
                offers@,
                l.sell_offset as int,
                l.sell_offset + i,
                e,
            ) <= #[trigger] entity_sell_amount(
                offers@,
                l.sell_offset as int,
                l.sell_offset + i + 1,
                e,
            ) by {
                lemma_entity_sell_amount_monotone(
                    offers@,
                    l.sell_offset as int,
                    l.sell_offset + i,
                    l.sell_offset + i + 1,
                    e,
                );
            }
        }
        if f > 0 {
            let o = offers[l.sell_offset + i];
            let tr = Trade {
                entity_id: o.entity_id,
                offer_type: OfferType::Sell,
                ware_type: range.ware_type(),
                amount: f,
                price: p,
            };
            let ghost trades0 = trades@;
            trades.push(tr);
            proof {
                assert(trades@.drop_last() =~= trades0);
                assert(trades@.last() == tr);
                vstd::arithmetic::mul::lemma_mul_is_distributive_add_other_way(
                    p as int,
                    s_amt,
                    f as int,
                );
                s_amt = s_amt + f as int;
                assert forall|t: WareType| #[trigger] trades_out_type(trades@, t) == (
                if t == tt {
                    s_amt
                } else {
                    0
                }) by {
                    assert(trades_out_type(trades@, t) == trades_out_type(trades0, t)
                        + trade_out_contrib(tr, t));
                }
                assert forall|t: WareType| #[trigger] trades_in_type(trades@, t) == (
                if t == WareType::Money {
                    s_amt * p
                } else {
                    0
                }) by {
                    assert(trades_in_type(trades@, t) == trades_in_type(trades0, t)
                        + trade_in_contrib(tr, t));
                }
                assert forall|e: int| #[trigger] trades_out(trades@, e, tt)
                    <= entity_sell_amount(
                    offers@,
                    l.sell_offset as int,
                    l.sell_offset + i + 1,
                    e,
                ) by {
                    assert(trades@.drop_last() =~= trades0);
                    assert(trades_out(trades@, e, tt) == trades_out(trades0, e, tt) + (
                    if tr.entity_id == e {
                        trade_out_contrib(tr, tt)
                    } else {
                        0
                    }));
                    assert(trades_out(trades0, e, tt) <= entity_sell_amount(
                        offers@,
                        l.sell_offset as int,
                        l.sell_offset + i,
                        e,
                    ));
                    assert(entity_sell_amount(offers@, l.sell_offset as int, l.sell_offset + i
                        + 1, e) == entity_sell_amount(offers@, l.sell_offset as int, l.sell_offset
                        + i, e) + sell_amount_contrib(o, e));
                    assert(f <= o.offer.amount);
                }
                assert forall|e: int| #[trigger] trades_out(trades@, e, WareType::Money)
                    == 0 by {
                    assert(trades@.drop_last() =~= trades0);
                    assert(trades_out(trades@, e, WareType::Money) == trades_out(
                        trades0,
                        e,
                        WareType::Money,
                    ) + (if tr.entity_id == e {
                        trade_out_contrib(tr, WareType::Money)
                    } else {
                        0
                    }));
                    assert(trade_out_contrib(tr, WareType::Money) == 0);
                }
                if s_size <= b_size {
                    assert(f == o.offer.amount);
                    assert(tr == full_sell_trade(offers@, l.sell_offset + i, tt, p));
                    assert(trades@[trades@.len() - 1] == tr);
                    assert forall|k2: int|
                        l.sell_offset <= k2 < l.sell_offset + i + 1 implies trades@.contains(
                        #[trigger] full_sell_trade(offers@, k2, tt, p),
                    ) by {
                        if k2 < l.sell_offset + i {
                            let j0 = choose|j0: int|
                                0 <= j0 < trades0.len() && trades0[j0] == full_sell_trade(
                                    offers@,
                                    k2,
                                    tt,
                                    p,
                                );
                            assert(trades@[j0] == trades0[j0]);
                        }
                    }
                }
                assert forall|j2: int|
                    0 <= j2 < trades@.len() && (#[trigger] trades@[j2]).offer_type
                        == OfferType::Sell implies exists|k2: int|
                        l.sell_offset <= k2 < l.sell_offset + i + 1 && (#[trigger] offers@[
                            k2]).entity_id == trades@[j2].entity_id && trades@[j2].amount
                            <= offers@[k2].offer.amount by {
                    if j2 < trades0.len() {
                        assert(trades@[j2] == trades0[j2]);
                        let k0 = choose|k0: int|
                            l.sell_offset <= k0 < l.sell_offset + i && (#[trigger] offers@[
                                k0]).entity_id == trades0[j2].entity_id && trades0[j2].amount
                                <= offers@[k0].offer.amount;
                        assert(offers@[k0].entity_id == trades@[j2].entity_id);
                    } else {
                        assert(trades@[j2] == tr);
                        assert(offers@[l.sell_offset + i].entity_id == tr.entity_id);
                        assert(tr.amount <= offers@[l.sell_offset + i].offer.amount);
                    }
                }
            }
        } else {
            proof {
                if s_size <= b_size {
                    assert(sell_fills@[i as int] == offers@[l.sell_offset + i].offer.amount);
                    assert(false);
                }
                assert forall|j2: int|
                    0 <= j2 < trades@.len() && (#[trigger] trades@[j2]).offer_type
                        == OfferType::Sell implies exists|k2: int|
                        l.sell_offset <= k2 < l.sell_offset + i + 1 && (#[trigger] offers@[
                            k2]).entity_id == trades@[j2].entity_id && trades@[j2].amount
                            <= offers@[k2].offer.amount by {
                    let k0 = choose|k0: int|
                        l.sell_offset <= k0 < l.sell_offset + i && (#[trigger] offers@[
                            k0]).entity_id == trades@[j2].entity_id && trades@[j2].amount
                            <= offers@[k0].offer.amount;
                    assert(offers@[k0].entity_id == trades@[j2].entity_id);
                }
            }
        }
        i = i + 1;
    }
    proof {
        assert(sell_fills@.take(sell_fills@.len() as int) =~= sell_fills@);
        assert(s_amt == vol);
    }
    let ghost mut b_amt: int = 0;
    let mut i: usize = 0;
    while i < buy_fills.len()
        invariant
            i <= buy_fills@.len(),
            buy_fills@.len() == l.buy_limit - l.buy_offset,
            b_amt == sum_u32(buy_fills@.take(i as int)),
            forall|t: WareType| #[trigger] trades_out_type(trades@, t) == if t == tt {
                vol as int
            } else if t == WareType::Money {
                b_amt * p
            } else {
                0
            },
            forall|t: WareType| #[trigger] trades_in_type(trades@, t) == if t
                == WareType::Money {
                (vol as int) * p
            } else if t == tt {
                b_amt
            } else {
                0
            },
            forall|jj: int|
                0 <= jj < trades@.len() ==> (#[trigger] trades@[jj]).ware_type == tt
                    && trades@[jj].amount > 0 && trades@[jj].entity_id < es0.len()
                    && trades@[jj].price == p,
            forall|e: int| #[trigger] trades_out(trades@, e, tt) <= entity_sell_amount(
                offers@,
                l.sell_offset as int,
                l.sell_limit as int,
                e,
            ),
            forall|e: int| #[trigger] trades_out(trades@, e, WareType::Money)
                <= crate::trading::buy_commit(
                offers@.subrange(l.buy_offset as int, l.buy_offset + i),
                e,
            ),
            s_size <= b_size ==> forall|k2: int|
                l.sell_offset <= k2 < l.sell_limit ==> trades@.contains(
                    #[trigger] full_sell_trade(offers@, k2, tt, p),
                ),
            forall|j2: int|
                0 <= j2 < trades@.len() && (#[trigger] trades@[j2]).offer_type
                    == OfferType::Sell ==> exists|k2: int|
                    l.sell_offset <= k2 < l.sell_limit && (#[trigger] offers@[
                        k2]).entity_id == trades@[j2].entity_id && trades@[j2].amount
                        <= offers@[k2].offer.amount,
            b_size <= s_size ==> forall|k2: int|
                l.buy_offset <= k2 < l.buy_offset + i ==> trades@.contains(
                    #[trigger] full_buy_trade(offers@, k2, tt, p),
                ),
            forall|j2: int|
                0 <= j2 < trades@.len() && (#[trigger] trades@[j2]).offer_type
                    == OfferType::Buy ==> exists|k2: int|
                    l.buy_offset <= k2 < l.buy_offset + i && (#[trigger] offers@[
                        k2]).entity_id == trades@[j2].entity_id && trades@[j2].amount
                        <= offers@[k2].offer.amount,
        decreases buy_fills@.len() - i,
    {
        let f = buy_fills[i];
        proof {
            lemma_sum_u32_take_step(buy_fills@, i as int);
            assert(offers@.subrange(l.buy_offset as int, l.buy_offset + i + 1)
                =~= offers@.subrange(l.buy_offset as int, l.buy_offset + i).push(
                offers@[l.buy_offset + i],
            ));
            assert forall|e: int| crate::trading::buy_commit(
                offers@.subrange(l.buy_offset as int, l.buy_offset + i),
                e,
            ) <= #[trigger] crate::trading::buy_commit(
                offers@.subrange(l.buy_offset as int, l.buy_offset + i + 1),
                e,
            ) by {
                let ext = offers@.subrange(l.buy_offset as int, l.buy_offset + i + 1);
                assert(ext.drop_last() =~= offers@.subrange(
                    l.buy_offset as int,
                    l.buy_offset + i,
                ));
                assert(ext.last() == offers@[l.buy_offset + i]);
                vstd::arithmetic::mul::lemma_mul_nonnegative(
                    offers@[l.buy_offset + i].offer.amount as int,
                    offers@[l.buy_offset + i].price_per_ware.amount as int,
                );
            }
        }
        if f > 0 {
            let o = offers[l.buy_offset + i];
            let tr = Trade {
                entity_id: o.entity_id,
                offer_type: OfferType::Buy,
                ware_type: range.ware_type(),
                amount: f,
                price: p,
            };
            let ghost trades0 = trades@;
            trades.push(tr);
            proof {
                assert(trades@.drop_last() =~= trades0);
                assert(trades@.last() == tr);
                vstd::arithmetic::mul::lemma_mul_is_distributive_add_other_way(
                    p as int,
                    b_amt,
                    f as int,
                );
                b_amt = b_amt + f as int;
                assert forall|t: WareType| #[trigger] trades_out_type(trades@, t) == (
                if t == tt {
                    vol as int
                } else if t == WareType::Money {
                    b_amt * p
                } else {
                    0
                }) by {
                    assert(trades_out_type(trades@, t) == trades_out_type(trades0, t)
                        + trade_out_contrib(tr, t));
                }
                assert forall|t: WareType| #[trigger] trades_in_type(trades@, t) == (
                if t == WareType::Money {
                    (vol as int) * p
                } else if t == tt {
                    b_amt
                } else {
                    0
                }) by {
                    assert(trades_in_type(trades@, t) == trades_in_type(trades0, t)
                        + trade_in_contrib(tr, t));
                }
                assert forall|e: int| #[trigger] trades_out(trades@, e, tt)
                    <= entity_sell_amount(
                    offers@,
                    l.sell_offset as int,
                    l.sell_limit as int,
                    e,
                ) by {
                    assert(trades@.drop_last() =~= trades0);
                    assert(trades_out(trades@, e, tt) == trades_out(trades0, e, tt) + (
                    if tr.entity_id == e {
                        trade_out_contrib(tr, tt)
                    } else {
                        0
                    }));
                    assert(trade_out_contrib(tr, tt) == 0);
                }
                assert forall|e: int| #[trigger] trades_out(trades@, e, WareType::Money)
                    <= crate::trading::buy_commit(
                    offers@.subrange(l.buy_offset as int, l.buy_offset + i + 1),
                    e,
                ) by {
                    assert(trades@.drop_last() =~= trades0);
                    assert(trades_out(trades@, e, WareType::Money) == trades_out(
                        trades0,
                        e,
                        WareType::Money,
                    ) + (if tr.entity_id == e {
                        trade_out_contrib(tr, WareType::Money)
                    } else {
                        0
                    }));
                    assert(trades_out(trades0, e, WareType::Money)
                        <= crate::trading::buy_commit(
                        offers@.subrange(l.buy_offset as int, l.buy_offset + i),
                        e,
                    ));
                    let ext = offers@.subrange(l.buy_offset as int, l.buy_offset + i + 1);
                    assert(ext.drop_last() =~= offers@.subrange(
                        l.buy_offset as int,
                        l.buy_offset + i,
                    ));
                    assert(ext.last() == o);
                    assert(crate::trading::buy_commit(ext, e) == crate::trading::buy_commit(
                        offers@.subrange(l.buy_offset as int, l.buy_offset + i),
                        e,
                    ) + crate::trading::commit_contrib(o, e));
                    if tr.entity_id == e {
                        assert(crate::trading::commit_contrib(o, e) == o.offer.amount
                            * o.price_per_ware.amount);
                        assert(f <= o.offer.amount);
                        assert(p <= o.price_per_ware.amount);
                        vstd::arithmetic::mul::lemma_mul_upper_bound(
                            f as int,
                            o.offer.amount as int,
                            p as int,
                            o.price_per_ware.amount as int,
                        );
                    } else {
                        assert(crate::trading::commit_contrib(o, e) == 0);
                    }
                }
                assert(trades@[trades@.len() - 1] == tr);
                if s_size <= b_size {
                    assert forall|k2: int|
                        l.sell_offset <= k2 < l.sell_limit implies trades@.contains(
                        #[trigger] full_sell_trade(offers@, k2, tt, p),
                    ) by {
                        let j0 = choose|j0: int|
                            0 <= j0 < trades0.len() && trades0[j0] == full_sell_trade(
                                offers@,
                                k2,
                                tt,
                                p,
                            );
                        assert(trades@[j0] == trades0[j0]);
                    }
                }
                if b_size <= s_size {
                    assert(f == o.offer.amount);
                    assert(tr == full_buy_trade(offers@, l.buy_offset + i, tt, p));
                    assert forall|k2: int|
                        l.buy_offset <= k2 < l.buy_offset + i + 1 implies trades@.contains(
                        #[trigger] full_buy_trade(offers@, k2, tt, p),
                    ) by {
                        if k2 < l.buy_offset + i {
                            let j0 = choose|j0: int|
                                0 <= j0 < trades0.len() && trades0[j0] == full_buy_trade(
                                    offers@,
                                    k2,
                                    tt,
                                    p,
                                );
                            assert(trades@[j0] == trades0[j0]);
                        }
                    }
                }
                assert forall|j2: int|
                    0 <= j2 < trades@.len() && (#[trigger] trades@[j2]).offer_type
                        == OfferType::Sell implies exists|k2: int|
                        l.sell_offset <= k2 < l.sell_limit && (#[trigger] offers@[
                            k2]).entity_id == trades@[j2].entity_id && trades@[j2].amount
                            <= offers@[k2].offer.amount by {
                    assert(j2 < trades0.len());
                    assert(trades@[j2] == trades0[j2]);
                    let k0 = choose|k0: int|
                        l.sell_offset <= k0 < l.sell_limit && (#[trigger] offers@[
                            k0]).entity_id == trades0[j2].entity_id && trades0[j2].amount
                            <= offers@[k0].offer.amount;
                    assert(offers@[k0].entity_id == trades@[j2].entity_id);
                }
                assert forall|j2: int|
                    0 <= j2 < trades@.len() && (#[trigger] trades@[j2]).offer_type
                        == OfferType::Buy implies exists|k2: int|
                        l.buy_offset <= k2 < l.buy_offset + i + 1 && (#[trigger] offers@[
                            k2]).entity_id == trades@[j2].entity_id && trades@[j2].amount
                            <= offers@[k2].offer.amount by {
                    if j2 < trades0.len() {
                        assert(trades@[j2] == trades0[j2]);
                        let k0 = choose|k0: int|
                            l.buy_offset <= k0 < l.buy_offset + i && (#[trigger] offers@[
                                k0]).entity_id == trades0[j2].entity_id && trades0[j2].amount
                                <= offers@[k0].offer.amount;
                        assert(offers@[k0].entity_id == trades@[j2].entity_id);
                    } else {
                        assert(trades@[j2] == tr);
                        assert(offers@[l.buy_offset + i].entity_id == tr.entity_id);
                        assert(tr.amount <= offers@[l.buy_offset + i].offer.amount);
                    }
                }
            }
        } else {
            proof {
                if b_size <= s_size {
                    assert(buy_fills@[i as int] == offers@[l.buy_offset + i].offer.amount);
                    assert(false);
                }
                assert forall|j2: int|
                    0 <= j2 < trades@.len() && (#[trigger] trades@[j2]).offer_type
                        == OfferType::Buy implies exists|k2: int|
                        l.buy_offset <= k2 < l.buy_offset + i + 1 && (#[trigger] offers@[
                            k2]).entity_id == trades@[j2].entity_id && trades@[j2].amount
                            <= offers@[k2].offer.amount by {
                    let k0 = choose|k0: int|
                        l.buy_offset <= k0 < l.buy_offset + i && (#[trigger] offers@[
                            k0]).entity_id == trades@[j2].entity_id && trades@[j2].amount
                            <= offers@[k0].offer.amount;
                    assert(offers@[k0].entity_id == trades@[j2].entity_id);
                }
            }
        }
        i = i + 1;
    }
    proof {
        assert(buy_fills@.take(buy_fills@.len() as int) =~= buy_fills@);
        assert(b_amt == vol);
        assert forall|t: WareType| #[trigger] trades_in_type(trades@, t) <= trades_out_type(
            trades@,
            t,
        ) by {}
        assert(limit_wf(l, offers@, *range));
        assert(tier_volume(offers@, l) == vol as int);
        assert(trades_out_type(trades@, tt) == vol as int);
        assert(trades_in_type(trades@, tt) == vol as int);
        assert(sell_side_filled(offers@, trades@, *range, l));
        assert(buy_side_filled(offers@, trades@, *range, l));
        assert(sell_provenance(offers@, trades@, *range, l));
        assert(buy_provenance(offers@, trades@, *range, l));
        assert(window_trades_outcome(offers@, trades@, *range));
    }
    let ghost feasible = window_feasible(es0, offers@, *range);
    proof {
        assert(offers@.subrange(l.buy_offset as int, l.buy_offset + buy_fills@.len())
            =~= offers@.subrange(l.buy_offset as int, l.buy_limit as int));
        assert(offers@.subrange(range.buy_start as int, range.buy_end as int) =~= offers@.subrange(
            range.buy_start as int,
            l.buy_offset as int,
        ) + offers@.subrange(l.buy_offset as int, range.buy_end as int));
        assert forall|e: int| #[trigger] trades_out(trades@, e, WareType::Money)
            <= crate::trading::buy_commit(
            offers@.subrange(range.buy_start as int, range.buy_end as int),
            e,
        ) by {
            crate::trading::lemma_buy_commit_concat(
                offers@.subrange(range.buy_start as int, l.buy_offset as int),
                offers@.subrange(l.buy_offset as int, range.buy_end as int),
                e,
            );
            lemma_buy_commit_nonneg(
                offers@.subrange(range.buy_start as int, l.buy_offset as int),
                e,
            );
        }
        if feasible {
            assert forall|e: int, t: WareType|
                0 <= e < es0.len() implies es0[e].amount_of(t) >= #[trigger] trades_out(
                trades@,
                e,
                t,
            ) by {
                if t == tt {
                    lemma_entity_sell_amount_monotone(
                        offers@,
                        l.sell_offset as int,
                        l.sell_limit as int,
                        range.sell_end as int,
                        e,
                    );
                } else if t == WareType::Money {
                } else {
                    lemma_trades_out_in_zero(trades@, e, t, tt);
                    crate::ware::lemma_seq_ware_amount_nonneg(es0[e].spec_wares()@, t);
                }
            }
        }
    }
    let res = settle_trades(entities, &trades);
    match res {
        Ok(_) => {
            proof {
                assert forall|e: int|
                    0 <= e < es0.len() implies (#[trigger] entities@[e]).amount_of(
                    WareType::Money,
                ) >= es0[e].amount_of(WareType::Money) - crate::trading::buy_commit(
                    offers@.subrange(range.buy_start as int, range.buy_end as int),
                    e,
                ) by {
                    lemma_trades_sums_nonneg(trades@, e, WareType::Money);
                }
                assert forall|e: int, t: WareType|
                    0 <= e < es0.len() && t != WareType::Money && t != range.ware_type implies
                    #[trigger] entities@[e].amount_of(t) == es0[e].amount_of(t) by {
                    lemma_trades_out_in_zero(trades@, e, t, tt);
                }
            }
            Ok(trades)
        }
        Err(_) => {
            proof {
                if feasible {
                    assert(false);
                }
            }
            Err(())
        }
    }
}

/// A book the ledgers fully stand behind, as the offer generator produces
/// it: every offer is valid for its owner, each non-Money surplus is offered
/// for sale exactly once, and no entity has committed more Money across its
/// buy offers than its spendable surplus.  Settlement of such a book never
/// fails, whatever the rationing draws.
pub open spec fn book_backed(m: Seq<crate::market::Offer>, es: Seq<Entity>) -> bool {
    &&& forall|i: int| 0 <= i < es.len() ==> (#[trigger] es[i]).wf()
    &&& forall|k: int|
        0 <= k < m.len() ==> crate::trading::offer_ok(#[trigger] m[k], es)
    &&& forall|i: int, t: WareType|
        0 <= i < es.len() && t != WareType::Money && crate::trading::surplus_of(es[i], t) > 0
            ==> #[trigger] m.to_multiset().count(
            crate::trading::canonical_sell(es[i], i as crate::entity::EntityId, t),
        ) == 1
    &&& forall|i: int|
        0 <= i < es.len() ==> #[trigger] crate::trading::buy_commit(m, i)
            <= crate::trading::surplus_of(es[i], WareType::Money)
}

/// Offers are only created against verified availability: a book with the
/// offer generator's postconditions (every offer valid, one sell per
/// surplus, committed Money within the spendable surplus) is backed, so
/// settling it can never fail.  Together with `World::resolve_trades`'s
/// final postcondition this discharges the fatal-error path for every book
/// that `World::update_market_offers` produces.
pub proof fn lemma_generated_book_settles(m: Seq<crate::market::Offer>, es: Seq<Entity>)
    requires
        forall|i: int| 0 <= i < es.len() ==> (#[trigger] es[i]).wf(),
        forall|k: int|
            0 <= k < m.len() ==> crate::trading::offer_ok(#[trigger] m[k], es),
        forall|i: int, t: WareType|
            0 <= i < es.len() && t != WareType::Money && crate::trading::surplus_of(es[i], t)
                > 0 ==> #[trigger] m.to_multiset().count(
                crate::trading::canonical_sell(es[i], i as crate::entity::EntityId, t),
            ) == 1,
        forall|i: int|
            0 <= i < es.len() ==> #[trigger] crate::trading::buy_commit(m, i)
                <= crate::trading::surplus_of(es[i], WareType::Money),
    ensures
        book_backed(m, es),
{
}

impl crate::world::World {

/// Resolves one full trading day over the sorted book: every per-commodity
/// window is cleared at a single uniform price and settled against the
/// entities' ledgers.  The book itself is left unchanged (it is cleared and
/// regenerated next tick).  On success every ledger ends exactly at its old
/// holdings minus what the returned trades remove plus what they add, so
/// each settled sell moves precisely its quantity out of the seller and its
/// Money proceeds in, and symmetrically for buys; the population-wide total
/// of every commodity — Money included — is conserved whether or not the
/// call succeeds.  Per commodity, the settled quantity is pinned by
/// `window_trades_outcome`: the matched volume of a well-formed tier of its
/// window, with the scarce side filled offer by offer in full — in
/// particular a balanced tier settles both sides completely — or nothing
/// when no tier matches.  Failure is the fatal case of an entity unable to
/// cover its own offers; the failing window's ledger state is untouched.
/// Settlement cannot fail on a book the ledgers stand behind
/// (`book_backed`), which the offer generator always produces
/// (`lemma_generated_book_settles`).
#[verifier::loop_isolation(false)]
#[verifier::rlimit(100)]
#[verifier::spinoff_prover]
pub fn resolve_trades(&mut self, rng: &mut crate::rng::TradeRng) -> (r: Result<Vec<Trade>, ()>)
    requires
        old(self).wf(),
        crate::market::offers_sorted(old(self).spec_market()@),
        old(self).spec_market()@.len() <= u32::MAX,
        forall|k: int|
            0 <= k < old(self).spec_market()@.len()
                ==> (#[trigger] old(self).spec_market()@[k]).entity_id < old(
                self,
            ).spec_entities().len(),
        forall|t: WareType| #[trigger] total_amount(old(self).spec_entities(), t) <= u32::MAX,
    ensures
        final(self).wf(),
        final(self).spec_market() == old(self).spec_market(),
        final(self).spec_entities().len() == old(self).spec_entities().len(),
        forall|i: int|
            0 <= i < old(self).spec_entities().len()
                ==> (#[trigger] final(self).spec_entities()[i]).wf() && entity_nonwares_eq(
                final(self).spec_entities()[i],
                old(self).spec_entities()[i],
            ),
        forall|t: WareType| #[trigger] total_amount(final(self).spec_entities(), t)
            == total_amount(old(self).spec_entities(), t),
        r matches Ok(ts) ==> forall|j: int|
            0 <= j < ts@.len() ==> (#[trigger] ts@[j]).amount > 0 && ts@[j].entity_id < old(
            self,
            ).spec_entities().len() && ts@[j].ware_type != WareType::Money,
        r matches Ok(ts) ==> forall|j1: int, j2: int|
            0 <= j1 < ts@.len() && 0 <= j2 < ts@.len() && (#[trigger] ts@[j1]).ware_type == (
            #[trigger] ts@[j2]).ware_type ==> ts@[j1].price == ts@[j2].price,
        r matches Ok(ts) ==> forall|e: int, t: WareType|
            0 <= e < old(self).spec_entities().len()
                ==> #[trigger] final(self).spec_entities()[e].amount_of(t) == old(
                self,
            ).spec_entities()[e].amount_of(t) - trades_out(ts@, e, t) + trades_in(ts@, e, t),
        r matches Ok(ts) ==> forall|t: WareType|
            t != WareType::Money && #[trigger] book_has_type(old(self).spec_market()@, t)
                ==> exists|w: crate::ware_range::WareOfferRange|
                #[trigger] window_of(old(self).spec_market()@, w) && w.ware_type == t
                    && window_trades_outcome(old(self).spec_market()@, ts@, w),
        book_backed(old(self).spec_market()@, old(self).spec_entities()) ==> r.is_ok(),
{
    let ghost es0 = self.entities@;
    let ghost mkt0 = self.market;
    let ghost m = self.market@;
    let ghost backed = book_backed(m, es0);
    let n_off = self.market.offers().len();
    let mut result: Vec<Trade> = Vec::new();
    let mut it = crate::ware_range::WareRangeIter::new();
    proof {
        if backed {
            assert(m.subrange(0, m.len() as int) =~= m);
            assert forall|e: int|
                0 <= e < es0.len() implies #[trigger] es0[e].amount_of(WareType::Money)
                >= crate::trading::buy_commit(m.subrange(0, m.len() as int), e) by {
                crate::ware::lemma_seq_ware_amount_nonneg(
                    es0[e].spec_wares()@,
                    WareType::Money,
                );
                crate::recipe::lemma_recipes_demand_nonneg(
                    es0[e].spec_recipes(),
                    WareType::Money,
                );
            }
        }
    }
    while it.index < n_off
        invariant
            self.market == mkt0,
            self.market@ == m,
            self.entities@.len() == es0.len(),
            forall|i: int|
                0 <= i < es0.len() ==> (#[trigger] self.entities@[i]).wf()
                    && entity_nonwares_eq(self.entities@[i], es0[i]),
            forall|t: WareType| #[trigger] total_amount(self.entities@, t) == total_amount(
                es0,
                t,
            ),
            forall|e: int, t: WareType|
                0 <= e < es0.len() ==> #[trigger] self.entities@[e].amount_of(t) == es0[
                    e].amount_of(t) - trades_out(result@, e, t) + trades_in(result@, e, t),
            it.index <= n_off,
            forall|j: int|
                0 <= j < result@.len() ==> (#[trigger] result@[j]).amount > 0
                    && result@[j].entity_id < es0.len() && result@[j].ware_type
                    != WareType::Money,
            forall|j1: int, j2: int|
                0 <= j1 < result@.len() && 0 <= j2 < result@.len() && (
                #[trigger] result@[j1]).ware_type == (#[trigger] result@[j2]).ware_type
                    ==> result@[j1].price == result@[j2].price,
            it.index < n_off ==> forall|j: int|
                0 <= j < result@.len() ==> (#[trigger] result@[j]).ware_type.rank_spec()
                    < m[it.index as int].offer.ware_type.rank_spec(),
            it.index > 0 && it.index < n_off ==> m[it.index - 1].offer.ware_type != m[
                it.index as int].offer.ware_type,
            forall|t: WareType|
                t != WareType::Money && #[trigger] book_prefix_has_type(
                    m,
                    it.index as int,
                    t,
                ) ==> exists|w: crate::ware_range::WareOfferRange|
                    #[trigger] window_of(m, w) && w.ware_type == t && window_trades_outcome(
                        m,
                        result@,
                        w,
                    ),
            backed ==> forall|e: int|
                0 <= e < es0.len() ==> #[trigger] self.entities@[e].amount_of(WareType::Money)
                    >= crate::trading::buy_commit(
                    m.subrange(it.index as int, m.len() as int),
                    e,
                ),
            backed && it.index < n_off ==> forall|e: int, t: WareType|
                0 <= e < es0.len() && t != WareType::Money && t.rank_spec() >= m[
                    it.index as int].offer.ware_type.rank_spec()
                    ==> #[trigger] self.entities@[e].amount_of(t) == es0[e].amount_of(t),
        decreases n_off - it.index,
    {
        let ghost idx0 = it.index;
        let next = it.next(self.market.offers());
        match next {
            None => {
                proof {
                    assert(false);
                }
            }
            Some(range) => {
                proof {
                    // the offer after the window belongs to a strictly later
                    // commodity group
                    if range.sell_end < n_off {
                        let t0 = range.ware_type;
                        let nxt = m[range.sell_end as int];
                        let prev = m[range.sell_end as int - 1];
                        assert(range.sell_end - 1 >= range.buy_start);
                        assert(prev.offer.ware_type == t0);
                        assert(crate::market::offer_le(prev, nxt));
                        if nxt.offer.ware_type == t0 {
                            if range.sell_start < range.sell_end {
                                assert(prev.offer_type == OfferType::Sell);
                                assert(nxt.offer_type == OfferType::Buy);
                                assert(false);
                            } else {
                                assert(prev.offer_type == OfferType::Buy);
                                assert(false);
                            }
                        }
                        assert(nxt.offer.ware_type.rank_spec() != t0.rank_spec());
                        assert(t0.rank_spec() < nxt.offer.ware_type.rank_spec());
                    }
                    // the book positions of this window all carry its commodity
                    assert forall|k: int|
                        idx0 <= k < range.sell_end implies (#[trigger] m[k]).offer.ware_type
                        == range.ware_type by {
                        if k < range.buy_end {
                        } else {
                        }
                    }
                    assert(window_of(m, range));
                }
                if !range.ware_type().is_money() {
                    let ghost pre_es = self.entities@;
                    proof {
                        if backed {
                            assert(m.subrange(idx0 as int, m.len() as int) =~= m.subrange(
                                idx0 as int,
                                range.buy_end as int,
                            ) + m.subrange(range.buy_end as int, m.len() as int));
                            assert forall|e: int|
                                0 <= e < es0.len() implies #[trigger] pre_es[e].amount_of(
                                WareType::Money,
                            ) >= crate::trading::buy_commit(
                                m.subrange(range.buy_start as int, range.buy_end as int),
                                e,
                            ) by {
                                crate::trading::lemma_buy_commit_concat(
                                    m.subrange(idx0 as int, range.buy_end as int),
                                    m.subrange(range.buy_end as int, m.len() as int),
                                    e,
                                );
                                lemma_buy_commit_nonneg(
                                    m.subrange(range.buy_end as int, m.len() as int),
                                    e,
                                );
                            }
                            assert forall|e: int|
                                0 <= e < es0.len() implies #[trigger] pre_es[e].amount_of(
                                range.ware_type,
                            ) >= entity_sell_amount(
                                m,
                                range.sell_start as int,
                                range.sell_end as int,
                                e,
                            ) by {
                                assert(pre_es[e].amount_of(range.ware_type) == es0[
                                    e].amount_of(range.ware_type));
                                lemma_backed_sell_bound(
                                    m,
                                    es0,
                                    e,
                                    range.sell_start as int,
                                    range.sell_end as int,
                                    range.ware_type,
                                );
                            }
                            assert(window_feasible(pre_es, m, range));
                        }
                    }
                    let window_trades = resolve_window(
                        &mut self.entities,
                        self.market.offers(),
                        &range,
                        rng,
                    );
                    match window_trades {
                        Ok(wt) => {
                            let ghost res0 = result@;
                            let ghost wt0 = wt@;
                            let mut k: usize = 0;
                            let wtv = wt;
                            while k < wtv.len()
                                invariant
                                    k <= wt0.len(),
                                    wtv@ == wt0,
                                    result@ == res0 + wt0.take(k as int),
                                decreases wt0.len() - k,
                            {
                                result.push(wtv[k]);
                                proof {
                                    assert(res0 + wt0.take(k + 1) =~= (res0 + wt0.take(
                                        k as int,
                                    )).push(wt0[k as int]));
                                }
                                k = k + 1;
                            }
                            proof {
                                assert(wt0.take(wt0.len() as int) =~= wt0);
                                assert(result@ == res0 + wt0);
                                assert forall|e: int, t: WareType|
                                    0 <= e < es0.len() implies #[trigger] self.entities@[
                                e].amount_of(t) == es0[e].amount_of(t) - trades_out(
                                    result@,
                                    e,
                                    t,
                                ) + trades_in(result@, e, t) by {
                                    lemma_trades_concat(res0, wt0, e, t);
                                }
                                assert forall|j: int|
                                    0 <= j < result@.len() implies (#[trigger] result@[j]).amount
                                    > 0 && result@[j].entity_id < es0.len()
                                    && result@[j].ware_type != WareType::Money by {
                                    if j < res0.len() {
                                        assert(result@[j] == res0[j]);
                                    } else {
                                        assert(result@[j] == wt0[j - res0.len()]);
                                    }
                                }
                                assert forall|j1: int, j2: int|
                                    0 <= j1 < result@.len() && 0 <= j2 < result@.len() && (
                                #[trigger] result@[j1]).ware_type == (
                                #[trigger] result@[j2]).ware_type implies result@[j1].price
                                    == result@[j2].price by {
                                    if j1 < res0.len() && j2 >= res0.len() {
                                        assert(result@[j1].ware_type.rank_spec()
                                            < range.ware_type.rank_spec());
                                        assert(result@[j2].ware_type == range.ware_type);
                                        assert(false);
                                    }
                                    if j2 < res0.len() && j1 >= res0.len() {
                                        assert(result@[j2].ware_type.rank_spec()
                                            < range.ware_type.rank_spec());
                                        assert(result@[j1].ware_type == range.ware_type);
                                        assert(false);
                                    }
                                }
                                if it.index < n_off {
                                    assert forall|j: int|
                                        0 <= j < result@.len() implies (
                                    #[trigger] result@[j]).ware_type.rank_spec() < m[
                                    it.index as int].offer.ware_type.rank_spec() by {
                                        if j < res0.len() {
                                            assert(result@[j].ware_type.rank_spec()
                                                < range.ware_type.rank_spec());
                                        } else {
                                            assert(result@[j].ware_type == range.ware_type);
                                        }
                                    }
                                }
                                // the settled outcome of this commodity's window, and
                                // of every earlier one, over the grown trade list
                                assert forall|j: int|
                                    0 <= j < res0.len() implies (#[trigger] res0[j]).ware_type
                                    != range.ware_type by {
                                    assert(result@[j] == res0[j]);
                                }
                                assert forall|j: int|
                                    0 <= j < wt0.len() implies (#[trigger] wt0[j]).ware_type
                                    == range.ware_type by {}
                                assert forall|t: WareType|
                                    t != WareType::Money && #[trigger] book_prefix_has_type(
                                        m,
                                        it.index as int,
                                        t,
                                    ) implies exists|w: crate::ware_range::WareOfferRange|
                                    #[trigger] window_of(m, w) && w.ware_type == t
                                        && window_trades_outcome(m, result@, w) by {
                                    let k = choose|k: int|
                                        0 <= k < it.index && (#[trigger] m[k]).offer.ware_type
                                            == t;
                                    if idx0 <= k {
                                        assert(t == range.ware_type);
                                        lemma_window_outcome_frame(
                                            m,
                                            res0,
                                            wt0,
                                            Seq::empty(),
                                            range,
                                        );
                                        assert(res0 + wt0 + Seq::<Trade>::empty()
                                            =~= result@);
                                        assert(window_of(m, range) && range.ware_type == t
                                            && window_trades_outcome(m, result@, range));
                                    } else {
                                        if t == range.ware_type {
                                            assert(m[idx0 - 1].offer.ware_type
                                                != range.ware_type);
                                            assert(crate::market::offer_le(
                                                m[k],
                                                m[idx0 - 1],
                                            ));
                                            assert(crate::market::offer_le(
                                                m[idx0 - 1],
                                                m[idx0 as int],
                                            ));
                                            assert(m[k].offer.ware_type.rank_spec() <= m[idx0
                                                - 1].offer.ware_type.rank_spec());
                                            assert(m[idx0 - 1].offer.ware_type.rank_spec()
                                                <= range.ware_type.rank_spec());
                                            assert(false);
                                        }
                                        assert(book_prefix_has_type(m, idx0 as int, t));
                                        let w0 = choose|w0: crate::ware_range::WareOfferRange|
                                            #[trigger] window_of(m, w0) && w0.ware_type == t
                                                && window_trades_outcome(m, res0, w0);
                                        lemma_window_outcome_frame(
                                            m,
                                            Seq::empty(),
                                            res0,
                                            wt0,
                                            w0,
                                        );
                                        assert(Seq::<Trade>::empty() + res0 + wt0
                                            =~= result@);
                                        assert(window_of(m, w0) && w0.ware_type == t
                                            && window_trades_outcome(m, result@, w0));
                                    }
                                }
                                if backed {
                                    assert(m.subrange(idx0 as int, m.len() as int)
                                        =~= m.subrange(idx0 as int, range.buy_end as int)
                                        + m.subrange(range.buy_end as int, m.len() as int));
                                    assert(m.subrange(range.buy_end as int, m.len() as int)
                                        =~= m.subrange(
                                        range.buy_end as int,
                                        range.sell_end as int,
                                    ) + m.subrange(range.sell_end as int, m.len() as int));
                                    assert forall|e: int|
                                        0 <= e < es0.len() implies #[trigger] self.entities@[
                                    e].amount_of(WareType::Money)
                                        >= crate::trading::buy_commit(
                                        m.subrange(it.index as int, m.len() as int),
                                        e,
                                    ) by {
                                        crate::trading::lemma_buy_commit_concat(
                                            m.subrange(idx0 as int, range.buy_end as int),
                                            m.subrange(range.buy_end as int, m.len() as int),
                                            e,
                                        );
                                        crate::trading::lemma_buy_commit_concat(
                                            m.subrange(
                                                range.buy_end as int,
                                                range.sell_end as int,
                                            ),
                                            m.subrange(range.sell_end as int, m.len() as int),
                                            e,
                                        );
                                        lemma_buy_commit_sells_zero(
                                            m,
                                            range.buy_end as int,
                                            range.sell_end as int,
                                            e,
                                        );
                                    }
                                    if it.index < n_off {
                                        assert forall|e: int, t: WareType|
                                            0 <= e < es0.len() && t != WareType::Money
                                            && t.rank_spec() >= m[
                                            it.index as int].offer.ware_type.rank_spec() implies
                                            #[trigger] self.entities@[e].amount_of(t) == es0[
                                            e].amount_of(t) by {
                                            assert(range.ware_type.rank_spec() < m[
                                                it.index as int].offer.ware_type.rank_spec());
                                            assert(t != range.ware_type);
                                            assert(self.entities@[e].amount_of(t) == pre_es[
                                                e].amount_of(t));
                                            assert(pre_es[e].amount_of(t) == es0[e].amount_of(
                                                t,
                                            ));
                                        }
                                    }
                                }
                            }
                        }
                        Err(_) => {
                            proof {
                                if backed {
                                    assert(false);
                                }
                            }
                            return Err(());
                        }
                    }
                } else {
                    proof {
                        if backed {
                            assert(crate::trading::offer_ok(m[idx0 as int], es0));
                            assert(m[idx0 as int].offer.ware_type == range.ware_type);
                            assert(false);
                        }
                        assert forall|t: WareType|
                            t != WareType::Money && #[trigger] book_prefix_has_type(
                                m,
                                it.index as int,
                                t,
                            ) implies exists|w: crate::ware_range::WareOfferRange|
                            #[trigger] window_of(m, w) && w.ware_type == t
                                && window_trades_outcome(m, result@, w) by {
                            let k = choose|k: int|
                                0 <= k < it.index && (#[trigger] m[k]).offer.ware_type == t;
                            assert(k < idx0);
                            assert(book_prefix_has_type(m, idx0 as int, t));
                        }
                        if it.index < n_off {
                            assert forall|j: int|
                                0 <= j < result@.len() implies (
                            #[trigger] result@[j]).ware_type.rank_spec() < m[
                            it.index as int].offer.ware_type.rank_spec() by {
                                assert(result@[j].ware_type.rank_spec()
                                    < range.ware_type.rank_spec());
                            }
                        }
                    }
                }
            }
        }
    }
    proof {
        assert forall|t: WareType|
            t != WareType::Money && #[trigger] book_has_type(m, t) implies exists|
            w: crate::ware_range::WareOfferRange,
        |
            #[trigger] window_of(m, w) && w.ware_type == t && window_trades_outcome(
                m,
                result@,
                w,
            ) by {
            let k = choose|k: int| 0 <= k < m.len() && (#[trigger] m[k]).offer.ware_type == t;
            assert(book_prefix_has_type(m, n_off as int, t));
        }
    }
    Ok(result)
}

}

} // verus!
