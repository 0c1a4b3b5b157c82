//! The ware range partitioner: groups the sorted book into contiguous
//! per-commodity buy/sell windows, and each window's sell side into
//! ascending price tiers.  Windows and tiers are index ranges into the one
//! offer arena; no offers are copied to form them.

use vstd::prelude::*;
use crate::market::{offer_le, offers_sorted, Offer, OfferType};
use crate::ware::{WareAmount, WareType};

verus! {

/// One per-commodity window of the sorted book: the buy run, then the sell
/// run, as index ranges.
#[derive(Clone, Copy, Debug, PartialEq, Eq, Structural)]
pub struct WareOfferRange {
    pub ware_type: WareType,
    pub buy_start: usize,
    pub buy_end: usize,
    pub sell_start: usize,
    pub sell_end: usize,
}

/// The window is a well-formed pair of runs in book `s`: buys of the window
/// commodity, immediately followed by its sells, both maximal.
pub open spec fn range_wf(r: WareOfferRange, s: Seq<Offer>) -> bool {
    &&& r.buy_start <= r.buy_end == r.sell_start <= r.sell_end <= s.len()
    &&& forall|k: int|
        r.buy_start <= k < r.buy_end ==> (#[trigger] s[k]).offer.ware_type == r.ware_type
            && s[k].offer_type == OfferType::Buy
    &&& forall|k: int|
        r.sell_start <= k < r.sell_end ==> (#[trigger] s[k]).offer.ware_type == r.ware_type
            && s[k].offer_type == OfferType::Sell
}

impl WareOfferRange {
    pub fn ware_type(&self) -> (r: WareType)
        ensures
            r == self.ware_type,
    {
        self.ware_type
    }

    /// The buy run of this window, copied out for inspection.
    pub fn buy_offers(&self, offers: &Vec<Offer>) -> (r: Vec<Offer>)
        requires
            self.buy_start <= self.buy_end <= offers@.len(),
        ensures
            r@ == offers@.subrange(self.buy_start as int, self.buy_end as int),
    {
        copy_slice(offers, self.buy_start, self.buy_end)
    }

    /// The sell run of this window, copied out for inspection.
    pub fn sell_offers(&self, offers: &Vec<Offer>) -> (r: Vec<Offer>)
        requires
            self.sell_start <= self.sell_end <= offers@.len(),
        ensures
            r@ == offers@.subrange(self.sell_start as int, self.sell_end as int),
    {
        copy_slice(offers, self.sell_start, self.sell_end)
    }
}

fn copy_slice(offers: &Vec<Offer>, lo: usize, hi: usize) -> (r: Vec<Offer>)
    requires
        lo <= hi <= offers@.len(),
    ensures
        r@ == offers@.subrange(lo as int, hi as int),
{
    let mut r: Vec<Offer> = Vec::new();
    let mut i: usize = lo;
    while i < hi
        invariant
            lo <= i <= hi <= offers@.len(),
            r@ == offers@.subrange(lo as int, i as int),
        decreases hi - i,
    {
        r.push(offers[i]);
        proof {
            assert(offers@.subrange(lo as int, i + 1) =~= offers@.subrange(
                lo as int,
                i as int,
            ).push(offers@[i as int]));
        }
        i = i + 1;
    }
    r
}

/// A lazy, restartable cursor over the per-commodity windows of the sorted
/// book.
#[derive(Clone, Copy, Debug, Default, PartialEq, Eq, Structural)]
pub struct WareRangeIter {
    pub index: usize,
}

impl WareRangeIter {
    pub fn new() -> (r: Self)
        ensures
            r.index == 0,
    {
        WareRangeIter { index: 0 }
    }

    /// The next per-commodity window at or after the cursor: the maximal buy
    /// run and then the maximal sell run of the commodity found at the
    /// cursor.  Returns None when the book is exhausted.
    pub fn next(&mut self, offers: &Vec<Offer>) -> (r: Option<WareOfferRange>)
        ensures
            match r {
                Some(w) => {
                    &&& old(self).index < offers@.len()
                    &&& w.buy_start == old(self).index
                    &&& w.ware_type == offers@[old(self).index as int].offer.ware_type
                    &&& range_wf(w, offers@)
                    &&& w.buy_end == offers@.len() || !(offers@[w.buy_end as int].offer.ware_type
                        == w.ware_type && offers@[w.buy_end as int].offer_type == OfferType::Buy)
                    &&& w.sell_end == offers@.len() || !(offers@[w.sell_end as int].offer.ware_type
                        == w.ware_type && offers@[w.sell_end as int].offer_type == OfferType::Sell)
                    &&& w.sell_end > old(self).index
                    &&& final(self).index == w.sell_end
                },
                None => {
                    &&& old(self).index >= offers@.len()
                    &&& final(self).index == old(self).index
                },
            },
    {
        if self.index >= offers.len() {
            return None;
        }
        let start = self.index;
        let ware_type = offers[start].offer().ware_type();
        let mut i: usize = start;
        while i < offers.len() && offers[i].offer.ware_type == ware_type && matches!(
            offers[i].offer_type,
            OfferType::Buy,
        )
            invariant
                start <= i <= offers@.len(),
                forall|k: int|
                    start <= k < i ==> (#[trigger] offers@[k]).offer.ware_type == ware_type
                        && offers@[k].offer_type == OfferType::Buy,
            decreases offers@.len() - i,
        {
            i = i + 1;
        }
        let buy_end = i;
        while i < offers.len() && offers[i].offer.ware_type == ware_type && matches!(
            offers[i].offer_type,
            OfferType::Sell,
        )
            invariant
                buy_end <= i <= offers@.len(),
                forall|k: int|
                    buy_end <= k < i ==> (#[trigger] offers@[k]).offer.ware_type == ware_type
                        && offers@[k].offer_type == OfferType::Sell,
            decreases offers@.len() - i,
        {
            i = i + 1;
        }
        let sell_end = i;
        self.index = sell_end;
        Some(
            WareOfferRange {
                ware_type,
                buy_start: start,
                buy_end,
                sell_start: buy_end,
                sell_end,
            },
        )
    }
}

/// One resolved sell price tier within a window.  `sell_offset..sell_limit`
/// is the cumulative sell quantity available at a price at most `price`;
/// `buy_offset..buy_limit` are the buyers willing to pay at least `price`.
#[derive(Clone, Copy, Debug, PartialEq, Eq, Structural)]
pub struct SellOfferLimit {
    pub price: WareAmount,
    pub sell_offset: usize,
    pub sell_limit: usize,
    pub buy_offset: usize,
    pub buy_limit: usize,
}

/// The tier is well-formed for window `r` of book `s`.
pub open spec fn limit_wf(l: SellOfferLimit, s: Seq<Offer>, r: WareOfferRange) -> bool {
    &&& l.sell_offset == r.sell_start
    &&& l.sell_offset < l.sell_limit <= r.sell_end
    &&& r.buy_start <= l.buy_offset <= l.buy_limit == r.buy_end
    &&& s[l.sell_limit - 1].price_per_ware.amount == l.price
    &&& forall|k: int|
        l.sell_offset <= k < l.sell_limit ==> (#[trigger] s[k]).price_per_ware.amount <= l.price
    &&& forall|k: int|
        l.sell_limit <= k < r.sell_end ==> (#[trigger] s[k]).price_per_ware.amount > l.price
    &&& forall|k: int|
        l.buy_offset <= k < l.buy_limit ==> (#[trigger] s[k]).price_per_ware.amount >= l.price
    &&& forall|k: int|
        r.buy_start <= k < l.buy_offset ==> (#[trigger] s[k]).price_per_ware.amount < l.price
}

impl SellOfferLimit {
    pub fn price(&self) -> (r: WareAmount)
        ensures
            r == self.price,
    {
        self.price
    }

    pub fn sell_offset(&self) -> (r: usize)
        ensures
            r == self.sell_offset,
    {
        self.sell_offset
    }

    pub fn sell_limit(&self) -> (r: usize)
        ensures
            r == self.sell_limit,
    {
        self.sell_limit
    }

    pub fn buy_offset(&self) -> (r: usize)
        ensures
            r == self.buy_offset,
    {
        self.buy_offset
    }

    pub fn buy_limit(&self) -> (r: usize)
        ensures
            r == self.buy_limit,
    {
        self.buy_limit
    }

    /// The cumulative sell slice of this tier, copied out for inspection.
    pub fn sell_slice(&self, offers: &Vec<Offer>) -> (r: Vec<Offer>)
        requires
            self.sell_offset <= self.sell_limit <= offers@.len(),
        ensures
            r@ == offers@.subrange(self.sell_offset as int, self.sell_limit as int),
    {
        copy_slice(offers, self.sell_offset, self.sell_limit)
    }

    /// The in-the-money buy slice of this tier, copied out for inspection.
    pub fn buy_slice(&self, offers: &Vec<Offer>) -> (r: Vec<Offer>)
        requires
            self.buy_offset <= self.buy_limit <= offers@.len(),
        ensures
            r@ == offers@.subrange(self.buy_offset as int, self.buy_limit as int),
    {
        copy_slice(offers, self.buy_offset, self.buy_limit)
    }
}

/// Some listed tier has exactly this price.
pub open spec fn tier_price_present(ls: Seq<SellOfferLimit>, p: WareAmount) -> bool {
    exists|k: int| 0 <= k < ls.len() && (#[trigger] ls[k]).price == p
}

/// A window admits at most one well-formed tier per price: the cumulative
/// bounds in `limit_wf` pin every field once the price is fixed.
pub proof fn lemma_limit_wf_unique(
    l1: SellOfferLimit,
    l2: SellOfferLimit,
    s: Seq<Offer>,
    r: WareOfferRange,
)
    requires
        limit_wf(l1, s, r),
        limit_wf(l2, s, r),
        l1.price == l2.price,
    ensures
        l1 == l2,
{
    if l1.sell_limit < l2.sell_limit {
        assert(s[l1.sell_limit as int].price_per_ware.amount <= l1.price);
        assert(s[l1.sell_limit as int].price_per_ware.amount > l1.price);
    }
    if l2.sell_limit < l1.sell_limit {
        assert(s[l2.sell_limit as int].price_per_ware.amount <= l2.price);
        assert(s[l2.sell_limit as int].price_per_ware.amount > l2.price);
    }
    if l1.buy_offset < l2.buy_offset {
        assert(s[l1.buy_offset as int].price_per_ware.amount >= l1.price);
        assert(s[l1.buy_offset as int].price_per_ware.amount < l1.price);
    }
    if l2.buy_offset < l1.buy_offset {
        assert(s[l2.buy_offset as int].price_per_ware.amount >= l2.price);
        assert(s[l2.buy_offset as int].price_per_ware.amount < l2.price);
    }
}

/// Partitions the sell run of one window into its ascending price tiers.
/// Tier `k` covers every sell at a price at most the tier price, and every
/// buy at a price at least the tier price.
pub fn sell_offer_limits(offers: &Vec<Offer>, range: &WareOfferRange) -> (r: Vec<SellOfferLimit>)
    requires
        offers_sorted(offers@),
        range_wf(*range, offers@),
    ensures
        forall|k: int| 0 <= k < r@.len() ==> limit_wf(#[trigger] r@[k], offers@, *range),
        forall|k: int| 0 <= k < r@.len() - 1 ==> (#[trigger] r@[k]).price < r@[k + 1].price,
        forall|k: int| 0 <= k < r@.len() - 1 ==> (#[trigger] r@[k]).sell_limit < r@[k + 1].sell_limit,
        range.sell_start < range.sell_end ==> r@.len() > 0 && r@.last().sell_limit
            == range.sell_end,
        range.sell_start == range.sell_end ==> r@.len() == 0,
        forall|j: int|
            range.sell_start <= j < range.sell_end ==> #[trigger] tier_price_present(
                r@,
                offers@[j].price_per_ware.amount,
            ),
{
    let mut result: Vec<SellOfferLimit> = Vec::new();
    let mut k: usize = range.sell_start;
    let mut boff: usize = range.buy_start;
    while k < range.sell_end
        invariant
            offers_sorted(offers@),
            range_wf(*range, offers@),
            range.sell_start <= k <= range.sell_end,
            range.buy_start <= boff <= range.buy_end,
            forall|j: int| 0 <= j < result@.len() ==> limit_wf(
                #[trigger] result@[j],
                offers@,
                *range,
            ),
            forall|j: int|
                0 <= j < result@.len() - 1 ==> (#[trigger] result@[j]).price < result@[j
                    + 1].price,
            forall|j: int|
                0 <= j < result@.len() - 1 ==> (#[trigger] result@[j]).sell_limit < result@[j
                    + 1].sell_limit,
            result@.len() == 0 ==> k == range.sell_start && boff == range.buy_start,
            result@.len() > 0 ==> k == result@.last().sell_limit && boff
                == result@.last().buy_offset && k > range.sell_start,
            k < range.sell_end && result@.len() > 0 ==> result@.last().price
                < offers@[k as int].price_per_ware.amount,
            forall|j: int|
                range.sell_start <= j < k ==> #[trigger] tier_price_present(
                    result@,
                    offers@[j].price_per_ware.amount,
                ),
            decreases range.sell_end - k,
    {
        let price = offers[k].price_per_ware.amount;
        let mut end: usize = k;
        while end < range.sell_end && offers[end].price_per_ware.amount == price
            invariant
                k <= end <= range.sell_end <= offers@.len(),
                forall|j: int|
                    k <= j < end ==> (#[trigger] offers@[j]).price_per_ware.amount == price,
            decreases range.sell_end - end,
        {
            end = end + 1;
        }
        while boff < range.buy_end && offers[boff].price_per_ware.amount < price
            invariant
                range.buy_start <= boff <= range.buy_end <= offers@.len(),
                forall|j: int|
                    range.buy_start <= j < boff ==> (#[trigger] offers@[j]).price_per_ware.amount
                        < price,
            decreases range.buy_end - boff,
        {
            boff = boff + 1;
        }
        let limit = SellOfferLimit {
            price,
            sell_offset: range.sell_start,
            sell_limit: end,
            buy_offset: boff,
            buy_limit: range.buy_end,
        };
        proof {
            assert forall|j: int| range.sell_start <= j < end implies (#[trigger] offers@[j]).price_per_ware.amount
                <= price by {
                if j < k {
                    assert(offer_le(offers@[j], offers@[k as int]));
                }
            }
            if end < range.sell_end {
                assert(offers@[end as int].price_per_ware.amount != price);
                assert(end > k) by {
                    assert(offers@[k as int].price_per_ware.amount == price);
                }
                assert(offer_le(offers@[end as int - 1], offers@[end as int]));
                assert(offers@[end as int].price_per_ware.amount > price);
            }
            assert forall|j: int| end <= j < range.sell_end implies (#[trigger] offers@[j]).price_per_ware.amount
                > price by {
                if j > end {
                    assert(offer_le(offers@[end as int], offers@[j]));
                }
            }
            assert forall|j: int| boff <= j < range.buy_end implies (#[trigger] offers@[j]).price_per_ware.amount
                >= price by {
                assert(offer_le(offers@[boff as int], offers@[j]));
            }
            assert(limit_wf(limit, offers@, *range));
        }
        let ghost res0 = result@;
        result.push(limit);
        proof {
            assert forall|j: int|
                range.sell_start <= j < end implies #[trigger] tier_price_present(
                result@,
                offers@[j].price_per_ware.amount,
            ) by {
                if j < k {
                    assert(tier_price_present(res0, offers@[j].price_per_ware.amount));
                    let x = choose|x: int|
                        0 <= x < res0.len() && (#[trigger] res0[x]).price == offers@[
                            j].price_per_ware.amount;
                    assert(result@[x].price == offers@[j].price_per_ware.amount);
                } else {
                    assert(offers@[j].price_per_ware.amount == price);
                    assert(result@[result@.len() - 1].price == price);
                }
            }
        }
        k = end;
        proof {
            if k < range.sell_end {
                assert(offer_le(offers@[end as int - 1], offers@[k as int]));
            }
        }
    }
    result
}

} // verus!
