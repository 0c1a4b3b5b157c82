//! Per-entity unit prices with a type-level default fallback.

use vstd::prelude::*;
use crate::ware::{Ware, WareAmount, WareType};

verus! {

/// A price table entry: a commodity type and its unit price in Money.
pub type PriceEntry = (WareType, WareAmount);

/// First entry of `s` whose key is `t`, if any.
pub open spec fn seq_price_lookup(s: Seq<PriceEntry>, t: WareType) -> Option<WareAmount>
    decreases s.len(),
{
    if s.len() == 0 {
        None
    } else if s[0].0 == t {
        Some(s[0].1)
    } else {
        seq_price_lookup(s.drop_first(), t)
    }
}

pub open spec fn price_keys_distinct(s: Seq<PriceEntry>) -> bool {
    forall|i: int, j: int| 0 <= i < j < s.len() ==> s[i].0 != s[j].0
}

pub open spec fn prices_positive(s: Seq<PriceEntry>) -> bool {
    forall|i: int| 0 <= i < s.len() ==> s[i].1 >= 1
}

proof fn lemma_lookup_absent(s: Seq<PriceEntry>, t: WareType)
    requires
        forall|j: int| 0 <= j < s.len() ==> s[j].0 != t,
    ensures
        seq_price_lookup(s, t) is None,
    decreases s.len(),
{
    if s.len() > 0 {
        lemma_lookup_absent(s.drop_first(), t);
    }
}

proof fn lemma_lookup_first(s: Seq<PriceEntry>, t: WareType, i: int)
    requires
        0 <= i < s.len(),
        s[i].0 == t,
        forall|j: int| 0 <= j < i ==> s[j].0 != t,
    ensures
        seq_price_lookup(s, t) == Some(s[i].1),
    decreases s.len(),
{
    if i > 0 {
        lemma_lookup_first(s.drop_first(), t, i - 1);
    }
}

proof fn lemma_lookup_update_same_key(s: Seq<PriceEntry>, i: int, e: PriceEntry, u: WareType)
    requires
        0 <= i < s.len(),
        e.0 == s[i].0,
        price_keys_distinct(s),
    ensures
        seq_price_lookup(s.update(i, e), u) == if u == e.0 {
            Some(e.1)
        } else {
            seq_price_lookup(s, u)
        },
    decreases s.len(),
{
    let su = s.update(i, e);
    if i == 0 {
        assert(su.drop_first() =~= s.drop_first());
        if u == e.0 {
        } else {
        }
    } else {
        assert(su.drop_first() =~= s.drop_first().update(i - 1, e));
        lemma_lookup_update_same_key(s.drop_first(), i - 1, e, u);
    }
}

proof fn lemma_lookup_push(s: Seq<PriceEntry>, e: PriceEntry, u: WareType)
    requires
        forall|j: int| 0 <= j < s.len() ==> s[j].0 != e.0,
    ensures
        seq_price_lookup(s.push(e), u) == if u == e.0 {
            Some(e.1)
        } else {
            seq_price_lookup(s, u)
        },
    decreases s.len(),
{
    if s.len() == 0 {
        assert(s.push(e).len() == 1);
        assert(s.push(e)[0] == e);
        if u == e.0 {
            assert(seq_price_lookup(s.push(e), u) == Some(e.1));
        } else {
            assert(s.push(e).drop_first() =~= Seq::<PriceEntry>::empty());
            assert(seq_price_lookup(Seq::<PriceEntry>::empty(), u) is None);
            assert(seq_price_lookup(s.push(e), u) is None);
            assert(seq_price_lookup(s, u) is None);
        }
    } else {
        assert(s.push(e)[0] == s[0]);
        assert(s.push(e).drop_first() =~= s.drop_first().push(e));
        lemma_lookup_push(s.drop_first(), e, u);
        assert(seq_price_lookup(s.push(e), u) == if u == s[0].0 {
            Some(s[0].1)
        } else {
            seq_price_lookup(s.drop_first().push(e), u)
        });
    }
}

/// Per-commodity unit prices; unset types fall back to the type default.
#[derive(Clone, Debug, Default)]
pub struct PriceTable {
    prices: Vec<PriceEntry>,
}

impl View for PriceTable {
    type V = Seq<PriceEntry>;

    closed spec fn view(&self) -> Seq<PriceEntry> {
        self.prices@
    }
}

impl PriceTable {
    /// Every explicit price is at least one unit of Money, and each type has
    /// at most one entry.
    pub open spec fn wf(&self) -> bool {
        price_keys_distinct(self@) && prices_positive(self@)
    }

    /// The unit price for `t`: the explicit entry, or the type default.
    pub open spec fn single_price_spec(&self, t: WareType) -> int {
        match seq_price_lookup(self@, t) {
            Some(p) => p as int,
            None => t.default_price_spec(),
        }
    }

    pub fn new() -> (r: Self)
        ensures
            r.wf(),
            r@ == Seq::<PriceEntry>::empty(),
            forall|t: WareType| r.single_price_spec(t) == t.default_price_spec(),
    {
        PriceTable { prices: Vec::new() }
    }

    fn find_index(&self, t: WareType) -> (r: Option<usize>)
        ensures
            match r {
                Some(i) => i < self@.len() && self@[i as int].0 == t && (forall|j: int|
                    0 <= j < i ==> self@[j].0 != t),
                None => forall|j: int| 0 <= j < self@.len() ==> self@[j].0 != t,
            },
    {
        let mut i: usize = 0;
        while i < self.prices.len()
            invariant
                i <= self@.len(),
                forall|j: int| 0 <= j < i ==> self@[j].0 != t,
            decreases self@.len() - i,
        {
            if self.prices[i].0 == t {
                return Some(i);
            }
            i = i + 1;
        }
        None
    }

    /// Sets the explicit unit price for one commodity type.
    pub fn set_single_price(&mut self, ware_type: WareType, price: WareAmount)
        requires
            old(self).wf(),
            price >= 1,
        ensures
            final(self).wf(),
            final(self).single_price_spec(ware_type) == price,
            forall|u: WareType|
                u != ware_type ==> final(self).single_price_spec(u) == old(
                    self,
                ).single_price_spec(u),
    {
        match self.find_index(ware_type) {
            Some(i) => {
                let ghost s0 = self@;
                self.prices[i] = (ware_type, price);
                proof {
                    assert forall|u: WareType| true implies #[trigger] seq_price_lookup(self@, u)
                        == if u == ware_type {
                        Some(price)
                    } else {
                        seq_price_lookup(s0, u)
                    } by {
                        lemma_lookup_update_same_key(s0, i as int, (ware_type, price), u);
                    }
                }
            }
            None => {
                let ghost s0 = self@;
                self.prices.push((ware_type, price));
                proof {
                    assert forall|u: WareType| true implies #[trigger] seq_price_lookup(self@, u)
                        == if u == ware_type {
                        Some(price)
                    } else {
                        seq_price_lookup(s0, u)
                    } by {
                        lemma_lookup_push(s0, (ware_type, price), u);
                    }
                }
            }
        }
    }

    /// The unit price for a commodity type.
    pub fn single_price(&self, ware_type: WareType) -> (r: WareAmount)
        requires
            self.wf(),
        ensures
            r == self.single_price_spec(ware_type),
            r >= 1,
    {
        match self.find_index(ware_type) {
            Some(i) => {
                proof {
                    lemma_lookup_first(self@, ware_type, i as int);
                }
                self.prices[i].1
            }
            None => {
                proof {
                    lemma_lookup_absent(self@, ware_type);
                }
                ware_type.default_price()
            }
        }
    }

    /// The unit price of `ware`'s type, denominated as a Money ware.
    pub fn single_price_as_ware(&self, ware: &Ware) -> (r: Ware)
        requires
            self.wf(),
        ensures
            r.ware_type == WareType::Money,
            r.amount == self.single_price_spec(ware.ware_type),
            r.amount >= 1,
    {
        Ware::new(WareType::Money, self.single_price(ware.ware_type()))
    }

    /// The total price of `ware` (unit price times quantity), in Money.
    pub fn price(&self, ware: &Ware) -> (r: Ware)
        requires
            self.wf(),
            ware.amount * self.single_price_spec(ware.ware_type) <= u32::MAX,
        ensures
            r.ware_type == WareType::Money,
            r.amount == ware.amount * self.single_price_spec(ware.ware_type),
    {
        Ware::new(WareType::Money, ware.amount() * self.single_price(ware.ware_type()))
    }
}

} // verus!
