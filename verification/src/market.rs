//! The offer book: all active trade intents for the current trading day,
//! kept in the matching-friendly order (commodity, side, price ascending).

use vstd::prelude::*;
use crate::entity::{EntityId, OfferId};
use crate::ware::{Ware, WareAmount, WareType};

verus! {

/// The side of an offer: an intent to buy or to sell.
#[derive(Clone, Copy, Debug, PartialEq, Eq, Structural)]
pub enum OfferType {
    Buy,
    Sell,
}

impl OfferType {
    /// Buy offers sort before sell offers within one commodity group.
    pub open spec fn rank_spec(self) -> int {
        match self {
            OfferType::Buy => 0,
            OfferType::Sell => 1,
        }
    }
}

/// An immutable trade intent: a commodity quantity, a side, a unit price in
/// Money, and the owning entity.
#[derive(Clone, Copy, Debug, PartialEq, Eq, Structural)]
pub struct Offer {
    pub offer: Ware,
    pub offer_type: OfferType,
    pub price_per_ware: Ware,
    pub entity_id: EntityId,
}

impl Offer {
    pub fn new(offer: Ware, offer_type: OfferType, price_per_ware: Ware, entity_id: EntityId) -> (r: Self)
        ensures
            r == (Offer { offer, offer_type, price_per_ware, entity_id }),
    {
        Self { offer, offer_type, price_per_ware, entity_id }
    }

    pub fn offer(&self) -> (r: &Ware)
        ensures
            *r == self.offer,
    {
        &self.offer
    }

    pub fn offer_type(&self) -> (r: OfferType)
        ensures
            r == self.offer_type,
    {
        self.offer_type
    }

    pub fn amount(&self) -> (r: WareAmount)
        ensures
            r == self.offer.amount,
    {
        self.offer.amount()
    }

    pub fn price_per_ware(&self) -> (r: &Ware)
        ensures
            *r == self.price_per_ware,
    {
        &self.price_per_ware
    }

    /// The total price of the full offered quantity.
    pub fn total_price(&self) -> (r: Ware)
        requires
            self.price_per_ware.amount * self.offer.amount <= u32::MAX,
        ensures
            r.ware_type == self.price_per_ware.ware_type,
            r.amount == self.price_per_ware.amount * self.offer.amount,
    {
        Ware::new(
            self.price_per_ware.ware_type(),
            self.price_per_ware.amount() * self.offer.amount(),
        )
    }

    pub fn entity_id(&self) -> (r: EntityId)
        ensures
            r == self.entity_id,
    {
        self.entity_id
    }
}

/// The book ordering: by commodity type, then side (buys first), then unit
/// price ascending.
pub open spec fn offer_le(a: Offer, b: Offer) -> bool {
    let ta = a.offer.ware_type.rank_spec();
    let tb = b.offer.ware_type.rank_spec();
    let sa = a.offer_type.rank_spec();
    let sb = b.offer_type.rank_spec();
    ta < tb || (ta == tb && (sa < sb || (sa == sb && a.price_per_ware.amount
        <= b.price_per_ware.amount)))
}

/// `offer_le` is a total preorder.
pub proof fn lemma_offer_le_total(a: Offer, b: Offer)
    ensures
        offer_le(a, b) || offer_le(b, a),
{
}

pub proof fn lemma_offer_le_trans(a: Offer, b: Offer, c: Offer)
    requires
        offer_le(a, b),
        offer_le(b, c),
    ensures
        offer_le(a, c),
{
}

/// The book is ordered when every pair of positions respects `offer_le`.
pub open spec fn offers_sorted(s: Seq<Offer>) -> bool {
    forall|i: int, j: int| 0 <= i < j < s.len() ==> offer_le(s[i], s[j])
}

/// Every offer in the book carries a positive quantity.
pub open spec fn offers_positive(s: Seq<Offer>) -> bool {
    forall|i: int| 0 <= i < s.len() ==> s[i].offer.amount > 0
}

/// The collection of all active offers for the current trading day.
#[derive(Clone, Debug, Default, PartialEq, Eq)]
pub struct Market {
    offers: Vec<Offer>,
}

impl View for Market {
    type V = Seq<Offer>;

    closed spec fn view(&self) -> Seq<Offer> {
        self.offers@
    }
}

impl Market {
    /// Every offer ever placed has amount > 0; the book never stores an
    /// empty intent.
    pub open spec fn wf(&self) -> bool {
        offers_positive(self@)
    }

    pub fn new() -> (r: Self)
        ensures
            r@ == Seq::<Offer>::empty(),
            r.wf(),
    {
        Market { offers: Vec::new() }
    }

    /// Places a new offer in the book and returns its id: its position at
    /// creation time, valid until the book is next cleared.
    pub fn create_offer(
        &mut self,
        offer: Ware,
        offer_type: OfferType,
        price_per_ware: Ware,
        entity_id: EntityId,
    ) -> (r: OfferId)
        requires
            old(self).wf(),
            offer.amount > 0,
            old(self)@.len() < usize::MAX,
        ensures
            final(self).wf(),
            r == old(self)@.len(),
            final(self)@ == old(self)@.push(
                Offer { offer, offer_type, price_per_ware, entity_id },
            ),
    {
        let offer_id: OfferId = self.offers.len();
        self.offers.push(Offer::new(offer, offer_type, price_per_ware, entity_id));
        offer_id
    }

    /// Empties the book at the start of a trading day; no offer survives
    /// across days.
    pub fn clear_offers(&mut self)
        ensures
            final(self)@ == Seq::<Offer>::empty(),
            final(self).wf(),
    {
        self.offers.clear();
    }

    pub fn offers(&self) -> (r: &Vec<Offer>)
        ensures
            r@ == self@,
    {
        &self.offers
    }

    pub fn offers_mut(&mut self) -> (r: &mut Vec<Offer>)
        ensures
            r@ == old(self)@,
            final(self)@ == final(r)@,
    {
        &mut self.offers
    }

    /// Sorts the book by (commodity, side, price ascending).  The offers
    /// themselves are exactly those placed, rearranged.
    pub fn order_offers(&mut self)
        requires
            old(self).wf(),
        ensures
            final(self).wf(),
            final(self)@.to_multiset() == old(self)@.to_multiset(),
            final(self)@.len() == old(self)@.len(),
            offers_sorted(final(self)@),
    {
        let n = self.offers.len();
        if n <= 1 {
            return;
        }
        let mut i: usize = 1;
        while i < n
            invariant
                1 <= i <= n,
                n == self@.len(),
                self@.to_multiset() == old(self)@.to_multiset(),
                offers_positive(self@),
                forall|p: int, q: int| 0 <= p < q < i ==> offer_le(self@[p], self@[q]),
            decreases n - i,
        {
            let mut j: usize = i;
            while j > 0 && !offer_le_exec(&self.offers[j - 1], &self.offers[j])
                invariant
                    j <= i < n,
                    n == self@.len(),
                    self@.to_multiset() == old(self)@.to_multiset(),
                    offers_positive(self@),
                    forall|p: int, q: int|
                        0 <= p < q <= i && q != j ==> offer_le(self@[p], self@[q]),
                decreases j,
            {
                let a = self.offers[j - 1];
                let b = self.offers[j];
                let ghost s0 = self@;
                self.offers[j - 1] = b;
                self.offers[j] = a;
                proof {
                    broadcast use vstd::multiset::group_multiset_axioms;

                    let s1 = s0.update(j - 1, b);
                    let s2 = s1.update(j as int, a);
                    vstd::seq_lib::to_multiset_update(s0, j - 1, b);
                    vstd::seq_lib::to_multiset_update(s1, j as int, a);
                    assert(s0[j as int - 1] == a);
                    assert(s1[j as int] == b);
                    s0.to_multiset_ensures();
                    assert(s0.contains(a));
                    assert(s0.to_multiset().count(a) > 0);
                    assert(s1.to_multiset() == s0.to_multiset().insert(b).remove(a));
                    assert(s2.to_multiset() == s1.to_multiset().insert(a).remove(b));
                    assert(s2.to_multiset() =~= s0.to_multiset());
                    assert forall|p: int, q: int|
                        0 <= p < q <= i && q != j - 1 implies offer_le(self@[p], self@[q]) by {
                        lemma_offer_le_total(a, b);
                        if q == j {
                            if p == j - 1 {
                            } else {
                                assert(offer_le(s0[p], s0[j - 1]));
                            }
                        }
                    }
                }
                j = j - 1;
            }
            proof {
                assert forall|p: int, q: int| 0 <= p < q <= i implies offer_le(
                    self@[p],
                    self@[q],
                ) by {
                    if q == j {
                        if j > 0 {
                            assert(offer_le(self@[j as int - 1], self@[j as int]));
                            if p < j as int - 1 {
                                assert(offer_le(self@[p], self@[j as int - 1]));
                                lemma_offer_le_trans(
                                    self@[p],
                                    self@[j as int - 1],
                                    self@[j as int],
                                );
                            }
                        }
                    }
                }
            }
            i = i + 1;
        }
    }
}

/// Executable comparison matching `offer_le`.
fn offer_le_exec(a: &Offer, b: &Offer) -> (r: bool)
    ensures
        r == offer_le(*a, *b),
{
    let ta = a.offer.ware_type.rank();
    let tb = b.offer.ware_type.rank();
    let sa = match a.offer_type {
        OfferType::Buy => 0u32,
        OfferType::Sell => 1u32,
    };
    let sb = match b.offer_type {
        OfferType::Buy => 0u32,
        OfferType::Sell => 1u32,
    };
    ta < tb || (ta == tb && (sa < sb || (sa == sb && a.price_per_ware.amount
        <= b.price_per_ware.amount)))
}

} // verus!
