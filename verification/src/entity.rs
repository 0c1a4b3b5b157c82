//! An economic agent: a named inventory with buy/sell price policies, the
//! recipes it runs, and the offers it currently has on the market.

use vstd::prelude::*;
use crate::prices::PriceTable;
use crate::recipe::Recipe;
use crate::ware::{seq_ware_amount, Ware, WareStore, WareType};

verus! {

/// An offer's position at creation time within the current book; valid only
/// until the book is next cleared.
pub type OfferId = usize;

/// A stable dense index into the world's entity list, assigned at creation
/// and never reused within a world's lifetime.
pub type EntityId = usize;

#[derive(Clone, Debug, Default)]
pub struct Entity {
    name: String,
    wares: WareStore,
    buy_prices: PriceTable,
    sell_prices: PriceTable,
    recipes: Vec<Recipe>,
    offer_ids: Vec<OfferId>,
}

impl Entity {
    pub closed spec fn spec_name(&self) -> String {
        self.name
    }

    pub closed spec fn spec_wares(&self) -> WareStore {
        self.wares
    }

    pub closed spec fn spec_buy_prices(&self) -> PriceTable {
        self.buy_prices
    }

    pub closed spec fn spec_sell_prices(&self) -> PriceTable {
        self.sell_prices
    }

    pub closed spec fn spec_recipes(&self) -> Seq<Recipe> {
        self.recipes@
    }

    pub closed spec fn spec_offer_ids(&self) -> Seq<OfferId> {
        self.offer_ids@
    }

    pub open spec fn wf(&self) -> bool {
        self.spec_wares().wf() && self.spec_buy_prices().wf() && self.spec_sell_prices().wf()
    }

    /// Quantity of commodity `t` this entity holds.
    pub open spec fn amount_of(&self, t: WareType) -> int {
        self.spec_wares().amount_of(t)
    }

    pub fn new(name: String, recipes: Vec<Recipe>) -> (r: Self)
        ensures
            r.wf(),
            r.spec_name() == name,
            r.spec_wares()@ == Seq::<Ware>::empty(),
            forall|t: WareType| r.amount_of(t) == 0,
            forall|t: WareType| r.spec_buy_prices().single_price_spec(t) == t.default_price_spec(),
            forall|t: WareType| r.spec_sell_prices().single_price_spec(t)
                == t.default_price_spec(),
            r.spec_recipes() == recipes@,
            r.spec_offer_ids() == Seq::<OfferId>::empty(),
    {
        Entity {
            name,
            wares: WareStore::new(),
            buy_prices: PriceTable::new(),
            sell_prices: PriceTable::new(),
            recipes,
            offer_ids: Vec::new(),
        }
    }

    /// Adds the given ware to this entity's inventory.
    pub fn add_ware(&mut self, ware: Ware)
        requires
            old(self).wf(),
            old(self).amount_of(ware.ware_type) + ware.amount <= u32::MAX,
        ensures
            final(self).wf(),
            final(self).amount_of(ware.ware_type) == old(self).amount_of(ware.ware_type)
                + ware.amount,
            forall|t: WareType|
                t != ware.ware_type ==> final(self).amount_of(t) == old(self).amount_of(t),
            final(self).spec_name() == old(self).spec_name(),
            final(self).spec_buy_prices() == old(self).spec_buy_prices(),
            final(self).spec_sell_prices() == old(self).spec_sell_prices(),
            final(self).spec_recipes() == old(self).spec_recipes(),
            final(self).spec_offer_ids() == old(self).spec_offer_ids(),
    {
        self.wares.push_ware(ware);
    }

    /// Removes exactly the given ware; fails without mutation when short.
    pub fn remove_ware(&mut self, ware: Ware) -> (r: Result<Ware, ()>)
        requires
            old(self).wf(),
        ensures
            final(self).wf(),
            r.is_ok() <==> old(self).amount_of(ware.ware_type) >= ware.amount,
            r.is_ok() ==> {
                &&& r == Ok::<Ware, ()>(ware)
                &&& final(self).amount_of(ware.ware_type) == old(self).amount_of(ware.ware_type)
                    - ware.amount
                &&& forall|t: WareType|
                    t != ware.ware_type ==> final(self).amount_of(t) == old(self).amount_of(t)
            },
            r.is_err() ==> *final(self) == *old(self),
            final(self).spec_name() == old(self).spec_name(),
            final(self).spec_buy_prices() == old(self).spec_buy_prices(),
            final(self).spec_sell_prices() == old(self).spec_sell_prices(),
            final(self).spec_recipes() == old(self).spec_recipes(),
            final(self).spec_offer_ids() == old(self).spec_offer_ids(),
    {
        self.wares.pop_ware(ware)
    }

    /// Records a newly created market offer as owned by this entity.
    pub fn add_offer_id(&mut self, offer_id: OfferId)
        ensures
            final(self).spec_offer_ids() == old(self).spec_offer_ids().push(offer_id),
            final(self).spec_name() == old(self).spec_name(),
            final(self).spec_wares() == old(self).spec_wares(),
            final(self).spec_buy_prices() == old(self).spec_buy_prices(),
            final(self).spec_sell_prices() == old(self).spec_sell_prices(),
            final(self).spec_recipes() == old(self).spec_recipes(),
    {
        self.offer_ids.push(offer_id);
    }

    /// Forgets all offers from the previous trading day.
    pub fn clear_offer_ids(&mut self)
        ensures
            final(self).spec_offer_ids() == Seq::<OfferId>::empty(),
            final(self).spec_name() == old(self).spec_name(),
            final(self).spec_wares() == old(self).spec_wares(),
            final(self).spec_buy_prices() == old(self).spec_buy_prices(),
            final(self).spec_sell_prices() == old(self).spec_sell_prices(),
            final(self).spec_recipes() == old(self).spec_recipes(),
    {
        self.offer_ids.clear();
    }

    pub fn buy_prices_mut(&mut self) -> (r: &mut PriceTable)
        ensures
            *r == old(self).spec_buy_prices(),
            final(self).spec_buy_prices() == *final(r),
            final(self).spec_name() == old(self).spec_name(),
            final(self).spec_wares() == old(self).spec_wares(),
            final(self).spec_sell_prices() == old(self).spec_sell_prices(),
            final(self).spec_recipes() == old(self).spec_recipes(),
            final(self).spec_offer_ids() == old(self).spec_offer_ids(),
    {
        &mut self.buy_prices
    }

    pub fn sell_prices_mut(&mut self) -> (r: &mut PriceTable)
        ensures
            *r == old(self).spec_sell_prices(),
            final(self).spec_sell_prices() == *final(r),
            final(self).spec_name() == old(self).spec_name(),
            final(self).spec_wares() == old(self).spec_wares(),
            final(self).spec_buy_prices() == old(self).spec_buy_prices(),
            final(self).spec_recipes() == old(self).spec_recipes(),
            final(self).spec_offer_ids() == old(self).spec_offer_ids(),
    {
        &mut self.sell_prices
    }

    /// Splits this entity's holdings against its aggregate recipe input
    /// demand.  With reserved(t) = min(inventory(t), demand(t)): the first
    /// result is the tradable surplus (inventory minus reserved) and the
    /// second the unmet demand (demand minus reserved).  The entity itself
    /// is not changed.
    pub fn tradable_wares_and_unmet_demands(&self) -> (r: (WareStore, WareStore))
        requires
            self.wf(),
            forall|t: WareType|
                crate::recipe::recipes_demand(self.spec_recipes(), t) <= u32::MAX,
        ensures
            r.0.wf(),
            r.1.wf(),
            forall|t: WareType| #[trigger] r.0.amount_of(t) == self.amount_of(t)
                - vstd::math::min(
                self.amount_of(t),
                crate::recipe::recipes_demand(self.spec_recipes(), t),
            ),
            forall|t: WareType| #[trigger] r.1.amount_of(t) == crate::recipe::recipes_demand(
                self.spec_recipes(),
                t,
            ) - vstd::math::min(
                self.amount_of(t),
                crate::recipe::recipes_demand(self.spec_recipes(), t),
            ),
    {
        let ghost rs = self.spec_recipes();
        let mut demands = WareStore::new();
        proof {
            assert forall|t: WareType| #[trigger] demands.amount_of(t) == crate::recipe::recipes_demand(
                rs.take(0),
                t,
            ) by {
                assert(rs.take(0).len() == 0);
            }
        }
        let mut i: usize = 0;
        while i < self.recipes.len()
            invariant
                self.wf(),
                forall|t: WareType| crate::recipe::recipes_demand(rs, t) <= u32::MAX,
                rs == self.spec_recipes(),
                i <= rs.len(),
                demands.wf(),
                forall|t: WareType| #[trigger] demands.amount_of(t)
                    == crate::recipe::recipes_demand(rs.take(i as int), t),
            decreases rs.len() - i,
        {
            let inputs = self.recipes[i].inputs();
            let ghost inp = rs[i as int].spec_inputs();
            let mut j: usize = 0;
            while j < inputs.len()
                invariant
                    forall|t: WareType| crate::recipe::recipes_demand(rs, t) <= u32::MAX,
                    i < rs.len(),
                    j <= inp.len(),
                    inputs@ == inp,
                    inp == rs[i as int].spec_inputs(),
                    demands.wf(),
                    forall|t: WareType| #[trigger] demands.amount_of(t)
                        == crate::recipe::recipes_demand(rs.take(i as int), t) + seq_ware_amount(
                        inp.take(j as int),
                        t,
                    ),
                decreases inp.len() - j,
            {
                proof {
                    let t0 = inp[j as int].ware_type;
                    assert(inp.take(j + 1) =~= inp.take(j as int).push(inp[j as int]));
                    crate::ware::lemma_seq_ware_amount_push(inp.take(j as int), inp[j as int], t0);
                    crate::ware::lemma_seq_ware_amount_take_le(inp, j + 1, t0);
                    crate::recipe::lemma_recipes_demand_take_step(rs, i as int, t0);
                    crate::recipe::lemma_recipes_demand_take_le(rs, i as int + 1, t0);
                }
                demands.push_ware(inputs[j]);
                proof {
                    assert(inp.take(j + 1) =~= inp.take(j as int).push(inp[j as int]));
                    assert forall|t: WareType| #[trigger] demands.amount_of(t)
                        == crate::recipe::recipes_demand(rs.take(i as int), t) + seq_ware_amount(
                        inp.take(j + 1),
                        t,
                    ) by {
                        crate::ware::lemma_seq_ware_amount_push(
                            inp.take(j as int),
                            inp[j as int],
                            t,
                        );
                    }
                }
                j = j + 1;
            }
            proof {
                assert(inp.take(inp.len() as int) =~= inp);
                assert forall|t: WareType| #[trigger] demands.amount_of(t)
                    == crate::recipe::recipes_demand(rs.take(i + 1), t) by {
                    crate::recipe::lemma_recipes_demand_take_step(rs, i as int, t);
                }
            }
            i = i + 1;
        }
        proof {
            assert(rs.take(rs.len() as int) =~= rs);
        }
        let mut tradable = self.wares.duplicate();
        let _reserved = tradable.pop_wares_max(&mut demands);
        (tradable, demands)
    }

    pub fn name(&self) -> (r: &String)
        ensures
            *r == self.spec_name(),
    {
        &self.name
    }

    pub fn wares(&self) -> (r: &WareStore)
        ensures
            *r == self.spec_wares(),
    {
        &self.wares
    }

    pub fn buy_prices(&self) -> (r: &PriceTable)
        ensures
            *r == self.spec_buy_prices(),
    {
        &self.buy_prices
    }

    pub fn sell_prices(&self) -> (r: &PriceTable)
        ensures
            *r == self.spec_sell_prices(),
    {
        &self.sell_prices
    }

    pub fn recipes(&self) -> (r: &Vec<Recipe>)
        ensures
            r@ == self.spec_recipes(),
    {
        &self.recipes
    }

    pub fn offer_ids(&self) -> (r: &Vec<OfferId>)
        ensures
            r@ == self.spec_offer_ids(),
    {
        &self.offer_ids
    }
}

} // verus!
