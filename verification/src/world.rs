//! The world: the entity population and the offer book for one tick.

use vstd::prelude::*;
use crate::entity::{Entity, EntityId, OfferId};
use crate::market::{Market, Offer, OfferType};
use crate::recipe::Recipe;
use crate::ware::{Ware, WareType};

verus! {

#[derive(Clone, Debug, Default)]
pub struct World {
    pub entities: Vec<Entity>,
    pub market: Market,
}

impl World {
    pub open spec fn spec_entities(&self) -> Seq<Entity> {
        self.entities@
    }

    pub open spec fn spec_market(&self) -> Market {
        self.market
    }

    pub open spec fn wf(&self) -> bool {
        &&& forall|i: int|
            0 <= i < self.spec_entities().len() ==> (#[trigger] self.spec_entities()[i]).wf()
        &&& self.spec_market().wf()
    }

    pub fn new() -> (r: Self)
        ensures
            r.wf(),
            r.spec_entities() == Seq::<Entity>::empty(),
            r.spec_market()@ == Seq::<Offer>::empty(),
    {
        World { entities: Vec::new(), market: Market::new() }
    }

    /// Creates a new entity with an empty inventory and returns its stable
    /// index.
    pub fn create_entity(&mut self, name: String, recipes: Vec<Recipe>) -> (r: EntityId)
        requires
            old(self).wf(),
            old(self).spec_entities().len() < usize::MAX,
        ensures
            final(self).wf(),
            r == old(self).spec_entities().len(),
            final(self).spec_entities().len() == old(self).spec_entities().len() + 1,
            forall|i: int|
                0 <= i < old(self).spec_entities().len() ==> final(self).spec_entities()[i]
                    == old(self).spec_entities()[i],
            final(self).spec_entities()[r as int].spec_name() == name,
            final(self).spec_entities()[r as int].spec_recipes() == recipes@,
            forall|t: WareType| final(self).spec_entities()[r as int].amount_of(t) == 0,
            forall|t: WareType|
                final(self).spec_entities()[r as int].spec_buy_prices().single_price_spec(t)
                    == t.default_price_spec(),
            forall|t: WareType|
                final(self).spec_entities()[r as int].spec_sell_prices().single_price_spec(t)
                    == t.default_price_spec(),
            final(self).spec_entities()[r as int].spec_offer_ids() == Seq::<OfferId>::empty(),
            final(self).spec_market() == old(self).spec_market(),
    {
        let entity = Entity::new(name, recipes);
        let entity_id: EntityId = self.entities.len();
        self.entities.push(entity);
        entity_id
    }

    /// Moves the offered ware out of the owning entity's inventory and
    /// places it in the book.  Fails without any effect when the entity does
    /// not hold the offered quantity.
    pub fn create_offer(
        &mut self,
        entity_id: EntityId,
        offer: Ware,
        offer_type: OfferType,
        price_per_ware: Ware,
    ) -> (r: Result<OfferId, ()>)
        requires
            old(self).wf(),
            entity_id < old(self).spec_entities().len(),
            offer.amount > 0,
            old(self).spec_market()@.len() < usize::MAX,
        ensures
            final(self).wf(),
            r.is_ok() <==> old(self).spec_entities()[entity_id as int].amount_of(offer.ware_type)
                >= offer.amount,
            r.is_ok() ==> {
                &&& r == Ok::<OfferId, ()>(old(self).spec_market()@.len() as OfferId)
                &&& final(self).spec_market()@ == old(self).spec_market()@.push(
                    Offer { offer, offer_type, price_per_ware, entity_id },
                )
                &&& final(self).spec_entities()[entity_id as int].amount_of(offer.ware_type)
                    == old(self).spec_entities()[entity_id as int].amount_of(offer.ware_type)
                    - offer.amount
                &&& forall|i: int|
                    0 <= i < old(self).spec_entities().len() && i != entity_id
                        ==> final(self).spec_entities()[i] == old(self).spec_entities()[i]
            },
            r.is_err() ==> *final(self) == *old(self),
    {
        let held = self.entities[entity_id].wares().ware_amount(offer.ware_type());
        if held < offer.amount() {
            return Err(());
        }
        let removed = self.entities[entity_id].remove_ware(offer);
        match removed {
            Ok(w) => Ok(self.market.create_offer(w, offer_type, price_per_ware, entity_id)),
            Err(_) => {
                proof {
                    assert(false);
                }
                Err(())
            }
        }
    }

    pub fn entities(&self) -> (r: &Vec<Entity>)
        ensures
            r@ == self.spec_entities(),
    {
        &self.entities
    }

    pub fn market(&self) -> (r: &Market)
        ensures
            *r == self.spec_market(),
    {
        &self.market
    }

    pub fn entities_mut(&mut self) -> (r: &mut Vec<Entity>)
        ensures
            r@ == old(self).spec_entities(),
            final(self).spec_entities() == final(r)@,
            final(self).spec_market() == old(self).spec_market(),
    {
        &mut self.entities
    }

    pub fn market_mut(&mut self) -> (r: &mut Market)
        ensures
            *r == old(self).spec_market(),
            final(self).spec_market() == *final(r),
            final(self).spec_entities() == old(self).spec_entities(),
    {
        &mut self.market
    }

    /// Simultaneous mutable access to the two disjoint regions the offer
    /// generator needs: the entity population and the book.
    pub fn entities_market_mut(&mut self) -> (r: (&mut Vec<Entity>, &mut Market))
        ensures
            r.0@ == old(self).spec_entities(),
            *r.1 == old(self).spec_market(),
            final(self).spec_entities() == final(r.0)@,
            final(self).spec_market() == *final(r.1),
    {
        (&mut self.entities, &mut self.market)
    }

    pub fn get_entity(&self, entity_id: EntityId) -> (r: &Entity)
        requires
            entity_id < self.spec_entities().len(),
        ensures
            *r == self.spec_entities()[entity_id as int],
    {
        &self.entities[entity_id]
    }

    pub fn get_entity_mut(&mut self, entity_id: EntityId) -> (r: &mut Entity)
        requires
            entity_id < old(self).spec_entities().len(),
        ensures
            *r == old(self).spec_entities()[entity_id as int],
            final(self).spec_entities() == old(self).spec_entities().update(
                entity_id as int,
                *final(r),
            ),
            final(self).spec_market() == old(self).spec_market(),
    {
        &mut self.entities[entity_id]
    }
}

} // verus!
