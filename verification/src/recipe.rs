//! Production rules: input wares consumed and output wares produced by one
//! production cycle.  Recipes define production; they are not executed here.

use vstd::prelude::*;
use crate::ware::{Ware, seq_ware_amount};
use crate::ware::WareType;

verus! {

#[derive(Clone, Debug, Default)]
pub struct Recipe {
    inputs: Vec<Ware>,
    outputs: Vec<Ware>,
}

impl Recipe {
    pub closed spec fn spec_inputs(&self) -> Seq<Ware> {
        self.inputs@
    }

    pub closed spec fn spec_outputs(&self) -> Seq<Ware> {
        self.outputs@
    }

    pub fn new(inputs: Vec<Ware>, outputs: Vec<Ware>) -> (r: Self)
        ensures
            r.spec_inputs() == inputs@,
            r.spec_outputs() == outputs@,
    {
        Recipe { inputs, outputs }
    }

    pub fn inputs(&self) -> (r: &Vec<Ware>)
        ensures
            r@ == self.spec_inputs(),
    {
        &self.inputs
    }

    pub fn outputs(&self) -> (r: &Vec<Ware>)
        ensures
            r@ == self.spec_outputs(),
    {
        &self.outputs
    }
}

/// Total input quantity of commodity `t` demanded by one cycle of every
/// recipe in `rs`: the aggregate reservation of an entity holding them.
pub open spec fn recipes_demand(rs: Seq<Recipe>, t: WareType) -> int
    decreases rs.len(),
{
    if rs.len() == 0 {
        0
    } else {
        recipes_demand(rs.drop_last(), t) + seq_ware_amount(rs.last().spec_inputs(), t)
    }
}

pub proof fn lemma_recipes_demand_nonneg(rs: Seq<Recipe>, t: WareType)
    ensures
        recipes_demand(rs, t) >= 0,
    decreases rs.len(),
{
    if rs.len() > 0 {
        lemma_recipes_demand_nonneg(rs.drop_last(), t);
        crate::ware::lemma_seq_ware_amount_nonneg(rs.last().spec_inputs(), t);
    }
}

pub proof fn lemma_recipes_demand_take_step(rs: Seq<Recipe>, i: int, t: WareType)
    requires
        0 <= i < rs.len(),
    ensures
        recipes_demand(rs.take(i + 1), t) == recipes_demand(rs.take(i), t) + seq_ware_amount(
            rs[i].spec_inputs(),
            t,
        ),
{
    assert(rs.take(i + 1).drop_last() =~= rs.take(i));
    assert(rs.take(i + 1).last() == rs[i]);
}

pub proof fn lemma_recipes_demand_take_le(rs: Seq<Recipe>, i: int, t: WareType)
    requires
        0 <= i <= rs.len(),
    ensures
        recipes_demand(rs.take(i), t) <= recipes_demand(rs, t),
    decreases rs.len(),
{
    if i == rs.len() {
        assert(rs.take(i) =~= rs);
    } else {
        assert(rs.drop_last().take(i) =~= rs.take(i));
        lemma_recipes_demand_take_le(rs.drop_last(), i, t);
        crate::ware::lemma_seq_ware_amount_nonneg(rs.last().spec_inputs(), t);
    }
}

} // verus!
