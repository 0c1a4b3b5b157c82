//! A lightweight price-discovery simulation: anonymous buyers and sellers
//! adjust their expected prices round by round as they do or do not find a
//! counterparty.  It complements the ware market with a population-level
//! view of price formation.

use vstd::prelude::*;
use crate::rng::TradeRng;

verus! {

#[derive(Clone, Copy, Debug, PartialEq, Eq, Structural)]
pub struct BuyerProperties {
    pub max_price: i32,
}

#[derive(Clone, Copy, Debug, PartialEq, Eq, Structural)]
pub struct SellerProperties {
    pub min_price: i32,
}

impl BuyerProperties {
    pub fn new(max_price: i32) -> (r: Self)
        ensures
            r.max_price == max_price,
    {
        BuyerProperties { max_price }
    }
}

impl SellerProperties {
    pub fn new(min_price: i32) -> (r: Self)
        ensures
            r.min_price == min_price,
    {
        SellerProperties { min_price }
    }
}

/// A buyer never expects to pay more than its maximum.
#[derive(Clone, Copy, Debug, PartialEq, Eq, Structural)]
pub struct Buyer {
    pub expected_price: i32,
    pub properties: BuyerProperties,
}

/// A seller never expects to earn less than its minimum.
#[derive(Clone, Copy, Debug, PartialEq, Eq, Structural)]
pub struct Seller {
    pub expected_price: i32,
    pub properties: SellerProperties,
}

impl Buyer {
    pub open spec fn wf(&self) -> bool {
        self.expected_price <= self.properties.max_price
    }

    /// A new buyer starts out expecting to pay its maximum.
    pub fn from_properties(properties: BuyerProperties) -> (r: Self)
        ensures
            r.properties == properties,
            r.expected_price == properties.max_price,
            r.wf(),
    {
        Buyer { expected_price: properties.max_price, properties }
    }

    pub fn expected_price(&self) -> (r: i32)
        ensures
            r == self.expected_price,
    {
        self.expected_price
    }

    /// Raises the expectation by one, but never past the maximum.
    pub fn increase_expected_price(&mut self)
        requires
            old(self).wf(),
        ensures
            final(self).wf(),
            final(self).properties == old(self).properties,
            final(self).expected_price == if old(self).expected_price
                < old(self).properties.max_price {
                old(self).expected_price + 1
            } else {
                old(self).expected_price as int
            },
    {
        if self.expected_price < self.properties.max_price {
            self.expected_price = self.expected_price + 1;
        }
    }

    pub fn decrease_expected_price(&mut self)
        requires
            old(self).wf(),
            old(self).expected_price > i32::MIN,
        ensures
            final(self).wf(),
            final(self).properties == old(self).properties,
            final(self).expected_price == old(self).expected_price - 1,
    {
        self.expected_price = self.expected_price - 1;
    }
}

impl Seller {
    pub open spec fn wf(&self) -> bool {
        self.expected_price >= self.properties.min_price
    }

    /// A new seller starts out expecting to earn its minimum.
    pub fn from_properties(properties: SellerProperties) -> (r: Self)
        ensures
            r.properties == properties,
            r.expected_price == properties.min_price,
            r.wf(),
    {
        Seller { expected_price: properties.min_price, properties }
    }

    pub fn expected_price(&self) -> (r: i32)
        ensures
            r == self.expected_price,
    {
        self.expected_price
    }

    pub fn increase_expected_price(&mut self)
        requires
            old(self).wf(),
            old(self).expected_price < i32::MAX,
        ensures
            final(self).wf(),
            final(self).properties == old(self).properties,
            final(self).expected_price == old(self).expected_price + 1,
    {
        self.expected_price = self.expected_price + 1;
    }

    /// Lowers the expectation by one, but never under the minimum.
    pub fn decrease_expected_price(&mut self)
        requires
            old(self).wf(),
        ensures
            final(self).wf(),
            final(self).properties == old(self).properties,
            final(self).expected_price == if old(self).expected_price
                > old(self).properties.min_price {
                old(self).expected_price - 1
            } else {
                old(self).expected_price as int
            },
    {
        if self.expected_price > self.properties.min_price {
            self.expected_price = self.expected_price - 1;
        }
    }
}

/// A stable index into the buyer population.
#[derive(Clone, Copy, Debug, PartialEq, Eq, Structural)]
pub struct BuyerHandle {
    pub id: usize,
}

/// A stable index into the seller population.
#[derive(Clone, Copy, Debug, PartialEq, Eq, Structural)]
pub struct SellerHandle {
    pub id: usize,
}

/// Some position in the handle list names buyer `id`.
pub open spec fn buyer_handle_present(s: Seq<BuyerHandle>, id: int) -> bool {
    exists|x: int| 0 <= x < s.len() && (#[trigger] s[x]).id == id
}

/// Some position in the handle list names seller `id`.
pub open spec fn seller_handle_present(s: Seq<SellerHandle>, id: int) -> bool {
    exists|x: int| 0 <= x < s.len() && (#[trigger] s[x]).id == id
}

#[derive(Clone, Debug, Default)]
pub struct SimulationState {
    buyers: Vec<Buyer>,
    sellers: Vec<Seller>,
}

impl BuyerHandle {
    pub fn get<'a>(&self, simulation_state: &'a SimulationState) -> (r: &'a Buyer)
        requires
            self.id < simulation_state.spec_buyers().len(),
        ensures
            *r == simulation_state.spec_buyers()[self.id as int],
    {
        simulation_state.buyer(*self)
    }

    pub fn get_mut<'a>(&self, simulation_state: &'a mut SimulationState) -> (r: &'a mut Buyer)
        requires
            self.id < old(simulation_state).spec_buyers().len(),
        ensures
            *r == old(simulation_state).spec_buyers()[self.id as int],
            final(simulation_state).spec_buyers() == old(
                simulation_state,
            ).spec_buyers().update(self.id as int, *final(r)),
            final(simulation_state).spec_sellers() == old(simulation_state).spec_sellers(),
    {
        &mut simulation_state.buyers[self.id]
    }
}

impl SellerHandle {
    pub fn get<'a>(&self, simulation_state: &'a SimulationState) -> (r: &'a Seller)
        requires
            self.id < simulation_state.spec_sellers().len(),
        ensures
            *r == simulation_state.spec_sellers()[self.id as int],
    {
        simulation_state.seller(*self)
    }

    pub fn get_mut<'a>(&self, simulation_state: &'a mut SimulationState) -> (r: &'a mut Seller)
        requires
            self.id < old(simulation_state).spec_sellers().len(),
        ensures
            *r == old(simulation_state).spec_sellers()[self.id as int],
            final(simulation_state).spec_sellers() == old(
                simulation_state,
            ).spec_sellers().update(self.id as int, *final(r)),
            final(simulation_state).spec_buyers() == old(simulation_state).spec_buyers(),
    {
        &mut simulation_state.sellers[self.id]
    }
}

impl SimulationState {
    pub closed spec fn spec_buyers(&self) -> Seq<Buyer> {
        self.buyers@
    }

    pub closed spec fn spec_sellers(&self) -> Seq<Seller> {
        self.sellers@
    }

    pub open spec fn wf(&self) -> bool {
        &&& forall|i: int|
            0 <= i < self.spec_buyers().len() ==> (#[trigger] self.spec_buyers()[i]).wf()
        &&& forall|i: int|
            0 <= i < self.spec_sellers().len() ==> (#[trigger] self.spec_sellers()[i]).wf()
    }

    pub fn new() -> (r: Self)
        ensures
            r.wf(),
            r.spec_buyers() == Seq::<Buyer>::empty(),
            r.spec_sellers() == Seq::<Seller>::empty(),
    {
        SimulationState { buyers: Vec::new(), sellers: Vec::new() }
    }

    pub fn add_buyer(&mut self, properties: BuyerProperties) -> (r: BuyerHandle)
        requires
            old(self).wf(),
            old(self).spec_buyers().len() < usize::MAX,
        ensures
            final(self).wf(),
            r.id == old(self).spec_buyers().len(),
            final(self).spec_buyers() == old(self).spec_buyers().push(
                Buyer { expected_price: properties.max_price, properties },
            ),
            final(self).spec_sellers() == old(self).spec_sellers(),
    {
        let id: usize = self.buyers.len();
        let b = Buyer::from_properties(properties);
        self.buyers.push(b);
        proof {
            assert forall|i: int|
                0 <= i < self.spec_buyers().len() implies (#[trigger] self.spec_buyers()[
                i]).wf() by {
                if i < self.spec_buyers().len() - 1 {
                    assert(self.spec_buyers()[i] == old(self).spec_buyers()[i]);
                } else {
                    assert(self.spec_buyers()[i] == b);
                }
            }
            assert(self.spec_sellers() == old(self).spec_sellers());
            assert forall|i: int|
                0 <= i < self.spec_sellers().len() implies (#[trigger] self.spec_sellers()[
                i]).wf() by {
                assert(old(self).spec_sellers()[i].wf());
            }
        }
        BuyerHandle { id }
    }

    pub fn add_seller(&mut self, properties: SellerProperties) -> (r: SellerHandle)
        requires
            old(self).wf(),
            old(self).spec_sellers().len() < usize::MAX,
        ensures
            final(self).wf(),
            r.id == old(self).spec_sellers().len(),
            final(self).spec_sellers() == old(self).spec_sellers().push(
                Seller { expected_price: properties.min_price, properties },
            ),
            final(self).spec_buyers() == old(self).spec_buyers(),
    {
        let id: usize = self.sellers.len();
        let sl = Seller::from_properties(properties);
        self.sellers.push(sl);
        proof {
            assert forall|i: int|
                0 <= i < self.spec_sellers().len() implies (#[trigger] self.spec_sellers()[
                i]).wf() by {
                if i < self.spec_sellers().len() - 1 {
                    assert(self.spec_sellers()[i] == old(self).spec_sellers()[i]);
                } else {
                    assert(self.spec_sellers()[i] == sl);
                }
            }
            assert(self.spec_buyers() == old(self).spec_buyers());
            assert forall|i: int|
                0 <= i < self.spec_buyers().len() implies (#[trigger] self.spec_buyers()[
                i]).wf() by {
                assert(old(self).spec_buyers()[i].wf());
            }
        }
        SellerHandle { id }
    }

    pub fn buyer(&self, handle: BuyerHandle) -> (r: &Buyer)
        requires
            handle.id < self.spec_buyers().len(),
        ensures
            *r == self.spec_buyers()[handle.id as int],
    {
        &self.buyers[handle.id]
    }

    pub fn seller(&self, handle: SellerHandle) -> (r: &Seller)
        requires
            handle.id < self.spec_sellers().len(),
        ensures
            *r == self.spec_sellers()[handle.id as int],
    {
        &self.sellers[handle.id]
    }

    /// Handles of every buyer, ordered by expected price ascending.
    pub fn get_sorted_buyers(&self) -> (r: Vec<BuyerHandle>)
        ensures
            r@.len() == self.spec_buyers().len(),
            forall|i: int| 0 <= i < r@.len() ==> (#[trigger] r@[i]).id < r@.len(),
            forall|i: int, j: int| 0 <= i < j < r@.len() ==> (#[trigger] r@[i]).id != (
            #[trigger] r@[j]).id,
            forall|id: int| 0 <= id < r@.len() ==> #[trigger] buyer_handle_present(r@, id),
            forall|i: int, j: int|
                0 <= i < j < r@.len() ==> self.spec_buyers()[r@[i].id as int].expected_price
                    <= self.spec_buyers()[r@[j].id as int].expected_price,
    {
        let n = self.buyers.len();
        let mut handles: Vec<BuyerHandle> = Vec::new();
        let mut i: usize = 0;
        while i < n
            invariant
                i <= n == self.spec_buyers().len(),
                handles@.len() == i,
                forall|k: int| 0 <= k < i ==> (#[trigger] handles@[k]).id == k,
            decreases n - i,
        {
            handles.push(BuyerHandle { id: i });
            i = i + 1;
        }
        proof {
            assert forall|id: int| 0 <= id < n implies #[trigger] buyer_handle_present(
                handles@,
                id,
            ) by {
                assert(handles@[id].id == id);
            }
        }
        let mut i: usize = 1;
        while i < n
            invariant
                n == self.spec_buyers().len(),
                handles@.len() == n,
                i <= n || n == 0,
                1 <= i,
                forall|k: int| 0 <= k < n ==> (#[trigger] handles@[k]).id < n,
                forall|p: int, q: int|
                    0 <= p < q < n ==> (#[trigger] handles@[p]).id != (
                    #[trigger] handles@[q]).id,
                forall|id: int| 0 <= id < n ==> #[trigger] buyer_handle_present(handles@, id),
                forall|p: int, q: int|
                    0 <= p < q < i && q < n ==> self.spec_buyers()[handles@[p].id as int].expected_price
                        <= self.spec_buyers()[handles@[q].id as int].expected_price,
            decreases n - i,
        {
            let mut j: usize = i;
            while j > 0 && self.buyers[handles[j - 1].id].expected_price()
                > self.buyers[handles[j].id].expected_price()
                invariant
                    j <= i < n == self.spec_buyers().len(),
                    handles@.len() == n,
                    forall|k: int| 0 <= k < n ==> (#[trigger] handles@[k]).id < n,
                    forall|p: int, q: int|
                        0 <= p < q < n ==> (#[trigger] handles@[p]).id != (
                        #[trigger] handles@[q]).id,
                    forall|id: int| 0 <= id < n ==> #[trigger] buyer_handle_present(
                        handles@,
                        id,
                    ),
                    forall|p: int, q: int|
                        0 <= p < q <= i && q != j ==> self.spec_buyers()[handles@[
                            p].id as int].expected_price <= self.spec_buyers()[handles@[
                            q].id as int].expected_price,
                decreases j,
            {
                let a = handles[j - 1];
                let b = handles[j];
                let ghost h0 = handles@;
                handles[j - 1] = b;
                handles[j] = a;
                proof {
                    assert forall|p: int, q: int|
                        0 <= p < q < n implies (#[trigger] handles@[p]).id != (
                    #[trigger] handles@[q]).id by {
                        let p0: int = if p == j - 1 {
                            j as int
                        } else if p == j {
                            j - 1
                        } else {
                            p
                        };
                        let q0: int = if q == j - 1 {
                            j as int
                        } else if q == j {
                            j - 1
                        } else {
                            q
                        };
                        assert(handles@[p] == h0[p0]);
                        assert(handles@[q] == h0[q0]);
                    }
                    assert forall|id: int| 0 <= id < n implies #[trigger] buyer_handle_present(
                        handles@,
                        id,
                    ) by {
                        assert(buyer_handle_present(h0, id));
                        let x0 = choose|x0: int| 0 <= x0 < n && (#[trigger] h0[x0]).id == id;
                        if x0 == j - 1 {
                            assert(handles@[j as int].id == id);
                        } else if x0 == j {
                            assert(handles@[j - 1].id == id);
                        } else {
                            assert(handles@[x0].id == id);
                        }
                    }
                }
                j = j - 1;
            }
            i = i + 1;
        }
        handles
    }

    /// Handles of every seller, ordered by expected price ascending.
    pub fn get_sorted_sellers(&self) -> (r: Vec<SellerHandle>)
        ensures
            r@.len() == self.spec_sellers().len(),
            forall|i: int| 0 <= i < r@.len() ==> (#[trigger] r@[i]).id < r@.len(),
            forall|i: int, j: int| 0 <= i < j < r@.len() ==> (#[trigger] r@[i]).id != (
            #[trigger] r@[j]).id,
            forall|id: int| 0 <= id < r@.len() ==> #[trigger] seller_handle_present(r@, id),
            forall|i: int, j: int|
                0 <= i < j < r@.len() ==> self.spec_sellers()[r@[i].id as int].expected_price
                    <= self.spec_sellers()[r@[j].id as int].expected_price,
    {
        let n = self.sellers.len();
        let mut handles: Vec<SellerHandle> = Vec::new();
        let mut i: usize = 0;
        while i < n
            invariant
                i <= n == self.spec_sellers().len(),
                handles@.len() == i,
                forall|k: int| 0 <= k < i ==> (#[trigger] handles@[k]).id == k,
            decreases n - i,
        {
            handles.push(SellerHandle { id: i });
            i = i + 1;
        }
        proof {
            assert forall|id: int| 0 <= id < n implies #[trigger] seller_handle_present(
                handles@,
                id,
            ) by {
                assert(handles@[id].id == id);
            }
        }
        let mut i: usize = 1;
        while i < n
            invariant
                n == self.spec_sellers().len(),
                handles@.len() == n,
                i <= n || n == 0,
                1 <= i,
                forall|k: int| 0 <= k < n ==> (#[trigger] handles@[k]).id < n,
                forall|p: int, q: int|
                    0 <= p < q < n ==> (#[trigger] handles@[p]).id != (
                    #[trigger] handles@[q]).id,
                forall|id: int| 0 <= id < n ==> #[trigger] seller_handle_present(handles@, id),
                forall|p: int, q: int|
                    0 <= p < q < i && q < n ==> self.spec_sellers()[handles@[
                        p].id as int].expected_price <= self.spec_sellers()[handles@[
                        q].id as int].expected_price,
            decreases n - i,
        {
            let mut j: usize = i;
            while j > 0 && self.sellers[handles[j - 1].id].expected_price()
                > self.sellers[handles[j].id].expected_price()
                invariant
                    j <= i < n == self.spec_sellers().len(),
                    handles@.len() == n,
                    forall|k: int| 0 <= k < n ==> (#[trigger] handles@[k]).id < n,
                    forall|p: int, q: int|
                        0 <= p < q < n ==> (#[trigger] handles@[p]).id != (
                        #[trigger] handles@[q]).id,
                    forall|id: int| 0 <= id < n ==> #[trigger] seller_handle_present(
                        handles@,
                        id,
                    ),
                    forall|p: int, q: int|
                        0 <= p < q <= i && q != j ==> self.spec_sellers()[handles@[
                            p].id as int].expected_price <= self.spec_sellers()[handles@[
                            q].id as int].expected_price,
                decreases j,
            {
                let a = handles[j - 1];
                let b = handles[j];
                let ghost h0 = handles@;
                handles[j - 1] = b;
                handles[j] = a;
                proof {
                    assert forall|p: int, q: int|
                        0 <= p < q < n implies (#[trigger] handles@[p]).id != (
                    #[trigger] handles@[q]).id by {
                        let p0: int = if p == j - 1 {
                            j as int
                        } else if p == j {
                            j - 1
                        } else {
                            p
                        };
                        let q0: int = if q == j - 1 {
                            j as int
                        } else if q == j {
                            j - 1
                        } else {
                            q
                        };
                        assert(handles@[p] == h0[p0]);
                        assert(handles@[q] == h0[q0]);
                    }
                    assert forall|id: int| 0 <= id < n implies #[trigger] seller_handle_present(
                        handles@,
                        id,
                    ) by {
                        assert(seller_handle_present(h0, id));
                        let x0 = choose|x0: int| 0 <= x0 < n && (#[trigger] h0[x0]).id == id;
                        if x0 == j - 1 {
                            assert(handles@[j as int].id == id);
                        } else if x0 == j {
                            assert(handles@[j - 1].id == id);
                        } else {
                            assert(handles@[x0].id == id);
                        }
                    }
                }
                j = j - 1;
            }
            i = i + 1;
        }
        handles
    }

    /// One matching round: each seller in turn either finds a randomly
    /// chosen buyer still willing to pay its expected price — both then
    /// tighten their expectations towards each other — or, finding none,
    /// lowers its own expectation.  Buyers left unmatched raise theirs.
    /// Returns the number of matches made.
    /// The price a matched buyer ends the round with: one step down,
    /// saturating at the integer floor.
    pub open spec fn buyer_stepped_down(b: Buyer) -> int {
        if b.expected_price > i32::MIN {
            b.expected_price - 1
        } else {
            b.expected_price as int
        }
    }

    /// The price an unmatched buyer ends the round with: one step up,
    /// capped at its maximum.
    pub open spec fn buyer_stepped_up(b: Buyer) -> int {
        if b.expected_price < b.properties.max_price {
            b.expected_price + 1
        } else {
            b.expected_price as int
        }
    }

    /// The price a matched seller ends the round with: one step up,
    /// saturating at the integer ceiling.
    pub open spec fn seller_stepped_up(sl: Seller) -> int {
        if sl.expected_price < i32::MAX {
            sl.expected_price + 1
        } else {
            sl.expected_price as int
        }
    }

    /// The price an unmatched seller ends the round with: one step down,
    /// floored at its minimum.
    pub open spec fn seller_stepped_down(sl: Seller) -> int {
        if sl.expected_price > sl.properties.min_price {
            sl.expected_price - 1
        } else {
            sl.expected_price as int
        }
    }

    pub fn run_trading_round(&mut self, rng: &mut TradeRng) -> (r: usize)
        requires
            old(self).wf(),
        ensures
            final(self).wf(),
            final(self).spec_buyers().len() == old(self).spec_buyers().len(),
            final(self).spec_sellers().len() == old(self).spec_sellers().len(),
            forall|i: int|
                0 <= i < old(self).spec_buyers().len()
                    ==> (#[trigger] final(self).spec_buyers()[i]).properties == old(
                    self,
                ).spec_buyers()[i].properties,
            forall|i: int|
                0 <= i < old(self).spec_sellers().len()
                    ==> (#[trigger] final(self).spec_sellers()[i]).properties == old(
                    self,
                ).spec_sellers()[i].properties,
            r <= old(self).spec_sellers().len(),
            r <= old(self).spec_buyers().len(),
            forall|i: int|
                0 <= i < old(self).spec_sellers().len()
                    ==> (#[trigger] final(self).spec_sellers()[i]).expected_price
                    == Self::seller_stepped_up(old(self).spec_sellers()[i])
                    || (#[trigger] final(self).spec_sellers()[i]).expected_price
                    == Self::seller_stepped_down(old(self).spec_sellers()[i]),
            forall|i: int|
                0 <= i < old(self).spec_buyers().len()
                    ==> (#[trigger] final(self).spec_buyers()[i]).expected_price
                    == Self::buyer_stepped_down(old(self).spec_buyers()[i])
                    || (#[trigger] final(self).spec_buyers()[i]).expected_price
                    == Self::buyer_stepped_up(old(self).spec_buyers()[i]),
    {
        let mut buyers = self.get_sorted_buyers();
        let sellers = self.get_sorted_sellers();
        let n_sellers = sellers.len();
        let mut matched: usize = 0;
        let ghost b0 = self.spec_buyers();
        let ghost s0 = self.spec_sellers();
        let mut si: usize = 0;
        while si < n_sellers
            invariant
                si <= n_sellers == s0.len(),
                matched <= si,
                matched + buyers@.len() == b0.len(),
                self.spec_buyers().len() == b0.len(),
                self.spec_sellers().len() == s0.len(),
                self.wf(),
                forall|i: int|
                    0 <= i < b0.len() ==> (#[trigger] self.spec_buyers()[i]).properties == b0[
                        i].properties,
                forall|i: int|
                    0 <= i < s0.len() ==> (#[trigger] self.spec_sellers()[i]).properties == s0[
                        i].properties,
                forall|k: int| 0 <= k < buyers@.len() ==> (#[trigger] buyers@[k]).id < b0.len(),
                forall|k: int| 0 <= k < sellers@.len() ==> (#[trigger] sellers@[k]).id < s0.len(),
                sellers@.len() == n_sellers,
                forall|p: int, q: int|
                    0 <= p < q < buyers@.len() ==> (#[trigger] buyers@[p]).id != (
                    #[trigger] buyers@[q]).id,
                forall|p: int, q: int|
                    0 <= p < q < sellers@.len() ==> (#[trigger] sellers@[p]).id != (
                    #[trigger] sellers@[q]).id,
                forall|x: int|
                    0 <= x < si ==> (#[trigger] self.spec_sellers()[sellers@[
                        x].id as int]).expected_price == Self::seller_stepped_up(
                        s0[sellers@[x].id as int],
                    ) || self.spec_sellers()[sellers@[x].id as int].expected_price
                        == Self::seller_stepped_down(s0[sellers@[x].id as int]),
                forall|x: int|
                    si <= x < n_sellers ==> (#[trigger] self.spec_sellers()[sellers@[
                        x].id as int]) == s0[sellers@[x].id as int],
                forall|id: int|
                    0 <= id < b0.len() ==> (buyer_handle_present(buyers@, id) && (
                    #[trigger] self.spec_buyers()[id]) == b0[id]) || (!buyer_handle_present(
                        buyers@,
                        id,
                    ) && self.spec_buyers()[id].expected_price == Self::buyer_stepped_down(
                        b0[id],
                    )),
            decreases n_sellers - si,
        {
            let seller_id = sellers[si].id;
            let price = self.sellers[seller_id].expected_price();
            // first buyer (in ascending order) willing to pay the price
            let mut min_buyer: usize = 0;
            while min_buyer < buyers.len() && self.buyers[buyers[min_buyer].id].expected_price()
                < price
                invariant
                    min_buyer <= buyers@.len(),
                    forall|k: int|
                        0 <= k < buyers@.len() ==> (#[trigger] buyers@[k]).id < b0.len(),
                    self.spec_buyers().len() == b0.len(),
                decreases buyers@.len() - min_buyer,
            {
                min_buyer = min_buyer + 1;
            }
            if min_buyer < buyers.len() {
                // choose one of the willing buyers uniformly at random
                let span = buyers.len() - min_buyer;
                let pick = min_buyer + (rng.below_u64(span as u64)) as usize;
                let ghost bl0 = buyers@;
                let buyer_handle = buyers.remove(pick);
                let bid = buyer_handle.id;
                proof {
                    assert(buyer_handle_present(bl0, bid as int)) by {
                        assert(bl0[pick as int].id == bid);
                    }
                    assert forall|p: int, q: int|
                        0 <= p < q < buyers@.len() implies (#[trigger] buyers@[p]).id != (
                    #[trigger] buyers@[q]).id by {
                        let p0: int = if p < pick {
                            p
                        } else {
                            p + 1
                        };
                        let q0: int = if q < pick {
                            q
                        } else {
                            q + 1
                        };
                        assert(buyers@[p] == bl0[p0]);
                        assert(buyers@[q] == bl0[q0]);
                    }
                    assert(!buyer_handle_present(buyers@, bid as int)) by {
                        if buyer_handle_present(buyers@, bid as int) {
                            let x = choose|x: int|
                                0 <= x < buyers@.len() && (#[trigger] buyers@[x]).id
                                    == bid as int;
                            if x < pick {
                                assert(bl0[x].id == bid);
                                assert(bl0[pick as int].id == bid);
                                assert(false);
                            } else {
                                assert(bl0[x + 1].id == bid);
                                assert(bl0[pick as int].id == bid);
                                assert(false);
                            }
                        }
                    }
                    assert forall|id: int|
                        0 <= id < b0.len() && id != bid && buyer_handle_present(
                            bl0,
                            id,
                        ) implies buyer_handle_present(buyers@, id) by {
                        let x = choose|x: int|
                            0 <= x < bl0.len() && (#[trigger] bl0[x]).id == id;
                        if x < pick {
                            assert(buyers@[x].id == id);
                        } else {
                            assert(x != pick);
                            assert(buyers@[x - 1].id == id);
                        }
                    }
                    assert forall|id: int|
                        0 <= id < b0.len() && !buyer_handle_present(
                            bl0,
                            id,
                        ) implies !buyer_handle_present(buyers@, id) by {
                        if buyer_handle_present(buyers@, id) {
                            let x = choose|x: int|
                                0 <= x < buyers@.len() && (#[trigger] buyers@[x]).id == id;
                            if x < pick {
                                assert(bl0[x].id == id);
                            } else {
                                assert(bl0[x + 1].id == id);
                            }
                            assert(false);
                        }
                    }
                }
                if self.buyers[bid].expected_price() > i32::MIN {
                    let b = &mut self.buyers[bid];
                    b.decrease_expected_price();
                }
                if self.sellers[seller_id].expected_price() < i32::MAX {
                    let s = &mut self.sellers[seller_id];
                    s.increase_expected_price();
                }
                matched = matched + 1;
                proof {
                    assert(self.spec_buyers().len() == b0.len());
                    assert(self.spec_buyers()[bid as int].expected_price
                        == Self::buyer_stepped_down(b0[bid as int]));
                    assert(self.spec_sellers()[seller_id as int].expected_price
                        == Self::seller_stepped_up(s0[seller_id as int]));
                    assert forall|x: int|
                        0 <= x < si + 1 implies (#[trigger] self.spec_sellers()[sellers@[
                        x].id as int]).expected_price == Self::seller_stepped_up(
                        s0[sellers@[x].id as int],
                    ) || self.spec_sellers()[sellers@[x].id as int].expected_price
                        == Self::seller_stepped_down(s0[sellers@[x].id as int]) by {
                        if x < si {
                            assert(sellers@[x].id != sellers@[si as int].id);
                        }
                    }
                }
            } else {
                let s = &mut self.sellers[seller_id];
                s.decrease_expected_price();
                proof {
                    assert(self.spec_sellers()[seller_id as int].expected_price
                        == Self::seller_stepped_down(s0[seller_id as int]));
                    assert forall|x: int|
                        0 <= x < si + 1 implies (#[trigger] self.spec_sellers()[sellers@[
                        x].id as int]).expected_price == Self::seller_stepped_up(
                        s0[sellers@[x].id as int],
                    ) || self.spec_sellers()[sellers@[x].id as int].expected_price
                        == Self::seller_stepped_down(s0[sellers@[x].id as int]) by {
                        if x < si {
                            assert(sellers@[x].id != sellers@[si as int].id);
                        }
                    }
                }
            }
            si = si + 1;
        }
        proof {
            assert forall|i: int|
                0 <= i < s0.len() implies (#[trigger] self.spec_sellers()[i]).expected_price
                == Self::seller_stepped_up(s0[i]) || self.spec_sellers()[i].expected_price
                == Self::seller_stepped_down(s0[i]) by {
                assert(seller_handle_present(sellers@, i));
                let x = choose|x: int| 0 <= x < sellers@.len() && (#[trigger] sellers@[x]).id == i;
            }
        }
        let mut bi: usize = 0;
        while bi < buyers.len()
            invariant
                bi <= buyers@.len(),
                matched <= b0.len(),
                self.spec_buyers().len() == b0.len(),
                self.spec_sellers().len() == s0.len(),
                self.wf(),
                forall|i: int|
                    0 <= i < b0.len() ==> (#[trigger] self.spec_buyers()[i]).properties == b0[
                        i].properties,
                forall|i: int|
                    0 <= i < s0.len() ==> (#[trigger] self.spec_sellers()[i]).properties == s0[
                        i].properties,
                forall|k: int| 0 <= k < buyers@.len() ==> (#[trigger] buyers@[k]).id < b0.len(),
                forall|p: int, q: int|
                    0 <= p < q < buyers@.len() ==> (#[trigger] buyers@[p]).id != (
                    #[trigger] buyers@[q]).id,
                forall|i: int|
                    0 <= i < s0.len() ==> (#[trigger] self.spec_sellers()[i]).expected_price
                        == Self::seller_stepped_up(s0[i]) || self.spec_sellers()[
                        i].expected_price == Self::seller_stepped_down(s0[i]),
                forall|x: int|
                    0 <= x < bi ==> (#[trigger] self.spec_buyers()[buyers@[
                        x].id as int]).expected_price == Self::buyer_stepped_up(
                        b0[buyers@[x].id as int],
                    ),
                forall|x: int|
                    bi <= x < buyers@.len() ==> (#[trigger] self.spec_buyers()[buyers@[
                        x].id as int]) == b0[buyers@[x].id as int],
                forall|id: int|
                    0 <= id < b0.len() && !buyer_handle_present(buyers@, id)
                        ==> (#[trigger] self.spec_buyers()[id]).expected_price
                        == Self::buyer_stepped_down(b0[id]),
            decreases buyers@.len() - bi,
        {
            let bid = buyers[bi].id;
            proof {
                assert(self.spec_buyers()[bid as int] == b0[bid as int]);
            }
            let b = &mut self.buyers[bid];
            b.increase_expected_price();
            proof {
                assert(self.spec_buyers()[bid as int].expected_price
                    == Self::buyer_stepped_up(b0[bid as int]));
                assert forall|x: int|
                    0 <= x < bi + 1 implies (#[trigger] self.spec_buyers()[buyers@[
                    x].id as int]).expected_price == Self::buyer_stepped_up(
                    b0[buyers@[x].id as int],
                ) by {
                    if x < bi {
                        assert(buyers@[x].id != bid);
                    }
                }
                assert forall|x: int|
                    bi + 1 <= x < buyers@.len() implies (#[trigger] self.spec_buyers()[buyers@[
                    x].id as int]) == b0[buyers@[x].id as int] by {
                    assert(buyers@[x].id != bid);
                }
                assert forall|id: int|
                    0 <= id < b0.len() && !buyer_handle_present(buyers@, id) implies (
                #[trigger] self.spec_buyers()[id]).expected_price == Self::buyer_stepped_down(
                    b0[id],
                ) by {
                    assert(buyer_handle_present(buyers@, bid as int)) by {
                        assert(buyers@[bi as int].id == bid);
                    }
                    assert(id != bid);
                }
            }
            bi = bi + 1;
        }
        proof {
            assert forall|i: int|
                0 <= i < b0.len() implies (#[trigger] self.spec_buyers()[i]).expected_price
                == Self::buyer_stepped_down(b0[i]) || self.spec_buyers()[i].expected_price
                == Self::buyer_stepped_up(b0[i]) by {
                if buyer_handle_present(buyers@, i) {
                    let x = choose|x: int|
                        0 <= x < buyers@.len() && (#[trigger] buyers@[x]).id == i;
                }
            }
        }
        matched
    }
}

} // verus!
