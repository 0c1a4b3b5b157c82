//! Commodity types, quantified wares, and the ware ledger.
//!
//! A `WareStore` is the inventory primitive shared by every entity: a mapping
//! from commodity type to a strictly positive quantity.  Every mutating
//! operation keeps the invariant that no stored entry has amount zero.

use vstd::prelude::*;

verus! {

/// The closed set of commodity kinds.  Money is a commodity like any other,
/// but it is never itself offered on the market.
#[derive(Clone, Copy, Debug, PartialEq, Eq, Hash, Structural)]
pub enum WareType {
    Food,
    Water,
    Soil,
    Money,
}

pub type WareAmount = u32;

impl WareType {
    /// The type-level default unit price, used when a price table has no
    /// explicit entry for this type.
    pub open spec fn default_price_spec(self) -> int {
        match self {
            WareType::Food => 5,
            WareType::Water => 1,
            WareType::Soil => 1,
            WareType::Money => 1,
        }
    }

    pub fn default_price(&self) -> (r: WareAmount)
        ensures
            r == self.default_price_spec(),
    {
        match self {
            WareType::Food => 5,
            WareType::Water => 1,
            WareType::Soil => 1,
            WareType::Money => 1,
        }
    }

    pub fn is_money(&self) -> (r: bool)
        ensures
            r == (*self == WareType::Money),
    {
        *self == WareType::Money
    }

    /// Position of this type in the market book ordering.
    pub open spec fn rank_spec(self) -> int {
        match self {
            WareType::Food => 0,
            WareType::Water => 1,
            WareType::Soil => 2,
            WareType::Money => 3,
        }
    }

    pub fn rank(&self) -> (r: u32)
        ensures
            r == self.rank_spec(),
    {
        match self {
            WareType::Food => 0,
            WareType::Water => 1,
            WareType::Soil => 2,
            WareType::Money => 3,
        }
    }
}

impl Default for WareType {
    fn default() -> (r: Self)
        ensures
            r == WareType::Money,
    {
        WareType::Money
    }
}

/// A typed, quantified unit of a commodity.  Amount zero is a valid transient
/// value, but it is never stored in a ledger.
#[derive(Clone, Copy, Debug, Default, PartialEq, Eq, Structural)]
pub struct Ware {
    pub ware_type: WareType,
    pub amount: WareAmount,
}

impl Ware {
    pub fn new(ware_type: WareType, amount: WareAmount) -> (r: Self)
        ensures
            r.ware_type == ware_type,
            r.amount == amount,
    {
        Self { ware_type, amount }
    }

    pub fn ware_type(&self) -> (r: WareType)
        ensures
            r == self.ware_type,
    {
        self.ware_type
    }

    pub fn amount(&self) -> (r: WareAmount)
        ensures
            r == self.amount,
    {
        self.amount
    }

    pub fn amount_mut(&mut self) -> (r: &mut WareAmount)
        ensures
            *r == old(self).amount,
            final(self).ware_type == old(self).ware_type,
            final(self).amount == *final(r),
    {
        &mut self.amount
    }

    pub fn is_money(&self) -> (r: bool)
        ensures
            r == (self.ware_type == WareType::Money),
    {
        self.ware_type.is_money()
    }
}

/// The quantity a single entry contributes to the total of type `t`.
pub open spec fn ware_contrib(w: Ware, t: WareType) -> int {
    if w.ware_type == t {
        w.amount as int
    } else {
        0
    }
}

/// Total quantity of type `t` held across all entries of `s`.
pub open spec fn seq_ware_amount(s: Seq<Ware>, t: WareType) -> int
    decreases s.len(),
{
    if s.len() == 0 {
        0
    } else {
        seq_ware_amount(s.drop_last(), t) + ware_contrib(s.last(), t)
    }
}

/// No two entries share a commodity type.
pub open spec fn seq_types_distinct(s: Seq<Ware>) -> bool {
    forall|i: int, j: int|
        0 <= i < j < s.len() ==> s[i].ware_type != s[j].ware_type
}

/// Every entry holds a strictly positive amount.
pub open spec fn seq_amounts_positive(s: Seq<Ware>) -> bool {
    forall|i: int| 0 <= i < s.len() ==> s[i].amount > 0
}

pub proof fn lemma_seq_ware_amount_nonneg(s: Seq<Ware>, t: WareType)
    ensures
        seq_ware_amount(s, t) >= 0,
    decreases s.len(),
{
    if s.len() > 0 {
        lemma_seq_ware_amount_nonneg(s.drop_last(), t);
    }
}

pub proof fn lemma_seq_ware_amount_push(s: Seq<Ware>, w: Ware, t: WareType)
    ensures
        seq_ware_amount(s.push(w), t) == seq_ware_amount(s, t) + ware_contrib(w, t),
{
    assert(s.push(w).drop_last() =~= s);
}

pub proof fn lemma_seq_ware_amount_update(s: Seq<Ware>, i: int, w: Ware, t: WareType)
    requires
        0 <= i < s.len(),
    ensures
        seq_ware_amount(s.update(i, w), t) == seq_ware_amount(s, t) - ware_contrib(s[i], t)
            + ware_contrib(w, t),
    decreases s.len(),
{
    let su = s.update(i, w);
    if i == s.len() - 1 {
        assert(su.drop_last() =~= s.drop_last());
    } else {
        assert(su.drop_last() =~= s.drop_last().update(i, w));
        lemma_seq_ware_amount_update(s.drop_last(), i, w, t);
    }
}

pub proof fn lemma_seq_ware_amount_remove(s: Seq<Ware>, i: int, t: WareType)
    requires
        0 <= i < s.len(),
    ensures
        seq_ware_amount(s.remove(i), t) == seq_ware_amount(s, t) - ware_contrib(s[i], t),
    decreases s.len(),
{
    if i == s.len() - 1 {
        assert(s.remove(i) =~= s.drop_last());
    } else {
        assert(s.remove(i).drop_last() =~= s.drop_last().remove(i));
        assert(s.remove(i).last() == s.last());
        lemma_seq_ware_amount_remove(s.drop_last(), i, t);
    }
}

pub proof fn lemma_seq_ware_amount_take_le(s: Seq<Ware>, j: int, t: WareType)
    requires
        0 <= j <= s.len(),
    ensures
        seq_ware_amount(s.take(j), t) <= seq_ware_amount(s, t),
    decreases s.len(),
{
    if j == s.len() {
        assert(s.take(j) =~= s);
    } else {
        assert(s.drop_last().take(j) =~= s.take(j));
        lemma_seq_ware_amount_take_le(s.drop_last(), j, t);
    }
}

pub proof fn lemma_seq_ware_amount_absent(s: Seq<Ware>, t: WareType)
    requires
        forall|i: int| 0 <= i < s.len() ==> s[i].ware_type != t,
    ensures
        seq_ware_amount(s, t) == 0,
    decreases s.len(),
{
    if s.len() > 0 {
        lemma_seq_ware_amount_absent(s.drop_last(), t);
    }
}

pub proof fn lemma_seq_ware_amount_found(s: Seq<Ware>, t: WareType, i: int)
    requires
        seq_types_distinct(s),
        0 <= i < s.len(),
        s[i].ware_type == t,
    ensures
        seq_ware_amount(s, t) == s[i].amount,
    decreases s.len(),
{
    if i == s.len() - 1 {
        assert(forall|j: int|
            0 <= j < s.drop_last().len() ==> s.drop_last()[j].ware_type != t);
        lemma_seq_ware_amount_absent(s.drop_last(), t);
    } else {
        lemma_seq_ware_amount_found(s.drop_last(), t, i);
    }
}

/// In a well-keyed ledger the total of any commodity is a single stored
/// entry (or nothing), so it fits the amount type.
pub proof fn lemma_seq_ware_amount_le_max(s: Seq<Ware>, t: WareType)
    requires
        seq_types_distinct(s),
    ensures
        seq_ware_amount(s, t) <= u32::MAX,
{
    if exists|i: int| 0 <= i < s.len() && s[i].ware_type == t {
        let i = choose|i: int| 0 <= i < s.len() && s[i].ware_type == t;
        lemma_seq_ware_amount_found(s, t, i);
    } else {
        lemma_seq_ware_amount_absent(s, t);
    }
}

/// If no entry has type `t`, or entries are distinct and some entry has type
/// `t` with positive amount, relate presence to a positive total.
pub proof fn lemma_seq_ware_amount_zero_iff_absent(s: Seq<Ware>, t: WareType)
    requires
        seq_types_distinct(s),
        seq_amounts_positive(s),
    ensures
        (seq_ware_amount(s, t) == 0) <==> (forall|i: int|
            0 <= i < s.len() ==> s[i].ware_type != t),
{
    if exists|i: int| 0 <= i < s.len() && s[i].ware_type == t {
        let i = choose|i: int| 0 <= i < s.len() && s[i].ware_type == t;
        lemma_seq_ware_amount_found(s, t, i);
    } else {
        lemma_seq_ware_amount_absent(s, t);
    }
}

/// One ledger operation, as the ledger's mutators perform it: `Add` mirrors
/// `WareStore::push_ware`, `RemoveExact` a successful `WareStore::pop_ware`.
#[derive(Clone, Copy, Debug, PartialEq, Eq, Structural)]
pub enum LedgerOp {
    Add(Ware),
    RemoveExact(Ware),
}

/// The signed change one operation makes to the total of commodity `t`.
pub open spec fn ledger_op_delta(op: LedgerOp, t: WareType) -> int {
    match op {
        LedgerOp::Add(w) => ware_contrib(w, t),
        LedgerOp::RemoveExact(w) => -ware_contrib(w, t),
    }
}

/// Sum of adds minus sum of removes of commodity `t` over an operation
/// sequence.
pub open spec fn ledger_ops_delta(ops: Seq<LedgerOp>, t: WareType) -> int
    decreases ops.len(),
{
    if ops.len() == 0 {
        0
    } else {
        ledger_ops_delta(ops.drop_last(), t) + ledger_op_delta(ops.last(), t)
    }
}

/// One operation relates a ledger state to its successor exactly as the
/// contracts of `push_ware` and `pop_ware` state it; a `RemoveExact` step
/// requires that the removal did not fail.
pub open spec fn ledger_step(pre: WareStore, op: LedgerOp, post: WareStore) -> bool {
    match op {
        LedgerOp::Add(w) => forall|t: WareType| #[trigger] post.amount_of(t) == pre.amount_of(t)
            + ware_contrib(w, t),
        LedgerOp::RemoveExact(w) => pre.amount_of(w.ware_type) >= w.amount && forall|t: WareType|
            #[trigger] post.amount_of(t) == pre.amount_of(t) - ware_contrib(w, t),
    }
}

/// Ledger conservation: over any sequence of add / exact-remove operations
/// that never fails, the final amount of every commodity equals the initial
/// amount plus the sum of its adds minus the sum of its removes.
pub proof fn lemma_ledger_conservation(states: Seq<WareStore>, ops: Seq<LedgerOp>, t: WareType)
    requires
        states.len() == ops.len() + 1,
        forall|i: int|
            0 <= i < ops.len() ==> ledger_step(states[i], #[trigger] ops[i], states[i + 1]),
    ensures
        states.last().amount_of(t) == states[0].amount_of(t) + ledger_ops_delta(ops, t),
    decreases ops.len(),
{
    if ops.len() > 0 {
        assert forall|i: int|
            0 <= i < ops.drop_last().len() implies ledger_step(
            states.drop_last()[i],
            #[trigger] ops.drop_last()[i],
            states.drop_last()[i + 1],
        ) by {
            assert(ops.drop_last()[i] == ops[i]);
            assert(states.drop_last()[i] == states[i]);
            assert(states.drop_last()[i + 1] == states[i + 1]);
        }
        lemma_ledger_conservation(states.drop_last(), ops.drop_last(), t);
        let n = ops.len() as int;
        assert(ledger_step(states[n - 1], ops[n - 1], states[n]));
        assert(states.drop_last().last() == states[n - 1]);
        assert(ops.last() == ops[n - 1]);
        match ops[n - 1] {
            LedgerOp::Add(w) => {
                assert(states[n].amount_of(t) == states[n - 1].amount_of(t) + ware_contrib(w, t));
            }
            LedgerOp::RemoveExact(w) => {
                assert(states[n].amount_of(t) == states[n - 1].amount_of(t) - ware_contrib(w, t));
            }
        }
    }
}

/// A sequence with pairwise distinct commodity types can hold at most one
/// entry per variant of `WareType`.
pub proof fn lemma_distinct_types_bound(s: Seq<Ware>)
    requires
        seq_types_distinct(s),
    ensures
        s.len() <= 4,
{
    if s.len() >= 5 {
        assert(s[0].ware_type != s[1].ware_type);
        assert(s[0].ware_type != s[2].ware_type);
        assert(s[0].ware_type != s[3].ware_type);
        assert(s[0].ware_type != s[4].ware_type);
        assert(s[1].ware_type != s[2].ware_type);
        assert(s[1].ware_type != s[3].ware_type);
        assert(s[1].ware_type != s[4].ware_type);
        assert(s[2].ware_type != s[3].ware_type);
        assert(s[2].ware_type != s[4].ware_type);
        assert(s[3].ware_type != s[4].ware_type);
        assert(false);
    }
}

/// Per-entity holdings of wares, always strictly positive per stored key.
#[derive(Clone, Debug, Default, PartialEq, Eq)]
pub struct WareStore {
    wares: Vec<Ware>,
}

impl View for WareStore {
    type V = Seq<Ware>;

    closed spec fn view(&self) -> Seq<Ware> {
        self.wares@
    }
}

impl WareStore {
    /// Ledger well-formedness: one entry per type, all amounts positive.
    pub open spec fn wf(&self) -> bool {
        seq_types_distinct(self@) && seq_amounts_positive(self@)
    }

    /// Total quantity of commodity `t` in this ledger.
    pub open spec fn amount_of(&self, t: WareType) -> int {
        seq_ware_amount(self@, t)
    }

    pub fn new() -> (r: Self)
        ensures
            r@ == Seq::<Ware>::empty(),
            r.wf(),
            forall|t: WareType| r.amount_of(t) == 0,
    {
        let r = WareStore { wares: Vec::new() };
        proof {
            assert forall|t: WareType| r.amount_of(t) == 0 by {
                lemma_seq_ware_amount_absent(r@, t);
            }
        }
        r
    }

    /// Index of the entry holding type `t`, if any.
    fn find_index(&self, t: WareType) -> (r: Option<usize>)
        ensures
            match r {
                Some(i) => i < self@.len() && self@[i as int].ware_type == t,
                None => forall|j: int| 0 <= j < self@.len() ==> self@[j].ware_type != t,
            },
    {
        let mut i: usize = 0;
        while i < self.wares.len()
            invariant
                i <= self@.len(),
                forall|j: int| 0 <= j < i ==> self@[j].ware_type != t,
            decreases self@.len() - i,
        {
            if self.wares[i].ware_type() == t {
                return Some(i);
            }
            i = i + 1;
        }
        None
    }

    /// Quantity of commodity `t` currently held (0 when absent).
    pub fn ware_amount(&self, ware_type: WareType) -> (r: WareAmount)
        requires
            self.wf(),
        ensures
            r == self.amount_of(ware_type),
    {
        match self.find_index(ware_type) {
            Some(i) => {
                proof {
                    lemma_seq_ware_amount_found(self@, ware_type, i as int);
                }
                self.wares[i].amount()
            }
            None => {
                proof {
                    lemma_seq_ware_amount_absent(self@, ware_type);
                }
                0
            }
        }
    }

    /// The held ware of type `t`, if any quantity is present.
    pub fn get_ware(&self, ware_type: WareType) -> (r: Option<Ware>)
        requires
            self.wf(),
        ensures
            match r {
                Some(w) => w.ware_type == ware_type && w.amount == self.amount_of(ware_type)
                    && w.amount > 0,
                None => self.amount_of(ware_type) == 0,
            },
    {
        match self.find_index(ware_type) {
            Some(i) => {
                proof {
                    lemma_seq_ware_amount_found(self@, ware_type, i as int);
                }
                Some(self.wares[i])
            }
            None => {
                proof {
                    lemma_seq_ware_amount_absent(self@, ware_type);
                }
                None
            }
        }
    }

    /// Pushes the given ware into this store (no-op for amount zero).
    pub fn push_ware(&mut self, ware: Ware)
        requires
            old(self).wf(),
            old(self).amount_of(ware.ware_type) + ware.amount <= u32::MAX,
        ensures
            final(self).wf(),
            final(self).amount_of(ware.ware_type) == old(self).amount_of(ware.ware_type)
                + ware.amount,
            forall|t: WareType|
                t != ware.ware_type ==> final(self).amount_of(t) == old(self).amount_of(t),
    {
        if ware.amount() == 0 {
            return;
        }
        match self.find_index(ware.ware_type()) {
            Some(i) => {
                proof {
                    lemma_seq_ware_amount_found(self@, ware.ware_type, i as int);
                }
                let cur = self.wares[i];
                let updated = Ware::new(cur.ware_type(), cur.amount() + ware.amount());
                let ghost s0 = self@;
                self.wares[i] = updated;
                proof {
                    assert forall|t: WareType| true implies #[trigger] self.amount_of(t)
                        == seq_ware_amount(s0, t) - ware_contrib(s0[i as int], t)
                        + ware_contrib(updated, t) by {
                        lemma_seq_ware_amount_update(s0, i as int, updated, t);
                    }
                }
            }
            None => {
                proof {
                    lemma_seq_ware_amount_absent(self@, ware.ware_type);
                    assert forall|t: WareType| true implies #[trigger] seq_ware_amount(
                        self@.push(ware),
                        t,
                    ) == seq_ware_amount(self@, t) + ware_contrib(ware, t) by {
                        lemma_seq_ware_amount_push(self@, ware, t);
                    }
                }
                self.wares.push(ware);
            }
        }
    }

    /// Removes exactly the given ware from this store.  Fails without any
    /// mutation when the held quantity is insufficient.
    pub fn pop_ware(&mut self, ware: Ware) -> (r: Result<Ware, ()>)
        requires
            old(self).wf(),
        ensures
            final(self).wf(),
            r.is_ok() <==> old(self).amount_of(ware.ware_type) >= ware.amount,
            r.is_ok() ==> {
                &&& r == Ok::<Ware, ()>(ware)
                &&& final(self).amount_of(ware.ware_type) == old(self).amount_of(ware.ware_type)
                    - ware.amount
                &&& forall|t: WareType|
                    t != ware.ware_type ==> final(self).amount_of(t) == old(self).amount_of(t)
            },
            r.is_err() ==> *final(self) == *old(self),
    {
        if ware.amount() == 0 {
            proof {
                lemma_seq_ware_amount_nonneg(self@, ware.ware_type);
            }
            return Ok(ware);
        }
        match self.find_index(ware.ware_type()) {
            Some(i) => {
                proof {
                    lemma_seq_ware_amount_found(self@, ware.ware_type, i as int);
                }
                let cur = self.wares[i];
                if cur.amount() >= ware.amount() {
                    let ghost s0 = self@;
                    if cur.amount() > ware.amount() {
                        let updated = Ware::new(cur.ware_type(), cur.amount() - ware.amount());
                        self.wares[i] = updated;
                        proof {
                            assert forall|t: WareType| true implies #[trigger] self.amount_of(t)
                                == seq_ware_amount(s0, t) - ware_contrib(s0[i as int], t)
                                + ware_contrib(updated, t) by {
                                lemma_seq_ware_amount_update(s0, i as int, updated, t);
                            }
                        }
                    } else {
                        self.wares.remove(i);
                        proof {
                            assert forall|t: WareType| true implies #[trigger] self.amount_of(t)
                                == seq_ware_amount(s0, t) - ware_contrib(s0[i as int], t) by {
                                lemma_seq_ware_amount_remove(s0, i as int, t);
                            }
                        }
                    }
                    Ok(ware)
                } else {
                    Err(())
                }
            }
            None => {
                proof {
                    lemma_seq_ware_amount_absent(self@, ware.ware_type);
                }
                Err(())
            }
        }
    }

    /// Removes up to the available quantity of the given ware.  The input is
    /// mutated to the unmet remainder; the removed part is returned.
    pub fn pop_ware_max(&mut self, ware: &mut Ware) -> (r: Ware)
        requires
            old(self).wf(),
        ensures
            final(self).wf(),
            r.ware_type == old(ware).ware_type,
            final(ware).ware_type == old(ware).ware_type,
            r.amount == vstd::math::min(
                old(self).amount_of(old(ware).ware_type),
                old(ware).amount as int,
            ),
            final(ware).amount == old(ware).amount - r.amount,
            final(self).amount_of(old(ware).ware_type) == old(self).amount_of(
                old(ware).ware_type,
            ) - r.amount,
            forall|t: WareType|
                t != old(ware).ware_type ==> final(self).amount_of(t) == old(self).amount_of(t),
    {
        let t = ware.ware_type();
        match self.find_index(t) {
            Some(i) => {
                proof {
                    lemma_seq_ware_amount_found(self@, t, i as int);
                }
                let cur = self.wares[i];
                let ghost s0 = self@;
                if cur.amount() > ware.amount() {
                    let pop_amount = ware.amount();
                    let updated = Ware::new(cur.ware_type(), cur.amount() - pop_amount);
                    self.wares[i] = updated;
                    *ware.amount_mut() = 0;
                    proof {
                        assert forall|ty: WareType| true implies #[trigger] self.amount_of(ty)
                            == seq_ware_amount(s0, ty) - ware_contrib(s0[i as int], ty)
                            + ware_contrib(updated, ty) by {
                            lemma_seq_ware_amount_update(s0, i as int, updated, ty);
                        }
                    }
                    Ware::new(t, pop_amount)
                } else {
                    let pop_amount = cur.amount();
                    self.wares.remove(i);
                    *ware.amount_mut() = ware.amount() - pop_amount;
                    proof {
                        assert forall|ty: WareType| true implies #[trigger] self.amount_of(ty)
                            == seq_ware_amount(s0, ty) - ware_contrib(s0[i as int], ty) by {
                            lemma_seq_ware_amount_remove(s0, i as int, ty);
                        }
                    }
                    Ware::new(t, pop_amount)
                }
            }
            None => {
                proof {
                    lemma_seq_ware_amount_absent(self@, t);
                }
                Ware::new(t, 0)
            }
        }
    }

    /// Removes the whole bundle `wares` from this store, atomically: if any
    /// commodity is short the store is left untouched and the call fails.
    pub fn pop_wares(&mut self, wares: WareStore) -> (r: Result<WareStore, ()>)
        requires
            old(self).wf(),
            wares.wf(),
        ensures
            final(self).wf(),
            r.is_ok() <==> forall|t: WareType|
                old(self).amount_of(t) >= wares.amount_of(t),
            r.is_ok() ==> {
                &&& r == Ok::<WareStore, ()>(wares)
                &&& forall|t: WareType|
                    final(self).amount_of(t) == old(self).amount_of(t) - wares.amount_of(t)
            },
            r.is_err() ==> *final(self) == *old(self),
    {
        let entries = wares.iter();
        let ghost ws = wares@;
        let mut i: usize = 0;
        while i < entries.len()
            invariant
                self.wf(),
                wares.wf(),
                entries@ == ws,
                ws == wares@,
                i <= ws.len(),
                *self == *old(self),
                forall|j: int| 0 <= j < i ==> self.amount_of(ws[j].ware_type) >= ws[j].amount,
            decreases entries@.len() - i,
        {
            let need = entries[i];
            if self.ware_amount(need.ware_type()) < need.amount() {
                proof {
                    lemma_seq_ware_amount_found(ws, need.ware_type, i as int);
                    assert(old(self).amount_of(need.ware_type) < wares.amount_of(need.ware_type));
                }
                return Err(());
            }
            i = i + 1;
        }
        proof {
            assert forall|t: WareType| self.amount_of(t) >= wares.amount_of(t) by {
                if exists|j: int| 0 <= j < ws.len() && ws[j].ware_type == t {
                    let j = choose|j: int| 0 <= j < ws.len() && ws[j].ware_type == t;
                    lemma_seq_ware_amount_found(ws, t, j);
                } else {
                    lemma_seq_ware_amount_absent(ws, t);
                    lemma_seq_ware_amount_nonneg(self@, t);
                }
            }
        }
        let ghost self0 = *self;
        let mut i: usize = 0;
        while i < entries.len()
            invariant
                self.wf(),
                wares.wf(),
                entries@ == ws,
                ws == wares@,
                i <= ws.len(),
                forall|t: WareType| self0.amount_of(t) >= wares.amount_of(t),
                forall|t: WareType| #[trigger] self.amount_of(t)
                    == self0.amount_of(t) - seq_ware_amount(ws.take(i as int), t),
            decreases entries@.len() - i,
        {
            let need = entries[i];
            let ghost t_i = need.ware_type;
            proof {
                lemma_seq_ware_amount_found(ws, t_i, i as int);
                lemma_seq_ware_amount_absent(ws.take(i as int), t_i);
            }
            match self.pop_ware(need) {
                Ok(_) => {}
                Err(_) => {
                    proof {
                        assert(false);
                    }
                    return Err(());
                }
            }
            proof {
                assert(ws.take(i + 1) =~= ws.take(i as int).push(ws[i as int]));
                assert forall|t: WareType| #[trigger] seq_ware_amount(ws.take(i + 1), t)
                    == seq_ware_amount(ws.take(i as int), t) + ware_contrib(ws[i as int], t) by {
                    lemma_seq_ware_amount_push(ws.take(i as int), ws[i as int], t);
                }
            }
            i = i + 1;
        }
        proof {
            assert(ws.take(ws.len() as int) =~= ws);
        }
        Ok(wares)
    }

    /// Removes as much of the bundle `wares` as is available, per commodity.
    /// `wares` is left holding the unmet remainder; the removed part is
    /// returned.
    pub fn pop_wares_max(&mut self, wares: &mut WareStore) -> (r: WareStore)
        requires
            old(self).wf(),
            old(wares).wf(),
        ensures
            final(self).wf(),
            final(wares).wf(),
            r.wf(),
            forall|t: WareType| #[trigger] r.amount_of(t) == vstd::math::min(
                old(self).amount_of(t),
                old(wares).amount_of(t),
            ),
            forall|t: WareType| #[trigger] final(wares).amount_of(t) == old(wares).amount_of(t)
                - r.amount_of(t),
            forall|t: WareType| #[trigger] final(self).amount_of(t) == old(self).amount_of(t)
                - r.amount_of(t),
    {
        let entries = wares.iter();
        let ghost ws = old(wares)@;
        let ghost self0 = *old(self);
        let mut popped = WareStore::new();
        let mut remainder = WareStore::new();
        proof {
            assert forall|t: WareType| vstd::math::min(
                self0.amount_of(t),
                seq_ware_amount(ws.take(0), t),
            ) == 0 by {
                lemma_seq_ware_amount_nonneg(self0@, t);
                assert(ws.take(0).len() == 0);
            }
        }
        let mut i: usize = 0;
        while i < entries.len()
            invariant
                self.wf(),
                popped.wf(),
                remainder.wf(),
                entries@ == ws,
                seq_types_distinct(ws),
                seq_amounts_positive(ws),
                i <= ws.len(),
                forall|t: WareType| #[trigger] popped.amount_of(t) == vstd::math::min(
                    self0.amount_of(t),
                    seq_ware_amount(ws.take(i as int), t),
                ),
                forall|t: WareType| #[trigger] remainder.amount_of(t)
                    == seq_ware_amount(ws.take(i as int), t) - popped.amount_of(t),
                forall|t: WareType| #[trigger] self.amount_of(t)
                    == self0.amount_of(t) - popped.amount_of(t),
            decreases entries@.len() - i,
        {
            let mut need = entries[i];
            let ghost t_i = need.ware_type;
            proof {
                lemma_seq_ware_amount_absent(ws.take(i as int), t_i);
                lemma_seq_ware_amount_nonneg(self0@, t_i);
            }
            let got = self.pop_ware_max(&mut need);
            popped.push_ware(got);
            remainder.push_ware(need);
            proof {
                assert(ws.take(i + 1) =~= ws.take(i as int).push(ws[i as int]));
                assert forall|t: WareType| #[trigger] seq_ware_amount(ws.take(i + 1), t)
                    == seq_ware_amount(ws.take(i as int), t) + ware_contrib(ws[i as int], t) by {
                    lemma_seq_ware_amount_push(ws.take(i as int), ws[i as int], t);
                }
            }
            i = i + 1;
        }
        proof {
            assert(ws.take(ws.len() as int) =~= ws);
        }
        *wares = remainder;
        popped
    }

    /// An equal, independently owned copy of this ledger.
    pub fn duplicate(&self) -> (r: WareStore)
        ensures
            r@ == self@,
    {
        WareStore { wares: self.iter() }
    }

    /// All held wares, one per stored type, in ledger order.
    pub fn iter(&self) -> (r: Vec<Ware>)
        ensures
            r@ == self@,
    {
        let mut r: Vec<Ware> = Vec::new();
        let mut i: usize = 0;
        while i < self.wares.len()
            invariant
                i <= self@.len(),
                r@ == self@.take(i as int),
            decreases self@.len() - i,
        {
            r.push(self.wares[i]);
            proof {
                assert(self@.take(i + 1 as int) =~= self@.take(i as int).push(self@[i as int]));
            }
            i = i + 1;
        }
        proof {
            assert(self@.take(self@.len() as int) =~= self@);
        }
        r
    }

    /// The stored commodity types, in ledger order.
    pub fn iter_ware_types(&self) -> (r: Vec<WareType>)
        ensures
            r@.len() == self@.len(),
            forall|i: int| 0 <= i < r@.len() ==> r@[i] == self@[i].ware_type,
    {
        let mut r: Vec<WareType> = Vec::new();
        let mut i: usize = 0;
        while i < self.wares.len()
            invariant
                i <= self@.len(),
                r@.len() == i,
                forall|j: int| 0 <= j < i ==> r@[j] == self@[j].ware_type,
            decreases self@.len() - i,
        {
            r.push(self.wares[i].ware_type());
            i = i + 1;
        }
        r
    }
}

} // verus!
