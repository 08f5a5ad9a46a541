//! The terminal stage: one account per item identity that collects the
//! results of the item's sub-units and finalizes once all have arrived.

use std::collections::HashMap;
use vstd::prelude::*;

verus! {

/// What the transform gave for one sub-unit.
#[derive(Clone, Copy, Debug, PartialEq, Eq, Structural)]
pub enum SubOutcome {
    /// The transform's value.
    Count(u64),
    /// The transform failed; the sub-unit adds nothing to the total.
    Failed,
}

/// The result of one sub-unit, sent to the aggregator.
#[derive(Clone, Copy, Debug, PartialEq, Eq, Structural)]
pub struct PartialResult {
    /// Identity of the item the sub-unit belongs to.
    pub item: u64,
    /// Position of the sub-unit within its item.
    pub index: usize,
    /// How many sub-units the item was split into.
    pub expected: usize,
    pub outcome: SubOutcome,
}

/// What `accept` did with a partial result.
#[derive(Clone, Copy, Debug, PartialEq, Eq, Structural)]
pub enum AcceptOutcome {
    /// Recorded; the item still waits for other sub-units.
    Recorded,
    /// Recorded, and it was the last missing sub-unit: the account is final.
    Finalized { total: u128, errors: usize },
    /// This (item, index) pair was already recorded: nothing changed.
    Duplicate,
    /// The index is out of range, or the expected count disagrees with the
    /// one the account was opened with: nothing changed.
    Rejected,
}

/// The value a sub-unit adds to its item's total.
pub open spec fn value_of(o: SubOutcome) -> nat {
    match o {
        SubOutcome::Count(v) => v as nat,
        SubOutcome::Failed => 0,
    }
}

/// How many sub-units have arrived.
pub open spec fn received(s: Seq<Option<SubOutcome>>) -> nat
    decreases s.len(),
{
    if s.len() == 0 {
        0
    } else {
        received(s.drop_last()) + if s.last() is Some { 1nat } else { 0nat }
    }
}

/// The sum of the values that have arrived.
pub open spec fn total(s: Seq<Option<SubOutcome>>) -> nat
    decreases s.len(),
{
    if s.len() == 0 {
        0
    } else {
        total(s.drop_last()) + match s.last() {
            Some(o) => value_of(o),
            None => 0,
        }
    }
}

/// How many of the arrived sub-units failed.
pub open spec fn errors(s: Seq<Option<SubOutcome>>) -> nat
    decreases s.len(),
{
    if s.len() == 0 {
        0
    } else {
        errors(s.drop_last()) + if s.last() == Some(SubOutcome::Failed) { 1nat } else { 0nat }
    }
}

/// An account is final once every expected sub-unit has arrived.
pub open spec fn finalized(s: Seq<Option<SubOutcome>>) -> bool {
    received(s) == s.len()
}

/// A fresh account expecting `n` sub-units.
pub open spec fn empty_slots(n: nat) -> Seq<Option<SubOutcome>> {
    Seq::new(n, |i: int| None::<SubOutcome>)
}

/// The state change of one `accept`: the new accounts and the outcome. An
/// account is keyed by item identity and holds one slot per expected sub-unit.
pub open spec fn accept_spec(m: Map<u64, Seq<Option<SubOutcome>>>, r: PartialResult) -> (Map<
    u64,
    Seq<Option<SubOutcome>>,
>, AcceptOutcome) {
    let a = if m.contains_key(r.item) {
        m[r.item]
    } else {
        empty_slots(r.expected as nat)
    };
    if r.index >= r.expected || a.len() != r.expected {
        (m, AcceptOutcome::Rejected)
    } else if a[r.index as int] is Some {
        (m, AcceptOutcome::Duplicate)
    } else {
        let a2 = a.update(r.index as int, Some(r.outcome));
        (
            m.insert(r.item, a2),
            if finalized(a2) {
                AcceptOutcome::Finalized { total: total(a2) as u128, errors: errors(a2) as usize }
            } else {
                AcceptOutcome::Recorded
            },
        )
    }
}

/// At most every slot has arrived, and at most every arrival failed; when
/// all have arrived, no slot is empty.
pub proof fn lemma_counts_bounded(s: Seq<Option<SubOutcome>>)
    ensures
        received(s) <= s.len(),
        errors(s) <= received(s),
        received(s) == s.len() ==> forall|i: int| 0 <= i < s.len() ==> #[trigger] s[i] is Some,
    decreases s.len(),
{
    if s.len() > 0 {
        lemma_counts_bounded(s.drop_last());
        if received(s) == s.len() {
            assert forall|i: int| 0 <= i < s.len() implies #[trigger] s[i] is Some by {
                if i < s.len() - 1 {
                    assert(s[i] == s.drop_last()[i]);
                }
            }
        }
    }
}

/// A fresh account has received nothing and totals zero.
pub proof fn lemma_empty_slots(n: nat)
    ensures
        empty_slots(n).len() == n,
        forall|i: int| 0 <= i < n ==> #[trigger] empty_slots(n)[i] is None,
        received(empty_slots(n)) == 0,
        total(empty_slots(n)) == 0,
        errors(empty_slots(n)) == 0,
    decreases n,
{
    if n > 0 {
        assert(empty_slots(n).drop_last() =~= empty_slots((n - 1) as nat));
        lemma_empty_slots((n - 1) as nat);
    }
}

/// Filling an empty slot adds one to the received count and the value to
/// the total; only a failure adds to the errors.
pub proof fn lemma_fill_slot(s: Seq<Option<SubOutcome>>, i: int, o: SubOutcome)
    requires
        0 <= i < s.len(),
        s[i] is None,
    ensures
        received(s.update(i, Some(o))) == received(s) + 1,
        total(s.update(i, Some(o))) == total(s) + value_of(o),
        errors(s.update(i, Some(o))) == errors(s) + if o == SubOutcome::Failed { 1nat } else { 0nat },
    decreases s.len(),
{
    let t = s.update(i, Some(o));
    if i == s.len() - 1 {
        assert(t.drop_last() =~= s.drop_last());
    } else {
        assert(t.drop_last() =~= s.drop_last().update(i, Some(o)));
        lemma_fill_slot(s.drop_last(), i, o);
    }
}

/// Each value is at most `u64::MAX`, so the total is bounded by the number
/// of results received.
pub proof fn lemma_total_bounded(s: Seq<Option<SubOutcome>>)
    ensures
        total(s) <= received(s) * (u64::MAX as nat),
    decreases s.len(),
{
    if s.len() > 0 {
        lemma_total_bounded(s.drop_last());
        let t = s.drop_last();
        assert(received(s) * (u64::MAX as nat) == received(t) * (u64::MAX as nat) + if s.last() is Some {
            u64::MAX as nat
        } else {
            0nat
        }) by (nonlinear_arith)
            requires
                received(s) == received(t) + if s.last() is Some { 1nat } else { 0nat },
        ;
    }
}

/// The running state of one item.
pub struct ItemAccount {
    slots: Vec<Option<SubOutcome>>,
    total: u128,
    received: usize,
    errors: usize,
}

impl ItemAccount {
    /// One slot per expected sub-unit, filled as results arrive.
    pub closed spec fn view_slots(&self) -> Seq<Option<SubOutcome>> {
        self.slots@
    }

    /// The running counters agree with the slots.
    pub closed spec fn wf(&self) -> bool {
        &&& self.total as nat == total(self.slots@)
        &&& self.received as nat == received(self.slots@)
        &&& self.errors as nat == errors(self.slots@)
    }

    fn fresh(expected: usize) -> (a: ItemAccount)
        ensures
            a.wf(),
            a.view_slots() == empty_slots(expected as nat),
    {
        let mut slots: Vec<Option<SubOutcome>> = Vec::new();
        let mut k: usize = 0;
        while k < expected
            invariant
                k <= expected,
                slots@ == empty_slots(k as nat),
            decreases expected - k,
        {
            slots.push(None);
            k = k + 1;
            assert(slots@ =~= empty_slots(k as nat));
        }
        proof {
            lemma_empty_slots(expected as nat);
        }
        ItemAccount { slots, total: 0, received: 0, errors: 0 }
    }
}

/// The accounts of all items seen so far, keyed by item identity and owned
/// by one execution context.
pub struct Aggregator {
    accounts: HashMap<u64, ItemAccount>,
}

impl View for Aggregator {
    type V = Map<u64, Seq<Option<SubOutcome>>>;

    closed spec fn view(&self) -> Map<u64, Seq<Option<SubOutcome>>> {
        Map::new(|k: u64| self.accounts@.contains_key(k), |k: u64| self.accounts@[k].view_slots())
    }
}

impl Aggregator {
    /// Every account's counters agree with its slots.
    pub closed spec fn wf(&self) -> bool {
        forall|k: u64| #[trigger] self.accounts@.contains_key(k) ==> self.accounts@[k].wf()
    }

    /// An aggregator with no accounts.
    pub fn new() -> (r: Aggregator)
        ensures
            r.wf(),
            r@ == Map::<u64, Seq<Option<SubOutcome>>>::empty(),
    {
        let r = Aggregator { accounts: HashMap::new() };
        assert(r@ =~= Map::<u64, Seq<Option<SubOutcome>>>::empty());
        r
    }

    /// Takes one partial result: opens the item's account on its first
    /// result, records the result unless it is a duplicate or inconsistent,
    /// and reports when the account becomes final.
    pub fn accept(&mut self, r: PartialResult) -> (out: AcceptOutcome)
        requires
            old(self).wf(),
        ensures
            final(self).wf(),
            (final(self)@, out) == accept_spec(old(self)@, r),
    {
        broadcast use vstd::std_specs::hash::group_hash_axioms;

        let ghost old_map = self.accounts@;
        let existing = self.accounts.remove(&r.item);
        let found = existing.is_some();
        let mut acc = match existing {
            Some(a) => a,
            None => ItemAccount::fresh(r.expected),
        };
        let ghost a = acc.slots@;
        let ghost first = acc;
        proof {
            lemma_counts_bounded(a);
            lemma_total_bounded(a);
        }
        let out = if r.index >= r.expected || acc.slots.len() != r.expected {
            AcceptOutcome::Rejected
        } else if acc.slots[r.index].is_some() {
            AcceptOutcome::Duplicate
        } else {
            let v: u64 = match r.outcome {
                SubOutcome::Count(v) => v,
                SubOutcome::Failed => 0,
            };
            proof {
                lemma_fill_slot(a, r.index as int, r.outcome);
                let n = received(a);
                assert(n < a.len());
                assert((n + 1) * (u64::MAX as nat) <= (usize::MAX as nat) * (u64::MAX as nat))
                    by (nonlinear_arith)
                    requires
                        n + 1 <= usize::MAX,
                ;
                assert((usize::MAX as nat) * (u64::MAX as nat) <= (u64::MAX as nat) * (u64::MAX as nat))
                    by (nonlinear_arith)
                    requires
                        usize::MAX <= u64::MAX,
                ;
                assert((u64::MAX as nat) * (u64::MAX as nat) <= u128::MAX) by (nonlinear_arith);
                assert(n * (u64::MAX as nat) + (u64::MAX as nat) == (n + 1) * (u64::MAX as nat))
                    by (nonlinear_arith);
            }
            acc.slots.set(r.index, Some(r.outcome));
            acc.total = acc.total + v as u128;
            acc.received = acc.received + 1;
            if r.outcome == SubOutcome::Failed {
                acc.errors = acc.errors + 1;
            }
            assert(acc.slots@ == a.update(r.index as int, Some(r.outcome)));
            if acc.received == acc.slots.len() {
                AcceptOutcome::Finalized { total: acc.total, errors: acc.errors }
            } else {
                AcceptOutcome::Recorded
            }
        };
        let changed = matches!(out, AcceptOutcome::Recorded | AcceptOutcome::Finalized { .. });
        assert(acc.wf());
        if found || changed {
            self.accounts.insert(r.item, acc);
        }
        proof {
            if found {
                assert(old_map.contains_key(r.item) && old_map[r.item] == first);
            } else {
                assert(!old_map.contains_key(r.item));
            }
            if changed {
                assert(self.accounts@ == old_map.insert(r.item, acc));
            } else if found {
                assert(acc == first);
                assert(self.accounts@ =~= old_map);
            } else {
                assert(self.accounts@ =~= old_map);
            }
            assert(self@ =~= accept_spec(old(self)@, r).0);
        }
        out
    }
}

/// An account finalizes at most once, and only when every expected
/// sub-unit has arrived: an accept that reports finalization found the
/// account open and leaves it with as many results as it expected; an
/// accept on a final account changes nothing and reports no finalization;
/// and every final account is left as it was.
pub proof fn lemma_finalizes_once(m: Map<u64, Seq<Option<SubOutcome>>>, r: PartialResult)
    ensures
        ({
            let (m2, out) = accept_spec(m, r);
            &&& out is Finalized ==> {
                &&& !(m.contains_key(r.item) && finalized(m[r.item]))
                &&& m2.contains_key(r.item)
                &&& received(m2[r.item]) == m2[r.item].len() == r.expected
                &&& out == AcceptOutcome::Finalized {
                    total: total(m2[r.item]) as u128,
                    errors: errors(m2[r.item]) as usize,
                }
            }
            &&& m.contains_key(r.item) && finalized(m[r.item]) ==> m2 == m && !(out is Finalized)
            &&& forall|id: u64|
                m.contains_key(id) && finalized(#[trigger] m[id]) ==> m2.contains_key(id) && m2[id]
                    == m[id]
        }),
{
    if m.contains_key(r.item) {
        lemma_counts_bounded(m[r.item]);
    }
    let (m2, out) = accept_spec(m, r);
    assert forall|id: u64| m.contains_key(id) && finalized(#[trigger] m[id]) implies m2.contains_key(
        id,
    ) && m2[id] == m[id] by {
        lemma_counts_bounded(m[id]);
    }
}

/// Delivering a partial result again changes nothing: the same result a
/// second time leaves the accounts as the first delivery left them, and once
/// an (item, index) pair is recorded, any later result for that pair is
/// turned away without touching the accounts, so the total stays as it was.
pub proof fn lemma_duplicate_delivery_ignored(
    m: Map<u64, Seq<Option<SubOutcome>>>,
    r: PartialResult,
    r2: PartialResult,
)
    ensures
        accept_spec(accept_spec(m, r).0, r).0 == accept_spec(m, r).0,
        ({
            let (m1, out1) = accept_spec(m, r);
            (out1 is Recorded || out1 is Finalized || out1 is Duplicate) && r2.item == r.item
                && r2.index == r.index ==> {
                let (m3, out3) = accept_spec(m1, r2);
                &&& m3 == m1
                &&& out3 is Duplicate || out3 is Rejected
            }
        }),
{
    let (m1, out1) = accept_spec(m, r);
    if out1 is Recorded || out1 is Finalized {
        assert(m1.contains_key(r.item));
        assert(m1[r.item][r.index as int] is Some);
    }
}

} // verus!
