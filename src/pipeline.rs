//! The controller: pulls items from the source in order, fans each one out
//! on the worker pool, feeds the sub-unit results to the aggregator, and
//! reports every enumerated item as succeeded, failed or cancelled.

use crate::aggregator::{
    errors, received, total, AcceptOutcome, Aggregator, PartialResult, SubOutcome,
};
use crate::split::{spec_split, split_payload, sum_of, SplitStrategy};
use crate::transform::{
    counts_of, match_count, pattern_compiles, unit_views, FanOutPool, Matcher, SetupError,
};
use vstd::prelude::*;

verus! {

/// One entry handed over by the source: an item's identity text and either
/// its payload or the fact that it could not be read.
pub enum SourceEntry {
    Read { name: String, payload: Vec<u8> },
    Unreadable { name: String },
}

impl SourceEntry {
    /// The entry's identity text.
    pub open spec fn spec_name(&self) -> Seq<char> {
        match self {
            SourceEntry::Read { name, .. } => name@,
            SourceEntry::Unreadable { name } => name@,
        }
    }
}

/// Why an item failed.
#[derive(Clone, Copy, Debug, PartialEq, Eq, Structural)]
pub enum FailureReason {
    /// The source could not read the item.
    Unreadable,
}

/// What became of one item.
#[derive(Clone, Copy, Debug, PartialEq, Eq, Structural)]
pub enum ItemStatus {
    Succeeded { total: u128, errors: usize },
    Failed(FailureReason),
    Cancelled,
}

/// The report on one enumerated item; `id` is its position in the source.
pub struct ItemReport {
    pub id: u64,
    pub name: String,
    pub status: ItemStatus,
}

/// The per-item transform used by a run: matches of `pattern`.
pub open spec fn count_fn(pattern: Seq<char>) -> spec_fn(Seq<u8>) -> nat {
    |u: Seq<u8>| match_count(pattern, u)
}

/// The total of one readable payload: the matches summed over its sub-units.
pub open spec fn item_total(pattern: Seq<char>, payload: Seq<u8>, strategy: SplitStrategy) -> nat {
    sum_of(count_fn(pattern), spec_split(payload, strategy))
}

/// What a run reports for the entry at position `k`: items at or after the
/// point of cancellation are cancelled; of the others, an unreadable one
/// failed, and a readable one succeeded with its total and no transform
/// errors.
pub open spec fn expected_status(
    e: SourceEntry,
    k: nat,
    pattern: Seq<char>,
    strategy: SplitStrategy,
    cancel_at: Option<usize>,
) -> ItemStatus {
    if cancel_at matches Some(c) && k >= c {
        ItemStatus::Cancelled
    } else {
        match e {
            SourceEntry::Unreadable { .. } => ItemStatus::Failed(FailureReason::Unreadable),
            SourceEntry::Read { payload, .. } => ItemStatus::Succeeded {
                total: item_total(pattern, payload@, strategy) as u128,
                errors: 0,
            },
        }
    }
}

proof fn lemma_sum_prefix(f: spec_fn(Seq<u8>) -> nat, p: Seq<Seq<u8>>, j: int)
    requires
        0 <= j < p.len(),
    ensures
        sum_of(f, p.subrange(0, j + 1)) == sum_of(f, p.subrange(0, j)) + f(p[j]),
{
    assert(p.subrange(0, j + 1).drop_last() =~= p.subrange(0, j));
}

/// Fans one readable item out and feeds its sub-unit counts to `agg`, which
/// holds no account for `id` yet. Returns the item's status; the total
/// always fits, since each of at most `usize::MAX` counts is below 2^64.
fn process_item(
    agg: &mut Aggregator,
    id: u64,
    payload: &Vec<u8>,
    m: &Matcher,
    pool: &FanOutPool,
    strategy: SplitStrategy,
) -> (st: ItemStatus)
    requires
        old(agg).wf(),
        !old(agg)@.contains_key(id),
    ensures
        final(agg).wf(),
        forall|x: u64| x != id ==> (#[trigger] final(agg)@.contains_key(x) <==> old(agg)@.contains_key(x)),
        item_total(m.pattern(), payload@, strategy) <= u128::MAX,
        st == (ItemStatus::Succeeded {
            total: item_total(m.pattern(), payload@, strategy) as u128,
            errors: 0,
        }),
{
    let units = split_payload(payload.as_slice(), strategy);
    let counts = pool.counts(m, &units);
    let n = units.len();
    let ghost f = count_fn(m.pattern());
    let ghost p = spec_split(payload@, strategy);
    proof {
        crate::split::lemma_split_reassembles(payload@, strategy);
        assert(unit_views(units@) =~= p);
    }
    let mut j: usize = 0;
    let mut st = ItemStatus::Cancelled;
    while j < n
        invariant
            n == units@.len() == counts@.len() == p.len(),
            n >= 1,
            unit_views(units@) == p,
            forall|k: int| 0 <= k < n ==> #[trigger] counts@[k] == counts_of(m.pattern(), p)[k],
            f == count_fn(m.pattern()),
            j <= n,
            agg.wf(),
            forall|x: u64| x != id ==> (#[trigger] agg@.contains_key(x) <==> old(agg)@.contains_key(x)),
            j == 0 ==> !agg@.contains_key(id),
            j > 0 ==> agg@.contains_key(id) && agg@[id].len() == n && received(agg@[id]) == j
                && total(agg@[id]) == sum_of(f, p.subrange(0, j as int)) && errors(agg@[id]) == 0
                && forall|i: int| j <= i < n ==> #[trigger] agg@[id][i] is None,
            j == n ==> sum_of(f, p) <= u128::MAX && st == (ItemStatus::Succeeded {
                total: sum_of(f, p) as u128,
                errors: 0,
            }),
        decreases n - j,
    {
        let c = counts[j];
        let r = PartialResult { item: id, index: j, expected: n, outcome: SubOutcome::Count(c as u64) };
        let ghost before = agg@;
        proof {
            lemma_sum_prefix(f, p, j as int);
            assert(f(p[j as int]) == c);
            if j == 0 {
                crate::aggregator::lemma_empty_slots(n as nat);
                assert(p.subrange(0, 0) =~= Seq::<Seq<u8>>::empty());
                assert(sum_of(f, p.subrange(0, 0)) == 0);
            }
        }
        let out = agg.accept(r);
        proof {
            let a = if before.contains_key(id) { before[id] } else { crate::aggregator::empty_slots(n as nat) };
            assert(a[j as int] is None);
            crate::aggregator::lemma_fill_slot(a, j as int, r.outcome);
            let a2 = a.update(j as int, Some(r.outcome));
            assert forall|i: int| j + 1 <= i < n implies #[trigger] a2[i] is None by {
                assert(a2[i] == a[i]);
            }
            if j + 1 == n {
                assert(p.subrange(0, n as int) =~= p);
                crate::aggregator::lemma_total_bounded(a2);
                crate::aggregator::lemma_counts_bounded(a2);
                assert((n as nat) * (u64::MAX as nat) <= u128::MAX) by (nonlinear_arith)
                    requires
                        n <= usize::MAX,
                        usize::MAX <= u64::MAX,
                ;
            }
        }
        match out {
            AcceptOutcome::Finalized { total, errors } => {
                st = ItemStatus::Succeeded { total, errors };
            },
            _ => {},
        }
        j = j + 1;
    }
    proof {
        assert(p.subrange(0, n as int) =~= p);
    }
    st
}

/// What a run was asked to do.
#[derive(Clone, Copy, Debug, PartialEq, Eq, Structural)]
pub struct Config {
    /// Workers in the fan-out pool; at least one.
    pub workers: usize,
    /// How each payload is cut into sub-units.
    pub strategy: SplitStrategy,
}

/// The outcome of a run: one report per enumerated item, in source order.
pub struct Summary {
    pub items: Vec<ItemReport>,
}

/// The statuses of the reports.
pub open spec fn statuses(items: Seq<ItemReport>) -> Seq<ItemStatus> {
    items.map_values(|r: ItemReport| r.status)
}

/// How many of the statuses satisfy `pred`.
pub open spec fn count_where(s: Seq<ItemStatus>, pred: spec_fn(ItemStatus) -> bool) -> nat
    decreases s.len(),
{
    if s.len() == 0 {
        0
    } else {
        count_where(s.drop_last(), pred) + if pred(s.last()) { 1nat } else { 0nat }
    }
}

/// The test for a success.
pub open spec fn is_succeeded() -> spec_fn(ItemStatus) -> bool {
    |st: ItemStatus| st is Succeeded
}

/// The test for a failure.
pub open spec fn is_failed() -> spec_fn(ItemStatus) -> bool {
    |st: ItemStatus| st is Failed
}

/// The test for a cancellation.
pub open spec fn is_cancelled() -> spec_fn(ItemStatus) -> bool {
    |st: ItemStatus| st is Cancelled
}

/// The number of items in each category of a summary.
#[derive(Clone, Copy, Debug, PartialEq, Eq, Structural)]
pub struct Tally {
    pub succeeded: usize,
    pub failed: usize,
    pub cancelled: usize,
}

/// Every status falls in exactly one of the three categories, so the
/// category counts add up to the number of items.
pub proof fn lemma_categories_partition(s: Seq<ItemStatus>)
    ensures
        count_where(s, is_succeeded()) + count_where(s, is_failed()) + count_where(
            s,
            is_cancelled(),
        ) == s.len(),
    decreases s.len(),
{
    if s.len() > 0 {
        lemma_categories_partition(s.drop_last());
    }
}

impl Summary {
    /// Counts the items of each category.
    pub fn tally(&self) -> (t: Tally)
        ensures
            t.succeeded == count_where(statuses(self.items@), is_succeeded()),
            t.failed == count_where(statuses(self.items@), is_failed()),
            t.cancelled == count_where(statuses(self.items@), is_cancelled()),
            t.succeeded + t.failed + t.cancelled == self.items@.len(),
    {
        let ghost st = statuses(self.items@);
        let mut t = Tally { succeeded: 0, failed: 0, cancelled: 0 };
        let mut k: usize = 0;
        while k < self.items.len()
            invariant
                k <= self.items@.len(),
                st == statuses(self.items@),
                t.succeeded == count_where(st.subrange(0, k as int), is_succeeded()),
                t.failed == count_where(st.subrange(0, k as int), is_failed()),
                t.cancelled == count_where(st.subrange(0, k as int), is_cancelled()),
            decreases self.items@.len() - k,
        {
            proof {
                assert(st.subrange(0, k as int + 1).drop_last() =~= st.subrange(0, k as int));
                lemma_categories_partition(st.subrange(0, k as int));
            }
            match self.items[k].status {
                ItemStatus::Succeeded { .. } => t.succeeded = t.succeeded + 1,
                ItemStatus::Failed(_) => t.failed = t.failed + 1,
                ItemStatus::Cancelled => t.cancelled = t.cancelled + 1,
            }
            k = k + 1;
        }
        proof {
            assert(st.subrange(0, k as int) =~= st);
            lemma_categories_partition(st);
        }
        t
    }

    /// The identity and total of every succeeded item, in source order.
    pub fn finalized_totals(&self) -> (r: Vec<(u64, u128)>)
        ensures
            r@ == succeeded_totals(self.items@),
    {
        let mut r: Vec<(u64, u128)> = Vec::new();
        let mut k: usize = 0;
        while k < self.items.len()
            invariant
                k <= self.items@.len(),
                r@ == succeeded_totals(self.items@.subrange(0, k as int)),
            decreases self.items@.len() - k,
        {
            proof {
                assert(self.items@.subrange(0, k as int + 1).drop_last() =~= self.items@.subrange(0, k as int));
            }
            match self.items[k].status {
                ItemStatus::Succeeded { total, .. } => {
                    r.push((self.items[k].id, total));
                },
                _ => {},
            }
            k = k + 1;
        }
        proof {
            assert(self.items@.subrange(0, k as int) =~= self.items@);
        }
        r
    }
}

/// The identity and total of each succeeded report, in order.
pub open spec fn succeeded_totals(items: Seq<ItemReport>) -> Seq<(u64, u128)>
    decreases items.len(),
{
    if items.len() == 0 {
        Seq::empty()
    } else {
        let rest = succeeded_totals(items.drop_last());
        match items.last().status {
            ItemStatus::Succeeded { total, .. } => rest.push((items.last().id, total)),
            _ => rest,
        }
    }
}

/// With nothing cancelled and every entry readable, a run that reports each entry as `execute` does finalizes every
/// enumerated item: all reports are successes, one total per item.
pub proof fn lemma_complete_without_failures(
    entries: Seq<SourceEntry>,
    items: Seq<ItemReport>,
    pattern: Seq<char>,
    strategy: SplitStrategy,
)
    requires
        items.len() == entries.len(),
        forall|k: int|
            0 <= k < entries.len() ==> (#[trigger] items[k]).status == expected_status(
                entries[k],
                k as nat,
                pattern,
                strategy,
                None,
            ),
        forall|k: int| 0 <= k < entries.len() ==> #[trigger] entries[k] is Read,
    ensures
        count_where(statuses(items), is_succeeded()) == entries.len(),
        succeeded_totals(items).len() == entries.len(),
    decreases items.len(),
{
    if items.len() > 0 {
        let n = items.len() - 1;
        assert(entries[n] is Read);
        assert(statuses(items).drop_last() =~= statuses(items.drop_last()));
        lemma_complete_without_failures(entries.drop_last(), items.drop_last(), pattern, strategy);
    }
}

/// The controller's state between two entries: the accounts, the reports so
/// far, and whether cancellation has been signalled. Completion is signalled
/// by `finish`, which consumes the controller, so no entry can follow it.
pub struct Controller {
    agg: Aggregator,
    items: Vec<ItemReport>,
    cancelled: bool,
}

impl Controller {
    /// The reports so far, one per entry taken, in source order.
    pub closed spec fn reports(&self) -> Seq<ItemReport> {
        self.items@
    }

    /// Whether cancellation has been signalled.
    pub closed spec fn spec_cancelled(&self) -> bool {
        self.cancelled
    }

    /// The aggregator is sound and holds accounts only for items taken so far.
    pub closed spec fn wf(&self) -> bool {
        &&& self.agg.wf()
        &&& forall|x: u64| #[trigger] self.agg@.contains_key(x) ==> x < self.items@.len()
    }

    /// A controller that has taken nothing.
    pub fn new() -> (c: Controller)
        ensures
            c.wf(),
            c.reports().len() == 0,
            !c.spec_cancelled(),
    {
        Controller { agg: Aggregator::new(), items: Vec::new(), cancelled: false }
    }

    /// Signals cancellation: every entry taken from now on is reported
    /// cancelled instead of processed.
    pub fn cancel(&mut self)
        requires
            old(self).wf(),
        ensures
            final(self).wf(),
            final(self).spec_cancelled(),
            final(self).reports() == old(self).reports(),
    {
        self.cancelled = true;
    }

    /// Whether cancellation has been signalled.
    pub fn is_cancelled(&self) -> (r: bool)
        ensures
            r == self.spec_cancelled(),
    {
        self.cancelled
    }

    /// Takes the next entry from the source: numbers it, processes it unless
    /// cancellation was signalled, and appends its report.
    pub fn on_entry(&mut self, entry: &SourceEntry, m: &Matcher, pool: &FanOutPool, strategy: SplitStrategy) -> (st: ItemStatus)
        requires
            old(self).wf(),
        ensures
            final(self).wf(),
            final(self).spec_cancelled() == old(self).spec_cancelled(),
            final(self).reports().len() == old(self).reports().len() + 1,
            final(self).reports().drop_last() == old(self).reports(),
            ({
                let k = old(self).reports().len();
                let r = final(self).reports().last();
                &&& r.id == k
                &&& r.name@ == entry.spec_name()
                &&& r.status == st
                &&& st == if old(self).spec_cancelled() {
                    ItemStatus::Cancelled
                } else {
                    expected_status(*entry, k, m.pattern(), strategy, None)
                }
                &&& !old(self).spec_cancelled() && entry is Read ==> item_total(
                    m.pattern(),
                    entry->payload@,
                    strategy,
                ) <= u128::MAX
            }),
    {
        let k = self.items.len();
        let (name, status) = match entry {
            SourceEntry::Unreadable { name } => {
                let st = if self.cancelled {
                    ItemStatus::Cancelled
                } else {
                    ItemStatus::Failed(FailureReason::Unreadable)
                };
                (name.clone(), st)
            },
            SourceEntry::Read { name, payload } => {
                let st = if self.cancelled {
                    ItemStatus::Cancelled
                } else {
                    process_item(&mut self.agg, k as u64, payload, m, pool, strategy)
                };
                (name.clone(), st)
            },
        };
        let ghost old_items = self.items@;
        self.items.push(ItemReport { id: k as u64, name, status });
        proof {
            assert(self.items@.drop_last() =~= old_items);
        }
        status
    }

    /// Signals that the source is exhausted and hands back the summary.
    pub fn finish(self) -> (s: Summary)
        ensures
            s.items@ == self.reports(),
    {
        Summary { items: self.items }
    }
}

/// Runs the batch: items are taken in source order and numbered from zero;
/// each readable item is split, counted on the pool and reduced by the
/// aggregator; an unreadable item is reported failed and the run goes on.
/// Cancellation is signalled once `cancel_at` items (when given) have been
/// taken, so the rest are reported cancelled.
pub fn execute(
    entries: &Vec<SourceEntry>,
    m: &Matcher,
    pool: &FanOutPool,
    strategy: SplitStrategy,
    cancel_at: Option<usize>,
) -> (s: Summary)
    ensures
        s.items@.len() == entries@.len(),
        forall|k: int|
            0 <= k < entries@.len() ==> {
                &&& (#[trigger] s.items@[k]).id == k
                &&& s.items@[k].name@ == entries@[k].spec_name()
                &&& s.items@[k].status == expected_status(
                    entries@[k],
                    k as nat,
                    m.pattern(),
                    strategy,
                    cancel_at,
                )
            },
{
    let mut c = Controller::new();
    let mut k: usize = 0;
    while k < entries.len()
        invariant
            k <= entries@.len(),
            c.wf(),
            c.reports().len() == k,
            c.spec_cancelled() == (cancel_at matches Some(n) && k > n),
            forall|i: int|
                0 <= i < k ==> {
                    &&& (#[trigger] c.reports()[i]).id == i
                    &&& c.reports()[i].name@ == entries@[i].spec_name()
                    &&& c.reports()[i].status == expected_status(
                        entries@[i],
                        i as nat,
                        m.pattern(),
                        strategy,
                        cancel_at,
                    )
                },
        decreases entries@.len() - k,
    {
        let due = match cancel_at {
            Some(n) => k >= n,
            None => false,
        };
        if due && !c.is_cancelled() {
            c.cancel();
        }
        let ghost before = c.reports();
        c.on_entry(&entries[k], m, pool, strategy);
        proof {
            assert forall|i: int| 0 <= i < k + 1 implies {
                &&& (#[trigger] c.reports()[i]).id == i
                &&& c.reports()[i].name@ == entries@[i].spec_name()
                &&& c.reports()[i].status == expected_status(
                    entries@[i],
                    i as nat,
                    m.pattern(),
                    strategy,
                    cancel_at,
                )
            } by {
                if i < k {
                    assert(c.reports()[i] == before[i]);
                }
            }
        }
        k = k + 1;
    }
    c.finish()
}

/// Sets up the matcher and the pool from `pattern` and `config`, then runs
/// the batch as `execute` does. A pattern that does not compile, or zero
/// workers, ends the run before any item is pulled.
pub fn run(
    entries: &Vec<SourceEntry>,
    pattern: &str,
    config: Config,
    cancel_at: Option<usize>,
) -> (r: Result<Summary, SetupError>)
    ensures
        !pattern_compiles(pattern@) <==> r == Err::<Summary, SetupError>(SetupError::InvalidPattern),
        r == Err::<Summary, SetupError>(SetupError::NoWorkers) <==> pattern_compiles(pattern@)
            && config.workers == 0,
        r matches Err(e) ==> e == SetupError::InvalidPattern || e == SetupError::NoWorkers || e
            == SetupError::PoolUnavailable,
        r matches Ok(s) ==> {
            &&& s.items@.len() == entries@.len()
            &&& forall|k: int|
                0 <= k < entries@.len() ==> {
                    &&& (#[trigger] s.items@[k]).id == k
                    &&& s.items@[k].name@ == entries@[k].spec_name()
                    &&& s.items@[k].status == expected_status(
                        entries@[k],
                        k as nat,
                        pattern@,
                        config.strategy,
                        cancel_at,
                    )
                }
        },
{
    let m = match Matcher::new(pattern) {
        Ok(m) => m,
        Err(e) => return Err(e),
    };
    let pool = match FanOutPool::new(config.workers) {
        Ok(p) => p,
        Err(e) => return Err(e),
    };
    Ok(execute(entries, &m, &pool, config.strategy, cancel_at))
}

} // verus!
