//! The sink of the line: it measures each finished item and keeps the
//! order of completion and the running sums.

use crate::clock::MAX_READING_MS;
use crate::product::{ids, Product, ProductView};
use vstd::prelude::*;

verus! {

/// The measures of one finished item.
#[derive(Clone, Copy, Debug, PartialEq, Eq)]
pub struct Completion {
    /// The item's sequence number.
    pub id: u32,
    /// When the item reached the collector.
    pub finish_ms: u128,
    /// From the item's arrival in the line to its finish.
    pub turnaround_ms: u128,
    /// The turnaround less the service that the item needed over the whole
    /// line.
    pub wait_ms: u128,
}

/// An exact average of whole milliseconds: `whole_ms + rest / over`
/// milliseconds, with `rest` less than `over`.
#[derive(Clone, Copy, Debug, PartialEq, Eq)]
pub struct Average {
    /// The whole milliseconds of the average.
    pub whole_ms: u128,
    /// What is left of the sum, to be divided by `over`.
    pub rest: u128,
    /// The number of items that the sum was divided by.
    pub over: u32,
}

/// What the collector reports once the line has closed.
#[derive(Debug)]
pub struct Summary {
    /// The sequence numbers in order of completion.
    pub order: Vec<u32>,
    /// The number of items that the line was set up for; the averages are
    /// the two sums over this number.
    pub expected: u32,
    /// The sum of all turnaround times.
    pub sum_turnaround_ms: u128,
    /// The sum of all wait times.
    pub sum_wait_ms: u128,
    /// The average turnaround; none for a line set up for no item.
    pub average_turnaround: Option<Average>,
    /// The average wait; none for a line set up for no item.
    pub average_wait: Option<Average>,
}

/// `a` is the average of `sum` over `over` items.
pub open spec fn is_average(a: Average, sum: nat, over: u32) -> bool {
    &&& a.over == over
    &&& a.rest < over
    &&& a.whole_ms * over + a.rest == sum
}

/// `a` is the average of `sum` over `over` items, where there is one: none
/// over no item.
pub open spec fn is_average_if_any(a: Option<Average>, sum: nat, over: u32) -> bool {
    match a {
        Some(avg) => over > 0 && is_average(avg, sum, over),
        None => over == 0,
    }
}

/// The average of `sum` over `over` items, exactly: the quotient in whole
/// milliseconds and the rest. There is none over no item.
pub fn average(sum: u128, over: u32) -> (a: Option<Average>)
    ensures
        is_average_if_any(a, sum as nat, over),
{
    if over == 0 {
        None
    } else {
        let n: u128 = over as u128;
        let whole_ms: u128 = sum / n;
        let rest: u128 = sum % n;
        proof {
            vstd::arithmetic::div_mod::lemma_fundamental_div_mod(sum as int, n as int);
            assert(n * (sum / n) == (sum / n) * n) by (nonlinear_arith);
        }
        Some(Average { whole_ms, rest, over })
    }
}

/// The mathematical value of a [`Collector`].
pub struct CollectorModel {
    /// The service that one item needs over the whole line.
    pub total_service: nat,
    /// The number of items that the line was set up for.
    pub expected: u32,
    /// The sequence numbers received so far, in order.
    pub order: Seq<u32>,
    /// The sum of the turnaround times so far.
    pub sum_turnaround: nat,
    /// The sum of the wait times so far.
    pub sum_wait: nat,
}

impl CollectorModel {
    /// A collector that has received nothing yet.
    pub open spec fn initial(total_service: nat, expected: u32) -> CollectorModel {
        CollectorModel {
            total_service,
            expected,
            order: Seq::empty(),
            sum_turnaround: 0,
            sum_wait: 0,
        }
    }

    /// No wait is counted that was not part of a turnaround.
    pub open spec fn wf(self) -> bool {
        self.sum_wait <= self.sum_turnaround
    }

    /// An item can be measured at `finish`: it is by then at least as old as
    /// the service that it needed, and its turnaround still fits the sum.
    pub open spec fn admits(self, p: ProductView, finish: u128) -> bool {
        &&& finish >= p.arrival + self.total_service
        &&& self.sum_turnaround + (finish - p.arrival) <= u128::MAX
    }

    /// The turnaround of an item that finishes at `finish`.
    pub open spec fn turnaround(p: ProductView, finish: u128) -> int {
        finish - p.arrival
    }

    /// The wait of an item that finishes at `finish`: its turnaround less
    /// the service that it needed.
    pub open spec fn wait(self, p: ProductView, finish: u128) -> int {
        finish - p.arrival - self.total_service
    }

    /// The collector after it has measured `p` at `finish`.
    pub open spec fn record(self, p: ProductView, finish: u128) -> CollectorModel {
        CollectorModel {
            order: self.order.push(p.id),
            sum_turnaround: (self.sum_turnaround + Self::turnaround(p, finish)) as nat,
            sum_wait: (self.sum_wait + self.wait(p, finish)) as nat,
            ..self
        }
    }
}

/// The collector after it has measured each of `items`, in order, at the
/// time at the same place in `finishes`.
pub open spec fn tally(
    c: CollectorModel,
    items: Seq<ProductView>,
    finishes: Seq<u128>,
) -> CollectorModel
    decreases items.len(),
{
    if items.len() == 0 {
        c
    } else {
        tally(c, items.drop_last(), finishes.drop_last()).record(items.last(), finishes.last())
    }
}

/// The collector's order of completion is the order of receipt, and its
/// sums are what its measures say: where no item is measured before its
/// service can have been performed, the waits add up to the turnarounds
/// less the line's service once for each item.
pub proof fn collector_tallies(
    total_service: nat,
    expected: u32,
    items: Seq<ProductView>,
    finishes: Seq<u128>,
)
    requires
        items.len() == finishes.len(),
        forall|j: int|
            0 <= j < items.len() ==> finishes[j] >= (#[trigger] items[j]).arrival + total_service,
    ensures
        ({
            let c = tally(CollectorModel::initial(total_service, expected), items, finishes);
            &&& c.order == ids(items)
            &&& c.total_service == total_service
            &&& c.expected == expected
            &&& c.wf()
            &&& c.sum_wait + items.len() * total_service == c.sum_turnaround
        }),
    decreases items.len(),
{
    let c0 = CollectorModel::initial(total_service, expected);
    if items.len() == 0 {
        assert(c0.order =~= ids(items));
        assert(0 * total_service == 0) by (nonlinear_arith);
    } else {
        let front = items.drop_last();
        let times = finishes.drop_last();
        assert forall|j: int| 0 <= j < front.len() implies times[j] >= (#[trigger] front[j]).arrival
            + total_service by {
            assert(front[j] == items[j]);
        }
        collector_tallies(total_service, expected, front, times);
        let c1 = tally(c0, front, times);
        assert(c1.order.push(items.last().id) =~= ids(items));
        assert(finishes.last() >= items[items.len() - 1].arrival + total_service);
        assert((front.len() + 1) * total_service == front.len() * total_service + total_service)
            by (nonlinear_arith);
    }
}

/// The sum of turnarounds never outgrows the machine on readings of the
/// clock. After as many items as a `u32` counts, each measured at a reading
/// of the clock and none before its service can have been performed, the
/// sum is at most one greatest reading for each item, and the collector can
/// measure one more item at any reading by which its service can have been
/// performed.
pub proof fn collector_sums_fit(
    total_service: nat,
    expected: u32,
    items: Seq<ProductView>,
    finishes: Seq<u128>,
    p: ProductView,
    finish: u128,
)
    requires
        items.len() == finishes.len(),
        items.len() <= u32::MAX,
        forall|j: int|
            0 <= j < items.len() ==> finishes[j] >= (#[trigger] items[j]).arrival + total_service,
        forall|j: int| 0 <= j < finishes.len() ==> #[trigger] finishes[j] <= MAX_READING_MS,
        finish <= MAX_READING_MS,
    ensures
        ({
            let c = tally(CollectorModel::initial(total_service, expected), items, finishes);
            &&& c.sum_turnaround <= items.len() * MAX_READING_MS
            &&& c.sum_turnaround + finish <= u128::MAX
            &&& finish >= p.arrival + total_service ==> c.admits(p, finish)
        }),
    decreases items.len(),
{
    let c0 = CollectorModel::initial(total_service, expected);
    let c = tally(c0, items, finishes);
    let most = MAX_READING_MS as int;
    let n = items.len() as int;
    collector_tallies(total_service, expected, items, finishes);
    if items.len() == 0 {
        assert(n * most == 0) by (nonlinear_arith)
            requires
                n == 0,
        ;
    } else {
        let front = items.drop_last();
        let times = finishes.drop_last();
        let last = items.last();
        let at = finishes.last();
        assert forall|j: int| 0 <= j < front.len() implies times[j] >= (#[trigger] front[j]).arrival
            + total_service by {
            assert(front[j] == items[j]);
        }
        assert forall|j: int| 0 <= j < times.len() implies #[trigger] times[j] <= MAX_READING_MS by {
            assert(times[j] == finishes[j]);
        }
        collector_sums_fit(total_service, expected, front, times, last, at);
        let c1 = tally(c0, front, times);
        assert(finishes[n - 1] <= MAX_READING_MS);
        assert(at >= items[n - 1].arrival + total_service);
        assert(c == c1.record(last, at));
        assert(c.sum_turnaround == c1.sum_turnaround + (at - last.arrival));
        assert(c1.sum_turnaround <= (n - 1) * most);
        assert((n - 1) * most + most == n * most) by (nonlinear_arith);
    }
    assert(c.sum_turnaround <= n * most);
    assert(n * most + most <= u128::MAX) by (nonlinear_arith)
        requires
            0 <= n <= 0xffff_ffff,
            most == 18446744073709551615999,
    ;
}

/// The collector of a line.
#[derive(Debug)]
pub struct Collector {
    total_service: u128,
    expected: u32,
    order: Vec<u32>,
    sum_turnaround: u128,
    sum_wait: u128,
}

impl View for Collector {
    type V = CollectorModel;

    closed spec fn view(&self) -> CollectorModel {
        CollectorModel {
            total_service: self.total_service as nat,
            expected: self.expected,
            order: self.order@,
            sum_turnaround: self.sum_turnaround as nat,
            sum_wait: self.sum_wait as nat,
        }
    }
}

impl Collector {
    /// A collector for a line on which one item needs `total_service` in
    /// all and which was set up for `expected` items.
    pub fn new(total_service: u128, expected: u32) -> (c: Collector)
        ensures
            c@ == CollectorModel::initial(total_service as nat, expected),
            c@.wf(),
    {
        Collector { total_service, expected, order: Vec::new(), sum_turnaround: 0, sum_wait: 0 }
    }

    /// Whether `p` can be measured at `finish`.
    pub fn admits(&self, p: &Product, finish: u128) -> (b: bool)
        ensures
            b == self@.admits(p@, finish),
    {
        match p.arrival_ms.checked_add(self.total_service) {
            None => false,
            Some(earliest) => finish >= earliest && finish - p.arrival_ms <= u128::MAX
                - self.sum_turnaround,
        }
    }

    /// Measures an item that reached the collector at `finish`: its
    /// turnaround is the time since its arrival in the line, its wait is the
    /// turnaround less the service that it needed. The item's number joins
    /// the order of completion and both measures join the sums.
    pub fn record(&mut self, p: &Product, finish: u128) -> (done: Completion)
        requires
            old(self)@.wf(),
            old(self)@.admits(p@, finish),
        ensures
            final(self)@ == old(self)@.record(p@, finish),
            final(self)@.wf(),
            done.id == p.id,
            done.finish_ms == finish,
            done.turnaround_ms == CollectorModel::turnaround(p@, finish),
            done.wait_ms == old(self)@.wait(p@, finish),
    {
        let turnaround_ms: u128 = finish - p.arrival_ms;
        let wait_ms: u128 = turnaround_ms - self.total_service;
        self.order.push(p.id);
        self.sum_turnaround = self.sum_turnaround + turnaround_ms;
        self.sum_wait = self.sum_wait + wait_ms;
        Completion { id: p.id, finish_ms: finish, turnaround_ms, wait_ms }
    }

    /// How many items have been measured so far.
    pub fn received(&self) -> (n: usize)
        ensures
            n == self@.order.len(),
    {
        self.order.len()
    }

    /// Ends the collection and reports the order of completion, the two
    /// sums and their averages over the number of items that the line was
    /// set up for.
    pub fn finish(self) -> (summary: Summary)
        ensures
            summary.order@ == self@.order,
            summary.expected == self@.expected,
            summary.sum_turnaround_ms == self@.sum_turnaround,
            summary.sum_wait_ms == self@.sum_wait,
            is_average_if_any(summary.average_turnaround, self@.sum_turnaround, self@.expected),
            is_average_if_any(summary.average_wait, self@.sum_wait, self@.expected),
    {
        let average_turnaround = average(self.sum_turnaround, self.expected);
        let average_wait = average(self.sum_wait, self.expected);
        Summary {
            order: self.order,
            expected: self.expected,
            sum_turnaround_ms: self.sum_turnaround,
            sum_wait_ms: self.sum_wait,
            average_turnaround,
            average_wait,
        }
    }
}

} // verus!
