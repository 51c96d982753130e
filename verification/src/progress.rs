//! The line never stalls: as long as the collector has not seen its inbound
//! channel close, some stage that has not ended can take a step.
//!
//! Together with the bounds on what every stage can take, this is why a run
//! of the line comes to its end: the records of a run grow step by step,
//! each stage's part of them is bounded, and a record that is not complete
//! can always grow.

use crate::generator::{emissions, generator_numbers_items};
use crate::history::{actions, admissible, received, Input};
use crate::line::{lemma_channel_in_time, lemma_no_station_gives_up, lemma_stations_wf, LineRun};
use crate::product::services;
use crate::schedule::{arrival_times, clock, timed, work_reported};
use crate::station::{EventView, Phase};
use vstd::prelude::*;

verus! {

/// One step of one stage of the line.
pub enum Step {
    /// The generator is asked once more, at this reading of the clock.
    Tick(u128),
    /// The station of this place takes this input.
    React(int, Input),
    /// The collector receives an item, at this reading of the clock.
    Collect(u128),
    /// The collector sees its inbound channel close.
    Close,
}

impl LineRun {
    /// The record after one more step.
    pub open spec fn after(self, step: Step) -> LineRun {
        match step {
            Step::Tick(t) => LineRun { ticks: self.ticks.push(t), ..self },
            Step::React(i, input) => LineRun {
                histories: self.histories.update(i, self.histories[i].push(input)),
                ..self
            },
            Step::Collect(t) => LineRun { finishes: self.finishes.push(t), ..self },
            Step::Close => LineRun { collector_closed: true, ..self },
        }
    }

    /// The step is one of a stage that has not ended: the generator has not
    /// closed, the station has not closed, the collector has not seen
    /// closure.
    pub open spec fn live(self, step: Step) -> bool {
        match step {
            Step::Tick(_) => !self.sender_gone(0),
            Step::React(i, _) => 0 <= i < self.stations() && self.end(i).phase != Phase::Closed,
            Step::Collect(_) | Step::Close => !self.collector_closed,
        }
    }

    /// By the time `t` all that the record holds has happened, and every
    /// slice in hand can be done.
    pub open spec fn settled_by(self, t: u128) -> bool {
        &&& forall|i: int|
            0 <= i < self.stations() ==> clock(0, #[trigger] self.histories[i]) + work_reported(
                self.end(i),
                EventView::WorkDone,
            ) <= t
        &&& forall|i: int, j: int|
            0 <= i <= self.stations() && 0 <= j < self.offered_at(i).len()
                ==> #[trigger] self.offered_at(i)[j] <= t
    }
}

/// A step of the generator keeps a record consistent.
proof fn lemma_tick(r: LineRun, t: u128)
    requires
        r.consistent(),
        !r.sender_gone(0),
    ensures
        r.after(Step::Tick(t)).consistent(),
{
    let next = r.after(Step::Tick(t));
    let g = r.generator();
    assert(next.ticks.drop_last() =~= r.ticks);
    assert(emissions(g, next.ticks).drop_last() =~= emissions(g, r.ticks));
    generator_numbers_items(services(r.cfgs), r.count, r.interarrival_ms, r.ticks);
    generator_numbers_items(services(r.cfgs), r.count, r.interarrival_ms, next.ticks);
    let old = r.generated();
    let new = next.generated();
    assert(new.len() >= old.len());
    assert(new.take(old.len() as int) =~= old);
    assert(r.channel_ok(0));
    assert(next.configured());
    assert forall|i: int| 0 <= i < next.stations() implies #[trigger] next.station_ok(i) by {
        assert(r.station_ok(i));
    }
    assert forall|i: int| 0 <= i <= next.stations() implies #[trigger] next.channel_ok(i) by {
        assert(r.channel_ok(i));
        if i == 0 {
            assert(!r.saw_closure(0));
            assert(next.offered(0).take(next.taken(0) as int) =~= r.offered(0).take(
                r.taken(0) as int,
            ));
            assert forall|j: int| 0 <= j < next.taken(0) implies (#[trigger] next.taken_at(0)[j])
                >= next.offered_at(0)[j] by {
                assert(r.taken_at(0)[j] >= r.offered_at(0)[j]);
                assert(new[j] == old[j]);
            }
        }
    }
}

/// A step of the collector keeps a record consistent: it receives the next
/// item that was put into its channel, or, when the last station has ended
/// and nothing is left, it sees the channel close.
proof fn lemma_collect(r: LineRun, t: u128) -> (step: Step)
    requires
        r.consistent(),
        !r.collector_closed,
        r.sender_gone(r.stations()),
        r.settled_by(t),
    ensures
        r.live(step),
        r.after(step).consistent(),
{
    let n = r.stations();
    assert(r.channel_ok(n));
    let step = if r.finishes.len() < r.offered(n).len() {
        Step::Collect(t)
    } else {
        Step::Close
    };
    let next = r.after(step);
    assert(next.configured());
    assert forall|i: int| 0 <= i < next.stations() implies #[trigger] next.station_ok(i) by {
        assert(r.station_ok(i));
    }
    assert forall|i: int| 0 <= i <= next.stations() implies #[trigger] next.channel_ok(i) by {
        assert(r.channel_ok(i));
        if i == n && r.finishes.len() < r.offered(n).len() {
            assert forall|j: int| 0 <= j < next.taken(n) implies (#[trigger] next.taken_at(n)[j])
                >= next.offered_at(n)[j] by {
                if j < r.taken(n) {
                    assert(r.taken_at(n)[j] >= r.offered_at(n)[j]);
                } else {
                    assert(r.offered_at(n)[j] <= t);
                }
            }
        }
    }
    step
}

/// The event that a station of a consistent record can take next: what
/// its channel holds for it while it waits, closure once the sender has
/// gone and nothing is left, and else the completion of what it asked for.
pub open spec fn next_event(r: LineRun, i: int) -> EventView {
    match r.end(i).phase {
        Phase::Waiting => if r.taken(i) < r.offered(i).len() {
            EventView::Arrival(r.offered(i)[r.taken(i) as int])
        } else {
            EventView::InboundClosed
        },
        Phase::Working => EventView::WorkDone,
        Phase::Forwarding => EventView::Sent,
        _ => EventView::NoneReady,
    }
}

/// A step of a station that has not ended keeps a record consistent, if
/// either its channel holds an item for it or the sender has gone.
proof fn lemma_react(r: LineRun, i: int, t: u128)
    requires
        r.consistent(),
        0 <= i < r.stations(),
        r.end(i).phase != Phase::Closed,
        r.taken(i) < r.offered(i).len() || r.sender_gone(i),
        r.settled_by(t),
    ensures
        r.after(Step::React(i, Input { event: next_event(r, i), now: t })).consistent(),
{
    let event = next_event(r, i);
    let input = Input { event, now: t };
    let next = r.after(Step::React(i, input));
    let s = r.start(i);
    let h = r.histories[i];
    let h2 = h.push(input);
    let mid = r.end(i);
    lemma_stations_wf(r, i);
    lemma_channel_in_time(r, i);
    assert(r.station_ok(i));
    assert(r.channel_ok(i));
    assert(r.channel_ok(i + 1));
    assert(next.histories[i] == h2);
    assert(h2.drop_last() =~= h);
    assert(h2.last() == input);
    assert(next.start(i) == s);
    assert(clock(0, h) + work_reported(mid, EventView::WorkDone) <= t);
    if let EventView::Arrival(p) = event {
        let k = r.taken(i) as int;
        assert(r.in_time(r.offered(i)[k], i, r.offered_at(i)[k]));
        assert(p.fits(i));
    }
    assert(mid.accepts(event));
    assert(admissible(s, h2));
    assert(timed(0, s, h2));
    let (end2, a) = mid.step(event, t);
    assert(next.end(i) == end2);
    assert(!(end2.phase == Phase::Closed && end2.upstream_open));
    assert(next.configured());
    assert forall|j: int| 0 <= j < next.stations() implies #[trigger] next.station_ok(j) by {
        assert(r.station_ok(j));
        lemma_no_station_gives_up(r, j);
        if j != i {
            assert(next.histories[j] == r.histories[j]);
            assert(next.end(j) == r.end(j));
        }
    }
    assert forall|j: int| 0 <= j <= next.stations() implies #[trigger] next.channel_ok(j) by {
        assert(r.channel_ok(j));
        if j < r.stations() && j != i {
            assert(next.histories[j] == r.histories[j]);
        }
        if j > 0 && j - 1 != i {
            assert(next.histories[j - 1] == r.histories[j - 1]);
        }
        if j == i {
            assert(next.offered(i) == r.offered(i));
            assert(next.offered_at(i) == r.offered_at(i));
            let k = r.taken(i) as int;
            if let EventView::Arrival(p) = event {
                assert(received(h2) =~= r.offered(i).take(k + 1));
                assert forall|m: int| 0 <= m < next.taken(i) implies (#[trigger] next.taken_at(
                    i,
                )[m]) >= next.offered_at(i)[m] by {
                    if m < k {
                        assert(r.taken_at(i)[m] >= r.offered_at(i)[m]);
                    } else {
                        assert(r.offered_at(i)[m] <= t);
                    }
                }
            } else {
                assert(received(h2) =~= received(h));
                assert(arrival_times(h2) =~= arrival_times(h));
            }
        } else if j == i + 1 {
            assert(!r.saw_closure(j));
            assert(actions(s, h2).drop_last() =~= actions(s, h));
            let old = r.offered(j);
            let new = next.offered(j);
            assert(new.len() >= old.len());
            assert(new.take(r.taken(j) as int) =~= old.take(r.taken(j) as int));
            assert forall|m: int| 0 <= m < next.taken(j) implies (#[trigger] next.taken_at(j)[m])
                >= next.offered_at(j)[m] by {
                assert(r.taken_at(j)[m] >= r.offered_at(j)[m]);
                assert(next.offered_at(j)[m] == r.offered_at(j)[m]);
            }
        }
    }
}

/// Some stage from station `i` on can take a step, where every stage
/// before it has ended.
proof fn lemma_some_stage_moves(r: LineRun, t: u128, i: int) -> (step: Step)
    requires
        r.consistent(),
        !r.collector_closed,
        r.settled_by(t),
        0 <= i <= r.stations(),
        r.sender_gone(i),
    ensures
        r.live(step),
        r.after(step).consistent(),
    decreases r.stations() - i,
{
    if i == r.stations() {
        lemma_collect(r, t)
    } else if r.end(i).phase == Phase::Closed {
        lemma_some_stage_moves(r, t, i + 1)
    } else {
        lemma_react(r, i, t);
        Step::React(i, Input { event: next_event(r, i), now: t })
    }
}

/// The line never stalls. As long as the collector has not seen its inbound
/// channel close, some stage that has not ended can take a step, at any
/// time by which all that the record holds has happened, and the record
/// with that step is consistent again.
pub proof fn line_never_stalls(r: LineRun, t: u128) -> (step: Step)
    requires
        r.consistent(),
        !r.collector_closed,
        r.settled_by(t),
    ensures
        r.live(step),
        r.after(step).consistent(),
{
    if r.sender_gone(0) {
        lemma_some_stage_moves(r, t, 0)
    } else {
        lemma_tick(r, t);
        Step::Tick(t)
    }
}

} // verus!
