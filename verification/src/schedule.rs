//! Timing of one station: an item leaves no sooner than the service that it
//! was granted allows.
//!
//! The station neither reads a clock nor waits; its driver reports the
//! clock's reading with each event. What is proved here holds of every
//! history whose readings are those of a clock that does not run backwards
//! and of a driver that spends on each slice at least the slice's length.

use crate::history::{
    actions, admissible, forwarded, held, received, run, run_keeps_invariant, Input,
};
use crate::policy::{lemma_slice_bounds, slice_of};
use crate::product::ProductView;
use crate::station::{ActionView, EventView, Phase, StationModel};
use vstd::prelude::*;

verus! {

/// The clock's latest reading: that of the last input, or `since` where
/// there is none yet.
pub open spec fn clock(since: u128, inputs: Seq<Input>) -> u128 {
    if inputs.len() == 0 {
        since
    } else {
        inputs.last().now
    }
}

/// The time that the driver has spent on what `event` reports: the slice in
/// hand for the end of a slice, nothing for any other event.
pub open spec fn work_reported(s: StationModel, event: EventView) -> int {
    match (event, s.current) {
        (EventView::WorkDone, Some(p)) => slice_of(p.remaining[s.index()], s.policy) as int,
        _ => 0,
    }
}

/// The readings of a history are consistent: none is earlier than the one
/// before, starting at `since`, and the end of a slice is reported no
/// sooner than the slice's length after the slice was asked for.
pub open spec fn timed(since: u128, s: StationModel, inputs: Seq<Input>) -> bool
    decreases inputs.len(),
{
    inputs.len() == 0 || {
        &&& timed(since, s, inputs.drop_last())
        &&& clock(since, inputs.drop_last()) + work_reported(
            run(s, inputs.drop_last()),
            inputs.last().event,
        ) <= inputs.last().now
    }
}

/// An item reaches the station at `index` in time: untouched by it, with
/// all of `service` still owed there, and no sooner than `lead` after it
/// entered the line.
pub open spec fn punctual(p: ProductView, index: int, service: u64, lead: nat, now: u128) -> bool {
    &&& p.remaining[index] == service
    &&& p.enter[index] is None
    &&& now >= p.arrival + lead
}

/// Every item that a history brings reaches the station in time.
pub open spec fn all_punctual(inputs: Seq<Input>, index: int, service: u64, lead: nat) -> bool {
    forall|j: int|
        0 <= j < received(inputs).len() ==> punctual(
            #[trigger] received(inputs)[j],
            index,
            service,
            lead,
            arrival_times(inputs)[j],
        )
}

/// At time `t` an item inside the station at `index` is where its service so
/// far allows: before its first admission it owes all of `service` and is
/// at least `lead` old; after it, it was admitted at least `lead` after it
/// entered the line, and at least the service that it has had since has
/// passed.
pub open spec fn on_schedule(p: ProductView, index: int, service: u64, lead: nat, t: u128) -> bool {
    &&& p.remaining[index] <= service
    &&& match p.enter[index] {
        None => p.remaining[index] == service && t >= p.arrival + lead,
        Some(e) => e >= p.arrival + lead && t >= e + (service - p.remaining[index]),
    }
}

/// Every item of a sequence is on schedule at time `t`.
pub open spec fn all_on_schedule(
    items: Seq<ProductView>,
    index: int,
    service: u64,
    lead: nat,
    t: u128,
) -> bool {
    forall|i: int|
        0 <= i < items.len() ==> on_schedule(#[trigger] items[i], index, service, lead, t)
}

/// An item leaves the station at `index` at time `t` with its service done:
/// it owes nothing there, at least `lead` and `service` have passed since
/// it entered the line, and, if the station admitted it, at least `service`
/// since then.
pub open spec fn served_in_full(
    p: ProductView,
    index: int,
    service: u64,
    lead: nat,
    t: u128,
) -> bool {
    &&& p.remaining[index] == 0
    &&& t >= p.arrival + lead + service
    &&& (p.enter[index] matches Some(e) ==> e >= p.arrival + lead && t >= e + service)
}

/// When each item of `received(inputs)` arrived.
pub open spec fn arrival_times(inputs: Seq<Input>) -> Seq<u128>
    decreases inputs.len(),
{
    if inputs.len() == 0 {
        Seq::empty()
    } else {
        arrival_times(inputs.drop_last()) + match inputs.last().event {
            EventView::Arrival(_) => seq![inputs.last().now],
            _ => Seq::empty(),
        }
    }
}

/// When each item of `forwarded(actions(s, inputs))` was handed downstream.
pub open spec fn departure_times(s: StationModel, inputs: Seq<Input>) -> Seq<u128>
    decreases inputs.len(),
{
    if inputs.len() == 0 {
        Seq::empty()
    } else {
        departure_times(s, inputs.drop_last()) + match run(s, inputs.drop_last()).step(
            inputs.last().event,
            inputs.last().now,
        ).1 {
            ActionView::Forward(_) => seq![inputs.last().now],
            _ => Seq::empty(),
        }
    }
}

/// There is one arrival time for each item received.
pub proof fn lemma_arrival_times_len(inputs: Seq<Input>)
    ensures
        arrival_times(inputs).len() == received(inputs).len(),
    decreases inputs.len(),
{
    if inputs.len() > 0 {
        lemma_arrival_times_len(inputs.drop_last());
    }
}

/// One step keeps every item inside on schedule, and an item that it hands
/// downstream has its service done.
pub proof fn lemma_step_on_schedule(
    s: StationModel,
    event: EventView,
    t: u128,
    now: u128,
    lead: nat,
)
    requires
        s.wf(),
        s.accepts(event),
        all_on_schedule(held(s), s.index(), s.cfg.service_ms, lead, t),
        t + work_reported(s, event) <= now,
        event matches EventView::Arrival(p) ==> punctual(
            p,
            s.index(),
            s.cfg.service_ms,
            lead,
            now,
        ),
    ensures
        all_on_schedule(held(s.step(event, now).0), s.index(), s.cfg.service_ms, lead, now),
        s.step(event, now).1 matches ActionView::Forward(p) ==> served_in_full(
            p,
            s.index(),
            s.cfg.service_ms,
            lead,
            now,
        ),
{
    let (n, a) = s.step(event, now);
    let i = s.index();
    let service = s.cfg.service_ms;
    let before = held(s);
    let after = held(n);
    assert forall|k: int| 0 <= k < before.len() implies on_schedule(
        #[trigger] before[k],
        i,
        service,
        lead,
        now,
    ) by {
        assert(on_schedule(before[k], i, service, lead, t));
    }
    match (s.phase, event) {
        (Phase::Waiting, EventView::Arrival(p)) => {
            let pushed = StationModel { ready: s.ready.push(p), ..s };
            assert forall|k: int| 0 <= k < pushed.ready.len() implies on_schedule(
                #[trigger] pushed.ready[k],
                i,
                service,
                lead,
                now,
            ) by {}
            lemma_dispatch_on_schedule(pushed, now, lead);
        },
        (Phase::Draining, EventView::Arrival(p)) => {
            assert forall|k: int| 0 <= k < after.len() implies on_schedule(
                #[trigger] after[k],
                i,
                service,
                lead,
                now,
            ) by {
                if k < before.len() {
                    assert(after[k] == before[k]);
                }
            }
        },
        (Phase::Draining, EventView::NoneReady) => {
            lemma_dispatch_on_schedule(s, now, lead);
        },
        (Phase::Working, EventView::WorkDone) => {
            let p = s.current.unwrap();
            let r = p.remaining[i];
            let left = (r - slice_of(r, s.policy)) as u64;
            let served = p.with_remaining(i, left);
            lemma_slice_bounds(r, s.policy);
            assert(before[0] == p);
            assert(on_schedule(p, i, service, lead, t));
            assert(served.remaining[i] == left);
            assert(on_schedule(served, i, service, lead, now));
            assert forall|k: int| 0 <= k < after.len() implies on_schedule(
                #[trigger] after[k],
                i,
                service,
                lead,
                now,
            ) by {
                if k < s.ready.len() {
                    assert(after[k] == before[k + 1]);
                }
            }
        },
        _ => {},
    }
}

proof fn lemma_dispatch_on_schedule(s: StationModel, now: u128, lead: nat)
    requires
        s.current is None,
        forall|k: int| 0 <= k < s.ready.len() ==> (#[trigger] s.ready[k]).fits(s.index()),
        all_on_schedule(s.ready, s.index(), s.cfg.service_ms, lead, now),
    ensures
        all_on_schedule(held(s.dispatch(now).0), s.index(), s.cfg.service_ms, lead, now),
        s.dispatch(now).1 matches ActionView::Forward(p) ==> served_in_full(
            p,
            s.index(),
            s.cfg.service_ms,
            lead,
            now,
        ),
{
    let (n, a) = s.dispatch(now);
    let i = s.index();
    let service = s.cfg.service_ms;
    let after = held(n);
    if s.ready.len() > 0 {
        let p = s.ready.first();
        assert(p.fits(i));
        assert(on_schedule(s.ready[0], i, service, lead, now));
        assert forall|k: int| 0 <= k < after.len() implies on_schedule(
            #[trigger] after[k],
            i,
            service,
            lead,
            now,
        ) by {
            if p.remaining[i] == 0 {
                assert(after[k] == s.ready[k + 1]);
            } else if k > 0 {
                assert(after[k] == s.ready[k]);
            }
        }
    }
}

/// Over a whole history every item leaves with its service done.
///
/// Let the history's readings be consistent, let every item inside the
/// station at the start be on schedule, and let every arriving item reach
/// the station untouched and at least `lead` after it entered the line.
/// Then every item that the station hands downstream owes it nothing and is
/// handed over at least `lead` and the station's whole service after it
/// entered the line, and at least the station's whole service after the
/// station first admitted it.
pub proof fn run_serves_in_full(since: u128, s: StationModel, inputs: Seq<Input>, lead: nat)
    requires
        s.wf(),
        admissible(s, inputs),
        timed(since, s, inputs),
        all_punctual(inputs, s.index(), s.cfg.service_ms, lead),
        all_on_schedule(held(s), s.index(), s.cfg.service_ms, lead, since),
    ensures
        all_on_schedule(
            held(run(s, inputs)),
            s.index(),
            s.cfg.service_ms,
            lead,
            clock(since, inputs),
        ),
        departure_times(s, inputs).len() == forwarded(actions(s, inputs)).len(),
        arrival_times(inputs).len() == received(inputs).len(),
        forall|j: int|
            0 <= j < forwarded(actions(s, inputs)).len() ==> served_in_full(
                #[trigger] forwarded(actions(s, inputs))[j],
                s.index(),
                s.cfg.service_ms,
                lead,
                departure_times(s, inputs)[j],
            ),
    decreases inputs.len(),
{
    if inputs.len() > 0 {
        let before = inputs.drop_last();
        let last = inputs.last();
        let mid = run(s, before);
        lemma_arrival_times_len(inputs);
        lemma_arrival_times_len(before);
        assert forall|j: int| 0 <= j < received(before).len() implies punctual(
            #[trigger] received(before)[j],
            s.index(),
            s.cfg.service_ms,
            lead,
            arrival_times(before)[j],
        ) by {
            assert(received(before)[j] == received(inputs)[j]);
            assert(arrival_times(before)[j] == arrival_times(inputs)[j]);
        }
        if let EventView::Arrival(p) = last.event {
            let m = received(inputs).len() - 1;
            assert(received(inputs)[m] == p);
            assert(arrival_times(inputs)[m] == last.now);
        }
        run_serves_in_full(since, s, before, lead);
        run_keeps_invariant(s, before);
        lemma_step_on_schedule(mid, last.event, clock(since, before), last.now, lead);
        let (n, a) = mid.step(last.event, last.now);
        assert(actions(s, inputs).drop_last() =~= actions(s, before));
        assert(actions(s, inputs).last() == a);
        let f0 = forwarded(actions(s, before));
        let f1 = forwarded(actions(s, inputs));
        let d0 = departure_times(s, before);
        let d1 = departure_times(s, inputs);
        assert forall|j: int| 0 <= j < f1.len() implies served_in_full(
            #[trigger] f1[j],
            s.index(),
            s.cfg.service_ms,
            lead,
            d1[j],
        ) by {
            if j < f0.len() {
                assert(f1[j] == f0[j]);
                assert(d1[j] == d0[j]);
            }
        }
    }
}

} // verus!
