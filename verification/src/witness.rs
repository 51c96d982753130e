//! A worked record: one station under round robin, one item, from the
//! generator's first step to the collector's sight of closure. It shows that
//! the conditions under which the line's guarantees are stated can be met,
//! and what the guarantees say of such a run.

use crate::generator::{emissions, items_sent, produce, EmissionView};
use crate::history::{actions, admissible, forwarded, received, run, Input};
use crate::line::{
    line_delivers_every_item_once, line_runs_to_its_end, line_serves_every_item_in_full,
    line_turnaround_covers_service, numbers, LineRun,
};
use crate::policy::Policy;
use crate::product::{fresh, ids, services, ProductView, StationCfg};
use crate::schedule::{arrival_times, departure_times, timed};
use crate::station::{ActionView, EventView, Phase};
use crate::theorems::{admissions, service_granted};
use vstd::prelude::*;

verus! {

/// The record: a station that owes each item 5 ms in slices of 3 ms, and one
/// item that enters the line at 10 ms and reaches the collector at 16 ms.
pub open spec fn worked_record(name: &'static str) -> LineRun {
    let item = fresh(1, seq![5u64], 10);
    LineRun {
        cfgs: seq![StationCfg { id: 0, name, service_ms: 5 }],
        policies: seq![Policy::RoundRobin { quantum_ms: 3 }],
        count: 1,
        interarrival_ms: 0,
        ticks: seq![10u128, 11u128],
        histories: seq![
            seq![
                Input { event: EventView::Arrival(item), now: 10 },
                Input { event: EventView::WorkDone, now: 13 },
                Input { event: EventView::NoneReady, now: 13 },
                Input { event: EventView::WorkDone, now: 15 },
                Input { event: EventView::Sent, now: 15 },
                Input { event: EventView::NoneReady, now: 15 },
                Input { event: EventView::InboundClosed, now: 20 },
            ],
        ],
        finishes: seq![16u128],
        collector_closed: true,
    }
}

/// The worked record is consistent and complete.
pub proof fn worked_record_is_complete(name: &'static str)
    ensures
        worked_record(name).complete(),
{
    let r = worked_record(name);
    let p = fresh(1, seq![5u64], 10);
    let h = r.histories[0];
    assert(services(r.cfgs) =~= seq![5u64]);

    // The generator sends the item and closes.
    let g = r.generator();
    reveal_with_fuel(produce, 3);
    reveal_with_fuel(emissions, 3);
    reveal_with_fuel(items_sent, 3);
    let first = seq![10u128];
    assert(r.ticks.drop_last() =~= first);
    assert(first.drop_last() =~= Seq::<u128>::empty());
    assert(emissions(g, first) =~= seq![EmissionView::Send(p)]);
    assert(emissions(g, r.ticks) =~= seq![EmissionView::Send(p), EmissionView::Close]);
    assert(emissions(g, r.ticks).drop_last() =~= seq![EmissionView::Send(p)]);
    assert(seq![EmissionView::Send(p)].drop_last() =~= Seq::<EmissionView>::empty());
    assert(r.generated() =~= seq![p]);

    // The station serves the item in two slices and closes.
    let s0 = r.start(0);
    let h1 = h.take(1);
    let h2 = h.take(2);
    let h3 = h.take(3);
    let h4 = h.take(4);
    let h5 = h.take(5);
    let h6 = h.take(6);
    assert(h.drop_last() =~= h6);
    assert(h6.drop_last() =~= h5);
    assert(h5.drop_last() =~= h4);
    assert(h4.drop_last() =~= h3);
    assert(h3.drop_last() =~= h2);
    assert(h2.drop_last() =~= h1);
    assert(h1.drop_last() =~= Seq::<Input>::empty());
    reveal_with_fuel(run, 2);
    reveal_with_fuel(actions, 2);
    reveal_with_fuel(admissible, 2);
    reveal_with_fuel(timed, 2);
    reveal_with_fuel(received, 2);
    reveal_with_fuel(forwarded, 2);
    reveal_with_fuel(arrival_times, 2);
    reveal_with_fuel(departure_times, 2);
    assert(p.fits(0));
    let admitted = p.admitted(0, 10);
    let half = admitted.with_remaining(0, 2);
    let done = half.with_remaining(0, 0);
    let none = Seq::<ProductView>::empty();

    let s1 = run(s0, h1);
    assert(s0.ready.push(p) =~= seq![p]);
    assert(seq![p].drop_first() =~= none);
    assert(s1.phase == Phase::Working && s1.current == Some(admitted) && s1.ready =~= none);
    assert(admissible(s0, h1) && timed(0, s0, h1));
    assert(received(h1) =~= seq![p]);
    assert(arrival_times(h1) =~= seq![10u128]);
    assert(forwarded(actions(s0, h1)) =~= none);
    assert(departure_times(s0, h1) =~= Seq::<u128>::empty());

    let s2 = run(s0, h2);
    assert(s1.ready.push(half) =~= seq![half]);
    assert(s2.phase == Phase::Draining && s2.current is None && s2.ready =~= seq![half]);
    assert(admissible(s0, h2) && timed(0, s0, h2));
    assert(actions(s0, h2).drop_last() =~= actions(s0, h1));
    assert(forwarded(actions(s0, h2)) =~= none);
    assert(received(h2) =~= seq![p]);
    assert(arrival_times(h2) =~= seq![10u128]);
    assert(departure_times(s0, h2) =~= Seq::<u128>::empty());

    let s3 = run(s0, h3);
    assert(seq![half].drop_first() =~= none);
    assert(half.admitted(0, 13) == half);
    assert(s3.phase == Phase::Working && s3.current == Some(half) && s3.ready =~= none);
    assert(admissible(s0, h3) && timed(0, s0, h3));
    assert(actions(s0, h3).drop_last() =~= actions(s0, h2));
    assert(forwarded(actions(s0, h3)) =~= none);
    assert(received(h3) =~= seq![p]);
    assert(arrival_times(h3) =~= seq![10u128]);
    assert(departure_times(s0, h3) =~= Seq::<u128>::empty());

    let s4 = run(s0, h4);
    assert(s4.phase == Phase::Forwarding && s4.current is None && s4.ready =~= none);
    assert(admissible(s0, h4) && timed(0, s0, h4));
    assert(actions(s0, h4).drop_last() =~= actions(s0, h3));
    assert(actions(s0, h4).last() == ActionView::Forward(done));
    assert(forwarded(actions(s0, h4)) =~= seq![done]);
    assert(received(h4) =~= seq![p]);
    assert(arrival_times(h4) =~= seq![10u128]);
    assert(departure_times(s0, h4) =~= seq![15u128]);

    let s5 = run(s0, h5);
    assert(s5.phase == Phase::Draining && s5.current is None && s5.ready =~= none);
    assert(admissible(s0, h5) && timed(0, s0, h5));
    assert(actions(s0, h5).drop_last() =~= actions(s0, h4));
    assert(forwarded(actions(s0, h5)) =~= seq![done]);
    assert(received(h5) =~= seq![p]);
    assert(arrival_times(h5) =~= seq![10u128]);
    assert(departure_times(s0, h5) =~= seq![15u128]);

    let s6 = run(s0, h6);
    assert(s6.phase == Phase::Waiting && s6.current is None && s6.ready =~= none);
    assert(admissible(s0, h6) && timed(0, s0, h6));
    assert(actions(s0, h6).drop_last() =~= actions(s0, h5));
    assert(forwarded(actions(s0, h6)) =~= seq![done]);
    assert(received(h6) =~= seq![p]);
    assert(arrival_times(h6) =~= seq![10u128]);
    assert(departure_times(s0, h6) =~= seq![15u128]);

    let s7 = run(s0, h);
    assert(s7.phase == Phase::Closed && !s7.upstream_open);
    assert(admissible(s0, h) && timed(0, s0, h));
    assert(actions(s0, h).drop_last() =~= actions(s0, h6));
    assert(forwarded(actions(s0, h)) =~= seq![done]);
    assert(received(h) =~= seq![p]);
    assert(arrival_times(h) =~= seq![10u128]);
    assert(departure_times(s0, h) =~= seq![15u128]);

    // Every channel carried the item, and closure followed it.
    assert(r.station_ok(0));
    assert(r.offered(0) =~= seq![p]);
    assert(r.offered(0).take(1) =~= seq![p]);
    assert(r.offered_at(0) =~= seq![10u128]);
    assert(r.channel_ok(0));
    assert(r.offered(1) =~= seq![done]);
    assert(r.channel_ok(1));
    assert(r.configured());
}

/// What the line guarantees, read off the worked record: the one item is
/// delivered, after two turns that add up to its service of 5 ms, no sooner
/// than 5 ms after it entered the line, and the station has taken the seven
/// events that one such item accounts for.
pub proof fn worked_record_keeps_the_guarantees(name: &'static str)
    ensures
        ({
            let r = worked_record(name);
            &&& r.collected().len() == 1
            &&& ids(r.collected()).to_multiset() == numbers(1).to_multiset()
            &&& admissions(actions(r.start(0), r.histories[0]), 1) == 2
            &&& service_granted(actions(r.start(0), r.histories[0]), 1) == 5
            &&& r.finishes[0] >= r.collected()[0].arrival + 5
            &&& r.histories[0].len() == 1 + 1 * (1 + (2 * 2 + 1))
        }),
{
    let r = worked_record(name);
    worked_record_is_complete(name);
    line_delivers_every_item_once(r);
    line_serves_every_item_in_full(r, 0, 1);
    line_turnaround_covers_service(r);
    line_runs_to_its_end(r, 0);
    assert((5 + 3 - 1) / 3 == 2int);
    assert(services(r.cfgs) =~= seq![5u64]);
    reveal_with_fuel(crate::product::sum_ms, 2);
    assert(seq![5u64].drop_last() =~= Seq::<u64>::empty());
}

} // verus!
