//! What one station guarantees, from its first event on.
//!
//! Each statement here is about every history that a new station can be
//! taken through, whatever arrives and whenever.

use crate::history::{
    actions, admissible, bag, blind, forwarded, granted, held, lemma_bag_empty, owed, owed_inside,
    pays_off, received, run, run_conserves, run_keeps_invariant, run_keeps_order, run_settles,
    Input,
};
use crate::policy::{ceil_div, lemma_turn_counts_down, slice_of, turns_needed, Policy};
use crate::product::{ids, ProductView, StationCfg};
use crate::station::{ActionView, EventView, StationModel};
use vstd::prelude::*;

verus! {

/// The key that reads an item's identifier.
pub open spec fn by_id() -> spec_fn(ProductView) -> u32 {
    |p: ProductView| p.id
}

/// The key that reads all of an item but the slot of the station at `index`.
pub open spec fn by_rest(index: int) -> spec_fn(ProductView) -> ProductView {
    |p: ProductView| p.elsewhere(index)
}

/// Both keys are blind to what the station at `index` changes.
pub proof fn lemma_keys_are_blind(index: int)
    ensures
        blind(by_id(), index),
        blind(by_rest(index), index),
{
    let key = by_rest(index);
    assert forall|p: ProductView, r: u64| p.fits(index) implies #[trigger] key(
        p.with_remaining(index, r),
    ) == key(p) by {
        let q = p.with_remaining(index, r);
        assert(q.elsewhere(index).remaining =~= p.elsewhere(index).remaining);
    }
    assert forall|p: ProductView, now: u128| p.fits(index) implies #[trigger] key(
        p.admitted(index, now),
    ) == key(p) by {
        let q = p.admitted(index, now);
        assert(q.elsewhere(index).enter =~= p.elsewhere(index).enter);
    }
}

/// A station neither loses nor duplicates an item, and writes to no slot but
/// its own.
///
/// At every point of a history the items that the station has handed
/// downstream and those that it holds are, but for the station's own slot
/// and as multisets, the items that arrived; so are their identifiers. Once
/// the station has seen its inbound channel close it holds nothing, and
/// what it handed downstream is a rearrangement of what arrived.
pub proof fn station_conserves_items(cfg: StationCfg, policy: Policy, inputs: Seq<Input>)
    requires
        policy.wf(),
        admissible(StationModel::initial(cfg, policy), inputs),
    ensures
        ({
            let s = StationModel::initial(cfg, policy);
            let out = forwarded(actions(s, inputs));
            let inside = held(run(s, inputs));
            let rest = by_rest(s.index());
            &&& bag(out, rest).add(bag(inside, rest)) == bag(received(inputs), rest)
            &&& ids(out).to_multiset().add(ids(inside).to_multiset()) == ids(
                received(inputs),
            ).to_multiset()
            &&& !run(s, inputs).upstream_open ==> {
                &&& inside.len() == 0
                &&& bag(out, rest) == bag(received(inputs), rest)
                &&& ids(out).to_multiset() == ids(received(inputs)).to_multiset()
                &&& out.len() == received(inputs).len()
            }
        }),
{
    let s = StationModel::initial(cfg, policy);
    let out = forwarded(actions(s, inputs));
    let inside = held(run(s, inputs));
    let got = received(inputs);
    let rest = by_rest(s.index());
    lemma_keys_are_blind(s.index());
    run_keeps_invariant(s, inputs);
    run_conserves(s, inputs, rest);
    run_conserves(s, inputs, by_id());
    assert(held(s) =~= Seq::<ProductView>::empty());
    lemma_bag_empty(rest);
    lemma_bag_empty(by_id());
    assert(bag(held(s), rest).add(bag(got, rest)) =~= bag(got, rest));
    assert(bag(held(s), by_id()).add(bag(got, by_id())) =~= bag(got, by_id()));
    assert(ids(out) =~= out.map_values(by_id()));
    assert(ids(inside) =~= inside.map_values(by_id()));
    assert(ids(got) =~= got.map_values(by_id()));
    if !run(s, inputs).upstream_open {
        assert(inside =~= Seq::<ProductView>::empty());
        assert(bag(out, rest).add(bag(inside, rest)) =~= bag(out, rest));
        assert(bag(out, by_id()).add(bag(inside, by_id())) =~= bag(out, by_id()));
        ids(out).to_multiset_ensures();
        ids(got).to_multiset_ensures();
    }
}

/// A run-to-completion station hands items downstream in the order in
/// which they arrived.
///
/// At every point of a history the items that the station has handed
/// downstream, followed by those that it holds, are, but for the station's
/// own slot, the items that arrived, in the order of arrival; so are their
/// identifiers. Once the station has seen its inbound channel close, what
/// it handed downstream is what arrived.
pub proof fn fcfs_station_keeps_order(cfg: StationCfg, inputs: Seq<Input>)
    requires
        admissible(StationModel::initial(cfg, Policy::Fcfs), inputs),
    ensures
        ({
            let s = StationModel::initial(cfg, Policy::Fcfs);
            let out = forwarded(actions(s, inputs));
            let inside = held(run(s, inputs));
            let rest = by_rest(s.index());
            &&& out.map_values(rest) + inside.map_values(rest) == received(inputs).map_values(
                rest,
            )
            &&& ids(out) + ids(inside) == ids(received(inputs))
            &&& !run(s, inputs).upstream_open ==> {
                &&& out.map_values(rest) == received(inputs).map_values(rest)
                &&& ids(out) == ids(received(inputs))
            }
        }),
{
    let s = StationModel::initial(cfg, Policy::Fcfs);
    let out = forwarded(actions(s, inputs));
    let inside = held(run(s, inputs));
    let got = received(inputs);
    let rest = by_rest(s.index());
    lemma_keys_are_blind(s.index());
    run_keeps_invariant(s, inputs);
    run_keeps_order(s, inputs, rest);
    run_keeps_order(s, inputs, by_id());
    assert(held(s) =~= Seq::<ProductView>::empty());
    assert(held(s).map_values(rest) + got.map_values(rest) =~= got.map_values(rest));
    assert(held(s).map_values(by_id()) + got.map_values(by_id()) =~= got.map_values(by_id()));
    assert(ids(out) =~= out.map_values(by_id()));
    assert(ids(inside) =~= inside.map_values(by_id()));
    assert(ids(got) =~= got.map_values(by_id()));
    if !run(s, inputs).upstream_open {
        assert(inside =~= Seq::<ProductView>::empty());
        assert(out.map_values(rest) + inside.map_values(rest) =~= out.map_values(rest));
        assert(ids(out) + ids(inside) =~= ids(out));
    }
}

/// A station hands an item downstream if and only if the item owes it
/// nothing: the action that answers an accepted event forwards an item only
/// with no work left at this station, and an item that the end of a slice
/// leaves with work to do goes to the back of the ready queue instead.
pub proof fn lemma_forward_iff_done(s: StationModel, event: EventView, now: u128)
    requires
        s.wf(),
        s.accepts(event),
    ensures
        s.step(event, now).1 matches ActionView::Forward(p) ==> p.fits(s.index())
            && p.remaining[s.index()] == 0,
        event is WorkDone ==> {
            let p = s.current.unwrap();
            let left = p.remaining[s.index()] - slice_of(p.remaining[s.index()], s.policy);
            if left == 0 {
                s.step(event, now).1 == ActionView::Forward(p.with_remaining(s.index(), 0))
            } else {
                &&& s.step(event, now).1 is Poll
                &&& s.step(event, now).0.ready == s.ready.push(
                    p.with_remaining(s.index(), left as u64),
                )
            }
        },
{
    if s.ready.len() > 0 {
        assert(s.ready[0].fits(s.index()));
    }
}

/// Every item that a station has handed downstream owes it nothing.
pub proof fn station_forwards_finished_items(cfg: StationCfg, policy: Policy, inputs: Seq<Input>)
    requires
        policy.wf(),
        admissible(StationModel::initial(cfg, policy), inputs),
    ensures
        ({
            let out = forwarded(actions(StationModel::initial(cfg, policy), inputs));
            forall|j: int|
                0 <= j < out.len() ==> (#[trigger] out[j]).fits(cfg.id as int)
                    && out[j].remaining[cfg.id as int] == 0
        }),
    decreases inputs.len(),
{
    let s = StationModel::initial(cfg, policy);
    if inputs.len() > 0 {
        let before = inputs.drop_last();
        let last = inputs.last();
        station_forwards_finished_items(cfg, policy, before);
        run_keeps_invariant(s, before);
        lemma_forward_iff_done(run(s, before), last.event, last.now);
        assert(actions(s, inputs).drop_last() =~= actions(s, before));
        let f0 = forwarded(actions(s, before));
        let f1 = forwarded(actions(s, inputs));
        assert forall|j: int| 0 <= j < f1.len() implies (#[trigger] f1[j]).fits(cfg.id as int)
            && f1[j].remaining[cfg.id as int] == 0 by {
            if j < f0.len() {
                assert(f1[j] == f0[j]);
            }
        }
    }
}

/// The price of a turn where turns are counted: one.
pub open spec fn one_turn() -> spec_fn(u64, u64) -> nat {
    |remaining: u64, slice: u64| 1nat
}

/// What an item owes where turns are counted: the turns that it needs.
pub open spec fn turns_under(policy: Policy) -> spec_fn(u64) -> nat {
    |remaining: u64| turns_needed(remaining, policy)
}

/// The price of a turn where service is counted: the length of its slice.
pub open spec fn slice_length() -> spec_fn(u64, u64) -> nat {
    |remaining: u64, slice: u64| slice as nat
}

/// What an item owes where service is counted: its remaining work.
pub open spec fn work_left() -> spec_fn(u64) -> nat {
    |remaining: u64| remaining as nat
}

/// How often a sequence of actions admitted an item with identifier `id` to
/// service.
pub open spec fn admissions(acts: Seq<ActionView>, id: u32) -> nat {
    granted(acts, id, one_turn())
}

/// The total length of the slices that a sequence of actions granted the
/// items with identifier `id`.
pub open spec fn service_granted(acts: Seq<ActionView>, id: u32) -> nat {
    granted(acts, id, slice_length())
}

/// The slice in every turn that a station asks for is the one that the
/// policy grants, so both ways of counting pay off.
pub proof fn lemma_counts_pay_off(policy: Policy)
    requires
        policy.wf(),
    ensures
        pays_off(turns_under(policy), one_turn(), policy),
        pays_off(work_left(), slice_length(), policy),
{
    let turns = turns_under(policy);
    let one = one_turn();
    lemma_turn_counts_down(1, policy);
    assert forall|r: u64| r > 0 implies turns(r) == #[trigger] one(r, slice_of(r, policy)) + turns(
        (r - slice_of(r, policy)) as u64,
    ) by {
        lemma_turn_counts_down(r, policy);
    }
    let left = work_left();
    let length = slice_length();
    assert forall|r: u64| r > 0 implies left(r) == #[trigger] length(r, slice_of(r, policy)) + left(
        (r - slice_of(r, policy)) as u64,
    ) by {}
}

/// A station admits an item to service exactly as often as its remaining
/// work and the policy demand, and grants it exactly the service that it
/// owed on arrival.
///
/// At every point of a history, for every identifier: the admissions so
/// far, with the turns that the items inside still need, are the turns that
/// the arrived items needed on arrival; and the slices granted so far, with
/// the work that the items inside still owe, are the work that the arrived
/// items owed on arrival. Once the station has seen its inbound channel
/// close, nothing is left inside.
pub proof fn station_serves_what_is_owed(
    cfg: StationCfg,
    policy: Policy,
    inputs: Seq<Input>,
    id: u32,
)
    requires
        policy.wf(),
        admissible(StationModel::initial(cfg, policy), inputs),
    ensures
        ({
            let s = StationModel::initial(cfg, policy);
            let end = run(s, inputs);
            let acts = actions(s, inputs);
            let got = received(inputs);
            &&& admissions(acts, id) + owed_inside(end, id, turns_under(policy), one_turn())
                == owed(got, s.index(), id, turns_under(policy))
            &&& service_granted(acts, id) + owed_inside(end, id, work_left(), slice_length())
                == owed(got, s.index(), id, work_left())
            &&& !end.upstream_open ==> {
                &&& admissions(acts, id) == owed(got, s.index(), id, turns_under(policy))
                &&& service_granted(acts, id) == owed(got, s.index(), id, work_left())
            }
        }),
{
    let s = StationModel::initial(cfg, policy);
    lemma_counts_pay_off(policy);
    run_keeps_invariant(s, inputs);
    run_settles(s, inputs, id, turns_under(policy), one_turn());
    run_settles(s, inputs, id, work_left(), slice_length());
    assert(s.ready =~= Seq::<ProductView>::empty());
    if !run(s, inputs).upstream_open {
        assert(run(s, inputs).ready =~= Seq::<ProductView>::empty());
    }
}

/// What the only item with identifier `id` among `items` owes is all that
/// is owed on that identifier.
pub proof fn lemma_owed_by_one(
    items: Seq<ProductView>,
    index: int,
    id: u32,
    weight: spec_fn(u64) -> nat,
    k: int,
)
    requires
        0 <= k < items.len(),
        forall|j: int| 0 <= j < items.len() ==> ((#[trigger] items[j]).id == id <==> j == k),
    ensures
        owed(items, index, id, weight) == weight(items[k].remaining[index]),
    decreases items.len(),
{
    let front = items.drop_last();
    if k == items.len() - 1 {
        lemma_owed_by_none(front, index, id, weight);
    } else {
        assert(items[items.len() - 1].id != id);
        assert forall|j: int| 0 <= j < front.len() implies ((#[trigger] front[j]).id == id <==> j
            == k) by {
            assert(front[j] == items[j]);
        }
        lemma_owed_by_one(front, index, id, weight, k);
    }
}

proof fn lemma_owed_by_none(
    items: Seq<ProductView>,
    index: int,
    id: u32,
    weight: spec_fn(u64) -> nat,
)
    requires
        forall|j: int| 0 <= j < items.len() ==> (#[trigger] items[j]).id != id,
    ensures
        owed(items, index, id, weight) == 0,
    decreases items.len(),
{
    if items.len() > 0 {
        let front = items.drop_last();
        assert(items[items.len() - 1].id != id);
        assert forall|j: int| 0 <= j < front.len() implies (#[trigger] front[j]).id != id by {
            assert(front[j] == items[j]);
        }
        lemma_owed_by_none(front, index, id, weight);
    }
}

/// Under round robin with quantum `q`, a station admits an item that owes
/// it `S` exactly `S / q` times, rounded up, before it hands the item
/// downstream, and the slices that it grants the item add up to `S`.
///
/// This holds of every history in which the item is the only one of its
/// identifier to arrive and at whose end the item is no longer inside the
/// station, whatever else arrived in between.
pub proof fn round_robin_turn_count(cfg: StationCfg, quantum_ms: u64, inputs: Seq<Input>, k: int)
    requires
        quantum_ms > 0,
        admissible(StationModel::initial(cfg, Policy::RoundRobin { quantum_ms }), inputs),
        0 <= k < received(inputs).len(),
        forall|j: int|
            0 <= j < received(inputs).len() ==> ((#[trigger] received(inputs)[j]).id == received(
                inputs,
            )[k].id <==> j == k),
        forall|j: int|
            0 <= j < held(
                run(StationModel::initial(cfg, Policy::RoundRobin { quantum_ms }), inputs),
            ).len() ==> (#[trigger] held(
                run(StationModel::initial(cfg, Policy::RoundRobin { quantum_ms }), inputs),
            )[j]).id != received(inputs)[k].id,
    ensures
        ({
            let s = StationModel::initial(cfg, Policy::RoundRobin { quantum_ms });
            let item = received(inputs)[k];
            let service = item.remaining[s.index()];
            &&& admissions(actions(s, inputs), item.id) == ceil_div(
                service as nat,
                quantum_ms as nat,
            )
            &&& service_granted(actions(s, inputs), item.id) == service
        }),
{
    let policy = Policy::RoundRobin { quantum_ms };
    let s = StationModel::initial(cfg, policy);
    let end = run(s, inputs);
    let item = received(inputs)[k];
    station_serves_what_is_owed(cfg, policy, inputs, item.id);
    lemma_owed_by_one(received(inputs), s.index(), item.id, turns_under(policy), k);
    lemma_owed_by_one(received(inputs), s.index(), item.id, work_left(), k);
    // The item is not inside, so nothing is owed on its identifier.
    let inside = held(end);
    let ahead: int = if end.current is Some {
        1
    } else {
        0
    };
    assert forall|j: int| 0 <= j < end.ready.len() implies (#[trigger] end.ready[j]).id
        != item.id by {
        assert(inside[j + ahead] == end.ready[j]);
    }
    lemma_owed_by_none(end.ready, s.index(), item.id, turns_under(policy));
    lemma_owed_by_none(end.ready, s.index(), item.id, work_left());
    if end.current is Some {
        assert(inside[0] == end.current.unwrap());
    }
    run_keeps_invariant(s, inputs);
}

} // verus!
