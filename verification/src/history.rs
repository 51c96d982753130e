//! Histories of one station: what holds of every sequence of events that a
//! station can be taken through.
//!
//! A history is a sequence of inputs, each an event with the clock's reading
//! when it is reported. The functions here replay a history on the model of
//! a station and collect what went in and what came out; the proofs state
//! what the station guarantees whatever the order and timing of arrivals.

use crate::policy::{lemma_turn_counts_down, slice_of, turns_needed, Policy};
use crate::product::ProductView;
use crate::station::{lemma_step_wf, ActionView, EventView, Phase, StationModel};
use vstd::multiset::Multiset;
use vstd::prelude::*;
use vstd::seq_lib::{lemma_multiset_commutative, to_multiset_build};

verus! {

/// One entry of a history: an event, and the clock's reading on its report.
pub struct Input {
    pub event: EventView,
    pub now: u128,
}

/// The station's state after a history.
pub open spec fn run(s: StationModel, inputs: Seq<Input>) -> StationModel
    decreases inputs.len(),
{
    if inputs.len() == 0 {
        s
    } else {
        run(s, inputs.drop_last()).step(inputs.last().event, inputs.last().now).0
    }
}

/// The actions that the station answered with, one for each input.
pub open spec fn actions(s: StationModel, inputs: Seq<Input>) -> Seq<ActionView>
    decreases inputs.len(),
{
    if inputs.len() == 0 {
        Seq::empty()
    } else {
        actions(s, inputs.drop_last()).push(
            run(s, inputs.drop_last()).step(inputs.last().event, inputs.last().now).1,
        )
    }
}

/// Every event of the history answers the action that was pending when it
/// came.
pub open spec fn admissible(s: StationModel, inputs: Seq<Input>) -> bool
    decreases inputs.len(),
{
    inputs.len() == 0 || (admissible(s, inputs.drop_last()) && run(
        s,
        inputs.drop_last(),
    ).accepts(inputs.last().event))
}

/// The item that an event brings in, if it brings one.
pub open spec fn arrived(event: EventView) -> Seq<ProductView> {
    match event {
        EventView::Arrival(p) => seq![p],
        _ => Seq::empty(),
    }
}

/// The item that an action hands downstream, if it hands one.
pub open spec fn sent(action: ActionView) -> Seq<ProductView> {
    match action {
        ActionView::Forward(p) => seq![p],
        _ => Seq::empty(),
    }
}

/// The items that a history brought in, in order of arrival.
pub open spec fn received(inputs: Seq<Input>) -> Seq<ProductView>
    decreases inputs.len(),
{
    if inputs.len() == 0 {
        Seq::empty()
    } else {
        received(inputs.drop_last()) + arrived(inputs.last().event)
    }
}

/// The items that a sequence of actions handed downstream, in order.
pub open spec fn forwarded(acts: Seq<ActionView>) -> Seq<ProductView>
    decreases acts.len(),
{
    if acts.len() == 0 {
        Seq::empty()
    } else {
        forwarded(acts.drop_last()) + sent(acts.last())
    }
}

/// The items inside a station: the one in service, then the ready queue.
pub open spec fn held(s: StationModel) -> Seq<ProductView> {
    match s.current {
        Some(p) => seq![p] + s.ready,
        None => s.ready,
    }
}

/// A history of accepted events keeps the invariant and the configuration,
/// and gives one action for each input.
pub proof fn run_keeps_invariant(s: StationModel, inputs: Seq<Input>)
    requires
        s.wf(),
        admissible(s, inputs),
    ensures
        run(s, inputs).wf(),
        run(s, inputs).cfg == s.cfg,
        run(s, inputs).policy == s.policy,
        actions(s, inputs).len() == inputs.len(),
    decreases inputs.len(),
{
    if inputs.len() > 0 {
        let before = inputs.drop_last();
        run_keeps_invariant(s, before);
        lemma_step_wf(run(s, before), inputs.last().event, inputs.last().now);
    }
}

/// What `key` reads of each item, as a multiset.
pub open spec fn bag<K>(items: Seq<ProductView>, key: spec_fn(ProductView) -> K) -> Multiset<K> {
    items.map_values(key).to_multiset()
}

/// `key` reads nothing of an item that the station at `index` changes: not
/// the work still owed there, nor the entry time stamped there.
pub open spec fn blind<K>(key: spec_fn(ProductView) -> K, index: int) -> bool {
    &&& forall|p: ProductView, r: u64|
        p.fits(index) ==> #[trigger] key(p.with_remaining(index, r)) == key(p)
    &&& forall|p: ProductView, now: u128|
        p.fits(index) ==> #[trigger] key(p.admitted(index, now)) == key(p)
}

/// Nothing read through a key is nothing.
pub proof fn lemma_bag_empty<K>(key: spec_fn(ProductView) -> K)
    ensures
        bag(Seq::<ProductView>::empty(), key) == Multiset::<K>::empty(),
{
    assert(Seq::<ProductView>::empty().map_values(key) =~= Seq::<K>::empty());
    Seq::<K>::empty().to_multiset_ensures();
    assert(Seq::<K>::empty().to_multiset() =~= Multiset::<K>::empty());
}

proof fn lemma_bag_concat<K>(
    a: Seq<ProductView>,
    b: Seq<ProductView>,
    key: spec_fn(ProductView) -> K,
)
    ensures
        bag(a + b, key) == bag(a, key).add(bag(b, key)),
{
    assert((a + b).map_values(key) =~= a.map_values(key) + b.map_values(key));
    lemma_multiset_commutative(a.map_values(key), b.map_values(key));
}

proof fn lemma_bag_one<K>(p: ProductView, key: spec_fn(ProductView) -> K)
    ensures
        bag(seq![p], key) == Multiset::<K>::empty().insert(key(p)),
{
    assert(seq![p].map_values(key) =~= Seq::<K>::empty().push(key(p)));
    to_multiset_build(Seq::<K>::empty(), key(p));
    Seq::<K>::empty().to_multiset_ensures();
    assert(Seq::<K>::empty().to_multiset() =~= Multiset::<K>::empty());
}

proof fn lemma_bag_split<K>(items: Seq<ProductView>, key: spec_fn(ProductView) -> K)
    requires
        items.len() > 0,
    ensures
        bag(items, key) == bag(items.drop_first(), key).insert(key(items.first())),
{
    assert(items =~= seq![items.first()] + items.drop_first());
    lemma_bag_concat(seq![items.first()], items.drop_first(), key);
    lemma_bag_one(items.first(), key);
    assert(Multiset::<K>::empty().insert(key(items.first())).add(bag(items.drop_first(), key))
        =~= bag(items.drop_first(), key).insert(key(items.first())));
}

/// Turning to the queue moves an item from the queue into service or out of
/// the station, and changes nothing that `key` reads.
proof fn lemma_dispatch_conserves<K>(s: StationModel, now: u128, key: spec_fn(ProductView) -> K)
    requires
        s.current is None,
        s.ready.len() > 0 ==> s.ready[0].fits(s.index()),
        blind(key, s.index()),
    ensures
        bag(held(s.dispatch(now).0), key).add(bag(sent(s.dispatch(now).1), key)) == bag(
            held(s),
            key,
        ),
{
    let (t, a) = s.dispatch(now);
    lemma_bag_empty(key);
    if s.ready.len() == 0 {
        assert(bag(held(t), key).add(Multiset::<K>::empty()) =~= bag(held(s), key));
    } else {
        let p = s.ready.first();
        let rest = s.ready.drop_first();
        lemma_bag_split(s.ready, key);
        if p.remaining[s.index()] == 0 {
            lemma_bag_one(p, key);
            assert(bag(rest, key).add(Multiset::<K>::empty().insert(key(p))) =~= bag(
                rest,
                key,
            ).insert(key(p)));
        } else {
            let q = p.admitted(s.index(), now);
            assert(key(q) == key(p));
            lemma_bag_concat(seq![q], rest, key);
            lemma_bag_one(q, key);
            assert(Multiset::<K>::empty().insert(key(q)).add(bag(rest, key)).add(
                Multiset::<K>::empty(),
            ) =~= bag(rest, key).insert(key(p)));
        }
    }
}

/// One step neither loses nor duplicates an item, and changes nothing that
/// `key` reads: what the station holds after the step, with what the step
/// hands downstream, is what it held before with what the event brought.
pub proof fn lemma_step_conserves<K>(
    s: StationModel,
    event: EventView,
    now: u128,
    key: spec_fn(ProductView) -> K,
)
    requires
        s.wf(),
        s.accepts(event),
        blind(key, s.index()),
    ensures
        bag(held(s.step(event, now).0), key).add(bag(sent(s.step(event, now).1), key)) == bag(
            held(s),
            key,
        ).add(bag(arrived(event), key)),
{
    let (t, a) = s.step(event, now);
    let i = s.index();
    lemma_bag_empty(key);
    match (s.phase, event) {
        (Phase::Waiting, EventView::Arrival(p)) => {
            let pushed = StationModel { ready: s.ready.push(p), ..s };
            assert(pushed.ready[0] == p);
            lemma_dispatch_conserves(pushed, now, key);
            assert(s.ready =~= Seq::empty());
            assert(s.ready.push(p) =~= seq![p]);
            assert(Multiset::<K>::empty().add(bag(seq![p], key)) =~= bag(seq![p], key));
        },
        (Phase::Draining, EventView::Arrival(p)) => {
            assert(s.ready.push(p) =~= s.ready + seq![p]);
            lemma_bag_concat(s.ready, seq![p], key);
            assert(bag(held(t), key).add(Multiset::<K>::empty()) =~= bag(held(t), key));
        },
        (Phase::Draining, EventView::NoneReady) => {
            lemma_dispatch_conserves(s, now, key);
            assert(bag(held(s), key).add(Multiset::<K>::empty()) =~= bag(held(s), key));
        },
        (Phase::Working, EventView::WorkDone) => {
            let p = s.current.unwrap();
            let left = (p.remaining[i] - slice_of(p.remaining[i], s.policy)) as u64;
            let served = p.with_remaining(i, left);
            assert(key(served) == key(p));
            lemma_bag_concat(seq![p], s.ready, key);
            lemma_bag_one(p, key);
            lemma_bag_one(served, key);
            if left == 0 {
                assert(bag(s.ready, key).add(bag(seq![served], key)) =~= bag(seq![p], key).add(
                    bag(s.ready, key),
                ).add(Multiset::<K>::empty()));
            } else {
                assert(s.ready.push(served) =~= s.ready + seq![served]);
                lemma_bag_concat(s.ready, seq![served], key);
                assert(bag(s.ready, key).add(bag(seq![served], key)).add(Multiset::<K>::empty())
                    =~= bag(seq![p], key).add(bag(s.ready, key)).add(Multiset::<K>::empty()));
            }
        },
        _ => {
            assert(bag(held(s), key).add(Multiset::<K>::empty()) =~= bag(held(s), key));
        },
    }
}

/// Over a whole history nothing is lost and nothing is duplicated: the
/// items that the station held at first and those that arrived are, read
/// through `key`, those that it handed downstream and those that it still
/// holds.
pub proof fn run_conserves<K>(s: StationModel, inputs: Seq<Input>, key: spec_fn(ProductView) -> K)
    requires
        s.wf(),
        admissible(s, inputs),
        blind(key, s.index()),
    ensures
        bag(forwarded(actions(s, inputs)), key).add(bag(held(run(s, inputs)), key)) == bag(
            held(s),
            key,
        ).add(bag(received(inputs), key)),
    decreases inputs.len(),
{
    lemma_bag_empty(key);
    if inputs.len() == 0 {
        assert(Multiset::<K>::empty().add(bag(held(s), key)) =~= bag(held(s), key).add(
            Multiset::<K>::empty(),
        ));
    } else {
        let before = inputs.drop_last();
        let last = inputs.last();
        let mid = run(s, before);
        run_conserves(s, before, key);
        run_keeps_invariant(s, before);
        lemma_step_conserves(mid, last.event, last.now, key);
        let (t, a) = mid.step(last.event, last.now);
        assert(actions(s, inputs).drop_last() =~= actions(s, before));
        lemma_bag_concat(forwarded(actions(s, before)), sent(a), key);
        lemma_bag_concat(received(before), arrived(last.event), key);
        let f0 = bag(forwarded(actions(s, before)), key);
        let h0 = bag(held(mid), key);
        let h1 = bag(held(t), key);
        let o = bag(sent(a), key);
        let r0 = bag(received(before), key);
        let x = bag(arrived(last.event), key);
        let h = bag(held(s), key);
        assert(f0.add(h0) == h.add(r0));
        assert(h1.add(o) == h0.add(x));
        assert(f0.add(o).add(h1) =~= f0.add(h1.add(o)));
        assert(f0.add(h0.add(x)) =~= f0.add(h0).add(x));
        assert(h.add(r0).add(x) =~= h.add(r0.add(x)));
    }
}

/// A property of items that does not depend on the station's own slot holds
/// of whatever the station holds or hands downstream, if it held of what
/// the station held at first and of what arrived.
pub proof fn run_keeps_property(
    s: StationModel,
    inputs: Seq<Input>,
    property: spec_fn(ProductView) -> bool,
)
    requires
        s.wf(),
        admissible(s, inputs),
        blind(property, s.index()),
        forall|i: int| 0 <= i < held(s).len() ==> property(#[trigger] held(s)[i]),
        forall|i: int| 0 <= i < received(inputs).len() ==> property(#[trigger] received(inputs)[i]),
    ensures
        forall|i: int|
            0 <= i < held(run(s, inputs)).len() ==> property(#[trigger] held(run(s, inputs))[i]),
        forall|i: int|
            0 <= i < forwarded(actions(s, inputs)).len() ==> property(
                #[trigger] forwarded(actions(s, inputs))[i],
            ),
    decreases inputs.len(),
{
    if inputs.len() > 0 {
        let before = inputs.drop_last();
        let last = inputs.last();
        let mid = run(s, before);
        assert forall|i: int| 0 <= i < received(before).len() implies property(
            #[trigger] received(before)[i],
        ) by {
            assert(received(before)[i] == received(inputs)[i]);
        }
        run_keeps_property(s, before, property);
        run_keeps_invariant(s, before);
        let (t, a) = mid.step(last.event, last.now);
        let idx = mid.index();
        let h0 = held(mid);
        let h1 = held(t);
        let f0 = forwarded(actions(s, before));
        let f1 = forwarded(actions(s, inputs));
        assert(actions(s, inputs).drop_last() =~= actions(s, before));
        assert(actions(s, inputs).last() == a);
        if let EventView::Arrival(p) = last.event {
            assert(received(inputs)[received(inputs).len() - 1] == p);
            assert(property(p));
            assert(property(p.admitted(idx, last.now)) == property(p));
        }
        if mid.ready.len() > 0 {
            let p = mid.ready.first();
            assert(h0[if mid.current is Some { 1int } else { 0int }] == p);
            assert(property(p.admitted(idx, last.now)) == property(p));
        }
        if let Some(p) = mid.current {
            assert(h0[0] == p);
            let left = (p.remaining[idx] - slice_of(p.remaining[idx], mid.policy)) as u64;
            assert(property(p.with_remaining(idx, left)) == property(p));
        }
        assert forall|i: int| 0 <= i < h1.len() implies property(#[trigger] h1[i]) by {
            match (mid.phase, last.event) {
                (Phase::Waiting, EventView::Arrival(p)) => {},
                (Phase::Draining, EventView::Arrival(p)) => {
                    if i < h0.len() {
                        assert(h1[i] == h0[i]);
                    }
                },
                (Phase::Draining, EventView::NoneReady) => {
                    if mid.ready.len() > 0 {
                        if mid.ready.first().remaining[idx] == 0 {
                            assert(h1[i] == h0[i + 1]);
                        } else if i > 0 {
                            assert(h1[i] == h0[i]);
                        }
                    }
                },
                (Phase::Working, EventView::WorkDone) => {
                    if i < mid.ready.len() {
                        assert(h1[i] == h0[i + 1]);
                    }
                },
                _ => {
                    assert(h1[i] == h0[i]);
                },
            }
        }
        assert forall|i: int| 0 <= i < f1.len() implies property(#[trigger] f1[i]) by {
            if i < f0.len() {
                assert(f1[i] == f0[i]);
            }
        }
    }
}

/// Under `Fcfs` one step keeps the order of the items: what it hands
/// downstream left the front of what the station held, and what the event
/// brought joined the back.
pub proof fn lemma_step_keeps_order<K>(
    s: StationModel,
    event: EventView,
    now: u128,
    key: spec_fn(ProductView) -> K,
)
    requires
        s.wf(),
        s.policy is Fcfs,
        s.accepts(event),
        blind(key, s.index()),
    ensures
        sent(s.step(event, now).1).map_values(key) + held(s.step(event, now).0).map_values(key)
            == held(s).map_values(key) + arrived(event).map_values(key),
{
    let (t, a) = s.step(event, now);
    let i = s.index();
    let lhs = sent(a).map_values(key) + held(t).map_values(key);
    let rhs = held(s).map_values(key) + arrived(event).map_values(key);
    match (s.phase, event) {
        (Phase::Waiting, EventView::Arrival(p)) => {
            assert(key(p.admitted(i, now)) == key(p));
            assert(lhs =~= rhs);
        },
        (Phase::Draining, EventView::NoneReady) => {
            if s.ready.len() > 0 {
                assert(key(s.ready.first().admitted(i, now)) == key(s.ready.first()));
            }
            assert(lhs =~= rhs);
        },
        (Phase::Working, EventView::WorkDone) => {
            let p = s.current.unwrap();
            assert(key(p.with_remaining(i, 0)) == key(p));
            assert(lhs =~= rhs);
        },
        _ => {
            assert(lhs =~= rhs);
        },
    }
}

/// Under `Fcfs` a station reorders nothing: the items that it handed
/// downstream, followed by those that it still holds, are, read through
/// `key`, those that it held at first followed by those that arrived.
pub proof fn run_keeps_order<K>(s: StationModel, inputs: Seq<Input>, key: spec_fn(ProductView) -> K)
    requires
        s.wf(),
        s.policy is Fcfs,
        admissible(s, inputs),
        blind(key, s.index()),
    ensures
        forwarded(actions(s, inputs)).map_values(key) + held(run(s, inputs)).map_values(key)
            == held(s).map_values(key) + received(inputs).map_values(key),
    decreases inputs.len(),
{
    if inputs.len() == 0 {
        assert(forwarded(actions(s, inputs)).map_values(key) + held(s).map_values(key) =~= held(
            s,
        ).map_values(key) + received(inputs).map_values(key));
    } else {
        let before = inputs.drop_last();
        let last = inputs.last();
        let mid = run(s, before);
        run_keeps_order(s, before, key);
        run_keeps_invariant(s, before);
        lemma_step_keeps_order(mid, last.event, last.now, key);
        let (t, a) = mid.step(last.event, last.now);
        assert(actions(s, inputs).drop_last() =~= actions(s, before));
        let f0 = forwarded(actions(s, before)).map_values(key);
        let o = sent(a).map_values(key);
        let h0 = held(mid).map_values(key);
        let h1 = held(t).map_values(key);
        let r0 = received(before).map_values(key);
        let x = arrived(last.event).map_values(key);
        assert(forwarded(actions(s, inputs)).map_values(key) =~= f0 + o);
        assert(received(inputs).map_values(key) =~= r0 + x);
        assert((f0 + o) + h1 =~= f0 + (o + h1));
        assert(f0 + (h0 + x) =~= (f0 + h0) + x);
        assert((held(s).map_values(key) + r0) + x =~= held(s).map_values(key) + (r0 + x));
    }
}

/// What one item owes the station at `index` on the account of `id`:
/// `weight` of its remaining work if it bears that identifier, else nothing.
pub open spec fn due(p: ProductView, index: int, id: u32, weight: spec_fn(u64) -> nat) -> nat {
    if p.id == id {
        weight(p.remaining[index])
    } else {
        0
    }
}

/// What one action grants the account of `id`: `cost` of the turn if it is
/// a turn on an item of that identifier, else nothing.
pub open spec fn grant(a: ActionView, id: u32, cost: spec_fn(u64, u64) -> nat) -> nat {
    match a {
        ActionView::Work { id: served, remaining, slice } => if served == id {
            cost(remaining, slice)
        } else {
            0
        },
        _ => 0,
    }
}

/// What the items with identifier `id` among `items` owe the station at
/// `index`, where an item with remaining work `r` owes `weight(r)`.
pub open spec fn owed(
    items: Seq<ProductView>,
    index: int,
    id: u32,
    weight: spec_fn(u64) -> nat,
) -> nat
    decreases items.len(),
{
    if items.len() == 0 {
        0
    } else {
        owed(items.drop_last(), index, id, weight) + due(items.last(), index, id, weight)
    }
}

/// What a sequence of actions granted the items with identifier `id`, where
/// a turn on remaining work `r` with slice `l` grants `cost(r, l)`.
pub open spec fn granted(acts: Seq<ActionView>, id: u32, cost: spec_fn(u64, u64) -> nat) -> nat
    decreases acts.len(),
{
    if acts.len() == 0 {
        0
    } else {
        granted(acts.drop_last(), id, cost) + grant(acts.last(), id, cost)
    }
}

/// What the items with identifier `id` inside a station still owe it. The
/// item in service has been granted its current turn already.
pub open spec fn owed_inside(
    s: StationModel,
    id: u32,
    weight: spec_fn(u64) -> nat,
    cost: spec_fn(u64, u64) -> nat,
) -> nat {
    owed(s.ready, s.index(), id, weight) + match s.current {
        Some(p) => if p.id == id {
            let r = p.remaining[s.index()];
            (weight(r) - cost(r, slice_of(r, s.policy))) as nat
        } else {
            0
        },
        None => 0,
    }
}

/// `weight` is paid off turn by turn at the price `cost`: an item that owes
/// no work owes nothing, and one that owes work owes the price of its next
/// turn and what it owes after it.
pub open spec fn pays_off(
    weight: spec_fn(u64) -> nat,
    cost: spec_fn(u64, u64) -> nat,
    policy: Policy,
) -> bool {
    &&& weight(0) == 0
    &&& forall|r: u64|
        r > 0 ==> weight(r) == #[trigger] cost(r, slice_of(r, policy)) + weight(
            (r - slice_of(r, policy)) as u64,
        )
}

proof fn lemma_owed_concat(
    a: Seq<ProductView>,
    b: Seq<ProductView>,
    index: int,
    id: u32,
    weight: spec_fn(u64) -> nat,
)
    ensures
        owed(a + b, index, id, weight) == owed(a, index, id, weight) + owed(b, index, id, weight),
    decreases b.len(),
{
    if b.len() == 0 {
        assert(a + b =~= a);
    } else {
        lemma_owed_concat(a, b.drop_last(), index, id, weight);
        assert((a + b).drop_last() =~= a + b.drop_last());
    }
}

proof fn lemma_owed_one(p: ProductView, index: int, id: u32, weight: spec_fn(u64) -> nat)
    ensures
        owed(seq![p], index, id, weight) == due(p, index, id, weight),
{
    assert(seq![p].drop_last() =~= Seq::<ProductView>::empty());
    assert(owed(seq![p].drop_last(), index, id, weight) == 0);
}

proof fn lemma_owed_arrived(event: EventView, index: int, id: u32, weight: spec_fn(u64) -> nat)
    ensures
        owed(arrived(event), index, id, weight) == match event {
            EventView::Arrival(p) => due(p, index, id, weight),
            _ => 0,
        },
{
    match event {
        EventView::Arrival(p) => {
            lemma_owed_one(p, index, id, weight);
        },
        _ => {},
    }
}

proof fn lemma_dispatch_settles(
    s: StationModel,
    now: u128,
    id: u32,
    weight: spec_fn(u64) -> nat,
    cost: spec_fn(u64, u64) -> nat,
)
    requires
        s.current is None,
        s.ready.len() > 0 ==> s.ready[0].fits(s.index()),
        pays_off(weight, cost, s.policy),
    ensures
        grant(s.dispatch(now).1, id, cost) + owed_inside(
            s.dispatch(now).0,
            id,
            weight,
            cost,
        ) == owed_inside(s, id, weight, cost),
{
    let (t, a) = s.dispatch(now);
    let i = s.index();
    if s.ready.len() > 0 {
        let p = s.ready.first();
        let rest = s.ready.drop_first();
        assert(s.ready =~= seq![p] + rest);
        lemma_owed_concat(seq![p], rest, i, id, weight);
        lemma_owed_one(p, i, id, weight);
        let r = p.remaining[i];
        if r > 0 {
            assert(weight(r) == cost(r, slice_of(r, s.policy)) + weight(
                (r - slice_of(r, s.policy)) as u64,
            ));
            assert(p.admitted(i, now).remaining[i] == r);
        }
    }
}

/// One step settles its accounts: what it grants an identifier, with what
/// the items of that identifier owe afterwards, is what they owed before
/// with what the arriving item owes.
pub proof fn lemma_step_settles(
    s: StationModel,
    event: EventView,
    now: u128,
    id: u32,
    weight: spec_fn(u64) -> nat,
    cost: spec_fn(u64, u64) -> nat,
)
    requires
        s.wf(),
        s.accepts(event),
        pays_off(weight, cost, s.policy),
    ensures
        grant(s.step(event, now).1, id, cost) + owed_inside(
            s.step(event, now).0,
            id,
            weight,
            cost,
        ) == owed_inside(s, id, weight, cost) + owed(arrived(event), s.index(), id, weight),
{
    let (t, a) = s.step(event, now);
    let i = s.index();
    lemma_owed_arrived(event, i, id, weight);
    match (s.phase, event) {
        (Phase::Waiting, EventView::Arrival(p)) => {
            let pushed = StationModel { ready: s.ready.push(p), ..s };
            assert(pushed.ready[0] == p);
            lemma_dispatch_settles(pushed, now, id, weight, cost);
            assert(s.ready =~= Seq::empty());
            assert(pushed.ready =~= seq![p]);
            lemma_owed_one(p, i, id, weight);
        },
        (Phase::Draining, EventView::Arrival(p)) => {
            assert(s.ready.push(p).drop_last() =~= s.ready);
        },
        (Phase::Draining, EventView::NoneReady) => {
            lemma_dispatch_settles(s, now, id, weight, cost);
        },
        (Phase::Working, EventView::WorkDone) => {
            let p = s.current.unwrap();
            let r = p.remaining[i];
            let left = (r - slice_of(r, s.policy)) as u64;
            let served = p.with_remaining(i, left);
            assert(weight(r) == cost(r, slice_of(r, s.policy)) + weight(left));
            assert(served.remaining[i] == left);
            if left != 0 {
                assert(s.ready.push(served).drop_last() =~= s.ready);
            }
        },
        _ => {},
    }
}

/// Over a whole history the accounts of every identifier balance: what the
/// station granted it, with what its items inside the station still owe, is
/// what they owed at first with what the arriving ones owed on arrival.
pub proof fn run_settles(
    s: StationModel,
    inputs: Seq<Input>,
    id: u32,
    weight: spec_fn(u64) -> nat,
    cost: spec_fn(u64, u64) -> nat,
)
    requires
        s.wf(),
        admissible(s, inputs),
        pays_off(weight, cost, s.policy),
    ensures
        granted(actions(s, inputs), id, cost) + owed_inside(run(s, inputs), id, weight, cost)
            == owed_inside(s, id, weight, cost) + owed(received(inputs), s.index(), id, weight),
    decreases inputs.len(),
{
    if inputs.len() > 0 {
        let before = inputs.drop_last();
        let last = inputs.last();
        let mid = run(s, before);
        run_settles(s, before, id, weight, cost);
        run_keeps_invariant(s, before);
        lemma_step_settles(mid, last.event, last.now, id, weight, cost);
        let (t, a) = mid.step(last.event, last.now);
        assert(actions(s, inputs).drop_last() =~= actions(s, before));
        assert(actions(s, inputs).last() == a);
        lemma_owed_concat(received(before), arrived(last.event), s.index(), id, weight);
    }
}

/// The events that an item with `remaining` work costs a station once it
/// is inside: two for each turn that it needs, the end of the slice and the
/// end of the drain that follows, and one for its hand-over; for an item
/// that owes nothing, its hand-over and the end of the drain that follows.
pub open spec fn service_events(remaining: u64, policy: Policy) -> nat {
    if remaining == 0 {
        2
    } else {
        2 * turns_needed(remaining, policy) + 1
    }
}

/// The events that one item costs the station at `index` once it is inside.
pub open spec fn item_events(p: ProductView, index: int, policy: Policy) -> nat {
    service_events(p.remaining[index], policy)
}

/// The events that a sequence of items costs a station, once inside.
pub open spec fn events_owed(items: Seq<ProductView>, index: int, policy: Policy) -> nat
    decreases items.len(),
{
    if items.len() == 0 {
        0
    } else {
        events_owed(items.drop_last(), index, policy) + item_events(items.last(), index, policy)
    }
}

/// The events that a station will still take if nothing more arrives and
/// downstream stays: those that the items inside cost, those that are
/// pending for an item that has just left, and the closure of the inbound
/// channel.
pub open spec fn events_left(s: StationModel) -> nat {
    if s.phase == Phase::Closed {
        0
    } else {
        events_owed(held(s), s.index(), s.policy) + 1 + match s.phase {
            Phase::Forwarding => 2nat,
            Phase::Draining => 1nat,
            _ => 0nat,
        }
    }
}

/// The events that a history's arrivals account for: for each item its
/// arrival and what it costs once inside.
pub open spec fn events_brought(inputs: Seq<Input>, index: int, policy: Policy) -> nat {
    received(inputs).len() + events_owed(received(inputs), index, policy)
}

proof fn lemma_events_concat(a: Seq<ProductView>, b: Seq<ProductView>, index: int, policy: Policy)
    ensures
        events_owed(a + b, index, policy) == events_owed(a, index, policy) + events_owed(
            b,
            index,
            policy,
        ),
    decreases b.len(),
{
    if b.len() == 0 {
        assert(a + b =~= a);
    } else {
        lemma_events_concat(a, b.drop_last(), index, policy);
        assert((a + b).drop_last() =~= a + b.drop_last());
    }
}

proof fn lemma_events_one(p: ProductView, index: int, policy: Policy)
    ensures
        events_owed(seq![p], index, policy) == item_events(p, index, policy),
{
    assert(seq![p].drop_last() =~= Seq::<ProductView>::empty());
    assert(events_owed(seq![p].drop_last(), index, policy) == 0);
}

proof fn lemma_dispatch_spends(s: StationModel, now: u128)
    requires
        s.current is None,
        s.policy.wf(),
        s.ready.len() > 0 ==> s.ready[0].fits(s.index()),
    ensures
        events_left(s.dispatch(now).0) == events_owed(s.ready, s.index(), s.policy) + 1,
{
    let (t, a) = s.dispatch(now);
    let i = s.index();
    lemma_turn_counts_down(1, s.policy);
    if s.ready.len() > 0 {
        let p = s.ready.first();
        let rest = s.ready.drop_first();
        assert(s.ready =~= seq![p] + rest);
        lemma_events_concat(seq![p], rest, i, s.policy);
        lemma_events_one(p, i, s.policy);
        if p.remaining[i] > 0 {
            let q = p.admitted(i, now);
            assert(q.remaining[i] == p.remaining[i]);
            lemma_events_concat(seq![q], rest, i, s.policy);
            lemma_events_one(q, i, s.policy);
        }
    }
}

/// One step uses up one of the events that the station had left, counting
/// in what an arriving item brings; only the loss of downstream, which ends
/// the station at once, writes the rest off.
pub proof fn lemma_step_spends(s: StationModel, event: EventView, now: u128)
    requires
        s.wf(),
        s.accepts(event),
    ensures
        1 + events_left(s.step(event, now).0) <= events_left(s) + arrived(event).len()
            + events_owed(arrived(event), s.index(), s.policy),
        !(event is DownstreamGone) ==> 1 + events_left(s.step(event, now).0) == events_left(s)
            + arrived(event).len() + events_owed(arrived(event), s.index(), s.policy),
{
    let (t, a) = s.step(event, now);
    let i = s.index();
    match (s.phase, event) {
        (Phase::Waiting, EventView::Arrival(p)) => {
            let pushed = StationModel { ready: s.ready.push(p), ..s };
            assert(pushed.ready[0] == p);
            lemma_dispatch_spends(pushed, now);
            assert(s.ready =~= Seq::empty());
            assert(pushed.ready =~= seq![p]);
            lemma_events_one(p, i, s.policy);
        },
        (Phase::Draining, EventView::Arrival(p)) => {
            lemma_events_one(p, i, s.policy);
            assert(s.ready.push(p).drop_last() =~= s.ready);
        },
        (Phase::Draining, EventView::NoneReady) => {
            lemma_dispatch_spends(s, now);
        },
        (Phase::Working, EventView::WorkDone) => {
            let p = s.current.unwrap();
            let r = p.remaining[i];
            let left = (r - slice_of(r, s.policy)) as u64;
            let served = p.with_remaining(i, left);
            lemma_turn_counts_down(r, s.policy);
            lemma_events_concat(seq![p], s.ready, i, s.policy);
            lemma_events_one(p, i, s.policy);
            assert(served.remaining[i] == left);
            if left != 0 {
                assert(s.ready.push(served).drop_last() =~= s.ready);
            }
        },
        _ => {},
    }
}

/// A station takes no more events than its arrivals account for: a history
/// is at most as long as what the station had left at its start and what
/// its arrivals brought. As long as downstream stays it is exactly that
/// long, less what the station has left at its end.
pub proof fn run_is_bounded(s: StationModel, inputs: Seq<Input>)
    requires
        s.wf(),
        admissible(s, inputs),
    ensures
        inputs.len() + events_left(run(s, inputs)) <= events_left(s) + events_brought(
            inputs,
            s.index(),
            s.policy,
        ),
        run(s, inputs).phase != Phase::Closed || !run(s, inputs).upstream_open ==> inputs.len()
            + events_left(run(s, inputs)) == events_left(s) + events_brought(
            inputs,
            s.index(),
            s.policy,
        ),
    decreases inputs.len(),
{
    if inputs.len() > 0 {
        let before = inputs.drop_last();
        let last = inputs.last();
        let mid = run(s, before);
        run_is_bounded(s, before);
        run_keeps_invariant(s, before);
        lemma_step_spends(mid, last.event, last.now);
        lemma_step_wf(mid, last.event, last.now);
        lemma_events_concat(received(before), arrived(last.event), s.index(), s.policy);
    }
}

} // verus!
