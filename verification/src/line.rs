//! The whole line: a generator, a chain of stations and a collector, joined
//! by channels.
//!
//! The stages run side by side, so a run of the line is recorded stage by
//! stage: the clock's readings at the generator's steps, the history of each
//! station, and the clock's readings at the collector's receipts. A record
//! is consistent if every station kept to its protocol and every channel
//! behaved as a channel does: what is taken from it is what was put into
//! it, in that order and no sooner; closure is seen only once the sender
//! has gone and everything was taken; and a send fails only once the
//! receiver has gone. What the line guarantees is proved of every
//! consistent record.

use crate::clock::MAX_READING_MS;
use crate::collector::{collector_sums_fit, collector_tallies, tally, CollectorModel};
use crate::generator::{emissions, generator_numbers_items, items_sent, GeneratorModel};
use crate::history::{
    actions, admissible, blind, events_left, events_owed, forwarded, held, item_events, received,
    run, run_is_bounded, run_keeps_invariant, run_keeps_property, service_events, Input,
};
use crate::policy::{turns_needed, Policy};
use crate::product::{ids, services, sum_ms, ProductView, StationCfg};
use crate::schedule::{
    all_on_schedule, all_punctual, arrival_times, departure_times, lemma_arrival_times_len,
    punctual, run_serves_in_full, served_in_full, timed,
};
use crate::station::{Phase, StationModel};
use crate::theorems::{
    admissions, fcfs_station_keeps_order, lemma_owed_by_one, service_granted,
    station_conserves_items, station_serves_what_is_owed, turns_under, work_left,
};
use vstd::prelude::*;
use vstd::seq_lib::to_multiset_len;

verus! {

/// The record of one run of a line, up to some moment.
pub struct LineRun {
    /// The stations, in line order.
    pub cfgs: Seq<StationCfg>,
    /// The policy of each station.
    pub policies: Seq<Policy>,
    /// The number of items that the generator was set up for.
    pub count: u32,
    /// The generator's pace.
    pub interarrival_ms: u64,
    /// The clock's reading at each step of the generator.
    pub ticks: Seq<u128>,
    /// The history of each station.
    pub histories: Seq<Seq<Input>>,
    /// The clock's reading at each receipt by the collector.
    pub finishes: Seq<u128>,
    /// Whether the collector has seen its inbound channel close.
    pub collector_closed: bool,
}

impl LineRun {
    /// The number of stations. Channel `i` leads into station `i`, and the
    /// channel of this number leads into the collector.
    pub open spec fn stations(self) -> int {
        self.cfgs.len() as int
    }

    /// The generator at its start.
    pub open spec fn generator(self) -> GeneratorModel {
        GeneratorModel::initial(services(self.cfgs), self.count, self.interarrival_ms)
    }

    /// Station `i` at its start.
    pub open spec fn start(self, i: int) -> StationModel {
        StationModel::initial(self.cfgs[i], self.policies[i])
    }

    /// Station `i` at the end of its history.
    pub open spec fn end(self, i: int) -> StationModel {
        run(self.start(i), self.histories[i])
    }

    /// A stage has ended without having seen its inbound channel close.
    pub open spec fn gave_up(self, i: int) -> bool {
        self.end(i).phase == Phase::Closed && self.end(i).upstream_open
    }

    /// The items that the generator sent.
    pub open spec fn generated(self) -> Seq<ProductView> {
        items_sent(emissions(self.generator(), self.ticks))
    }

    /// The items put into channel `i`, in order.
    pub open spec fn offered(self, i: int) -> Seq<ProductView> {
        if i == 0 {
            self.generated()
        } else {
            forwarded(actions(self.start(i - 1), self.histories[i - 1]))
        }
    }

    /// When each item of `offered(i)` was put into the channel.
    pub open spec fn offered_at(self, i: int) -> Seq<u128> {
        if i == 0 {
            self.generated().map_values(|p: ProductView| p.arrival)
        } else {
            departure_times(self.start(i - 1), self.histories[i - 1])
        }
    }

    /// The sender of channel `i` has gone: the generator has closed, or the
    /// station before has ended.
    pub open spec fn sender_gone(self, i: int) -> bool {
        if i == 0 {
            self.ticks.len() > 0 && emissions(self.generator(), self.ticks).last() is Close
        } else {
            self.end(i - 1).phase == Phase::Closed
        }
    }

    /// How many items have been taken from channel `i`.
    pub open spec fn taken(self, i: int) -> nat {
        if i < self.stations() {
            received(self.histories[i]).len()
        } else {
            self.finishes.len()
        }
    }

    /// When each of the items taken from channel `i` was taken.
    pub open spec fn taken_at(self, i: int) -> Seq<u128> {
        if i < self.stations() {
            arrival_times(self.histories[i])
        } else {
            self.finishes
        }
    }

    /// The receiver of channel `i` has seen the channel close.
    pub open spec fn saw_closure(self, i: int) -> bool {
        if i < self.stations() {
            !self.end(i).upstream_open
        } else {
            self.collector_closed
        }
    }

    /// The items that the collector has received, in order.
    pub open spec fn collected(self) -> Seq<ProductView> {
        self.offered(self.stations()).take(self.finishes.len() as int)
    }

    /// The collector as it stands after what it has received.
    pub open spec fn collector(self) -> CollectorModel {
        tally(
            CollectorModel::initial(sum_ms(services(self.cfgs)), self.count),
            self.collected(),
            self.finishes,
        )
    }

    /// Every station has a policy and a history, stands at the place that
    /// its configuration names, and has a well formed policy.
    pub open spec fn configured(self) -> bool {
        &&& self.policies.len() == self.cfgs.len()
        &&& self.histories.len() == self.cfgs.len()
        &&& forall|i: int|
            0 <= i < self.stations() ==> (#[trigger] self.cfgs[i]).id == i && self.policies[i].wf()
    }

    /// Station `i` kept to its protocol: every event answered the action
    /// that was pending, and the clock's readings are consistent. A send
    /// fails only once the receiver has gone, and a receiver that ends on
    /// closure ends after its sender: so the station met a failed send only
    /// if the stage after it had given up, and the collector never does.
    pub open spec fn station_ok(self, i: int) -> bool {
        &&& admissible(self.start(i), self.histories[i])
        &&& timed(0, self.start(i), self.histories[i])
        &&& (self.gave_up(i) ==> i + 1 < self.stations() && self.gave_up(i + 1))
    }

    /// Channel `i` behaved as a channel does. What the receiver took is the
    /// front of what the sender put in, each item no sooner than it was put
    /// in. The receiver saw closure only once the sender had gone and
    /// everything was taken.
    pub open spec fn channel_ok(self, i: int) -> bool {
        &&& self.taken(i) <= self.offered(i).len()
        &&& i < self.stations() ==> received(self.histories[i]) == self.offered(i).take(
            self.taken(i) as int,
        )
        &&& self.taken_at(i).len() == self.taken(i)
        &&& self.offered_at(i).len() == self.offered(i).len()
        &&& forall|j: int|
            0 <= j < self.taken(i) ==> (#[trigger] self.taken_at(i)[j]) >= self.offered_at(i)[j]
        &&& (self.saw_closure(i) ==> self.sender_gone(i) && self.taken(i) == self.offered(i).len())
    }

    /// The record is consistent.
    pub open spec fn consistent(self) -> bool {
        &&& self.configured()
        &&& forall|i: int| 0 <= i < self.stations() ==> #[trigger] self.station_ok(i)
        &&& forall|i: int| 0 <= i <= self.stations() ==> #[trigger] self.channel_ok(i)
    }

    /// The record is consistent and the line has run to its end: the
    /// collector has seen its inbound channel close.
    pub open spec fn complete(self) -> bool {
        self.consistent() && self.collector_closed
    }
}

/// In a consistent record every station's state is well formed.
pub proof fn lemma_stations_wf(r: LineRun, i: int)
    requires
        r.consistent(),
        0 <= i < r.stations(),
    ensures
        r.start(i).wf(),
        r.end(i).wf(),
        r.start(i).index() == i,
        r.end(i).cfg == r.cfgs[i],
        r.end(i).policy == r.policies[i],
        held(r.start(i)) == Seq::<ProductView>::empty(),
        admissible(r.start(i), r.histories[i]),
{
    assert(r.station_ok(i));
    assert(r.cfgs[i].id == i);
    assert(r.start(i).ready.len() == 0);
    run_keeps_invariant(r.start(i), r.histories[i]);
    assert(held(r.start(i)) =~= Seq::<ProductView>::empty());
}

/// No station of a consistent record gives up: the collector never does,
/// and a station does only after the stage behind it.
pub proof fn lemma_no_station_gives_up(r: LineRun, i: int)
    requires
        r.consistent(),
        0 <= i < r.stations(),
    ensures
        !r.gave_up(i),
    decreases r.stations() - i,
{
    assert(r.station_ok(i));
    if r.gave_up(i) {
        lemma_no_station_gives_up(r, i + 1);
    }
}

proof fn lemma_closure_reaches(r: LineRun, i: int, k: int)
    requires
        r.consistent(),
        0 <= k <= i <= r.stations(),
        r.saw_closure(i),
    ensures
        r.saw_closure(k),
        r.sender_gone(k),
        r.taken(k) == r.offered(k).len(),
    decreases i - k,
{
    assert(r.channel_ok(k));
    if k < i {
        lemma_closure_reaches(r, i, k + 1);
        // The sender of the next channel, which is station `k`, has gone,
        // and it did not give up: so it saw its own inbound channel close.
        lemma_no_station_gives_up(r, k);
    }
}

/// Closure travels down the line behind the last item: where the receiver
/// of channel `i` has seen closure, the generator has closed after sending
/// every item, and every stage before the receiver has ended on closure,
/// holds nothing and has taken all that was put into its channel.
pub proof fn lemma_closure_cascade(r: LineRun, i: int, k: int)
    requires
        r.consistent(),
        0 <= k <= i <= r.stations(),
        r.saw_closure(i),
    ensures
        r.saw_closure(k),
        r.sender_gone(k),
        r.taken(k) == r.offered(k).len(),
        r.generated().len() == r.count,
        k < r.stations() ==> held(r.end(k)).len() == 0 && received(r.histories[k]) == r.offered(k),
{
    lemma_closure_reaches(r, i, k);
    lemma_closure_reaches(r, i, 0);
    generator_numbers_items(services(r.cfgs), r.count, r.interarrival_ms, r.ticks);
    assert(r.channel_ok(k));
    if k < r.stations() {
        lemma_stations_wf(r, k);
        assert(r.offered(k).take(r.offered(k).len() as int) =~= r.offered(k));
    }
}

/// The numbers from one to `count`, in order.
pub open spec fn numbers(count: u32) -> Seq<u32> {
    Seq::new(count as nat, |j: int| (j + 1) as u32)
}

/// The generator's items bear the numbers from one on, in order.
pub proof fn lemma_generated_ids(r: LineRun)
    ensures
        r.generated().len() <= r.count,
        ids(r.generated()) == numbers(r.generated().len() as u32),
{
    generator_numbers_items(services(r.cfgs), r.count, r.interarrival_ms, r.ticks);
    assert(ids(r.generated()) =~= numbers(r.generated().len() as u32));
}

/// In a complete record every channel has carried the generated items, each
/// once.
proof fn lemma_channel_carried_all(r: LineRun, i: int)
    requires
        r.complete(),
        0 <= i <= r.stations(),
    ensures
        ids(r.offered(i)).to_multiset() == ids(r.generated()).to_multiset(),
        r.offered(i).len() == r.count,
    decreases i,
{
    lemma_closure_cascade(r, r.stations(), 0);
    if i > 0 {
        let k = i - 1;
        lemma_channel_carried_all(r, k);
        lemma_closure_cascade(r, r.stations(), k);
        lemma_stations_wf(r, k);
        assert(r.policies[k].wf());
        station_conserves_items(r.cfgs[k], r.policies[k], r.histories[k]);
    }
}

/// No loss and no duplication. Once the line has run to its end the
/// collector has received as many items as the generator was set up for,
/// and their identifiers are the numbers from one to that many, each once.
pub proof fn line_delivers_every_item_once(r: LineRun)
    requires
        r.complete(),
    ensures
        r.collected().len() == r.count,
        r.generated().len() == r.count,
        ids(r.collected()).to_multiset() == numbers(r.count).to_multiset(),
        ids(r.collected()).no_duplicates(),
{
    let n = r.stations();
    lemma_channel_carried_all(r, n);
    lemma_closure_cascade(r, n, n);
    lemma_generated_ids(r);
    assert(r.collected() =~= r.offered(n));
    let want = numbers(r.count);
    assert(want.no_duplicates());
    want.lemma_multiset_has_no_duplicates();
    ids(r.collected()).lemma_multiset_has_no_duplicates_conv();
}

/// In a complete record of a line whose stations all run to completion,
/// every channel has carried the generated items in the order of their
/// generation.
proof fn lemma_channel_kept_order(r: LineRun, i: int)
    requires
        r.complete(),
        forall|k: int| 0 <= k < r.stations() ==> #[trigger] r.policies[k] == Policy::Fcfs,
        0 <= i <= r.stations(),
    ensures
        ids(r.offered(i)) == ids(r.generated()),
    decreases i,
{
    if i > 0 {
        let k = i - 1;
        lemma_channel_kept_order(r, k);
        lemma_closure_cascade(r, r.stations(), k);
        lemma_stations_wf(r, k);
        assert(r.policies[k] == Policy::Fcfs);
        fcfs_station_keeps_order(r.cfgs[k], r.histories[k]);
    }
}

/// First come, first served. Where every station runs its items to
/// completion, the order of completion at the collector is the order of
/// generation: the numbers from one to the number of items.
pub proof fn fcfs_line_keeps_order(r: LineRun)
    requires
        r.complete(),
        forall|k: int| 0 <= k < r.stations() ==> #[trigger] r.policies[k] == Policy::Fcfs,
    ensures
        ids(r.collected()) == numbers(r.count),
{
    let n = r.stations();
    lemma_channel_kept_order(r, n);
    lemma_closure_cascade(r, n, n);
    lemma_generated_ids(r);
    assert(r.collected() =~= r.offered(n));
}

impl LineRun {
    /// The service that an item has had when it reaches channel `i`: that
    /// of all the stations before.
    pub open spec fn lead(self, i: int) -> nat {
        sum_ms(services(self.cfgs).take(i))
    }

    /// The item is as the stations other than `skip` leave an item in
    /// channel `i`: it has a slot for each station of the line; it owes
    /// nothing to a station before channel `i`; and in the slot of a station
    /// behind the channel it holds the station's whole service and no entry
    /// time.
    pub open spec fn settled_but(self, p: ProductView, i: int, skip: int) -> bool {
        &&& p.wf()
        &&& p.remaining.len() == self.stations()
        &&& forall|k: int| 0 <= k < i && k != skip ==> #[trigger] p.remaining[k] == 0
        &&& forall|k: int|
            i <= k < self.stations() && k != skip ==> #[trigger] p.remaining[k]
                == self.cfgs[k].service_ms && p.enter[k] is None
    }

    /// The item is as the line leaves an item in channel `i`: served in full
    /// by every station before the channel and untouched by every station
    /// behind it.
    pub open spec fn settled(self, p: ProductView, i: int) -> bool {
        self.settled_but(p, i, -1)
    }

    /// An item that is put into channel `i` at time `t` is where it should
    /// be: served in full by every station before, untouched by every
    /// station behind, and in the line for at least the time that the
    /// service before took.
    pub open spec fn in_time(self, p: ProductView, i: int, t: u128) -> bool {
        self.settled(p, i) && t >= p.arrival + self.lead(i)
    }
}

proof fn lemma_lead_grows(r: LineRun, i: int)
    requires
        0 <= i < r.stations(),
    ensures
        r.lead(i + 1) == r.lead(i) + r.cfgs[i].service_ms,
        r.lead(0) == 0,
{
    let all = services(r.cfgs);
    assert(all.take(i + 1).drop_last() =~= all.take(i));
    assert(all.take(i + 1).last() == r.cfgs[i].service_ms);
    assert(all.take(0) =~= Seq::<u64>::empty());
}

/// What the other stations have left of an item does not depend on the slot
/// of station `i`.
proof fn lemma_settled_is_blind(r: LineRun, i: int)
    requires
        0 <= i < r.stations(),
    ensures
        blind(|p: ProductView| r.settled_but(p, i, i), i),
{
    let property = |p: ProductView| r.settled_but(p, i, i);
    assert forall|p: ProductView, left: u64| p.fits(i) implies #[trigger] property(
        p.with_remaining(i, left),
    ) == property(p) by {
        lemma_same_elsewhere(r, p, p.with_remaining(i, left), i);
    }
    assert forall|p: ProductView, now: u128| p.fits(i) implies #[trigger] property(
        p.admitted(i, now),
    ) == property(p) by {
        lemma_same_elsewhere(r, p, p.admitted(i, now), i);
    }
}

/// Two items that differ in the slot of station `i` at most are left alike
/// by the other stations.
proof fn lemma_same_elsewhere(r: LineRun, p: ProductView, q: ProductView, i: int)
    requires
        0 <= i < r.stations(),
        p.remaining.len() == q.remaining.len(),
        p.enter.len() == q.enter.len(),
        p.exit.len() == q.exit.len(),
        forall|k: int| 0 <= k < p.remaining.len() && k != i ==> p.remaining[k] == q.remaining[k],
        forall|k: int| 0 <= k < p.enter.len() && k != i ==> p.enter[k] == q.enter[k],
    ensures
        r.settled_but(p, i, i) == r.settled_but(q, i, i),
{
    if r.settled_but(p, i, i) {
        lemma_alike(r, p, q, i);
    }
    if r.settled_but(q, i, i) {
        lemma_alike(r, q, p, i);
    }
}

proof fn lemma_alike(r: LineRun, p: ProductView, q: ProductView, i: int)
    requires
        0 <= i < r.stations(),
        r.settled_but(p, i, i),
        p.remaining.len() == q.remaining.len(),
        p.enter.len() == q.enter.len(),
        p.exit.len() == q.exit.len(),
        forall|k: int| 0 <= k < p.remaining.len() && k != i ==> p.remaining[k] == q.remaining[k],
        forall|k: int| 0 <= k < p.enter.len() && k != i ==> p.enter[k] == q.enter[k],
    ensures
        r.settled_but(q, i, i),
{
    assert forall|k: int| 0 <= k < i && k != i implies #[trigger] q.remaining[k] == 0 by {
        assert(p.remaining[k] == 0);
    }
    assert forall|k: int| i <= k < r.stations() && k != i implies #[trigger] q.remaining[k]
        == r.cfgs[k].service_ms && q.enter[k] is None by {
        assert(p.remaining[k] == r.cfgs[k].service_ms);
    }
}

/// In a consistent record every item is put into every channel in time.
pub proof fn lemma_channel_in_time(r: LineRun, i: int)
    requires
        r.consistent(),
        0 <= i <= r.stations(),
    ensures
        r.offered_at(i).len() == r.offered(i).len(),
        forall|j: int|
            0 <= j < r.offered(i).len() ==> r.in_time(
                #[trigger] r.offered(i)[j],
                i,
                r.offered_at(i)[j],
            ),
    decreases i,
{
    assert(r.channel_ok(i));
    if i == 0 {
        generator_numbers_items(services(r.cfgs), r.count, r.interarrival_ms, r.ticks);
        if r.stations() > 0 {
            lemma_lead_grows(r, 0);
        } else {
            assert(services(r.cfgs).take(0) =~= Seq::<u64>::empty());
        }
        assert forall|j: int| 0 <= j < r.offered(0).len() implies r.in_time(
            #[trigger] r.offered(0)[j],
            0,
            r.offered_at(0)[j],
        ) by {
            let p = r.offered(0)[j];
            assert(p.remaining == services(r.cfgs));
        }
    } else {
        let k = i - 1;
        let s = r.start(k);
        let h = r.histories[k];
        let service = r.cfgs[k].service_ms;
        lemma_channel_in_time(r, k);
        lemma_stations_wf(r, k);
        lemma_lead_grows(r, k);
        lemma_arrival_times_len(h);
        assert(r.channel_ok(k));
        assert(r.station_ok(k));
        let got = received(h);
        assert forall|j: int| 0 <= j < got.len() implies r.in_time(
            #[trigger] got[j],
            k,
            arrival_times(h)[j],
        ) by {
            assert(got[j] == r.offered(k)[j]);
            assert(r.in_time(r.offered(k)[j], k, r.offered_at(k)[j]));
            assert(r.taken_at(k)[j] >= r.offered_at(k)[j]);
        }
        assert forall|j: int| 0 <= j < got.len() implies punctual(
            #[trigger] got[j],
            k,
            service,
            r.lead(k),
            arrival_times(h)[j],
        ) by {
            assert(r.in_time(got[j], k, arrival_times(h)[j]));
            assert(got[j].remaining[k] == r.cfgs[k].service_ms);
        }
        assert(all_punctual(h, k, service, r.lead(k)));
        assert(all_on_schedule(held(s), k, service, r.lead(k), 0));
        run_serves_in_full(0, s, h, r.lead(k));
        let property = |p: ProductView| r.settled_but(p, k, k);
        lemma_settled_is_blind(r, k);
        assert forall|j: int| 0 <= j < got.len() implies property(#[trigger] got[j]) by {
            assert(r.in_time(got[j], k, arrival_times(h)[j]));
            lemma_settled_apart(r, got[j], k);
        }
        run_keeps_property(s, h, property);
        let out = r.offered(i);
        assert forall|j: int| 0 <= j < out.len() implies r.in_time(
            #[trigger] out[j],
            i,
            r.offered_at(i)[j],
        ) by {
            assert(property(out[j]));
            assert(served_in_full(out[j], k, service, r.lead(k), r.offered_at(i)[j]));
            lemma_settled_next(r, out[j], k);
        }
    }
}

/// An item that is settled in channel `i` is settled apart from station `i`.
proof fn lemma_settled_apart(r: LineRun, p: ProductView, i: int)
    requires
        0 <= i < r.stations(),
        r.settled(p, i),
    ensures
        r.settled_but(p, i, i),
{
    assert forall|k: int| 0 <= k < i && k != i implies #[trigger] p.remaining[k] == 0 by {}
    assert forall|k: int| i <= k < r.stations() && k != i implies #[trigger] p.remaining[k]
        == r.cfgs[k].service_ms && p.enter[k] is None by {}
}

/// An item that is settled apart from station `i` and owes station `i`
/// nothing is settled in the channel behind it.
proof fn lemma_settled_next(r: LineRun, p: ProductView, i: int)
    requires
        0 <= i < r.stations(),
        r.settled_but(p, i, i),
        p.remaining[i] == 0,
    ensures
        r.settled(p, i + 1),
{
    assert forall|k: int| 0 <= k < i + 1 && k != -1 implies #[trigger] p.remaining[k] == 0 by {
        if k != i {
            assert(p.remaining[k] == 0);
        }
    }
    assert forall|k: int| i + 1 <= k < r.stations() && k != -1 implies #[trigger] p.remaining[k]
        == r.cfgs[k].service_ms && p.enter[k] is None by {
        assert(p.remaining[k] == r.cfgs[k].service_ms);
    }
}

/// The turnaround of every item covers its service. Every item that the
/// collector has received, at any moment of a consistent record, owes no
/// station anything and has been in the line for at least the service that
/// it needed over all stations: its turnaround is at least that much and
/// its wait is not negative.
pub proof fn line_turnaround_covers_service(r: LineRun)
    requires
        r.consistent(),
    ensures
        r.finishes.len() <= r.offered(r.stations()).len(),
        forall|j: int|
            0 <= j < r.finishes.len() ==> {
                let total = sum_ms(services(r.cfgs));
                let p = #[trigger] r.collected()[j];
                &&& r.settled(p, r.stations())
                &&& r.finishes[j] >= p.arrival + total
                &&& CollectorModel::turnaround(p, r.finishes[j]) >= total
                &&& CollectorModel::initial(total, r.count).wait(p, r.finishes[j]) >= 0
            },
{
    let n = r.stations();
    lemma_channel_in_time(r, n);
    assert(r.channel_ok(n));
    assert(services(r.cfgs).take(n) =~= services(r.cfgs));
    assert forall|j: int| 0 <= j < r.finishes.len() implies {
        let total = sum_ms(services(r.cfgs));
        let p = #[trigger] r.collected()[j];
        r.finishes[j] >= p.arrival + total && r.settled(p, n)
    } by {
        assert(r.collected()[j] == r.offered(n)[j]);
        assert(r.in_time(r.offered(n)[j], n, r.offered_at(n)[j]));
        assert(r.taken_at(n)[j] >= r.offered_at(n)[j]);
    }
}

/// No channel of a consistent record carries more items than the
/// generator was set up for.
pub proof fn lemma_channel_load(r: LineRun, i: int)
    requires
        r.consistent(),
        0 <= i <= r.stations(),
    ensures
        r.taken(i) <= r.offered(i).len() <= r.count,
    decreases i,
{
    assert(r.channel_ok(i));
    if i == 0 {
        generator_numbers_items(services(r.cfgs), r.count, r.interarrival_ms, r.ticks);
    } else {
        let k = i - 1;
        lemma_channel_load(r, k);
        lemma_stations_wf(r, k);
        assert(r.policies[k].wf());
        station_conserves_items(r.cfgs[k], r.policies[k], r.histories[k]);
        let out = forwarded(actions(r.start(k), r.histories[k]));
        let inside = held(r.end(k));
        let got = received(r.histories[k]);
        to_multiset_len(ids(out));
        to_multiset_len(ids(inside));
        to_multiset_len(ids(got));
        assert(ids(out).to_multiset().add(ids(inside).to_multiset()).len() == ids(out).len()
            + ids(inside).len());
    }
}

proof fn lemma_events_of_equals(items: Seq<ProductView>, index: int, policy: Policy, service: u64)
    requires
        forall|j: int| 0 <= j < items.len() ==> (#[trigger] items[j]).remaining[index] == service,
    ensures
        events_owed(items, index, policy) == items.len() * service_events(service, policy),
    decreases items.len(),
{
    let each = service_events(service, policy);
    if items.len() == 0 {
        assert(0 * each == 0) by (nonlinear_arith);
    } else {
        let front = items.drop_last();
        assert forall|j: int| 0 <= j < front.len() implies (#[trigger] front[j]).remaining[index]
            == service by {
            assert(front[j] == items[j]);
        }
        lemma_events_of_equals(front, index, policy, service);
        assert(items[items.len() - 1].remaining[index] == service);
        assert(item_events(items.last(), index, policy) == each);
        assert((front.len() + 1) * each == front.len() * each + each) by (nonlinear_arith);
    }
}

/// Every station comes to an end, and after a known number of events. At
/// any moment of a consistent record a station has taken no more events
/// than one for the closure of its inbound channel and, for each item that
/// the generator was set up for, one for its arrival and those that its
/// service costs under the station's policy. Once the line has run to its
/// end every station has taken exactly that many, has closed and holds
/// nothing, and the collector has received exactly as many items as the
/// generator was set up for.
pub proof fn line_runs_to_its_end(r: LineRun, i: int)
    requires
        r.consistent(),
        0 <= i < r.stations(),
    ensures
        ({
            let each = 1 + service_events(r.cfgs[i].service_ms, r.policies[i]);
            &&& r.histories[i].len() <= 1 + r.count * each
            &&& r.finishes.len() <= r.count
            &&& r.complete() ==> {
                &&& r.histories[i].len() == 1 + r.count * each
                &&& r.end(i).phase == Phase::Closed
                &&& held(r.end(i)).len() == 0
                &&& r.finishes.len() == r.count
            }
        }),
{
    let s = r.start(i);
    let h = r.histories[i];
    let service = r.cfgs[i].service_ms;
    let policy = r.policies[i];
    let cost = service_events(service, policy);
    let got = received(h);
    lemma_stations_wf(r, i);
    lemma_channel_load(r, i);
    lemma_channel_load(r, r.stations());
    lemma_channel_in_time(r, i);
    lemma_arrival_times_len(h);
    assert(r.channel_ok(i));
    assert forall|j: int| 0 <= j < got.len() implies (#[trigger] got[j]).remaining[i]
        == service by {
        assert(got[j] == r.offered(i)[j]);
        assert(r.in_time(r.offered(i)[j], i, r.offered_at(i)[j]));
        assert(got[j].remaining[i] == r.cfgs[i].service_ms);
    }
    lemma_events_of_equals(got, i, policy, service);
    run_is_bounded(s, h);
    assert(events_owed(held(s), i, policy) == 0);
    assert(events_left(s) == 1);
    let m = got.len();
    assert(m + m * cost == m * (1 + cost)) by (nonlinear_arith);
    assert(m * (1 + cost) <= r.count * (1 + cost)) by (nonlinear_arith)
        requires
            m <= r.count,
    ;
    if r.complete() {
        lemma_closure_cascade(r, r.stations(), i);
        lemma_closure_cascade(r, r.stations(), r.stations());
        lemma_channel_carried_all(r, i);
        lemma_channel_carried_all(r, r.stations());
        assert(r.end(i).phase == Phase::Closed);
    }
}

/// Every item gets its whole service at every station, in as many turns as
/// the policy makes of it. Once the line has run to its end, station `i`
/// has admitted the item with number `id` exactly as often as its service
/// needs turns under its policy, and the slices that it granted the item
/// add up to its service.
pub proof fn line_serves_every_item_in_full(r: LineRun, i: int, id: u32)
    requires
        r.complete(),
        0 <= i < r.stations(),
        1 <= id <= r.count,
    ensures
        admissions(actions(r.start(i), r.histories[i]), id) == turns_needed(
            r.cfgs[i].service_ms,
            r.policies[i],
        ),
        service_granted(actions(r.start(i), r.histories[i]), id) == r.cfgs[i].service_ms,
{
    let h = r.histories[i];
    let got = received(h);
    let policy = r.policies[i];
    lemma_stations_wf(r, i);
    lemma_closure_cascade(r, r.stations(), i);
    lemma_channel_carried_all(r, i);
    lemma_channel_in_time(r, i);
    lemma_generated_ids(r);
    // The items that reached the station bear the numbers 1 to count, each once.
    let want = numbers(r.count);
    assert(want.no_duplicates());
    want.lemma_multiset_has_no_duplicates();
    ids(got).lemma_multiset_has_no_duplicates_conv();
    assert(want[id - 1] == id);
    want.to_multiset_ensures();
    ids(got).to_multiset_ensures();
    assert(want.to_multiset().count(id) > 0);
    assert(ids(got).contains(id));
    let k = choose|k: int| 0 <= k < ids(got).len() && ids(got)[k] == id;
    assert forall|j: int| 0 <= j < got.len() implies ((#[trigger] got[j]).id == id <==> j == k) by {
        assert(ids(got)[j] == got[j].id);
        assert(ids(got)[k] == got[k].id);
    }
    assert(r.in_time(r.offered(i)[k], i, r.offered_at(i)[k]));
    assert(got[k].remaining[i] == r.cfgs[i].service_ms);
    station_serves_what_is_owed(r.cfgs[i], policy, h, id);
    lemma_owed_by_one(got, i, id, turns_under(policy), k);
    lemma_owed_by_one(got, i, id, work_left(), k);
}

/// The collector can measure every item that reaches it. At every receipt
/// of a consistent record whose collector reads the clock, the collector as
/// it stands after the receipts before admits the item at its reading: the
/// item's service can have been performed by then, and the sum of
/// turnarounds has room for it.
pub proof fn collector_admits_every_item(r: LineRun, j: int)
    requires
        r.consistent(),
        forall|k: int| 0 <= k < r.finishes.len() ==> #[trigger] r.finishes[k] <= MAX_READING_MS,
        0 <= j < r.finishes.len(),
    ensures
        tally(
            CollectorModel::initial(sum_ms(services(r.cfgs)), r.count),
            r.collected().take(j),
            r.finishes.take(j),
        ).admits(r.collected()[j], r.finishes[j]),
{
    let total = sum_ms(services(r.cfgs));
    let items = r.collected().take(j);
    let times = r.finishes.take(j);
    line_turnaround_covers_service(r);
    lemma_channel_load(r, r.stations());
    assert forall|k: int| 0 <= k < items.len() implies times[k] >= (#[trigger] items[k]).arrival
        + total by {
        assert(items[k] == r.collected()[k]);
        assert(times[k] == r.finishes[k]);
    }
    assert forall|k: int| 0 <= k < times.len() implies #[trigger] times[k] <= MAX_READING_MS by {
        assert(times[k] == r.finishes[k]);
    }
    let p = r.collected()[j];
    assert(r.finishes[j] >= p.arrival + total);
    collector_sums_fit(total, r.count, items, times, p, r.finishes[j]);
}

/// What the collector reports is what the line did. At any moment of a
/// consistent record the collector's order of completion lists the items
/// that it has received, in that order, and its sum of waits is its sum of
/// turnarounds less the line's service once for each item. Once the line has
/// run to its end that order holds each number from one to the number of
/// items once; and where every station runs its items to completion it
/// holds them in ascending order.
pub proof fn collector_reports_the_line(r: LineRun)
    requires
        r.consistent(),
    ensures
        r.collector().order == ids(r.collected()),
        r.collector().wf(),
        r.collector().sum_wait + r.finishes.len() * sum_ms(services(r.cfgs))
            == r.collector().sum_turnaround,
        r.complete() ==> {
            &&& r.collector().order.len() == r.count
            &&& r.collector().order.to_multiset() == numbers(r.count).to_multiset()
            &&& r.collector().order.no_duplicates()
        },
        r.complete() && (forall|k: int|
            0 <= k < r.stations() ==> #[trigger] r.policies[k] == Policy::Fcfs)
            ==> r.collector().order == numbers(r.count),
{
    line_turnaround_covers_service(r);
    assert(r.channel_ok(r.stations()));
    collector_tallies(sum_ms(services(r.cfgs)), r.count, r.collected(), r.finishes);
    if r.complete() {
        line_delivers_every_item_once(r);
        if forall|k: int| 0 <= k < r.stations() ==> #[trigger] r.policies[k] == Policy::Fcfs {
            fcfs_line_keeps_order(r);
        }
    }
}

} // verus!
