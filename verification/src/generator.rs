//! The source of the line: a fixed number of items, numbered from one, each
//! stamped with its arrival time, at a fixed pace.

use crate::product::{fresh, services, Product, ProductView, StationCfg};
use vstd::prelude::*;

verus! {

/// What the generator asks of its driver next.
#[derive(Debug, PartialEq, Eq)]
pub enum Emission {
    /// Send this item into the line.
    Send(Product),
    /// Wait this many milliseconds before asking again.
    Pause(u64),
    /// Every item has been sent: close the entry channel.
    Close,
}

/// The mathematical value of an [`Emission`].
pub enum EmissionView {
    Send(ProductView),
    Pause(u64),
    Close,
}

impl View for Emission {
    type V = EmissionView;

    open spec fn view(&self) -> EmissionView {
        match self {
            Emission::Send(p) => EmissionView::Send(p@),
            Emission::Pause(ms) => EmissionView::Pause(*ms),
            Emission::Close => EmissionView::Close,
        }
    }
}

/// The mathematical value of a [`Generator`].
pub struct GeneratorModel {
    /// The service that each station of the line owes an item, in line order.
    pub services: Seq<u64>,
    /// How many items are to be sent in all.
    pub count: u32,
    /// The pause after each item, in milliseconds; zero for none.
    pub interarrival_ms: u64,
    /// How many items have been sent so far.
    pub emitted: u32,
    /// Whether the pause after the last item sent is still to come.
    pub pause_due: bool,
}

impl GeneratorModel {
    /// A generator that has sent nothing yet.
    pub open spec fn initial(
        services: Seq<u64>,
        count: u32,
        interarrival_ms: u64,
    ) -> GeneratorModel {
        GeneratorModel { services, count, interarrival_ms, emitted: 0, pause_due: false }
    }

    /// No more items are sent than are to be, and a pause is due only where
    /// there is a pace to keep.
    pub open spec fn wf(self) -> bool {
        &&& self.emitted <= self.count
        &&& (self.pause_due ==> self.interarrival_ms > 0)
    }

    /// The transition function. A pause that is due comes first. Else, while
    /// items are left to send, the next one is built: numbered one above the
    /// last, owing every station its whole service, arriving `now`. After
    /// the last item and its pause the generator closes, and stays closed.
    pub open spec fn step(self, now: u128) -> (GeneratorModel, EmissionView) {
        if self.pause_due {
            (
                GeneratorModel { pause_due: false, ..self },
                EmissionView::Pause(self.interarrival_ms),
            )
        } else if self.emitted < self.count {
            let id = (self.emitted + 1) as u32;
            (
                GeneratorModel { emitted: id, pause_due: self.interarrival_ms > 0, ..self },
                EmissionView::Send(fresh(id, self.services, now)),
            )
        } else {
            (self, EmissionView::Close)
        }
    }
}

/// The generator's state after it was asked once at each of `ticks`.
pub open spec fn produce(g: GeneratorModel, ticks: Seq<u128>) -> GeneratorModel
    decreases ticks.len(),
{
    if ticks.len() == 0 {
        g
    } else {
        produce(g, ticks.drop_last()).step(ticks.last()).0
    }
}

/// What the generator answered at each of `ticks`.
pub open spec fn emissions(g: GeneratorModel, ticks: Seq<u128>) -> Seq<EmissionView>
    decreases ticks.len(),
{
    if ticks.len() == 0 {
        Seq::empty()
    } else {
        emissions(g, ticks.drop_last()).push(produce(g, ticks.drop_last()).step(ticks.last()).1)
    }
}

/// The items among a sequence of emissions, in order.
pub open spec fn items_sent(emitted: Seq<EmissionView>) -> Seq<ProductView>
    decreases emitted.len(),
{
    if emitted.len() == 0 {
        Seq::empty()
    } else {
        items_sent(emitted.drop_last()) + match emitted.last() {
            EmissionView::Send(p) => seq![p],
            _ => Seq::empty(),
        }
    }
}

/// The generator sends its items numbered from one without a gap, each new
/// and stamped with its own arrival, never more than it was set up for, and
/// it closes only when it has sent them all.
pub proof fn generator_numbers_items(
    services: Seq<u64>,
    count: u32,
    interarrival_ms: u64,
    ticks: Seq<u128>,
)
    ensures
        ({
            let g = GeneratorModel::initial(services, count, interarrival_ms);
            let items = items_sent(emissions(g, ticks));
            &&& produce(g, ticks).wf()
            &&& produce(g, ticks).services == services
            &&& produce(g, ticks).count == count
            &&& items.len() == produce(g, ticks).emitted
            &&& items.len() <= count
            &&& forall|j: int|
                0 <= j < items.len() ==> #[trigger] items[j] == fresh(
                    (j + 1) as u32,
                    services,
                    items[j].arrival,
                )
            &&& emissions(g, ticks).len() == ticks.len()
            &&& (ticks.len() > 0 && emissions(g, ticks).last() is Close ==> items.len() == count)
        }),
    decreases ticks.len(),
{
    let g = GeneratorModel::initial(services, count, interarrival_ms);
    if ticks.len() > 0 {
        let before = ticks.drop_last();
        generator_numbers_items(services, count, interarrival_ms, before);
        let e0 = emissions(g, before);
        let e1 = emissions(g, ticks);
        assert(e1.drop_last() =~= e0);
        let i0 = items_sent(e0);
        let i1 = items_sent(e1);
        assert forall|j: int| 0 <= j < i1.len() implies #[trigger] i1[j] == fresh(
            (j + 1) as u32,
            services,
            i1[j].arrival,
        ) by {
            if j < i0.len() {
                assert(i1[j] == i0[j]);
            }
        }
    }
}

/// The steps that a generator still takes before it closes: a send and, at
/// a pace, a pause for each item left, and the pause that is due.
pub open spec fn steps_left(g: GeneratorModel) -> nat {
    let each: nat = if g.interarrival_ms > 0 {
        2
    } else {
        1
    };
    let due: nat = if g.pause_due {
        1
    } else {
        0
    };
    ((g.count - g.emitted) * each + due) as nat
}

/// The generator comes to an end: it closes at the step after its last send
/// and pause, which is at the latest the step after twice as many steps as
/// it has items to send, and once it has closed it stays closed.
pub proof fn generator_closes(
    services: Seq<u64>,
    count: u32,
    interarrival_ms: u64,
    ticks: Seq<u128>,
)
    ensures
        ({
            let g = GeneratorModel::initial(services, count, interarrival_ms);
            let closed = ticks.len() > 0 && emissions(g, ticks).last() is Close;
            &&& steps_left(g) <= 2 * count
            &&& closed ==> steps_left(produce(g, ticks)) == 0
            &&& !closed ==> ticks.len() + steps_left(produce(g, ticks)) == steps_left(g)
            &&& ticks.len() > 2 * count ==> closed
            &&& steps_left(produce(g, ticks)) == 0 ==> produce(g, ticks).step(0).1 is Close
        }),
    decreases ticks.len(),
{
    let g = GeneratorModel::initial(services, count, interarrival_ms);
    generator_numbers_items(services, count, interarrival_ms, ticks);
    let end = produce(g, ticks);
    assert(steps_left(g) <= 2 * count) by (nonlinear_arith)
        requires
            steps_left(g) == count * 2 || steps_left(g) == count * 1,
    ;
    if ticks.len() > 0 {
        let before = ticks.drop_last();
        generator_closes(services, count, interarrival_ms, before);
        generator_numbers_items(services, count, interarrival_ms, before);
        let mid = produce(g, before);
        if before.len() > 0 && emissions(g, before).last() is Close {
            assert(steps_left(mid) == 0);
        }
        let left = (mid.count - mid.emitted) as int;
        if mid.pause_due {
        } else if mid.emitted < mid.count {
            assert((left - 1) * 2 + 1 + 1 == left * 2) by (nonlinear_arith);
            assert((left - 1) * 1 + 1 == left * 1) by (nonlinear_arith);
        } else {
            assert(left * 2 == 0 && left * 1 == 0) by (nonlinear_arith)
                requires
                    left == 0,
            ;
        }
    }
    if steps_left(end) == 0 {
        let left = (end.count - end.emitted) as int;
        assert(left == 0) by (nonlinear_arith)
            requires
                left >= 0,
                left * 2 == 0 || left * 1 == 0,
        ;
    }
}

/// The generator of a line.
#[derive(Debug)]
pub struct Generator {
    stations: Vec<StationCfg>,
    count: u32,
    interarrival_ms: u64,
    emitted: u32,
    pause_due: bool,
}

impl View for Generator {
    type V = GeneratorModel;

    closed spec fn view(&self) -> GeneratorModel {
        GeneratorModel {
            services: services(self.stations@),
            count: self.count,
            interarrival_ms: self.interarrival_ms,
            emitted: self.emitted,
            pause_due: self.pause_due,
        }
    }
}

impl Generator {
    /// A generator of `count` items for a line of `stations`, which pauses
    /// `interarrival_ms` after each item, or not at all where that is zero.
    pub fn new(stations: Vec<StationCfg>, count: u32, interarrival_ms: u64) -> (g: Generator)
        ensures
            g@ == GeneratorModel::initial(services(stations@), count, interarrival_ms),
            g@.wf(),
    {
        Generator { stations, count, interarrival_ms, emitted: 0, pause_due: false }
    }

    /// Answers with what the driver is to do next, as
    /// [`GeneratorModel::step`] defines it. `now` is the clock's reading; it
    /// becomes the arrival time of an item that this step builds.
    pub fn step(&mut self, now: u128) -> (emission: Emission)
        requires
            old(self)@.wf(),
        ensures
            (final(self)@, emission@) == old(self)@.step(now),
            final(self)@.wf(),
    {
        if self.pause_due {
            self.pause_due = false;
            Emission::Pause(self.interarrival_ms)
        } else if self.emitted < self.count {
            let id: u32 = self.emitted + 1;
            let p = Product::new(id, &self.stations, now);
            self.emitted = id;
            self.pause_due = self.interarrival_ms > 0;
            Emission::Send(p)
        } else {
            Emission::Close
        }
    }

    /// How many items have been sent so far.
    pub fn emitted(&self) -> (n: u32)
        ensures
            n == self@.emitted,
    {
        self.emitted
    }
}

} // verus!
