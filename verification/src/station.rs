//! The station engine.
//!
//! A station is a state machine. It never waits, sleeps, sends or receives
//! itself: each transition answers one [`Event`] with the next [`Action`], and
//! the driver that owns the channels carries the action out and reports what
//! came of it. The transition function is stated once over mathematical
//! values ([`StationModel::step`]) and once as executable code
//! ([`Station::step`]), which is proved to compute the same thing.

use crate::policy::{slice_for, slice_of, Policy};
use crate::product::{views, Product, ProductView, StationCfg};
use std::collections::VecDeque;
use vstd::prelude::*;

verus! {

/// Where a station stands between two events.
#[derive(Clone, Copy, Debug, PartialEq, Eq, Structural)]
pub enum Phase {
    /// The ready queue is empty and the station blocks on its inbound channel.
    Waiting,
    /// The item in hand is being served for one slice.
    Working,
    /// An item that owes no work here, or no more, is being handed downstream.
    Forwarding,
    /// The station takes in, without blocking, what has arrived meanwhile.
    Draining,
    /// Terminal: nothing more is received or sent.
    Closed,
}

/// What the driver reports to the station.
#[derive(Debug, PartialEq, Eq)]
pub enum Event {
    /// A receive, blocking or not, returned this item.
    Arrival(Product),
    /// The blocking receive found the inbound channel closed and empty.
    InboundClosed,
    /// The non-blocking receive found nothing readily available.
    NoneReady,
    /// The slice of work last asked for has been performed.
    WorkDone,
    /// The item last handed over was sent downstream.
    Sent,
    /// The item last handed over could not be sent: downstream has terminated.
    DownstreamGone,
}

/// What the station asks of the driver next.
#[derive(Debug, PartialEq, Eq)]
pub enum Action {
    /// Block on the inbound channel until an item arrives or it closes.
    Receive,
    /// Try the inbound channel once, without blocking.
    Poll,
    /// Perform `slice_ms` of work on item `id`, of whose service
    /// `remaining_ms` is still owed before this slice.
    Work { id: u32, remaining_ms: u64, slice_ms: u64 },
    /// Send this item downstream.
    Forward(Product),
    /// Terminate, and close the outbound channel.
    Stop,
}

/// The mathematical value of an [`Event`].
pub enum EventView {
    Arrival(ProductView),
    InboundClosed,
    NoneReady,
    WorkDone,
    Sent,
    DownstreamGone,
}

/// The mathematical value of an [`Action`].
pub enum ActionView {
    Receive,
    Poll,
    Work { id: u32, remaining: u64, slice: u64 },
    Forward(ProductView),
    Stop,
}

impl View for Event {
    type V = EventView;

    open spec fn view(&self) -> EventView {
        match self {
            Event::Arrival(p) => EventView::Arrival(p@),
            Event::InboundClosed => EventView::InboundClosed,
            Event::NoneReady => EventView::NoneReady,
            Event::WorkDone => EventView::WorkDone,
            Event::Sent => EventView::Sent,
            Event::DownstreamGone => EventView::DownstreamGone,
        }
    }
}

impl View for Action {
    type V = ActionView;

    open spec fn view(&self) -> ActionView {
        match self {
            Action::Receive => ActionView::Receive,
            Action::Poll => ActionView::Poll,
            Action::Work { id, remaining_ms, slice_ms } => ActionView::Work {
                id: *id,
                remaining: *remaining_ms,
                slice: *slice_ms,
            },
            Action::Forward(p) => ActionView::Forward(p@),
            Action::Stop => ActionView::Stop,
        }
    }
}

/// The mathematical value of a [`Station`].
pub struct StationModel {
    /// Place in the line, name and configured service.
    pub cfg: StationCfg,
    /// The slicing policy, fixed for the station's life.
    pub policy: Policy,
    /// The ready queue, front first.
    pub ready: Seq<ProductView>,
    /// The item in service, while there is one.
    pub current: Option<ProductView>,
    /// False once the inbound channel has been seen closed.
    pub upstream_open: bool,
    /// The control state.
    pub phase: Phase,
}

impl StationModel {
    /// The index of this station's slot in every item.
    pub open spec fn index(self) -> int {
        self.cfg.id as int
    }

    /// A station that has not seen any event: empty, and about to block on
    /// its inbound channel.
    pub open spec fn initial(cfg: StationCfg, policy: Policy) -> StationModel {
        StationModel {
            cfg,
            policy,
            ready: Seq::empty(),
            current: None,
            upstream_open: true,
            phase: Phase::Waiting,
        }
    }

    /// The invariant of a station.
    ///
    /// Every item it holds has a slot for it; an item is in hand exactly
    /// while the station works, it still needs work and its entry time is
    /// stamped; the station waits only on an empty queue; and once the
    /// inbound channel was seen closed the station is closed and holds
    /// nothing.
    pub open spec fn wf(self) -> bool {
        &&& self.policy.wf()
        &&& forall|i: int|
            0 <= i < self.ready.len() ==> (#[trigger] self.ready[i]).fits(self.index())
        &&& (self.phase == Phase::Working <==> self.current is Some)
        &&& (self.current matches Some(p) ==> {
            &&& p.fits(self.index())
            &&& p.remaining[self.index()] > 0
            &&& p.enter[self.index()] is Some
        })
        &&& (self.phase == Phase::Waiting ==> self.ready.len() == 0)
        &&& (!self.upstream_open ==> {
            &&& self.phase == Phase::Closed
            &&& self.ready.len() == 0
        })
    }

    /// The events that answer the action that is pending in this phase. An
    /// arriving item must have a slot for this station.
    pub open spec fn accepts(self, event: EventView) -> bool {
        match self.phase {
            Phase::Waiting => match event {
                EventView::Arrival(p) => p.fits(self.index()),
                EventView::InboundClosed => true,
                _ => false,
            },
            Phase::Draining => match event {
                EventView::Arrival(p) => p.fits(self.index()),
                EventView::NoneReady => true,
                _ => false,
            },
            Phase::Working => event is WorkDone,
            Phase::Forwarding => event is Sent || event is DownstreamGone,
            Phase::Closed => false,
        }
    }

    /// The station turns to its ready queue. On an empty queue it waits for
    /// an arrival. Else it takes the item at the front, whatever the policy:
    /// an item that owes no work here is forwarded at once, without
    /// admission; any other is admitted at time `now` and served for the
    /// slice that the policy grants.
    pub open spec fn dispatch(self, now: u128) -> (StationModel, ActionView) {
        if self.ready.len() == 0 {
            (StationModel { phase: Phase::Waiting, ..self }, ActionView::Receive)
        } else {
            let p = self.ready.first();
            let rest = self.ready.drop_first();
            let remaining = p.remaining[self.index()];
            if remaining == 0 {
                (
                    StationModel { ready: rest, phase: Phase::Forwarding, ..self },
                    ActionView::Forward(p),
                )
            } else {
                (
                    StationModel {
                        ready: rest,
                        current: Some(p.admitted(self.index(), now)),
                        phase: Phase::Working,
                        ..self
                    },
                    ActionView::Work {
                        id: p.id,
                        remaining,
                        slice: slice_of(remaining, self.policy),
                    },
                )
            }
        }
    }

    /// The slice in hand has been performed: the item owes that much less.
    /// With nothing left it is forwarded; else it goes to the back of the
    /// ready queue, and the station drains arrivals next.
    pub open spec fn finish_slice(self) -> (StationModel, ActionView) {
        let p = self.current.unwrap();
        let remaining = p.remaining[self.index()];
        let left = (remaining - slice_of(remaining, self.policy)) as u64;
        let served = p.with_remaining(self.index(), left);
        if left == 0 {
            (
                StationModel { current: None, phase: Phase::Forwarding, ..self },
                ActionView::Forward(served),
            )
        } else {
            (
                StationModel {
                    ready: self.ready.push(served),
                    current: None,
                    phase: Phase::Draining,
                    ..self
                },
                ActionView::Poll,
            )
        }
    }

    /// The transition function: the station's next state and the action it
    /// asks for, given an event that it accepts and the clock's reading when
    /// the event is reported.
    pub open spec fn step(self, event: EventView, now: u128) -> (StationModel, ActionView) {
        match (self.phase, event) {
            (Phase::Waiting, EventView::Arrival(p)) => StationModel {
                ready: self.ready.push(p),
                ..self
            }.dispatch(now),
            (Phase::Waiting, EventView::InboundClosed) => (
                StationModel { upstream_open: false, phase: Phase::Closed, ..self },
                ActionView::Stop,
            ),
            (Phase::Draining, EventView::Arrival(p)) => (
                StationModel { ready: self.ready.push(p), ..self },
                ActionView::Poll,
            ),
            (Phase::Draining, EventView::NoneReady) => self.dispatch(now),
            (Phase::Working, EventView::WorkDone) => self.finish_slice(),
            (Phase::Forwarding, EventView::Sent) => (
                StationModel { phase: Phase::Draining, ..self },
                ActionView::Poll,
            ),
            (Phase::Forwarding, EventView::DownstreamGone) => (
                StationModel { phase: Phase::Closed, ..self },
                ActionView::Stop,
            ),
            _ => (self, ActionView::Stop),
        }
    }
}

/// A step on an accepted event keeps the invariant.
pub proof fn lemma_step_wf(s: StationModel, event: EventView, now: u128)
    requires
        s.wf(),
        s.accepts(event),
    ensures
        s.step(event, now).0.wf(),
{
    let t = s.step(event, now).0;
    let i = s.index();
    match (s.phase, event) {
        (Phase::Waiting, EventView::Arrival(p)) => {
            let pushed = StationModel { ready: s.ready.push(p), ..s };
            lemma_dispatch_wf(pushed, now);
        },
        (Phase::Draining, EventView::Arrival(p)) => {},
        (Phase::Draining, EventView::NoneReady) => {
            lemma_dispatch_wf(s, now);
        },
        (Phase::Working, EventView::WorkDone) => {},
        _ => {},
    }
}

/// Turning to the queue keeps the invariant, from any state that holds no
/// item in hand.
pub proof fn lemma_dispatch_wf(s: StationModel, now: u128)
    requires
        s.policy.wf(),
        s.upstream_open,
        s.current is None,
        forall|i: int| 0 <= i < s.ready.len() ==> (#[trigger] s.ready[i]).fits(s.index()),
    ensures
        s.dispatch(now).0.wf(),
{
    let t = s.dispatch(now).0;
    if s.ready.len() > 0 {
        assert(s.ready[0].fits(s.index()));
        assert forall|i: int| 0 <= i < t.ready.len() implies (#[trigger] t.ready[i]).fits(
            t.index(),
        ) by {
            assert(t.ready[i] == s.ready[i + 1]);
        }
    }
}

/// A station of the line.
#[derive(Debug)]
pub struct Station {
    cfg: StationCfg,
    policy: Policy,
    ready: VecDeque<Product>,
    current: Option<Product>,
    upstream_open: bool,
    phase: Phase,
}

impl View for Station {
    type V = StationModel;

    closed spec fn view(&self) -> StationModel {
        StationModel {
            cfg: self.cfg,
            policy: self.policy,
            ready: views(self.ready@),
            current: match self.current {
                Some(p) => Some(p@),
                None => None,
            },
            upstream_open: self.upstream_open,
            phase: self.phase,
        }
    }
}

impl Station {
    /// A station at the start of its life: it holds nothing, and the first
    /// thing its driver does is a blocking receive, as for
    /// [`Action::Receive`].
    pub fn new(cfg: StationCfg, policy: Policy) -> (station: Station)
        requires
            policy.wf(),
        ensures
            station@ == StationModel::initial(cfg, policy),
            station@.wf(),
    {
        let station = Station {
            cfg,
            policy,
            ready: VecDeque::new(),
            current: None,
            upstream_open: true,
            phase: Phase::Waiting,
        };
        assert(station@.ready =~= Seq::empty());
        station
    }

    /// The station's configuration.
    pub fn cfg(&self) -> (cfg: StationCfg)
        ensures
            cfg == self@.cfg,
    {
        self.cfg
    }

    /// The station's policy.
    pub fn policy(&self) -> (policy: Policy)
        ensures
            policy == self@.policy,
    {
        self.policy
    }

    /// The station's control state.
    pub fn phase(&self) -> (phase: Phase)
        ensures
            phase == self@.phase,
    {
        self.phase
    }

    /// The number of items in the ready queue.
    pub fn queue_len(&self) -> (n: usize)
        ensures
            n == self@.ready.len(),
    {
        self.ready.len()
    }

    /// Whether the inbound channel has not been seen closed yet.
    pub fn upstream_open(&self) -> (open: bool)
        ensures
            open == self@.upstream_open,
    {
        self.upstream_open
    }

    /// Whether `event` answers the action that is pending, and, where it
    /// brings an item, whether the item has a slot for this station.
    pub fn accepts(&self, event: &Event) -> (b: bool)
        ensures
            b == self@.accepts(event@),
    {
        match self.phase {
            Phase::Waiting => match event {
                Event::Arrival(p) => p.fits(self.cfg.id),
                Event::InboundClosed => true,
                _ => false,
            },
            Phase::Draining => match event {
                Event::Arrival(p) => p.fits(self.cfg.id),
                Event::NoneReady => true,
                _ => false,
            },
            Phase::Working => match event {
                Event::WorkDone => true,
                _ => false,
            },
            Phase::Forwarding => match event {
                Event::Sent => true,
                Event::DownstreamGone => true,
                _ => false,
            },
            Phase::Closed => false,
        }
    }

    /// Takes one event and answers with the next action, as
    /// [`StationModel::step`] defines it. `now` is the clock's reading; it
    /// stamps the entry time of an item that this step admits for the first
    /// time.
    pub fn step(&mut self, event: Event, now: u128) -> (action: Action)
        requires
            old(self)@.wf(),
            old(self)@.accepts(event@),
        ensures
            (final(self)@, action@) == old(self)@.step(event@, now),
            final(self)@.wf(),
    {
        proof {
            lemma_step_wf(self@, event@, now);
        }
        match event {
            Event::Arrival(p) => {
                self.enqueue(p);
                match self.phase {
                    Phase::Waiting => self.dispatch(now),
                    _ => Action::Poll,
                }
            },
            Event::InboundClosed => {
                self.upstream_open = false;
                self.phase = Phase::Closed;
                Action::Stop
            },
            Event::NoneReady => self.dispatch(now),
            Event::WorkDone => self.finish_slice(),
            Event::Sent => {
                self.phase = Phase::Draining;
                Action::Poll
            },
            Event::DownstreamGone => {
                self.phase = Phase::Closed;
                Action::Stop
            },
        }
    }

    /// Appends an item to the back of the ready queue.
    fn enqueue(&mut self, p: Product)
        ensures
            final(self)@ == (StationModel { ready: old(self)@.ready.push(p@), ..old(self)@ }),
    {
        self.ready.push_back(p);
        assert(views(self.ready@) =~= views(old(self).ready@).push(p@));
    }

    /// Turns to the ready queue, as [`StationModel::dispatch`] defines it.
    fn dispatch(&mut self, now: u128) -> (action: Action)
        requires
            old(self)@.current is None,
            forall|i: int|
                0 <= i < old(self)@.ready.len() ==> (#[trigger] old(self)@.ready[i]).fits(
                    old(self)@.index(),
                ),
        ensures
            (final(self)@, action@) == old(self)@.dispatch(now),
    {
        let index: usize = self.cfg.id;
        match self.ready.pop_front() {
            None => {
                self.phase = Phase::Waiting;
                assert(self@.ready =~= old(self)@.ready);
                Action::Receive
            },
            Some(p) => {
                let mut p = p;
                assert(views(self.ready@) =~= old(self)@.ready.drop_first());
                assert(p@ == old(self)@.ready[0]);
                let remaining: u64 = p.remaining_ms[index];
                if remaining == 0 {
                    self.phase = Phase::Forwarding;
                    Action::Forward(p)
                } else {
                    if p.enter_ms[index].is_none() {
                        p.enter_ms[index] = Some(now);
                    }
                    let id: u32 = p.id;
                    let slice_ms: u64 = slice_for(remaining, self.policy);
                    self.current = Some(p);
                    self.phase = Phase::Working;
                    Action::Work { id, remaining_ms: remaining, slice_ms }
                }
            },
        }
    }

    /// Books the slice just performed on the item in hand, as
    /// [`StationModel::finish_slice`] defines it.
    fn finish_slice(&mut self) -> (action: Action)
        requires
            old(self)@.current matches Some(p) && p.fits(old(self)@.index()),
        ensures
            (final(self)@, action@) == old(self)@.finish_slice(),
    {
        let index: usize = self.cfg.id;
        let mut p: Product = self.current.take().unwrap();
        let remaining: u64 = p.remaining_ms[index];
        let left: u64 = remaining - slice_for(remaining, self.policy);
        p.remaining_ms[index] = left;
        if left == 0 {
            self.phase = Phase::Forwarding;
            Action::Forward(p)
        } else {
            self.enqueue(p);
            self.phase = Phase::Draining;
            Action::Poll
        }
    }
}

} // verus!
