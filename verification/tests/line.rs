use station_line::collector::{Collector, Completion};
use station_line::generator::{Emission, Generator};
use station_line::policy::Policy;
use station_line::product::{total_service, Product, StationCfg};
use station_line::station::{Action, Event, Station};
use std::collections::VecDeque;

fn stations() -> Vec<StationCfg> {
    vec![
        StationCfg { id: 0, name: "Corte", service_ms: 800 },
        StationCfg { id: 1, name: "Ensamblaje", service_ms: 1200 },
        StationCfg { id: 2, name: "Empaque", service_ms: 600 },
    ]
}

fn policies() -> Vec<Policy> {
    vec![Policy::Fcfs, Policy::RoundRobin { quantum_ms: 400 }, Policy::Fcfs]
}

/// What went through one station, on a clock that only the work advances.
struct Passage {
    arrived: Vec<u32>,
    left: Vec<u32>,
    slices: Vec<(u32, u64)>,
    out: Vec<(u128, Product)>,
    closed_at: u128,
    events: usize,
}

/// Drives one station over a stream of items, each with the time at which it
/// becomes available, and the time at which the stream closes.
fn pass(cfg: StationCfg, policy: Policy, input: Vec<(u128, Product)>, closed_at: u128) -> Passage {
    let mut inbound: VecDeque<(u128, Product)> = input.into();
    let mut station = Station::new(cfg, policy);
    let mut passage =
        Passage {
            arrived: Vec::new(),
            left: Vec::new(),
            slices: Vec::new(),
            out: Vec::new(),
            closed_at: 0,
            events: 0,
        };
    let mut now: u128 = 0;
    let mut action = Action::Receive;
    loop {
        let event = match action {
            Action::Receive => match inbound.pop_front() {
                Some((at, p)) => {
                    now = now.max(at);
                    passage.arrived.push(p.id);
                    Event::Arrival(p)
                }
                None => {
                    now = now.max(closed_at);
                    Event::InboundClosed
                }
            },
            Action::Poll => {
                let ready = matches!(inbound.front(), Some((at, _)) if *at <= now);
                if ready {
                    let (_, p) = inbound.pop_front().unwrap();
                    passage.arrived.push(p.id);
                    Event::Arrival(p)
                } else {
                    Event::NoneReady
                }
            }
            Action::Work { id, slice_ms, .. } => {
                passage.slices.push((id, slice_ms));
                now += slice_ms as u128;
                Event::WorkDone
            }
            Action::Forward(p) => {
                passage.left.push(p.id);
                passage.out.push((now, p));
                Event::Sent
            }
            Action::Stop => break,
        };
        assert!(station.accepts(&event));
        passage.events += 1;
        action = station.step(event, now);
    }
    passage.closed_at = now;
    passage
}

/// Generates `count` items at the given pace and takes them through the
/// three stations and into the collector.
fn run_line(count: u32, interarrival_ms: u64) -> (Vec<Passage>, Vec<Completion>, Collector) {
    let cfgs = stations();
    let mut generator = Generator::new(cfgs.clone(), count, interarrival_ms);
    let mut stream = Vec::new();
    let mut now: u128 = 0;
    loop {
        match generator.step(now) {
            Emission::Send(p) => stream.push((now, p)),
            Emission::Pause(ms) => now += ms as u128,
            Emission::Close => break,
        }
    }
    let mut closed_at = now;
    let mut passages = Vec::new();
    for (cfg, policy) in cfgs.iter().zip(policies()) {
        let passage = pass(*cfg, policy, stream, closed_at);
        stream = passage.out.clone();
        closed_at = passage.closed_at;
        passages.push(passage);
    }
    let mut collector = Collector::new(total_service(&cfgs), count);
    let mut completions = Vec::new();
    for (finish, p) in &stream {
        assert!(collector.admits(p, *finish));
        completions.push(collector.record(p, *finish));
    }
    (passages, completions, collector)
}

#[test]
fn single_item_without_contention() {
    let (passages, completions, collector) = run_line(1, 0);
    assert_eq!(passages[0].slices, vec![(1, 800)]);
    assert_eq!(passages[1].slices, vec![(1, 400), (1, 400), (1, 400)]);
    assert_eq!(passages[2].slices, vec![(1, 600)]);
    assert_eq!(completions.len(), 1);
    assert_eq!(completions[0].id, 1);
    assert_eq!(completions[0].finish_ms, 2600);
    assert_eq!(completions[0].turnaround_ms, 2600);
    assert_eq!(completions[0].wait_ms, 0);
    let summary = collector.finish();
    assert_eq!(summary.order, vec![1]);
    assert_eq!(summary.sum_turnaround_ms as f64 / summary.expected as f64, 2600.0);
    assert_eq!(summary.sum_wait_ms as f64 / summary.expected as f64, 0.0);
}

#[test]
fn six_items_with_paced_arrivals() {
    let (passages, completions, collector) = run_line(6, 150);
    // The two run-to-completion stations hand on in the order of arrival.
    assert_eq!(passages[0].arrived, vec![1, 2, 3, 4, 5, 6]);
    assert_eq!(passages[0].left, passages[0].arrived);
    assert_eq!(passages[2].left, passages[2].arrived);
    // The time-sliced station may interleave, but every item gets 1200 in
    // slices of 400.
    for id in 1..=6u32 {
        let slices: Vec<u64> =
            passages[1].slices.iter().filter(|(i, _)| *i == id).map(|(_, s)| *s).collect();
        assert_eq!(slices, vec![400, 400, 400]);
    }
    // Nothing is lost and nothing is duplicated.
    for passage in &passages {
        let mut left = passage.left.clone();
        left.sort();
        assert_eq!(left, vec![1, 2, 3, 4, 5, 6]);
    }
    let summary = collector.finish();
    assert_eq!(summary.order, passages[2].left);
    assert_eq!(summary.order.len(), 6);
    // No item is faster than its service.
    for done in &completions {
        assert!(done.turnaround_ms >= 2600);
        assert_eq!(done.wait_ms, done.turnaround_ms - 2600);
    }
    assert_eq!(completions[0].finish_ms, 2600);
}

#[test]
fn six_items_interleave_at_the_time_sliced_station() {
    let (passages, _, _) = run_line(6, 150);
    // Items reach the second station every 800 ms from 800 on; each needs
    // three slices of 400 ms, so from the second item on two items share
    // the station and the later one is overtaken by none that came before.
    assert_eq!(passages[1].arrived, vec![1, 2, 3, 4, 5, 6]);
    assert_eq!(passages[1].out[0].0, 2000);
    assert_eq!(passages[1].left[0], 1);
    assert_eq!(
        passages[1].slices[..6],
        [(1, 400), (1, 400), (1, 400), (2, 400), (2, 400), (3, 400)]
    );
    assert_eq!(passages[1].closed_at, 800 + 6 * 1200);
}

#[test]
fn all_fcfs_line_keeps_arrival_order() {
    let cfgs = stations();
    let mut stream: Vec<(u128, Product)> =
        (1..=5u32).map(|id| (0u128, Product::new(id, &cfgs, 0))).collect();
    let mut closed_at = 0;
    for cfg in &cfgs {
        let passage = pass(*cfg, Policy::Fcfs, stream, closed_at);
        assert_eq!(passage.left, vec![1, 2, 3, 4, 5]);
        stream = passage.out;
        closed_at = passage.closed_at;
    }
    let finishes: Vec<u128> = stream.iter().map(|(at, _)| *at).collect();
    assert_eq!(finishes, vec![2600, 3800, 5000, 6200, 7400]);
}

#[test]
fn an_empty_line_closes_every_stage() {
    let (passages, completions, collector) = run_line(0, 150);
    for passage in &passages {
        assert!(passage.arrived.is_empty());
        assert!(passage.left.is_empty());
        assert!(passage.slices.is_empty());
    }
    assert!(completions.is_empty());
    assert_eq!(collector.received(), 0);
}

#[test]
fn every_station_takes_a_known_number_of_events() {
    let (passages, _, _) = run_line(6, 150);
    // One closure and, for each item, its arrival, its hand-over and two
    // events for each turn.
    assert_eq!(passages[0].events, 1 + 6 * (1 + 2 * 1 + 1));
    assert_eq!(passages[1].events, 1 + 6 * (1 + 2 * 3 + 1));
    assert_eq!(passages[2].events, 1 + 6 * (1 + 2 * 1 + 1));
}

#[test]
fn a_station_without_service_passes_every_item_on() {
    let cfg = StationCfg { id: 0, name: "idle", service_ms: 0 };
    let cfgs = vec![cfg];
    let stream: Vec<(u128, Product)> =
        (1..=4u32).map(|id| (id as u128, Product::new(id, &cfgs, id as u128))).collect();
    let passage = pass(cfg, Policy::RoundRobin { quantum_ms: 3 }, stream, 9);
    assert_eq!(passage.left, vec![1, 2, 3, 4]);
    assert!(passage.slices.is_empty());
    assert_eq!(passage.closed_at, 9);
    // One closure and, for each item, its arrival, its hand-over and the
    // end of the drain that follows.
    assert_eq!(passage.events, 1 + 4 * 3);
    for (at, p) in &passage.out {
        assert_eq!(*at, p.arrival_ms);
        assert_eq!(p.enter_ms, vec![None]);
    }
}
