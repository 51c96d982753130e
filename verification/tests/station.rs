use station_line::policy::Policy;
use station_line::product::{Product, StationCfg};
use station_line::station::{Action, Event, Phase, Station};

fn cfg(id: usize, service_ms: u64) -> StationCfg {
    StationCfg { id, name: "station", service_ms }
}

fn item(id: u32, remaining: &[u64]) -> Product {
    Product {
        id,
        remaining_ms: remaining.to_vec(),
        arrival_ms: 0,
        enter_ms: vec![None; remaining.len()],
        exit_ms: vec![None; remaining.len()],
    }
}

fn forwarded(action: Action) -> Product {
    match action {
        Action::Forward(p) => p,
        other => panic!("expected a forward, got {:?}", other),
    }
}

#[test]
fn a_new_station_waits_for_work() {
    let s = Station::new(cfg(1, 1200), Policy::Fcfs);
    assert_eq!(s.phase(), Phase::Waiting);
    assert_eq!(s.queue_len(), 0);
    assert!(s.upstream_open());
    assert_eq!(s.policy(), Policy::Fcfs);
    assert_eq!(s.cfg().id, 1);
    assert_eq!(s.cfg().service_ms, 1200);
    assert_eq!(s.cfg().name, "station");
}

#[test]
fn fcfs_serves_an_item_in_one_slice() {
    let mut s = Station::new(cfg(0, 800), Policy::Fcfs);
    let a = s.step(Event::Arrival(item(1, &[800, 1200, 600])), 10);
    assert_eq!(a, Action::Work { id: 1, remaining_ms: 800, slice_ms: 800 });
    assert_eq!(s.phase(), Phase::Working);
    let p = forwarded(s.step(Event::WorkDone, 810));
    assert_eq!(p.id, 1);
    assert_eq!(p.remaining_ms, vec![0, 1200, 600]);
    assert_eq!(p.enter_ms, vec![Some(10), None, None]);
    assert_eq!(p.exit_ms, vec![None, None, None]);
    assert_eq!(s.phase(), Phase::Forwarding);
    assert_eq!(s.step(Event::Sent, 811), Action::Poll);
    assert_eq!(s.phase(), Phase::Draining);
    assert_eq!(s.step(Event::NoneReady, 812), Action::Receive);
    assert_eq!(s.phase(), Phase::Waiting);
}

#[test]
fn round_robin_serves_1200_in_three_slices_of_400() {
    let mut s = Station::new(cfg(1, 1200), Policy::RoundRobin { quantum_ms: 400 });
    let mut action = s.step(Event::Arrival(item(1, &[0, 1200, 600])), 800);
    let mut slices = Vec::new();
    let mut now: u128 = 800;
    let out = loop {
        match action {
            Action::Work { id, remaining_ms, slice_ms } => {
                assert_eq!(id, 1);
                slices.push((remaining_ms, slice_ms));
                now += slice_ms as u128;
                action = s.step(Event::WorkDone, now);
            }
            Action::Poll => action = s.step(Event::NoneReady, now),
            Action::Forward(p) => break p,
            other => panic!("unexpected {:?}", other),
        }
    };
    assert_eq!(slices, vec![(1200, 400), (800, 400), (400, 400)]);
    assert_eq!(now, 2000);
    assert_eq!(out.remaining_ms, vec![0, 0, 600]);
    assert_eq!(out.enter_ms, vec![None, Some(800), None]);
}

#[test]
fn round_robin_last_slice_is_what_is_left() {
    let mut s = Station::new(cfg(0, 1000), Policy::RoundRobin { quantum_ms: 400 });
    let a = s.step(Event::Arrival(item(1, &[1000])), 0);
    assert_eq!(a, Action::Work { id: 1, remaining_ms: 1000, slice_ms: 400 });
    assert_eq!(s.step(Event::WorkDone, 400), Action::Poll);
    let a = s.step(Event::NoneReady, 400);
    assert_eq!(a, Action::Work { id: 1, remaining_ms: 600, slice_ms: 400 });
    assert_eq!(s.step(Event::WorkDone, 800), Action::Poll);
    let a = s.step(Event::NoneReady, 800);
    assert_eq!(a, Action::Work { id: 1, remaining_ms: 200, slice_ms: 200 });
    let p = forwarded(s.step(Event::WorkDone, 1000));
    assert_eq!(p.remaining_ms, vec![0]);
}

#[test]
fn entry_time_is_stamped_once() {
    let mut s = Station::new(cfg(0, 800), Policy::RoundRobin { quantum_ms: 500 });
    s.step(Event::Arrival(item(1, &[800])), 3);
    assert_eq!(s.step(Event::WorkDone, 503), Action::Poll);
    let a = s.step(Event::NoneReady, 600);
    assert_eq!(a, Action::Work { id: 1, remaining_ms: 300, slice_ms: 300 });
    let p = forwarded(s.step(Event::WorkDone, 900));
    assert_eq!(p.enter_ms, vec![Some(3)]);
}

#[test]
fn an_item_that_owes_nothing_is_passed_on_without_work() {
    let mut s = Station::new(cfg(1, 1200), Policy::RoundRobin { quantum_ms: 400 });
    let p = forwarded(s.step(Event::Arrival(item(9, &[5, 0, 7])), 50));
    assert_eq!(p.id, 9);
    assert_eq!(p.remaining_ms, vec![5, 0, 7]);
    assert_eq!(p.enter_ms, vec![None, None, None]);
    assert_eq!(s.phase(), Phase::Forwarding);
    assert_eq!(s.step(Event::Sent, 51), Action::Poll);
    assert_eq!(s.phase(), Phase::Draining);
    assert_eq!(s.step(Event::NoneReady, 51), Action::Receive);
    assert_eq!(s.phase(), Phase::Waiting);
}

#[test]
fn a_requeued_item_goes_behind_those_already_waiting() {
    let mut s = Station::new(cfg(0, 1000), Policy::RoundRobin { quantum_ms: 400 });
    let a = s.step(Event::Arrival(item(1, &[1000])), 0);
    assert_eq!(a, Action::Work { id: 1, remaining_ms: 1000, slice_ms: 400 });
    assert_eq!(s.step(Event::WorkDone, 400), Action::Poll);
    assert_eq!(s.step(Event::Arrival(item(2, &[300])), 400), Action::Poll);
    assert_eq!(s.step(Event::Arrival(item(3, &[900])), 400), Action::Poll);
    assert_eq!(s.queue_len(), 3);
    // The queue is now 1, 2, 3: the requeue came before the drain.
    let a = s.step(Event::NoneReady, 400);
    assert_eq!(a, Action::Work { id: 1, remaining_ms: 600, slice_ms: 400 });
    assert_eq!(s.step(Event::WorkDone, 800), Action::Poll);
    // Now 2, 3, 1.
    let a = s.step(Event::NoneReady, 800);
    assert_eq!(a, Action::Work { id: 2, remaining_ms: 300, slice_ms: 300 });
    let p = forwarded(s.step(Event::WorkDone, 1100));
    assert_eq!(p.id, 2);
    assert_eq!(s.step(Event::Sent, 1100), Action::Poll);
    let a = s.step(Event::NoneReady, 1100);
    assert_eq!(a, Action::Work { id: 3, remaining_ms: 900, slice_ms: 400 });
    assert_eq!(s.step(Event::WorkDone, 1500), Action::Poll);
    // Now 1, 3.
    let a = s.step(Event::NoneReady, 1500);
    assert_eq!(a, Action::Work { id: 1, remaining_ms: 200, slice_ms: 200 });
    let p = forwarded(s.step(Event::WorkDone, 1700));
    assert_eq!(p.id, 1);
}

#[test]
fn fcfs_forwards_in_arrival_order() {
    let mut s = Station::new(cfg(0, 10), Policy::Fcfs);
    let mut action = s.step(Event::Arrival(item(1, &[10])), 0);
    let mut waiting = vec![item(4, &[10]), item(3, &[10]), item(2, &[10])];
    let mut out = Vec::new();
    let mut now: u128 = 0;
    loop {
        action = match action {
            Action::Work { slice_ms, .. } => {
                now += slice_ms as u128;
                s.step(Event::WorkDone, now)
            }
            Action::Forward(p) => {
                out.push(p.id);
                s.step(Event::Sent, now)
            }
            Action::Poll => match waiting.pop() {
                Some(p) => s.step(Event::Arrival(p), now),
                None => s.step(Event::NoneReady, now),
            },
            Action::Receive => s.step(Event::InboundClosed, now),
            Action::Stop => break,
        };
    }
    assert_eq!(out, vec![1, 2, 3, 4]);
    assert_eq!(now, 40);
    assert_eq!(s.phase(), Phase::Closed);
    assert!(!s.upstream_open());
}

#[test]
fn closure_on_an_empty_queue_closes_the_station() {
    let mut s = Station::new(cfg(0, 800), Policy::Fcfs);
    assert_eq!(s.step(Event::InboundClosed, 0), Action::Stop);
    assert_eq!(s.phase(), Phase::Closed);
    assert!(!s.upstream_open());
    assert!(!s.accepts(&Event::InboundClosed));
    assert!(!s.accepts(&Event::Arrival(item(1, &[800]))));
    assert!(!s.accepts(&Event::Sent));
}

#[test]
fn a_lost_downstream_stops_the_station_at_once() {
    let mut s = Station::new(cfg(0, 800), Policy::Fcfs);
    s.step(Event::Arrival(item(1, &[800])), 0);
    let p = forwarded(s.step(Event::WorkDone, 800));
    assert_eq!(p.id, 1);
    assert_eq!(s.step(Event::DownstreamGone, 800), Action::Stop);
    assert_eq!(s.phase(), Phase::Closed);
    assert!(s.upstream_open());
    assert!(!s.accepts(&Event::NoneReady));
}

#[test]
fn a_lost_downstream_stops_a_station_that_passes_an_item_on() {
    let mut s = Station::new(cfg(0, 0), Policy::Fcfs);
    let p = forwarded(s.step(Event::Arrival(item(1, &[0])), 0));
    assert_eq!(p.id, 1);
    assert_eq!(s.step(Event::DownstreamGone, 0), Action::Stop);
    assert_eq!(s.phase(), Phase::Closed);
}

#[test]
fn each_phase_accepts_only_the_answers_to_its_action() {
    let mut s = Station::new(cfg(0, 800), Policy::Fcfs);
    // Waiting: an arrival that fits, or closure.
    assert!(s.accepts(&Event::Arrival(item(1, &[800]))));
    assert!(s.accepts(&Event::InboundClosed));
    assert!(!s.accepts(&Event::Arrival(item(1, &[]))));
    assert!(!s.accepts(&Event::NoneReady));
    assert!(!s.accepts(&Event::WorkDone));
    assert!(!s.accepts(&Event::Sent));
    assert!(!s.accepts(&Event::DownstreamGone));
    s.step(Event::Arrival(item(1, &[800])), 0);
    // Working: the end of the slice.
    assert!(s.accepts(&Event::WorkDone));
    assert!(!s.accepts(&Event::Arrival(item(2, &[800]))));
    assert!(!s.accepts(&Event::InboundClosed));
    assert!(!s.accepts(&Event::Sent));
    s.step(Event::WorkDone, 800);
    // Forwarding: the outcome of the send.
    assert!(s.accepts(&Event::Sent));
    assert!(s.accepts(&Event::DownstreamGone));
    assert!(!s.accepts(&Event::WorkDone));
    assert!(!s.accepts(&Event::NoneReady));
    s.step(Event::Sent, 800);
    // Draining: an arrival that fits, or nothing.
    assert!(s.accepts(&Event::Arrival(item(2, &[800]))));
    assert!(s.accepts(&Event::NoneReady));
    assert!(!s.accepts(&Event::InboundClosed));
    assert!(!s.accepts(&Event::Arrival(item(2, &[]))));
}

#[test]
fn a_station_touches_only_its_own_slot() {
    let mut s = Station::new(cfg(1, 1200), Policy::Fcfs);
    let mut p = item(5, &[0, 1200, 600]);
    p.arrival_ms = 17;
    p.enter_ms[0] = Some(20);
    p.exit_ms[0] = Some(25);
    s.step(Event::Arrival(p), 900);
    let out = forwarded(s.step(Event::WorkDone, 2100));
    assert_eq!(out.id, 5);
    assert_eq!(out.arrival_ms, 17);
    assert_eq!(out.remaining_ms, vec![0, 0, 600]);
    assert_eq!(out.enter_ms, vec![Some(20), Some(900), None]);
    assert_eq!(out.exit_ms, vec![Some(25), None, None]);
}

#[test]
fn arrivals_during_a_pass_queue_behind_what_waits() {
    let mut s = Station::new(cfg(0, 0), Policy::Fcfs);
    let p = forwarded(s.step(Event::Arrival(item(1, &[0])), 0));
    assert_eq!(p.id, 1);
    assert_eq!(s.step(Event::Sent, 0), Action::Poll);
    assert_eq!(s.step(Event::Arrival(item(2, &[7])), 0), Action::Poll);
    assert_eq!(s.step(Event::Arrival(item(3, &[0])), 0), Action::Poll);
    assert_eq!(s.queue_len(), 2);
    let a = s.step(Event::NoneReady, 1);
    assert_eq!(a, Action::Work { id: 2, remaining_ms: 7, slice_ms: 7 });
    assert_eq!(s.queue_len(), 1);
    let p = forwarded(s.step(Event::WorkDone, 8));
    assert_eq!(p.id, 2);
    assert_eq!(s.step(Event::Sent, 8), Action::Poll);
    let p = forwarded(s.step(Event::NoneReady, 8));
    assert_eq!(p.id, 3);
    assert_eq!(p.enter_ms, vec![None]);
}
