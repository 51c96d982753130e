use station_line::clock::now_ms;
use station_line::collector::{Collector, Completion};
use station_line::generator::{Emission, Generator};
use station_line::policy::Policy;
use station_line::product::{total_service, Product, StationCfg};
use station_line::station::{Action, Event, Station};
use std::sync::{mpsc, Arc, Mutex};
use std::time::{Duration, Instant};

/// Blocks for `ms` milliseconds on a timer channel.
fn wait_ms(ms: u64) {
    let _ = crossbeam::channel::after(Duration::from_millis(ms)).recv();
}

/// What one station thread saw: arrivals, hand-overs and slices, in order.
#[derive(Default)]
struct Seen {
    arrived: Vec<u32>,
    left: Vec<u32>,
    slices: Vec<(u32, u64)>,
}

fn drive_station(
    cfg: StationCfg,
    policy: Policy,
    rx: mpsc::Receiver<Product>,
    tx: mpsc::Sender<Product>,
    start: Arc<Instant>,
    seen: Arc<Mutex<Seen>>,
) {
    let mut station = Station::new(cfg, policy);
    let mut action = Action::Receive;
    loop {
        let event = match action {
            Action::Receive => match rx.recv() {
                Ok(p) => {
                    seen.lock().unwrap().arrived.push(p.id);
                    Event::Arrival(p)
                }
                Err(_) => Event::InboundClosed,
            },
            Action::Poll => match rx.try_recv() {
                Ok(p) => {
                    seen.lock().unwrap().arrived.push(p.id);
                    Event::Arrival(p)
                }
                Err(_) => Event::NoneReady,
            },
            Action::Work { id, slice_ms, .. } => {
                seen.lock().unwrap().slices.push((id, slice_ms));
                wait_ms(slice_ms);
                Event::WorkDone
            }
            Action::Forward(p) => {
                seen.lock().unwrap().left.push(p.id);
                if tx.send(p).is_err() {
                    Event::DownstreamGone
                } else {
                    Event::Sent
                }
            }
            Action::Stop => break,
        };
        assert!(station.accepts(&event));
        action = station.step(event, now_ms(&start));
    }
}

#[test]
fn threads_and_channels_carry_every_item_through() {
    let cfgs = vec![
        StationCfg { id: 0, name: "Corte", service_ms: 8 },
        StationCfg { id: 1, name: "Ensamblaje", service_ms: 12 },
        StationCfg { id: 2, name: "Empaque", service_ms: 6 },
    ];
    let policies = [Policy::Fcfs, Policy::RoundRobin { quantum_ms: 4 }, Policy::Fcfs];
    let count: u32 = 6;
    let start = Arc::new(Instant::now());
    let seen: Vec<Arc<Mutex<Seen>>> = (0..3).map(|_| Arc::new(Mutex::new(Seen::default()))).collect();
    let completions: Arc<Mutex<Vec<Completion>>> = Arc::new(Mutex::new(Vec::new()));
    let order: Arc<Mutex<Vec<u32>>> = Arc::new(Mutex::new(Vec::new()));

    let (tx0, rx0) = mpsc::channel::<Product>();
    let (tx1, rx1) = mpsc::channel::<Product>();
    let (tx2, rx2) = mpsc::channel::<Product>();
    let (tx3, rx3) = mpsc::channel::<Product>();

    crossbeam::thread::scope(|s| {
        let inbound = vec![rx0, rx1, rx2];
        let outbound = vec![tx1, tx2, tx3];
        for (i, (rx, tx)) in inbound.into_iter().zip(outbound).enumerate() {
            let cfg = cfgs[i];
            let policy = policies[i];
            let t0 = Arc::clone(&start);
            let log = Arc::clone(&seen[i]);
            s.spawn(move |_| drive_station(cfg, policy, rx, tx, t0, log));
        }
        {
            let mut generator = Generator::new(cfgs.clone(), count, 2);
            let t0 = Arc::clone(&start);
            s.spawn(move |_| {
                loop {
                    match generator.step(now_ms(&t0)) {
                        Emission::Send(p) => tx0.send(p).expect("the entry channel is open"),
                        Emission::Pause(ms) => wait_ms(ms),
                        Emission::Close => break,
                    }
                }
                drop(tx0);
            });
        }
        {
            let mut collector = Collector::new(total_service(&cfgs), count);
            let t0 = Arc::clone(&start);
            let completions = Arc::clone(&completions);
            let order = Arc::clone(&order);
            s.spawn(move |_| {
                while let Ok(p) = rx3.recv() {
                    let finish = now_ms(&t0);
                    assert!(collector.admits(&p, finish));
                    assert_eq!(p.remaining_ms, vec![0, 0, 0]);
                    assert!(p.enter_ms.iter().all(|t| t.is_some()));
                    assert_eq!(p.exit_ms, vec![None, None, None]);
                    completions.lock().unwrap().push(collector.record(&p, finish));
                }
                let summary = collector.finish();
                assert_eq!(summary.expected, count);
                *order.lock().unwrap() = summary.order;
            });
        }
    })
    .expect("every stage ends");

    let order = order.lock().unwrap().clone();
    let mut sorted = order.clone();
    sorted.sort();
    assert_eq!(sorted, vec![1, 2, 3, 4, 5, 6]);
    for (i, log) in seen.iter().enumerate() {
        let log = log.lock().unwrap();
        let mut left = log.left.clone();
        left.sort();
        assert_eq!(left, vec![1, 2, 3, 4, 5, 6]);
        if i != 1 {
            assert_eq!(log.left, log.arrived);
        }
    }
    assert_eq!(seen[0].lock().unwrap().arrived, vec![1, 2, 3, 4, 5, 6]);
    assert_eq!(order, seen[2].lock().unwrap().left);
    for id in 1..=6u32 {
        let slices: Vec<u64> = seen[1]
            .lock()
            .unwrap()
            .slices
            .iter()
            .filter(|(i, _)| *i == id)
            .map(|(_, s)| *s)
            .collect();
        assert_eq!(slices, vec![4, 4, 4]);
    }
    let completions = completions.lock().unwrap();
    assert_eq!(completions.len(), 6);
    for done in completions.iter() {
        assert!(done.turnaround_ms >= 26);
        assert_eq!(done.wait_ms, done.turnaround_ms - 26);
    }
}
