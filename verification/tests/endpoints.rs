use station_line::clock::{now_ms, MAX_READING_MS};
use station_line::collector::{average, Average, Collector};
use station_line::generator::{Emission, Generator};
use station_line::product::{total_service, Product, StationCfg};
use std::sync::Arc;
use std::time::Instant;

fn three_stations() -> Vec<StationCfg> {
    vec![
        StationCfg { id: 0, name: "Corte", service_ms: 800 },
        StationCfg { id: 1, name: "Ensamblaje", service_ms: 1200 },
        StationCfg { id: 2, name: "Empaque", service_ms: 600 },
    ]
}

#[test]
fn a_new_product_owes_every_station_its_service() {
    let p = Product::new(7, &three_stations(), 42);
    assert_eq!(p.id, 7);
    assert_eq!(p.arrival_ms, 42);
    assert_eq!(p.remaining_ms, vec![800, 1200, 600]);
    assert_eq!(p.enter_ms, vec![None, None, None]);
    assert_eq!(p.exit_ms, vec![None, None, None]);
}

#[test]
fn a_product_for_no_station_is_empty() {
    let p = Product::new(1, &Vec::new(), 0);
    assert!(p.remaining_ms.is_empty());
    assert!(p.enter_ms.is_empty());
    assert!(p.exit_ms.is_empty());
    assert!(!p.fits(0));
}

#[test]
fn a_product_fits_the_stations_it_has_slots_for() {
    let p = Product::new(1, &three_stations(), 0);
    assert!(p.fits(0));
    assert!(p.fits(2));
    assert!(!p.fits(3));
    let crooked = Product {
        id: 1,
        remaining_ms: vec![1, 2],
        arrival_ms: 0,
        enter_ms: vec![None],
        exit_ms: vec![None, None],
    };
    assert!(!crooked.fits(0));
}

#[test]
fn total_service_is_the_sum_over_the_line() {
    assert_eq!(total_service(&three_stations()), 2600);
    assert_eq!(total_service(&Vec::new()), 0);
    let huge = vec![
        StationCfg { id: 0, name: "a", service_ms: u64::MAX },
        StationCfg { id: 1, name: "b", service_ms: u64::MAX },
    ];
    assert_eq!(total_service(&huge), 2 * (u64::MAX as u128));
}

#[test]
fn generator_numbers_items_from_one_and_paces_them() {
    let mut g = Generator::new(three_stations(), 3, 150);
    let mut ids = Vec::new();
    let mut pauses = 0;
    let mut steps = 0;
    let mut now: u128 = 0;
    loop {
        steps += 1;
        match g.step(now) {
            Emission::Send(p) => {
                assert_eq!(p.arrival_ms, now);
                assert_eq!(p.remaining_ms, vec![800, 1200, 600]);
                assert_eq!(p.enter_ms, vec![None, None, None]);
                assert_eq!(p.exit_ms, vec![None, None, None]);
                ids.push(p.id);
            }
            Emission::Pause(ms) => {
                assert_eq!(ms, 150);
                pauses += 1;
                now += ms as u128;
            }
            Emission::Close => break,
        }
    }
    assert_eq!(ids, vec![1, 2, 3]);
    assert_eq!(pauses, 3);
    // A send and a pause for each item, and the step that closes.
    assert_eq!(steps, 2 * 3 + 1);
    assert_eq!(g.emitted(), 3);
    assert_eq!(g.step(now), Emission::Close);
}

#[test]
fn generator_without_pace_never_pauses() {
    let mut g = Generator::new(three_stations(), 2, 0);
    assert!(matches!(g.step(5), Emission::Send(ref p) if p.id == 1 && p.arrival_ms == 5));
    assert!(matches!(g.step(6), Emission::Send(ref p) if p.id == 2 && p.arrival_ms == 6));
    assert_eq!(g.step(7), Emission::Close);
}

#[test]
fn generator_of_nothing_closes_at_once() {
    let mut g = Generator::new(three_stations(), 0, 150);
    assert_eq!(g.step(0), Emission::Close);
    assert_eq!(g.emitted(), 0);
}

#[test]
fn collector_measures_turnaround_and_wait() {
    let stations = three_stations();
    let mut c = Collector::new(total_service(&stations), 2);
    let a = Product::new(1, &stations, 0);
    let b = Product::new(2, &stations, 150);
    assert!(c.admits(&a, 2600));
    let done = c.record(&a, 2600);
    assert_eq!(done.id, 1);
    assert_eq!(done.finish_ms, 2600);
    assert_eq!(done.turnaround_ms, 2600);
    assert_eq!(done.wait_ms, 0);
    assert!(c.admits(&b, 3900));
    let done = c.record(&b, 3900);
    assert_eq!(done.id, 2);
    assert_eq!(done.turnaround_ms, 3750);
    assert_eq!(done.wait_ms, 1150);
    assert_eq!(c.received(), 2);
    let summary = c.finish();
    assert_eq!(summary.order, vec![1, 2]);
    assert_eq!(summary.expected, 2);
    assert_eq!(summary.sum_turnaround_ms, 6350);
    assert_eq!(summary.sum_wait_ms, 1150);
    assert_eq!(summary.average_turnaround, Some(Average { whole_ms: 3175, rest: 0, over: 2 }));
    assert_eq!(summary.average_wait, Some(Average { whole_ms: 575, rest: 0, over: 2 }));
    let average_turnaround = summary.sum_turnaround_ms as f64 / summary.expected as f64;
    let average_wait = summary.sum_wait_ms as f64 / summary.expected as f64;
    assert_eq!(average_turnaround, 3175.0);
    assert_eq!(average_wait, 575.0);
}

#[test]
fn an_average_is_a_quotient_and_a_rest() {
    assert_eq!(average(6350, 2), Some(Average { whole_ms: 3175, rest: 0, over: 2 }));
    assert_eq!(average(7, 2), Some(Average { whole_ms: 3, rest: 1, over: 2 }));
    assert_eq!(average(5, 6), Some(Average { whole_ms: 0, rest: 5, over: 6 }));
    assert_eq!(average(0, 3), Some(Average { whole_ms: 0, rest: 0, over: 3 }));
    assert_eq!(
        average(u128::MAX, u32::MAX),
        Some(Average {
            whole_ms: u128::MAX / (u32::MAX as u128),
            rest: u128::MAX % (u32::MAX as u128),
            over: u32::MAX
        })
    );
    assert_eq!(average(5, 0), None);
    assert_eq!(average(0, 0), None);
}

#[test]
fn an_average_over_more_items_than_came_is_still_over_all() {
    let stations = three_stations();
    let mut c = Collector::new(total_service(&stations), 4);
    let p = Product::new(1, &stations, 0);
    c.record(&p, 2601);
    let summary = c.finish();
    assert_eq!(summary.average_turnaround, Some(Average { whole_ms: 650, rest: 1, over: 4 }));
    assert_eq!(summary.average_wait, Some(Average { whole_ms: 0, rest: 1, over: 4 }));
}

#[test]
fn collector_refuses_an_item_younger_than_its_service() {
    let stations = three_stations();
    let c = Collector::new(total_service(&stations), 1);
    let p = Product::new(1, &stations, 100);
    assert!(!c.admits(&p, 2699));
    assert!(c.admits(&p, 2700));
    let late = Product::new(2, &stations, u128::MAX);
    assert!(!c.admits(&late, u128::MAX));
}

#[test]
fn collector_refuses_what_would_overflow_the_sum() {
    let mut c = Collector::new(0, 2);
    let p = Product::new(1, &Vec::new(), 0);
    assert!(c.admits(&p, u128::MAX));
    c.record(&p, u128::MAX);
    assert!(!c.admits(&p, 1));
    assert!(c.admits(&p, 0));
}

#[test]
fn an_empty_collection_reports_nothing() {
    let summary = Collector::new(2600, 6).finish();
    assert!(summary.order.is_empty());
    assert_eq!(summary.expected, 6);
    assert_eq!(summary.sum_turnaround_ms, 0);
    assert_eq!(summary.sum_wait_ms, 0);
    assert_eq!(summary.average_turnaround, Some(Average { whole_ms: 0, rest: 0, over: 6 }));
    assert_eq!(Collector::new(2600, 0).finish().average_wait, None);
}

#[test]
fn the_clock_does_not_run_backwards() {
    let start = Arc::new(Instant::now());
    let first = now_ms(&start);
    let second = now_ms(&start);
    assert!(first <= second);
    assert!(second < 60_000);
    assert!(second <= MAX_READING_MS);
    assert_eq!(MAX_READING_MS, (u64::MAX as u128) * 1000 + 999);
}
