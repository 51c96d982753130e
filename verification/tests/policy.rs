use station_line::policy::{policy_name, slice_for, Policy};

#[test]
fn fcfs_slice_is_all_that_remains() {
    assert_eq!(slice_for(800, Policy::Fcfs), 800);
    assert_eq!(slice_for(1, Policy::Fcfs), 1);
    assert_eq!(slice_for(0, Policy::Fcfs), 0);
    assert_eq!(slice_for(u64::MAX, Policy::Fcfs), u64::MAX);
}

#[test]
fn round_robin_slice_is_capped_by_the_quantum() {
    let rr = Policy::RoundRobin { quantum_ms: 400 };
    assert_eq!(slice_for(1200, rr), 400);
    assert_eq!(slice_for(401, rr), 400);
    assert_eq!(slice_for(400, rr), 400);
    assert_eq!(slice_for(399, rr), 399);
    assert_eq!(slice_for(0, rr), 0);
}

#[test]
fn policy_names() {
    assert_eq!(policy_name(Policy::Fcfs), "FCFS");
    assert_eq!(policy_name(Policy::RoundRobin { quantum_ms: 400 }), "RoundRobin");
    assert_eq!(policy_name(Policy::RoundRobin { quantum_ms: 0 }), "RoundRobin");
}

#[test]
fn a_quantum_must_be_positive() {
    assert!(Policy::Fcfs.is_wf());
    assert!(Policy::RoundRobin { quantum_ms: 1 }.is_wf());
    assert!(!Policy::RoundRobin { quantum_ms: 0 }.is_wf());
}
