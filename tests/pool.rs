use web_server::{Claim, PoolError, PoolState, WorkerState};

fn job_of<T>(c: Claim<T>) -> T {
    match c {
        Claim::Job(j) => j,
        Claim::Wait => panic!("expected a job, got Wait"),
        Claim::Stop => panic!("expected a job, got Stop"),
    }
}

#[test]
fn zero_size_pool_is_refused() {
    let r = PoolState::<u32>::new(0);
    assert!(matches!(r, Err(PoolError::ZeroSize)));
}

#[test]
fn new_pool_has_size_idle_workers() {
    for size in [1usize, 2, 4, 9] {
        let p = PoolState::<u32>::new(size).unwrap();
        assert_eq!(p.size(), size);
        for w in 0..size {
            assert_eq!(p.worker_state(w), WorkerState::Idle);
        }
        assert_eq!(p.pending_len(), 0);
        assert!(!p.is_closed());
    }
}

#[test]
fn idle_worker_waits_on_empty_queue() {
    let mut p = PoolState::<u32>::new(2).unwrap();
    assert!(matches!(p.claim(0), Claim::Wait));
    assert_eq!(p.worker_state(0), WorkerState::Idle);
}

#[test]
fn single_worker_runs_units_in_submission_order() {
    let mut p = PoolState::<&'static str>::new(1).unwrap();
    let mut record: Vec<&'static str> = Vec::new();
    p.submit("A").unwrap();
    p.submit("B").unwrap();
    let first = job_of(p.claim(0));
    assert_eq!(first, "A");
    // While A runs, the only worker is busy and B stays queued.
    assert_eq!(p.worker_state(0), WorkerState::Busy);
    assert_eq!(p.pending_len(), 1);
    record.push(first);
    p.finish(0);
    let second = job_of(p.claim(0));
    record.push(second);
    p.finish(0);
    assert_eq!(record, vec!["A", "B"]);
    assert!(matches!(p.claim(0), Claim::Wait));
}

#[test]
fn hundred_units_on_four_workers_each_run_once() {
    let mut p = PoolState::<usize>::new(4).unwrap();
    for id in 0..100usize {
        p.submit(id).unwrap();
    }
    let mut counter = vec![0u32; 100];
    let mut order: Vec<usize> = Vec::new();
    while p.pending_len() > 0 {
        let mut claimed: Vec<usize> = Vec::new();
        for w in 0..4usize {
            if let Claim::Job(id) = p.claim(w) {
                counter[id] += 1;
                order.push(id);
                claimed.push(w);
            }
        }
        for w in claimed {
            p.finish(w);
        }
    }
    assert_eq!(counter.iter().sum::<u32>(), 100);
    assert!(counter.iter().all(|&c| c == 1));
    assert_eq!(order, (0..100usize).collect::<Vec<_>>());
}

#[test]
fn two_idle_workers_take_two_units_at_once() {
    let mut p = PoolState::<u32>::new(2).unwrap();
    p.submit(10).unwrap();
    p.submit(20).unwrap();
    assert_eq!(job_of(p.claim(0)), 10);
    assert_eq!(job_of(p.claim(1)), 20);
    assert_eq!(p.worker_state(0), WorkerState::Busy);
    assert_eq!(p.worker_state(1), WorkerState::Busy);
}

#[test]
fn stuck_worker_leaves_the_rest_serving() {
    let mut p = PoolState::<u32>::new(3).unwrap();
    p.submit(0).unwrap();
    // Worker 0 claims the first unit and never returns from it.
    assert_eq!(job_of(p.claim(0)), 0);
    for id in 1..=10u32 {
        p.submit(id).unwrap();
    }
    let mut ran: Vec<u32> = Vec::new();
    while p.pending_len() > 0 {
        for w in 1..3usize {
            if let Claim::Job(id) = p.claim(w) {
                ran.push(id);
                p.finish(w);
            }
        }
    }
    assert_eq!(ran, (1..=10u32).collect::<Vec<_>>());
    assert_eq!(p.worker_state(0), WorkerState::Busy);
    assert_eq!(p.worker_state(1), WorkerState::Idle);
    assert_eq!(p.worker_state(2), WorkerState::Idle);
}

#[test]
fn closed_pool_refuses_new_work_and_drains() {
    let mut p = PoolState::<u32>::new(2).unwrap();
    p.submit(1).unwrap();
    p.close();
    assert!(p.is_closed());
    assert_eq!(p.submit(2), Err(2));
    assert_eq!(p.pending_len(), 1);
    assert_eq!(job_of(p.claim(0)), 1);
    assert!(matches!(p.claim(1), Claim::Stop));
    assert_eq!(p.worker_state(1), WorkerState::Stopped);
    p.finish(0);
    assert!(matches!(p.claim(0), Claim::Stop));
    assert_eq!(p.worker_state(0), WorkerState::Stopped);
}
