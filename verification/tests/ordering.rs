use mgk_cont::job::Job;
use mgk_cont::policy::{Policy, SortKey};
use mgk_cont::sort::sort_queue;

fn job(arrival: u64, rem: u64, req: u64) -> Job {
    Job { arrival_time: arrival, original_size: rem, rem_size: rem, service_req: req }
}

fn value(k: SortKey) -> i128 {
    if k.negated { -(k.magnitude as i128) } else { k.magnitude as i128 }
}

#[test]
fn index_per_policy() {
    let j = job(7, 3, 5);
    assert_eq!(value(Policy::FCFS.index(&j)), 7);
    assert_eq!(value(Policy::PLCFSB.index(&j)), -7);
    assert_eq!(value(Policy::SRPT.index(&j)), 3);
    assert_eq!(value(Policy::LSF.index(&j)), 5);
    assert_eq!(value(Policy::MSFB.index(&j)), -5);
    assert_eq!(value(Policy::SRA.index(&j)), 15);
    assert_eq!(value(Policy::LRAB.index(&j)), -15);
    assert_eq!(value(Policy::DB(3).index(&j)), 7);
    assert_eq!(value(Policy::DBE.index(&j)), 7);
}

#[test]
fn index_product_does_not_overflow() {
    let j = job(0, u64::MAX, u64::MAX);
    let k = Policy::SRA.index(&j);
    assert_eq!(k.magnitude, (u64::MAX as u128) * (u64::MAX as u128));
}

#[test]
fn sort_key_comparison() {
    let a = SortKey { negated: true, magnitude: 0 };
    let b = SortKey { negated: false, magnitude: 0 };
    assert!(!a.greater_than(&b));
    assert!(!b.greater_than(&a));
    let c = SortKey { negated: true, magnitude: 4 };
    assert!(a.greater_than(&c));
    assert!(b.greater_than(&c));
    assert!(!c.greater_than(&b));
}

#[test]
fn sort_orders_by_key() {
    let mut q = vec![job(3, 30, 1), job(1, 10, 2), job(2, 20, 3)];
    sort_queue(&mut q, Policy::FCFS);
    assert_eq!(q.iter().map(|j| j.arrival_time).collect::<Vec<_>>(), vec![1, 2, 3]);
    sort_queue(&mut q, Policy::PLCFS);
    assert_eq!(q.iter().map(|j| j.arrival_time).collect::<Vec<_>>(), vec![3, 2, 1]);
}

#[test]
fn sort_is_stable() {
    let mut q = vec![job(1, 5, 9), job(2, 3, 9), job(3, 5, 9), job(4, 3, 9)];
    sort_queue(&mut q, Policy::SRPT);
    assert_eq!(q.iter().map(|j| j.arrival_time).collect::<Vec<_>>(), vec![2, 4, 1, 3]);
    let mut q = vec![job(1, 5, 2), job(2, 3, 2), job(3, 5, 2)];
    sort_queue(&mut q, Policy::MSF);
    assert_eq!(q.iter().map(|j| j.arrival_time).collect::<Vec<_>>(), vec![1, 2, 3]);
}

#[test]
fn sort_keeps_every_job() {
    let mut q: Vec<Job> = (0..20u64).map(|i| job(i, (i * 7) % 5, (i * 3) % 4)).collect();
    let before = q.clone();
    sort_queue(&mut q, Policy::SRA);
    assert_eq!(q.len(), before.len());
    for w in q.windows(2) {
        assert!(w[0].rem_size * w[0].service_req <= w[1].rem_size * w[1].service_req);
    }
    let mut a: Vec<u64> = q.iter().map(|j| j.arrival_time).collect();
    a.sort();
    assert_eq!(a, (0..20u64).collect::<Vec<_>>());
}

#[test]
fn sort_empty_queue() {
    let mut q: Vec<Job> = Vec::new();
    sort_queue(&mut q, Policy::FCFS);
    assert!(q.is_empty());
}
