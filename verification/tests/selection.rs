use mgk_cont::buckets::eval_buckets;
use mgk_cont::job::Job;
use mgk_cont::rate::{lambda_to_k, Rate};
use mgk_cont::schedule::queue_indices;
use mgk_cont::selection::{backfill, qscan, take_to_vec};
use mgk_cont::policy::Policy;
use mgk_cont::{isqrt, EPSILON, UNIT};

fn jobs_with_reqs(reqs: &[u64]) -> Vec<Job> {
    reqs.iter().enumerate().map(|(i, r)| Job::new(i as u64, UNIT, *r)).collect()
}

fn tenths(t: u64) -> u64 {
    t * UNIT / 10
}

#[test]
fn qscan_stops_before_the_job_that_overflows() {
    let q = jobs_with_reqs(&[tenths(3), tenths(3), tenths(3), tenths(3)]);
    assert_eq!(qscan(&q, 1), 3);
}

#[test]
fn qscan_takes_everything_that_fits() {
    let q = jobs_with_reqs(&[tenths(2), tenths(2)]);
    assert_eq!(qscan(&q, 1), 2);
    assert_eq!(qscan(&Vec::new(), 1), 0);
}

#[test]
fn qscan_takes_nothing_when_the_first_job_is_too_big() {
    let q = jobs_with_reqs(&[tenths(15), tenths(1)]);
    assert_eq!(qscan(&q, 1), 0);
}

#[test]
fn qscan_needs_epsilon_to_spare() {
    let q = jobs_with_reqs(&[tenths(5), tenths(5) - EPSILON]);
    assert_eq!(qscan(&q, 1), 1);
    let q = jobs_with_reqs(&[tenths(5), tenths(5) - EPSILON - 1]);
    assert_eq!(qscan(&q, 1), 2);
}

#[test]
fn qscan_scales_with_servers() {
    let q = jobs_with_reqs(&[tenths(9), tenths(9), tenths(9)]);
    assert_eq!(qscan(&q, 2), 2);
}

#[test]
fn take_to_vec_lists_positions() {
    assert_eq!(take_to_vec(3), vec![0, 1, 2]);
    assert_eq!(take_to_vec(0), Vec::<usize>::new());
}

#[test]
fn backfill_skips_jobs_that_do_not_fit() {
    let q = jobs_with_reqs(&[tenths(5), tenths(6), tenths(3), tenths(2)]);
    assert_eq!(backfill(&q, 1), vec![0, 2]);
}

#[test]
fn backfill_with_no_servers_takes_nothing() {
    let q = jobs_with_reqs(&[0, tenths(1)]);
    assert_eq!(backfill(&q, 0), Vec::<usize>::new());
}

#[test]
fn eval_buckets_picks_the_best_pair() {
    let q = jobs_with_reqs(&[tenths(1), tenths(2), tenths(5), tenths(9)]);
    assert_eq!(eval_buckets(&q, 3, UNIT as u128, 0), vec![0, 2]);
}

#[test]
fn eval_buckets_can_pick_the_last_bucket_alone() {
    let q = jobs_with_reqs(&[tenths(9), tenths(9), tenths(9)]);
    assert_eq!(eval_buckets(&q, 3, UNIT as u128, 0), vec![0]);
}

#[test]
fn eval_buckets_lists_the_target_first() {
    let q = jobs_with_reqs(&[tenths(5), tenths(1)]);
    assert_eq!(eval_buckets(&q, 3, UNIT as u128, 0), vec![1, 0]);
}

#[test]
fn eval_buckets_on_empty_queue() {
    assert_eq!(eval_buckets(&Vec::new(), 3, UNIT as u128, 0), Vec::<usize>::new());
    assert_eq!(eval_buckets(&Vec::new(), 1, UNIT as u128, 0), Vec::<usize>::new());
}

#[test]
fn eval_buckets_single_bucket() {
    let q = jobs_with_reqs(&[tenths(4), tenths(7)]);
    assert_eq!(eval_buckets(&q, 1, UNIT as u128, 0), vec![0]);
}

#[test]
fn lambda_to_k_values() {
    let k = |num: u64, den: u64| lambda_to_k(Rate { num, den });
    assert_eq!(k(10, 10), 3);
    assert_eq!(k(5, 10), 3);
    assert_eq!(k(1, 10), 3);
    assert_eq!(k(6, 10), 3);
    assert_eq!(k(12, 10), 5);
    assert_eq!(k(14, 10), 7);
    assert_eq!(k(15, 10), 7);
    assert_eq!(k(19, 10), 39);
    assert_eq!(k(20, 10), usize::MAX);
    assert_eq!(k(30, 10), 1);
    assert_eq!(k(0, 1), 1);
}

#[test]
fn lambda_to_k_is_always_odd() {
    for num in 0..60u64 {
        for den in 1..12u64 {
            assert_eq!(lambda_to_k(Rate { num, den }) % 2, 1);
        }
    }
}

#[test]
fn queue_indices_dispatches_by_policy() {
    let q = jobs_with_reqs(&[tenths(5), tenths(6), tenths(3)]);
    let rate = Rate { num: 10, den: 10 };
    assert_eq!(queue_indices(&q, 1, Policy::FCFS, rate), vec![0]);
    assert_eq!(queue_indices(&q, 1, Policy::SRPTB, rate), vec![0, 2]);
    assert_eq!(queue_indices(&q, 1, Policy::DB(3), rate), vec![2, 0]);
    assert_eq!(queue_indices(&q, 1, Policy::DBE, rate), vec![2, 0]);
}

#[test]
fn selections_fit_in_one_server() {
    let reqs = [tenths(4), tenths(6), tenths(2), tenths(7), tenths(1), tenths(3)];
    let q = jobs_with_reqs(&reqs);
    let rate = Rate { num: 10, den: 10 };
    for p in [Policy::FCFS, Policy::LSFB, Policy::DB(5), Policy::DBE] {
        let sel = queue_indices(&q, 1, p, rate);
        let total: u64 = sel.iter().map(|i| reqs[*i]).sum();
        assert!(total < UNIT);
        let mut sorted = sel.clone();
        sorted.sort();
        sorted.dedup();
        assert_eq!(sorted.len(), sel.len());
    }
}

#[test]
fn isqrt_values() {
    assert_eq!(isqrt(0), 0);
    assert_eq!(isqrt(1), 1);
    assert_eq!(isqrt(15), 3);
    assert_eq!(isqrt(16), 4);
    assert_eq!(isqrt(10_000_000), 3162);
    assert_eq!(isqrt(u64::MAX), 4_294_967_295);
}
