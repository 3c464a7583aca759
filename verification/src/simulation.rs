use vstd::prelude::*;
use crate::{UNIT, EPSILON, isqrt};
use crate::job::{Job, req_of_indices, rem_total};
use crate::policy::{Policy, Selection, selection_of};
use crate::rate::Rate;
use crate::sort::{sort_by_key, sort_queue, lemma_sort_is_permutation};
use crate::selection::{capacity, capacity_exec};
use crate::schedule::{indices_allowed, selection_spec, queue_indices, lemma_selection_fits, distinct_below};

verus! {

/// The fixed settings of a run.
#[derive(Clone, Copy, Debug)]
pub struct SimConfig {
    pub policy: Policy,
    pub num_servers: usize,
    /// The run ends once this many jobs have completed.
    pub num_jobs: u64,
    /// The rate at which jobs arrive; bucket pairing with an adaptive bucket
    /// count reads it.
    pub arrival_rate: Rate,
}

impl SimConfig {
    /// Settings on which every selection rule is defined.
    pub open spec fn wf(self) -> bool {
        &&& (selection_of(self.policy) != Selection::Backfill ==> self.num_servers >= 1)
        &&& match self.policy {
            Policy::DB(k) => k % 2 == 1,
            Policy::DBE => self.arrival_rate.wf(),
            _ => true,
        }
    }
}

/// The state of a run: the queue, the clock, and the running totals.
pub struct Simulation {
    pub config: SimConfig,
    pub queue: Vec<Job>,
    pub time: u64,
    pub next_arrival_time: u64,
    /// Sum over completed jobs of completion time minus arrival time.
    pub total_response: u128,
    /// Sum, over arrivals, of the work left in the queue just before each one
    /// (held at `u128::MAX` once it reaches it).
    pub total_work: u128,
    pub num_completions: u64,
    pub num_arrivals: u64,
}

/// What one step of a run did.
#[derive(Clone, Copy, Debug, PartialEq, Eq, Structural)]
pub enum StepOutcome {
    /// The queue grew past the square root of the number of jobs; the run stops.
    QueueTooLong,
    /// The jobs picked for service hold more than one server's resource.
    CapacityExceeded,
    /// Time moved to the next event; `arrival` tells whether that event is an
    /// arrival, which the caller then supplies with `add_arrival`.
    Advanced { arrival: bool },
}

/// Whether position `i` is served.
pub open spec fn served(sel: Seq<usize>, i: int) -> bool {
    sel.contains(i as usize)
}

/// A job after `dt` time units: its remaining size drops by `dt` when it is served.
pub open spec fn advance_job(job: Job, is_served: bool, dt: int) -> Job {
    if is_served {
        Job {
            arrival_time: job.arrival_time,
            original_size: job.original_size,
            rem_size: (job.rem_size - dt) as u64,
            service_req: job.service_req,
        }
    } else {
        job
    }
}

/// Whether the job at position `i` completes: it is served and less than
/// `EPSILON` of it is left after `dt`.
pub open spec fn completes(q: Seq<Job>, sel: Seq<usize>, dt: int, i: int) -> bool {
    served(sel, i) && q[i].rem_size - dt < EPSILON
}

/// The first `n` jobs of `q` after `dt`, without those that complete.
pub open spec fn survivors(q: Seq<Job>, sel: Seq<usize>, dt: int, n: int) -> Seq<Job>
    decreases n,
{
    if n <= 0 {
        Seq::empty()
    } else {
        let r = survivors(q, sel, dt, n - 1);
        if completes(q, sel, dt, n - 1) {
            r
        } else {
            r.push(advance_job(q[n - 1], served(sel, n - 1), dt))
        }
    }
}

/// Sum of `t` minus arrival time over the jobs among the first `n` that complete.
pub open spec fn response_sum(q: Seq<Job>, sel: Seq<usize>, dt: int, t: int, n: int) -> int
    decreases n,
{
    if n <= 0 {
        0
    } else {
        response_sum(q, sel, dt, t, n - 1) + (if completes(q, sel, dt, n - 1) {
            t - q[n - 1].arrival_time
        } else {
            0
        })
    }
}

/// How many of the first `n` jobs complete.
pub open spec fn completion_count(q: Seq<Job>, sel: Seq<usize>, dt: int, n: int) -> int
    decreases n,
{
    if n <= 0 {
        0
    } else {
        completion_count(q, sel, dt, n - 1) + (if completes(q, sel, dt, n - 1) {
            1int
        } else {
            0int
        })
    }
}

/// The least remaining size among the served jobs, if any is served.
pub open spec fn min_rem(q: Seq<Job>, sel: Seq<usize>) -> Option<int>
    decreases sel.len(),
{
    if sel.len() == 0 {
        None
    } else {
        let v = q[sel.last() as int].rem_size as int;
        match min_rem(q, sel.drop_last()) {
            None => Some(v),
            Some(m) => Some(if v < m { v } else { m }),
        }
    }
}

/// The time to the next event: the next completion or the next arrival,
/// whichever is sooner.
pub open spec fn time_step(nc: Option<int>, gap: int) -> int {
    match nc {
        Some(c) => if c < gap { c } else { gap },
        None => gap,
    }
}

/// Whether the next event is an arrival: the step is shorter than the next completion.
pub open spec fn is_arrival(nc: Option<int>, dt: int) -> bool {
    match nc {
        Some(c) => dt < c,
        None => true,
    }
}

/// Whether the bucket rule needs requirements below the capacity.
pub open spec fn uses_buckets(policy: Policy) -> bool {
    selection_of(policy) == Selection::Buckets
}

impl Simulation {
    /// The invariant of a run.
    pub open spec fn wf(&self) -> bool {
        &&& self.config.wf()
        &&& self.time <= self.next_arrival_time
        &&& forall|j: int| 0 <= j < self.queue@.len() ==> (#[trigger] self.queue@[j]).arrival_time <= self.time
        &&& forall|j: int| 0 <= j < self.queue@.len() ==> (#[trigger] self.queue@[j]).rem_size <= self.queue@[j].original_size
        &&& uses_buckets(self.config.policy) ==> forall|j: int| 0 <= j < self.queue@.len() ==> (#[trigger] self.queue@[j]).service_req < capacity(self.config.num_servers)
        &&& self.num_completions + self.queue@.len() == self.num_arrivals
        &&& self.total_response <= self.num_completions * 0xFFFF_FFFF_FFFF_FFFFu64
    }
}

proof fn lemma_min_rem_props(q: Seq<Job>, sel: Seq<usize>)
    ensures
        sel.len() > 0 <==> min_rem(q, sel) is Some,
        min_rem(q, sel) matches Some(c) ==> (0 <= c && forall|i: int| 0 <= i < sel.len() ==> c <= q[#[trigger] sel[i] as int].rem_size),
        min_rem(q, sel) matches Some(c) ==> exists|w: int| 0 <= w < sel.len() && q[sel[w] as int].rem_size == c,
    decreases sel.len(),
{
    if sel.len() > 0 {
        lemma_min_rem_props(q, sel.drop_last());
        let c = min_rem(q, sel).unwrap();
        let v = q[sel.last() as int].rem_size as int;
        if v == c {
            assert(q[sel[sel.len() - 1] as int].rem_size == c);
        } else {
            let w = choose|w: int| 0 <= w < sel.drop_last().len() && q[sel.drop_last()[w] as int].rem_size == min_rem(q, sel.drop_last()).unwrap();
            assert(sel[w] == sel.drop_last()[w]);
        }
        assert forall|i: int| 0 <= i < sel.len() implies c <= q[#[trigger] sel[i] as int].rem_size by {
            if i < sel.len() - 1 {
                assert(sel[i] == sel.drop_last()[i]);
            }
        }
    }
}

proof fn lemma_completion_count_positive(q: Seq<Job>, sel: Seq<usize>, dt: int, n: int, i: int)
    requires
        0 <= i < n,
        completes(q, sel, dt, i),
    ensures
        completion_count(q, sel, dt, n) >= 1,
    decreases n,
{
    if i < n - 1 {
        lemma_completion_count_positive(q, sel, dt, n - 1, i);
    }
    lemma_completion_count_nonneg(q, sel, dt, n - 1);
}

proof fn lemma_completion_count_nonneg(q: Seq<Job>, sel: Seq<usize>, dt: int, n: int)
    ensures
        completion_count(q, sel, dt, n) >= 0,
    decreases n,
{
    if n > 0 {
        lemma_completion_count_nonneg(q, sel, dt, n - 1);
    }
}

proof fn lemma_response_sum_nonneg(q: Seq<Job>, sel: Seq<usize>, dt: int, t: int, n: int)
    requires
        n <= q.len(),
        forall|j: int| 0 <= j < n ==> (#[trigger] q[j]).arrival_time <= t,
    ensures
        response_sum(q, sel, dt, t, n) >= 0,
    decreases n,
{
    if n > 0 {
        lemma_response_sum_nonneg(q, sel, dt, t, n - 1);
    }
}

/// The positions, among the first `n`, of the jobs that do not complete.
pub open spec fn kept_positions(q: Seq<Job>, sel: Seq<usize>, dt: int, n: int) -> Seq<int>
    decreases n,
{
    if n <= 0 {
        Seq::empty()
    } else if completes(q, sel, dt, n - 1) {
        kept_positions(q, sel, dt, n - 1)
    } else {
        kept_positions(q, sel, dt, n - 1).push(n - 1)
    }
}

/// Law: after a step of length `dt`, the queue keeps, in their order, exactly
/// the jobs that do not complete (`kept_positions`, increasing, naming every
/// job that does not complete); each keeps its arrival, size and resource
/// need; a served job has exactly `dt` less work left, and at least
/// `EPSILON`; a job not served is unchanged; and a job completes only when
/// it was served and had less than `EPSILON` left.
pub proof fn lemma_survivors(q: Seq<Job>, sel: Seq<usize>, dt: int, n: int)
    requires
        0 <= n <= q.len(),
        0 <= dt,
        forall|i: int| 0 <= i < n ==> served(sel, i) ==> dt <= (#[trigger] q[i]).rem_size,
    ensures
        survivors(q, sel, dt, n).len() + completion_count(q, sel, dt, n) == n,
        kept_positions(q, sel, dt, n).len() == survivors(q, sel, dt, n).len(),
        forall|a: int, b: int| 0 <= a < b < kept_positions(q, sel, dt, n).len()
            ==> #[trigger] kept_positions(q, sel, dt, n)[a] < #[trigger] kept_positions(q, sel, dt, n)[b],
        forall|j: int| 0 <= j < kept_positions(q, sel, dt, n).len() ==> {
            let i = #[trigger] kept_positions(q, sel, dt, n)[j];
            let s = survivors(q, sel, dt, n)[j];
            &&& 0 <= i < n
            &&& !completes(q, sel, dt, i)
            &&& s.arrival_time == q[i].arrival_time
            &&& s.original_size == q[i].original_size
            &&& s.service_req == q[i].service_req
            &&& served(sel, i) ==> s.rem_size == q[i].rem_size - dt && s.rem_size >= EPSILON
            &&& !served(sel, i) ==> s.rem_size == q[i].rem_size
        },
        forall|i: int| 0 <= i < n && !completes(q, sel, dt, i) ==> kept_positions(q, sel, dt, n).contains(i),
        forall|i: int| 0 <= i < n && #[trigger] completes(q, sel, dt, i) ==> served(sel, i) && q[i].rem_size - dt < EPSILON,
    decreases n,
{
    if n > 0 {
        lemma_survivors(q, sel, dt, n - 1);
        let prev = survivors(q, sel, dt, n - 1);
        let pos0 = kept_positions(q, sel, dt, n - 1);
        if !completes(q, sel, dt, n - 1) {
            let pos1 = kept_positions(q, sel, dt, n);
            let cur = survivors(q, sel, dt, n);
            assert(pos1 == pos0.push(n - 1));
            assert(cur == prev.push(advance_job(q[n - 1], served(sel, n - 1), dt)));
            assert forall|j: int| 0 <= j < pos1.len() implies {
                let i = #[trigger] pos1[j];
                let s = cur[j];
                &&& 0 <= i < n
                &&& !completes(q, sel, dt, i)
                &&& s.arrival_time == q[i].arrival_time
                &&& s.original_size == q[i].original_size
                &&& s.service_req == q[i].service_req
                &&& served(sel, i) ==> s.rem_size == q[i].rem_size - dt && s.rem_size >= EPSILON
                &&& !served(sel, i) ==> s.rem_size == q[i].rem_size
            } by {
                if j < pos0.len() {
                    assert(pos1[j] == pos0[j]);
                    assert(cur[j] == prev[j]);
                } else {
                    assert(pos1[j] == n - 1);
                    assert(cur[j] == advance_job(q[n - 1], served(sel, n - 1), dt));
                    assert(!completes(q, sel, dt, n - 1));
                    if served(sel, n - 1) {
                        assert(dt <= q[n - 1].rem_size);
                    } else {
                        assert(cur[j] == q[n - 1]);
                    }
                    assert(cur[j].arrival_time == q[n - 1].arrival_time);
                }
            }
            assert forall|a: int, b: int| 0 <= a < b < pos1.len() implies #[trigger] pos1[a] < #[trigger] pos1[b] by {
                if b < pos0.len() {
                    assert(pos1[a] == pos0[a] && pos1[b] == pos0[b]);
                } else {
                    assert(pos1[a] == pos0[a]);
                }
            }
            assert forall|i: int| 0 <= i < n && !completes(q, sel, dt, i) implies pos1.contains(i) by {
                if i < n - 1 {
                    let j = choose|j: int| 0 <= j < pos0.len() && pos0[j] == i;
                    assert(pos1[j] == i);
                } else {
                    assert(pos1[pos0.len() as int] == i);
                }
            }
        }
    }
}

/// Law: the step runs to the next event: it never passes the next arrival
/// (`gap` away), never runs past the work left in a served job, ends either
/// at the arrival or when a served job runs out; and the event is an arrival
/// exactly when every served job still has work left at its end.
pub proof fn lemma_step_event(q: Seq<Job>, sel: Seq<usize>, gap: int)
    requires
        0 <= gap,
    ensures
        ({
            let dt = time_step(min_rem(q, sel), gap);
            &&& 0 <= dt <= gap
            &&& forall|w: int| 0 <= w < sel.len() ==> dt <= q[#[trigger] sel[w] as int].rem_size
            &&& dt == gap || exists|w: int| 0 <= w < sel.len() && q[#[trigger] sel[w] as int].rem_size == dt
            &&& is_arrival(min_rem(q, sel), dt) <==> forall|w: int| 0 <= w < sel.len() ==> dt < q[#[trigger] sel[w] as int].rem_size
        }),
{
    lemma_min_rem_props(q, sel);
    let dt = time_step(min_rem(q, sel), gap);
    if let Some(c) = min_rem(q, sel) {
        let w0 = choose|w: int| 0 <= w < sel.len() && q[sel[w] as int].rem_size == c;
        if dt == c {
            assert(q[sel[w0] as int].rem_size == dt);
        }
        if !is_arrival(min_rem(q, sel), dt) {
            assert(!(dt < q[sel[w0] as int].rem_size));
        }
    }
}

proof fn lemma_take_one_more<A>(s: Seq<A>, k: int)
    requires
        0 <= k < s.len(),
    ensures
        s.take(k + 1).drop_last() == s.take(k),
        s.take(k + 1).last() == s[k],
{
    assert(s.take(k + 1).drop_last() =~= s.take(k));
}

proof fn lemma_req_of_indices_prefix(q: Seq<Job>, sel: Seq<usize>, k: int)
    requires
        0 <= k <= sel.len(),
    ensures
        0 <= req_of_indices(q, sel.take(k)) <= req_of_indices(q, sel),
    decreases sel.len(),
{
    if sel.len() > 0 {
        if k == sel.len() {
            assert(sel.take(k) =~= sel);
            lemma_req_of_indices_prefix(q, sel.drop_last(), k - 1);
            assert(sel.drop_last().take(k - 1) =~= sel.drop_last());
        } else {
            lemma_req_of_indices_prefix(q, sel.drop_last(), k);
            assert(sel.drop_last().take(k) =~= sel.take(k));
        }
    }
}

proof fn lemma_rem_total_bound(q: Seq<Job>)
    ensures
        0 <= rem_total(q) <= q.len() * 0xFFFF_FFFF_FFFF_FFFFu64,
    decreases q.len(),
{
    if q.len() > 0 {
        lemma_rem_total_bound(q.drop_last());
    }
}

/// Every job of the sorted queue is a job of the queue.
proof fn lemma_sorted_from(q: Seq<Job>, p: Policy, j: int)
    requires
        0 <= j < sort_by_key(q, p).len(),
    ensures
        exists|i: int| 0 <= i < q.len() && q[i] == sort_by_key(q, p)[j],
{
    broadcast use vstd::seq_lib::group_to_multiset_ensures;
    lemma_sort_is_permutation(q, p);
    let s = sort_by_key(q, p);
    assert(s.contains(s[j]));
    assert(s.to_multiset().count(s[j]) > 0);
    assert(q.contains(s[j]));
}

} // verus!

verus! {

fn selection_capacity(q: &Vec<Job>, sel: &Vec<usize>) -> (c: u128)
    requires
        forall|i: int| 0 <= i < sel@.len() ==> #[trigger] sel@[i] < q@.len(),
        req_of_indices(q@, sel@) <= u128::MAX,
    ensures
        c == req_of_indices(q@, sel@),
{
    let mut c: u128 = 0;
    let m = sel.len();
    for k in 0..m
        invariant
            m == sel@.len(),
            forall|i: int| 0 <= i < sel@.len() ==> #[trigger] sel@[i] < q@.len(),
            req_of_indices(q@, sel@) <= u128::MAX,
            c == req_of_indices(q@, sel@.take(k as int)),
    {
        proof {
            lemma_take_one_more(sel@, k as int);
            lemma_req_of_indices_prefix(q@, sel@, k + 1);
        }
        c = c + q[sel[k]].service_req as u128;
    }
    assert(sel@.take(m as int) =~= sel@);
    c
}

fn min_rem_exec(q: &Vec<Job>, sel: &Vec<usize>) -> (r: Option<u64>)
    requires
        forall|i: int| 0 <= i < sel@.len() ==> #[trigger] sel@[i] < q@.len(),
    ensures
        match r {
            Some(c) => min_rem(q@, sel@) == Some(c as int),
            None => min_rem(q@, sel@) is None,
        },
{
    let mut r: Option<u64> = None;
    let m = sel.len();
    for k in 0..m
        invariant
            m == sel@.len(),
            forall|i: int| 0 <= i < sel@.len() ==> #[trigger] sel@[i] < q@.len(),
            match r {
                Some(c) => min_rem(q@, sel@.take(k as int)) == Some(c as int),
                None => min_rem(q@, sel@.take(k as int)) is None,
            },
    {
        proof {
            lemma_take_one_more(sel@, k as int);
        }
        let v = q[sel[k]].rem_size;
        r = match r {
            None => Some(v),
            Some(c) => Some(if v < c { v } else { c }),
        };
    }
    assert(sel@.take(m as int) =~= sel@);
    r
}

fn served_mask(sel: &Vec<usize>, n: usize) -> (mask: Vec<bool>)
    requires
        forall|i: int| 0 <= i < sel@.len() ==> #[trigger] sel@[i] < n,
    ensures
        mask@.len() == n,
        forall|i: int| 0 <= i < n ==> #[trigger] mask@[i] == served(sel@, i),
{
    let mut mask: Vec<bool> = Vec::new();
    for i in 0..n
        invariant
            mask@.len() == i,
            forall|j: int| 0 <= j < i ==> #[trigger] mask@[j] == false,
    {
        mask.push(false);
    }
    let m = sel.len();
    for k in 0..m
        invariant
            m == sel@.len(),
            forall|i: int| 0 <= i < sel@.len() ==> #[trigger] sel@[i] < n,
            mask@.len() == n,
            forall|i: int| 0 <= i < n ==> #[trigger] mask@[i] == sel@.take(k as int).contains(i as usize),
    {
        proof {
            lemma_take_one_more(sel@, k as int);
        }
        mask.set(sel[k], true);
        proof {
            assert forall|i: int| 0 <= i < n implies #[trigger] mask@[i] == sel@.take(k + 1).contains(i as usize) by {
                let t1 = sel@.take(k + 1);
                if mask@[i] {
                    if i != sel@[k as int] as int {
                        let w = choose|w: int| 0 <= w < sel@.take(k as int).len() && sel@.take(k as int)[w] == i as usize;
                        assert(t1[w] == i as usize);
                    } else {
                        assert(t1[k as int] == i as usize);
                    }
                } else {
                    if t1.contains(i as usize) {
                        let w = choose|w: int| 0 <= w < t1.len() && t1[w] == i as usize;
                        if w < k {
                            assert(sel@.take(k as int)[w] == i as usize);
                        }
                    }
                }
            }
        }
    }
    assert(sel@.take(m as int) =~= sel@);
    mask
}

} // verus!

verus! {

/// The queue after the sort that opens a step.
pub open spec fn sorted_queue(s: &Simulation) -> Seq<Job> {
    sort_by_key(s.queue@, s.config.policy)
}

/// Whether the queue has grown past the square root of the number of jobs.
pub open spec fn too_long(s: &Simulation) -> bool {
    let n = sorted_queue(s).len();
    n * n > s.config.num_jobs
}

/// The positions, in the sorted queue, of the jobs served in this step.
pub open spec fn served_positions(s: &Simulation) -> Seq<usize> {
    selection_spec(sorted_queue(s), s.config.num_servers, s.config.policy, s.config.arrival_rate)
}

/// Whether the served jobs hold one server's resource or more (beyond `EPSILON`).
pub open spec fn overloaded(s: &Simulation) -> bool {
    req_of_indices(sorted_queue(s), served_positions(s)) >= UNIT + EPSILON
}

/// The time to the next event.
pub open spec fn step_length(s: &Simulation) -> int {
    time_step(min_rem(sorted_queue(s), served_positions(s)), s.next_arrival_time - s.time)
}

proof fn lemma_too_long(len: int, n: int, r: int)
    requires
        0 <= len,
        0 <= r,
        r * r <= n,
        n < (r + 1) * (r + 1),
    ensures
        (len > r) <==> (len * len > n),
{
    if len > r {
        assert(len * len >= (r + 1) * (r + 1)) by (nonlinear_arith)
            requires len >= r + 1, r >= 0;
    } else {
        assert(len * len <= r * r) by (nonlinear_arith)
            requires 0 <= len <= r;
    }
}

proof fn lemma_sorted_props(s: &Simulation)
    requires
        s.wf(),
    ensures
        sorted_queue(s).len() == s.queue@.len(),
        forall|j: int| 0 <= j < sorted_queue(s).len() ==> (#[trigger] sorted_queue(s)[j]).arrival_time <= s.time,
        forall|j: int| 0 <= j < sorted_queue(s).len() ==> (#[trigger] sorted_queue(s)[j]).rem_size <= sorted_queue(s)[j].original_size,
        uses_buckets(s.config.policy) ==> forall|j: int| 0 <= j < sorted_queue(s).len() ==> (#[trigger] sorted_queue(s)[j]).service_req < capacity(s.config.num_servers),
{
    lemma_sort_is_permutation(s.queue@, s.config.policy);
    let q = sorted_queue(s);
    assert forall|j: int| 0 <= j < q.len() implies {
        &&& (#[trigger] q[j]).arrival_time <= s.time
        &&& q[j].rem_size <= q[j].original_size
        &&& uses_buckets(s.config.policy) ==> q[j].service_req < capacity(s.config.num_servers)
    } by {
        lemma_sorted_from(s.queue@, s.config.policy, j);
        let i = choose|i: int| 0 <= i < s.queue@.len() && s.queue@[i] == q[j];
        assert(s.queue@[i] == q[j]);
    }
}

impl Simulation {
    /// A run with an empty queue at time zero whose first job arrives at `first_arrival`.
    pub fn new(config: SimConfig, first_arrival: u64) -> (s: Simulation)
        requires
            config.wf(),
        ensures
            s.wf(),
            s.config == config,
            s.queue@.len() == 0,
            s.time == 0,
            s.next_arrival_time == first_arrival,
            s.total_response == 0,
            s.total_work == 0,
            s.num_completions == 0,
            s.num_arrivals == 0,
    {
        Simulation {
            config,
            queue: Vec::new(),
            time: 0,
            next_arrival_time: first_arrival,
            total_response: 0,
            total_work: 0,
            num_completions: 0,
            num_arrivals: 0,
        }
    }

    /// Whether enough jobs have completed.
    pub fn is_done(&self) -> (b: bool)
        ensures
            b == (self.num_completions >= self.config.num_jobs),
    {
        self.num_completions >= self.config.num_jobs
    }

    /// One step of the run: sort the queue by the policy's key; stop when the
    /// queue is too long; pick the jobs to serve; report when they hold more
    /// than one server's resource; otherwise move time to the next completion
    /// or arrival, serve the picked jobs for that long, and retire those that
    /// complete, adding their response times.
    pub fn step(&mut self) -> (out: StepOutcome)
        requires
            old(self).wf(),
        ensures
            final(self).wf(),
            final(self).config == old(self).config,
            final(self).next_arrival_time == old(self).next_arrival_time,
            final(self).total_work == old(self).total_work,
            final(self).num_arrivals == old(self).num_arrivals,
            too_long(old(self)) ==> out == StepOutcome::QueueTooLong,
            !too_long(old(self)) && overloaded(old(self)) ==> out == StepOutcome::CapacityExceeded,
            too_long(old(self)) || overloaded(old(self)) ==> {
                &&& final(self).queue@ == sorted_queue(old(self))
                &&& final(self).time == old(self).time
                &&& final(self).total_response == old(self).total_response
                &&& final(self).num_completions == old(self).num_completions
            },
            !too_long(old(self)) && !overloaded(old(self)) ==> {
                let q = sorted_queue(old(self));
                let sel = served_positions(old(self));
                let dt = step_length(old(self));
                let t = old(self).time + dt;
                &&& out == StepOutcome::Advanced { arrival: is_arrival(min_rem(q, sel), dt) }
                &&& final(self).time == t
                &&& final(self).queue@ == survivors(q, sel, dt, q.len() as int)
                &&& final(self).total_response == old(self).total_response + response_sum(q, sel, dt, t, q.len() as int)
                &&& final(self).num_completions == old(self).num_completions + completion_count(q, sel, dt, q.len() as int)
            },
            old(self).config.num_servers == 1 ==> out != StepOutcome::CapacityExceeded,
            out == (StepOutcome::Advanced { arrival: false }) ==> final(self).num_completions > old(self).num_completions,
            final(self).time >= old(self).time,
            final(self).total_response >= old(self).total_response,
            final(self).num_completions >= old(self).num_completions,
    {
        let ghost pre = *self;
        let policy = self.config.policy;
        let num_servers = self.config.num_servers;
        sort_queue(&mut self.queue, policy);
        let ghost q = self.queue@;
        proof {
            lemma_sorted_props(&pre);
        }
        let len = self.queue.len();
        let root = isqrt(self.config.num_jobs);
        proof {
            lemma_too_long(len as int, self.config.num_jobs as int, root as int);
        }
        if len as u64 > root {
            return StepOutcome::QueueTooLong;
        }
        let sel = queue_indices(&self.queue, num_servers, policy, self.config.arrival_rate);
        proof {
            lemma_selection_fits(q, num_servers, policy, self.config.arrival_rate);
            assert(capacity(num_servers) <= 0xFFFF_FFFF_FFFF_FFFFu128 * 1_000_000_000u128) by (nonlinear_arith)
                requires num_servers <= 0xFFFF_FFFF_FFFF_FFFFu128;
        }
        let cap = selection_capacity(&self.queue, &sel);
        if cap >= (UNIT + EPSILON) as u128 {
            return StepOutcome::CapacityExceeded;
        }
        let nc = min_rem_exec(&self.queue, &sel);
        proof {
            lemma_min_rem_props(q, sel@);
        }
        let gap = self.next_arrival_time - self.time;
        let (dt, arrival) = match nc {
            Some(c) => {
                let dt = if c < gap { c } else { gap };
                (dt, dt < c)
            },
            None => (gap, true),
        };
        let t = self.time + dt;
        let mask = served_mask(&sel, len);
        let mut kept: Vec<Job> = Vec::new();
        let mut total = self.total_response;
        let mut done = self.num_completions;
        let ghost cap_n = capacity(num_servers);
        for i in 0..len
            invariant
                len == q.len(),
                self.queue@ == q,
                mask@.len() == len,
                forall|j: int| 0 <= j < len ==> #[trigger] mask@[j] == served(sel@, j),
                forall|j: int| 0 <= j < len ==> served(sel@, j) ==> dt <= (#[trigger] q[j]).rem_size,
                forall|j: int| 0 <= j < len ==> (#[trigger] q[j]).arrival_time <= t,
                forall|j: int| 0 <= j < len ==> (#[trigger] q[j]).rem_size <= q[j].original_size,
                uses_buckets(policy) ==> forall|j: int| 0 <= j < len ==> (#[trigger] q[j]).service_req < cap_n,
                kept@ == survivors(q, sel@, dt as int, i as int),
                total == pre.total_response + response_sum(q, sel@, dt as int, t as int, i as int),
                done == pre.num_completions + completion_count(q, sel@, dt as int, i as int),
                kept@.len() + (done - pre.num_completions) == i,
                pre.num_completions + len == pre.num_arrivals,
                total <= done * 0xFFFF_FFFF_FFFF_FFFFu64,
                forall|j: int| 0 <= j < kept@.len() ==> (#[trigger] kept@[j]).arrival_time <= t,
                forall|j: int| 0 <= j < kept@.len() ==> (#[trigger] kept@[j]).rem_size <= kept@[j].original_size,
                uses_buckets(policy) ==> forall|j: int| 0 <= j < kept@.len() ==> (#[trigger] kept@[j]).service_req < cap_n,
        {
            let job = self.queue[i];
            if mask[i] {
                let rem = job.rem_size - dt;
                if rem < EPSILON {
                    total = total + (t - job.arrival_time) as u128;
                    done = done + 1;
                } else {
                    kept.push(Job {
                        arrival_time: job.arrival_time,
                        original_size: job.original_size,
                        rem_size: rem,
                        service_req: job.service_req,
                    });
                }
            } else {
                kept.push(job);
            }
        }
        proof {
            lemma_completion_count_nonneg(q, sel@, dt as int, len as int);
            lemma_response_sum_nonneg(q, sel@, dt as int, t as int, len as int);
            if !arrival {
                let c = nc.unwrap();
                assert(dt == c);
                let w = choose|w: int| 0 <= w < sel@.len() && q[sel@[w] as int].rem_size == c;
                let p = sel@[w] as int;
                assert(sel@.contains(sel@[w]));
                assert(p < len);
                assert(served(sel@, p));
                assert(completes(q, sel@, dt as int, p));
                lemma_completion_count_positive(q, sel@, dt as int, len as int, p);
            }
        }
        self.queue = kept;
        self.time = t;
        self.total_response = total;
        self.num_completions = done;
        StepOutcome::Advanced { arrival }
    }
}


fn queue_work(q: &Vec<Job>) -> (w: u128)
    ensures
        w == rem_total(q@),
{
    let n = q.len();
    let mut w: u128 = 0;
    for i in 0..n
        invariant
            n == q@.len(),
            w == rem_total(q@.take(i as int)),
    {
        proof {
            lemma_take_one_more(q@, i as int);
            lemma_rem_total_bound(q@.take(i + 1));
            assert((i + 1) * 0xFFFF_FFFF_FFFF_FFFFu128 <= 0xFFFF_FFFF_FFFF_FFFFu128 * 0xFFFF_FFFF_FFFF_FFFFu128) by (nonlinear_arith)
                requires i + 1 <= 0xFFFF_FFFF_FFFF_FFFFu128;
        }
        w = w + q[i].rem_size as u128;
    }
    assert(q@.take(n as int) =~= q@);
    w
}

impl Simulation {
    /// A job arrives now with `size` work and resource need `service_req`;
    /// the work left in the queue is added to the running total first, and
    /// the next arrival is set `interarrival` after now.
    pub fn add_arrival(&mut self, size: u64, service_req: u64, interarrival: u64)
        requires
            old(self).wf(),
            old(self).num_arrivals < u64::MAX,
            old(self).time + interarrival <= u64::MAX,
            uses_buckets(old(self).config.policy) ==> service_req < capacity(old(self).config.num_servers),
        ensures
            final(self).wf(),
            final(self).config == old(self).config,
            final(self).time == old(self).time,
            final(self).total_response == old(self).total_response,
            final(self).num_completions == old(self).num_completions,
            final(self).queue@ == old(self).queue@.push(
                Job { arrival_time: old(self).time, original_size: size, rem_size: size, service_req },
            ),
            final(self).total_work == (if old(self).total_work + rem_total(old(self).queue@) > u128::MAX {
                u128::MAX as int
            } else {
                old(self).total_work + rem_total(old(self).queue@)
            }),
            final(self).num_arrivals == old(self).num_arrivals + 1,
            final(self).next_arrival_time == old(self).time + interarrival,
    {
        let work = queue_work(&self.queue);
        self.total_work = self.total_work.saturating_add(work);
        self.num_arrivals = self.num_arrivals + 1;
        let job = Job::new(self.time, size, service_req);
        self.queue.push(job);
        self.next_arrival_time = self.time + interarrival;
    }
}

} // verus!
