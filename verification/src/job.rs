use vstd::prelude::*;

verus! {

/// A job in the queue. Times and sizes are fixed-point integers in which
/// `UNIT` stands for one time unit, one unit of work, or the whole resource
/// of one server.
#[derive(Clone, Copy, Debug)]
pub struct Job {
    /// When the job entered the queue.
    pub arrival_time: u64,
    /// The work the job brought with it.
    pub original_size: u64,
    /// The work still left to do.
    pub rem_size: u64,
    /// The share of server resource the job holds while it is served.
    pub service_req: u64,
}

impl Job {
    /// A job that arrives at `time` with `size` work and resource need `service_req`.
    pub fn new(time: u64, size: u64, service_req: u64) -> (job: Job)
        ensures
            job.arrival_time == time,
            job.original_size == size,
            job.rem_size == size,
            job.service_req == service_req,
    {
        Job { arrival_time: time, original_size: size, rem_size: size, service_req }
    }
}

/// Sum of the service requirements of the first `n` jobs of `q`.
pub open spec fn req_prefix(q: Seq<Job>, n: int) -> int
    decreases n,
{
    if n <= 0 {
        0
    } else {
        req_prefix(q, n - 1) + q[n - 1].service_req
    }
}

/// Sum of the service requirements of the jobs of `q` at the positions in `sel`.
pub open spec fn req_of_indices(q: Seq<Job>, sel: Seq<usize>) -> int
    decreases sel.len(),
{
    if sel.len() == 0 {
        0
    } else {
        req_of_indices(q, sel.drop_last()) + q[sel.last() as int].service_req
    }
}

/// Sum of the remaining sizes of all jobs of `q`.
pub open spec fn rem_total(q: Seq<Job>) -> int
    decreases q.len(),
{
    if q.len() == 0 {
        0
    } else {
        rem_total(q.drop_last()) + q.last().rem_size
    }
}

/// Prefix sums of service requirements never decrease.
pub proof fn lemma_req_prefix_monotone(q: Seq<Job>, a: int, b: int)
    requires
        a <= b,
    ensures
        req_prefix(q, a) <= req_prefix(q, b),
    decreases b - a,
{
    if a < b {
        lemma_req_prefix_monotone(q, a, b - 1);
    }
}

} // verus!
