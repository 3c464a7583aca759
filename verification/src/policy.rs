use vstd::prelude::*;
use crate::job::Job;

verus! {

/// A scheduling policy: the order in which the queue is kept, and the rule
/// that picks which jobs are served.
#[derive(Clone, Copy, Debug, PartialEq, Eq, Structural)]
pub enum Policy {
    FCFS,
    PLCFS,
    SRPT,
    FCFSB,
    SRPTB,
    PLCFSB,
    LSF,
    LSFB,
    MSF,
    MSFB,
    SRA,
    SRAB,
    LRA,
    LRAB,
    DB(usize),
    DBE,
}

/// The key by which a policy orders the queue: `magnitude`, negated when
/// `negated` holds.
#[derive(Clone, Copy, Debug)]
pub struct SortKey {
    pub negated: bool,
    pub magnitude: u128,
}

impl SortKey {
    /// The integer this key stands for.
    pub open spec fn value(self) -> int {
        if self.negated {
            -(self.magnitude as int)
        } else {
            self.magnitude as int
        }
    }

    /// Whether this key is strictly greater than `other`.
    pub fn greater_than(&self, other: &SortKey) -> (r: bool)
        ensures
            r == (self.value() > other.value()),
    {
        match (self.negated, other.negated) {
            (false, false) => self.magnitude > other.magnitude,
            (true, true) => self.magnitude < other.magnitude,
            (false, true) => self.magnitude > 0 || other.magnitude > 0,
            (true, false) => false,
        }
    }
}

/// How a policy picks the jobs that are served.
pub enum Selection {
    /// The longest prefix of the queue that fits.
    Scan,
    /// Every job, front to back, that still fits beside those taken.
    Backfill,
    /// A pair of buckets of service requirement that fill the resource.
    Buckets,
}

/// The sort key of `job` under `policy`.
pub open spec fn key_of(policy: Policy, job: Job) -> int {
    match policy {
        Policy::FCFS | Policy::FCFSB => job.arrival_time as int,
        Policy::PLCFS | Policy::PLCFSB => -(job.arrival_time as int),
        Policy::SRPT | Policy::SRPTB => job.rem_size as int,
        Policy::LSF | Policy::LSFB => job.service_req as int,
        Policy::MSF | Policy::MSFB => -(job.service_req as int),
        Policy::SRA | Policy::SRAB => job.rem_size * job.service_req,
        Policy::LRA | Policy::LRAB => -(job.rem_size * job.service_req),
        Policy::DB(_) | Policy::DBE => job.arrival_time as int,
    }
}

/// The selection rule of `policy`.
pub open spec fn selection_of(policy: Policy) -> Selection {
    match policy {
        Policy::FCFS | Policy::PLCFS | Policy::SRPT | Policy::LSF | Policy::MSF | Policy::SRA
        | Policy::LRA => Selection::Scan,
        Policy::FCFSB | Policy::SRPTB | Policy::PLCFSB | Policy::LSFB | Policy::MSFB
        | Policy::SRAB | Policy::LRAB => Selection::Backfill,
        Policy::DB(_) | Policy::DBE => Selection::Buckets,
    }
}

impl Policy {
    /// The criterion by which the queue is sorted under this policy.
    pub fn index(&self, job: &Job) -> (k: SortKey)
        ensures
            k.value() == key_of(*self, *job),
    {
        match self {
            Policy::FCFS | Policy::FCFSB => SortKey { negated: false, magnitude: job.arrival_time as u128 },
            Policy::PLCFS | Policy::PLCFSB => SortKey { negated: true, magnitude: job.arrival_time as u128 },
            Policy::SRPT | Policy::SRPTB => SortKey { negated: false, magnitude: job.rem_size as u128 },
            Policy::LSF | Policy::LSFB => SortKey { negated: false, magnitude: job.service_req as u128 },
            Policy::MSF | Policy::MSFB => SortKey { negated: true, magnitude: job.service_req as u128 },
            Policy::SRA | Policy::SRAB => {
                let m = Self::product(job.rem_size, job.service_req);
                SortKey { negated: false, magnitude: m }
            },
            Policy::LRA | Policy::LRAB => {
                let m = Self::product(job.rem_size, job.service_req);
                SortKey { negated: true, magnitude: m }
            },
            Policy::DB(_) | Policy::DBE => SortKey { negated: false, magnitude: job.arrival_time as u128 },
        }
    }

    fn product(a: u64, b: u64) -> (m: u128)
        ensures
            m == a * b,
    {
        assert(a * b <= u64::MAX * u64::MAX) by (nonlinear_arith)
            requires a <= u64::MAX, b <= u64::MAX;
        assert(u64::MAX * u64::MAX <= u128::MAX) by (nonlinear_arith);
        (a as u128) * (b as u128)
    }

    /// The selection rule of this policy.
    pub fn selection(&self) -> (s: Selection)
        ensures
            s == selection_of(*self),
    {
        match self {
            Policy::FCFS | Policy::PLCFS | Policy::SRPT | Policy::LSF | Policy::MSF | Policy::SRA
            | Policy::LRA => Selection::Scan,
            Policy::FCFSB | Policy::SRPTB | Policy::PLCFSB | Policy::LSFB | Policy::MSFB
            | Policy::SRAB | Policy::LRAB => Selection::Backfill,
            Policy::DB(_) | Policy::DBE => Selection::Buckets,
        }
    }
}

/// Law: first-come policies (FCFS, FCFSB, and the bucket policies, which
/// keep the queue in arrival order) put an earlier arrival before a later one,
/// and look at nothing but the arrival time.
pub proof fn lemma_key_arrival_first(p: Policy, a: Job, b: Job)
    requires
        p == Policy::FCFS || p == Policy::FCFSB || p is DB || p == Policy::DBE,
    ensures
        a.arrival_time < b.arrival_time ==> key_of(p, a) < key_of(p, b),
        a.arrival_time == b.arrival_time ==> key_of(p, a) == key_of(p, b),
{
}

/// Law: preemptive last-come policies (PLCFS, PLCFSB) put a later arrival
/// before an earlier one, and look at nothing but the arrival time.
pub proof fn lemma_key_arrival_last(p: Policy, a: Job, b: Job)
    requires
        p == Policy::PLCFS || p == Policy::PLCFSB,
    ensures
        a.arrival_time > b.arrival_time ==> key_of(p, a) < key_of(p, b),
        a.arrival_time == b.arrival_time ==> key_of(p, a) == key_of(p, b),
{
}

/// Law: shortest-remaining policies (SRPT, SRPTB) put a job with less work
/// left before one with more, and look at nothing but the remaining work.
pub proof fn lemma_key_least_remaining(p: Policy, a: Job, b: Job)
    requires
        p == Policy::SRPT || p == Policy::SRPTB,
    ensures
        a.rem_size < b.rem_size ==> key_of(p, a) < key_of(p, b),
        a.rem_size == b.rem_size ==> key_of(p, a) == key_of(p, b),
{
}

/// Law: least-service-first policies (LSF, LSFB) put a job that needs less
/// resource before one that needs more, and look at nothing else.
pub proof fn lemma_key_least_service(p: Policy, a: Job, b: Job)
    requires
        p == Policy::LSF || p == Policy::LSFB,
    ensures
        a.service_req < b.service_req ==> key_of(p, a) < key_of(p, b),
        a.service_req == b.service_req ==> key_of(p, a) == key_of(p, b),
{
}

/// Law: most-service-first policies (MSF, MSFB) put a job that needs more
/// resource before one that needs less, and look at nothing else.
pub proof fn lemma_key_most_service(p: Policy, a: Job, b: Job)
    requires
        p == Policy::MSF || p == Policy::MSFB,
    ensures
        a.service_req > b.service_req ==> key_of(p, a) < key_of(p, b),
        a.service_req == b.service_req ==> key_of(p, a) == key_of(p, b),
{
}

/// Law: smallest-area policies (SRA, SRAB) put a job with a smaller remaining
/// area (remaining work times resource need) before one with a larger area.
pub proof fn lemma_key_smallest_area(p: Policy, a: Job, b: Job)
    requires
        p == Policy::SRA || p == Policy::SRAB,
    ensures
        a.rem_size * a.service_req < b.rem_size * b.service_req ==> key_of(p, a) < key_of(p, b),
        a.rem_size * a.service_req == b.rem_size * b.service_req ==> key_of(p, a) == key_of(p, b),
{
}

/// Law: largest-area policies (LRA, LRAB) put a job with a larger remaining
/// area (remaining work times resource need) before one with a smaller area.
pub proof fn lemma_key_largest_area(p: Policy, a: Job, b: Job)
    requires
        p == Policy::LRA || p == Policy::LRAB,
    ensures
        a.rem_size * a.service_req > b.rem_size * b.service_req ==> key_of(p, a) < key_of(p, b),
        a.rem_size * a.service_req == b.rem_size * b.service_req ==> key_of(p, a) == key_of(p, b),
{
}

/// Law: a backfilling policy orders the queue exactly as the policy of the
/// same name without backfilling.
pub proof fn lemma_key_backfill_same_order(j: Job)
    ensures
        key_of(Policy::FCFSB, j) == key_of(Policy::FCFS, j),
        key_of(Policy::PLCFSB, j) == key_of(Policy::PLCFS, j),
        key_of(Policy::SRPTB, j) == key_of(Policy::SRPT, j),
        key_of(Policy::LSFB, j) == key_of(Policy::LSF, j),
        key_of(Policy::MSFB, j) == key_of(Policy::MSF, j),
        key_of(Policy::SRAB, j) == key_of(Policy::SRA, j),
        key_of(Policy::LRAB, j) == key_of(Policy::LRA, j),
{
}

/// Law: the policies without backfilling serve a prefix of the queue, those
/// whose names end in B backfill, and the two bucket policies pair buckets.
pub proof fn lemma_selection_rule(p: Policy)
    ensures
        (p == Policy::FCFS || p == Policy::PLCFS || p == Policy::SRPT || p == Policy::LSF
            || p == Policy::MSF || p == Policy::SRA || p == Policy::LRA) <==> selection_of(p) == Selection::Scan,
        (p == Policy::FCFSB || p == Policy::PLCFSB || p == Policy::SRPTB || p == Policy::LSFB
            || p == Policy::MSFB || p == Policy::SRAB || p == Policy::LRAB) <==> selection_of(p) == Selection::Backfill,
        (p is DB || p == Policy::DBE) <==> selection_of(p) == Selection::Buckets,
{
}

} // verus!
