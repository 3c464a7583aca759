use vstd::prelude::*;
use crate::{EPSILON};
use crate::job::{Job, req_prefix, req_of_indices};
use crate::policy::{Policy, Selection, selection_of};
use crate::rate::{Rate, lambda_to_k, lambda_to_k_spec};
use crate::selection::{capacity, capacity_exec, scan_count, qscan, take_to_vec, backfill, backfill_spec, lemma_backfill_fits, lemma_backfill_greedy, taken_before, increasing_below, lemma_scan_count_spec};
use crate::job::lemma_req_prefix_monotone;
use crate::buckets::{eval_buckets, buckets_spec, lemma_buckets_fit};

verus! {

/// The number of buckets a bucket policy uses.
pub open spec fn bucket_count(policy: Policy, lambda: Rate) -> int {
    match policy {
        Policy::DB(k) => k as int,
        Policy::DBE => lambda_to_k_spec(lambda),
        _ => 0,
    }
}

/// What the selection of `policy` needs of its inputs: a scan and bucket
/// pairing need at least one server; bucket pairing needs an odd bucket
/// count, a well formed rate, and every requirement below the capacity.
pub open spec fn indices_allowed(q: Seq<Job>, num_servers: usize, policy: Policy, lambda: Rate) -> bool {
    match selection_of(policy) {
        Selection::Scan => num_servers >= 1,
        Selection::Backfill => true,
        Selection::Buckets => {
            &&& num_servers >= 1
            &&& forall|j: int| 0 <= j < q.len() ==> #[trigger] q[j].service_req < capacity(num_servers)
            &&& match policy {
                Policy::DB(k) => k % 2 == 1,
                Policy::DBE => lambda.wf(),
                _ => true,
            }
        },
    }
}

/// The positions of the jobs that `policy` serves in the queue `q`.
pub open spec fn selection_spec(q: Seq<Job>, num_servers: usize, policy: Policy, lambda: Rate) -> Seq<usize> {
    match selection_of(policy) {
        Selection::Scan => Seq::new(scan_count(q, capacity(num_servers)) as nat, |i: int| i as usize),
        Selection::Backfill => backfill_spec(q, capacity(num_servers), q.len() as int).0,
        Selection::Buckets => buckets_spec(q, bucket_count(policy, lambda), capacity(num_servers)),
    }
}

/// `sel` names positions below `n`, none twice.
pub open spec fn distinct_below(sel: Seq<usize>, n: int) -> bool {
    &&& forall|i: int| 0 <= i < sel.len() ==> #[trigger] sel[i] < n
    &&& forall|i: int, j: int| 0 <= i < sel.len() && 0 <= j < sel.len() && i != j ==> #[trigger] sel[i] != #[trigger] sel[j]
}

proof fn lemma_prefix_indices(q: Seq<Job>, r: int)
    requires
        0 <= r <= q.len(),
        q.len() <= usize::MAX,
    ensures
        req_of_indices(q, Seq::new(r as nat, |i: int| i as usize)) == req_prefix(q, r),
    decreases r,
{
    if r > 0 {
        lemma_prefix_indices(q, r - 1);
        let s = Seq::new(r as nat, |i: int| i as usize);
        assert(s.drop_last() =~= Seq::new((r - 1) as nat, |i: int| i as usize));
    }
}

/// Law: whatever the policy, the jobs it serves are distinct jobs of the
/// queue, and with at least one server their service requirements together
/// stay below the capacity of the servers.
pub proof fn lemma_selection_fits(q: Seq<Job>, num_servers: usize, policy: Policy, lambda: Rate)
    requires
        indices_allowed(q, num_servers, policy, lambda),
        q.len() <= usize::MAX,
    ensures
        distinct_below(selection_spec(q, num_servers, policy, lambda), q.len() as int),
        req_of_indices(q, selection_spec(q, num_servers, policy, lambda)) <= capacity(num_servers),
        num_servers >= 1 ==> req_of_indices(q, selection_spec(q, num_servers, policy, lambda)) < capacity(num_servers),
{
    let sel = selection_spec(q, num_servers, policy, lambda);
    match selection_of(policy) {
        Selection::Scan => {
            let r = scan_count(q, capacity(num_servers));
            crate::selection::lemma_scan_count_spec(q, capacity(num_servers));
            lemma_prefix_indices(q, r);
        },
        Selection::Backfill => {
            lemma_backfill_fits(q, capacity(num_servers), q.len() as int);
            assert(increasing_below(sel, q.len() as int));
            if sel.len() == 0 {
                assert(req_of_indices(q, sel) == 0);
            }
        },
        Selection::Buckets => {
            lemma_buckets_fit(q, bucket_count(policy, lambda), capacity(num_servers));
        },
    }
}

/// The positions of the jobs that `policy` serves in the sorted queue `vec`,
/// for `num_servers` servers and arrival rate `lambda`.
pub fn queue_indices(vec: &Vec<Job>, num_servers: usize, policy: Policy, lambda: Rate) -> (r: Vec<usize>)
    requires
        indices_allowed(vec@, num_servers, policy, lambda),
    ensures
        r@ == selection_spec(vec@, num_servers, policy, lambda),
{
    let u_lim = capacity_exec(num_servers);
    let l_lim: u128 = 0;
    match policy {
        Policy::FCFS | Policy::PLCFS | Policy::SRPT | Policy::LSF | Policy::MSF | Policy::SRA
        | Policy::LRA => take_to_vec(qscan(vec, num_servers)),
        Policy::FCFSB | Policy::SRPTB | Policy::PLCFSB | Policy::LSFB | Policy::MSFB
        | Policy::SRAB | Policy::LRAB => backfill(vec, num_servers),
        Policy::DB(k) => eval_buckets(vec, k, u_lim, l_lim),
        Policy::DBE => eval_buckets(vec, lambda_to_k(lambda), u_lim, l_lim),
    }
}

proof fn lemma_scan_count_stop(q: Seq<Job>, total: int, i: int)
    requires
        0 <= i <= q.len(),
    ensures
        crate::selection::scan_count_from(q, total, i) < q.len() ==> EPSILON + req_prefix(
            q,
            crate::selection::scan_count_from(q, total, i) + 1,
        ) >= total,
    decreases q.len() - i,
{
    if i < q.len() && EPSILON + req_prefix(q, i + 1) < total {
        lemma_scan_count_stop(q, total, i + 1);
    }
}

/// Law: a policy without backfilling (FCFS, PLCFS, SRPT, LSF, MSF, SRA, LRA)
/// serves the longest prefix of the queue whose requirement, plus `EPSILON`,
/// stays below the capacity: the next job would not fit.
pub proof fn lemma_scan_policies_serve_prefix(q: Seq<Job>, num_servers: usize, p: Policy, lambda: Rate)
    requires
        p == Policy::FCFS || p == Policy::PLCFS || p == Policy::SRPT || p == Policy::LSF
            || p == Policy::MSF || p == Policy::SRA || p == Policy::LRA,
        num_servers >= 1,
        q.len() <= usize::MAX,
    ensures
        ({
            let sel = selection_spec(q, num_servers, p, lambda);
            &&& sel.len() <= q.len()
            &&& forall|i: int| 0 <= i < sel.len() ==> #[trigger] sel[i] == i
            &&& EPSILON + req_prefix(q, sel.len() as int) < capacity(num_servers)
            &&& sel.len() < q.len() ==> EPSILON + req_prefix(q, sel.len() + 1int) >= capacity(num_servers)
        }),
{
    lemma_scan_count_spec(q, capacity(num_servers));
    lemma_scan_count_stop(q, capacity(num_servers), 0);
}

/// Law: a backfilling policy (FCFSB, PLCFSB, SRPTB, LSFB, MSFB, SRAB, LRAB)
/// serves, in increasing position, exactly the jobs that fit beside those
/// served before them: a later job that fits is served, and a job left out
/// does not fit.
pub proof fn lemma_backfill_policies_backfill(q: Seq<Job>, num_servers: usize, p: Policy, lambda: Rate)
    requires
        p == Policy::FCFSB || p == Policy::PLCFSB || p == Policy::SRPTB || p == Policy::LSFB
            || p == Policy::MSFB || p == Policy::SRAB || p == Policy::LRAB,
        q.len() <= usize::MAX,
    ensures
        selection_spec(q, num_servers, p, lambda) == backfill_spec(q, capacity(num_servers), q.len() as int).0,
        increasing_below(selection_spec(q, num_servers, p, lambda), q.len() as int),
        forall|i: int| 0 <= i < q.len() ==> (selection_spec(q, num_servers, p, lambda).contains(i as usize)
            <==> taken_before(q, selection_spec(q, num_servers, p, lambda), i) + (#[trigger] q[i]).service_req
            + EPSILON <= capacity(num_servers)),
{
    lemma_backfill_fits(q, capacity(num_servers), q.len() as int);
    lemma_backfill_greedy(q, capacity(num_servers), q.len() as int);
}

/// Law: the bucket policies pair buckets: DB(k) with `k` buckets, DBE with
/// the bucket count of the arrival rate.
pub proof fn lemma_bucket_policies_pair(q: Seq<Job>, num_servers: usize, p: Policy, lambda: Rate)
    requires
        p is DB || p == Policy::DBE,
    ensures
        p matches Policy::DB(k) ==> selection_spec(q, num_servers, p, lambda) == buckets_spec(q, k as int, capacity(num_servers)),
        p == Policy::DBE ==> selection_spec(q, num_servers, p, lambda) == buckets_spec(q, lambda_to_k_spec(lambda), capacity(num_servers)),
{
}

} // verus!
