use vstd::prelude::*;
use crate::{UNIT, EPSILON};
use crate::job::{Job, req_prefix, req_of_indices, lemma_req_prefix_monotone};

verus! {

/// The resource of `num_servers` servers, in fixed-point units.
pub open spec fn capacity(num_servers: usize) -> int {
    num_servers * UNIT
}

/// `sel` lists positions below `n` in strictly increasing order.
pub open spec fn increasing_below(sel: Seq<usize>, n: int) -> bool {
    &&& forall|i: int| 0 <= i < sel.len() ==> #[trigger] sel[i] < n
    &&& forall|i: int, j: int| 0 <= i < j < sel.len() ==> #[trigger] sel[i] < #[trigger] sel[j]
}

pub(crate) fn capacity_exec(num_servers: usize) -> (c: u128)
    ensures
        c == capacity(num_servers),
{
    assert(num_servers * UNIT <= 0xFFFF_FFFF_FFFF_FFFFu128 * 1_000_000_000u128) by (nonlinear_arith)
        requires num_servers <= 0xFFFF_FFFF_FFFF_FFFFu128, UNIT == 1_000_000_000u64;
    (num_servers as u128) * (UNIT as u128)
}

/// Each job adds at most `u64::MAX` to a prefix sum.
pub proof fn lemma_req_prefix_bound(q: Seq<Job>, n: int)
    requires
        0 <= n <= q.len(),
    ensures
        0 <= req_prefix(q, n) <= n * 0xFFFF_FFFF_FFFF_FFFF,
    decreases n,
{
    if n > 0 {
        lemma_req_prefix_bound(q, n - 1);
    }
}

/// The number of jobs, counted from position `i`, that a scan over `q` lets
/// in: it stops before the first job that would bring the requirement of the
/// prefix, plus `EPSILON`, up to `total`.
pub open spec fn scan_count_from(q: Seq<Job>, total: int, i: int) -> int
    decreases q.len() - i,
{
    if i < 0 || i >= q.len() {
        q.len() as int
    } else if EPSILON + req_prefix(q, i + 1) >= total {
        i
    } else {
        scan_count_from(q, total, i + 1)
    }
}

/// The length of the longest prefix of `q` that a scan lets in.
pub open spec fn scan_count(q: Seq<Job>, total: int) -> int {
    scan_count_from(q, total, 0)
}

proof fn lemma_scan_count_unique(q: Seq<Job>, total: int, r: int, i: int)
    requires
        0 <= i <= r <= q.len(),
        EPSILON + req_prefix(q, r) < total,
        r < q.len() ==> EPSILON + req_prefix(q, r + 1) >= total,
    ensures
        scan_count_from(q, total, i) == r,
    decreases r - i,
{
    if i < r {
        lemma_req_prefix_monotone(q, i + 1, r);
        lemma_scan_count_unique(q, total, r, i + 1);
    }
}

/// What a scan lets in fits, and the next job would not.
pub proof fn lemma_scan_count_spec(q: Seq<Job>, total: int)
    requires
        EPSILON < total,
        q.len() <= usize::MAX,
    ensures
        0 <= scan_count(q, total) <= q.len(),
        EPSILON + req_prefix(q, scan_count(q, total)) < total,
        increasing_below(Seq::new(scan_count(q, total) as nat, |i: int| i as usize), q.len() as int),
{
    lemma_scan_count_from(q, total, 0);
}

proof fn lemma_scan_count_from(q: Seq<Job>, total: int, i: int)
    requires
        0 <= i <= q.len(),
        EPSILON + req_prefix(q, i) < total,
    ensures
        i <= scan_count_from(q, total, i) <= q.len(),
        EPSILON + req_prefix(q, scan_count_from(q, total, i)) < total,
    decreases q.len() - i,
{
    if i < q.len() && EPSILON + req_prefix(q, i + 1) < total {
        lemma_scan_count_from(q, total, i + 1);
    }
}

/// Counts how many jobs at the front of the queue can be served at once:
/// the longest prefix whose service requirements, plus `EPSILON`, stay below
/// the capacity of `num_servers` servers.
pub fn qscan(vec: &Vec<Job>, num_servers: usize) -> (r: usize)
    requires
        num_servers >= 1,
    ensures
        r <= vec@.len(),
        EPSILON + req_prefix(vec@, r as int) < capacity(num_servers),
        r < vec@.len() ==> EPSILON + req_prefix(vec@, r + 1) >= capacity(num_servers),
        r == scan_count(vec@, capacity(num_servers)),
{
    let r = qscan_loop(vec, num_servers);
    proof {
        lemma_scan_count_unique(vec@, capacity(num_servers), r as int, 0);
    }
    r
}

fn qscan_loop(vec: &Vec<Job>, num_servers: usize) -> (r: usize)
    requires
        num_servers >= 1,
    ensures
        r <= vec@.len(),
        EPSILON + req_prefix(vec@, r as int) < capacity(num_servers),
        r < vec@.len() ==> EPSILON + req_prefix(vec@, r + 1) >= capacity(num_servers),
{
    let mut index: usize = 0;
    let total = capacity_exec(num_servers);
    let mut taken_service: u128 = EPSILON as u128;
    while taken_service < total
        invariant
            index <= vec@.len(),
            total == capacity(num_servers),
            num_servers >= 1,
            taken_service == EPSILON + req_prefix(vec@, index as int),
            index >= 1 ==> EPSILON + req_prefix(vec@, index - 1) < total,
        decreases vec@.len() - index + (if taken_service < total { 1int } else { 0int }),
    {
        if index >= vec.len() {
            return vec.len();
        }
        proof {
            lemma_req_prefix_bound(vec@, index as int);
            assert(index * 0xFFFF_FFFF_FFFF_FFFFu64 <= 0xFFFF_FFFF_FFFF_FFFFu64 * 0xFFFF_FFFF_FFFF_FFFFu64)
                by (nonlinear_arith)
                requires index <= 0xFFFF_FFFF_FFFF_FFFFu64;
        }
        taken_service = taken_service + vec[index].service_req as u128;
        index = index + 1;
    }
    index - 1
}

/// The positions `0, 1, .., num_take - 1`.
pub fn take_to_vec(num_take: usize) -> (v: Vec<usize>)
    ensures
        v@ == Seq::new(num_take as nat, |i: int| i as usize),
{
    let mut v: Vec<usize> = Vec::new();
    for i in 0..num_take
        invariant
            v@ == Seq::new(i as nat, |k: int| k as usize),
    {
        v.push(i);
        assert(v@ =~= Seq::new((i + 1) as nat, |k: int| k as usize));
    }
    v
}

/// Backfilling over the first `n` jobs: each job in turn is taken when the
/// requirements taken so far, plus its own, plus `EPSILON`, fit in `total`.
/// Gives the positions taken and the requirement they hold together.
pub open spec fn backfill_spec(q: Seq<Job>, total: int, n: int) -> (Seq<usize>, int)
    decreases n,
{
    if n <= 0 {
        (Seq::empty(), 0)
    } else {
        let (sel, taken) = backfill_spec(q, total, n - 1);
        let trial = taken + q[n - 1].service_req;
        if trial + EPSILON <= total {
            (sel.push((n - 1) as usize), trial)
        } else {
            (sel, taken)
        }
    }
}

/// Law: backfilling takes positions in increasing order, and the jobs it takes
/// hold together exactly the requirement it counts, which with `EPSILON`
/// fits in `total` as soon as anything is taken.
pub proof fn lemma_backfill_fits(q: Seq<Job>, total: int, n: int)
    requires
        0 <= n <= q.len(),
        n <= usize::MAX + 1,
    ensures
        increasing_below(backfill_spec(q, total, n).0, n),
        backfill_spec(q, total, n).1 == req_of_indices(q, backfill_spec(q, total, n).0),
        backfill_spec(q, total, n).0.len() > 0 ==> backfill_spec(q, total, n).1 + EPSILON <= total,
        0 <= backfill_spec(q, total, n).1,
    decreases n,
{
    if n > 0 {
        lemma_backfill_fits(q, total, n - 1);
        let (sel, taken) = backfill_spec(q, total, n - 1);
        let trial = taken + q[n - 1].service_req;
        if trial + EPSILON <= total {
            let s2 = sel.push((n - 1) as usize);
            assert(s2.drop_last() =~= sel);
            assert(s2.last() as int == n - 1);
            assert forall|i: int, j: int| 0 <= i < j < s2.len() implies #[trigger] s2[i] < #[trigger] s2[j] by {
                if j == s2.len() - 1 {
                    assert(s2[i] == sel[i]);
                }
            }
        }
    }
}

/// The requirement held by the positions of `sel` that come before position `i`.
pub open spec fn taken_before(q: Seq<Job>, sel: Seq<usize>, i: int) -> int
    decreases sel.len(),
{
    if sel.len() == 0 {
        0
    } else {
        taken_before(q, sel.drop_last(), i) + (if (sel.last() as int) < i {
            q[sel.last() as int].service_req as int
        } else {
            0int
        })
    }
}

proof fn lemma_taken_before_all(q: Seq<Job>, sel: Seq<usize>, i: int)
    requires
        forall|j: int| 0 <= j < sel.len() ==> #[trigger] sel[j] < i,
    ensures
        taken_before(q, sel, i) == req_of_indices(q, sel),
    decreases sel.len(),
{
    if sel.len() > 0 {
        lemma_taken_before_all(q, sel.drop_last(), i);
    }
}

proof fn lemma_taken_before_push(q: Seq<Job>, sel: Seq<usize>, x: usize, i: int)
    requires
        i <= x,
    ensures
        taken_before(q, sel.push(x), i) == taken_before(q, sel, i),
{
    assert(sel.push(x).drop_last() =~= sel);
}

/// Law: backfilling is greedy and maximal. Going front to back, a job is
/// taken exactly when its requirement, added to what the jobs taken before
/// it hold, plus `EPSILON`, fits in `total`; so every job left out does not
/// fit beside those taken before it.
pub proof fn lemma_backfill_greedy(q: Seq<Job>, total: int, n: int)
    requires
        0 <= n <= q.len(),
        n <= usize::MAX + 1,
    ensures
        forall|i: int| 0 <= i < n ==> (backfill_spec(q, total, n).0.contains(i as usize) <==> taken_before(
            q,
            backfill_spec(q, total, n).0,
            i,
        ) + (#[trigger] q[i]).service_req + EPSILON <= total),
    decreases n,
{
    if n > 0 {
        lemma_backfill_greedy(q, total, n - 1);
        lemma_backfill_fits(q, total, n - 1);
        lemma_backfill_fits(q, total, n);
        let (sel, taken) = backfill_spec(q, total, n - 1);
        let sel2 = backfill_spec(q, total, n).0;
        let trial = taken + q[n - 1].service_req;
        assert forall|i: int| 0 <= i < n implies (sel2.contains(i as usize) <==> taken_before(q, sel2, i)
            + (#[trigger] q[i]).service_req + EPSILON <= total) by {
            if trial + EPSILON <= total {
                assert(sel2 == sel.push((n - 1) as usize));
                lemma_taken_before_push(q, sel, (n - 1) as usize, i);
                if i < n - 1 {
                    if sel2.contains(i as usize) {
                        let w = choose|w: int| 0 <= w < sel2.len() && sel2[w] == i as usize;
                        if w < sel.len() {
                            assert(sel[w] == i as usize);
                        }
                    }
                    if sel.contains(i as usize) {
                        let w = choose|w: int| 0 <= w < sel.len() && sel[w] == i as usize;
                        assert(sel2[w] == i as usize);
                    }
                } else {
                    assert(sel2[sel.len() as int] == (n - 1) as usize);
                    lemma_taken_before_all(q, sel, n - 1);
                }
            } else {
                if i == n - 1 {
                    lemma_taken_before_all(q, sel, n - 1);
                    if sel.contains(i as usize) {
                        let w = choose|w: int| 0 <= w < sel.len() && sel[w] == i as usize;
                    }
                }
            }
        }
    }
}

/// Picks, front to back, every job whose requirement still fits beside those
/// already picked, leaving `EPSILON` to spare in the capacity of
/// `num_servers` servers.
pub fn backfill(vec: &Vec<Job>, num_servers: usize) -> (r: Vec<usize>)
    ensures
        r@ == backfill_spec(vec@, capacity(num_servers), vec@.len() as int).0,
{
    let total_resource = capacity_exec(num_servers);
    let mut taken_resource: u128 = 0;
    let mut indices: Vec<usize> = Vec::new();
    let n = vec.len();
    for ii in 0..n
        invariant
            n == vec@.len(),
            total_resource == capacity(num_servers),
            (indices@, taken_resource as int) == backfill_spec(vec@, capacity(num_servers), ii as int),
            taken_resource <= total_resource,
    {
        proof {
            lemma_backfill_fits(vec@, capacity(num_servers), ii as int);
        }
        let trial_take = taken_resource + vec[ii].service_req as u128;
        if trial_take <= total_resource {
            if trial_take + EPSILON as u128 <= total_resource {
                taken_resource = trial_take;
                indices.push(ii);
            }
        }
    }
    indices
}

} // verus!
