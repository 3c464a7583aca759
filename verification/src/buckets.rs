use vstd::prelude::*;
use crate::job::{Job, req_of_indices};

verus! {

/// The bucket of a job with requirement `req` when `width` is split into `k`
/// buckets of equal size: `floor(req / (width / k))`.
pub open spec fn bucket_of(req: int, k: int, width: int) -> int {
    (req * k) / width
}

/// How many of the first `n` jobs of `q` fall in bucket `b`.
pub open spec fn count_in_bucket(q: Seq<Job>, k: int, width: int, b: int, n: int) -> int
    decreases n,
{
    if n <= 0 {
        0
    } else {
        count_in_bucket(q, k, width, b, n - 1) + (if bucket_of(q[n - 1].service_req as int, k, width) == b {
            1int
        } else {
            0int
        })
    }
}

/// The score of bucket `b`: the square of the number of jobs in it.
pub open spec fn score(q: Seq<Job>, k: int, width: int, b: int) -> int {
    let c = count_in_bucket(q, k, width, b, q.len() as int);
    c * c
}

/// The best of the first `m` bucket pairs `(jj, k - jj - 2)`: the first pair
/// whose score sum beats every earlier one, with that sum; `(0, 0)` when
/// none scores above zero.
pub open spec fn best_pair(q: Seq<Job>, k: int, width: int, m: int) -> (int, int)
    decreases m,
{
    if m <= 0 {
        (0, 0)
    } else {
        let (t, best) = best_pair(q, k, width, m - 1);
        let s = score(q, k, width, m - 1) + score(q, k, width, k - (m - 1) - 2);
        if s > best {
            (m - 1, s)
        } else {
            (t, best)
        }
    }
}

/// Whether the last bucket alone beats the best pair.
pub open spec fn last_wins(q: Seq<Job>, k: int, width: int) -> bool {
    score(q, k, width, k - 1) > best_pair(q, k, width, (k - 1) / 2).1
}

/// The bucket that wins.
pub open spec fn target_bucket(q: Seq<Job>, k: int, width: int) -> int {
    if last_wins(q, k, width) {
        k - 1
    } else {
        best_pair(q, k, width, (k - 1) / 2).0
    }
}

/// The first position at or after `i` whose job is in bucket `b`.
pub open spec fn first_in_bucket(q: Seq<Job>, k: int, width: int, b: int, i: int) -> Option<int>
    decreases q.len() - i,
{
    if i < 0 || i >= q.len() {
        None
    } else if bucket_of(q[i].service_req as int, k, width) == b {
        Some(i)
    } else {
        first_in_bucket(q, k, width, b, i + 1)
    }
}

pub open spec fn option_to_seq(o: Option<int>) -> Seq<usize> {
    match o {
        Some(i) => seq![i as usize],
        None => Seq::empty(),
    }
}

/// The jobs picked by bucket pairing: the first job of the winning bucket,
/// and, when a pair won, the first job of its partner bucket `k - target - 2`.
pub open spec fn buckets_spec(q: Seq<Job>, k: int, width: int) -> Seq<usize> {
    let t = target_bucket(q, k, width);
    let first = option_to_seq(first_in_bucket(q, k, width, t, 0));
    if last_wins(q, k, width) {
        first
    } else {
        first + option_to_seq(first_in_bucket(q, k, width, k - t - 2, 0))
    }
}

proof fn lemma_bucket_range(req: int, k: int, width: int)
    requires
        0 <= req < width,
        k >= 1,
    ensures
        0 <= bucket_of(req, k, width) < k,
{
    assert(req * k < width * k) by (nonlinear_arith)
        requires 0 <= req < width, k >= 1;
    assert(0 <= req * k) by (nonlinear_arith)
        requires 0 <= req, k >= 1;
    assert((req * k) / width < k) by (nonlinear_arith)
        requires req * k < width * k, width > 0, req * k >= 0;
    assert((req * k) / width >= 0) by (nonlinear_arith)
        requires req * k >= 0, width > 0;
}

proof fn lemma_two_counts(q: Seq<Job>, k: int, width: int, b1: int, b2: int, n: int)
    requires
        b1 != b2,
        0 <= n,
    ensures
        0 <= count_in_bucket(q, k, width, b1, n),
        0 <= count_in_bucket(q, k, width, b2, n),
        count_in_bucket(q, k, width, b1, n) + count_in_bucket(q, k, width, b2, n) <= n,
    decreases n,
{
    if n > 0 {
        lemma_two_counts(q, k, width, b1, b2, n - 1);
    }
}

proof fn lemma_count_all(q: Seq<Job>, k: int, width: int, b: int, n: int)
    requires
        0 <= n <= q.len(),
        forall|j: int| 0 <= j < n ==> bucket_of(#[trigger] q[j].service_req as int, k, width) == b,
    ensures
        count_in_bucket(q, k, width, b, n) == n,
    decreases n,
{
    if n > 0 {
        lemma_count_all(q, k, width, b, n - 1);
    }
}

proof fn lemma_first_in_bucket_found(q: Seq<Job>, k: int, width: int, b: int, i: int)
    ensures
        first_in_bucket(q, k, width, b, i) matches Some(j) ==> (i <= j < q.len() && bucket_of(
            q[j].service_req as int,
            k,
            width,
        ) == b),
    decreases q.len() - i,
{
    if 0 <= i < q.len() && bucket_of(q[i].service_req as int, k, width) != b {
        lemma_first_in_bucket_found(q, k, width, b, i + 1);
    }
}

proof fn lemma_best_pair_range(q: Seq<Job>, k: int, width: int, m: int)
    requires
        0 <= m,
    ensures
        0 <= best_pair(q, k, width, m).0,
        m > 0 ==> best_pair(q, k, width, m).0 < m,
        best_pair(q, k, width, m).1 >= 0,
    decreases m,
{
    if m > 0 {
        lemma_best_pair_range(q, k, width, m - 1);
    }
}

proof fn lemma_bucket_bound(req: int, k: int, width: int, b: int)
    requires
        bucket_of(req, k, width) == b,
        width > 0,
        req >= 0,
        k >= 1,
    ensures
        req * k < (b + 1) * width,
{
    assert(req * k < ((req * k) / width + 1) * width) by (nonlinear_arith)
        requires width > 0, req * k >= 0;
}

/// Law: bucket pairing picks at most two distinct jobs, both in the queue,
/// whose service requirements together stay below the width of the buckets.
pub proof fn lemma_buckets_fit(q: Seq<Job>, k: int, width: int)
    requires
        k >= 1,
        k % 2 == 1,
        width > 0,
        q.len() <= usize::MAX,
        forall|j: int| 0 <= j < q.len() ==> #[trigger] q[j].service_req < width,
    ensures
        buckets_spec(q, k, width).len() <= 2,
        forall|i: int| 0 <= i < buckets_spec(q, k, width).len() ==> #[trigger] buckets_spec(q, k, width)[i] < q.len(),
        buckets_spec(q, k, width).len() == 2 ==> buckets_spec(q, k, width)[0] != buckets_spec(q, k, width)[1],
        req_of_indices(q, buckets_spec(q, k, width)) < width,
{
    let t = target_bucket(q, k, width);
    lemma_best_pair_range(q, k, width, (k - 1) / 2);
    lemma_first_in_bucket_found(q, k, width, t, 0);
    lemma_first_in_bucket_found(q, k, width, k - t - 2, 0);
    let r = buckets_spec(q, k, width);
    let f1 = first_in_bucket(q, k, width, t, 0);
    let f2 = first_in_bucket(q, k, width, k - t - 2, 0);
    if let Some(j1) = f1 {
        let b1 = bucket_of(q[j1].service_req as int, k, width);
        lemma_bucket_bound(q[j1].service_req as int, k, width, b1);
    }
    if let Some(j2) = f2 {
        let b2 = bucket_of(q[j2].service_req as int, k, width);
        lemma_bucket_bound(q[j2].service_req as int, k, width, b2);
    }
    if last_wins(q, k, width) {
        if let Some(j1) = f1 {
            assert(r =~= seq![j1 as usize]);
            assert(r.drop_last() =~= Seq::<usize>::empty());
            assert(req_of_indices(q, r.drop_last()) == 0);
            assert(r.last() as int == j1);
            assert(req_of_indices(q, r) == q[j1].service_req);
        } else {
            assert(r =~= Seq::<usize>::empty());
        }
    } else {
        match (f1, f2) {
            (Some(j1), Some(j2)) => {
                assert(r =~= seq![j1 as usize, j2 as usize]);
                assert(r.drop_last() =~= seq![j1 as usize]);
                assert(r.drop_last().drop_last() =~= Seq::<usize>::empty());
                assert(req_of_indices(q, r.drop_last().drop_last()) == 0);
                assert(r.drop_last().last() as int == j1);
                assert(r.last() as int == j2);
                assert(req_of_indices(q, r.drop_last()) == q[j1].service_req);
                assert(req_of_indices(q, r) == q[j1].service_req + q[j2].service_req);
                let x = q[j1].service_req as int;
                let y = q[j2].service_req as int;
                assert(x * k + y * k < (t + 1) * width + (k - t - 2 + 1) * width);
                assert((t + 1) * width + (k - t - 2 + 1) * width == k * width) by (nonlinear_arith);
                assert(x + y < width) by (nonlinear_arith)
                    requires x * k + y * k < k * width, k >= 1;
                assert(k - t - 2 != t);
                assert(j1 != j2);
            },
            (Some(j1), None) => {
                assert(r =~= seq![j1 as usize]);
                assert(r.drop_last() =~= Seq::<usize>::empty());
                assert(req_of_indices(q, r.drop_last()) == 0);
                assert(r.last() as int == j1);
            },
            (None, Some(j2)) => {
                assert(r =~= seq![j2 as usize]);
                assert(r.drop_last() =~= Seq::<usize>::empty());
                assert(req_of_indices(q, r.drop_last()) == 0);
                assert(r.last() as int == j2);
            },
            (None, None) => {
                assert(r =~= Seq::<usize>::empty());
            },
        }
    }
}

/// Law: bucket `b` holds exactly the requirements in
/// `[b * width / k, (b + 1) * width / k)`, and a requirement below `width`
/// falls in one of the buckets `0 .. k`.
pub proof fn lemma_bucket_interval(req: int, k: int, width: int)
    requires
        0 <= req,
        k >= 1,
        width > 0,
    ensures
        bucket_of(req, k, width) * width <= req * k < (bucket_of(req, k, width) + 1) * width,
        req < width ==> 0 <= bucket_of(req, k, width) < k,
{
    let x = req * k;
    assert(req * k >= 0) by (nonlinear_arith) requires req >= 0, k >= 1;
    vstd::arithmetic::div_mod::lemma_fundamental_div_mod(x, width);
    vstd::arithmetic::div_mod::lemma_mod_pos_bound(x, width);
    let c = x / width;
    let r = x % width;
    assert(c * width <= x < (c + 1) * width) by (nonlinear_arith)
        requires x == width * c + r, 0 <= r < width;
    if req < width {
        lemma_bucket_range(req, k, width);
    }
}

/// The positions among the first `n` whose job falls in bucket `b`.
pub open spec fn bucket_members(q: Seq<Job>, k: int, width: int, b: int, n: int) -> Set<int> {
    Set::new(|j: int| 0 <= j < n && bucket_of(q[j].service_req as int, k, width) == b)
}

/// Law: `count_in_bucket` counts the jobs in bucket `b`, and the score of a
/// bucket is the square of the number of jobs in it.
pub proof fn lemma_bucket_score(q: Seq<Job>, k: int, width: int, b: int, n: int)
    requires
        0 <= n,
    ensures
        bucket_members(q, k, width, b, n).finite(),
        count_in_bucket(q, k, width, b, n) == bucket_members(q, k, width, b, n).len(),
        n == q.len() ==> score(q, k, width, b) == bucket_members(q, k, width, b, n).len() * bucket_members(q, k, width, b, n).len(),
    decreases n,
{
    if n == 0 {
        assert(bucket_members(q, k, width, b, 0) =~= Set::<int>::empty());
    } else {
        lemma_bucket_score(q, k, width, b, n - 1);
        let prev = bucket_members(q, k, width, b, n - 1);
        let cur = bucket_members(q, k, width, b, n);
        if bucket_of(q[n - 1].service_req as int, k, width) == b {
            assert(cur =~= prev.insert(n - 1));
            assert(!prev.contains(n - 1));
        } else {
            assert(cur =~= prev);
        }
    }
}

/// The score sum of the bucket pair `(jj, k - jj - 2)`.
pub open spec fn pair_score(q: Seq<Job>, k: int, width: int, jj: int) -> int {
    score(q, k, width, jj) + score(q, k, width, k - jj - 2)
}

proof fn lemma_best_pair_optimal(q: Seq<Job>, k: int, width: int, m: int)
    requires
        0 <= m,
    ensures
        forall|jj: int| 0 <= jj < m ==> #[trigger] pair_score(q, k, width, jj) <= best_pair(q, k, width, m).1,
        best_pair(q, k, width, m).1 == 0 ==> best_pair(q, k, width, m).0 == 0,
        best_pair(q, k, width, m).1 > 0 ==> {
            let t = best_pair(q, k, width, m).0;
            &&& 0 <= t < m
            &&& pair_score(q, k, width, t) == best_pair(q, k, width, m).1
            &&& forall|jj: int| 0 <= jj < t ==> #[trigger] pair_score(q, k, width, jj) < best_pair(q, k, width, m).1
        },
        best_pair(q, k, width, m).1 >= 0,
    decreases m,
{
    if m > 0 {
        lemma_best_pair_optimal(q, k, width, m - 1);
    }
}

proof fn lemma_first_in_bucket_first(q: Seq<Job>, k: int, width: int, b: int, i: int)
    requires
        0 <= i,
    ensures
        first_in_bucket(q, k, width, b, i) matches Some(j) ==> forall|l: int| i <= l < j ==> bucket_of(
            (#[trigger] q[l]).service_req as int,
            k,
            width,
        ) != b,
        first_in_bucket(q, k, width, b, i) is None ==> forall|l: int| i <= l < q.len() ==> bucket_of(
            (#[trigger] q[l]).service_req as int,
            k,
            width,
        ) != b,
    decreases q.len() - i,
{
    if 0 <= i < q.len() && bucket_of(q[i].service_req as int, k, width) != b {
        lemma_first_in_bucket_first(q, k, width, b, i + 1);
    }
}

/// Law: bucket pairing chooses the best bucket pair `(jj, k - jj - 2)` by
/// score sum (the first of the best, and pair 0 when every pair scores 0),
/// unless the last bucket alone scores higher than every pair; it then serves
/// the first job of each chosen bucket, and leaves out a chosen bucket only
/// when no job is in it.
pub proof fn lemma_buckets_choice(q: Seq<Job>, k: int, width: int)
    requires
        k >= 1,
        k % 2 == 1,
        width > 0,
        q.len() <= usize::MAX,
    ensures
        ({
            let m = (k - 1) / 2;
            let best = best_pair(q, k, width, m).1;
            let t = target_bucket(q, k, width);
            let r = buckets_spec(q, k, width);
            &&& forall|jj: int| 0 <= jj < m ==> #[trigger] pair_score(q, k, width, jj) <= best
            &&& last_wins(q, k, width) <==> score(q, k, width, k - 1) > best
            &&& last_wins(q, k, width) ==> t == k - 1
            &&& !last_wins(q, k, width) && best == 0 ==> t == 0
            &&& !last_wins(q, k, width) && best > 0 ==> {
                &&& 0 <= t < m
                &&& pair_score(q, k, width, t) == best
                &&& forall|jj: int| 0 <= jj < t ==> #[trigger] pair_score(q, k, width, jj) < best
            }
            &&& forall|i: int| 0 <= i < r.len() ==> {
                let b = bucket_of(q[r[i] as int].service_req as int, k, width);
                &&& (#[trigger] r[i]) < q.len()
                &&& (b == t || (!last_wins(q, k, width) && b == k - t - 2))
                &&& forall|l: int| 0 <= l < r[i] ==> bucket_of((#[trigger] q[l]).service_req as int, k, width) != b
            }
            &&& (exists|j: int| 0 <= j < q.len() && bucket_of((#[trigger] q[j]).service_req as int, k, width) == t)
                ==> (exists|i: int| 0 <= i < r.len() && bucket_of(q[#[trigger] r[i] as int].service_req as int, k, width) == t)
            &&& (!last_wins(q, k, width) && exists|j: int| 0 <= j < q.len() && bucket_of((#[trigger] q[j]).service_req as int, k, width) == k - t - 2)
                ==> (exists|i: int| 0 <= i < r.len() && bucket_of(q[#[trigger] r[i] as int].service_req as int, k, width) == k - t - 2)
        }),
{
    let m = (k - 1) / 2;
    lemma_best_pair_optimal(q, k, width, m);
    let t = target_bucket(q, k, width);
    let p = k - t - 2;
    lemma_first_in_bucket_found(q, k, width, t, 0);
    lemma_first_in_bucket_found(q, k, width, p, 0);
    lemma_first_in_bucket_first(q, k, width, t, 0);
    lemma_first_in_bucket_first(q, k, width, p, 0);
    let f1 = first_in_bucket(q, k, width, t, 0);
    let f2 = first_in_bucket(q, k, width, p, 0);
    let r = buckets_spec(q, k, width);
    let s1 = option_to_seq(f1);
    if let Some(j1) = f1 {
        assert(s1[0] as int == j1);
    }
    if !last_wins(q, k, width) {
        let s2 = option_to_seq(f2);
        assert(r == s1 + s2);
        if let Some(j2) = f2 {
            assert(s2[0] as int == j2);
            assert(r[s1.len() as int] == s2[0]);
        }
    }
    if exists|j: int| 0 <= j < q.len() && bucket_of((#[trigger] q[j]).service_req as int, k, width) == t {
        let j = choose|j: int| 0 <= j < q.len() && bucket_of((#[trigger] q[j]).service_req as int, k, width) == t;
        assert(f1 is Some);
        let j1 = f1.unwrap();
        assert(r[0] as int == j1);
        assert(bucket_of(q[r[0] as int].service_req as int, k, width) == t);
    }
    if !last_wins(q, k, width) && exists|j: int| 0 <= j < q.len() && bucket_of((#[trigger] q[j]).service_req as int, k, width) == p {
        let j = choose|j: int| 0 <= j < q.len() && bucket_of((#[trigger] q[j]).service_req as int, k, width) == p;
        assert(f2 is Some);
        let j2 = f2.unwrap();
        let idx = s1.len() as int;
        assert(r[idx] as int == j2);
        assert(bucket_of(q[r[idx] as int].service_req as int, k, width) == p);
    }
}

} // verus!

verus! {

fn bucket_exec(req: u64, k: usize, width: u128) -> (b: usize)
    requires
        width > 0,
        k >= 1,
        req < width,
    ensures
        b == bucket_of(req as int, k as int, width as int),
        b < k,
{
    proof {
        lemma_bucket_range(req as int, k as int, width as int);
    }
    assert(req * k <= 0xFFFF_FFFF_FFFF_FFFFu128 * 0xFFFF_FFFF_FFFF_FFFFu128) by (nonlinear_arith)
        requires req <= 0xFFFF_FFFF_FFFF_FFFFu64, k <= 0xFFFF_FFFF_FFFF_FFFFu64;
    let prod = (req as u128) * (k as u128);
    (prod / width) as usize
}

fn first_with_bucket(bucket_numbers: &Vec<usize>, target: usize, Ghost(q): Ghost<Seq<Job>>, Ghost(k): Ghost<int>, Ghost(width): Ghost<int>) -> (r: Option<usize>)
    requires
        bucket_numbers@.len() == q.len(),
        forall|j: int| 0 <= j < q.len() ==> #[trigger] bucket_numbers@[j] == bucket_of(q[j].service_req as int, k, width),
    ensures
        match r {
            Some(j) => first_in_bucket(q, k, width, target as int, 0) == Some(j as int),
            None => first_in_bucket(q, k, width, target as int, 0) is None,
        },
{
    let n = bucket_numbers.len();
    let mut kk: usize = 0;
    while kk < n
        invariant
            n == q.len(),
            kk <= n,
            bucket_numbers@.len() == q.len(),
            forall|j: int| 0 <= j < q.len() ==> #[trigger] bucket_numbers@[j] == bucket_of(q[j].service_req as int, k, width),
            first_in_bucket(q, k, width, target as int, 0) == first_in_bucket(q, k, width, target as int, kk as int),
        decreases n - kk,
    {
        if bucket_numbers[kk] == target {
            return Some(kk);
        }
        kk = kk + 1;
    }
    None
}

/// Sorts the jobs into `k` buckets of equal width over `[lower, upper)` by
/// service requirement, scores each bucket by the square of its size, and
/// picks the first job of each bucket of the pair `(jj, k - jj - 2)` with the
/// best score sum (a later pair wins only with a strictly greater sum), or
/// the first job of the last bucket when it alone scores higher than that.
pub fn eval_buckets(vec: &Vec<Job>, k: usize, upper: u128, lower: u128) -> (r: Vec<usize>)
    requires
        k % 2 == 1,
        lower < upper,
        forall|j: int| 0 <= j < vec@.len() ==> #[trigger] vec@[j].service_req < upper - lower,
    ensures
        r@ == buckets_spec(vec@, k as int, upper - lower),
{
    let ghost q = vec@;
    let ghost kk = k as int;
    let width = upper - lower;
    let ghost w = width as int;
    let n = vec.len();

    let mut bucket_numbers: Vec<usize> = Vec::new();
    for i in 0..n
        invariant
            n == q.len(),
            q == vec@,
            kk == k as int,
            w == width as int,
            width == upper - lower,
            width > 0,
            k % 2 == 1,
            forall|j: int| 0 <= j < q.len() ==> #[trigger] q[j].service_req < width,
            bucket_numbers@.len() == i,
            forall|j: int| 0 <= j < i ==> #[trigger] bucket_numbers@[j] == bucket_of(q[j].service_req as int, kk, w),
            forall|j: int| 0 <= j < i ==> #[trigger] bucket_numbers@[j] < k,
    {
        let b = bucket_exec(vec[i].service_req, k, width);
        bucket_numbers.push(b);
    }

    let mut bucket_counts: Vec<usize> = Vec::new();
    for b in 0..k
        invariant
            bucket_counts@.len() == b,
            forall|c: int| 0 <= c < b ==> #[trigger] bucket_counts@[c] == 0,
    {
        bucket_counts.push(0);
    }
    for ii in 0..n
        invariant
            n == q.len(),
            bucket_counts@.len() == k,
            bucket_numbers@.len() == n,
            forall|j: int| 0 <= j < n ==> #[trigger] bucket_numbers@[j] == bucket_of(q[j].service_req as int, kk, w),
            forall|j: int| 0 <= j < n ==> #[trigger] bucket_numbers@[j] < k,
            forall|c: int| 0 <= c < k ==> #[trigger] bucket_counts@[c] == count_in_bucket(q, kk, w, c, ii as int),
    {
        let b = bucket_numbers[ii];
        proof {
            lemma_two_counts(q, kk, w, b as int, b as int + 1, ii as int);
        }
        let c = bucket_counts[b];
        bucket_counts.set(b, c + 1);
    }

    let mut bucket_scores: Vec<u128> = Vec::new();
    for b in 0..k
        invariant
            n == q.len(),
            bucket_counts@.len() == k,
            forall|c: int| 0 <= c < k ==> #[trigger] bucket_counts@[c] == count_in_bucket(q, kk, w, c, n as int),
            bucket_scores@.len() == b,
            forall|c: int| 0 <= c < b ==> #[trigger] bucket_scores@[c] == score(q, kk, w, c),
    {
        let c = bucket_counts[b];
        assert(c * c <= 0xFFFF_FFFF_FFFF_FFFFu128 * 0xFFFF_FFFF_FFFF_FFFFu128) by (nonlinear_arith)
            requires c <= 0xFFFF_FFFF_FFFF_FFFFu64;
        bucket_scores.push((c as u128) * (c as u128));
    }

    let mut target: usize = 0;
    let mut sitting_best: u128 = 0;
    let pairs = (k - 1) / 2;
    for jj in 0..pairs
        invariant
            n == q.len(),
            pairs == (k - 1) / 2,
            k % 2 == 1,
            kk == k as int,
            bucket_scores@.len() == k,
            forall|c: int| 0 <= c < k ==> #[trigger] bucket_scores@[c] == score(q, kk, w, c),
            (target as int, sitting_best as int) == best_pair(q, kk, w, jj as int),
    {
        let partner = k - jj - 2;
        proof {
            lemma_two_counts(q, kk, w, jj as int, partner as int, n as int);
            let c1 = count_in_bucket(q, kk, w, jj as int, n as int);
            let c2 = count_in_bucket(q, kk, w, partner as int, n as int);
            assert(c1 * c1 + c2 * c2 <= (c1 + c2) * (c1 + c2)) by (nonlinear_arith)
                requires c1 >= 0, c2 >= 0;
            assert((c1 + c2) * (c1 + c2) <= 0xFFFF_FFFF_FFFF_FFFFu128 * 0xFFFF_FFFF_FFFF_FFFFu128) by (nonlinear_arith)
                requires 0 <= c1 + c2 <= 0xFFFF_FFFF_FFFF_FFFFu64;
        }
        let temp_new = bucket_scores[jj] + bucket_scores[partner];
        if temp_new > sitting_best {
            sitting_best = temp_new;
            target = jj;
        }
    }

    let mut last = false;
    if bucket_scores[k - 1] > sitting_best {
        target = k - 1;
        last = true;
    }
    proof {
        lemma_best_pair_range(q, kk, w, pairs as int);
    }
    assert(target as int == target_bucket(q, kk, w));
    assert(last == last_wins(q, kk, w));

    let mut ret_indices: Vec<usize> = Vec::new();
    match first_with_bucket(&bucket_numbers, target, Ghost(q), Ghost(kk), Ghost(w)) {
        Some(j) => ret_indices.push(j),
        None => {},
    }
    if !last && n > 0 {
        proof {
            if k == 1 {
                assert forall|j: int| 0 <= j < q.len() implies bucket_of(#[trigger] q[j].service_req as int, kk, w) == 0 by {
                    lemma_bucket_range(q[j].service_req as int, kk, w);
                }
                lemma_count_all(q, kk, w, 0, n as int);
                assert(score(q, kk, w, 0) == n * n);
                assert(n * n > 0) by (nonlinear_arith) requires n > 0;
            }
        }
        let partner = k - target - 2;
        match first_with_bucket(&bucket_numbers, partner, Ghost(q), Ghost(kk), Ghost(w)) {
            Some(j) => ret_indices.push(j),
            None => {},
        }
    }
    proof {
        if !last && n == 0 {
            assert(first_in_bucket(q, kk, w, kk - target - 2, 0) is None);
        }
    }
    assert(ret_indices@ =~= buckets_spec(q, kk, w));
    ret_indices
}

} // verus!
