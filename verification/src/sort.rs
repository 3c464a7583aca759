use vstd::prelude::*;
use crate::job::Job;
use crate::policy::{Policy, key_of, lemma_key_arrival_first, lemma_key_arrival_last, lemma_key_least_remaining, lemma_key_least_service, lemma_key_most_service, lemma_key_smallest_area, lemma_key_largest_area};

verus! {

/// Where `x` goes in the sorted `s`: before the first job whose key is
/// greater than the key of `x`, so after every job with an equal key.
pub open spec fn insert_pos(s: Seq<Job>, p: Policy, x: Job) -> int
    decreases s.len(),
{
    if s.len() == 0 {
        0
    } else if key_of(p, s[0]) > key_of(p, x) {
        0
    } else {
        1 + insert_pos(s.drop_first(), p, x)
    }
}

/// `s` with `x` inserted at `insert_pos`.
pub open spec fn insert_sorted(s: Seq<Job>, p: Policy, x: Job) -> Seq<Job> {
    s.insert(insert_pos(s, p, x), x)
}

/// The stable sort of `s` by the key of `p`: each job in turn is placed after
/// every earlier job whose key is not greater.
pub open spec fn sort_by_key(s: Seq<Job>, p: Policy) -> Seq<Job>
    decreases s.len(),
{
    if s.len() == 0 {
        s
    } else {
        insert_sorted(sort_by_key(s.drop_last(), p), p, s.last())
    }
}

/// `s` is in nondecreasing order of the key of `p`.
pub open spec fn sorted_by_key(s: Seq<Job>, p: Policy) -> bool {
    forall|i: int, j: int| 0 <= i < j < s.len() ==> key_of(p, #[trigger] s[i]) <= key_of(p, #[trigger] s[j])
}

proof fn lemma_insert_pos_bounds(s: Seq<Job>, p: Policy, x: Job)
    ensures
        0 <= insert_pos(s, p, x) <= s.len(),
        forall|i: int| 0 <= i < insert_pos(s, p, x) ==> key_of(p, #[trigger] s[i]) <= key_of(p, x),
        insert_pos(s, p, x) < s.len() ==> key_of(p, s[insert_pos(s, p, x)]) > key_of(p, x),
    decreases s.len(),
{
    if s.len() > 0 && key_of(p, s[0]) <= key_of(p, x) {
        lemma_insert_pos_bounds(s.drop_first(), p, x);
        assert forall|i: int| 0 <= i < insert_pos(s, p, x) implies key_of(p, #[trigger] s[i]) <= key_of(p, x) by {
            if i > 0 {
                assert(s[i] == s.drop_first()[i - 1]);
            }
        }
    }
}

proof fn lemma_insert_sorted_keeps_order(s: Seq<Job>, p: Policy, x: Job)
    requires
        sorted_by_key(s, p),
    ensures
        sorted_by_key(insert_sorted(s, p, x), p),
        insert_sorted(s, p, x).len() == s.len() + 1,
        insert_sorted(s, p, x).to_multiset() == s.to_multiset().insert(x),
{
    lemma_insert_pos_bounds(s, p, x);
    let k = insert_pos(s, p, x);
    let r = insert_sorted(s, p, x);
    assert forall|i: int, j: int| 0 <= i < j < r.len() implies key_of(p, #[trigger] r[i]) <= key_of(p, #[trigger] r[j]) by {
        if j < k {
            assert(r[i] == s[i] && r[j] == s[j]);
        } else if j == k {
            assert(r[i] == s[i]);
        } else if i < k {
            assert(r[i] == s[i] && r[j] == s[j - 1]);
        } else if i == k {
            assert(r[j] == s[j - 1]);
            assert(key_of(p, s[k]) <= key_of(p, s[j - 1]));
        } else {
            assert(r[i] == s[i - 1] && r[j] == s[j - 1]);
        }
    }
    vstd::seq_lib::to_multiset_insert(s, k, x);
}

/// Law: the stable sort yields the queue in nondecreasing key order.
pub proof fn lemma_sort_is_sorted(s: Seq<Job>, p: Policy)
    ensures
        sorted_by_key(sort_by_key(s, p), p),
    decreases s.len(),
{
    if s.len() > 0 {
        lemma_sort_is_sorted(s.drop_last(), p);
        lemma_insert_sorted_keeps_order(sort_by_key(s.drop_last(), p), p, s.last());
    }
}

/// Law: the stable sort neither loses nor adds a job.
pub proof fn lemma_sort_is_permutation(s: Seq<Job>, p: Policy)
    ensures
        sort_by_key(s, p).len() == s.len(),
        sort_by_key(s, p).to_multiset() == s.to_multiset(),
    decreases s.len(),
{
    broadcast use vstd::seq_lib::group_to_multiset_ensures;
    if s.len() > 0 {
        lemma_sort_is_sorted(s.drop_last(), p);
        lemma_sort_is_permutation(s.drop_last(), p);
        lemma_insert_sorted_keeps_order(sort_by_key(s.drop_last(), p), p, s.last());
        assert(s.drop_last().push(s.last()) =~= s);
    }
}

proof fn lemma_insert_pos_skip(s: Seq<Job>, p: Policy, x: Job, j: int)
    requires
        0 <= j < s.len(),
        key_of(p, s[j]) <= key_of(p, x),
        insert_pos(s, p, x) == j + insert_pos(s.skip(j), p, x),
    ensures
        insert_pos(s, p, x) == j + 1 + insert_pos(s.skip(j + 1), p, x),
{
    assert(s.skip(j).drop_first() =~= s.skip(j + 1));
    assert(s.skip(j)[0] == s[j]);
}

/// Sorts `queue` by the key of `policy`, keeping jobs with equal keys in
/// their order.
pub fn sort_queue(queue: &mut Vec<Job>, policy: Policy)
    ensures
        final(queue)@ == sort_by_key(old(queue)@, policy),
{
    let n = queue.len();
    let ghost orig = queue@;
    let mut sorted: Vec<Job> = Vec::new();
    for i in 0..n
        invariant
            n == orig.len(),
            queue@ == orig,
            sorted@ == sort_by_key(orig.take(i as int), policy),
    {
        let x = queue[i];
        let kx = policy.index(&x);
        let mut j: usize = 0;
        assert(sorted@.skip(0) =~= sorted@);
        while j < sorted.len()
            invariant
                j <= sorted@.len(),
                sorted@ == sort_by_key(orig.take(i as int), policy),
                kx.value() == key_of(policy, x),
                insert_pos(sorted@, policy, x) == j + insert_pos(sorted@.skip(j as int), policy, x),
            ensures
                j <= sorted@.len(),
                insert_pos(sorted@, policy, x) == j + insert_pos(sorted@.skip(j as int), policy, x),
                j < sorted@.len() ==> key_of(policy, sorted@[j as int]) > key_of(policy, x),
            decreases sorted@.len() - j,
        {
            let kj = policy.index(&sorted[j]);
            if kj.greater_than(&kx) {
                break;
            }
            proof {
                lemma_insert_pos_skip(sorted@, policy, x, j as int);
            }
            j = j + 1;
        }
        proof {
            if j < sorted@.len() {
                assert(sorted@.skip(j as int)[0] == sorted@[j as int]);
            } else {
                assert(sorted@.skip(j as int).len() == 0);
            }
            assert(orig.take(i + 1).drop_last() =~= orig.take(i as int));
            assert(orig.take(i + 1).last() == x);
        }
        sorted.insert(j, x);
    }
    assert(orig.take(n as int) =~= orig);
    *queue = sorted;
}

/// Law: what the sorted queue looks like under each policy: arrival order
/// (first-come and bucket policies), reverse arrival order (last-come),
/// nondecreasing remaining work (SRPT), nondecreasing resource need (LSF),
/// nonincreasing resource need (MSF), nondecreasing remaining area (SRA), and
/// nonincreasing remaining area (LRA); the backfilling variants alike.
pub proof fn lemma_sorted_queue_order(s: Seq<Job>, p: Policy)
    ensures
        forall|i: int, j: int| 0 <= i < j < sort_by_key(s, p).len() ==> {
            let a = #[trigger] sort_by_key(s, p)[i];
            let b = #[trigger] sort_by_key(s, p)[j];
            &&& (p == Policy::FCFS || p == Policy::FCFSB || p is DB || p == Policy::DBE) ==> a.arrival_time <= b.arrival_time
            &&& (p == Policy::PLCFS || p == Policy::PLCFSB) ==> a.arrival_time >= b.arrival_time
            &&& (p == Policy::SRPT || p == Policy::SRPTB) ==> a.rem_size <= b.rem_size
            &&& (p == Policy::LSF || p == Policy::LSFB) ==> a.service_req <= b.service_req
            &&& (p == Policy::MSF || p == Policy::MSFB) ==> a.service_req >= b.service_req
            &&& (p == Policy::SRA || p == Policy::SRAB) ==> a.rem_size * a.service_req <= b.rem_size * b.service_req
            &&& (p == Policy::LRA || p == Policy::LRAB) ==> a.rem_size * a.service_req >= b.rem_size * b.service_req
        },
{
    lemma_sort_is_sorted(s, p);
    let r = sort_by_key(s, p);
    assert forall|i: int, j: int| 0 <= i < j < r.len() implies {
        let a = #[trigger] r[i];
        let b = #[trigger] r[j];
        &&& (p == Policy::FCFS || p == Policy::FCFSB || p is DB || p == Policy::DBE) ==> a.arrival_time <= b.arrival_time
        &&& (p == Policy::PLCFS || p == Policy::PLCFSB) ==> a.arrival_time >= b.arrival_time
        &&& (p == Policy::SRPT || p == Policy::SRPTB) ==> a.rem_size <= b.rem_size
        &&& (p == Policy::LSF || p == Policy::LSFB) ==> a.service_req <= b.service_req
        &&& (p == Policy::MSF || p == Policy::MSFB) ==> a.service_req >= b.service_req
        &&& (p == Policy::SRA || p == Policy::SRAB) ==> a.rem_size * a.service_req <= b.rem_size * b.service_req
        &&& (p == Policy::LRA || p == Policy::LRAB) ==> a.rem_size * a.service_req >= b.rem_size * b.service_req
    } by {
        let a = r[i];
        let b = r[j];
        assert(key_of(p, a) <= key_of(p, b));
        if p == Policy::FCFS || p == Policy::FCFSB || p is DB || p == Policy::DBE {
            lemma_key_arrival_first(p, b, a);
        }
        if p == Policy::PLCFS || p == Policy::PLCFSB {
            lemma_key_arrival_last(p, b, a);
        }
        if p == Policy::SRPT || p == Policy::SRPTB {
            lemma_key_least_remaining(p, b, a);
        }
        if p == Policy::LSF || p == Policy::LSFB {
            lemma_key_least_service(p, b, a);
        }
        if p == Policy::MSF || p == Policy::MSFB {
            lemma_key_most_service(p, b, a);
        }
        if p == Policy::SRA || p == Policy::SRAB {
            lemma_key_smallest_area(p, b, a);
        }
        if p == Policy::LRA || p == Policy::LRAB {
            lemma_key_largest_area(p, b, a);
        }
    }
}

proof fn lemma_filter_none(b: Seq<Job>, pred: spec_fn(Job) -> bool)
    requires
        forall|i: int| 0 <= i < b.len() ==> !pred(#[trigger] b[i]),
    ensures
        b.filter(pred) == Seq::<Job>::empty(),
    decreases b.len(),
{
    reveal(Seq::filter);
    if b.len() > 0 {
        lemma_filter_none(b.drop_last(), pred);
        assert(!pred(b[b.len() - 1]));
    }
    assert(b.filter(pred) =~= Seq::<Job>::empty());
}

/// Law: the sort is stable. For every key value `v`, the jobs with key `v`
/// come out of the sort in the order in which they went in.
pub proof fn lemma_sort_is_stable(s: Seq<Job>, p: Policy, v: int)
    ensures
        sort_by_key(s, p).filter(|x: Job| key_of(p, x) == v) == s.filter(|x: Job| key_of(p, x) == v),
    decreases s.len(),
{
    let pred = |x: Job| key_of(p, x) == v;
    reveal(Seq::filter);
    if s.len() > 0 {
        let d = s.drop_last();
        let x = s.last();
        lemma_sort_is_stable(d, p, v);
        lemma_sort_is_sorted(d, p);
        let sd = sort_by_key(d, p);
        lemma_insert_pos_bounds(sd, p, x);
        let k = insert_pos(sd, p, x);
        let a = sd.take(k);
        let b = sd.skip(k);
        assert(sort_by_key(s, p) =~= a + seq![x] + b);
        assert(sd =~= a + b);
        Seq::filter_distributes_over_add(a + seq![x], b, pred);
        Seq::filter_distributes_over_add(a, seq![x], pred);
        Seq::filter_distributes_over_add(a, b, pred);
        assert(seq![x].drop_last() =~= Seq::<Job>::empty());
        assert(Seq::<Job>::empty().filter(pred) =~= Seq::<Job>::empty());
        if pred(x) {
            assert forall|i: int| 0 <= i < b.len() implies !pred(#[trigger] b[i]) by {
                assert(b[i] == sd[k + i]);
                if i > 0 {
                    assert(key_of(p, sd[k]) <= key_of(p, sd[k + i]));
                }
            }
            lemma_filter_none(b, pred);
            assert(seq![x].filter(pred) =~= seq![x]);
            assert(b.filter(pred) =~= Seq::<Job>::empty());
            assert(sort_by_key(s, p).filter(pred) =~= a.filter(pred).push(x));
            assert(sd.filter(pred) =~= a.filter(pred));
        } else {
            assert(seq![x].filter(pred) =~= Seq::<Job>::empty());
            assert(sort_by_key(s, p).filter(pred) =~= sd.filter(pred));
        }
    }
}

} // verus!
