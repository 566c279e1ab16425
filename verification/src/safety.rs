//! Safe completion orders.
//!
//! A set of threads is in a *safe state* when there is an order in which
//! every thread can run to completion: each thread, in its turn, finds
//! what it still needs among the free resources plus everything released
//! by the threads that finished before it.  The banker's algorithm and
//! the deadlock detector both decide this property greedily; the lemmas
//! here are what makes the greedy answer exact.
use vstd::prelude::*;

verus! {

/// Sum of `f` over the elements of `s`.
pub open spec fn sum_over<A>(s: Seq<A>, f: spec_fn(A) -> int) -> int
    decreases s.len(),
{
    if s.len() == 0 {
        0
    } else {
        sum_over(s.drop_last(), f) + f(s.last())
    }
}

/// `s` lists every thread of `threads` exactly once, and each thread can
/// finish after the threads listed before it released what they hold.
pub open spec fn is_safe_order<A>(
    s: Seq<A>,
    threads: Set<A>,
    can_finish: spec_fn(A, Seq<A>) -> bool,
) -> bool {
    &&& s.no_duplicates()
    &&& forall|t: A| #[trigger] s.contains(t) <==> threads.contains(t)
    &&& forall|k: int| 0 <= k < s.len() ==> #[trigger] can_finish(s[k], s.take(k))
}

/// Some order lets every thread of `threads` finish.
pub open spec fn is_safe_state<A>(threads: Set<A>, can_finish: spec_fn(A, Seq<A>) -> bool) -> bool {
    exists|s: Seq<A>| #[trigger] is_safe_order(s, threads, can_finish)
}

/// Every element of `a` occurs in `b`.
pub open spec fn within<A>(a: Seq<A>, b: Seq<A>) -> bool {
    forall|x: A| #[trigger] a.contains(x) ==> b.contains(x)
}

pub proof fn lemma_sum_push<A>(s: Seq<A>, x: A, f: spec_fn(A) -> int)
    ensures
        sum_over(s.push(x), f) == sum_over(s, f) + f(x),
{
    assert(s.push(x).drop_last() =~= s);
}

pub proof fn lemma_sum_nonneg<A>(s: Seq<A>, f: spec_fn(A) -> int)
    requires
        forall|x: A| #[trigger] s.contains(x) ==> f(x) >= 0,
    ensures
        sum_over(s, f) >= 0,
    decreases s.len(),
{
    if s.len() > 0 {
        let t = s.drop_last();
        assert forall|x: A| #[trigger] t.contains(x) implies f(x) >= 0 by {
            let i = choose|i: int| 0 <= i < t.len() && t[i] == x;
            assert(t[i] == s[i]);
            assert(s.contains(x));
        }
        lemma_sum_nonneg(t, f);
        assert(s.contains(s.last())) by {
            assert(s[s.len() - 1] == s.last());
        }
    }
}

/// Taking one element out of a sequence takes its term out of the sum.
pub proof fn lemma_sum_remove<A>(s: Seq<A>, i: int, f: spec_fn(A) -> int)
    requires
        0 <= i < s.len(),
    ensures
        sum_over(s, f) == sum_over(s.remove(i), f) + f(s[i]),
    decreases s.len(),
{
    if i == s.len() - 1 {
        assert(s.remove(i) =~= s.drop_last());
    } else {
        let t = s.drop_last();
        lemma_sum_remove(t, i, f);
        let r = s.remove(i);
        assert(r.len() > 0);
        assert(r.drop_last() =~= t.remove(i));
        assert(r.last() == s.last());
    }
}

/// Terms compared one by one compare the sums.
pub proof fn lemma_sum_pointwise<A>(s: Seq<A>, f: spec_fn(A) -> int, g: spec_fn(A) -> int)
    requires
        forall|x: A| #[trigger] s.contains(x) ==> f(x) <= g(x),
    ensures
        sum_over(s, f) <= sum_over(s, g),
    decreases s.len(),
{
    if s.len() > 0 {
        let t = s.drop_last();
        assert forall|x: A| #[trigger] t.contains(x) implies f(x) <= g(x) by {
            let i = choose|i: int| 0 <= i < t.len() && t[i] == x;
            assert(t[i] == s[i]);
            assert(s.contains(x));
        }
        lemma_sum_pointwise(t, f, g);
        assert(s.contains(s.last())) by {
            assert(s[s.len() - 1] == s.last());
        }
    }
}

/// With terms that are never negative, a sum over fewer distinct
/// elements is never larger.
pub proof fn lemma_sum_within<A>(a: Seq<A>, b: Seq<A>, f: spec_fn(A) -> int)
    requires
        a.no_duplicates(),
        within(a, b),
        forall|x: A| #[trigger] b.contains(x) ==> f(x) >= 0,
    ensures
        sum_over(a, f) <= sum_over(b, f),
    decreases a.len(),
{
    if a.len() == 0 {
        lemma_sum_nonneg(b, f);
    } else {
        let x = a.last();
        let a1 = a.drop_last();
        assert(a.contains(x)) by {
            assert(a[a.len() - 1] == x);
        }
        let i = b.index_of(x);
        let b1 = b.remove(i);
        b.remove_ensures(i);
        assert forall|y: A| #[trigger] a1.contains(y) implies b1.contains(y) by {
            let k = choose|k: int| 0 <= k < a1.len() && a1[k] == y;
            assert(a[k] == y);
            assert(a.contains(y));
            assert(y != x);
            let m = b.index_of(y);
            if m < i {
                assert(b1[m] == y);
            } else {
                assert(m != i);
                assert(b1[m - 1] == y);
            }
        }
        assert forall|y: A| #[trigger] b1.contains(y) implies f(y) >= 0 by {
            let k = choose|k: int| 0 <= k < b1.len() && b1[k] == y;
            if k < i {
                assert(b[k] == y);
            } else {
                assert(b[k + 1] == y);
            }
            assert(b.contains(y));
        }
        assert(a1.no_duplicates());
        lemma_sum_within(a1, b1, f);
        lemma_sum_remove(b, i, f);
    }
}

/// Summing over the images of `s` sums the composed terms over `s`.
pub proof fn lemma_sum_map<A, B>(s: Seq<A>, f: spec_fn(A) -> B, g: spec_fn(B) -> int)
    ensures
        sum_over(s.map_values(f), g) == sum_over(s, |x: A| g(f(x))),
    decreases s.len(),
{
    if s.len() > 0 {
        assert(s.map_values(f).drop_last() =~= s.drop_last().map_values(f));
        lemma_sum_map(s.drop_last(), f, g);
    }
}

/// Renaming the threads one-to-one keeps a state safe, when the rule
/// under which a thread finishes follows the renaming.
pub proof fn lemma_safe_renamed<A, B>(
    threads1: Set<A>,
    rule1: spec_fn(A, Seq<A>) -> bool,
    threads2: Set<B>,
    rule2: spec_fn(B, Seq<B>) -> bool,
    f: spec_fn(A) -> B,
)
    requires
        forall|x: A, y: A|
            threads1.contains(x) && threads1.contains(y) && #[trigger] f(x) == #[trigger] f(y) ==> x == y,
        forall|x: A| threads1.contains(x) ==> threads2.contains(#[trigger] f(x)),
        forall|y: B| #[trigger] threads2.contains(y) ==> exists|x: A| threads1.contains(x) && #[trigger] f(x) == y,
        forall|t: A, p: Seq<A>|
            threads1.contains(t) && (forall|x: A| #[trigger] p.contains(x) ==> threads1.contains(x))
                && #[trigger] rule1(t, p) ==> rule2(f(t), p.map_values(f)),
        is_safe_state(threads1, rule1),
    ensures
        is_safe_state(threads2, rule2),
{
    let s = choose|s: Seq<A>| #[trigger] is_safe_order(s, threads1, rule1);
    let s2 = s.map_values(f);
    assert forall|i: int| 0 <= i < s.len() implies threads1.contains(#[trigger] s[i]) by {
        assert(s.contains(s[i]));
    }
    assert(s2.no_duplicates()) by {
        assert forall|a: int, b: int| 0 <= a < b < s2.len() implies s2[a] != s2[b] by {
            assert(threads1.contains(s[a]) && threads1.contains(s[b]));
            if f(s[a]) == f(s[b]) {
                assert(s[a] == s[b]);
            }
        }
    }
    assert forall|y: B| #[trigger] s2.contains(y) <==> threads2.contains(y) by {
        if s2.contains(y) {
            let i = choose|i: int| 0 <= i < s2.len() && s2[i] == y;
            assert(threads1.contains(s[i]));
        }
        if threads2.contains(y) {
            let x = choose|x: A| threads1.contains(x) && #[trigger] f(x) == y;
            assert(s.contains(x));
            let i = choose|i: int| 0 <= i < s.len() && s[i] == x;
            assert(s2[i] == y);
        }
    }
    assert forall|k: int| 0 <= k < s2.len() implies #[trigger] rule2(s2[k], s2.take(k)) by {
        let p = s.take(k);
        assert(rule1(s[k], p));
        assert forall|x: A| #[trigger] p.contains(x) implies threads1.contains(x) by {
            let i = choose|i: int| 0 <= i < p.len() && p[i] == x;
            assert(s[i] == x);
        }
        assert(s2.take(k) =~= p.map_values(f));
    }
    assert(is_safe_order(s2, threads2, rule2));
}

/// When some thread of a safe state is missing from `g`, there is a first
/// thread of the safe order that `g` misses; everything before it is in `g`.
pub proof fn lemma_first_missing<A>(
    s: Seq<A>,
    g: Seq<A>,
    threads: Set<A>,
    can_finish: spec_fn(A, Seq<A>) -> bool,
    t0: A,
) -> (k: int)
    requires
        is_safe_order(s, threads, can_finish),
        threads.contains(t0),
        !g.contains(t0),
    ensures
        0 <= k < s.len(),
        !g.contains(s[k]),
        threads.contains(s[k]),
        can_finish(s[k], s.take(k)),
        s.take(k).no_duplicates(),
        within(s.take(k), g),
{
    assert(s.contains(t0));
    let i = s.index_of(t0);
    let k = first_missing_at_most(s, g, i);
    assert(s.contains(s[k]));
    assert(can_finish(s[k], s.take(k)));
    let p = s.take(k);
    assert forall|x: A| #[trigger] p.contains(x) implies g.contains(x) by {
        let m = choose|m: int| 0 <= m < p.len() && p[m] == x;
        assert(s[m] == x);
    }
    assert forall|a: int, b: int| 0 <= a < b < p.len() implies p[a] != p[b] by {
        assert(p[a] == s[a] && p[b] == s[b]);
    }
    k
}

proof fn first_missing_at_most<A>(s: Seq<A>, g: Seq<A>, i: int) -> (k: int)
    requires
        0 <= i < s.len(),
        !g.contains(s[i]),
    ensures
        0 <= k <= i,
        !g.contains(s[k]),
        forall|m: int| 0 <= m < k ==> g.contains(#[trigger] s[m]),
    decreases i,
{
    if exists|m: int| 0 <= m < i && !g.contains(#[trigger] s[m]) {
        let m = choose|m: int| 0 <= m < i && !g.contains(#[trigger] s[m]);
        first_missing_at_most(s, g, m)
    } else {
        i
    }
}

/// Number of `true` entries.
pub open spec fn count_true(f: Seq<bool>) -> nat
    decreases f.len(),
{
    if f.len() == 0 {
        0
    } else {
        count_true(f.drop_last()) + if f.last() { 1nat } else { 0nat }
    }
}

pub proof fn lemma_count_true_all_false(f: Seq<bool>)
    requires
        forall|i: int| 0 <= i < f.len() ==> !f[i],
    ensures
        count_true(f) == 0,
    decreases f.len(),
{
    if f.len() > 0 {
        lemma_count_true_all_false(f.drop_last());
    }
}

pub proof fn lemma_count_true_set(f: Seq<bool>, i: int)
    requires
        0 <= i < f.len(),
        !f[i],
    ensures
        count_true(f.update(i, true)) == count_true(f) + 1,
    decreases f.len(),
{
    let g = f.update(i, true);
    if i < f.len() - 1 {
        assert(g.drop_last() =~= f.drop_last().update(i, true));
        lemma_count_true_set(f.drop_last(), i);
    } else {
        assert(g.drop_last() =~= f.drop_last());
    }
}

pub proof fn lemma_count_true_full(f: Seq<bool>)
    ensures
        count_true(f) <= f.len(),
        count_true(f) == f.len() <==> forall|i: int| 0 <= i < f.len() ==> f[i],
    decreases f.len(),
{
    if f.len() > 0 {
        let g = f.drop_last();
        lemma_count_true_full(g);
        if count_true(f) == f.len() {
            assert forall|i: int| 0 <= i < f.len() implies f[i] by {
                if i < f.len() - 1 {
                    assert(g[i] == f[i]);
                }
            }
        }
        if forall|i: int| 0 <= i < f.len() ==> f[i] {
            assert forall|i: int| 0 <= i < g.len() implies g[i] by {
                assert(f[i]);
            }
            assert(f[f.len() - 1]);
        }
    }
}

} // verus!
