//! Deadlock detection for mutexes and semaphores.
//!
//! The detector records, per lock, how many units are free; per thread and
//! lock, how many units the thread holds and how many it waits for.  A
//! thread with no entry in a table holds (or waits for) nothing, and a lock
//! with no entry has no free unit.
use vstd::prelude::*;
use std::collections::BTreeMap;
use vstd::std_specs::iter::IteratorSpec;
use crate::safety::{
    count_true, is_safe_order, is_safe_state, lemma_count_true_all_false, lemma_count_true_full,
    lemma_count_true_set, lemma_first_missing, lemma_safe_renamed, lemma_sum_map, lemma_sum_push,
    lemma_sum_within, sum_over, within,
};

verus! {

broadcast use {vstd::std_specs::btree::group_btree_axioms, vstd::laws_cmp::group_laws_cmp};

/// Thread mutex deadlock detector.
pub struct Detector {
    /// The detector's tables.
    pub inner: DetectorInner,
}

impl Detector {
    /// Creates a detector with empty tables.
    pub fn new() -> (d: Self)
        ensures
            d.inner.available@ == Map::<usize, u8>::empty(),
            d.inner.allocation@ == Map::<usize, BTreeMap<usize, u8>>::empty(),
            d.inner.need@ == Map::<usize, BTreeMap<usize, u8>>::empty(),
    {
        Detector {
            inner: DetectorInner {
                available: BTreeMap::new(),
                allocation: BTreeMap::new(),
                need: BTreeMap::new(),
            },
        }
    }
}

/// The tables of the deadlock detector.
pub struct DetectorInner {
    /// Free units of each lock; a mutex starts with one, a semaphore with
    /// its initial count.
    pub available: BTreeMap<usize, u8>,
    /// Units each thread holds, per lock.
    pub allocation: BTreeMap<usize, BTreeMap<usize, u8>>,
    /// Units each thread waits for, per lock.
    pub need: BTreeMap<usize, BTreeMap<usize, u8>>,
}

/// The count of `key` in `m`, zero when absent.
pub open spec fn amount(m: Map<usize, u8>, key: usize) -> int {
    if m.contains_key(key) {
        m[key] as int
    } else {
        0
    }
}

/// The row of thread `t` in a per-thread table, empty when absent.
pub open spec fn row(table: Map<usize, BTreeMap<usize, u8>>, t: usize) -> Map<usize, u8> {
    if table.contains_key(t) {
        table[t]@
    } else {
        Map::empty()
    }
}

/// A per-thread table with the views of its rows.
pub open spec fn rows(table: Map<usize, BTreeMap<usize, u8>>) -> Map<usize, Map<usize, u8>> {
    table.map_values(|m: BTreeMap<usize, u8>| m@)
}

/// `table` after one more unit of `id` for thread `t`.
pub open spec fn one_more(table: Map<usize, BTreeMap<usize, u8>>, t: usize, id: usize) -> Map<
    usize,
    Map<usize, u8>,
> {
    rows(table).insert(t, row(table, t).insert(id, (amount(row(table, t), id) + 1) as u8))
}

/// `table` after one unit of `id` less for thread `t`: the count goes down
/// unless it is zero, and an entry that reaches zero is dropped.  Nothing
/// changes when thread `t` has no entry for `id`.
pub open spec fn one_less(table: Map<usize, BTreeMap<usize, u8>>, t: usize, id: usize) -> Map<
    usize,
    Map<usize, u8>,
> {
    if table.contains_key(t) && table[t]@.contains_key(id) {
        let c = table[t]@[id];
        if c <= 1 {
            rows(table).insert(t, table[t]@.remove(id))
        } else {
            rows(table).insert(t, table[t]@.insert(id, (c - 1) as u8))
        }
    } else {
        rows(table)
    }
}

/// The row of thread `t` in a table of row views, empty when absent.
pub open spec fn row_in(table: Map<usize, Map<usize, u8>>, t: usize) -> Map<usize, u8> {
    if table.contains_key(t) {
        table[t]
    } else {
        Map::empty()
    }
}

/// Taking one unit of lock `id` from thread `t` lowers that count by one
/// (a zero count stays zero) and changes no other count, of `t` or of any
/// other thread; a thread without an entry for `id` changes nothing.
pub proof fn lemma_one_less_effect(table: Map<usize, BTreeMap<usize, u8>>, t: usize, id: usize)
    ensures
        amount(row_in(one_less(table, t, id), t), id) == if amount(row(table, t), id) > 0 {
            amount(row(table, t), id) - 1
        } else {
            0
        },
        forall|r: usize| r != id ==> #[trigger] amount(row_in(one_less(table, t, id), t), r) == amount(row(table, t), r),
        forall|u: usize| u != t ==> #[trigger] row_in(one_less(table, t, id), u) == row(table, u),
        forall|u: usize| #[trigger] one_less(table, t, id).contains_key(u) == table.contains_key(u),
        !(table.contains_key(t) && table[t]@.contains_key(id)) ==> one_less(table, t, id) == rows(table),
{
}

/// Adding one unit of lock `id` to thread `t` raises that count by one and
/// changes no other count, of `t` or of any other thread.
pub proof fn lemma_one_more_effect(table: Map<usize, BTreeMap<usize, u8>>, t: usize, id: usize)
    requires
        amount(row(table, t), id) < u8::MAX,
    ensures
        amount(row_in(one_more(table, t, id), t), id) == amount(row(table, t), id) + 1,
        forall|r: usize| r != id ==> #[trigger] amount(row_in(one_more(table, t, id), t), r) == amount(row(table, t), r),
        forall|u: usize| u != t ==> #[trigger] row_in(one_more(table, t, id), u) == row(table, u),
        one_more(table, t, id).contains_key(t),
{
}

/// A table's row views read as its rows.
proof fn lemma_rows_read(table: Map<usize, BTreeMap<usize, u8>>)
    ensures
        forall|u: usize| #[trigger] row_in(rows(table), u) == row(table, u),
{
}

impl DetectorInner {
    /// Units of lock `r` thread `t` holds.
    pub open spec fn held(&self, t: usize, r: usize) -> int {
        amount(row(self.allocation@, t), r)
    }

    /// What each thread holds of lock `r`.
    pub open spec fn held_of(&self, r: usize) -> spec_fn(usize) -> int {
        |t: usize| self.held(t, r)
    }

    /// Free units of lock `r` once the threads of `released` gave back what
    /// they hold.
    pub open spec fn free_after(&self, released: Seq<usize>, r: usize) -> int {
        amount(self.available@, r) + sum_over(released, self.held_of(r))
    }

    /// Thread `t` can get every unit it waits for once the threads of
    /// `released` gave back what they hold.
    pub open spec fn can_finish(&self, t: usize, released: Seq<usize>) -> bool {
        forall|r: usize|
            #[trigger] row(self.need@, t).contains_key(r) ==> row(self.need@, t)[r] <= self.free_after(
                released,
                r,
            )
    }

    /// [`Self::can_finish`] as a rule on threads and released prefixes.
    pub open spec fn finish_rule(&self) -> spec_fn(usize, Seq<usize>) -> bool {
        |t: usize, released: Seq<usize>| self.can_finish(t, released)
    }

    /// The threads the tables know of.
    pub open spec fn threads(&self) -> Set<usize> {
        self.allocation@.dom().union(self.need@.dom())
    }

    /// Some order lets every known thread get what it waits for.
    pub open spec fn is_safe(&self) -> bool {
        is_safe_state(self.threads(), self.finish_rule())
    }

    /// `p` lists known threads, each once, each able to get what it waits
    /// for after the threads before it gave back what they hold.
    pub open spec fn is_finish_order(&self, p: Seq<usize>) -> bool {
        &&& p.no_duplicates()
        &&& forall|x: usize| #[trigger] p.contains(x) ==> self.threads().contains(x)
        &&& forall|k: int| 0 <= k < p.len() ==> #[trigger] self.can_finish(p[k], p.take(k))
    }

    /// Whichever threads finish, in whichever order they can, every free
    /// count after they gave back what they hold stays within `u8`.
    pub open spec fn releases_fit(&self) -> bool {
        forall|p: Seq<usize>, r: usize|
            self.is_finish_order(p) ==> #[trigger] self.free_after(p, r) <= u8::MAX
    }

    /// Sets the free units of lock `id` to `count`, kept modulo 256.
    pub fn set_available(&mut self, id: usize, count: usize)
        ensures
            final(self).available@ == old(self).available@.insert(id, (count % 256) as u8),
            final(self).allocation@ == old(self).allocation@,
            final(self).need@ == old(self).need@,
    {
        let c = count as u8;
        assert(c == (count % 256) as u8) by (bit_vector)
            requires
                c == count as u8,
        ;
        self.available.insert(id, c);
    }

    /// One more free unit of lock `id`.
    pub fn add_available(&mut self, id: usize)
        requires
            amount(old(self).available@, id) < u8::MAX,
        ensures
            final(self).available@ == old(self).available@.insert(
                id,
                (amount(old(self).available@, id) + 1) as u8,
            ),
            final(self).allocation@ == old(self).allocation@,
            final(self).need@ == old(self).need@,
    {
        let c = match self.available.get(&id) {
            Some(v) => *v,
            None => 0,
        };
        self.available.insert(id, c + 1);
    }

    /// One free unit of lock `id` less; a count of zero, or a lock without
    /// entry, stays as it is.
    pub fn remove_available(&mut self, id: usize)
        ensures
            final(self).available@ == if amount(old(self).available@, id) > 0 {
                old(self).available@.insert(id, (amount(old(self).available@, id) - 1) as u8)
            } else {
                old(self).available@
            },
            final(self).allocation@ == old(self).allocation@,
            final(self).need@ == old(self).need@,
    {
        let c = match self.available.get(&id) {
            Some(v) => *v,
            None => 0,
        };
        if c > 0 {
            self.available.insert(id, c - 1);
        }
    }

    /// Thread `thread_id` holds one more unit of lock `id`.
    pub fn add_allocation(&mut self, thread_id: usize, id: usize)
        requires
            amount(row(old(self).allocation@, thread_id), id) < u8::MAX,
        ensures
            rows(final(self).allocation@) == one_more(old(self).allocation@, thread_id, id),
            final(self).held(thread_id, id) == old(self).held(thread_id, id) + 1,
            forall|u: usize, r: usize|
                !(u == thread_id && r == id) ==> #[trigger] final(self).held(u, r) == old(self).held(u, r),
            final(self).available@ == old(self).available@,
            final(self).need@ == old(self).need@,
    {
        add_one(&mut self.allocation, thread_id, id);
        proof {
            lemma_one_more_effect(old(self).allocation@, thread_id, id);
            lemma_rows_read(self.allocation@);
            assert forall|u: usize, r: usize| !(u == thread_id && r == id) implies #[trigger] amount(
                row(self.allocation@, u),
                r,
            ) == amount(row(old(self).allocation@, u), r) by {
                assert(row_in(rows(self.allocation@), u) == row(self.allocation@, u));
                if u == thread_id {
                    assert(amount(row_in(one_more(old(self).allocation@, thread_id, id), u), r) == amount(
                        row(old(self).allocation@, u),
                        r,
                    ));
                } else {
                    assert(row_in(one_more(old(self).allocation@, thread_id, id), u) == row(old(self).allocation@, u));
                }
            }
        }
    }

    /// Thread `thread_id` holds one unit of lock `id` less.
    pub fn remove_allocation(&mut self, thread_id: usize, id: usize)
        ensures
            rows(final(self).allocation@) == one_less(old(self).allocation@, thread_id, id),
            final(self).held(thread_id, id) == if old(self).held(thread_id, id) > 0 {
                old(self).held(thread_id, id) - 1
            } else {
                0
            },
            forall|u: usize, r: usize|
                !(u == thread_id && r == id) ==> #[trigger] final(self).held(u, r) == old(self).held(u, r),
            !(old(self).allocation@.contains_key(thread_id) && old(self).allocation@[thread_id]@.contains_key(id))
                ==> rows(final(self).allocation@) == rows(old(self).allocation@),
            final(self).available@ == old(self).available@,
            final(self).need@ == old(self).need@,
    {
        remove_one(&mut self.allocation, thread_id, id);
        proof {
            lemma_one_less_effect(old(self).allocation@, thread_id, id);
            lemma_rows_read(self.allocation@);
            assert forall|u: usize, r: usize| !(u == thread_id && r == id) implies #[trigger] amount(
                row(self.allocation@, u),
                r,
            ) == amount(row(old(self).allocation@, u), r) by {
                assert(row_in(rows(self.allocation@), u) == row(self.allocation@, u));
                if u == thread_id {
                    assert(amount(row_in(one_less(old(self).allocation@, thread_id, id), u), r) == amount(
                        row(old(self).allocation@, u),
                        r,
                    ));
                } else {
                    assert(row_in(one_less(old(self).allocation@, thread_id, id), u) == row(old(self).allocation@, u));
                }
            }
        }
    }

    /// Thread `thread_id` waits for one more unit of lock `id`.
    pub fn add_need(&mut self, thread_id: usize, id: usize)
        requires
            amount(row(old(self).need@, thread_id), id) < u8::MAX,
        ensures
            rows(final(self).need@) == one_more(old(self).need@, thread_id, id),
            amount(row(final(self).need@, thread_id), id) == amount(row(old(self).need@, thread_id), id) + 1,
            forall|u: usize, r: usize|
                !(u == thread_id && r == id) ==> #[trigger] amount(row(final(self).need@, u), r) == amount(
                    row(old(self).need@, u),
                    r,
                ),
            final(self).available@ == old(self).available@,
            final(self).allocation@ == old(self).allocation@,
    {
        add_one(&mut self.need, thread_id, id);
        proof {
            lemma_one_more_effect(old(self).need@, thread_id, id);
            lemma_rows_read(self.need@);
            assert forall|u: usize, r: usize| !(u == thread_id && r == id) implies #[trigger] amount(
                row(self.need@, u),
                r,
            ) == amount(row(old(self).need@, u), r) by {
                assert(row_in(rows(self.need@), u) == row(self.need@, u));
                if u == thread_id {
                    assert(amount(row_in(one_more(old(self).need@, thread_id, id), u), r) == amount(
                        row(old(self).need@, u),
                        r,
                    ));
                } else {
                    assert(row_in(one_more(old(self).need@, thread_id, id), u) == row(old(self).need@, u));
                }
            }
        }
    }

    /// Thread `thread_id` waits for one unit of lock `id` less.
    pub fn remove_need(&mut self, thread_id: usize, id: usize)
        ensures
            rows(final(self).need@) == one_less(old(self).need@, thread_id, id),
            amount(row(final(self).need@, thread_id), id) == if amount(row(old(self).need@, thread_id), id) > 0 {
                amount(row(old(self).need@, thread_id), id) - 1
            } else {
                0
            },
            forall|u: usize, r: usize|
                !(u == thread_id && r == id) ==> #[trigger] amount(row(final(self).need@, u), r) == amount(
                    row(old(self).need@, u),
                    r,
                ),
            !(old(self).need@.contains_key(thread_id) && old(self).need@[thread_id]@.contains_key(id))
                ==> rows(final(self).need@) == rows(old(self).need@),
            final(self).available@ == old(self).available@,
            final(self).allocation@ == old(self).allocation@,
    {
        remove_one(&mut self.need, thread_id, id);
        proof {
            lemma_one_less_effect(old(self).need@, thread_id, id);
            lemma_rows_read(self.need@);
            assert forall|u: usize, r: usize| !(u == thread_id && r == id) implies #[trigger] amount(
                row(self.need@, u),
                r,
            ) == amount(row(old(self).need@, u), r) by {
                assert(row_in(rows(self.need@), u) == row(self.need@, u));
                if u == thread_id {
                    assert(amount(row_in(one_less(old(self).need@, thread_id, id), u), r) == amount(
                        row(old(self).need@, u),
                        r,
                    ));
                } else {
                    assert(row_in(one_less(old(self).need@, thread_id, id), u) == row(old(self).need@, u));
                }
            }
        }
    }
}

impl DetectorInner {
    /// Detects a deadlock: repeatedly lets any unfinished thread whose
    /// waited-for units are all free finish and give back what it holds,
    /// until no further thread can.  A deadlock remains when some thread
    /// never got what it waits for.
    ///
    /// Counts are never negative, so the answer is exact: a deadlock is
    /// reported exactly when no order lets every thread finish.
    pub fn detect_deadlock(&self) -> (deadlock: bool)
        requires
            self.releases_fit(),
        ensures
            deadlock == !self.is_safe(),
    {
        let ids = self.thread_ids();
        let n = ids.len();
        let mut work = self.available.clone();
        let mut finish: Vec<bool> = Vec::new();
        let mut k: usize = 0;
        while k < n
            invariant
                k <= n,
                finish@ == Seq::new(k as nat, |x: int| false),
            decreases n - k,
        {
            finish.push(false);
            k += 1;
            assert(finish@ =~= Seq::new(k as nat, |x: int| false));
        }
        proof {
            lemma_count_true_all_false(finish@);
        }
        let ghost mut order: Seq<usize> = Seq::empty();
        let mut found = true;
        while found
            invariant
                self.releases_fit(),
                n == ids.len(),
                ids@.no_duplicates(),
                forall|t: usize| #[trigger] ids@.contains(t) <==> self.threads().contains(t),
                finish.len() == n,
                forall|r: usize| #[trigger] amount(work@, r) == self.free_after(order, r),
                order.no_duplicates(),
                forall|q: int|
                    0 <= q < n ==> (#[trigger] finish@[q] <==> order.contains(ids@[q])),
                forall|x: usize| #[trigger] order.contains(x) ==> ids@.contains(x),
                order.len() == count_true(finish@),
                forall|q: int| 0 <= q < order.len() ==> #[trigger] self.can_finish(order[q], order.take(q)),
                !found ==> forall|q: int|
                    0 <= q < n && !#[trigger] finish@[q] ==> !self.can_finish(ids@[q], order),
            decreases n - order.len() + (if found { 1int } else { 0int }),
        {
            proof {
                lemma_count_true_full(finish@);
            }
            found = false;
            let ghost len0 = order.len();
            let mut idx: usize = 0;
            while idx < n
                invariant
                    self.releases_fit(),
                    n == ids.len(),
                    ids@.no_duplicates(),
                    forall|t: usize| #[trigger] ids@.contains(t) <==> self.threads().contains(t),
                    finish.len() == n,
                    idx <= n,
                    forall|r: usize| #[trigger] amount(work@, r) == self.free_after(order, r),
                    order.no_duplicates(),
                    forall|q: int|
                        0 <= q < n ==> (#[trigger] finish@[q] <==> order.contains(ids@[q])),
                    forall|x: usize| #[trigger] order.contains(x) ==> ids@.contains(x),
                    order.len() == count_true(finish@),
                    len0 <= order.len() <= n,
                    forall|q: int|
                        0 <= q < order.len() ==> #[trigger] self.can_finish(order[q], order.take(q)),
                    !found ==> order.len() == len0,
                    found ==> order.len() > len0,
                    !found ==> forall|q: int|
                        0 <= q < idx && !#[trigger] finish@[q] ==> !self.can_finish(ids@[q], order),
                decreases n - idx,
            {
                if !finish[idx] {
                    let t = ids[idx];
                    let can_allocate = self.fits(t, &work);
                    proof {
                        assert(can_allocate == self.can_finish(t, order));
                    }
                    if can_allocate {
                        let ghost next = order.push(t);
                        proof {
                            assert(!order.contains(t));
                            assert(next.no_duplicates()) by {
                                assert forall|a: int, b: int| 0 <= a < b < next.len() implies next[a]
                                    != next[b] by {
                                    if b == next.len() - 1 {
                                        assert(order.contains(next[a]));
                                    }
                                }
                            }
                            assert forall|x: usize| #[trigger] next.contains(x) implies ids@.contains(x)
                                && self.threads().contains(x) by {
                                let m = choose|m: int| 0 <= m < next.len() && next[m] == x;
                                if m < order.len() {
                                    assert(order[m] == x);
                                    assert(order.contains(x));
                                } else {
                                    assert(ids@[idx as int] == x);
                                }
                            }
                            assert forall|q: int| 0 <= q < next.len() implies #[trigger] self.can_finish(
                                next[q],
                                next.take(q),
                            ) by {
                                if q < order.len() {
                                    assert(next.take(q) =~= order.take(q));
                                    assert(self.can_finish(order[q], order.take(q)));
                                } else {
                                    assert(next.take(q) =~= order);
                                }
                            }
                            assert(self.is_finish_order(next));
                            assert forall|r: usize| amount(work@, r) + self.held(t, r) <= u8::MAX by {
                                lemma_sum_push(order, t, self.held_of(r));
                                assert(self.free_after(next, r) <= u8::MAX);
                            }
                        }
                        self.release(t, &mut work);
                        proof {
                            assert forall|r: usize| #[trigger] amount(work@, r) == self.free_after(next, r) by {
                                lemma_sum_push(order, t, self.held_of(r));
                            }
                            lemma_count_true_set(finish@, idx as int);
                            lemma_count_true_full(finish@.update(idx as int, true));
                        }
                        finish.set(idx, true);
                        found = true;
                        proof {
                            assert forall|q: int| 0 <= q < n implies (#[trigger] finish@[q]
                                <==> next.contains(ids@[q])) by {
                                if q == idx {
                                    assert(next[next.len() - 1] == t);
                                } else {
                                    assert(ids@[q] != t);
                                    if next.contains(ids@[q]) {
                                        let m = choose|m: int| 0 <= m < next.len() && next[m] == ids@[q];
                                        assert(order[m] == ids@[q]);
                                        assert(order.contains(ids@[q]));
                                    }
                                    if order.contains(ids@[q]) {
                                        let m = choose|m: int| 0 <= m < order.len() && order[m] == ids@[q];
                                        assert(next[m] == ids@[q]);
                                    }
                                }
                            }
                            order = next;
                        }
                    }
                }
                idx += 1;
            }
        }
        let mut deadlock = false;
        let mut q: usize = 0;
        while q < n
            invariant
                q <= n,
                finish.len() == n,
                deadlock <==> exists|m: int| 0 <= m < q && !#[trigger] finish@[m],
            decreases n - q,
        {
            if !finish[q] {
                deadlock = true;
            }
            q += 1;
        }
        proof {
            let threads = self.threads();
            let rule = self.finish_rule();
            if !deadlock {
                assert forall|t: usize| #[trigger] order.contains(t) <==> threads.contains(t) by {
                    if threads.contains(t) {
                        assert(ids@.contains(t));
                        let m = choose|m: int| 0 <= m < ids.len() && ids@[m] == t;
                        assert(!!finish@[m]);
                    }
                }
                assert forall|q: int| 0 <= q < order.len() implies #[trigger] rule(order[q], order.take(q)) by {
                    assert(self.can_finish(order[q], order.take(q)));
                }
                assert(is_safe_order(order, threads, rule));
            } else {
                let m = choose|m: int| 0 <= m < n && !#[trigger] finish@[m];
                let t0 = ids@[m];
                assert(ids@.contains(t0));
                if self.is_safe() {
                    let s = choose|s: Seq<usize>| #[trigger] is_safe_order(s, threads, rule);
                    let k = lemma_first_missing(s, order, threads, rule, t0);
                    let t = s[k];
                    assert(rule(t, s.take(k)));
                    self.lemma_finish_monotone(t, s.take(k), order);
                    assert(ids@.contains(t));
                    let m2 = choose|m2: int| 0 <= m2 < ids.len() && ids@[m2] == t;
                    assert(!finish@[m2]);
                    assert(false);
                }
            }
        }
        deadlock
    }

    /// Every thread id the tables know of, each once: those of the
    /// allocation table first, then those only the need table knows.
    fn thread_ids(&self) -> (ids: Vec<usize>)
        ensures
            ids@.no_duplicates(),
            forall|t: usize| #[trigger] ids@.contains(t) <==> self.threads().contains(t),
    {
        let mut ids: Vec<usize> = Vec::new();
        for t in it: self.allocation.keys()
            invariant
                ids.len() == it.index(),
                forall|q: int| 0 <= q < ids.len() ==> ids@[q] == *it.seq()[q],
                it.seq() == vstd::std_specs::btree::spec_keys_iter(&self.allocation).remaining(),
        {
            ids.push(*t);
        }
        let ghost ks = vstd::std_specs::btree::spec_keys_iter(&self.allocation).remaining();
        proof {
            vstd::std_specs::btree::axiom_spec_keys_iter(&self.allocation);
            assert(ids@ =~= ks.map_values(|x: &usize| *x));
            assert(ks.unref() == ks.map_values(|x: &usize| *x));
        }
        for t in it: self.need.keys()
            invariant
                ids@.no_duplicates(),
                forall|x: usize|
                    #[trigger] ids@.contains(x) <==> (self.allocation@.contains_key(x)
                        || it.seq().take(it.index()).contains(&x)),
                it.seq() == vstd::std_specs::btree::spec_keys_iter(&self.need).remaining(),
        {
            let ghost before = ids@;
            let present = contains_id(&ids, *t);
            if !present {
                ids.push(*t);
            }
            assert(present ==> ids@ == before && before.contains(*t));
            assert(!present ==> ids@ == before.push(*t) && !before.contains(*t));
            proof {
                let done = it.seq().take(it.index() + 1);
                let prev = it.seq().take(it.index());
                assert(done =~= prev.push(t));
                assert forall|x: usize| #[trigger] ids@.contains(x) <==> (self.allocation@.contains_key(x)
                    || done.contains(&x)) by {
                    assert(before.contains(x) <==> (self.allocation@.contains_key(x) || prev.contains(&x)));
                    assert(done.contains(&x) <==> (prev.contains(&x) || x == *t)) by {
                        if done.contains(&x) && x != *t {
                            let m = choose|m: int| 0 <= m < done.len() && done[m] == &x;
                            assert(prev[m] == &x);
                        }
                        if prev.contains(&x) {
                            let m = choose|m: int| 0 <= m < prev.len() && prev[m] == &x;
                            assert(done[m] == &x);
                        }
                        if x == *t {
                            assert(done[done.len() - 1] == &x);
                        }
                    }
                    assert(ids@.contains(x) <==> (before.contains(x) || x == *t)) by {
                        if ids@.len() > before.len() {
                            assert(ids@ == before.push(*t));
                            if ids@.contains(x) && x != *t {
                                let m = choose|m: int| 0 <= m < ids@.len() && ids@[m] == x;
                                assert(before[m] == x);
                            }
                            if before.contains(x) {
                                let m = choose|m: int| 0 <= m < before.len() && before[m] == x;
                                assert(ids@[m] == x);
                            }
                            assert(ids@[ids@.len() - 1] == *t);
                        } else {
                            assert(ids@ == before);
                        }
                    }
                }
                if ids@.len() > before.len() {
                    assert forall|a: int, b: int| 0 <= a < b < ids@.len() implies ids@[a] != ids@[b] by {
                        if b == ids@.len() - 1 {
                            assert(before.contains(ids@[a]));
                        }
                    }
                }
            }
        }
        let ghost ns = vstd::std_specs::btree::spec_keys_iter(&self.need).remaining();
        proof {
            vstd::std_specs::btree::axiom_spec_keys_iter(&self.need);
            assert(ns.take(ns.len() as int) =~= ns);
            assert forall|t: usize| #[trigger] ids@.contains(t) <==> self.threads().contains(t) by {
                if self.need@.contains_key(t) {
                    assert(ns.unref().to_set().contains(t));
                    let m = choose|m: int| 0 <= m < ns.unref().len() && ns.unref()[m] == t;
                    assert(ns[m] == &t);
                }
                if ns.contains(&t) {
                    let m = choose|m: int| 0 <= m < ns.len() && ns[m] == &t;
                    assert(ns.unref()[m] == t);
                    assert(ns.unref().contains(t));
                }
            }
        }
        ids
    }

    /// Whether every unit thread `t` waits for is free in `work`.
    fn fits(&self, t: usize, work: &BTreeMap<usize, u8>) -> (ok: bool)
        ensures
            ok == (forall|r: usize|
                #[trigger] row(self.need@, t).contains_key(r) ==> row(self.need@, t)[r] <= amount(
                    work@,
                    r,
                )),
    {
        let mut can_allocate = true;
        match self.need.get(&t) {
            Some(thread_need) => {
                assert(thread_need@ == row(self.need@, t));
                for kv in it: thread_need.iter()
                    invariant
                        thread_need@ == row(self.need@, t),
                        it.seq() == vstd::std_specs::btree::spec_btree_map_iter(thread_need).remaining(),
                        can_allocate <==> forall|q: int|
                            0 <= q < it.index() ==> *(#[trigger] it.seq()[q]).1 <= amount(work@, *it.seq()[q].0),
                {
                    let (res_id, need_count) = kv;
                    let available_count = match work.get(res_id) {
                        Some(v) => *v,
                        None => 0,
                    };
                    if *need_count > available_count {
                        can_allocate = false;
                    }
                }
                proof {
                    let v = vstd::std_specs::btree::spec_btree_map_iter(thread_need).remaining();
                    if can_allocate {
                        assert forall|r: usize| #[trigger] row(self.need@, t).contains_key(r) implies row(
                            self.need@,
                            t,
                        )[r] <= amount(work@, r) by {
                            assert(thread_need@.contains_key(r));
                            assert(v.contains((&r, &thread_need@[r])));
                            let q = choose|q: int| 0 <= q < v.len() && v[q] == (&r, &thread_need@[r]);
                            assert(*v[q].1 <= amount(work@, *v[q].0));
                        }
                    } else {
                        let q = choose|q: int|
                            0 <= q < v.len() && !(*(#[trigger] v[q]).1 <= amount(work@, *v[q].0));
                        let r = *v[q].0;
                        assert(thread_need@.contains_key(r));
                        assert(row(self.need@, t).contains_key(r));
                    }
                }
            },
            None => {},
        }
        can_allocate
    }

    /// Gives back to `work` every unit thread `t` holds.
    fn release(&self, t: usize, work: &mut BTreeMap<usize, u8>)
        requires
            forall|r: usize| amount(old(work)@, r) + self.held(t, r) <= u8::MAX,
        ensures
            forall|r: usize| #[trigger] amount(final(work)@, r) == amount(old(work)@, r) + self.held(t, r),
    {
        match self.allocation.get(&t) {
            Some(thread_alloc) => {
                assert(thread_alloc@ == row(self.allocation@, t));
                let ghost v = vstd::std_specs::btree::spec_btree_map_iter(thread_alloc).remaining();
                let ghost mut done: Set<usize> = Set::empty();
                for kv in it: thread_alloc.iter()
                    invariant
                        thread_alloc@ == row(self.allocation@, t),
                        it.seq() == v,
                        v == vstd::std_specs::btree::spec_btree_map_iter(thread_alloc).remaining(),
                        v.no_duplicates(),
                        forall|r: usize| amount(old(work)@, r) + self.held(t, r) <= u8::MAX,
                        forall|r: usize|
                            #[trigger] done.contains(r) <==> exists|q: int|
                                0 <= q < it.index() && *(#[trigger] v[q]).0 == r,
                        forall|r: usize|
                            #[trigger] amount(work@, r) == amount(old(work)@, r) + if done.contains(r) {
                                amount(thread_alloc@, r)
                            } else {
                                0
                            },
                {
                    let (res_id, alloc_count) = kv;
                    let ghost q0 = it.index();
                    proof {
                        assert(v[q0] == (res_id, alloc_count));
                        assert(thread_alloc@.contains_key(*res_id) && thread_alloc@[*res_id] == *alloc_count);
                        if done.contains(*res_id) {
                            let q1 = choose|q: int| 0 <= q < q0 && *(#[trigger] v[q]).0 == *res_id;
                            assert(q1 != q0);
                            assert(v[q1] == v[q0]);
                            assert(false);
                        }
                    }
                    let c = match work.get(res_id) {
                        Some(w) => *w,
                        None => 0,
                    };
                    assert(amount(old(work)@, *res_id) + self.held(t, *res_id) <= u8::MAX);
                    assert(c == amount(work@, *res_id));
                    let ghost w0 = work@;
                    let ghost done0 = done;
                    work.insert(*res_id, c + *alloc_count);
                    proof {
                        done = done.insert(*res_id);
                        assert forall|r: usize| #[trigger] amount(work@, r) == amount(old(work)@, r)
                            + if done.contains(r) { amount(thread_alloc@, r) } else { 0 } by {
                            assert(amount(w0, r) == amount(old(work)@, r) + if done0.contains(r) {
                                amount(thread_alloc@, r)
                            } else {
                                0
                            });
                            if r != *res_id {
                                assert(done.contains(r) == done0.contains(r));
                            }
                        }
                    }
                }
                proof {
                    assert forall|r: usize| #[trigger] amount(work@, r) == amount(old(work)@, r) + self.held(t, r) by {
                        if thread_alloc@.contains_key(r) {
                            assert(v.contains((&r, &thread_alloc@[r])));
                            let q = choose|q: int| 0 <= q < v.len() && v[q] == (&r, &thread_alloc@[r]);
                            assert(*v[q].0 == r);
                            assert(done.contains(r));
                        }
                    }
                }
            },
            None => {},
        }
    }

    /// With counts that are never negative, a thread that can finish after
    /// some threads gave back their units can once more threads did.
    proof fn lemma_finish_monotone(&self, t: usize, p: Seq<usize>, g: Seq<usize>)
        requires
            p.no_duplicates(),
            within(p, g),
            self.can_finish(t, p),
        ensures
            self.can_finish(t, g),
    {
        assert forall|r: usize| #[trigger] row(self.need@, t).contains_key(r) implies row(self.need@, t)[r]
            <= self.free_after(g, r) by {
            assert(forall|x: usize| #[trigger] g.contains(x) ==> self.held_of(r)(x) >= 0);
            lemma_sum_within(p, g, self.held_of(r));
        }
    }
}

/// Whether `x` occurs in `v`.
fn contains_id(v: &Vec<usize>, x: usize) -> (found: bool)
    ensures
        found == v@.contains(x),
{
    let mut i: usize = 0;
    while i < v.len()
        invariant
            i <= v.len(),
            forall|q: int| 0 <= q < i ==> v@[q] != x,
        decreases v.len() - i,
    {
        if v[i] == x {
            assert(v@[i as int] == x);
            return true;
        }
        i += 1;
    }
    false
}

/// Taking back a unit right after adding it restores the thread's row:
/// the table comes back to what it was, except that a thread that had no
/// row keeps an empty one, and a zero count is dropped.
pub proof fn lemma_remove_undoes_add(
    before: BTreeMap<usize, BTreeMap<usize, u8>>,
    added: BTreeMap<usize, BTreeMap<usize, u8>>,
    t: usize,
    id: usize,
)
    requires
        amount(row(before@, t), id) < u8::MAX,
        rows(added@) == one_more(before@, t, id),
    ensures
        one_less(added@, t, id) == rows(before@).insert(
            t,
            if amount(row(before@, t), id) == 0 {
                row(before@, t).remove(id)
            } else {
                row(before@, t)
            },
        ),
{
    assert(added@.contains_key(t)) by {
        assert(rows(added@).dom().contains(t));
    }
    assert(added@[t]@ == rows(added@)[t]);
    let c = added@[t]@[id];
    assert(c == amount(row(before@, t), id) + 1);
    if c <= 1 {
        assert(added@[t]@.remove(id) =~= row(before@, t).remove(id));
    } else {
        assert(added@[t]@.insert(id, (c - 1) as u8) =~= row(before@, t));
    }
}

/// Taking back a free unit right after adding one restores the count.
pub proof fn lemma_remove_available_undoes_add(before: Map<usize, u8>, added: Map<usize, u8>, id: usize)
    requires
        amount(before, id) < u8::MAX,
        added == before.insert(id, (amount(before, id) + 1) as u8),
    ensures
        added.insert(id, (amount(added, id) - 1) as u8) == before.insert(id, amount(before, id) as u8),
        amount(added, id) > 0,
{
    assert(added.insert(id, (amount(added, id) - 1) as u8) =~= before.insert(id, amount(before, id) as u8));
}

/// More free units never create a deadlock: tables that differ from
/// deadlock-free ones only in having at least as many free units of every
/// lock are deadlock-free too (the same completion order works).
pub proof fn lemma_more_free_no_new_deadlock(d1: DetectorInner, d2: DetectorInner)
    requires
        d1.allocation@ == d2.allocation@,
        d1.need@ == d2.need@,
        forall|r: usize| #[trigger] amount(d1.available@, r) <= amount(d2.available@, r),
        d1.is_safe(),
    ensures
        d2.is_safe(),
{
    let s = choose|s: Seq<usize>| #[trigger] is_safe_order(s, d1.threads(), d1.finish_rule());
    assert(d1.threads() =~= d2.threads());
    assert forall|k: int| 0 <= k < s.len() implies #[trigger] (d2.finish_rule())(s[k], s.take(k)) by {
        assert((d1.finish_rule())(s[k], s.take(k)));
        assert forall|r: usize| #[trigger] row(d2.need@, s[k]).contains_key(r) implies row(d2.need@, s[k])[r]
            <= d2.free_after(s.take(k), r) by {
            assert(d1.held_of(r) =~= d2.held_of(r));
            assert(row(d1.need@, s[k])[r] <= d1.free_after(s.take(k), r));
        }
    }
    assert(is_safe_order(s, d2.threads(), d2.finish_rule()));
}

/// `d2` is `d1` with every thread id `x` renamed to `f(x)`, one to one.
pub open spec fn renamed(d1: DetectorInner, d2: DetectorInner, f: spec_fn(usize) -> usize) -> bool {
    &&& forall|x: usize, y: usize| #[trigger] f(x) == #[trigger] f(y) ==> x == y
    &&& d2.available@ == d1.available@
    &&& forall|x: usize| #[trigger] d1.allocation@.contains_key(x) <==> d2.allocation@.contains_key(f(x))
    &&& forall|x: usize| #[trigger] d1.need@.contains_key(x) <==> d2.need@.contains_key(f(x))
    &&& forall|y: usize|
        d2.allocation@.contains_key(y) || d2.need@.contains_key(y) ==> exists|x: usize| #[trigger] f(x) == y
    &&& forall|x: usize| #[trigger] d1.allocation@.contains_key(x) ==> d2.allocation@[f(x)]@ == d1.allocation@[x]@
    &&& forall|x: usize| #[trigger] d1.need@.contains_key(x) ==> d2.need@[f(x)]@ == d1.need@[x]@
}

/// The deadlock answer does not depend on thread ids: renaming the threads
/// one to one keeps the tables deadlock-free, or deadlocked.
pub proof fn lemma_deadlock_ignores_thread_ids(d1: DetectorInner, d2: DetectorInner, f: spec_fn(usize) -> usize)
    requires
        renamed(d1, d2, f),
    ensures
        d1.is_safe() == d2.is_safe(),
{
    assert forall|x: usize| #[trigger] row(d2.allocation@, f(x)) == row(d1.allocation@, x) by {
        if d1.allocation@.contains_key(x) {
        } else {
            assert(!d2.allocation@.contains_key(f(x)));
        }
    }
    assert forall|x: usize| #[trigger] row(d2.need@, f(x)) == row(d1.need@, x) by {
        if d1.need@.contains_key(x) {
        } else {
            assert(!d2.need@.contains_key(f(x)));
        }
    }
    let g = |y: usize| choose|x: usize| #[trigger] f(x) == y;
    assert forall|y: usize| d2.threads().contains(y) implies f(#[trigger] g(y)) == y && d1.threads().contains(g(y)) by {
        assert(exists|x: usize| #[trigger] f(x) == y);
        let x = g(y);
        assert(f(x) == y);
        if d2.allocation@.contains_key(y) {
            assert(d1.allocation@.contains_key(x));
        } else {
            assert(d1.need@.contains_key(x));
        }
    }
    // From d1 to d2 through f.
    assert forall|t: usize, p: Seq<usize>|
        d1.threads().contains(t) && (forall|x: usize| #[trigger] p.contains(x) ==> d1.threads().contains(x))
            && #[trigger] (d1.finish_rule())(t, p) implies (d2.finish_rule())(f(t), p.map_values(f)) by {
        assert forall|r: usize| #[trigger] row(d2.need@, f(t)).contains_key(r) implies row(d2.need@, f(t))[r]
            <= d2.free_after(p.map_values(f), r) by {
            lemma_sum_map(p, f, d2.held_of(r));
            assert((|x: usize| d2.held_of(r)(f(x))) =~= d1.held_of(r)) by {
                assert forall|x: usize| #[trigger] d2.held_of(r)(f(x)) == d1.held_of(r)(x) by {
                    assert(row(d2.allocation@, f(x)) == row(d1.allocation@, x));
                }
            }
            assert(row(d1.need@, t)[r] <= d1.free_after(p, r));
        }
    }
    assert forall|x: usize| d1.threads().contains(x) implies d2.threads().contains(#[trigger] f(x)) by {}
    assert forall|y: usize| #[trigger] d2.threads().contains(y) implies exists|x: usize|
        d1.threads().contains(x) && #[trigger] f(x) == y by {
        assert(f(g(y)) == y);
    }
    if d1.is_safe() {
        lemma_safe_renamed(d1.threads(), d1.finish_rule(), d2.threads(), d2.finish_rule(), f);
    }
    // From d2 back to d1 through the inverse renaming.
    assert forall|x: usize, y: usize|
        d2.threads().contains(x) && d2.threads().contains(y) && #[trigger] g(x) == #[trigger] g(y) implies x == y by {
        assert(f(g(x)) == x && f(g(y)) == y);
    }
    assert forall|y: usize| d2.threads().contains(y) implies d1.threads().contains(#[trigger] g(y)) by {
        assert(f(g(y)) == y);
    }
    assert forall|x: usize| #[trigger] d1.threads().contains(x) implies exists|y: usize|
        d2.threads().contains(y) && #[trigger] g(y) == x by {
        let y = f(x);
        assert(d2.threads().contains(y)) by {
            if d1.allocation@.contains_key(x) {
                assert(d2.allocation@.contains_key(f(x)));
            } else {
                assert(d2.need@.contains_key(f(x)));
            }
        }
        assert(f(g(y)) == y);
        assert(g(y) == x);
    }
    assert forall|t: usize, p: Seq<usize>|
        d2.threads().contains(t) && (forall|x: usize| #[trigger] p.contains(x) ==> d2.threads().contains(x))
            && #[trigger] (d2.finish_rule())(t, p) implies (d1.finish_rule())(g(t), p.map_values(g)) by {
        assert(f(g(t)) == t);
        assert forall|r: usize| #[trigger] row(d1.need@, g(t)).contains_key(r) implies row(d1.need@, g(t))[r]
            <= d1.free_after(p.map_values(g), r) by {
            lemma_sum_map(p, g, d1.held_of(r));
            assert forall|x: usize| #[trigger] p.contains(x) implies (|z: usize| d1.held_of(r)(g(z)))(x)
                == d2.held_of(r)(x) by {
                assert(f(g(x)) == x);
                assert(row(d2.allocation@, f(g(x))) == row(d1.allocation@, g(x)));
            }
            crate::safety::lemma_sum_pointwise(p, |z: usize| d1.held_of(r)(g(z)), d2.held_of(r));
            crate::safety::lemma_sum_pointwise(p, d2.held_of(r), |z: usize| d1.held_of(r)(g(z)));
            assert(row(d2.need@, f(g(t))) == row(d1.need@, g(t)));
            assert(row(d2.need@, t)[r] <= d2.free_after(p, r));
        }
    }
    if d2.is_safe() {
        lemma_safe_renamed(d2.threads(), d2.finish_rule(), d1.threads(), d1.finish_rule(), g);
    }
}

fn add_one(table: &mut BTreeMap<usize, BTreeMap<usize, u8>>, t: usize, id: usize)
    requires
        amount(row(old(table)@, t), id) < u8::MAX,
    ensures
        rows(final(table)@) == one_more(old(table)@, t, id),
{
    let mut inner = match table.remove(&t) {
        Some(m) => m,
        None => BTreeMap::new(),
    };
    assert(inner@ == row(old(table)@, t));
    let c = match inner.get(&id) {
        Some(v) => *v,
        None => 0,
    };
    inner.insert(id, c + 1);
    table.insert(t, inner);
    assert(rows(table@) =~= one_more(old(table)@, t, id));
}

fn remove_one(table: &mut BTreeMap<usize, BTreeMap<usize, u8>>, t: usize, id: usize)
    ensures
        rows(final(table)@) == one_less(old(table)@, t, id),
{
    let taken = table.remove(&t);
    match taken {
        Some(mut inner) => {
            let c = match inner.get(&id) {
                Some(v) => Some(*v),
                None => None,
            };
            match c {
                Some(c) => {
                    if c <= 1 {
                        inner.remove(&id);
                    } else {
                        inner.insert(id, c - 1);
                    }
                },
                None => {},
            }
            table.insert(t, inner);
            assert(rows(table@) =~= one_less(old(table)@, t, id));
        },
        None => {
            assert(table@ =~= old(table)@);
        },
    }
}

} // verus!
