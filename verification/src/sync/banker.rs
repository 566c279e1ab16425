//! Banker's algorithm for deadlock avoidance.
//!
//! The banker keeps, per resource type, how many units are free, and per
//! thread how many units it holds and how many more it still needs.  The
//! allocation and need matrices grow on demand when a thread or resource
//! index beyond their current size is touched.
use vstd::prelude::*;
use crate::safety::{
    is_safe_order, is_safe_state, lemma_first_missing, lemma_sum_push, lemma_sum_within, sum_over,
    within, count_true,
    lemma_count_true_all_false, lemma_count_true_set, lemma_count_true_full,
};

verus! {

/// Manages the banker's algorithm safety check.
pub struct Banker {
    /// Free units of each resource type.
    available: Vec<isize>,
    /// Units of each resource type held by each thread.
    allocation: Vec<Vec<isize>>,
    /// Units of each resource type each thread still needs.
    need: Vec<Vec<isize>>,
}

/// The matrix `rows` after growing it to at least `tid + 1` rows of
/// `width` columns, new cells being zero.
pub open spec fn grown(rows: Seq<Seq<isize>>, tid: int, width: int) -> Seq<Seq<isize>> {
    Seq::new(
        if rows.len() > tid { rows.len() } else { (tid + 1) as nat },
        |i: int| Seq::new(width as nat, |j: int| cell(rows, i, j)),
    )
}

/// The cell `(i, j)` of `rows`, zero outside the matrix.
pub open spec fn cell(rows: Seq<Seq<isize>>, i: int, j: int) -> isize {
    if 0 <= i < rows.len() && 0 <= j < rows[i].len() {
        rows[i][j]
    } else {
        0
    }
}

/// `free` padded with zeros to cover resource type `rid`.
pub open spec fn extended(free: Seq<isize>, rid: int) -> Seq<isize> {
    Seq::new(
        if free.len() > rid { free.len() } else { (rid + 1) as nat },
        |j: int| if j < free.len() { free[j] } else { 0isize },
    )
}

/// Growing a matrix changes no cell: every cell reads as before (cells
/// outside the matrix read as zero), and afterwards the matrix has a row for
/// thread `tid` and rows of `width` cells.
pub proof fn lemma_grown_cells(rows: Seq<Seq<isize>>, tid: int, width: int)
    requires
        0 <= tid,
        0 <= width,
        forall|i: int| 0 <= i < rows.len() ==> #[trigger] rows[i].len() <= width,
    ensures
        grown(rows, tid, width).len() == if rows.len() > tid { rows.len() } else { (tid + 1) as nat },
        forall|i: int| 0 <= i < grown(rows, tid, width).len() ==> #[trigger] grown(rows, tid, width)[i].len() == width,
        forall|i: int, j: int| #[trigger] cell(grown(rows, tid, width), i, j) == cell(rows, i, j),
{
    let g = grown(rows, tid, width);
    assert forall|i: int, j: int| #[trigger] cell(g, i, j) == cell(rows, i, j) by {
        if 0 <= i < rows.len() && 0 <= j < rows[i].len() {
            assert(j < width);
        }
    }
}

/// Adding to one cell changes that cell by the amount added and no other
/// cell.
pub proof fn lemma_grown_plus_cells(rows: Seq<Seq<isize>>, tid: int, rid: int, width: int, delta: int)
    requires
        0 <= tid,
        0 <= rid < width,
        forall|i: int| 0 <= i < rows.len() ==> #[trigger] rows[i].len() <= width,
        isize::MIN <= cell(rows, tid, rid) + delta <= isize::MAX,
    ensures
        cell(grown_plus(rows, tid, rid, width, delta), tid, rid) == cell(rows, tid, rid) + delta,
        forall|i: int, j: int|
            !(i == tid && j == rid) ==> #[trigger] cell(grown_plus(rows, tid, rid, width, delta), i, j) == cell(
                rows,
                i,
                j,
            ),
        grown_plus(rows, tid, rid, width, delta).len() == grown(rows, tid, width).len(),
{
    lemma_grown_cells(rows, tid, width);
    let g = grown(rows, tid, width);
    let gp = grown_plus(rows, tid, rid, width, delta);
    assert(cell(g, tid, rid) == cell(rows, tid, rid));
    assert forall|i: int, j: int| !(i == tid && j == rid) implies #[trigger] cell(gp, i, j) == cell(rows, i, j) by {
        assert(cell(g, i, j) == cell(rows, i, j));
    }
}

/// Registering resource type `rid` keeps the free count of every other
/// known resource type, gives the new types below `rid` no unit, and gives
/// `rid` its count.
pub proof fn lemma_extended_keeps(free: Seq<isize>, rid: int, count: isize)
    requires
        0 <= rid,
    ensures
        ({
            let after = extended(free, rid).update(rid, count);
            &&& after.len() == if rid < free.len() { free.len() } else { (rid + 1) as nat }
            &&& after[rid] == count
            &&& forall|j: int| 0 <= j < free.len() && j != rid ==> #[trigger] after[j] == free[j]
            &&& forall|j: int| free.len() <= j < after.len() && j != rid ==> #[trigger] after[j] == 0
        }),
{
}

/// [`grown`], with `delta` added to the cell `(tid, rid)`.
pub open spec fn grown_plus(rows: Seq<Seq<isize>>, tid: int, rid: int, width: int, delta: int) -> Seq<
    Seq<isize>,
> {
    let g = grown(rows, tid, width);
    g.update(tid, g[tid].update(rid, (cell(rows, tid, rid) + delta) as isize))
}

/// Adding `-delta` to a cell right after adding `delta` leaves the matrix
/// as growing it alone would: a release undoes an allocation.
pub proof fn lemma_add_then_take_back(rows: Seq<Seq<isize>>, tid: int, rid: int, width: int, delta: int)
    requires
        0 <= tid,
        0 <= rid < width,
        forall|i: int| 0 <= i < rows.len() ==> #[trigger] rows[i].len() <= width,
        isize::MIN <= cell(rows, tid, rid) + delta <= isize::MAX,
    ensures
        grown_plus(grown_plus(rows, tid, rid, width, delta), tid, rid, width, -delta) == grown(
            rows,
            tid,
            width,
        ),
{
    let once = grown_plus(rows, tid, rid, width, delta);
    let g = grown(rows, tid, width);
    assert(once.len() > tid);
    assert(grown(once, tid, width) =~= once) by {
        assert forall|i: int| 0 <= i < once.len() implies #[trigger] grown(once, tid, width)[i] =~= once[i] by {
            assert(once[i].len() == width);
        }
    }
    assert(cell(once, tid, rid) == cell(rows, tid, rid) + delta);
    assert(grown_plus(once, tid, rid, width, -delta)[tid] =~= g[tid]);
    assert(grown_plus(once, tid, rid, width, -delta) =~= g);
}

/// More free units never make a safe state unsafe: a banker that differs
/// from a safe one only in having at least as many free units of each
/// resource type is safe too (the same completion order works).
pub proof fn lemma_more_free_keeps_safe(b1: Banker, b2: Banker)
    requires
        b1.held_rows() == b2.held_rows(),
        b1.need_rows() == b2.need_rows(),
        b1.free().len() == b2.free().len(),
        forall|j: int| 0 <= j < b1.free().len() ==> #[trigger] b1.free()[j] <= b2.free()[j],
        b1.is_safe(),
    ensures
        b2.is_safe(),
{
    let s = choose|s: Seq<usize>| #[trigger] is_safe_order(s, b1.threads(), b1.finish_rule());
    assert(b1.threads() =~= b2.threads());
    assert forall|k: int| 0 <= k < s.len() implies #[trigger] (b2.finish_rule())(s[k], s.take(k)) by {
        assert((b1.finish_rule())(s[k], s.take(k)));
        assert forall|j: int| 0 <= j < b2.free().len() implies b2.needed(s[k], j) <= b2.free()[j] + sum_over(
            s.take(k),
            #[trigger] b2.held_of(j),
        ) by {
            assert(b1.held_of(j) =~= b2.held_of(j));
            assert(b1.needed(s[k], j) <= b1.free()[j] + sum_over(s.take(k), b1.held_of(j)));
        }
    }
    assert(is_safe_order(s, b2.threads(), b2.finish_rule()));
}

impl Banker {
    /// Free units, per resource type.
    pub closed spec fn free(&self) -> Seq<isize> {
        self.available@
    }

    /// Held units, per thread and resource type.
    pub closed spec fn held_rows(&self) -> Seq<Seq<isize>> {
        self.allocation@.map_values(|r: Vec<isize>| r@)
    }

    /// Still needed units, per thread and resource type.
    pub closed spec fn need_rows(&self) -> Seq<Seq<isize>> {
        self.need@.map_values(|r: Vec<isize>| r@)
    }

    /// Both matrices have one row per known thread, rows of the two
    /// matrices match in length, and no row is wider than the number of
    /// resource types.
    pub open spec fn wf(&self) -> bool {
        &&& self.held_rows().len() == self.need_rows().len()
        &&& forall|i: int|
            0 <= i < self.held_rows().len() ==> {
                &&& #[trigger] self.held_rows()[i].len() == self.need_rows()[i].len()
                &&& self.held_rows()[i].len() <= self.free().len()
            }
    }

    /// Every row covers every resource type (the safety check reads them all).
    pub open spec fn rows_cover_resources(&self) -> bool {
        forall|i: int|
            0 <= i < self.held_rows().len() ==> #[trigger] self.held_rows()[i].len() == self.free().len()
    }

    /// Units of resource `j` held by thread `t`; a cell the matrix does not
    /// have yet (it grows lazily) counts as zero.
    pub open spec fn held(&self, t: usize, j: int) -> int {
        cell(self.held_rows(), t as int, j) as int
    }

    /// Units of resource `j` thread `t` still needs; a missing cell counts
    /// as zero.
    pub open spec fn needed(&self, t: usize, j: int) -> int {
        cell(self.need_rows(), t as int, j) as int
    }

    /// What each thread holds of resource `j`.
    pub open spec fn held_of(&self, j: int) -> spec_fn(usize) -> int {
        |t: usize| self.held(t, j)
    }

    /// No held count is negative.
    pub open spec fn allocations_nonneg(&self) -> bool {
        forall|i: int, j: int|
            0 <= i < self.held_rows().len() && 0 <= j < self.held_rows()[i].len() ==> #[trigger] self.held_rows()[i][j]
                >= 0
    }

    /// `p` lists known threads, each once, each able to finish after the
    /// threads before it released what they hold.
    pub open spec fn is_finish_order(&self, p: Seq<usize>) -> bool {
        &&& p.no_duplicates()
        &&& forall|x: usize| #[trigger] p.contains(x) ==> x < self.held_rows().len()
        &&& forall|k: int| 0 <= k < p.len() ==> #[trigger] self.can_finish(p[k], p.take(k))
    }

    /// Whichever threads finish, in whichever order they can, the free
    /// counts after they released what they hold stay within `isize`.
    pub open spec fn releases_fit(&self) -> bool {
        forall|p: Seq<usize>, j: int|
            self.is_finish_order(p) && 0 <= j < self.free().len() ==> isize::MIN <= self.free()[j]
                + #[trigger] sum_over(p, self.held_of(j)) <= isize::MAX
    }

    /// The finish order `g` is stuck: some known thread is not in it, and
    /// none of those can finish after `g` released what it holds.
    pub open spec fn is_stuck(&self, g: Seq<usize>) -> bool {
        &&& self.is_finish_order(g)
        &&& exists|t: usize| t < self.held_rows().len() && !#[trigger] g.contains(t)
        &&& forall|t: usize| t < self.held_rows().len() && !#[trigger] g.contains(t) ==> !self.can_finish(t, g)
    }

    /// Thread `t` can run to completion once the threads of `released` have
    /// given back what they hold: for every resource type its need is at
    /// most the free units plus those released units.
    pub open spec fn can_finish(&self, t: usize, released: Seq<usize>) -> bool {
        forall|j: int|
            0 <= j < self.free().len() ==> self.needed(t, j) <= self.free()[j] + sum_over(
                released,
                #[trigger] self.held_of(j),
            )
    }

    /// [`Self::can_finish`] as a rule on threads and released prefixes.
    pub open spec fn finish_rule(&self) -> spec_fn(usize, Seq<usize>) -> bool {
        |t: usize, released: Seq<usize>| self.can_finish(t, released)
    }

    /// The known threads.
    pub open spec fn threads(&self) -> Set<usize> {
        Set::new(|t: usize| t < self.held_rows().len())
    }

    /// One pass of the safety scan from thread `i` on: in index order, each
    /// unfinished thread that can finish after the threads of `order`
    /// released what they hold is marked finished and appended to `order`.
    pub open spec fn scan_pass(&self, fin: Seq<bool>, order: Seq<usize>, i: int) -> (Seq<bool>, Seq<usize>)
        decreases fin.len() - i,
    {
        if i < 0 || i >= fin.len() {
            (fin, order)
        } else if !fin[i] && self.can_finish(i as usize, order) {
            self.scan_pass(fin.update(i, true), order.push(i as usize), i + 1)
        } else {
            self.scan_pass(fin, order, i + 1)
        }
    }

    /// The safety scan: passes repeat until one finishes no further thread;
    /// the threads finished, in the order the scan finished them.
    pub open spec fn scan_from(&self, fin: Seq<bool>, order: Seq<usize>) -> Seq<usize>
        decreases fin.len() - count_true(fin),
    {
        let (fin2, order2) = self.scan_pass(fin, order, 0);
        if order2.len() <= order.len() {
            order
        } else {
            proof {
                self.lemma_scan_pass_counts(fin, order, 0);
                lemma_count_true_full(fin2);
                lemma_count_true_full(fin);
            }
            self.scan_from(fin2, order2)
        }
    }

    /// The scan finishes every known thread, starting with none finished.
    pub open spec fn scan_finishes_all(&self) -> bool {
        self.scan_from(Seq::new(self.held_rows().len(), |x: int| false), Seq::empty()).len()
            == self.held_rows().len()
    }

    /// A pass marks as many threads finished as it appends.
    pub proof fn lemma_scan_pass_counts(&self, fin: Seq<bool>, order: Seq<usize>, i: int)
        ensures
            self.scan_pass(fin, order, i).0.len() == fin.len(),
            self.scan_pass(fin, order, i).1.len() - order.len() == count_true(self.scan_pass(fin, order, i).0)
                - count_true(fin),
        decreases fin.len() - i,
    {
        if i < 0 || i >= fin.len() {
        } else if !fin[i] && self.can_finish(i as usize, order) {
            lemma_count_true_set(fin, i);
            self.lemma_scan_pass_counts(fin.update(i, true), order.push(i as usize), i + 1);
        } else {
            self.lemma_scan_pass_counts(fin, order, i + 1);
        }
    }

    /// Some order lets every known thread finish.
    pub open spec fn is_safe(&self) -> bool {
        is_safe_state(self.threads(), self.finish_rule())
    }

    /// Creates a banker that knows no resource and no thread.
    pub fn new() -> (b: Self)
        ensures
            b.wf(),
            b.free() == Seq::<isize>::empty(),
            b.held_rows() == Seq::<Seq<isize>>::empty(),
            b.need_rows() == Seq::<Seq<isize>>::empty(),
    {
        let b = Banker { available: Vec::new(), allocation: Vec::new(), need: Vec::new() };
        assert(b.held_rows() =~= Seq::<Seq<isize>>::empty());
        assert(b.need_rows() =~= Seq::<Seq<isize>>::empty());
        b
    }

    /// Registers resource type `rid` with `count` free units; resource types
    /// below it that were unknown get zero units.  The matrices grow later,
    /// when a thread's counts are first touched.
    pub fn add_new_resource_type(&mut self, rid: usize, count: isize)
        requires
            old(self).wf(),
            rid < usize::MAX,
        ensures
            final(self).wf(),
            final(self).free() == extended(old(self).free(), rid as int).update(rid as int, count),
            final(self).free()[rid as int] == count,
            final(self).free().len() == if rid < old(self).free().len() {
                old(self).free().len()
            } else {
                (rid + 1) as nat
            },
            forall|j: int|
                0 <= j < old(self).free().len() && j != rid ==> #[trigger] final(self).free()[j]
                    == old(self).free()[j],
            forall|j: int|
                old(self).free().len() <= j < rid ==> #[trigger] final(self).free()[j] == 0,
            final(self).held_rows() == old(self).held_rows(),
            final(self).need_rows() == old(self).need_rows(),
    {
        while self.available.len() <= rid
            invariant
                rid < usize::MAX,
                self.held_rows() == old(self).held_rows(),
                self.need_rows() == old(self).need_rows(),
                old(self).free().len() <= self.free().len() <= extended(old(self).free(), rid as int).len(),
                forall|j: int|
                    0 <= j < self.free().len() ==> #[trigger] self.free()[j] == extended(
                        old(self).free(),
                        rid as int,
                    )[j],
            decreases rid + 1 - self.available.len(),
        {
            self.available.push(0);
        }
        self.available.set(rid, count);
        assert(self.free() =~= extended(old(self).free(), rid as int).update(rid as int, count));
        proof {
            lemma_extended_keeps(old(self).free(), rid as int, count);
        }
    }

    /// Adds `count` free units to known resource type `rid`.
    pub fn add_to_available(&mut self, rid: usize, count: isize)
        requires
            rid < old(self).free().len(),
            isize::MIN <= old(self).free()[rid as int] + count <= isize::MAX,
        ensures
            final(self).free() == old(self).free().update(
                rid as int,
                (old(self).free()[rid as int] + count) as isize,
            ),
            final(self).held_rows() == old(self).held_rows(),
            final(self).need_rows() == old(self).need_rows(),
    {
        let v = self.available[rid];
        self.available.set(rid, v + count);
    }

    /// Adds `count` units of known resource type `rid` to what thread
    /// `tid` holds, growing the matrices first.
    pub fn add_to_allocation(&mut self, tid: usize, rid: usize, count: isize)
        requires
            old(self).wf(),
            rid < old(self).free().len(),
            tid < usize::MAX,
            isize::MIN <= cell(old(self).held_rows(), tid as int, rid as int) + count <= isize::MAX,
        ensures
            final(self).wf(),
            final(self).rows_cover_resources(),
            final(self).free() == old(self).free(),
            final(self).held_rows() == grown_plus(
                old(self).held_rows(),
                tid as int,
                rid as int,
                old(self).free().len() as int,
                count as int,
            ),
            final(self).need_rows() == grown(
                old(self).need_rows(),
                tid as int,
                old(self).free().len() as int,
            ),
            cell(final(self).held_rows(), tid as int, rid as int) == cell(old(self).held_rows(), tid as int, rid as int)
                + count,
            forall|i: int, j: int|
                !(i == tid && j == rid) ==> #[trigger] cell(final(self).held_rows(), i, j) == cell(
                    old(self).held_rows(),
                    i,
                    j,
                ),
            forall|i: int, j: int| #[trigger] cell(final(self).need_rows(), i, j) == cell(old(self).need_rows(), i, j),
            final(self).held_rows().len() > tid,
    {
        proof {
            assert forall|i: int| 0 <= i < old(self).need_rows().len() implies #[trigger] old(self).need_rows()[i].len()
                <= old(self).free().len() by {
                assert(old(self).held_rows()[i].len() == old(self).need_rows()[i].len());
            }
            lemma_grown_plus_cells(old(self).held_rows(), tid as int, rid as int, old(self).free().len() as int, count as int);
            lemma_grown_cells(old(self).need_rows(), tid as int, old(self).free().len() as int);
        }
        self.expand_matrixies(tid, rid);
        assert(self.held_rows()[tid as int] == self.allocation@[tid as int]@);
        assert(self.allocation@[tid as int]@[rid as int] == cell(old(self).held_rows(), tid as int, rid as int));
        let v = self.allocation[tid][rid];
        self.allocation[tid].set(rid, v + count);
        proof {
            assert(self.held_rows() =~= grown_plus(
                old(self).held_rows(),
                tid as int,
                rid as int,
                old(self).free().len() as int,
                count as int,
            ));
        }
    }

    /// Adds `count` units of known resource type `rid` to what thread
    /// `tid` still needs, growing the matrices first.
    pub fn add_to_need(&mut self, tid: usize, rid: usize, count: isize)
        requires
            old(self).wf(),
            rid < old(self).free().len(),
            tid < usize::MAX,
            isize::MIN <= cell(old(self).need_rows(), tid as int, rid as int) + count <= isize::MAX,
        ensures
            final(self).wf(),
            final(self).rows_cover_resources(),
            final(self).free() == old(self).free(),
            final(self).held_rows() == grown(
                old(self).held_rows(),
                tid as int,
                old(self).free().len() as int,
            ),
            final(self).need_rows() == grown_plus(
                old(self).need_rows(),
                tid as int,
                rid as int,
                old(self).free().len() as int,
                count as int,
            ),
            cell(final(self).need_rows(), tid as int, rid as int) == cell(old(self).need_rows(), tid as int, rid as int)
                + count,
            forall|i: int, j: int|
                !(i == tid && j == rid) ==> #[trigger] cell(final(self).need_rows(), i, j) == cell(
                    old(self).need_rows(),
                    i,
                    j,
                ),
            forall|i: int, j: int| #[trigger] cell(final(self).held_rows(), i, j) == cell(old(self).held_rows(), i, j),
            final(self).need_rows().len() > tid,
    {
        proof {
            assert forall|i: int| 0 <= i < old(self).need_rows().len() implies #[trigger] old(self).need_rows()[i].len()
                <= old(self).free().len() by {
                assert(old(self).held_rows()[i].len() == old(self).need_rows()[i].len());
            }
            lemma_grown_plus_cells(old(self).need_rows(), tid as int, rid as int, old(self).free().len() as int, count as int);
            lemma_grown_cells(old(self).held_rows(), tid as int, old(self).free().len() as int);
        }
        self.expand_matrixies(tid, rid);
        assert(self.need_rows()[tid as int] == self.need@[tid as int]@);
        assert(self.need@[tid as int]@[rid as int] == cell(old(self).need_rows(), tid as int, rid as int));
        let v = self.need[tid][rid];
        self.need[tid].set(rid, v + count);
        proof {
            assert(self.need_rows() =~= grown_plus(
                old(self).need_rows(),
                tid as int,
                rid as int,
                old(self).free().len() as int,
                count as int,
            ));
        }
    }

    /// Runs the safety check: repeatedly picks any unfinished thread whose
    /// need fits in the work vector, lets it finish and release what it
    /// holds, until no further thread can finish.  The state is safe when
    /// every thread finished.  Cells the matrices do not have yet (they grow
    /// lazily) count as zero.
    ///
    /// A `true` answer always comes with a completion order (the one the
    /// scan found); a `false` answer with a stuck finish order (the one the
    /// scan got stuck in).  When no thread holds a negative count, `false`
    /// means that no completion order exists.
    #[verifier::spinoff_prover]
    pub fn check_safety(&self) -> (safe: bool)
        requires
            self.wf(),
            self.releases_fit(),
        ensures
            safe == self.scan_finishes_all(),
            safe ==> self.is_safe(),
            !safe ==> exists|g: Seq<usize>| #[trigger] self.is_stuck(g),
            self.allocations_nonneg() ==> (safe <==> self.is_safe()),
    {
        let n = self.allocation.len();
        let m = self.available.len();
        let mut work: Vec<isize> = Vec::new();
        let mut j: usize = 0;
        while j < m
            invariant
                m == self.free().len(),
                j <= m,
                work@ == self.free().take(j as int),
            decreases m - j,
        {
            work.push(self.available[j]);
            j += 1;
            assert(work@ =~= self.free().take(j as int));
        }
        assert(work@ =~= self.free());
        let mut finish: Vec<bool> = Vec::new();
        let mut k: usize = 0;
        while k < n
            invariant
                k <= n,
                finish@ == Seq::new(k as nat, |x: int| false),
            decreases n - k,
        {
            finish.push(false);
            k += 1;
            assert(finish@ =~= Seq::new(k as nat, |x: int| false));
        }
        let mut count: usize = 0;
        let ghost mut order: Seq<usize> = Seq::empty();
        assert(finish@ =~= Seq::new(self.held_rows().len(), |x: int| false));
        let ghost result = self.scan_from(finish@, order);
        proof {
            assert forall|jj: int| 0 <= jj < m implies work@[jj] == self.free()[jj] + sum_over(
                order,
                #[trigger] self.held_of(jj),
            ) by {}
            assert(count_true(finish@) == 0) by {
                lemma_count_true_all_false(finish@);
            }
        }
        let mut progress = true;
        while progress
            invariant
                self.wf(),
                self.releases_fit(),
                n == self.held_rows().len(),
                m == self.free().len(),
                work.len() == m,
                forall|jj: int|
                    0 <= jj < m ==> work@[jj] == self.free()[jj] + sum_over(
                        order,
                        #[trigger] self.held_of(jj),
                    ),
                finish.len() == n,
                order.no_duplicates(),
                forall|x: usize|
                    #![trigger order.contains(x)]
                    #![trigger finish@[x as int]]
                    order.contains(x) <==> (x < n && finish@[x as int]),
                count == count_true(finish@),
                count <= n,
                order.len() == count,
                self.scan_from(finish@, order) == result,
                !progress ==> self.scan_from(finish@, order) == order,
                forall|q: int| 0 <= q < order.len() ==> #[trigger] self.can_finish(order[q], order.take(q)),
                !progress ==> forall|t: usize|
                    t < n && !#[trigger] finish@[t as int] ==> !self.can_finish(t, order),
            decreases n - count + (if progress { 1int } else { 0int }),
        {
            progress = false;
            let ghost count0 = count;
            let ghost fin0 = finish@;
            let ghost order0 = order;
            let mut i: usize = 0;
            while i < n
                invariant
                    self.wf(),
                    self.releases_fit(),
                    n == self.held_rows().len(),
                    m == self.free().len(),
                    work.len() == m,
                    i <= n,
                    forall|jj: int|
                        0 <= jj < m ==> work@[jj] == self.free()[jj] + sum_over(
                            order,
                            #[trigger] self.held_of(jj),
                        ),
                    finish.len() == n,
                    order.no_duplicates(),
                    forall|x: usize|
                        #![trigger order.contains(x)]
                        #![trigger finish@[x as int]]
                        order.contains(x) <==> (x < n && finish@[x as int]),
                    count == count_true(finish@),
                    count <= n,
                    count0 <= count,
                    order.len() == count,
                    fin0.len() == n,
                    self.scan_pass(fin0, order0, 0) == self.scan_pass(finish@, order, i as int),
                    !progress ==> order == order0 && finish@ == fin0,
                    forall|q: int|
                        0 <= q < order.len() ==> #[trigger] self.can_finish(order[q], order.take(q)),
                    !progress ==> count == count0,
                    progress ==> count > count0,
                    !progress ==> forall|t: usize|
                        t < i && !#[trigger] finish@[t as int] ==> !self.can_finish(t, order),
                decreases n - i,
            {
                if !finish[i] {
                    proof {
                        assert(self.held_rows()[i as int] == self.allocation@[i as int]@);
                        assert(self.need_rows()[i as int] == self.need@[i as int]@);
                    }
                    let mut fits = true;
                    let mut j: usize = 0;
                    while fits && j < m
                        invariant
                            self.wf(),
                            i < n,
                            n == self.held_rows().len(),
                            m == self.free().len(),
                            work.len() == m,
                            j <= m,
                            self.need_rows()[i as int] == self.need@[i as int]@,
                            fits <==> forall|jj: int|
                                0 <= jj < j ==> #[trigger] self.needed(i, jj) <= work@[jj],
                        decreases m - j,
                    {
                        let need_ij = if j < self.need[i].len() {
                            self.need[i][j]
                        } else {
                            0
                        };
                        assert(need_ij == self.needed(i, j as int));
                        if need_ij > work[j] {
                            fits = false;
                        }
                        j += 1;
                    }
                    proof {
                        if fits {
                            assert forall|jj: int| 0 <= jj < m implies self.needed(i, jj)
                                <= self.free()[jj] + sum_over(order, #[trigger] self.held_of(jj)) by {
                                assert(self.needed(i, jj) <= work@[jj]);
                            }
                            assert(self.can_finish(i, order));
                        } else {
                            let jj = choose|jj: int|
                                0 <= jj < j && !(#[trigger] self.needed(i, jj) <= work@[jj]);
                            assert(work@[jj] == self.free()[jj] + sum_over(order, self.held_of(jj)));
                            assert(!self.can_finish(i, order));
                        }
                    }
                    if fits {
                        let ghost next = order.push(i);
                        proof {
                            assert(!order.contains(i));
                            assert(next.no_duplicates()) by {
                                assert forall|a: int, b: int| 0 <= a < b < next.len() implies next[a]
                                    != next[b] by {
                                    if b == next.len() - 1 {
                                        assert(order.contains(next[a]));
                                    }
                                }
                            }
                            assert forall|x: usize| #[trigger] next.contains(x) implies x < n by {
                                let q = choose|q: int| 0 <= q < next.len() && next[q] == x;
                                if q < order.len() {
                                    assert(order.contains(x));
                                }
                            }
                            assert forall|q: int| 0 <= q < next.len() implies #[trigger] self.can_finish(
                                next[q],
                                next.take(q),
                            ) by {
                                if q < order.len() {
                                    assert(next.take(q) =~= order.take(q));
                                    assert(self.can_finish(order[q], order.take(q)));
                                } else {
                                    assert(next.take(q) =~= order);
                                }
                            }
                            assert(self.is_finish_order(next));
                        }
                        let mut j: usize = 0;
                        while j < m
                            invariant
                                self.wf(),
                                self.releases_fit(),
                                i < n,
                                n == self.held_rows().len(),
                                m == self.free().len(),
                                work.len() == m,
                                j <= m,
                                next == order.push(i),
                                self.is_finish_order(next),
                                self.held_rows()[i as int] == self.allocation@[i as int]@,
                                forall|jj: int|
                                    0 <= jj < j ==> work@[jj] == self.free()[jj] + sum_over(
                                        next,
                                        #[trigger] self.held_of(jj),
                                    ),
                                forall|jj: int|
                                    j <= jj < m ==> work@[jj] == self.free()[jj] + sum_over(
                                        order,
                                        #[trigger] self.held_of(jj),
                                    ),
                            decreases m - j,
                        {
                            proof {
                                lemma_sum_push(order, i, self.held_of(j as int));
                                assert(isize::MIN <= self.free()[j as int] + sum_over(next, self.held_of(j as int))
                                    <= isize::MAX);
                            }
                            let held_ij = if j < self.allocation[i].len() {
                                self.allocation[i][j]
                            } else {
                                0
                            };
                            assert(held_ij == self.held(i, j as int));
                            let w = work[j];
                            work.set(j, w + held_ij);
                            j += 1;
                        }
                        proof {
                            lemma_count_true_set(finish@, i as int);
                            lemma_count_true_full(finish@.update(i as int, true));
                        }
                        finish.set(i, true);
                        progress = true;
                        count += 1;
                        proof {
                            assert forall|x: usize|
                                #![trigger next.contains(x)]
                                #![trigger finish@[x as int]]
                                next.contains(x) <==> (x < n && finish@[x as int]) by {
                                if x == i {
                                    assert(next[next.len() - 1] == x);
                                } else if next.contains(x) {
                                    let q = choose|q: int| 0 <= q < next.len() && next[q] == x;
                                    assert(q < order.len());
                                    assert(order[q] == x);
                                    assert(order.contains(x));
                                } else if order.contains(x) {
                                    let q = choose|q: int| 0 <= q < order.len() && order[q] == x;
                                    assert(next[q] == x);
                                }
                            }
                            order = next;
                        }
                    }
                }
                i += 1;
            }
            proof {
                assert(self.scan_pass(finish@, order, n as int) == (finish@, order));
                if progress {
                    assert(self.scan_from(fin0, order0) == self.scan_from(finish@, order));
                } else {
                    assert(self.scan_from(fin0, order0) == order0);
                }
            }
        }
        let safe = count == n;
        proof {
            let threads = self.threads();
            let rule = self.finish_rule();
            lemma_count_true_full(finish@);
            if safe {
                assert forall|t: usize| #[trigger] order.contains(t) <==> threads.contains(t) by {
                    if t < n {
                        assert(finish@[t as int]);
                    }
                }
                assert forall|q: int| 0 <= q < order.len() implies #[trigger] rule(order[q], order.take(q)) by {
                    assert(self.can_finish(order[q], order.take(q)));
                }
                assert(is_safe_order(order, threads, rule));
            } else {
                let t0 = choose|t: int| 0 <= t < n && !finish@[t];
                let t0 = t0 as usize;
                assert(!order.contains(t0));
                assert forall|x: usize| #[trigger] order.contains(x) implies x < n by {}
                assert(self.is_stuck(order));
            }
            if !safe && self.allocations_nonneg() {
                let t0 = choose|t: int| 0 <= t < n && !finish@[t];
                let t0 = t0 as usize;
                assert(!order.contains(t0));
                if self.is_safe() {
                    let s = choose|s: Seq<usize>| #[trigger] is_safe_order(s, threads, rule);
                    let q = lemma_first_missing(s, order, threads, rule, t0);
                    let t = s[q];
                    assert(rule(t, s.take(q)));
                    assert forall|x: usize| #[trigger] order.contains(x) implies x < n by {}
                    self.lemma_finish_monotone(t, s.take(q), order);
                    assert(!finish@[t as int]);
                    assert(false);
                }
            }
        }
        safe
    }

    /// With no negative holdings, a thread that can finish after some
    /// threads released keeps being able to once more threads released.
    proof fn lemma_finish_monotone(&self, t: usize, p: Seq<usize>, g: Seq<usize>)
        requires
            self.allocations_nonneg(),
            self.wf(),
            p.no_duplicates(),
            within(p, g),
            forall|x: usize| #[trigger] g.contains(x) ==> x < self.held_rows().len(),
            self.can_finish(t, p),
        ensures
            self.can_finish(t, g),
    {
        assert forall|j: int| 0 <= j < self.free().len() implies self.needed(t, j)
            <= self.free()[j] + sum_over(g, #[trigger] self.held_of(j)) by {
            assert forall|x: usize| #[trigger] g.contains(x) implies self.held_of(j)(x) >= 0 by {
                if j < self.held_rows()[x as int].len() {
                    assert(self.held_rows()[x as int][j] >= 0);
                }
            }
            lemma_sum_within(p, g, self.held_of(j));
        }
    }

    /// Grows the matrices to cover thread `tid` and every known resource
    /// type; `rid` must name a known resource type.
    #[verifier::spinoff_prover]
    fn expand_matrixies(&mut self, tid: usize, rid: usize)
        requires
            old(self).wf(),
            rid < old(self).free().len(),
            tid < usize::MAX,
        ensures
            final(self).wf(),
            final(self).rows_cover_resources(),
            final(self).free() == old(self).free(),
            final(self).held_rows() == grown(old(self).held_rows(), tid as int, old(self).free().len() as int),
            final(self).need_rows() == grown(old(self).need_rows(), tid as int, old(self).free().len() as int),
    {
        let resource_types = self.available.len();
        let ghost width = resource_types as int;
        let ghost target = grown(old(self).held_rows(), tid as int, width);
        let ghost target_need = grown(old(self).need_rows(), tid as int, width);
        let ghost n0 = old(self).allocation@.len();
        while self.allocation.len() <= tid
            invariant
                self.free() == old(self).free(),
                resource_types == self.free().len(),
                width == resource_types,
                target == grown(old(self).held_rows(), tid as int, width),
                target_need == grown(old(self).need_rows(), tid as int, width),
                n0 == old(self).allocation@.len(),
                old(self).wf(),
                tid < usize::MAX,
                self.allocation@.len() == self.need@.len(),
                n0 <= self.allocation@.len() <= target.len(),
                forall|r: int|
                    0 <= r < n0 ==> #[trigger] self.allocation@[r] == old(self).allocation@[r]
                        && self.need@[r] == old(self).need@[r],
                forall|r: int|
                    n0 <= r < self.allocation@.len() ==> #[trigger] self.allocation@[r]@
                        == target[r] && self.need@[r]@ == target_need[r],
            decreases tid + 1 - self.allocation.len(),
        {
            let mut row: Vec<isize> = Vec::new();
            let mut k: usize = 0;
            while k < resource_types
                invariant
                    k <= resource_types,
                    row@ == Seq::new(k as nat, |j: int| 0isize),
                decreases resource_types - k,
            {
                row.push(0);
                k += 1;
            }
            let row2 = row.clone();
            proof {
                assert(row2@ =~= row@) by {
                    assert forall|j: int| 0 <= j < row@.len() implies row2@[j] == row@[j] by {
                        assert(cloned::<isize>(row[j], row2[j]));
                    }
                }
                let r = self.allocation@.len() as int;
                assert(target[r] =~= row@);
                assert(target_need[r] =~= row@);
            }
            self.allocation.push(row);
            self.need.push(row2);
        }
        let n = self.allocation.len();
        let mut i: usize = 0;
        while i < n
            invariant
                n == self.allocation@.len(),
                n == self.need@.len(),
                n == target.len(),
                n0 == old(self).allocation@.len(),
                n0 <= n,
                width == resource_types,
                target == grown(old(self).held_rows(), tid as int, width),
                target_need == grown(old(self).need_rows(), tid as int, width),
                self.free() == old(self).free(),
                resource_types == self.free().len(),
                old(self).wf(),
                0 <= i <= n,
                forall|r: int|
                    0 <= r < i ==> #[trigger] self.allocation@[r]@ == target[r] && self.need@[r]@
                        == target_need[r],
                forall|r: int|
                    i <= r < n0 ==> #[trigger] self.allocation@[r] == old(self).allocation@[r]
                        && self.need@[r] == old(self).need@[r],
                forall|r: int|
                    n0 <= r < n ==> #[trigger] self.allocation@[r]@ == target[r] && self.need@[r]@
                        == target_need[r],
            decreases n - i,
        {
            let ghost before = self.allocation@;
            let ghost need_before = self.need@;
            assert(forall|r: int| i <= r < n0 ==> #[trigger] before[r] == old(self).allocation@[r]
                && need_before[r] == old(self).need@[r]);
            assert(forall|r: int| 0 <= r < i ==> #[trigger] before[r]@ == target[r]
                && need_before[r]@ == target_need[r]);
            assert(forall|r: int| n0 <= r < n ==> #[trigger] before[r]@ == target[r]
                && need_before[r]@ == target_need[r]);
            proof {
                if i < n0 {
                    assert(old(self).held_rows()[i as int] == old(self).allocation@[i as int]@);
                    assert(old(self).need_rows()[i as int] == old(self).need@[i as int]@);
                }
            }
            while self.allocation[i].len() < resource_types
                invariant
                    n == self.allocation@.len(),
                    n == self.need@.len(),
                    n == target.len(),
                    n0 <= n,
                    width == resource_types,
                    target == grown(old(self).held_rows(), tid as int, width),
                    target_need == grown(old(self).need_rows(), tid as int, width),
                    self.free() == old(self).free(),
                    resource_types == self.free().len(),
                    0 <= i < n,
                    old(self).wf(),
                    before.len() == n,
                    need_before.len() == n,
                    target_need.len() == n,
                    forall|r: int|
                        0 <= r < n && r != i ==> #[trigger] self.allocation@[r] == before[r]
                            && self.need@[r] == need_before[r],
                    self.allocation@[i as int]@.len() == self.need@[i as int]@.len(),
                    self.allocation@[i as int]@.len() <= resource_types,
                    i < n0 ==> old(self).allocation@[i as int]@.len() <= self.allocation@[i as int]@.len(),
                    i < n0 ==> old(self).held_rows()[i as int] == old(self).allocation@[i as int]@,
                    i < n0 ==> old(self).need_rows()[i as int] == old(self).need@[i as int]@,
                    n0 == old(self).allocation@.len(),
                    forall|j: int|
                        0 <= j < self.allocation@[i as int]@.len() ==> #[trigger] self.allocation@[i as int]@[j]
                            == target[i as int][j] && self.need@[i as int]@[j] == target_need[i as int][j],
                decreases resource_types - self.allocation@[i as int]@.len(),
            {
                let ghost a0 = self.allocation@;
                let ghost m0 = self.need@;
                self.allocation[i].push(0);
                self.need[i].push(0);
                proof {
                    assert forall|r: int| 0 <= r < n && r != i implies #[trigger] self.allocation@[r]
                        == before[r] && self.need@[r] == need_before[r] by {
                        assert(a0.update(i as int, self.allocation@[i as int])[r] == a0[r]);
                        assert(m0.update(i as int, self.need@[i as int])[r] == m0[r]);
                    }
                }
            }
            proof {
                assert(self.allocation@[i as int]@ =~= target[i as int]);
                assert(self.need@[i as int]@.len() == width);
                assert(target_need[i as int].len() == width);
                assert forall|j: int| 0 <= j < width implies self.need@[i as int]@[j] == target_need[i as int][j] by {
                    assert(self.allocation@[i as int]@[j] == target[i as int][j]);
                }
                assert(self.need@[i as int]@ =~= target_need[i as int]);
            }
            i += 1;
        }
        proof {
            assert(self.held_rows() =~= target);
            assert forall|r: int| 0 <= r < n implies #[trigger] self.need_rows()[r] == target_need[r] by {
                assert(self.allocation@[r]@ == target[r]);
                assert(self.need_rows()[r] == self.need@[r]@);
            }
            assert(self.need_rows() =~= target_need);
        }
    }
}

} // verus!
