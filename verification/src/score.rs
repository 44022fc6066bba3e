//! Scoring: the non-empty cells split into axis-connected groups of equal
//! values, and the board's score is the sum of the squared group sizes. The
//! specification sums, over every non-empty cell, the size of that cell's
//! group: each group of size k contributes k cells of k each, so the sum is
//! exactly the sum of squared group sizes. The executable scorer walks the
//! board once and runs a breadth-first traversal from each not-yet-visited
//! non-empty cell; the proof shows the traversal marks exactly the cell's
//! group and returns its size.
use vstd::prelude::*;

use crate::board::State;
use crate::board::lemma_index_decompose;

verus! {

/// A valid flat cell index.
pub open spec fn in_range(i: int) -> bool {
    0 <= i < 100
}

/// The two cells are 4-neighbors in the 10x10 grid.
pub open spec fn adjacent(i: int, j: int) -> bool {
    in_range(i) && in_range(j) && (j == i + 10 || j == i - 10 || (j == i + 1 && i % 10 != 9) || (j
        == i - 1 && i % 10 != 0))
}

/// One step between two adjacent non-empty cells of the same value.
pub open spec fn group_step(f: Seq<u8>, i: int, j: int) -> bool {
    adjacent(i, j) && f[i] != 0 && f[i] == f[j]
}

/// Cell `j` is reachable from cell `i` in at most `n` same-value steps.
pub open spec fn reaches(f: Seq<u8>, i: int, j: int, n: nat) -> bool
    decreases n,
{
    i == j || (n > 0 && exists|m: int|
        reaches(f, i, m, (n - 1) as nat) && #[trigger] group_step(f, m, j))
}

/// The two cells belong to the same group.
pub open spec fn connected(f: Seq<u8>, i: int, j: int) -> bool {
    exists|n: nat| reaches(f, i, j, n)
}

/// The group of cell `i`: every cell connected to it.
pub open spec fn group_of(f: Seq<u8>, i: int) -> Set<int> {
    Set::new(|j: int| in_range(j) && connected(f, i, j))
}

/// How many cells cell `i`'s group holds.
pub open spec fn group_size(f: Seq<u8>, i: int) -> nat {
    group_of(f, i).len()
}

/// The sum, over the first `n` cells, of each non-empty cell's group size.
pub open spec fn score_upto(f: Seq<u8>, n: int) -> int
    decreases n,
{
    if n <= 0 {
        0
    } else {
        score_upto(f, n - 1) + if f[n - 1] != 0 {
            group_size(f, n - 1) as int
        } else {
            0int
        }
    }
}

/// The board's score: the sum over all non-empty cells of their group's
/// size, which equals the sum of the squared group sizes.
pub open spec fn score_spec(f: Seq<u8>) -> int {
    score_upto(f, 100)
}

proof fn lemma_step_sym(f: Seq<u8>, i: int, j: int)
    requires
        group_step(f, i, j),
    ensures
        group_step(f, j, i),
{
    lemma_index_decompose(i);
    lemma_index_decompose(j);
    if j == i + 1 {
        vstd::arithmetic::div_mod::lemma_fundamental_div_mod_converse(j, 10, i / 10, i % 10 + 1);
    }
    if j == i - 1 {
        vstd::arithmetic::div_mod::lemma_fundamental_div_mod_converse(j, 10, i / 10, i % 10 - 1);
    }
}

proof fn lemma_connected_step(f: Seq<u8>, i: int, m: int, j: int)
    requires
        connected(f, i, m),
        group_step(f, m, j),
    ensures
        connected(f, i, j),
{
    let n = choose|n: nat| reaches(f, i, m, n);
    assert(reaches(f, i, m, ((n + 1) - 1) as nat));
    assert(reaches(f, i, j, n + 1));
}

proof fn lemma_reaches_trans(f: Seq<u8>, i: int, j: int, k: int, n: nat)
    requires
        connected(f, i, j),
        reaches(f, j, k, n),
    ensures
        connected(f, i, k),
    decreases n,
{
    if j == k {
    } else {
        let m = choose|m: int| reaches(f, j, m, (n - 1) as nat) && #[trigger] group_step(f, m, k);
        lemma_reaches_trans(f, i, j, m, (n - 1) as nat);
        lemma_connected_step(f, i, m, k);
    }
}

/// Connectivity is transitive.
pub proof fn lemma_connected_trans(f: Seq<u8>, i: int, j: int, k: int)
    requires
        connected(f, i, j),
        connected(f, j, k),
    ensures
        connected(f, i, k),
{
    let n = choose|n: nat| reaches(f, j, k, n);
    lemma_reaches_trans(f, i, j, k, n);
}

proof fn lemma_reaches_sym(f: Seq<u8>, i: int, j: int, n: nat)
    requires
        reaches(f, i, j, n),
    ensures
        connected(f, j, i),
    decreases n,
{
    if i == j {
        assert(reaches(f, j, i, 0));
    } else {
        let m = choose|m: int| reaches(f, i, m, (n - 1) as nat) && #[trigger] group_step(f, m, j);
        lemma_reaches_sym(f, i, m, (n - 1) as nat);
        lemma_step_sym(f, m, j);
        assert(reaches(f, j, j, 0));
        assert(reaches(f, j, m, 1));
        lemma_connected_trans(f, j, m, i);
    }
}

/// Connectivity is symmetric.
pub proof fn lemma_connected_sym(f: Seq<u8>, i: int, j: int)
    requires
        connected(f, i, j),
    ensures
        connected(f, j, i),
{
    let n = choose|n: nat| reaches(f, i, j, n);
    lemma_reaches_sym(f, i, j, n);
}

proof fn lemma_reaches_value(f: Seq<u8>, i: int, j: int, n: nat)
    requires
        reaches(f, i, j, n),
        f[i] != 0,
    ensures
        f[j] == f[i],
    decreases n,
{
    if i != j {
        let m = choose|m: int| reaches(f, i, m, (n - 1) as nat) && #[trigger] group_step(f, m, j);
        lemma_reaches_value(f, i, m, (n - 1) as nat);
    }
}

/// Every cell of a non-empty cell's group carries the same value.
pub proof fn lemma_connected_value(f: Seq<u8>, i: int, j: int)
    requires
        connected(f, i, j),
        f[i] != 0,
    ensures
        f[j] == f[i],
{
    let n = choose|n: nat| reaches(f, i, j, n);
    lemma_reaches_value(f, i, j, n);
}

proof fn lemma_reaches_in_closed(f: Seq<u8>, start: int, j: int, n: nat, s: Set<int>)
    requires
        reaches(f, start, j, n),
        s.contains(start),
        forall|a: int, b: int| s.contains(a) && #[trigger] group_step(f, a, b) ==> s.contains(b),
    ensures
        s.contains(j),
    decreases n,
{
    if start != j {
        let m = choose|m: int| reaches(f, start, m, (n - 1) as nat) && #[trigger] group_step(f, m, j);
        lemma_reaches_in_closed(f, start, m, (n - 1) as nat, s);
    }
}

/// A set that contains a cell and is closed under same-value steps contains
/// the cell's whole group.
pub proof fn lemma_group_in_closed_set(f: Seq<u8>, start: int, s: Set<int>)
    requires
        s.contains(start),
        forall|a: int, b: int| s.contains(a) && #[trigger] group_step(f, a, b) ==> s.contains(b),
    ensures
        forall|j: int| group_of(f, start).contains(j) ==> s.contains(j),
{
    assert forall|j: int| group_of(f, start).contains(j) implies s.contains(j) by {
        let n = choose|n: nat| reaches(f, start, j, n);
        lemma_reaches_in_closed(f, start, j, n, s);
    }
}

/// Connected cells have the same group.
pub proof fn lemma_group_eq(f: Seq<u8>, i: int, j: int)
    requires
        connected(f, i, j),
    ensures
        group_of(f, i) == group_of(f, j),
{
    lemma_connected_sym(f, i, j);
    assert forall|q: int| group_of(f, i).contains(q) implies group_of(f, j).contains(q) by {
        lemma_connected_trans(f, j, i, q);
    }
    assert forall|q: int| group_of(f, j).contains(q) implies group_of(f, i).contains(q) by {
        lemma_connected_trans(f, i, j, q);
    }
    assert(group_of(f, i) =~= group_of(f, j));
}

/// A group is a finite set of at most 100 cells, and a cell belongs to its
/// own group.
pub proof fn lemma_group_size_bound(f: Seq<u8>, i: int)
    requires
        in_range(i),
    ensures
        group_of(f, i).finite(),
        1 <= group_size(f, i) <= 100,
        group_of(f, i).contains(i),
{
    let rng = vstd::set_lib::set_int_range(0, 100);
    vstd::set_lib::lemma_int_range(0, 100);
    assert(group_of(f, i).subset_of(rng));
    vstd::set_lib::lemma_set_subset_finite(rng, group_of(f, i));
    vstd::set_lib::lemma_len_subset(group_of(f, i), rng);
    assert(reaches(f, i, i, 0));
    assert(group_of(f, i).contains(i));
    assert(group_of(f, i).remove(i).len() + 1 == group_of(f, i).len());
}

/// Bounds on the partial score sums.
pub proof fn lemma_score_upto_bounds(f: Seq<u8>, n: int)
    requires
        0 <= n <= 100,
        f.len() == 100,
    ensures
        0 <= score_upto(f, n) <= 100 * n,
    decreases n,
{
    if n > 0 {
        lemma_score_upto_bounds(f, n - 1);
        if f[n - 1] != 0 {
            lemma_group_size_bound(f, n - 1);
        }
    }
}

/// The sequence of flags holds a step-closed set of cells.
pub open spec fn checked_closed(f: Seq<u8>, c: Seq<bool>) -> bool {
    forall|i: int, j: int| in_range(i) && c[i] && #[trigger] group_step(f, i, j) ==> c[j]
}

/// The queue's cells as mathematical indices.
pub open spec fn vq_of(q: Seq<usize>) -> Seq<int> {
    q.map_values(|u: usize| u as int)
}

/// The working invariant of the traversal: the visited flags are the given
/// starting flags plus exactly the queued cells, the queue has no duplicates,
/// and every queued cell is a same-value cell connected to the start.
pub open spec fn bfs_inv(
    f: Seq<u8>,
    st: int,
    candy: u8,
    c0: Seq<bool>,
    c: Seq<bool>,
    vq: Seq<int>,
) -> bool {
    &&& c.len() == 100
    &&& c0.len() == 100
    &&& vq.no_duplicates()
    &&& vq.len() <= 100
    &&& forall|k: int|
        0 <= k < vq.len() ==> in_range(#[trigger] vq[k]) && f[vq[k]] == candy && connected(
            f,
            st,
            vq[k],
        ) && !c0[vq[k]]
    &&& forall|i: int| 0 <= i < 100 ==> (c[i] <==> (c0[i] || vq.contains(i)))
}

impl State {
    /// Visit one neighbor candidate: if it continues the current group and
    /// has not been seen, mark it and queue it.
    fn try_visit(
        &self,
        nb: usize,
        candy: u8,
        checked: &mut Vec<bool>,
        q: &mut Vec<usize>,
        Ghost(st): Ghost<int>,
        Ghost(c0): Ghost<Seq<bool>>,
        Ghost(cur): Ghost<int>,
    )
        requires
            self.wf(),
            nb < 100,
            candy != 0,
            in_range(cur),
            adjacent(cur, nb as int),
            self.board@[cur] == candy,
            connected(self.board@, st, cur),
            bfs_inv(self.board@, st, candy, c0, old(checked)@, vq_of(old(q)@)),
        ensures
            bfs_inv(self.board@, st, candy, c0, final(checked)@, vq_of(final(q)@)),
            forall|i: int| 0 <= i < 100 && old(checked)@[i] ==> final(checked)@[i],
            group_step(self.board@, cur, nb as int) ==> final(checked)@[nb as int],
            final(q)@.len() >= old(q)@.len(),
            forall|k: int| 0 <= k < old(q)@.len() ==> final(q)@[k] == old(q)@[k],
    {
        let ghost f = self.board@;
        if !checked[nb] && self.board[nb] == candy {
            checked.set(nb, true);
            q.push(nb);
            proof {
                let vq0 = vq_of(old(q)@);
                let vq1 = vq_of(q@);
                assert(vq1 =~= vq0.push(nb as int));
                assert(!vq0.contains(nb as int));
                assert forall|a: int, b: int|
                    0 <= a < vq1.len() && 0 <= b < vq1.len() && a != b implies vq1[a] != vq1[b] by {
                    if vq1[a] == vq1[b] && a < vq1.len() - 1 && b < vq1.len() - 1 {
                        assert(!vq0.no_duplicates());
                    }
                    if b == vq1.len() - 1 && a < b && vq1[a] == vq1[b] {
                        assert(vq0.contains(nb as int));
                    }
                    if a == vq1.len() - 1 && b < a && vq1[a] == vq1[b] {
                        assert(vq0.contains(nb as int));
                    }
                }
                assert(vq1.no_duplicates());
                assert(group_step(f, cur, nb as int));
                lemma_connected_step(f, st, cur, nb as int);
                let rng = vstd::set_lib::set_int_range(0, 100);
                vstd::set_lib::lemma_int_range(0, 100);
                vq1.unique_seq_to_set();
                assert forall|e: int| vq1.to_set().contains(e) implies rng.contains(e) by {
                    let k = choose|k: int| 0 <= k < vq1.len() && vq1[k] == e;
                }
                assert(vq1.to_set().subset_of(rng));
                vstd::set_lib::lemma_len_subset(vq1.to_set(), rng);
                assert(vq1.len() <= 100);
                assert forall|i: int| 0 <= i < 100 implies (checked@[i] <==> (c0[i] || vq1.contains(
                    i,
                ))) by {
                    if i == nb as int {
                        assert(vq1[vq1.len() - 1] == i);
                        assert(vq1.contains(i));
                    } else {
                        if vq1.contains(i) {
                            let k = choose|k: int| 0 <= k < vq1.len() && vq1[k] == i;
                            assert(vq0[k] == i);
                            assert(vq0.contains(i));
                        }
                        if vq0.contains(i) {
                            let k = choose|k: int| 0 <= k < vq0.len() && vq0[k] == i;
                            assert(vq1[k] == i);
                            assert(vq1.contains(i));
                        }
                    }
                }
            }
        } else {
            proof {
                if group_step(f, cur, nb as int) {
                    assert(f[nb as int] == candy);
                    assert(checked@[nb as int]);
                }
            }
        }
    }
}

/// The sum of group sizes of the flagged cells at or after `from`.
pub open spec fn pending(f: Seq<u8>, c: Seq<bool>, from: int) -> int
    decreases 100 - from,
{
    if from >= 100 {
        0
    } else {
        pending(f, c, from + 1) + if c[from] {
            group_size(f, from) as int
        } else {
            0int
        }
    }
}

/// How many members of a set lie at or after `from` (within the board).
pub open spec fn cells_in(g: Set<int>, from: int) -> int
    decreases 100 - from,
{
    if from >= 100 {
        0
    } else {
        cells_in(g, from + 1) + if g.contains(from) {
            1int
        } else {
            0int
        }
    }
}

proof fn lemma_cells_in_agree(g1: Set<int>, g2: Set<int>, from: int)
    requires
        forall|j: int| from <= j < 100 ==> (g1.contains(j) <==> g2.contains(j)),
    ensures
        cells_in(g1, from) == cells_in(g2, from),
    decreases 100 - from,
{
    if from < 100 {
        lemma_cells_in_agree(g1, g2, from + 1);
    }
}

proof fn lemma_cells_in_len(g: Set<int>, from: int)
    requires
        g.finite(),
        forall|j: int| g.contains(j) ==> from <= j < 100,
    ensures
        cells_in(g, from) == g.len(),
    decreases 100 - from,
{
    if from >= 100 {
        if g.len() > 0 {
            let e = g.choose();
            assert(g.contains(e));
        }
        assert(g =~= Set::empty());
    } else {
        if g.contains(from) {
            let g1 = g.remove(from);
            lemma_cells_in_len(g1, from + 1);
            lemma_cells_in_agree(g, g1, from + 1);
        } else {
            lemma_cells_in_len(g, from + 1);
        }
    }
}

proof fn lemma_pending_bounds(f: Seq<u8>, c: Seq<bool>, from: int)
    requires
        f.len() == 100,
        0 <= from <= 100,
    ensures
        0 <= pending(f, c, from) <= 100 * (100 - from),
    decreases 100 - from,
{
    if from < 100 {
        lemma_pending_bounds(f, c, from + 1);
        if c[from] {
            lemma_group_size_bound(f, from);
        }
    }
}

/// Flagging one whole group adds its size once for every member at or after
/// `from`.
proof fn lemma_pending_add_group(
    f: Seq<u8>,
    c: Seq<bool>,
    c2: Seq<bool>,
    start: int,
    from: int,
)
    requires
        f.len() == 100,
        c.len() == 100,
        c2.len() == 100,
        in_range(start),
        0 <= from <= 100,
        forall|j: int|
            0 <= j < 100 ==> (c2[j] <==> (c[j] || group_of(f, start).contains(j))),
        forall|j: int| 0 <= j < 100 && c[j] ==> !group_of(f, start).contains(j),
    ensures
        pending(f, c2, from) == pending(f, c, from) + group_size(f, start) * cells_in(
            group_of(f, start),
            from,
        ),
    decreases 100 - from,
{
    if from < 100 {
        lemma_pending_add_group(f, c, c2, start, from + 1);
        let a = group_size(f, start) as int;
        let ci = cells_in(group_of(f, start), from + 1);
        if group_of(f, start).contains(from) {
            assert(connected(f, start, from));
            lemma_group_eq(f, start, from);
            assert(group_size(f, from) == group_size(f, start));
            assert(c2[from]);
            assert(!c[from]);
            assert(a * (ci + 1) == a * ci + a) by (nonlinear_arith);
        }
    }
}

proof fn lemma_pending_none(f: Seq<u8>, c: Seq<bool>, from: int)
    requires
        forall|i: int| from <= i < 100 ==> !c[i],
    ensures
        pending(f, c, from) == 0,
    decreases 100 - from,
{
    if from < 100 {
        lemma_pending_none(f, c, from + 1);
    }
}

impl State {
    /// The size of the group of the given non-empty, not-yet-visited cell;
    /// marks exactly that group as visited.
    pub fn get_group_size(&self, start: usize, checked: &mut Vec<bool>) -> (cnt: i64)
        requires
            self.wf(),
            start < 100,
            old(checked)@.len() == 100,
            self.board@[start as int] != 0,
            !old(checked)@[start as int],
            checked_closed(self.board@, old(checked)@),
        ensures
            final(checked)@.len() == 100,
            forall|i: int|
                0 <= i < 100 ==> (final(checked)@[i] <==> (old(checked)@[i] || group_of(
                    self.board@,
                    start as int,
                ).contains(i))),
            checked_closed(self.board@, final(checked)@),
            cnt == group_size(self.board@, start as int),
            forall|i: int|
                0 <= i < 100 && old(checked)@[i] ==> !group_of(self.board@, start as int).contains(
                    i,
                ),
    {
        let candy = self.board[start];
        let ghost f = self.board@;
        let ghost c0 = old(checked)@;
        let ghost st = start as int;
        let mut q: Vec<usize> = Vec::new();
        checked.set(start, true);
        q.push(start);
        proof {
            assert(reaches(f, st, st, 0));
            assert(connected(f, st, st));
            let vq = vq_of(q@);
            assert(vq =~= seq![st]);
            assert forall|i: int| 0 <= i < 100 implies (checked@[i] <==> (c0[i] || vq.contains(
                i,
            ))) by {
                if i == st {
                    assert(vq[0] == st);
                    assert(vq.contains(st));
                } else {
                    if vq.contains(i) {
                        let k = choose|k: int| 0 <= k < vq.len() && vq[k] == i;
                    }
                }
            }
        }
        let mut head: usize = 0;
        let mut cnt: i64 = 0;
        while head < q.len()
            invariant
                self.wf(),
                f == self.board@,
                st == start as int,
                start < 100,
                f[st] == candy,
                candy != 0,
                !c0[st],
                checked_closed(f, c0),
                bfs_inv(f, st, candy, c0, checked@, vq_of(q@)),
                head <= q@.len(),
                cnt == head,
                vq_of(q@).contains(st),
                forall|k: int, j: int|
                    0 <= k < head && #[trigger] group_step(f, vq_of(q@)[k], j) ==> checked@[j],
            decreases 100 - head,
        {
            let cur = q[head];
            proof {
                assert(vq_of(q@)[head as int] == cur as int);
            }
            let ghost curi = cur as int;
            head = head + 1;
            cnt = cnt + 1;
            let y = cur / 10;
            let x = cur % 10;
            let ghost q0 = q@;
            let ghost cs0 = checked@;
            if y + 1 < 10 {
                self.try_visit(cur + 10, candy, checked, &mut q, Ghost(st), Ghost(c0), Ghost(curi));
            }
            let ghost q1 = q@;
            let ghost cs1 = checked@;
            if y > 0 {
                self.try_visit(cur - 10, candy, checked, &mut q, Ghost(st), Ghost(c0), Ghost(curi));
            }
            let ghost q2 = q@;
            let ghost cs2 = checked@;
            if x + 1 < 10 {
                self.try_visit(cur + 1, candy, checked, &mut q, Ghost(st), Ghost(c0), Ghost(curi));
            }
            let ghost q3 = q@;
            let ghost cs3 = checked@;
            if x > 0 {
                self.try_visit(cur - 1, candy, checked, &mut q, Ghost(st), Ghost(c0), Ghost(curi));
            }
            proof {
                assert forall|j: int| group_step(f, curi, j) implies checked@[j] by {
                    assert(adjacent(curi, j));
                    if j == curi + 10 {
                        assert(y + 1 < 10);
                        assert(cs1[j]);
                    } else if j == curi - 10 {
                        assert(y > 0);
                        assert(cs2[j]);
                    } else if j == curi + 1 {
                        assert(curi % 10 != 9);
                        assert(x + 1 < 10);
                        assert(cs3[j]);
                    } else {
                        assert(j == curi - 1 && curi % 10 != 0);
                        assert(x > 0);
                        assert(checked@[j]);
                    }
                }
                assert forall|k: int, j: int|
                    0 <= k < head && #[trigger] group_step(f, vq_of(q@)[k], j) implies checked@[j] by {
                    if k < head - 1 {
                        assert(vq_of(q@)[k] == vq_of(q0)[k]);
                    } else {
                        assert(vq_of(q@)[k] == curi);
                    }
                }
            }
        }
        proof {
            let vq = vq_of(q@);
            let grp = group_of(f, st);
            let cset = Set::new(|j: int| in_range(j) && checked@[j]);
            assert forall|a: int, b: int|
                cset.contains(a) && #[trigger] group_step(f, a, b) implies cset.contains(b) by {
                if c0[a] {
                    assert(c0[b]);
                } else {
                    assert(vq.contains(a));
                    let k = choose|k: int| 0 <= k < vq.len() && vq[k] == a;
                    assert(group_step(f, vq[k], b));
                }
            }
            assert(reaches(f, st, st, 0));
            assert(cset.contains(st));
            lemma_group_in_closed_set(f, st, cset);
            assert forall|j: int| 0 <= j < 100 && c0[j] implies !grp.contains(j) by {
                if grp.contains(j) {
                    lemma_connected_sym(f, st, j);
                    let c0set = Set::new(|i: int| in_range(i) && c0[i]);
                    assert forall|a: int, b: int|
                        c0set.contains(a) && #[trigger] group_step(f, a, b) implies c0set.contains(
                        b,
                    ) by {}
                    lemma_reaches_in_closed(
                        f,
                        j,
                        st,
                        choose|n: nat| reaches(f, j, st, n),
                        c0set,
                    );
                }
            }
            assert forall|i: int|
                0 <= i < 100 implies (checked@[i] <==> (c0[i] || grp.contains(i))) by {
                if vq.contains(i) {
                    let k = choose|k: int| 0 <= k < vq.len() && vq[k] == i;
                    assert(connected(f, st, vq[k]));
                    assert(grp.contains(i));
                }
                if grp.contains(i) {
                    assert(cset.contains(i));
                }
            }
            vq.unique_seq_to_set();
            assert forall|i: int| vq.to_set().contains(i) <==> grp.contains(i) by {
                if vq.to_set().contains(i) {
                    let k = choose|k: int| 0 <= k < vq.len() && vq[k] == i;
                    assert(in_range(i));
                    assert(grp.contains(i));
                }
                if grp.contains(i) {
                    assert(checked@[i]);
                    assert(!c0[i]);
                    assert(vq.contains(i));
                }
            }
            assert(vq.to_set() =~= grp);
            assert(cnt == vq.len());
        }
        cnt
    }

    /// The board's score: the sum of the squared sizes of the axis-connected
    /// same-value groups of non-empty cells. An empty board scores 0.
    pub fn get_score(&self) -> (r: i64)
        requires
            self.wf(),
        ensures
            r == score_spec(self.board@),
    {
        let ghost f = self.board@;
        let mut checked: Vec<bool> = Vec::new();
        let mut k: usize = 0;
        while k < 100
            invariant
                k <= 100,
                checked@ =~= Seq::new(k as nat, |i: int| false),
            decreases 100 - k,
        {
            checked.push(false);
            k = k + 1;
        }
        proof {
            lemma_pending_none(f, checked@, 0);
        }
        let mut score: i64 = 0;
        let mut idx: usize = 0;
        while idx < 100
            invariant
                self.wf(),
                f == self.board@,
                idx <= 100,
                checked@.len() == 100,
                checked_closed(f, checked@),
                forall|i: int| 0 <= i < 100 && checked@[i] ==> f[i] != 0,
                forall|i: int| 0 <= i < idx && f[i] != 0 ==> checked@[i],
                score == score_upto(f, idx as int) + pending(f, checked@, idx as int),
                0 <= score <= 1000000,
            decreases 100 - idx,
        {
            let ghost c_before = checked@;
            proof {
                lemma_score_upto_bounds(f, idx as int);
                lemma_pending_bounds(f, checked@, idx as int);
            }
            if self.board[idx] != 0 && !checked[idx] {
                let sz = self.get_group_size(idx, &mut checked);
                proof {
                    lemma_group_size_bound(f, idx as int);
                    assert forall|i: int| 0 <= i < 100 && checked@[i] implies f[i] != 0 by {
                        if !c_before[i] {
                            assert(group_of(f, idx as int).contains(i));
                            lemma_connected_value(f, idx as int, i);
                        }
                    }
                    lemma_pending_add_group(f, c_before, checked@, idx as int, idx as int + 1);
                    let grp = group_of(f, idx as int);
                    assert forall|j: int| grp.contains(j) implies idx as int <= j < 100 by {
                        if j < idx as int {
                            lemma_connected_value(f, idx as int, j);
                            assert(f[j] != 0);
                            assert(c_before[j]);
                        }
                    }
                    lemma_cells_in_len(grp, idx as int);
                    assert(cells_in(grp, idx as int) == cells_in(grp, idx as int + 1) + 1);
                    assert(cells_in(grp, idx as int + 1) == group_size(f, idx as int) - 1);
                    assert(!c_before[idx as int]);
                    assert(pending(f, c_before, idx as int) == pending(f, c_before, idx as int + 1));
                    assert(0 <= sz <= 100);
                    assert(sz * sz <= 10000) by (nonlinear_arith)
                        requires
                            0 <= sz <= 100,
                    ;
                }
                score = score + sz * sz;
                proof {
                    let gs = group_size(f, idx as int) as int;
                    let grp = group_of(f, idx as int);
                    assert(score == score_upto(f, idx as int) + pending(f, c_before, idx as int + 1)
                        + gs * gs);
                    assert(pending(f, checked@, idx as int + 1) == pending(f, c_before, idx as int + 1)
                        + gs * cells_in(grp, idx as int + 1));
                    assert(score_upto(f, idx as int + 1) == score_upto(f, idx as int) + gs);
                    assert(score == score_upto(f, idx as int + 1) + pending(f, checked@, idx as int + 1))
                        by (nonlinear_arith)
                        requires
                            score == score_upto(f, idx as int) + pending(f, c_before, idx as int + 1)
                                + gs * gs,
                            score_upto(f, idx as int + 1) == score_upto(f, idx as int) + gs,
                            pending(f, checked@, idx as int + 1) == pending(f, c_before, idx as int + 1)
                                + gs * cells_in(grp, idx as int + 1),
                            cells_in(grp, idx as int + 1) == gs - 1,
                    ;
                    lemma_score_upto_bounds(f, idx as int + 1);
                    lemma_pending_bounds(f, checked@, idx as int + 1);
                }
            } else {
                proof {
                    assert(score_upto(f, idx as int + 1) == score_upto(f, idx as int) + if f[idx as int]
                        != 0 {
                        group_size(f, idx as int) as int
                    } else {
                        0int
                    });
                    assert(pending(f, checked@, idx as int) == pending(f, checked@, idx as int + 1)
                        + if checked@[idx as int] {
                        group_size(f, idx as int) as int
                    } else {
                        0int
                    });
                    if f[idx as int] != 0 {
                        assert(checked@[idx as int]);
                    } else {
                        assert(!checked@[idx as int]);
                    }
                    lemma_score_upto_bounds(f, idx as int + 1);
                    lemma_pending_bounds(f, checked@, idx as int + 1);
                }
            }
            idx = idx + 1;
        }
        proof {
            assert(pending(f, checked@, 100) == 0);
        }
        score
    }
}

} // verus!
