//! The board engine: a 10x10 grid of small tile values (0 = empty) with a
//! turn counter. Owns insertion of a tile into the n-th empty cell and the
//! four directional compactions, together with the specification-level model
//! of both: a board is a flat sequence of 100 cells in row-major order, a row
//! is a contiguous subrange, a column is a stride-10 selection, and a
//! compaction of a line keeps the non-empty values in order and pads with
//! zeros on the far side.
use vstd::prelude::*;

verus! {

/// One of the four gravity-shift moves: tiles slide toward the near edge
/// (`Forward`: low row indices), the far edge (`Back`), the left edge
/// (`Left`: low column indices) or the right edge (`Right`).
#[derive(Clone, Copy, PartialEq, Eq, Structural, Debug)]
pub enum Action {
    Forward,
    Back,
    Left,
    Right,
}

/// The character the surrounding protocol uses for each action.
pub fn action_to_char(action: Action) -> (r: char)
    ensures
        r == (match action {
            Action::Forward => 'F',
            Action::Back => 'B',
            Action::Left => 'L',
            Action::Right => 'R',
        }),
{
    match action {
        Action::Forward => 'F',
        Action::Back => 'B',
        Action::Left => 'L',
        Action::Right => 'R',
    }
}

/// The non-empty values of a line, in the order they appear.
pub open spec fn nonzero_seq(s: Seq<u8>) -> Seq<u8>
    decreases s.len(),
{
    if s.len() == 0 {
        Seq::empty()
    } else {
        let rest = nonzero_seq(s.drop_last());
        if s.last() != 0 {
            rest.push(s.last())
        } else {
            rest
        }
    }
}

/// How many cells of a line are empty.
pub open spec fn zero_count(s: Seq<u8>) -> int
    decreases s.len(),
{
    if s.len() == 0 {
        0
    } else {
        zero_count(s.drop_last()) + if s.last() == 0 {
            1int
        } else {
            0int
        }
    }
}

/// A run of `n` empty cells.
pub open spec fn zeros(n: nat) -> Seq<u8> {
    Seq::new(n, |i: int| 0u8)
}

/// A line compacted toward its low end: the non-empty values first, in their
/// original order, then empty cells.
pub open spec fn compact_front(s: Seq<u8>) -> Seq<u8> {
    nonzero_seq(s) + zeros((s.len() - nonzero_seq(s).len()) as nat)
}

/// A line compacted toward its high end: empty cells first, then the
/// non-empty values in their original order.
pub open spec fn compact_back(s: Seq<u8>) -> Seq<u8> {
    zeros((s.len() - nonzero_seq(s).len()) as nat) + nonzero_seq(s)
}

pub proof fn lemma_nonzero_seq_len(s: Seq<u8>)
    ensures
        nonzero_seq(s).len() + zero_count(s) == s.len(),
        0 <= zero_count(s) <= s.len(),
    decreases s.len(),
{
    if s.len() > 0 {
        lemma_nonzero_seq_len(s.drop_last());
    }
}

/// Every value kept by `nonzero_seq` is non-empty.
pub proof fn lemma_nonzero_seq_elems(s: Seq<u8>)
    ensures
        forall|i: int| 0 <= i < nonzero_seq(s).len() ==> nonzero_seq(s)[i] != 0,
    decreases s.len(),
{
    if s.len() > 0 {
        lemma_nonzero_seq_elems(s.drop_last());
        let rest = nonzero_seq(s.drop_last());
        assert forall|i: int| 0 <= i < nonzero_seq(s).len() implies nonzero_seq(s)[i] != 0 by {
            if i < rest.len() {
                assert(nonzero_seq(s)[i] == rest[i]);
            }
        }
    }
}

/// `nonzero_seq` distributes over concatenation.
pub proof fn lemma_nonzero_seq_add(a: Seq<u8>, b: Seq<u8>)
    ensures
        nonzero_seq(a + b) == nonzero_seq(a) + nonzero_seq(b),
    decreases b.len(),
{
    if b.len() == 0 {
        assert(a + b =~= a);
        assert(nonzero_seq(a) + nonzero_seq(b) =~= nonzero_seq(a));
    } else {
        lemma_nonzero_seq_add(a, b.drop_last());
        assert((a + b).drop_last() =~= a + b.drop_last());
        if b.last() != 0 {
            assert(nonzero_seq(a) + nonzero_seq(b) =~= (nonzero_seq(a) + nonzero_seq(
                b.drop_last(),
            )).push(b.last()));
        }
    }
}

/// A line with no empty cells is already its own `nonzero_seq`.
pub proof fn lemma_nonzero_seq_all_nonzero(s: Seq<u8>)
    requires
        forall|i: int| 0 <= i < s.len() ==> s[i] != 0,
    ensures
        nonzero_seq(s) == s,
    decreases s.len(),
{
    if s.len() > 0 {
        lemma_nonzero_seq_all_nonzero(s.drop_last());
        assert(nonzero_seq(s) =~= s);
    }
}

/// A line of empty cells has an empty `nonzero_seq`.
pub proof fn lemma_nonzero_seq_zeros(n: nat)
    ensures
        nonzero_seq(zeros(n)) == Seq::<u8>::empty(),
    decreases n,
{
    if n > 0 {
        lemma_nonzero_seq_zeros((n - 1) as nat);
        assert(zeros(n).drop_last() =~= zeros((n - 1) as nat));
    }
}

/// Compacting a line keeps its length, moves every non-empty value against
/// the target edge in its original order, and leaves only empty cells on the
/// other side. This is the contiguity and stability statement for one line.
pub proof fn lemma_compact_line_correct(s: Seq<u8>)
    ensures
        compact_front(s).len() == s.len(),
        compact_back(s).len() == s.len(),
        compact_front(s).subrange(0, nonzero_seq(s).len() as int) == nonzero_seq(s),
        forall|i: int|
            nonzero_seq(s).len() <= i < s.len() ==> compact_front(s)[i] == 0,
        forall|i: int| 0 <= i < nonzero_seq(s).len() ==> compact_front(s)[i] != 0,
        compact_back(s).subrange(zero_count(s), s.len() as int) == nonzero_seq(s),
        forall|i: int| 0 <= i < zero_count(s) ==> compact_back(s)[i] == 0,
        forall|i: int| zero_count(s) <= i < s.len() ==> compact_back(s)[i] != 0,
{
    lemma_nonzero_seq_len(s);
    lemma_nonzero_seq_elems(s);
    assert(compact_front(s).subrange(0, nonzero_seq(s).len() as int) =~= nonzero_seq(s));
    assert(compact_back(s).subrange(zero_count(s), s.len() as int) =~= nonzero_seq(s));
}

/// Compacting twice in the same direction gives the same line as compacting
/// once: a compacted line is a fixed point of its own compaction.
pub proof fn lemma_compact_line_idempotent(s: Seq<u8>)
    ensures
        compact_front(compact_front(s)) == compact_front(s),
        compact_back(compact_back(s)) == compact_back(s),
{
    lemma_nonzero_seq_len(s);
    lemma_nonzero_seq_elems(s);
    let nz = nonzero_seq(s);
    let z = (s.len() - nz.len()) as nat;
    lemma_nonzero_seq_add(nz, zeros(z));
    lemma_nonzero_seq_add(zeros(z), nz);
    lemma_nonzero_seq_zeros(z);
    lemma_nonzero_seq_all_nonzero(nz);
    assert(nonzero_seq(compact_front(s)) =~= nz);
    assert(nonzero_seq(compact_back(s)) =~= nz);
}

/// The values of a line, empty cells included, are conserved by compaction:
/// only positions change.
pub proof fn lemma_compact_line_mset(s: Seq<u8>)
    ensures
        compact_front(s).to_multiset() == s.to_multiset(),
        compact_back(s).to_multiset() == s.to_multiset(),
        zero_count(compact_front(s)) == zero_count(s),
        zero_count(compact_back(s)) == zero_count(s),
    decreases s.len(),
{
    broadcast use vstd::seq_lib::group_to_multiset_ensures;

    lemma_nonzero_seq_len(s);
    vstd::seq_lib::lemma_multiset_commutative(
        nonzero_seq(s),
        zeros((s.len() - nonzero_seq(s).len()) as nat),
    );
    vstd::seq_lib::lemma_multiset_commutative(
        zeros((s.len() - nonzero_seq(s).len()) as nat),
        nonzero_seq(s),
    );
    lemma_split_mset(s);
    lemma_zero_count_add(nonzero_seq(s), zeros((s.len() - nonzero_seq(s).len()) as nat));
    lemma_zero_count_add(zeros((s.len() - nonzero_seq(s).len()) as nat), nonzero_seq(s));
    lemma_nonzero_seq_elems(s);
    lemma_zero_count_all_nonzero(nonzero_seq(s));
    lemma_zero_count_zeros((s.len() - nonzero_seq(s).len()) as nat);
}

/// A line's multiset of values is the multiset of its non-empty values plus
/// its empty cells.
proof fn lemma_split_mset(s: Seq<u8>)
    ensures
        s.to_multiset() == nonzero_seq(s).to_multiset().add(
            zeros(zero_count(s) as nat).to_multiset(),
        ),
    decreases s.len(),
{
    broadcast use vstd::seq_lib::group_to_multiset_ensures;

    lemma_nonzero_seq_len(s);
    if s.len() == 0 {
        assert(s.to_multiset() =~= nonzero_seq(s).to_multiset().add(
            zeros(zero_count(s) as nat).to_multiset(),
        ));
    } else {
        let d = s.drop_last();
        lemma_split_mset(d);
        lemma_nonzero_seq_len(d);
        assert(d.push(s.last()) =~= s);
        if s.last() != 0 {
            assert(nonzero_seq(d).push(s.last()) =~= nonzero_seq(s));
            assert(s.to_multiset() =~= nonzero_seq(s).to_multiset().add(
                zeros(zero_count(s) as nat).to_multiset(),
            ));
        } else {
            assert(zeros(zero_count(d) as nat).push(0u8) =~= zeros(zero_count(s) as nat));
            assert(s.to_multiset() =~= nonzero_seq(s).to_multiset().add(
                zeros(zero_count(s) as nat).to_multiset(),
            ));
        }
    }
}

/// `zero_count` distributes over concatenation.
pub proof fn lemma_zero_count_add(a: Seq<u8>, b: Seq<u8>)
    ensures
        zero_count(a + b) == zero_count(a) + zero_count(b),
    decreases b.len(),
{
    if b.len() == 0 {
        assert(a + b =~= a);
    } else {
        lemma_zero_count_add(a, b.drop_last());
        assert((a + b).drop_last() =~= a + b.drop_last());
    }
}

proof fn lemma_zero_count_all_nonzero(s: Seq<u8>)
    requires
        forall|i: int| 0 <= i < s.len() ==> s[i] != 0,
    ensures
        zero_count(s) == 0,
    decreases s.len(),
{
    if s.len() > 0 {
        lemma_zero_count_all_nonzero(s.drop_last());
    }
}

proof fn lemma_zero_count_zeros(n: nat)
    ensures
        zero_count(zeros(n)) == n,
    decreases n,
{
    if n > 0 {
        lemma_zero_count_zeros((n - 1) as nat);
        assert(zeros(n).drop_last() =~= zeros((n - 1) as nat));
    }
}

/// Row `y` of a board held as a flat row-major sequence of 100 cells.
pub open spec fn row_of(f: Seq<u8>, y: int) -> Seq<u8> {
    f.subrange(10 * y, 10 * y + 10)
}

/// Column `x` of a board held as a flat row-major sequence of 100 cells.
pub open spec fn col_of(f: Seq<u8>, x: int) -> Seq<u8> {
    Seq::new(10, |y: int| f[10 * y + x])
}

/// The rows of a board after compacting every row toward the low end.
pub open spec fn rows_low(f: Seq<u8>) -> Seq<Seq<u8>> {
    Seq::new(10, |y: int| compact_front(row_of(f, y)))
}

/// The rows of a board after compacting every row toward the high end.
pub open spec fn rows_high(f: Seq<u8>) -> Seq<Seq<u8>> {
    Seq::new(10, |y: int| compact_back(row_of(f, y)))
}

/// The rows of a board after compacting every column toward the low end.
pub open spec fn cols_low_rows(f: Seq<u8>) -> Seq<Seq<u8>> {
    Seq::new(10, |y: int| Seq::new(10, |x: int| compact_front(col_of(f, x))[y]))
}

/// The rows of a board after compacting every column toward the high end.
pub open spec fn cols_high_rows(f: Seq<u8>) -> Seq<Seq<u8>> {
    Seq::new(10, |y: int| Seq::new(10, |x: int| compact_back(col_of(f, x))[y]))
}

/// The board that `advance` leaves behind: every row (for `Left`/`Right`) or
/// every column (for `Forward`/`Back`) is compacted against the target edge.
pub open spec fn advance_flat(f: Seq<u8>, a: Action) -> Seq<u8> {
    match a {
        Action::Forward => cols_low_rows(f).flatten(),
        Action::Back => cols_high_rows(f).flatten(),
        Action::Left => rows_low(f).flatten(),
        Action::Right => rows_high(f).flatten(),
    }
}

/// Flattening a sequence of rows of width 10 concatenates them in row-major
/// order.
pub proof fn lemma_flatten_grid(g: Seq<Seq<u8>>)
    requires
        forall|y: int| 0 <= y < g.len() ==> (#[trigger] g[y]).len() == 10,
    ensures
        g.flatten().len() == 10 * g.len(),
        forall|y: int, x: int|
            0 <= y < g.len() && 0 <= x < 10 ==> g.flatten()[10 * y + x] == g[y][x],
    decreases g.len(),
{
    if g.len() > 0 {
        lemma_flatten_grid(g.drop_first());
        assert(g.flatten() == g[0] + g.drop_first().flatten());
        assert forall|y: int, x: int|
            0 <= y < g.len() && 0 <= x < 10 implies g.flatten()[10 * y + x] == g[y][x] by {
            if y > 0 {
                assert(g.drop_first().flatten()[10 * (y - 1) + x] == g.drop_first()[y - 1][x]);
                assert(g.flatten()[10 * y + x] == g.drop_first().flatten()[10 * y + x - 10]);
            }
        }
    }
}

/// Every index below 100 splits uniquely into a row and a column index.
pub proof fn lemma_index_decompose(i: int)
    requires
        0 <= i < 100,
    ensures
        i == 10 * (i / 10) + (i % 10),
        0 <= i / 10 < 10,
        0 <= i % 10 < 10,
{
    vstd::arithmetic::div_mod::lemma_fundamental_div_mod(i, 10);
}

/// The game board: 100 cells in row-major order, 0 for an empty cell, and
/// the number of turns played so far.
#[derive(Debug)]
pub struct State {
    pub board: Vec<u8>,
    pub turn: i64,
}

impl State {
    /// Structural well-formedness: exactly 100 cells and a turn count inside
    /// the game's bounds.
    pub open spec fn wf(self) -> bool {
        self.board@.len() == 100 && 0 <= self.turn <= crate::END_TURN
    }

    /// An empty board at turn 0.
    pub fn new() -> (s: State)
        ensures
            s.wf(),
            s.board@ == zeros(100),
            s.turn == 0,
    {
        let mut b: Vec<u8> = Vec::new();
        let mut i: usize = 0;
        while i < crate::CELLS
            invariant
                i <= 100,
                b@ == zeros(i as nat),
            decreases 100 - i,
        {
            b.push(0u8);
            proof {
                assert(zeros(i as nat).push(0u8) =~= zeros((i + 1) as nat));
            }
            i += 1;
        }
        State { board: b, turn: 0 }
    }

    /// Whether the game is over: all turns have been played.
    pub fn is_done(&self) -> (r: bool)
        ensures
            r == (self.turn >= crate::END_TURN),
    {
        self.turn >= crate::END_TURN
    }

    fn read_row(&self, y: usize) -> (r: Vec<u8>)
        requires
            self.wf(),
            y < 10,
        ensures
            r@ == row_of(self.board@, y as int),
    {
        let mut r: Vec<u8> = Vec::new();
        let mut x: usize = 0;
        while x < crate::W
            invariant
                self.wf(),
                y < 10,
                x <= 10,
                r@ == row_of(self.board@, y as int).take(x as int),
            decreases 10 - x,
        {
            r.push(self.board[y * 10 + x]);
            proof {
                assert(row_of(self.board@, y as int).take(x + 1) =~= row_of(
                    self.board@,
                    y as int,
                ).take(x as int).push(self.board@[10 * (y as int) + x]));
            }
            x += 1;
        }
        proof {
            assert(row_of(self.board@, y as int).take(10) =~= row_of(self.board@, y as int));
        }
        r
    }

    fn read_col(&self, x: usize) -> (r: Vec<u8>)
        requires
            self.wf(),
            x < 10,
        ensures
            r@ == col_of(self.board@, x as int),
    {
        let mut r: Vec<u8> = Vec::new();
        let mut y: usize = 0;
        while y < crate::H
            invariant
                self.wf(),
                x < 10,
                y <= 10,
                r@ == col_of(self.board@, x as int).take(y as int),
            decreases 10 - y,
        {
            r.push(self.board[y * 10 + x]);
            proof {
                assert(col_of(self.board@, x as int).take(y + 1) =~= col_of(
                    self.board@,
                    x as int,
                ).take(y as int).push(self.board@[10 * (y as int) + x]));
            }
            y += 1;
        }
        proof {
            assert(col_of(self.board@, x as int).take(10) =~= col_of(self.board@, x as int));
        }
        r
    }

    fn write_row(&mut self, y: usize, c: &Vec<u8>)
        requires
            old(self).wf(),
            y < 10,
            c@.len() == 10,
        ensures
            final(self).board@.len() == 100,
            final(self).turn == old(self).turn,
            forall|i: int|
                0 <= i < 100 && !(10 * y <= i < 10 * y + 10) ==> final(self).board@[i] == old(
                    self,
                ).board@[i],
            forall|j: int| 0 <= j < 10 ==> final(self).board@[10 * y + j] == c@[j],
    {
        let mut x: usize = 0;
        while x < crate::W
            invariant
                old(self).wf(),
                y < 10,
                c@.len() == 10,
                x <= 10,
                self.board@.len() == 100,
                self.turn == old(self).turn,
                forall|i: int|
                    0 <= i < 100 && !(10 * y <= i < 10 * y + x) ==> self.board@[i] == old(
                        self,
                    ).board@[i],
                forall|j: int| 0 <= j < x ==> self.board@[10 * y + j] == c@[j],
            decreases 10 - x,
        {
            self.board.set(y * 10 + x, c[x]);
            x += 1;
        }
    }

    fn write_col(&mut self, x: usize, c: &Vec<u8>)
        requires
            old(self).wf(),
            x < 10,
            c@.len() == 10,
        ensures
            final(self).board@.len() == 100,
            final(self).turn == old(self).turn,
            forall|i: int|
                0 <= i < 100 && i % 10 != x ==> final(self).board@[i] == old(self).board@[i],
            forall|j: int| 0 <= j < 10 ==> final(self).board@[10 * j + x] == c@[j],
    {
        let mut y: usize = 0;
        while y < crate::H
            invariant
                old(self).wf(),
                x < 10,
                c@.len() == 10,
                y <= 10,
                self.board@.len() == 100,
                self.turn == old(self).turn,
                forall|i: int|
                    0 <= i < 100 && (i % 10 != x as int || i >= 10 * y) ==> self.board@[i] == old(
                        self,
                    ).board@[i],
                forall|j: int| 0 <= j < y ==> self.board@[10 * j + x] == c@[j],
            decreases 10 - y,
        {
            self.board.set(y * 10 + x, c[y]);
            proof {
                vstd::arithmetic::div_mod::lemma_fundamental_div_mod_converse(
                    10 * (y as int) + x as int,
                    10,
                    y as int,
                    x as int,
                );
            }
            y += 1;
        }
    }

    /// Slide every tile toward the chosen edge: each affected line becomes
    /// its own compaction, and one more turn has been played.
    pub fn advance(&mut self, action: Action)
        requires
            old(self).wf(),
            old(self).turn < crate::END_TURN,
        ensures
            final(self).wf(),
            final(self).board@ == advance_flat(old(self).board@, action),
            final(self).turn == old(self).turn + 1,
    {
        let to_front = match action {
            Action::Forward => true,
            Action::Back => false,
            Action::Left => true,
            Action::Right => false,
        };
        match action {
            Action::Left | Action::Right => {
                let mut y: usize = 0;
                while y < crate::H
                    invariant
                        y <= 10,
                        self.board@.len() == 100,
                        self.turn == old(self).turn,
                        old(self).wf(),
                        to_front == (action == Action::Left || action == Action::Forward),
                        action == Action::Left || action == Action::Right,
                        forall|yy: int|
                            0 <= yy < y ==> row_of(self.board@, yy) == (if to_front {
                                compact_front(row_of(old(self).board@, yy))
                            } else {
                                compact_back(row_of(old(self).board@, yy))
                            }),
                        forall|yy: int|
                            y <= yy < 10 ==> row_of(self.board@, yy) == row_of(
                                old(self).board@,
                                yy,
                            ),
                    decreases 10 - y,
                {
                    let row = self.read_row(y);
                    proof {
                        lemma_nonzero_seq_len(row@);
                    }
                    let c = compact_line(&row, to_front);
                    let ghost before = self.board@;
                    self.write_row(y, &c);
                    proof {
                        assert forall|yy: int|
                            0 <= yy < y + 1 implies row_of(self.board@, yy) == (if to_front {
                            compact_front(row_of(old(self).board@, yy))
                        } else {
                            compact_back(row_of(old(self).board@, yy))
                        }) by {
                            if yy < y {
                                assert(row_of(self.board@, yy) =~= row_of(before, yy));
                            } else {
                                assert(row_of(self.board@, yy) =~= c@);
                            }
                        }
                        assert forall|yy: int|
                            y + 1 <= yy < 10 implies row_of(self.board@, yy) == row_of(
                            old(self).board@,
                            yy,
                        ) by {
                            assert(row_of(self.board@, yy) =~= row_of(before, yy));
                        }
                    }
                    y += 1;
                }
                proof {
                    lemma_advance_rows_flat(old(self).board@, self.board@, to_front);
                }
            },
            Action::Forward | Action::Back => {
                let mut x: usize = 0;
                while x < crate::W
                    invariant
                        x <= 10,
                        self.board@.len() == 100,
                        self.turn == old(self).turn,
                        old(self).wf(),
                        to_front == (action == Action::Left || action == Action::Forward),
                        action == Action::Forward || action == Action::Back,
                        forall|xx: int|
                            0 <= xx < x ==> col_of(self.board@, xx) == (if to_front {
                                compact_front(col_of(old(self).board@, xx))
                            } else {
                                compact_back(col_of(old(self).board@, xx))
                            }),
                        forall|xx: int|
                            x <= xx < 10 ==> col_of(self.board@, xx) == col_of(
                                old(self).board@,
                                xx,
                            ),
                    decreases 10 - x,
                {
                    let col = self.read_col(x);
                    proof {
                        lemma_nonzero_seq_len(col@);
                    }
                    let c = compact_line(&col, to_front);
                    let ghost before = self.board@;
                    self.write_col(x, &c);
                    proof {
                        assert forall|xx: int|
                            0 <= xx < x + 1 implies col_of(self.board@, xx) == (if to_front {
                            compact_front(col_of(old(self).board@, xx))
                        } else {
                            compact_back(col_of(old(self).board@, xx))
                        }) by {
                            assert forall|j: int| 0 <= j < 10 implies #[trigger] ((10 * j + xx) % 10)
                                == xx by {
                                vstd::arithmetic::div_mod::lemma_fundamental_div_mod_converse(
                                    10 * j + xx,
                                    10,
                                    j,
                                    xx,
                                );
                            }
                            if xx < x {
                                assert(col_of(self.board@, xx) =~= col_of(before, xx));
                            } else {
                                assert(col_of(self.board@, xx) =~= c@);
                            }
                        }
                        assert forall|xx: int|
                            x + 1 <= xx < 10 implies col_of(self.board@, xx) == col_of(
                            old(self).board@,
                            xx,
                        ) by {
                            assert forall|j: int| 0 <= j < 10 implies #[trigger] ((10 * j + xx) % 10)
                                == xx by {
                                vstd::arithmetic::div_mod::lemma_fundamental_div_mod_converse(
                                    10 * j + xx,
                                    10,
                                    j,
                                    xx,
                                );
                            }
                            assert(col_of(self.board@, xx) =~= col_of(before, xx));
                        }
                    }
                    x += 1;
                }
                proof {
                    lemma_advance_cols_flat(old(self).board@, self.board@, to_front);
                }
            },
        }
        self.turn = self.turn + 1;
    }

    /// An independent copy of the board and turn counter: each rollout owns
    /// its own full copy of the state.
    pub fn duplicate(&self) -> (r: State)
        ensures
            r.board@ == self.board@,
            r.turn == self.turn,
    {
        let mut b: Vec<u8> = Vec::new();
        let mut i: usize = 0;
        while i < self.board.len()
            invariant
                i <= self.board@.len(),
                b@ == self.board@.take(i as int),
            decreases self.board@.len() - i,
        {
            b.push(self.board[i]);
            proof {
                assert(self.board@.take(i + 1) =~= self.board@.take(i as int).push(
                    self.board@[i as int],
                ));
            }
            i += 1;
        }
        proof {
            assert(self.board@.take(self.board@.len() as int) =~= self.board@);
        }
        State { board: b, turn: self.turn }
    }

    /// Insert this turn's scheduled tile value into the `pt`-th empty cell in
    /// row-major order (1-based). The turn counter does not move: advancing
    /// does that.
    pub fn update(&mut self, schedule: &crate::oracle::Schedule, pt: i64)
        requires
            old(self).wf(),
            schedule.wf(),
            old(self).turn < crate::END_TURN,
            1 <= pt <= zero_count(old(self).board@),
        ensures
            final(self).wf(),
            final(self).turn == old(self).turn,
            final(self).board@ == insert_flat(
                old(self).board@,
                pt as int,
                schedule.values@[old(self).turn as int],
            ),
            0 <= insert_index(old(self).board@, pt as int) < 100,
            old(self).board@[insert_index(old(self).board@, pt as int)] == 0,
            zero_count(final(self).board@) == zero_count(old(self).board@) - 1,
            final(self).board@.to_multiset() == old(self).board@.to_multiset().insert(
                schedule.values@[old(self).turn as int],
            ).remove(0u8),
    {
        let v = schedule.scheduled_value(self.turn);
        let ghost f = self.board@;
        let mut i: usize = 0;
        let mut cnt: i64 = 0;
        loop
            invariant_except_break
                self.board@ == f,
                cnt as int == zero_count(f.take(i as int)),
                cnt <= pt - 1,
            invariant
                self.turn == old(self).turn,
                f.len() == 100,
                1 <= pt <= zero_count(f),
                i <= 100,
                v == schedule.values@[old(self).turn as int],
                v != 0,
            ensures
                final(self).turn == old(self).turn,
                has_insert_cell(f, pt as int),
                final(self).board@ == insert_flat(f, pt as int, v),
                0 <= insert_index(f, pt as int) < 100,
                f[insert_index(f, pt as int)] == 0,
                final(self).board@.len() == 100,
            decreases 100 - i,
        {
            proof {
                if i == 100 {
                    assert(f.take(100) =~= f);
                }
            }
            if self.board[i] == 0 {
                cnt = cnt + 1;
                if cnt == pt {
                    self.board.set(i, v);
                    proof {
                        assert(f[i as int] == 0 && zero_count(f.take(i as int)) == pt - 1);
                        assert(has_insert_cell(f, pt as int));
                        lemma_insert_index_unique(f, pt as int, i as int);
                    }
                    break;
                }
            }
            proof {
                lemma_zero_count_take_step(f, i as int + 1);
            }
            i = i + 1;
        }
        proof {
            broadcast use vstd::seq_lib::group_to_multiset_ensures;

            let idx = insert_index(f, pt as int);
            assert(self.board@ == f.update(idx, v));
            lemma_zero_count_update(f, idx, v);
        }
    }
}

/// A board whose rows are all the compactions of another board's rows is
/// exactly the row-compaction result.
proof fn lemma_advance_rows_flat(f: Seq<u8>, g: Seq<u8>, to_front: bool)
    requires
        f.len() == 100,
        g.len() == 100,
        forall|y: int|
            0 <= y < 10 ==> row_of(g, y) == (if to_front {
                compact_front(row_of(f, y))
            } else {
                compact_back(row_of(f, y))
            }),
    ensures
        to_front ==> g == advance_flat(f, Action::Left),
        !to_front ==> g == advance_flat(f, Action::Right),
{
    let rows = if to_front {
        rows_low(f)
    } else {
        rows_high(f)
    };
    assert forall|y: int| 0 <= y < rows.len() implies (#[trigger] rows[y]).len() == 10 by {
        lemma_nonzero_seq_len(row_of(f, y));
    }
    lemma_flatten_grid(rows);
    assert forall|i: int| 0 <= i < 100 implies g[i] == rows.flatten()[i] by {
        lemma_index_decompose(i);
        let y = i / 10;
        let x = i % 10;
        assert(row_of(g, y)[x] == g[10 * y + x]);
        assert(rows.flatten()[10 * y + x] == rows[y][x]);
    }
    assert(g =~= rows.flatten());
}

/// A board whose columns are all the compactions of another board's columns
/// is exactly the column-compaction result.
proof fn lemma_advance_cols_flat(f: Seq<u8>, g: Seq<u8>, to_front: bool)
    requires
        f.len() == 100,
        g.len() == 100,
        forall|x: int|
            0 <= x < 10 ==> col_of(g, x) == (if to_front {
                compact_front(col_of(f, x))
            } else {
                compact_back(col_of(f, x))
            }),
    ensures
        to_front ==> g == advance_flat(f, Action::Forward),
        !to_front ==> g == advance_flat(f, Action::Back),
{
    let rows = if to_front {
        cols_low_rows(f)
    } else {
        cols_high_rows(f)
    };
    assert forall|y: int| 0 <= y < rows.len() implies (#[trigger] rows[y]).len() == 10 by {}
    lemma_flatten_grid(rows);
    assert forall|i: int| 0 <= i < 100 implies g[i] == rows.flatten()[i] by {
        lemma_index_decompose(i);
        let y = i / 10;
        let x = i % 10;
        lemma_nonzero_seq_len(col_of(f, x));
        assert(col_of(g, x)[y] == g[10 * y + x]);
        assert(rows.flatten()[10 * y + x] == rows[y][x]);
    }
    assert(g =~= rows.flatten());
}

/// Collect the non-empty values of a line, keeping their order.
fn collect_nonzero(line: &Vec<u8>) -> (r: Vec<u8>)
    ensures
        r@ == nonzero_seq(line@),
{
    let mut r: Vec<u8> = Vec::new();
    let mut i: usize = 0;
    while i < line.len()
        invariant
            i <= line@.len(),
            r@ == nonzero_seq(line@.take(i as int)),
        decreases line@.len() - i,
    {
        let v = line[i];
        if v != 0 {
            r.push(v);
        }
        proof {
            assert(line@.take(i + 1).drop_last() =~= line@.take(i as int));
            assert(line@.take(i + 1).last() == line@[i as int]);
        }
        i += 1;
    }
    proof {
        assert(line@.take(line@.len() as int) =~= line@);
    }
    r
}

/// Compact one line toward its low end (`to_front`) or its high end.
fn compact_line(line: &Vec<u8>, to_front: bool) -> (r: Vec<u8>)
    ensures
        to_front ==> r@ == compact_front(line@),
        !to_front ==> r@ == compact_back(line@),
        r@.len() == line@.len(),
{
    proof {
        lemma_nonzero_seq_len(line@);
    }
    let nz = collect_nonzero(line);
    let pad = line.len() - nz.len();
    let mut r: Vec<u8> = Vec::new();
    if to_front {
        let mut i: usize = 0;
        while i < nz.len()
            invariant
                i <= nz@.len(),
                r@ == nz@.take(i as int),
            decreases nz@.len() - i,
        {
            r.push(nz[i]);
            proof {
                assert(nz@.take(i + 1) =~= nz@.take(i as int).push(nz@[i as int]));
            }
            i += 1;
        }
        proof {
            assert(nz@.take(nz@.len() as int) =~= nz@);
        }
        let mut j: usize = 0;
        while j < pad
            invariant
                j <= pad,
                pad == line@.len() - nz@.len(),
                r@ == nz@ + zeros(j as nat),
            decreases pad - j,
        {
            r.push(0u8);
            proof {
                assert((nz@ + zeros(j as nat)).push(0u8) =~= nz@ + zeros((j + 1) as nat));
            }
            j += 1;
        }
        proof {
            assert(r@ =~= compact_front(line@));
        }
    } else {
        let mut j: usize = 0;
        while j < pad
            invariant
                j <= pad,
                pad == line@.len() - nz@.len(),
                r@ == zeros(j as nat),
            decreases pad - j,
        {
            r.push(0u8);
            proof {
                assert(zeros(j as nat).push(0u8) =~= zeros((j + 1) as nat));
            }
            j += 1;
        }
        let mut i: usize = 0;
        while i < nz.len()
            invariant
                i <= nz@.len(),
                pad == line@.len() - nz@.len(),
                r@ == zeros(pad as nat) + nz@.take(i as int),
            decreases nz@.len() - i,
        {
            r.push(nz[i]);
            proof {
                assert((zeros(pad as nat) + nz@.take(i as int)).push(nz@[i as int]) =~= zeros(
                    pad as nat,
                ) + nz@.take(i + 1));
            }
            i += 1;
        }
        proof {
            assert(nz@.take(nz@.len() as int) =~= nz@);
            assert(r@ =~= compact_back(line@));
        }
    }
    r
}

/// One step of counting empty cells along a prefix.
pub proof fn lemma_zero_count_take_step(f: Seq<u8>, k: int)
    requires
        0 < k <= f.len(),
    ensures
        zero_count(f.take(k)) == zero_count(f.take(k - 1)) + if f[k - 1] == 0 {
            1int
        } else {
            0int
        },
{
    assert(f.take(k).drop_last() =~= f.take(k - 1));
}

/// Counting empty cells along prefixes is monotone, strictly so across an
/// empty cell.
pub proof fn lemma_zero_count_take_mono(f: Seq<u8>, a: int, b: int)
    requires
        0 <= a <= b <= f.len(),
    ensures
        zero_count(f.take(a)) <= zero_count(f.take(b)),
        a < b && f[a] == 0 ==> zero_count(f.take(a)) < zero_count(f.take(b)),
    decreases b - a,
{
    if a < b {
        lemma_zero_count_take_step(f, a + 1);
        lemma_zero_count_take_mono(f, a + 1, b);
    }
}

/// How one changed cell moves the count of empty cells.
pub proof fn lemma_zero_count_update(s: Seq<u8>, i: int, v: u8)
    requires
        0 <= i < s.len(),
    ensures
        zero_count(s.update(i, v)) == zero_count(s) - (if s[i] == 0 {
            1int
        } else {
            0int
        }) + (if v == 0 {
            1int
        } else {
            0int
        }),
    decreases s.len(),
{
    if i == s.len() - 1 {
        assert(s.update(i, v).drop_last() =~= s.drop_last());
    } else {
        assert(s.update(i, v).drop_last() =~= s.drop_last().update(i, v));
        lemma_zero_count_update(s.drop_last(), i, v);
    }
}

/// The cell that receives the `pt`-th insertion (1-based): the unique index
/// of an empty cell with exactly `pt - 1` empty cells before it in row-major
/// order.
pub open spec fn insert_index(f: Seq<u8>, pt: int) -> int {
    choose|i: int| 0 <= i < f.len() && f[i] == 0 && zero_count(f.take(i)) == pt - 1
}

/// Whether the board has a `pt`-th empty cell at all.
pub open spec fn has_insert_cell(f: Seq<u8>, pt: int) -> bool {
    exists|i: int| 0 <= i < f.len() && f[i] == 0 && zero_count(f.take(i)) == pt - 1
}

/// The board after inserting value `v` into the `pt`-th empty cell; a board
/// without one is left as it is.
pub open spec fn insert_flat(f: Seq<u8>, pt: int, v: u8) -> Seq<u8> {
    if has_insert_cell(f, pt) {
        f.update(insert_index(f, pt), v)
    } else {
        f
    }
}

/// Inserting never changes the number of cells.
pub proof fn lemma_insert_flat_len(f: Seq<u8>, pt: int, v: u8)
    ensures
        insert_flat(f, pt, v).len() == f.len(),
{
    if has_insert_cell(f, pt) {
        let i = insert_index(f, pt);
        assert(0 <= i < f.len());
    }
}

/// There is only one empty cell with a given number of empty cells before
/// it, so `insert_index` picks exactly that cell.
pub proof fn lemma_insert_index_unique(f: Seq<u8>, pt: int, i: int)
    requires
        0 <= i < f.len(),
        f[i] == 0,
        zero_count(f.take(i)) == pt - 1,
    ensures
        insert_index(f, pt) == i,
        f[insert_index(f, pt)] == 0,
        zero_count(f.take(insert_index(f, pt))) == pt - 1,
{
    assert(0 <= i < f.len() && f[i] == 0 && zero_count(f.take(i)) == pt - 1);
    let j = insert_index(f, pt);
    assert(0 <= j < f.len() && f[j] == 0 && zero_count(f.take(j)) == pt - 1);
    if j < i {
        lemma_zero_count_take_mono(f, j, i);
    }
    if i < j {
        lemma_zero_count_take_mono(f, i, j);
    }
}

/// What `advance` does to each line: rows for `Left`/`Right`, columns for
/// `Forward`/`Back`.
pub proof fn lemma_advance_flat_lines(f: Seq<u8>, a: Action)
    requires
        f.len() == 100,
    ensures
        advance_flat(f, a).len() == 100,
        a == Action::Left ==> forall|y: int|
            0 <= y < 10 ==> row_of(advance_flat(f, a), y) == compact_front(row_of(f, y)),
        a == Action::Right ==> forall|y: int|
            0 <= y < 10 ==> row_of(advance_flat(f, a), y) == compact_back(row_of(f, y)),
        a == Action::Forward ==> forall|x: int|
            0 <= x < 10 ==> col_of(advance_flat(f, a), x) == compact_front(col_of(f, x)),
        a == Action::Back ==> forall|x: int|
            0 <= x < 10 ==> col_of(advance_flat(f, a), x) == compact_back(col_of(f, x)),
{
    match a {
        Action::Left => {
            let rows = rows_low(f);
            assert forall|y: int| 0 <= y < rows.len() implies (#[trigger] rows[y]).len() == 10 by {
                lemma_nonzero_seq_len(row_of(f, y));
            }
            lemma_flatten_grid(rows);
            assert forall|y: int|
                0 <= y < 10 implies row_of(rows.flatten(), y) == compact_front(row_of(f, y)) by {
                assert forall|x: int| 0 <= x < 10 implies row_of(rows.flatten(), y)[x] == rows[y][x] by {
                    assert(rows.flatten()[10 * y + x] == rows[y][x]);
                }
                assert(row_of(rows.flatten(), y) =~= rows[y]);
            }
        },
        Action::Right => {
            let rows = rows_high(f);
            assert forall|y: int| 0 <= y < rows.len() implies (#[trigger] rows[y]).len() == 10 by {
                lemma_nonzero_seq_len(row_of(f, y));
            }
            lemma_flatten_grid(rows);
            assert forall|y: int|
                0 <= y < 10 implies row_of(rows.flatten(), y) == compact_back(row_of(f, y)) by {
                assert forall|x: int| 0 <= x < 10 implies row_of(rows.flatten(), y)[x] == rows[y][x] by {
                    assert(rows.flatten()[10 * y + x] == rows[y][x]);
                }
                assert(row_of(rows.flatten(), y) =~= rows[y]);
            }
        },
        Action::Forward => {
            let rows = cols_low_rows(f);
            assert forall|y: int| 0 <= y < rows.len() implies (#[trigger] rows[y]).len() == 10 by {}
            lemma_flatten_grid(rows);
            assert forall|x: int|
                0 <= x < 10 implies col_of(rows.flatten(), x) == compact_front(col_of(f, x)) by {
                lemma_nonzero_seq_len(col_of(f, x));
                assert forall|y: int|
                    0 <= y < 10 implies col_of(rows.flatten(), x)[y] == compact_front(
                    col_of(f, x),
                )[y] by {
                    assert(rows.flatten()[10 * y + x] == rows[y][x]);
                    assert(rows[y][x] == compact_front(col_of(f, x))[y]);
                }
                assert(col_of(rows.flatten(), x) =~= compact_front(col_of(f, x)));
            }
        },
        Action::Back => {
            let rows = cols_high_rows(f);
            assert forall|y: int| 0 <= y < rows.len() implies (#[trigger] rows[y]).len() == 10 by {}
            lemma_flatten_grid(rows);
            assert forall|x: int|
                0 <= x < 10 implies col_of(rows.flatten(), x) == compact_back(col_of(f, x)) by {
                lemma_nonzero_seq_len(col_of(f, x));
                assert forall|y: int|
                    0 <= y < 10 implies col_of(rows.flatten(), x)[y] == compact_back(
                    col_of(f, x),
                )[y] by {
                    assert(rows.flatten()[10 * y + x] == rows[y][x]);
                    assert(rows[y][x] == compact_back(col_of(f, x))[y]);
                }
                assert(col_of(rows.flatten(), x) =~= compact_back(col_of(f, x)));
            }
        },
    }
}

/// Two boards with the same 10 rows are the same board.
pub proof fn lemma_flat_eq_by_rows(f: Seq<u8>, g: Seq<u8>)
    requires
        f.len() == 100,
        g.len() == 100,
        forall|y: int| 0 <= y < 10 ==> row_of(f, y) == row_of(g, y),
    ensures
        f == g,
{
    assert forall|i: int| 0 <= i < 100 implies f[i] == g[i] by {
        lemma_index_decompose(i);
        let y = i / 10;
        let x = i % 10;
        assert(row_of(f, y)[x] == f[10 * y + x]);
        assert(row_of(g, y)[x] == g[10 * y + x]);
    }
    assert(f =~= g);
}

/// Two boards with the same 10 columns are the same board.
pub proof fn lemma_flat_eq_by_cols(f: Seq<u8>, g: Seq<u8>)
    requires
        f.len() == 100,
        g.len() == 100,
        forall|x: int| 0 <= x < 10 ==> col_of(f, x) == col_of(g, x),
    ensures
        f == g,
{
    assert forall|i: int| 0 <= i < 100 implies f[i] == g[i] by {
        lemma_index_decompose(i);
        let y = i / 10;
        let x = i % 10;
        assert(col_of(f, x)[y] == f[10 * y + x]);
        assert(col_of(g, x)[y] == g[10 * y + x]);
    }
    assert(f =~= g);
}

/// Sliding in the same direction twice gives the same cells as sliding once:
/// a fully compacted board is a fixed point of its own compaction.
pub proof fn lemma_advance_idempotent(f: Seq<u8>, a: Action)
    requires
        f.len() == 100,
    ensures
        advance_flat(advance_flat(f, a), a) == advance_flat(f, a),
{
    let g1 = advance_flat(f, a);
    let g2 = advance_flat(g1, a);
    lemma_advance_flat_lines(f, a);
    lemma_advance_flat_lines(g1, a);
    match a {
        Action::Left | Action::Right => {
            assert forall|y: int| 0 <= y < 10 implies row_of(g2, y) == row_of(g1, y) by {
                lemma_compact_line_idempotent(row_of(f, y));
            }
            lemma_flat_eq_by_rows(g2, g1);
        },
        Action::Forward | Action::Back => {
            assert forall|x: int| 0 <= x < 10 implies col_of(g2, x) == col_of(g1, x) by {
                lemma_compact_line_idempotent(col_of(f, x));
            }
            lemma_flat_eq_by_cols(g2, g1);
        },
    }
}

/// `after` is `before` with its non-empty values contiguous at the low end,
/// in their original order, and empty cells above them.
pub open spec fn compacted_toward_low(before: Seq<u8>, after: Seq<u8>) -> bool {
    &&& after.len() == before.len()
    &&& after.subrange(0, nonzero_seq(before).len() as int) == nonzero_seq(before)
    &&& forall|i: int| nonzero_seq(before).len() <= i < after.len() ==> after[i] == 0
}

/// `after` is `before` with its non-empty values contiguous at the high end,
/// in their original order, and empty cells below them.
pub open spec fn compacted_toward_high(before: Seq<u8>, after: Seq<u8>) -> bool {
    &&& after.len() == before.len()
    &&& after.subrange(zero_count(before), after.len() as int) == nonzero_seq(before)
    &&& forall|i: int| 0 <= i < zero_count(before) ==> after[i] == 0
}

/// Compaction correctness for a whole move: after `advance`, every affected
/// line holds its non-empty values contiguous against the target edge, in
/// the order they had before the move.
pub proof fn lemma_advance_compaction_correct(f: Seq<u8>, a: Action)
    requires
        f.len() == 100,
    ensures
        a == Action::Left ==> forall|y: int|
            0 <= y < 10 ==> compacted_toward_low(row_of(f, y), row_of(advance_flat(f, a), y)),
        a == Action::Right ==> forall|y: int|
            0 <= y < 10 ==> compacted_toward_high(row_of(f, y), row_of(advance_flat(f, a), y)),
        a == Action::Forward ==> forall|x: int|
            0 <= x < 10 ==> compacted_toward_low(col_of(f, x), col_of(advance_flat(f, a), x)),
        a == Action::Back ==> forall|x: int|
            0 <= x < 10 ==> compacted_toward_high(col_of(f, x), col_of(advance_flat(f, a), x)),
{
    lemma_advance_flat_lines(f, a);
    match a {
        Action::Left | Action::Right => {
            assert forall|y: int| 0 <= y < 10 implies (if a == Action::Left {
                compacted_toward_low(row_of(f, y), row_of(advance_flat(f, a), y))
            } else {
                compacted_toward_high(row_of(f, y), row_of(advance_flat(f, a), y))
            }) by {
                lemma_compact_line_correct(row_of(f, y));
            }
        },
        Action::Forward | Action::Back => {
            assert forall|x: int| 0 <= x < 10 implies (if a == Action::Forward {
                compacted_toward_low(col_of(f, x), col_of(advance_flat(f, a), x))
            } else {
                compacted_toward_high(col_of(f, x), col_of(advance_flat(f, a), x))
            }) by {
                lemma_compact_line_correct(col_of(f, x));
            }
        },
    }
}

} // verus!
