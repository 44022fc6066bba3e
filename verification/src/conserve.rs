//! Conservation: a gravity-shift move rearranges the cells of the board but
//! never creates or destroys a tile. The multiset of all 100 cell values
//! (empty cells included) is unchanged by `advance`, so in particular the
//! multiset of non-empty tile values and the number of empty cells are too.
//! The row cases follow line by line; the column cases go through a transpose
//! argument: summing cell multisets by rows gives the same multiset as
//! summing them by columns.
use vstd::prelude::*;
use vstd::multiset::Multiset;

use crate::board::Action;
use crate::board::advance_flat;
use crate::board::col_of;
use crate::board::lemma_advance_flat_lines;
use crate::board::lemma_compact_line_mset;
use crate::board::lemma_flatten_grid;
use crate::board::lemma_index_decompose;
use crate::board::nonzero_seq;
use crate::board::row_of;
use crate::board::zero_count;

verus! {

/// The multiset of all values in a stack of lines.
pub open spec fn grid_mset(g: Seq<Seq<u8>>) -> Multiset<u8>
    decreases g.len(),
{
    if g.len() == 0 {
        Multiset::empty()
    } else {
        g.first().to_multiset().add(grid_mset(g.drop_first()))
    }
}

/// The ten rows of a board.
pub open spec fn rows_of(f: Seq<u8>) -> Seq<Seq<u8>> {
    Seq::new(10, |y: int| row_of(f, y))
}

/// The ten columns of a board.
pub open spec fn cols_of(f: Seq<u8>) -> Seq<Seq<u8>> {
    Seq::new(10, |x: int| col_of(f, x))
}

/// The columns of a stack of lines of width 10.
pub open spec fn transpose_of(g: Seq<Seq<u8>>) -> Seq<Seq<u8>> {
    Seq::new(10, |x: int| Seq::new(g.len(), |y: int| g[y][x]))
}

proof fn lemma_flatten_mset(g: Seq<Seq<u8>>)
    ensures
        g.flatten().to_multiset() == grid_mset(g),
    decreases g.len(),
{
    broadcast use vstd::multiset::group_multiset_axioms;
    broadcast use vstd::seq_lib::group_to_multiset_ensures;

    if g.len() == 0 {
        assert(g.flatten().to_multiset() =~= Multiset::empty());
    } else {
        lemma_flatten_mset(g.drop_first());
        vstd::seq_lib::lemma_multiset_commutative(g.first(), g.drop_first().flatten());
    }
}

/// Peeling the first element of a non-empty line off its multiset.
proof fn lemma_mset_first(s: Seq<u8>)
    requires
        s.len() > 0,
    ensures
        s.to_multiset() == s.drop_first().to_multiset().insert(s.first()),
{
    broadcast use vstd::multiset::group_multiset_axioms;
    broadcast use vstd::seq_lib::group_to_multiset_ensures;

    assert(s.remove(0) =~= s.drop_first());
    assert(s.to_multiset().count(s.first()) > 0);
    assert(s.to_multiset() =~= s.drop_first().to_multiset().insert(s.first()));
}

/// Lines with pointwise equal multisets stack to equal multisets.
proof fn lemma_grid_mset_pointwise(g1: Seq<Seq<u8>>, g2: Seq<Seq<u8>>)
    requires
        g1.len() == g2.len(),
        forall|i: int| 0 <= i < g1.len() ==> (#[trigger] g1[i]).to_multiset() == g2[i].to_multiset(),
    ensures
        grid_mset(g1) == grid_mset(g2),
    decreases g1.len(),
{
    if g1.len() > 0 {
        lemma_grid_mset_pointwise(g1.drop_first(), g2.drop_first());
    }
}

/// Removing the first cell of every line removes one full line's worth of
/// values from the stacked multiset.
proof fn lemma_grid_mset_heads(t: Seq<Seq<u8>>, t2: Seq<Seq<u8>>, r: Seq<u8>)
    requires
        t.len() == r.len(),
        t2.len() == r.len(),
        forall|x: int|
            0 <= x < r.len() ==> (#[trigger] t[x]).len() > 0 && t[x].first() == r[x]
                && t[x].drop_first() == t2[x],
    ensures
        grid_mset(t) == grid_mset(t2).add(r.to_multiset()),
    decreases r.len(),
{
    broadcast use vstd::multiset::group_multiset_axioms;
    broadcast use vstd::seq_lib::group_to_multiset_ensures;

    if r.len() == 0 {
        assert(r.to_multiset().len() == 0);
        assert(grid_mset(t) =~= grid_mset(t2).add(r.to_multiset()));
    } else {
        let tr = t.drop_first();
        let t2r = t2.drop_first();
        let rr = r.drop_first();
        assert forall|x: int|
            0 <= x < rr.len() implies (#[trigger] tr[x]).len() > 0 && tr[x].first() == rr[x]
            && tr[x].drop_first() == t2r[x] by {
            assert(tr[x] == t[x + 1]);
            assert(t2r[x] == t2[x + 1]);
            assert(rr[x] == r[x + 1]);
        }
        lemma_grid_mset_heads(tr, t2r, rr);
        lemma_mset_first(t[0]);
        lemma_mset_first(r);
        assert(grid_mset(t) =~= grid_mset(t2).add(r.to_multiset()));
    }
}

/// Summing cell multisets row by row gives the same multiset as column by
/// column: the transpose of a stack of width-10 lines keeps its multiset.
proof fn lemma_grid_transpose_mset(g: Seq<Seq<u8>>)
    requires
        forall|y: int| 0 <= y < g.len() ==> (#[trigger] g[y]).len() == 10,
    ensures
        grid_mset(g) == grid_mset(transpose_of(g)),
    decreases g.len(),
{
    broadcast use vstd::multiset::group_multiset_axioms;
    broadcast use vstd::seq_lib::group_to_multiset_ensures;

    if g.len() == 0 {
        lemma_grid_mset_empties(transpose_of(g));
    } else {
        let g1 = g.drop_first();
        assert forall|y: int| 0 <= y < g1.len() implies (#[trigger] g1[y]).len() == 10 by {
            assert(g1[y] == g[y + 1]);
        }
        lemma_grid_transpose_mset(g1);
        assert forall|x: int|
            0 <= x < 10 implies (#[trigger] transpose_of(g)[x]).len() > 0 && transpose_of(
            g,
        )[x].first() == g[0][x] && transpose_of(g)[x].drop_first() == transpose_of(g1)[x] by {
            assert(transpose_of(g)[x].drop_first() =~= transpose_of(g1)[x]);
        }
        lemma_grid_mset_heads(transpose_of(g), transpose_of(g1), g[0]);
        assert(grid_mset(g) =~= grid_mset(transpose_of(g)));
    }
}

proof fn lemma_grid_mset_empties(t: Seq<Seq<u8>>)
    requires
        forall|i: int| 0 <= i < t.len() ==> (#[trigger] t[i]).len() == 0,
    ensures
        grid_mset(t) == Multiset::<u8>::empty(),
    decreases t.len(),
{
    broadcast use vstd::multiset::group_multiset_axioms;
    broadcast use vstd::seq_lib::group_to_multiset_ensures;

    if t.len() > 0 {
        assert forall|i: int| 0 <= i < t.drop_first().len() implies (#[trigger] t.drop_first()[i]).len()
            == 0 by {
            assert(t.drop_first()[i] == t[i + 1]);
        }
        lemma_grid_mset_empties(t.drop_first());
        assert(t.first().to_multiset().len() == 0);
        assert(grid_mset(t) =~= Multiset::<u8>::empty());
    }
}

/// A board's multiset of cells is the sum of its rows' multisets.
pub proof fn lemma_flat_mset_rows(f: Seq<u8>)
    requires
        f.len() == 100,
    ensures
        f.to_multiset() == grid_mset(rows_of(f)),
{
    assert forall|y: int| 0 <= y < rows_of(f).len() implies (#[trigger] rows_of(f)[y]).len()
        == 10 by {}
    lemma_flatten_grid(rows_of(f));
    assert forall|i: int| 0 <= i < 100 implies f[i] == rows_of(f).flatten()[i] by {
        lemma_index_decompose(i);
        let y = i / 10;
        let x = i % 10;
        assert(rows_of(f).flatten()[10 * y + x] == rows_of(f)[y][x]);
        assert(rows_of(f)[y][x] == row_of(f, y)[x]);
    }
    assert(f =~= rows_of(f).flatten());
    lemma_flatten_mset(rows_of(f));
}

/// A board's multiset of cells is also the sum of its columns' multisets.
pub proof fn lemma_flat_mset_cols(f: Seq<u8>)
    requires
        f.len() == 100,
    ensures
        f.to_multiset() == grid_mset(cols_of(f)),
{
    lemma_flat_mset_rows(f);
    assert forall|y: int| 0 <= y < rows_of(f).len() implies (#[trigger] rows_of(f)[y]).len()
        == 10 by {}
    lemma_grid_transpose_mset(rows_of(f));
    assert forall|x: int| 0 <= x < 10 implies transpose_of(rows_of(f))[x] == cols_of(f)[x] by {
        assert(transpose_of(rows_of(f))[x] =~= col_of(f, x));
    }
    assert(transpose_of(rows_of(f)) =~= cols_of(f));
}

/// The number of empty cells is the multiplicity of 0 in the cell multiset.
pub proof fn lemma_zero_count_mset(s: Seq<u8>)
    ensures
        zero_count(s) == s.to_multiset().count(0u8),
    decreases s.len(),
{
    broadcast use vstd::multiset::group_multiset_axioms;
    broadcast use vstd::seq_lib::group_to_multiset_ensures;

    if s.len() == 0 {
        assert(s.to_multiset().len() == 0);
        assert(s.to_multiset() =~= Multiset::<u8>::empty());
    } else {
        lemma_zero_count_mset(s.drop_last());
        assert(s.drop_last().push(s.last()) =~= s);
        assert(s.to_multiset() == s.drop_last().to_multiset().insert(s.last()));
    }
}

/// The multiset of a line's non-empty values: multiplicity 0 for the empty
/// value and the line's own multiplicity for everything else.
pub proof fn lemma_nonzero_mset_count(s: Seq<u8>, v: u8)
    ensures
        v != 0 ==> nonzero_seq(s).to_multiset().count(v) == s.to_multiset().count(v),
        nonzero_seq(s).to_multiset().count(0u8) == 0,
    decreases s.len(),
{
    broadcast use vstd::multiset::group_multiset_axioms;
    broadcast use vstd::seq_lib::group_to_multiset_ensures;

    if s.len() == 0 {
        assert(s.to_multiset().len() == 0);
        assert(nonzero_seq(s).to_multiset().len() == 0);
        assert(s.to_multiset() =~= Multiset::<u8>::empty());
        assert(nonzero_seq(s).to_multiset() =~= Multiset::<u8>::empty());
    } else {
        lemma_nonzero_mset_count(s.drop_last(), v);
        assert(s.drop_last().push(s.last()) =~= s);
        assert(s.to_multiset() == s.drop_last().to_multiset().insert(s.last()));
        if s.last() != 0 {
            assert(nonzero_seq(s) == nonzero_seq(s.drop_last()).push(s.last()));
        }
    }
}

/// Conservation: a move never changes the multiset of cell values on the
/// board. In particular the multiset of non-empty tile values and the number
/// of empty cells are unchanged; only positions change.
pub proof fn lemma_advance_conserves(f: Seq<u8>, a: Action)
    requires
        f.len() == 100,
    ensures
        advance_flat(f, a).to_multiset() == f.to_multiset(),
        nonzero_seq(advance_flat(f, a)).to_multiset() == nonzero_seq(f).to_multiset(),
        zero_count(advance_flat(f, a)) == zero_count(f),
{
    broadcast use vstd::multiset::group_multiset_axioms;

    let g = advance_flat(f, a);
    lemma_advance_flat_lines(f, a);
    match a {
        Action::Left | Action::Right => {
            assert forall|y: int|
                0 <= y < 10 implies (#[trigger] rows_of(g)[y]).to_multiset() == rows_of(
                f,
            )[y].to_multiset() by {
                lemma_compact_line_mset(row_of(f, y));
            }
            lemma_grid_mset_pointwise(rows_of(g), rows_of(f));
            lemma_flat_mset_rows(f);
            lemma_flat_mset_rows(g);
        },
        Action::Forward | Action::Back => {
            assert forall|x: int|
                0 <= x < 10 implies (#[trigger] cols_of(g)[x]).to_multiset() == cols_of(
                f,
            )[x].to_multiset() by {
                lemma_compact_line_mset(col_of(f, x));
            }
            lemma_grid_mset_pointwise(cols_of(g), cols_of(f));
            lemma_flat_mset_cols(f);
            lemma_flat_mset_cols(g);
        },
    }
    lemma_zero_count_mset(f);
    lemma_zero_count_mset(g);
    assert forall|v: u8| #[trigger] nonzero_seq(g).to_multiset().count(v) == nonzero_seq(
        f,
    ).to_multiset().count(v) by {
        lemma_nonzero_mset_count(f, v);
        lemma_nonzero_mset_count(g, v);
    }
    assert(nonzero_seq(g).to_multiset() =~= nonzero_seq(f).to_multiset());
}

} // verus!
