//! The deduction rules, stated per cell: saturation and satisfaction of one
//! numbered cell, and the subset and difference rules on a pair of them.
use vstd::prelude::*;
use crate::board::{
    blank_and_flagged_surrounding, blank_surrounding, flagged_surrounding, lemma_filter_iff,
    lemma_neighbors, lemma_neighbors_symmetric, numbered_surrounding, Board, Cell, Grid, Pos,
};

verus! {

/// A revealed numbered cell whose hidden and flagged neighbors are exactly as
/// many as its count: all of them are mines.
pub open spec fn saturated(g: Grid, q: Pos) -> bool {
    g.in_bounds(q) && g.is_numbered(q) && g.unknown_nbrs(q).len() == g.number(q)
}

/// A revealed numbered cell with as many flagged neighbors as its count: its
/// other hidden neighbors are safe.
pub open spec fn satisfied(g: Grid, q: Pos) -> bool {
    g.in_bounds(q) && g.is_numbered(q) && g.flagged_nbrs(q).len() == g.number(q)
}

/// `p` is a hidden neighbor of a saturated cell.
pub open spec fn local_flag(g: Grid, p: Pos) -> bool {
    exists|q: Pos| saturated(g, q) && #[trigger] g.hidden_nbrs(q).contains(p)
}

/// `p` is a hidden neighbor of a satisfied cell.
pub open spec fn local_clear(g: Grid, p: Pos) -> bool {
    exists|q: Pos| satisfied(g, q) && #[trigger] g.hidden_nbrs(q).contains(p)
}

/// `a` and `b` are numbered cells and `b` neighbors `a`.
pub open spec fn paired(g: Grid, a: Pos, b: Pos) -> bool {
    g.in_bounds(a) && g.is_numbered(a) && g.numbered_nbrs(a).contains(b)
}

pub open spec fn outside(s: Seq<Pos>) -> spec_fn(Pos) -> bool {
    |x: Pos| !s.contains(x)
}

/// The hidden neighbors of `b` that are not hidden neighbors of `a`.
pub open spec fn extra_hidden(g: Grid, a: Pos, b: Pos) -> Seq<Pos> {
    g.hidden_nbrs(b).filter(outside(g.hidden_nbrs(a)))
}

/// The hidden neighbors of `a` all neighbor `b`, and both miss the same number
/// of mines: the rest of `b`'s hidden neighbors are safe.
pub open spec fn subset_pair(g: Grid, a: Pos, b: Pos) -> bool {
    &&& paired(g, a, b)
    &&& forall|x: Pos| #[trigger]
        g.hidden_nbrs(a).contains(x) ==> g.hidden_nbrs(b).contains(x)
    &&& g.remaining(a) == g.remaining(b)
}

/// `b` misses at least as many mines as `a`, and the hidden neighbors of `b`
/// outside those of `a` are exactly as many as the difference: all are mines.
pub open spec fn difference_pair(g: Grid, a: Pos, b: Pos) -> bool {
    &&& paired(g, a, b)
    &&& g.remaining(a) <= g.remaining(b)
    &&& extra_hidden(g, a, b).len() == g.remaining(b) - g.remaining(a)
}

/// `p` is shown safe by the subset rule on some pair.
pub open spec fn subset_clear(g: Grid, p: Pos) -> bool {
    exists|a: Pos, b: Pos| subset_pair(g, a, b) && #[trigger] extra_hidden(g, a, b).contains(p)
}

/// `p` is shown mined by the difference rule on some pair.
pub open spec fn difference_flag(g: Grid, p: Pos) -> bool {
    exists|a: Pos, b: Pos| difference_pair(g, a, b) && #[trigger] extra_hidden(g, a, b).contains(p)
}

/// The cells of row `r` in its first `n` columns.
pub open spec fn row_cells(r: usize, n: nat) -> Seq<Pos> {
    Seq::new(n, |j: int| (r, j as usize))
}

/// The cells of the first `n` rows of a grid with `cols` columns, row by row.
pub open spec fn rows_prefix(n: nat, cols: nat) -> Seq<Pos>
    decreases n,
{
    if n == 0 {
        seq![]
    } else {
        rows_prefix((n - 1) as nat, cols) + row_cells((n - 1) as usize, cols)
    }
}

/// Every cell of the grid in row-major order.
pub open spec fn all_cells(g: Grid) -> Seq<Pos> {
    rows_prefix(g.rows, g.cols)
}

pub(crate) open spec fn pair_fires(g: Grid, a: Pos, b: Pos, p: Pos, to_flag: bool) -> bool {
    &&& if to_flag {
        difference_pair(g, a, b)
    } else {
        subset_pair(g, a, b)
    }
    &&& extra_hidden(g, a, b).contains(p)
}

/// Whether `x` is among the cells of `v`.
fn includes(v: &Vec<Pos>, x: Pos) -> (b: bool)
    ensures
        b == v@.contains(x),
{
    let mut i: usize = 0;
    while i < v.len()
        invariant
            i <= v@.len(),
            forall|j: int| 0 <= j < i ==> v@[j] != x,
        decreases v.len() - i,
    {
        let y = v[i];
        if y.0 == x.0 && y.1 == x.1 {
            return true;
        }
        i += 1;
    }
    false
}

/// Whether every cell of `sub` is among the cells of `sup`.
fn all_within(sub: &Vec<Pos>, sup: &Vec<Pos>) -> (b: bool)
    ensures
        b == (forall|x: Pos| #[trigger] sub@.contains(x) ==> sup@.contains(x)),
{
    let mut i: usize = 0;
    while i < sub.len()
        invariant
            i <= sub@.len(),
            forall|j: int| 0 <= j < i ==> sup@.contains(#[trigger] sub@[j]),
        decreases sub.len() - i,
    {
        if !includes(sup, sub[i]) {
            assert(sub@.contains(sub@[i as int]));
            return false;
        }
        i += 1;
    }
    assert forall|x: Pos| #[trigger] sub@.contains(x) implies sup@.contains(x) by {
        let j = choose|j: int| 0 <= j < sub@.len() && sub@[j] == x;
    }
    true
}

/// How many cells of `v` are not among the cells of `w`.
fn count_outside(v: &Vec<Pos>, w: &Vec<Pos>) -> (n: usize)
    ensures
        n == v@.filter(outside(w@)).len(),
{
    let ghost f = outside(w@);
    let mut n: usize = 0;
    let mut i: usize = 0;
    while i < v.len()
        invariant
            i <= v@.len(),
            f == outside(w@),
            n == v@.take(i as int).filter(f).len(),
            n <= i,
        decreases v.len() - i,
    {
        proof {
            assert(v@.take(i + 1) == v@.take(i as int).push(v@[i as int]));
            v@.take(i as int).lemma_filter_push(v@[i as int], f);
        }
        if !includes(w, v[i]) {
            n += 1;
        }
        i += 1;
    }
    assert(v@.take(v@.len() as int) == v@);
    n
}

/// The mines of a numbered cell that its flagged neighbors do not account for.
fn remaining_of(board: &Board, q: Pos) -> (m: i64)
    requires
        board@.wf(),
        board@.in_bounds(q),
        board@.is_numbered(q),
    ensures
        m == board@.remaining(q),
        -8 <= m <= 255,
{
    let n: u8 = match board.get(q.0, q.1) {
        Cell::Revealed(n) => n,
        _ => 0,
    };
    let flagged = flagged_surrounding(board, q.0, q.1);
    proof {
        lemma_neighbors(board@.rows, board@.cols, q);
        board@.nbrs(q).lemma_filter_len(board@.flagged_pred());
    }
    n as i64 - flagged.len() as i64
}

/// Whether the local rule of the given polarity puts `(r, c)` in its set.
pub(crate) fn local_fires(board: &Board, r: usize, c: usize, to_flag: bool) -> (b: bool)
    requires
        board@.wf(),
        board@.in_bounds((r, c)),
    ensures
        b == if to_flag {
            local_flag(board@, (r, c))
        } else {
            local_clear(board@, (r, c))
        },
{
    let ghost g = board@;
    let ghost p = (r, c);
    if board.get(r, c) != Cell::Hidden {
        proof {
            assert forall|q: Pos| !#[trigger] g.hidden_nbrs(q).contains(p) by {
                lemma_filter_iff(g.nbrs(q), g.hidden_pred(), p);
            }
        }
        return false;
    }
    let nbrs = numbered_surrounding(board, r, c);
    proof {
        lemma_neighbors(g.rows, g.cols, p);
    }
    let mut i: usize = 0;
    while i < nbrs.len()
        invariant
            g == board@,
            p == (r, c),
            g.wf(),
            g.in_bounds(p),
            g.is_hidden(p),
            nbrs@ == g.numbered_nbrs(p),
            i <= nbrs@.len(),
            forall|j: int|
                0 <= j < i ==> !(if to_flag {
                    saturated(g, #[trigger] nbrs@[j])
                } else {
                    satisfied(g, nbrs@[j])
                }),
        decreases nbrs.len() - i,
    {
        let q = nbrs[i];
        proof {
            assert(nbrs@.contains(q));
            lemma_filter_iff(g.nbrs(p), g.numbered_pred(), q);
            lemma_neighbors(g.rows, g.cols, p);
        }
        let n: u8 = match board.get(q.0, q.1) {
            Cell::Revealed(n) => n,
            _ => 0,
        };
        let count = if to_flag {
            blank_and_flagged_surrounding(board, q.0, q.1).len()
        } else {
            flagged_surrounding(board, q.0, q.1).len()
        };
        if count == n as usize {
            proof {
                lemma_neighbors_symmetric(g.rows, g.cols, p, q);
                lemma_filter_iff(g.nbrs(q), g.hidden_pred(), p);
                assert(g.hidden_nbrs(q).contains(p));
                if to_flag {
                    assert(saturated(g, q));
                    assert(local_flag(g, p));
                } else {
                    assert(satisfied(g, q));
                    assert(local_clear(g, p));
                }
            }
            return true;
        }
        i += 1;
    }
    proof {
        assert forall|q: Pos|
            !((if to_flag {
                saturated(g, q)
            } else {
                satisfied(g, q)
            }) && #[trigger] g.hidden_nbrs(q).contains(p)) by {
            if (if to_flag {
                saturated(g, q)
            } else {
                satisfied(g, q)
            }) && g.hidden_nbrs(q).contains(p) {
                lemma_filter_iff(g.nbrs(q), g.hidden_pred(), p);
                lemma_neighbors_symmetric(g.rows, g.cols, p, q);
                lemma_filter_iff(g.nbrs(p), g.numbered_pred(), q);
                let j = choose|j: int| 0 <= j < nbrs@.len() && nbrs@[j] == q;
            }
        }
    }
    false
}

/// Whether the pairwise rule of the given polarity puts `(r, c)` in its set.
pub(crate) fn pairwise_fires(board: &Board, r: usize, c: usize, to_flag: bool) -> (fired: bool)
    requires
        board@.wf(),
        board@.in_bounds((r, c)),
    ensures
        fired == if to_flag {
            difference_flag(board@, (r, c))
        } else {
            subset_clear(board@, (r, c))
        },
{
    let ghost g = board@;
    let ghost p = (r, c);
    proof {
        lemma_neighbors(g.rows, g.cols, p);
    }
    let outer = numbered_surrounding(board, r, c);
    let mut i: usize = 0;
    while i < outer.len()
        invariant
            g == board@,
            p == (r, c),
            g.wf(),
            g.in_bounds(p),
            outer@ == g.numbered_nbrs(p),
            i <= outer@.len(),
            forall|j: int, a: Pos|
                0 <= j < i ==> !#[trigger] pair_fires(g, a, outer@[j], p, to_flag),
        decreases outer.len() - i,
    {
        let b = outer[i];
        proof {
            assert(outer@.contains(b));
            lemma_filter_iff(g.nbrs(p), g.numbered_pred(), b);
            lemma_neighbors(g.rows, g.cols, p);
            lemma_neighbors(g.rows, g.cols, b);
        }
        let hb = blank_surrounding(board, b.0, b.1);
        let rem_b = remaining_of(board, b);
        let inner = numbered_surrounding(board, b.0, b.1);
        let mut j: usize = 0;
        while j < inner.len()
            invariant
                g == board@,
                p == (r, c),
                g.wf(),
                g.in_bounds(p),
                g.in_bounds(b),
                g.is_numbered(b),
                hb@ == g.hidden_nbrs(b),
                rem_b == g.remaining(b),
                inner@ == g.numbered_nbrs(b),
                j <= inner@.len(),
                forall|k: int| 0 <= k < j ==> !#[trigger] pair_fires(g, inner@[k], b, p, to_flag),
            decreases inner.len() - j,
        {
            let a = inner[j];
            proof {
                assert(inner@.contains(a));
                lemma_filter_iff(g.nbrs(b), g.numbered_pred(), a);
                lemma_neighbors(g.rows, g.cols, b);
                lemma_neighbors_symmetric(g.rows, g.cols, a, b);
                lemma_filter_iff(g.nbrs(a), g.numbered_pred(), b);
            }
            let ha = blank_surrounding(board, a.0, a.1);
            let rem_a = remaining_of(board, a);
            let holds = if to_flag {
                rem_a <= rem_b && count_outside(&hb, &ha) as i64 == rem_b - rem_a
            } else {
                all_within(&ha, &hb) && rem_a == rem_b
            };
            let in_extra = includes(&hb, (r, c)) && !includes(&ha, (r, c));
            proof {
                lemma_filter_iff(hb@, outside(ha@), p);
            }
            if holds && in_extra {
                proof {
                    assert(pair_fires(g, a, b, p, to_flag));
                    if to_flag {
                        assert(difference_flag(g, p));
                    } else {
                        assert(subset_clear(g, p));
                    }
                }
                return true;
            }
            j += 1;
        }
        proof {
            assert forall|a: Pos| !#[trigger] pair_fires(g, a, b, p, to_flag) by {
                if pair_fires(g, a, b, p, to_flag) {
                    lemma_filter_iff(g.nbrs(a), g.numbered_pred(), b);
                    lemma_neighbors(g.rows, g.cols, a);
                    lemma_neighbors_symmetric(g.rows, g.cols, a, b);
                    lemma_filter_iff(g.nbrs(b), g.numbered_pred(), a);
                    let k = choose|k: int| 0 <= k < inner@.len() && inner@[k] == a;
                }
            }
        }
        i += 1;
    }
    proof {
        assert forall|a: Pos, b: Pos| !#[trigger] pair_fires(g, a, b, p, to_flag) by {
            if pair_fires(g, a, b, p, to_flag) {
                lemma_filter_iff(g.nbrs(a), g.numbered_pred(), b);
                lemma_neighbors(g.rows, g.cols, a);
                lemma_filter_iff(g.hidden_nbrs(b), outside(g.hidden_nbrs(a)), p);
                lemma_filter_iff(g.nbrs(b), g.hidden_pred(), p);
                lemma_neighbors_symmetric(g.rows, g.cols, p, b);
                lemma_filter_iff(g.nbrs(p), g.numbered_pred(), b);
                let k = choose|k: int| 0 <= k < outer@.len() && outer@[k] == b;
                assert(!pair_fires(g, a, outer@[k], p, to_flag));
            }
        }
        if to_flag {
            assert(!difference_flag(g, p)) by {
                if difference_flag(g, p) {
                    let (a, b) = choose|a: Pos, b: Pos|
                        difference_pair(g, a, b) && #[trigger] extra_hidden(g, a, b).contains(p);
                    assert(pair_fires(g, a, b, p, to_flag));
                }
            }
        } else {
            assert(!subset_clear(g, p)) by {
                if subset_clear(g, p) {
                    let (a, b) = choose|a: Pos, b: Pos|
                        subset_pair(g, a, b) && #[trigger] extra_hidden(g, a, b).contains(p);
                    assert(pair_fires(g, a, b, p, to_flag));
                }
            }
        }
    }
    false
}

} // verus!
