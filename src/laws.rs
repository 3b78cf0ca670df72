//! Properties of the deductions: soundness against every placement of mines
//! that the board allows, stability at a fixpoint, and reproducible fallback.
use vstd::prelude::*;
use crate::board::{lemma_filter_iff, lemma_neighbors, nbrs_upto, neighbors, Grid, Pos};
use crate::engine::{
    fallback_choice, flagged_cells, hidden_cells, pass_clear_pred, pass_clears, pass_flag_pred,
    pass_flags, with_flags,
};
use crate::rules::{
    all_cells, row_cells, rows_prefix, difference_flag, difference_pair, extra_hidden, local_clear, local_flag,
    outside, satisfied, saturated, subset_clear, subset_pair,
};

verus! {

/// The predicate of holding a mine under the placement `mines`.
pub open spec fn mined(mines: Set<Pos>) -> spec_fn(Pos) -> bool {
    |q: Pos| mines.contains(q)
}

/// A placement of mines that agrees with the board: flagged cells hold mines,
/// revealed cells hold none, and each revealed count is the number of mines
/// among that cell's neighbors.
pub open spec fn consistent(g: Grid, mines: Set<Pos>) -> bool {
    &&& forall|p: Pos| g.in_bounds(p) && #[trigger] g.at(p) is Flagged ==> mines.contains(p)
    &&& forall|p: Pos| g.in_bounds(p) && #[trigger] g.at(p) is Revealed ==> !mines.contains(p)
    &&& forall|p: Pos|
        g.in_bounds(p) && #[trigger] g.at(p) is Revealed ==> g.nbrs(p).filter(mined(mines)).len()
            == g.number(p)
}

proof fn lemma_filter_no_dup(s: Seq<Pos>, f: spec_fn(Pos) -> bool)
    requires
        s.no_duplicates(),
    ensures
        s.filter(f).no_duplicates(),
    decreases s.len(),
{
    reveal(Seq::filter);
    if s.len() > 0 {
        let t = s.drop_last();
        assert(t.no_duplicates()) by {
            assert forall|i: int, j: int| 0 <= i < t.len() && 0 <= j < t.len() && i != j implies t[i]
                != t[j] by {
                assert(s[i] != s[j]);
            }
        }
        lemma_filter_no_dup(t, f);
        if f(s.last()) {
            let tf = t.filter(f);
            let x = s.last();
            assert(!t.contains(x)) by {
                if t.contains(x) {
                    let i = choose|i: int| 0 <= i < t.len() && t[i] == x;
                    assert(s[i] == s[s.len() - 1]);
                }
            }
            lemma_filter_iff(t, f, x);
            let r = tf.push(x);
            assert forall|i: int, j: int| 0 <= i < r.len() && 0 <= j < r.len() && i != j implies r[i]
                != r[j] by {
                if i < tf.len() && j < tf.len() {
                    assert(tf[i] != tf[j]);
                } else if i < tf.len() {
                    assert(tf.contains(tf[i]));
                } else if j < tf.len() {
                    assert(tf.contains(tf[j]));
                }
            }
        }
    }
}

/// Counting the cells of a duplicate-free sequence that satisfy `f` is counting
/// a finite set.
proof fn lemma_count(s: Seq<Pos>, f: spec_fn(Pos) -> bool)
    requires
        s.no_duplicates(),
    ensures
        s.filter(f).no_duplicates(),
        s.filter(f).to_set().finite(),
        s.filter(f).len() == s.filter(f).to_set().len(),
        forall|x: Pos| #[trigger] s.filter(f).to_set().contains(x) <==> (s.contains(x) && f(x)),
{
    lemma_filter_no_dup(s, f);
    s.filter(f).unique_seq_to_set();
    vstd::seq_lib::seq_to_set_is_finite(s.filter(f));
    assert forall|x: Pos| #[trigger] s.filter(f).to_set().contains(x) <==> (s.contains(x) && f(x)) by {
        lemma_filter_iff(s, f, x);
    }
}

/// Among the neighbors of a saturated cell, the mines are exactly the hidden and
/// flagged ones.
proof fn lemma_saturated_sound(g: Grid, mines: Set<Pos>, q: Pos, p: Pos)
    requires
        g.wf(),
        consistent(g, mines),
        saturated(g, q),
        g.hidden_nbrs(q).contains(p),
    ensures
        mines.contains(p),
{
    let n = g.nbrs(q);
    lemma_neighbors(g.rows, g.cols, q);
    lemma_count(n, g.unknown_pred());
    lemma_count(n, mined(mines));
    let u = n.filter(g.unknown_pred()).to_set();
    let m = n.filter(mined(mines)).to_set();
    assert(g.at(q) is Revealed);
    assert(m.subset_of(u)) by {
        assert forall|x: Pos| m.contains(x) implies u.contains(x) by {
            assert(n.contains(x));
            assert(g.in_bounds(x));
            if g.at(x) is Revealed {
            }
        }
    }
    vstd::set_lib::lemma_subset_equality(m, u);
    lemma_filter_iff(n, g.hidden_pred(), p);
    assert(u.contains(p));
}

/// Among the neighbors of a satisfied cell, the mines are exactly the flagged
/// ones.
proof fn lemma_satisfied_sound(g: Grid, mines: Set<Pos>, q: Pos, p: Pos)
    requires
        g.wf(),
        consistent(g, mines),
        satisfied(g, q),
        g.hidden_nbrs(q).contains(p),
    ensures
        !mines.contains(p),
{
    let n = g.nbrs(q);
    lemma_neighbors(g.rows, g.cols, q);
    lemma_count(n, g.flagged_pred());
    lemma_count(n, mined(mines));
    let fl = n.filter(g.flagged_pred()).to_set();
    let m = n.filter(mined(mines)).to_set();
    assert(g.at(q) is Revealed);
    assert(fl.subset_of(m)) by {
        assert forall|x: Pos| fl.contains(x) implies m.contains(x) by {
            assert(n.contains(x));
            assert(g.in_bounds(x));
            assert(g.at(x) is Flagged);
        }
    }
    vstd::set_lib::lemma_subset_equality(fl, m);
    lemma_filter_iff(n, g.hidden_pred(), p);
    if mines.contains(p) {
        assert(m.contains(p));
    }
}

/// The mines among the hidden neighbors of a numbered cell number its
/// remaining count.
proof fn lemma_hidden_mines(g: Grid, mines: Set<Pos>, x: Pos)
    requires
        g.wf(),
        consistent(g, mines),
        g.in_bounds(x),
        g.is_numbered(x),
    ensures
        g.hidden_nbrs(x).no_duplicates(),
        g.hidden_nbrs(x).to_set().finite(),
        g.hidden_nbrs(x).to_set().filter(mined(mines)).finite(),
        g.hidden_nbrs(x).to_set().filter(mined(mines)).len() == g.remaining(x),
        forall|y: Pos| #[trigger]
            g.hidden_nbrs(x).to_set().contains(y) <==> (g.nbrs(x).contains(y) && g.is_hidden(y)),
{
    let n = g.nbrs(x);
    lemma_neighbors(g.rows, g.cols, x);
    lemma_count(n, g.hidden_pred());
    lemma_count(n, g.flagged_pred());
    lemma_count(n, mined(mines));
    let h = n.filter(g.hidden_pred()).to_set();
    let fl = n.filter(g.flagged_pred()).to_set();
    let m = n.filter(mined(mines)).to_set();
    let hm = h.filter(mined(mines));
    h.lemma_len_filter(mined(mines));
    assert(g.at(x) is Revealed);
    assert(m =~= fl + hm) by {
        assert forall|y: Pos| m.contains(y) <==> (fl + hm).contains(y) by {
            if n.contains(y) {
                assert(g.in_bounds(y));
                if g.at(y) is Revealed {
                }
                if g.at(y) is Flagged {
                }
            }
        }
    }
    assert(fl.disjoint(hm));
    vstd::set_lib::lemma_set_disjoint_lens(fl, hm);
}

proof fn lemma_subset_sound(g: Grid, mines: Set<Pos>, a: Pos, b: Pos, p: Pos)
    requires
        g.wf(),
        consistent(g, mines),
        subset_pair(g, a, b),
        extra_hidden(g, a, b).contains(p),
    ensures
        !mines.contains(p),
{
    lemma_neighbors(g.rows, g.cols, a);
    lemma_filter_iff(g.nbrs(a), g.numbered_pred(), b);
    lemma_hidden_mines(g, mines, a);
    lemma_hidden_mines(g, mines, b);
    let ha = g.hidden_nbrs(a).to_set();
    let hb = g.hidden_nbrs(b).to_set();
    let hma = ha.filter(mined(mines));
    let hmb = hb.filter(mined(mines));
    let e = hmb.difference(ha);
    assert(hmb =~= hma + e) by {
        assert forall|y: Pos| hma.contains(y) implies hmb.contains(y) by {
            assert(g.hidden_nbrs(a).contains(y));
        }
    }
    vstd::set_lib::lemma_len_difference(hmb, ha);
    assert(hma.disjoint(e));
    vstd::set_lib::lemma_set_disjoint_lens(hma, e);
    lemma_filter_iff(g.hidden_nbrs(b), outside(g.hidden_nbrs(a)), p);
    if mines.contains(p) {
        assert(e.contains(p));
        vstd::set::axiom_set_remove_len(e, p);
    }
}

proof fn lemma_difference_sound(g: Grid, mines: Set<Pos>, a: Pos, b: Pos, p: Pos)
    requires
        g.wf(),
        consistent(g, mines),
        difference_pair(g, a, b),
        extra_hidden(g, a, b).contains(p),
    ensures
        mines.contains(p),
{
    lemma_neighbors(g.rows, g.cols, a);
    lemma_filter_iff(g.nbrs(a), g.numbered_pred(), b);
    lemma_hidden_mines(g, mines, a);
    lemma_hidden_mines(g, mines, b);
    let ha = g.hidden_nbrs(a).to_set();
    let hb = g.hidden_nbrs(b).to_set();
    let hma = ha.filter(mined(mines));
    let hmb = hb.filter(mined(mines));
    lemma_count(g.hidden_nbrs(b), outside(g.hidden_nbrs(a)));
    let d = extra_hidden(g, a, b).to_set();
    let dm = hmb.difference(ha);
    let i = hmb.intersect(ha);
    assert(hmb =~= i + dm);
    assert(i.disjoint(dm));
    vstd::set_lib::lemma_len_difference(hmb, ha);
    vstd::set_lib::lemma_len_intersect(hmb, ha);
    vstd::set_lib::lemma_set_disjoint_lens(i, dm);
    assert(i.subset_of(hma));
    vstd::set_lib::lemma_len_subset(i, hma);
    assert(dm.subset_of(d)) by {
        assert forall|y: Pos| dm.contains(y) implies d.contains(y) by {
            assert(g.hidden_nbrs(b).contains(y));
            assert(!g.hidden_nbrs(a).contains(y));
        }
    }
    vstd::set_lib::lemma_len_subset(dm, d);
    vstd::set_lib::lemma_subset_equality(dm, d);
    assert(d.contains(p));
}

/// Soundness of flagging: every cell in the flag-set of a pass holds a mine
/// under every placement of mines consistent with the board.
pub proof fn lemma_pass_flags_sound(g: Grid, mines: Set<Pos>, p: Pos)
    requires
        g.wf(),
        consistent(g, mines),
        pass_flags(g).contains(p),
    ensures
        mines.contains(p),
{
    lemma_filter_iff(all_cells(g), pass_flag_pred(g), p);
    if local_flag(g, p) {
        let q = choose|q: Pos| saturated(g, q) && #[trigger] g.hidden_nbrs(q).contains(p);
        lemma_saturated_sound(g, mines, q, p);
    } else {
        assert(difference_flag(g, p));
        let (a, b) = choose|a: Pos, b: Pos|
            difference_pair(g, a, b) && #[trigger] extra_hidden(g, a, b).contains(p);
        lemma_difference_sound(g, mines, a, b, p);
    }
}

/// Soundness of clearing: no cell in the clear-set of a pass holds a mine under
/// any placement of mines consistent with the board.
pub proof fn lemma_pass_clears_sound(g: Grid, mines: Set<Pos>, p: Pos)
    requires
        g.wf(),
        consistent(g, mines),
        pass_clears(g).contains(p),
    ensures
        !mines.contains(p),
{
    lemma_filter_iff(all_cells(g), pass_clear_pred(g), p);
    if local_clear(g, p) {
        let q = choose|q: Pos| satisfied(g, q) && #[trigger] g.hidden_nbrs(q).contains(p);
        lemma_satisfied_sound(g, mines, q, p);
    } else {
        assert(subset_clear(g, p));
        let (a, b) = choose|a: Pos, b: Pos|
            subset_pair(g, a, b) && #[trigger] extra_hidden(g, a, b).contains(p);
        lemma_subset_sound(g, mines, a, b, p);
    }
}

proof fn lemma_rows_prefix(n: nat, cols: nat)
    requires
        n <= usize::MAX + 1,
        cols <= usize::MAX,
    ensures
        rows_prefix(n, cols).no_duplicates(),
        forall|p: Pos| #[trigger] rows_prefix(n, cols).contains(p) <==> (p.0 < n && p.1 < cols),
    decreases n,
{
    if n > 0 {
        let prev = rows_prefix((n - 1) as nat, cols);
        let row = row_cells((n - 1) as usize, cols);
        let all = prev + row;
        lemma_rows_prefix((n - 1) as nat, cols);
        assert forall|p: Pos| #[trigger] all.contains(p) <==> (p.0 < n && p.1 < cols) by {
            if p.0 == n - 1 && p.1 < cols {
                assert(all[prev.len() + p.1] == p);
            }
            if p.0 < n - 1 && p.1 < cols {
                assert(prev.contains(p));
                let i = choose|i: int| 0 <= i < prev.len() && prev[i] == p;
                assert(all[i] == p);
            }
            if all.contains(p) {
                let i = choose|i: int| 0 <= i < all.len() && all[i] == p;
                if i < prev.len() {
                    assert(all[i] == prev[i]);
                    assert(prev.contains(prev[i]));
                } else {
                    assert(all[i] == row[i - prev.len()]);
                }
            }
        }
        assert forall|i: int, j: int| 0 <= i < all.len() && 0 <= j < all.len() && i != j implies all[i]
            != all[j] by {
            if i < prev.len() && j < prev.len() {
                assert(prev[i] != prev[j]);
            } else if i < prev.len() {
                assert(prev.contains(prev[i]));
            } else if j < prev.len() {
                assert(prev.contains(prev[j]));
            }
        }
    }
}

/// Soundness of the closure rule: once the flags number the puzzle's mines,
/// no hidden cell holds a mine under any consistent placement of that many
/// mines on the board.
pub proof fn lemma_closure_sound(g: Grid, mines: Set<Pos>, nbombs: nat, p: Pos)
    requires
        g.wf(),
        consistent(g, mines),
        mines.finite(),
        mines.len() == nbombs,
        forall|x: Pos| #[trigger] mines.contains(x) ==> g.in_bounds(x),
        flagged_cells(g).len() == nbombs,
        hidden_cells(g).contains(p),
    ensures
        !mines.contains(p),
{
    lemma_rows_prefix(g.rows, g.cols);
    lemma_count(all_cells(g), g.flagged_pred());
    let fl = flagged_cells(g).to_set();
    assert(fl.subset_of(mines)) by {
        assert forall|x: Pos| fl.contains(x) implies mines.contains(x) by {
            assert(g.at(x) is Flagged);
        }
    }
    vstd::set_lib::lemma_subset_equality(fl, mines);
    lemma_filter_iff(all_cells(g), g.hidden_pred(), p);
}

/// On a board that some placement of mines explains, no cell is both flagged
/// and cleared by one pass.
pub proof fn lemma_pass_disjoint(g: Grid, mines: Set<Pos>, p: Pos)
    requires
        g.wf(),
        consistent(g, mines),
    ensures
        !(pass_flags(g).contains(p) && pass_clears(g).contains(p)),
{
    if pass_flags(g).contains(p) && pass_clears(g).contains(p) {
        lemma_pass_flags_sound(g, mines, p);
        lemma_pass_clears_sound(g, mines, p);
    }
}

/// A board at a fixpoint stays there: when a pass finds nothing, applying its
/// flag-set leaves the board unchanged, and the next pass finds nothing again.
pub proof fn lemma_fixpoint_stable(g: Grid)
    requires
        g.wf(),
        pass_flags(g).len() == 0,
        pass_clears(g).len() == 0,
    ensures
        with_flags(g, pass_flags(g)) == g,
        pass_flags(with_flags(g, pass_flags(g))).len() == 0,
        pass_clears(with_flags(g, pass_flags(g))).len() == 0,
{
    let h = with_flags(g, pass_flags(g));
    assert(h.cells =~~= g.cells);
}

/// The fallback is reproducible: the same drawn number picks the same cell on
/// boards with the same hidden cells.
pub proof fn lemma_fallback_reproducible(g1: Grid, g2: Grid, seed: usize)
    requires
        hidden_cells(g1) == hidden_cells(g2),
    ensures
        fallback_choice(g1, seed) == fallback_choice(g2, seed),
{
}

/// A pass flags and clears only hidden cells of the board, so it never flags
/// a revealed cell.
pub proof fn lemma_pass_targets_hidden(g: Grid, p: Pos)
    requires
        g.wf(),
        pass_flags(g).contains(p) || pass_clears(g).contains(p),
    ensures
        g.in_bounds(p),
        g.is_hidden(p),
{
    lemma_rows_prefix(g.rows, g.cols);
    lemma_filter_iff(all_cells(g), pass_flag_pred(g), p);
    lemma_filter_iff(all_cells(g), pass_clear_pred(g), p);
    if local_flag(g, p) || local_clear(g, p) {
        let q = choose|q: Pos|
            (saturated(g, q) || satisfied(g, q)) && #[trigger] g.hidden_nbrs(q).contains(p);
        lemma_filter_iff(g.nbrs(q), g.hidden_pred(), p);
    } else {
        let (a, b) = choose|a: Pos, b: Pos|
            (difference_pair(g, a, b) || subset_pair(g, a, b)) && #[trigger] extra_hidden(
                g,
                a,
                b,
            ).contains(p);
        lemma_filter_iff(g.hidden_nbrs(b), outside(g.hidden_nbrs(a)), p);
        lemma_filter_iff(g.nbrs(b), g.hidden_pred(), p);
    }
}

/// The flag-set and the clear-set of a pass hold each cell at most once.
pub proof fn lemma_pass_sets_distinct(g: Grid)
    requires
        g.wf(),
    ensures
        pass_flags(g).no_duplicates(),
        pass_clears(g).no_duplicates(),
{
    lemma_rows_prefix(g.rows, g.cols);
    lemma_filter_no_dup(all_cells(g), pass_flag_pred(g));
    lemma_filter_no_dup(all_cells(g), pass_clear_pred(g));
}

/// A cell on the edge of the grid has fewer than eight neighbors: the
/// enumeration does not wrap around.
pub proof fn lemma_edge_has_fewer_neighbors(rows: nat, cols: nat, p: Pos)
    requires
        p.0 < rows,
        p.1 < cols,
        p.0 == 0 || p.1 == 0 || p.0 + 1 == rows || p.1 + 1 == cols,
    ensures
        neighbors(rows, cols, p).len() < 8,
{
    reveal_with_fuel(nbrs_upto, 9);
}

} // verus!
