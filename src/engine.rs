//! Whole-board passes: the rule sets, one pass of deduction, the closure rule,
//! the random fallback, and the choice of what to do next.
use vstd::prelude::*;
use crate::board::{lemma_push_contains, Board, Cell, Grid, Pos};
use crate::rules::{
    all_cells, difference_flag, local_clear, local_fires, local_flag, pairwise_fires,
    row_cells, rows_prefix, subset_clear,
};

verus! {

pub open spec fn local_flag_pred(g: Grid) -> spec_fn(Pos) -> bool {
    |p: Pos| local_flag(g, p)
}

pub open spec fn local_clear_pred(g: Grid) -> spec_fn(Pos) -> bool {
    |p: Pos| local_clear(g, p)
}

pub open spec fn subset_clear_pred(g: Grid) -> spec_fn(Pos) -> bool {
    |p: Pos| subset_clear(g, p)
}

pub open spec fn difference_flag_pred(g: Grid) -> spec_fn(Pos) -> bool {
    |p: Pos| difference_flag(g, p)
}

/// Cells that one pass flags: by saturation or by difference.
pub open spec fn pass_flag_pred(g: Grid) -> spec_fn(Pos) -> bool {
    |p: Pos| local_flag(g, p) || difference_flag(g, p)
}

/// Cells that one pass clears: by satisfaction or by subset.
pub open spec fn pass_clear_pred(g: Grid) -> spec_fn(Pos) -> bool {
    |p: Pos| local_clear(g, p) || subset_clear(g, p)
}

/// The cells of the grid that satisfy `f`, in row-major order.
pub open spec fn cells_where(g: Grid, f: spec_fn(Pos) -> bool) -> Seq<Pos> {
    all_cells(g).filter(f)
}

/// The hidden cells of the grid, in row-major order.
pub open spec fn hidden_cells(g: Grid) -> Seq<Pos> {
    cells_where(g, g.hidden_pred())
}

/// The flagged cells of the grid, in row-major order.
pub open spec fn flagged_cells(g: Grid) -> Seq<Pos> {
    cells_where(g, g.flagged_pred())
}

/// The flag-set of one pass.
pub open spec fn pass_flags(g: Grid) -> Seq<Pos> {
    cells_where(g, pass_flag_pred(g))
}

/// The clear-set of one pass.
pub open spec fn pass_clears(g: Grid) -> Seq<Pos> {
    cells_where(g, pass_clear_pred(g))
}

/// The deduction that decides membership of a cell in a collected set.
enum Rule {
    LocalFlag,
    LocalClear,
    SubsetClear,
    DifferenceFlag,
    PassFlag,
    PassClear,
    Hidden,
    Flagged,
}

spec fn rule_pred(g: Grid, rule: Rule) -> spec_fn(Pos) -> bool {
    match rule {
        Rule::LocalFlag => local_flag_pred(g),
        Rule::LocalClear => local_clear_pred(g),
        Rule::SubsetClear => subset_clear_pred(g),
        Rule::DifferenceFlag => difference_flag_pred(g),
        Rule::PassFlag => pass_flag_pred(g),
        Rule::PassClear => pass_clear_pred(g),
        Rule::Hidden => g.hidden_pred(),
        Rule::Flagged => g.flagged_pred(),
    }
}

fn fires(board: &Board, r: usize, c: usize, rule: &Rule) -> (b: bool)
    requires
        board@.wf(),
        board@.in_bounds((r, c)),
    ensures
        b == rule_pred(board@, *rule)((r, c)),
{
    match rule {
        Rule::LocalFlag => local_fires(board, r, c, true),
        Rule::LocalClear => local_fires(board, r, c, false),
        Rule::SubsetClear => pairwise_fires(board, r, c, false),
        Rule::DifferenceFlag => pairwise_fires(board, r, c, true),
        Rule::PassFlag => local_fires(board, r, c, true) || pairwise_fires(board, r, c, true),
        Rule::PassClear => local_fires(board, r, c, false) || pairwise_fires(board, r, c, false),
        Rule::Hidden => board.get(r, c) == Cell::Hidden,
        Rule::Flagged => board.get(r, c) == Cell::Flagged,
    }
}

/// Every cell of the board for which `rule` holds, in row-major order.
fn collect(board: &Board, rule: Rule) -> (v: Vec<Pos>)
    requires
        board@.wf(),
    ensures
        v@ == cells_where(board@, rule_pred(board@, rule)),
{
    let ghost g = board@;
    let ghost pred = rule_pred(g, rule);
    let rows = board.rows();
    let cols = board.cols();
    let mut out: Vec<Pos> = Vec::new();
    let mut r: usize = 0;
    while r < rows
        invariant
            g == board@,
            g.wf(),
            rows == g.rows,
            cols == g.cols,
            pred == rule_pred(g, rule),
            r <= rows,
            out@ == rows_prefix(r as nat, cols as nat).filter(pred),
        decreases rows - r,
    {
        let mut c: usize = 0;
        while c < cols
            invariant
                g == board@,
                g.wf(),
                rows == g.rows,
                cols == g.cols,
                pred == rule_pred(g, rule),
                r < rows,
                c <= cols,
                out@ == (rows_prefix(r as nat, cols as nat) + row_cells(r, c as nat)).filter(pred),
            decreases cols - c,
        {
            proof {
                let base = rows_prefix(r as nat, cols as nat);
                assert(base + row_cells(r, (c + 1) as nat) =~= (base + row_cells(r, c as nat)).push(
                    (r, c),
                ));
                (base + row_cells(r, c as nat)).lemma_filter_push((r, c), pred);
            }
            if fires(board, r, c, &rule) {
                out.push((r, c));
            }
            c += 1;
        }
        r += 1;
    }
    out
}

/// Flags the hidden neighbors of every numbered cell whose hidden and flagged
/// neighbors are exactly as many as its count.
pub fn flag(board: &Board) -> (v: Vec<Pos>)
    requires
        board@.wf(),
    ensures
        v@ == cells_where(board@, local_flag_pred(board@)),
{
    collect(board, Rule::LocalFlag)
}

/// Clears the hidden neighbors of every numbered cell with as many flagged
/// neighbors as its count.
pub fn clear_harder(board: &Board) -> (v: Vec<Pos>)
    requires
        board@.wf(),
    ensures
        v@ == cells_where(board@, local_clear_pred(board@)),
{
    collect(board, Rule::LocalClear)
}

/// Clears, for every pair of adjacent numbered cells whose hidden neighbors
/// nest and whose remaining counts agree, the hidden neighbors of the larger
/// region outside the smaller.
pub fn clear(board: &Board) -> (v: Vec<Pos>)
    requires
        board@.wf(),
    ensures
        v@ == cells_where(board@, subset_clear_pred(board@)),
{
    collect(board, Rule::SubsetClear)
}

/// Flags, for every pair of adjacent numbered cells, the hidden neighbors of
/// the second outside those of the first when they are exactly as many as the
/// difference of their remaining counts.
pub fn flag_harder(board: &Board) -> (v: Vec<Pos>)
    requires
        board@.wf(),
    ensures
        v@ == cells_where(board@, difference_flag_pred(board@)),
{
    collect(board, Rule::DifferenceFlag)
}

/// The outcome of one pass of deduction over a board.
pub struct Pass {
    /// Cells proven to hold a mine.
    pub flags: Vec<Pos>,
    /// Cells proven safe.
    pub clears: Vec<Pos>,
}

/// One pass: the local and pairwise rules on the same board, their flags and
/// their clears each gathered into one set.
pub fn deduce(board: &Board) -> (pass: Pass)
    requires
        board@.wf(),
    ensures
        pass.flags@ == pass_flags(board@),
        pass.clears@ == pass_clears(board@),
{
    let flags = collect(board, Rule::PassFlag);
    let clears = collect(board, Rule::PassClear);
    Pass { flags, clears }
}

/// When the flags already account for every mine of the puzzle, every hidden
/// cell is safe.
pub fn check_all_bombs_flagged_then_clear(board: &Board, nbombs: usize) -> (res: Option<Vec<Pos>>)
    requires
        board@.wf(),
    ensures
        match res {
            Some(v) => flagged_cells(board@).len() == nbombs && v@ == hidden_cells(board@),
            None => flagged_cells(board@).len() != nbombs,
        },
{
    let flagged = collect(board, Rule::Flagged);
    if flagged.len() == nbombs {
        Some(collect(board, Rule::Hidden))
    } else {
        None
    }
}

/// The hidden cell that the fallback picks for a drawn number `seed`: the one
/// at `seed` modulo their count in row-major order.
pub open spec fn fallback_choice(g: Grid, seed: usize) -> Option<Pos> {
    let h = hidden_cells(g);
    if h.len() == 0 {
        None
    } else {
        Some(h[seed as int % h.len() as int])
    }
}

/// The hidden cell chosen by the drawn number `seed`, or `None` when no cell is
/// hidden.
pub fn pick_blank(board: &Board, seed: usize) -> (res: Option<Pos>)
    requires
        board@.wf(),
    ensures
        res == fallback_choice(board@, seed),
{
    let blanks = collect(board, Rule::Hidden);
    if blanks.len() == 0 {
        None
    } else {
        Some(blanks[seed % blanks.len()])
    }
}

/// Relies on rand::random: a number drawn from the thread-local generator.
/// Nothing is known of its value.
#[verifier::external_body]
fn random_index() -> usize {
    rand::random::<usize>()
}

/// A hidden cell picked at random to be revealed when deduction stalls, or
/// `None` when no cell is hidden.
pub fn clear_random_blank(board: &Board) -> (res: Option<Pos>)
    requires
        board@.wf(),
    ensures
        exists|seed: usize| res == fallback_choice(board@, seed),
        res is None <==> hidden_cells(board@).len() == 0,
        res is Some ==> hidden_cells(board@).contains(res->Some_0),
{
    let seed = random_index();
    let res = pick_blank(board, seed);
    proof {
        let h = hidden_cells(board@);
        if h.len() > 0 {
            assert(h[seed as int % h.len() as int] == res->Some_0);
        }
    }
    res
}

/// What the caller should do next with a board.
pub enum Step {
    /// Flag and clear the cells of a pass that found something.
    Act(Pass),
    /// Every mine is flagged: clear all of these hidden cells.
    ClearAll(Vec<Pos>),
    /// Deduction stalled: reveal this cell, with no guarantee of safety.
    Guess(Pos),
    /// Nothing to do: no deduction applies, and no guess was asked for or
    /// possible.
    Stuck,
}

/// Runs one pass; when it finds nothing, tries the closure rule on `nbombs`
/// mines; when that does not apply either and a drawn number `seed` is given,
/// picks a hidden cell with it.
pub fn next_step(board: &Board, nbombs: usize, seed: Option<usize>) -> (step: Step)
    requires
        board@.wf(),
    ensures
        ({
            let g = board@;
            let progress = pass_flags(g).len() > 0 || pass_clears(g).len() > 0;
            let closed = flagged_cells(g).len() == nbombs && hidden_cells(g).len() > 0;
            &&& progress ==> step is Act && step->Act_0.flags@ == pass_flags(g)
                && step->Act_0.clears@ == pass_clears(g)
            &&& !progress && closed ==> step is ClearAll && step->ClearAll_0@ == hidden_cells(g)
            &&& !progress && !closed ==> match seed {
                Some(s) => match fallback_choice(g, s) {
                    Some(p) => step is Guess && step->Guess_0 == p,
                    None => step is Stuck,
                },
                None => step is Stuck,
            }
        }),
{
    let pass = deduce(board);
    if pass.flags.len() > 0 || pass.clears.len() > 0 {
        return Step::Act(pass);
    }
    match check_all_bombs_flagged_then_clear(board, nbombs) {
        Some(blanks) => {
            if blanks.len() > 0 {
                return Step::ClearAll(blanks);
            }
        },
        None => {},
    }
    match seed {
        Some(s) => match pick_blank(board, s) {
            Some(p) => Step::Guess(p),
            None => Step::Stuck,
        },
        None => Step::Stuck,
    }
}

/// The board after flagging those of `cells` that are hidden; other cells keep
/// their state.
pub open spec fn with_flags(g: Grid, cells: Seq<Pos>) -> Grid {
    Grid {
        cells: Seq::new(
            g.rows,
            |r: int|
                Seq::new(
                    g.cols,
                    |c: int|
                        if cells.contains((r as usize, c as usize)) && g.is_hidden(
                            (r as usize, c as usize),
                        ) {
                            Cell::Flagged
                        } else {
                            g.cells[r][c]
                        },
                ),
        ),
        ..g
    }
}

/// Marks as flagged each of `cells` that is hidden. Revealed and flagged cells
/// are left as they are.
pub fn apply_flags(board: &mut Board, cells: &Vec<Pos>)
    requires
        old(board)@.wf(),
        forall|i: int| 0 <= i < cells@.len() ==> old(board)@.in_bounds(#[trigger] cells@[i]),
    ensures
        final(board)@ == with_flags(old(board)@, cells@),
{
    let ghost g0 = board@;
    let mut i: usize = 0;
    while i < cells.len()
        invariant
            board@.wf(),
            board@.rows == g0.rows,
            board@.cols == g0.cols,
            g0.wf(),
            i <= cells@.len(),
            forall|k: int| 0 <= k < cells@.len() ==> g0.in_bounds(#[trigger] cells@[k]),
            forall|p: Pos|
                #![trigger board@.at(p)]
                g0.in_bounds(p) ==> board@.at(p) == if cells@.take(i as int).contains(p)
                    && g0.is_hidden(p) {
                    Cell::Flagged
                } else {
                    g0.at(p)
                },
        decreases cells.len() - i,
    {
        let q = cells[i];
        proof {
            assert(cells@.take(i + 1) == cells@.take(i as int).push(q));
            assert forall|p: Pos| #[trigger] cells@.take(i + 1).contains(p) <==> (cells@.take(
                i as int,
            ).contains(p) || p == q) by {
                lemma_push_contains(cells@.take(i as int), q, p);
            }
        }
        let ghost prev = board@;
        if board.get(q.0, q.1) == Cell::Hidden {
            board.set(q.0, q.1, Cell::Flagged);
        }
        proof {
            assert forall|p: Pos| #![trigger board@.at(p)]
                g0.in_bounds(p) implies board@.at(p) == if cells@.take(i + 1).contains(p)
                    && g0.is_hidden(p) {
                    Cell::Flagged
                } else {
                    g0.at(p)
                } by {
                assert(prev.at(p) == if cells@.take(i as int).contains(p) && g0.is_hidden(p) {
                    Cell::Flagged
                } else {
                    g0.at(p)
                });
                assert(prev.at(q) == if cells@.take(i as int).contains(q) && g0.is_hidden(q) {
                    Cell::Flagged
                } else {
                    g0.at(q)
                });
                if p != q {
                    assert(board@.at(p) == prev.at(p));
                }
            }
        }
        i += 1;
    }
    assert(cells@.take(cells@.len() as int) == cells@);
    let ghost want = with_flags(g0, cells@);
    assert(board@.cells =~~= want.cells) by {
        assert forall|r: int| 0 <= r < want.rows implies board@.cells[r] =~= want.cells[r] by {
            assert forall|c: int| 0 <= c < want.cols implies board@.cells[r][c] == want.cells[r][c] by {
                assert(board@.at((r as usize, c as usize)) == board@.cells[r][c]);
            }
        }
    }
}

} // verus!
