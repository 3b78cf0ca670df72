//! Reading what the source shows: cell classes, cell ids, and recording an
//! observation on the board.
use vstd::prelude::*;
use vstd::string::StringSliceAdditionalSpecFns;
use crate::board::{neighbors, surrounding, Board, Cell, Grid, Pos};

verus! {

/// What the source shows of one cell.
#[derive(Clone, Copy, Debug, PartialEq, Eq, Structural)]
pub enum Observation {
    /// A cell state the board can hold.
    Seen(Cell),
    /// The cell is an exploded mine: the game is lost.
    MineExposed,
    /// A class that names no known state.
    Unrecognized,
}

/// The game was lost: a mine was exposed at this cell.
#[derive(Clone, Copy, Debug, PartialEq, Eq, Structural)]
pub struct MineExposed {
    pub row: usize,
    pub col: usize,
}

/// `square ` in ASCII.
pub open spec fn square_prefix() -> Seq<u8> {
    seq![115u8, 113, 117, 97, 114, 101, 32]
}

/// `blank` in ASCII.
pub open spec fn blank_word() -> Seq<u8> {
    seq![98u8, 108, 97, 110, 107]
}

/// `open` in ASCII.
pub open spec fn open_word() -> Seq<u8> {
    seq![111u8, 112, 101, 110]
}

/// `bombflagged` in ASCII.
pub open spec fn flagged_word() -> Seq<u8> {
    seq![98u8, 111, 109, 98, 102, 108, 97, 103, 103, 101, 100]
}

/// `bombrevealed` in ASCII.
pub open spec fn exposed_word() -> Seq<u8> {
    seq![98u8, 111, 109, 98, 114, 101, 118, 101, 97, 108, 101, 100]
}

/// `lit` occurs in `b` at `start`.
pub open spec fn has_at(b: Seq<u8>, start: int, lit: Seq<u8>) -> bool {
    start + lit.len() <= b.len() && b.subrange(start, start + lit.len()) == lit
}

/// The meaning of a cell's class attribute: `square blank`, `square openN`
/// with a digit N from 0 to 8, `square bombflagged`, `square bombrevealed`.
pub open spec fn observation_of(b: Seq<u8>) -> Observation {
    if !has_at(b, 0, square_prefix()) {
        Observation::Unrecognized
    } else if b.len() == 12 && has_at(b, 7, blank_word()) {
        Observation::Seen(Cell::Hidden)
    } else if b.len() == 18 && has_at(b, 7, flagged_word()) {
        Observation::Seen(Cell::Flagged)
    } else if b.len() == 19 && has_at(b, 7, exposed_word()) {
        Observation::MineExposed
    } else if b.len() == 12 && has_at(b, 7, open_word()) && 48 <= b[11] <= 56 {
        Observation::Seen(Cell::Revealed((b[11] - 48) as u8))
    } else {
        Observation::Unrecognized
    }
}

fn has_at_exec(b: &[u8], start: usize, lit: &Vec<u8>) -> (r: bool)
    ensures
        r == has_at(b@, start as int, lit@),
{
    if start > b.len() || lit.len() > b.len() - start {
        return false;
    }
    let mut i: usize = 0;
    while i < lit.len()
        invariant
            start + lit@.len() <= b@.len(),
            b@.len() <= usize::MAX,
            i <= lit@.len(),
            forall|j: int| 0 <= j < i ==> b@[start + j] == lit@[j],
        decreases lit.len() - i,
    {
        if b[start + i] != lit[i] {
            assert(b@.subrange(start as int, start + lit@.len())[i as int] != lit@[i as int]);
            return false;
        }
        i += 1;
    }
    assert(b@.subrange(start as int, start + lit@.len()) =~= lit@);
    true
}

/// Reads a cell's class attribute.
pub fn classify(class: &str) -> (o: Observation)
    ensures
        o == observation_of(class.spec_bytes()),
{
    let b = class.as_bytes();
    let square: Vec<u8> = vec![115, 113, 117, 97, 114, 101, 32];
    let blank: Vec<u8> = vec![98, 108, 97, 110, 107];
    let open: Vec<u8> = vec![111, 112, 101, 110];
    let flagged: Vec<u8> = vec![98, 111, 109, 98, 102, 108, 97, 103, 103, 101, 100];
    let exposed: Vec<u8> = vec![98, 111, 109, 98, 114, 101, 118, 101, 97, 108, 101, 100];
    if !has_at_exec(b, 0, &square) {
        Observation::Unrecognized
    } else if b.len() == 12 && has_at_exec(b, 7, &blank) {
        Observation::Seen(Cell::Hidden)
    } else if b.len() == 18 && has_at_exec(b, 7, &flagged) {
        Observation::Seen(Cell::Flagged)
    } else if b.len() == 19 && has_at_exec(b, 7, &exposed) {
        Observation::MineExposed
    } else if b.len() == 12 && has_at_exec(b, 7, &open) && 48 <= b[11] && b[11] <= 56 {
        Observation::Seen(Cell::Revealed(b[11] - 48))
    } else {
        Observation::Unrecognized
    }
}

/// Records what was observed of the cell at (`r`, `c`). A seen state replaces
/// the cell, and when the cell is revealed with no mine around it, its
/// neighbors are returned: the source opens them in turn, so they are to be
/// observed next. An unrecognized class leaves the board as it was. An exposed
/// mine leaves it too and is returned as the error.
pub fn update_cell(board: &mut Board, r: usize, c: usize, obs: Observation) -> (res: Result<
    Vec<Pos>,
    MineExposed,
>)
    requires
        old(board)@.wf(),
        old(board)@.in_bounds((r, c)),
    ensures
        final(board)@.wf(),
        match obs {
            Observation::Seen(cell) => {
                &&& final(board)@ == (Grid {
                    cells: old(board)@.cells.update(
                        r as int,
                        old(board)@.cells[r as int].update(c as int, cell),
                    ),
                    ..old(board)@
                })
                &&& res is Ok
                &&& res->Ok_0@ == if cell == Cell::Revealed(0) {
                    neighbors(old(board)@.rows, old(board)@.cols, (r, c))
                } else {
                    Seq::empty()
                }
            },
            Observation::MineExposed => final(board)@ == old(board)@ && res == Err::<
                Vec<Pos>,
                MineExposed,
            >(MineExposed { row: r, col: c }),
            Observation::Unrecognized => final(board)@ == old(board)@ && res is Ok
                && res->Ok_0@.len() == 0,
        },
{
    match obs {
        Observation::Seen(cell) => {
            board.set(r, c, cell);
            if cell == Cell::Revealed(0) {
                Ok(surrounding(board.rows(), board.cols(), r, c))
            } else {
                Ok(Vec::new())
            }
        },
        Observation::MineExposed => Err(MineExposed { row: r, col: c }),
        Observation::Unrecognized => Ok(Vec::new()),
    }
}

pub open spec fn is_digit(x: u8) -> bool {
    48 <= x <= 57
}

/// A non-empty run of decimal digits.
pub open spec fn all_digits(s: Seq<u8>) -> bool {
    s.len() > 0 && forall|i: int| 0 <= i < s.len() ==> is_digit(#[trigger] s[i])
}

/// The number that a run of decimal digits writes.
pub open spec fn digits_value(s: Seq<u8>) -> nat
    decreases s.len(),
{
    if s.len() == 0 {
        0
    } else {
        digits_value(s.drop_last()) * 10 + (s.last() - 48) as nat
    }
}

/// `b` is digits, an underscore at `k`, and digits.
pub open spec fn id_split(b: Seq<u8>, k: int) -> bool {
    0 <= k < b.len() && b[k] == 95 && all_digits(b.take(k)) && all_digits(b.skip(k + 1))
}

/// The cell that an element id `R_C` names, rows and columns counted from 1,
/// when it lies on a `rows` by `cols` grid.
pub open spec fn cell_id_of(b: Seq<u8>, rows: nat, cols: nat) -> Option<Pos> {
    if exists|k: int| id_split(b, k) {
        let k = choose|k: int| id_split(b, k);
        let r = digits_value(b.take(k));
        let c = digits_value(b.skip(k + 1));
        if 1 <= r <= rows && 1 <= c <= cols {
            Some(((r - 1) as usize, (c - 1) as usize))
        } else {
            None
        }
    } else {
        None
    }
}

proof fn lemma_digits_grow(s: Seq<u8>, i: int, j: int)
    requires
        0 <= i <= j <= s.len(),
        forall|x: int| 0 <= x < s.len() ==> is_digit(#[trigger] s[x]),
    ensures
        digits_value(s.take(i)) <= digits_value(s.take(j)),
    decreases j - i,
{
    if i < j {
        lemma_digits_grow(s, i, j - 1);
        assert(s.take(j).drop_last() =~= s.take(j - 1));
    }
}

/// The number written by the digits `b[from..to]`, or `None` when it exceeds
/// `bound`.
fn parse_bounded(b: &[u8], from: usize, to: usize, bound: usize) -> (res: Option<usize>)
    requires
        from <= to <= b@.len(),
        forall|x: int| from <= x < to ==> is_digit(#[trigger] b@[x]),
    ensures
        match res {
            Some(v) => v == digits_value(b@.subrange(from as int, to as int)) && v <= bound,
            None => digits_value(b@.subrange(from as int, to as int)) > bound,
        },
{
    let ghost s = b@.subrange(from as int, to as int);
    let mut acc: u128 = 0;
    let mut i: usize = from;
    while i < to
        invariant
            from <= i <= to,
            to <= b@.len(),
            s == b@.subrange(from as int, to as int),
            forall|x: int| from <= x < to ==> is_digit(#[trigger] b@[x]),
            acc == digits_value(s.take(i - from)),
            acc <= bound,
        decreases to - i,
    {
        proof {
            assert(s.take(i - from + 1).drop_last() =~= s.take(i - from));
            assert(s[i - from] == b@[i as int]);
        }
        acc = acc * 10 + (b[i] - 48) as u128;
        i += 1;
        if acc > bound as u128 {
            proof {
                assert forall|x: int| 0 <= x < s.len() implies is_digit(#[trigger] s[x]) by {
                    assert(s[x] == b@[from + x]);
                }
                lemma_digits_grow(s, i - from, s.len() as int);
                assert(s.take(s.len() as int) =~= s);
            }
            return None;
        }
    }
    assert(s.take(to - from) =~= s);
    Some(acc as usize)
}

/// The cell that an element id names: row and column in decimal, counted from
/// 1 and joined by an underscore. `None` for an id of another shape or a cell
/// off the grid.
pub fn parse_cell_id(id: &str, rows: usize, cols: usize) -> (res: Option<Pos>)
    ensures
        res == cell_id_of(id.spec_bytes(), rows as nat, cols as nat),
{
    let b = id.as_bytes();
    let ghost bs = b@;
    let mut k: usize = 0;
    while k < b.len() && b[k] != 95
        invariant
            k <= b@.len(),
            bs == b@,
            forall|x: int| 0 <= x < k ==> b@[x] != 95,
        decreases b.len() - k,
    {
        k += 1;
    }
    if k == b.len() {
        assert(!exists|j: int| id_split(bs, j));
        return None;
    }
    // every split point is this first underscore
    assert forall|j: int| id_split(bs, j) implies j == k by {
        if j > k {
            assert(bs.take(j)[k as int] == 95);
        }
    }
    let mut ok = k > 0 && k + 1 < b.len();
    let mut i: usize = 0;
    while i < b.len()
        invariant
            i <= b@.len(),
            bs == b@,
            k < b@.len(),
            bs[k as int] == 95,
            ok ==> k > 0 && k + 1 < b@.len(),
            ok ==> forall|x: int| 0 <= x < i && x != k ==> is_digit(#[trigger] b@[x]),
            !ok ==> !id_split(bs, k as int),
        decreases b.len() - i,
    {
        if i != k && !(48 <= b[i] && b[i] <= 57) {
            if ok {
                if i < k {
                    assert(bs.take(k as int)[i as int] == bs[i as int]);
                } else {
                    assert(bs.skip(k + 1)[i - k - 1] == bs[i as int]);
                }
            }
            ok = false;
        }
        i += 1;
    }
    if !ok {
        return None;
    }
    assert(id_split(bs, k as int)) by {
        assert forall|x: int| 0 <= x < k implies is_digit(#[trigger] bs.take(k as int)[x]) by {
            assert(bs.take(k as int)[x] == bs[x]);
        }
        assert forall|x: int| 0 <= x < bs.len() - k - 1 implies is_digit(
            #[trigger] bs.skip(k + 1)[x],
        ) by {
            assert(bs.skip(k + 1)[x] == bs[k + 1 + x]);
        }
    }
    assert(bs.take(k as int) =~= bs.subrange(0, k as int));
    assert(bs.skip(k + 1) =~= bs.subrange(k + 1, bs.len() as int));
    let r = parse_bounded(b, 0, k, rows);
    let c = parse_bounded(b, k + 1, b.len(), cols);
    match (r, c) {
        (Some(r), Some(c)) => {
            if r >= 1 && c >= 1 {
                Some((r - 1, c - 1))
            } else {
                None
            }
        },
        _ => None,
    }
}

} // verus!
