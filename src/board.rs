//! The board model: cells, the grid they form, and neighbor enumeration.
use vstd::prelude::*;

verus! {

/// The state of one square of the grid.
#[derive(Clone, Copy, Debug, PartialEq, Eq, Structural)]
pub enum Cell {
    /// Nothing is known of the square.
    Hidden,
    /// The square is believed to hold a mine.
    Flagged,
    /// The square is open and shows how many of its neighbors hold a mine.
    Revealed(u8),
}

/// A row and a column.
pub type Pos = (usize, usize);

/// The mathematical model of a board: its dimensions and its rows of cells.
pub struct Grid {
    pub rows: nat,
    pub cols: nat,
    pub cells: Seq<Seq<Cell>>,
}

/// The row and column offsets of the eight compass neighbors, in the order in
/// which neighbors are enumerated.
pub open spec fn offset(k: int) -> (int, int) {
    if k == 0 {
        (-1, -1)
    } else if k == 1 {
        (-1, 0)
    } else if k == 2 {
        (-1, 1)
    } else if k == 3 {
        (0, -1)
    } else if k == 4 {
        (0, 1)
    } else if k == 5 {
        (1, -1)
    } else if k == 6 {
        (1, 0)
    } else {
        (1, 1)
    }
}

/// The cell at offset `k` from `p`, when it lies on a `rows` by `cols` grid.
pub open spec fn shifted(rows: nat, cols: nat, p: Pos, k: int) -> Option<Pos> {
    let r = p.0 + offset(k).0;
    let c = p.1 + offset(k).1;
    if 0 <= r < rows && 0 <= c < cols {
        Some((r as usize, c as usize))
    } else {
        None
    }
}

/// The neighbors of `p` reached by the first `k` offsets, in enumeration order.
pub open spec fn nbrs_upto(rows: nat, cols: nat, p: Pos, k: nat) -> Seq<Pos>
    decreases k,
{
    if k == 0 {
        seq![]
    } else {
        let prev = nbrs_upto(rows, cols, p, (k - 1) as nat);
        match shifted(rows, cols, p, k - 1) {
            Some(q) => prev.push(q),
            None => prev,
        }
    }
}

/// All neighbors of `p` on a `rows` by `cols` grid, clipped to the grid.
pub open spec fn neighbors(rows: nat, cols: nat, p: Pos) -> Seq<Pos> {
    nbrs_upto(rows, cols, p, 8)
}

/// Two distinct cells that touch by a side or a corner.
pub open spec fn adjacent(p: Pos, q: Pos) -> bool {
    p != q && -1 <= q.0 - p.0 <= 1 && -1 <= q.1 - p.1 <= 1
}

impl Grid {
    pub open spec fn wf(self) -> bool {
        &&& self.rows <= usize::MAX
        &&& self.cols <= usize::MAX
        &&& self.cells.len() == self.rows
        &&& forall|r: int| 0 <= r < self.rows ==> (#[trigger] self.cells[r]).len() == self.cols
    }

    pub open spec fn in_bounds(self, p: Pos) -> bool {
        p.0 < self.rows && p.1 < self.cols
    }

    pub open spec fn at(self, p: Pos) -> Cell {
        self.cells[p.0 as int][p.1 as int]
    }

    pub open spec fn nbrs(self, p: Pos) -> Seq<Pos> {
        neighbors(self.rows, self.cols, p)
    }

    pub open spec fn is_hidden(self, p: Pos) -> bool {
        self.at(p) is Hidden
    }

    pub open spec fn is_flagged(self, p: Pos) -> bool {
        self.at(p) is Flagged
    }

    /// A revealed cell with a positive count.
    pub open spec fn is_numbered(self, p: Pos) -> bool {
        self.at(p) is Revealed && self.at(p)->Revealed_0 > 0
    }

    pub open spec fn hidden_pred(self) -> spec_fn(Pos) -> bool {
        |q: Pos| self.is_hidden(q)
    }

    pub open spec fn flagged_pred(self) -> spec_fn(Pos) -> bool {
        |q: Pos| self.is_flagged(q)
    }

    pub open spec fn unknown_pred(self) -> spec_fn(Pos) -> bool {
        |q: Pos| self.is_hidden(q) || self.is_flagged(q)
    }

    pub open spec fn numbered_pred(self) -> spec_fn(Pos) -> bool {
        |q: Pos| self.is_numbered(q)
    }

    /// The hidden neighbors of `p`.
    pub open spec fn hidden_nbrs(self, p: Pos) -> Seq<Pos> {
        self.nbrs(p).filter(self.hidden_pred())
    }

    /// The flagged neighbors of `p`.
    pub open spec fn flagged_nbrs(self, p: Pos) -> Seq<Pos> {
        self.nbrs(p).filter(self.flagged_pred())
    }

    /// The neighbors of `p` that are hidden or flagged.
    pub open spec fn unknown_nbrs(self, p: Pos) -> Seq<Pos> {
        self.nbrs(p).filter(self.unknown_pred())
    }

    /// The neighbors of `p` that are revealed with a positive count.
    pub open spec fn numbered_nbrs(self, p: Pos) -> Seq<Pos> {
        self.nbrs(p).filter(self.numbered_pred())
    }

    /// The count shown by a revealed cell.
    pub open spec fn number(self, p: Pos) -> int {
        self.at(p)->Revealed_0 as int
    }

    /// Mines of `p` not yet accounted for by flags.
    pub open spec fn remaining(self, p: Pos) -> int {
        self.number(p) - self.flagged_nbrs(p).len()
    }
}

proof fn lemma_offset_injective(i: int, j: int)
    requires
        0 <= i < 8,
        0 <= j < 8,
        offset(i) == offset(j),
    ensures
        i == j,
{
}

pub proof fn lemma_push_contains(s: Seq<Pos>, x: Pos, q: Pos)
    ensures
        s.push(x).contains(q) <==> (s.contains(q) || q == x),
{
    if q == x {
        assert(s.push(x)[s.len() as int] == x);
    }
    if s.contains(q) {
        let i = choose|i: int| 0 <= i < s.len() && s[i] == q;
        assert(s.push(x)[i] == q);
    }
    if s.push(x).contains(q) {
        let i = choose|i: int| 0 <= i < s.len() + 1 && s.push(x)[i] == q;
        if i < s.len() {
            assert(s[i] == q);
        }
    }
}

proof fn lemma_nbrs_upto(rows: nat, cols: nat, p: Pos, k: nat)
    requires
        k <= 8,
        rows <= usize::MAX,
        cols <= usize::MAX,
    ensures
        nbrs_upto(rows, cols, p, k).no_duplicates(),
        nbrs_upto(rows, cols, p, k).len() <= k,
        forall|q: Pos|
            #[trigger] nbrs_upto(rows, cols, p, k).contains(q) <==> exists|j: int|
                0 <= j < k && shifted(rows, cols, p, j) == Some(q),
    decreases k,
{
    if k > 0 {
        lemma_nbrs_upto(rows, cols, p, (k - 1) as nat);
        let prev = nbrs_upto(rows, cols, p, (k - 1) as nat);
        let cur = nbrs_upto(rows, cols, p, k);
        match shifted(rows, cols, p, k - 1) {
            Some(x) => {
                assert(cur == prev.push(x));
                assert(!prev.contains(x)) by {
                    if prev.contains(x) {
                        let j = choose|j: int| 0 <= j < k - 1 && shifted(rows, cols, p, j) == Some(x);
                        assert(offset(j).0 == offset(k - 1).0 && offset(j).1 == offset(k - 1).1);
                        lemma_offset_injective(j, k - 1);
                    }
                }
                assert forall|q: Pos|
                    cur.contains(q) <==> exists|j: int|
                        0 <= j < k && shifted(rows, cols, p, j) == Some(q) by {
                    lemma_push_contains(prev, x, q);
                    if cur.contains(q) && q != x {
                        let j = choose|j: int| 0 <= j < k - 1 && shifted(rows, cols, p, j) == Some(q);
                        assert(0 <= j < k && shifted(rows, cols, p, j) == Some(q));
                    }
                    if exists|j: int| 0 <= j < k && shifted(rows, cols, p, j) == Some(q) {
                        let j = choose|j: int| 0 <= j < k && shifted(rows, cols, p, j) == Some(q);
                        if j < k - 1 {
                            assert(prev.contains(q));
                        }
                    }
                }
                assert forall|a: int, b: int|
                    0 <= a < cur.len() && 0 <= b < cur.len() && a != b implies cur[a] != cur[b] by {
                    if a < prev.len() && b < prev.len() {
                        assert(prev[a] != prev[b]);
                    } else if a < prev.len() {
                        assert(prev.contains(prev[a]));
                    } else if b < prev.len() {
                        assert(prev.contains(prev[b]));
                    }
                }
            },
            None => {
                assert forall|q: Pos|
                    cur.contains(q) <==> exists|j: int|
                        0 <= j < k && shifted(rows, cols, p, j) == Some(q) by {
                    if exists|j: int| 0 <= j < k && shifted(rows, cols, p, j) == Some(q) {
                        let j = choose|j: int| 0 <= j < k && shifted(rows, cols, p, j) == Some(q);
                        assert(j < k - 1);
                    }
                }
            },
        }
    }
}

/// Facts about the neighbor enumeration: it holds exactly the adjacent cells
/// on the grid, each once.
pub proof fn lemma_neighbors(rows: nat, cols: nat, p: Pos)
    requires
        rows <= usize::MAX,
        cols <= usize::MAX,
    ensures
        neighbors(rows, cols, p).no_duplicates(),
        neighbors(rows, cols, p).len() <= 8,
        forall|q: Pos|
            #[trigger] neighbors(rows, cols, p).contains(q) <==> (q.0 < rows && q.1 < cols
                && adjacent(p, q)),
{
    lemma_nbrs_upto(rows, cols, p, 8);
    let s = neighbors(rows, cols, p);
    assert forall|q: Pos| s.contains(q) <==> (q.0 < rows && q.1 < cols && adjacent(p, q)) by {
        if q.0 < rows && q.1 < cols && adjacent(p, q) {
            let k: int = if q.0 + 1 == p.0 {
                if q.1 + 1 == p.1 { 0 } else if q.1 == p.1 { 1 } else { 2 }
            } else if q.0 == p.0 {
                if q.1 + 1 == p.1 { 3 } else { 4 }
            } else {
                if q.1 + 1 == p.1 { 5 } else if q.1 == p.1 { 6 } else { 7 }
            };
            assert(shifted(rows, cols, p, k) == Some(q));
        }
        if s.contains(q) {
            let j = choose|j: int| 0 <= j < 8 && shifted(rows, cols, p, j) == Some(q);
            assert(offset(j) != (0int, 0int));
        }
    }
}

/// Adjacency on the grid is symmetric.
pub proof fn lemma_neighbors_symmetric(rows: nat, cols: nat, p: Pos, q: Pos)
    requires
        rows <= usize::MAX,
        cols <= usize::MAX,
        p.0 < rows,
        p.1 < cols,
        q.0 < rows,
        q.1 < cols,
    ensures
        neighbors(rows, cols, p).contains(q) <==> neighbors(rows, cols, q).contains(p),
{
    lemma_neighbors(rows, cols, p);
    lemma_neighbors(rows, cols, q);
}

/// An element is kept by a filter exactly when it is present and satisfies the
/// predicate.
pub proof fn lemma_filter_iff(s: Seq<Pos>, f: spec_fn(Pos) -> bool, x: Pos)
    ensures
        s.filter(f).contains(x) <==> (s.contains(x) && f(x)),
{
    if s.filter(f).contains(x) {
        s.lemma_filter_contains_rev(f, x);
        let i = choose|i: int| 0 <= i < s.filter(f).len() && s.filter(f)[i] == x;
        s.lemma_filter_pred(f, i);
    }
    if s.contains(x) && f(x) {
        let i = choose|i: int| 0 <= i < s.len() && s[i] == x;
        s.lemma_filter_contains(f, i);
    }
}

/// A rectangular board of cells, stored row by row.
pub struct Board {
    rows: usize,
    cols: usize,
    cells: Vec<Vec<Cell>>,
}

impl View for Board {
    type V = Grid;

    closed spec fn view(&self) -> Grid {
        Grid {
            rows: self.rows as nat,
            cols: self.cols as nat,
            cells: self.cells@.map_values(|row: Vec<Cell>| row@),
        }
    }
}

impl Board {
    /// A board of the given dimensions with every cell hidden.
    pub fn new(rows: usize, cols: usize) -> (b: Board)
        ensures
            b@.wf(),
            b@.rows == rows,
            b@.cols == cols,
            forall|p: Pos| b@.in_bounds(p) ==> b@.at(p) == Cell::Hidden,
    {
        let mut cells: Vec<Vec<Cell>> = Vec::new();
        let mut i: usize = 0;
        while i < rows
            invariant
                i <= rows,
                cells@.len() == i,
                forall|r: int, c: int|
                    0 <= r < i && 0 <= c < cols ==> #[trigger] cells@[r]@[c] == Cell::Hidden,
                forall|r: int| 0 <= r < i ==> (#[trigger] cells@[r])@.len() == cols,
            decreases rows - i,
        {
            let mut row: Vec<Cell> = Vec::new();
            let mut j: usize = 0;
            while j < cols
                invariant
                    j <= cols,
                    row@.len() == j,
                    forall|c: int| 0 <= c < j ==> #[trigger] row@[c] == Cell::Hidden,
                decreases cols - j,
            {
                row.push(Cell::Hidden);
                j += 1;
            }
            cells.push(row);
            i += 1;
        }
        let b = Board { rows, cols, cells };
        assert forall|r: int| 0 <= r < b@.rows implies (#[trigger] b@.cells[r]).len() == b@.cols by {
            assert(b@.cells[r] == b.cells@[r]@);
        }
        assert forall|p: Pos| b@.in_bounds(p) implies b@.at(p) == Cell::Hidden by {
            assert(b@.cells[p.0 as int] == b.cells@[p.0 as int]@);
        }
        b
    }

    pub fn rows(&self) -> (n: usize)
        ensures
            n == self@.rows,
    {
        self.rows
    }

    pub fn cols(&self) -> (n: usize)
        ensures
            n == self@.cols,
    {
        self.cols
    }

    /// The cell at row `r`, column `c`.
    pub fn get(&self, r: usize, c: usize) -> (cell: Cell)
        requires
            self@.wf(),
            self@.in_bounds((r, c)),
        ensures
            cell == self@.at((r, c)),
    {
        assert(self@.cells[r as int] == self.cells@[r as int]@);
        self.cells[r][c]
    }

    /// Replaces the cell at row `r`, column `c`.
    pub fn set(&mut self, r: usize, c: usize, cell: Cell)
        requires
            old(self)@.wf(),
            old(self)@.in_bounds((r, c)),
        ensures
            final(self)@ == (Grid {
                cells: old(self)@.cells.update(r as int, old(self)@.cells[r as int].update(c as int, cell)),
                ..old(self)@
            }),
            final(self)@.wf(),
    {
        assert(old(self)@.cells[r as int] == old(self).cells@[r as int]@);
        let mut row = self.cells.remove(r);
        row.set(c, cell);
        self.cells.insert(r, row);
        let ghost expect = old(self)@.cells.update(r as int, old(self)@.cells[r as int].update(c as int, cell));
        assert(self@.cells =~= expect) by {
            assert forall|i: int| 0 <= i < expect.len() implies self@.cells[i] == expect[i] by {
                if i < r {
                    assert(self.cells@[i] == old(self).cells@[i]);
                } else if i > r {
                    assert(self.cells@[i] == old(self).cells@[i]);
                }
            }
        }
    }
}

/// The cell at offset `k` from (`r`, `c`), when it lies on the grid.
fn shift(rows: usize, cols: usize, r: usize, c: usize, k: usize) -> (res: Option<Pos>)
    requires
        r < rows,
        c < cols,
        k < 8,
    ensures
        res == shifted(rows as nat, cols as nat, (r, c), k as int),
{
    let dr: u8 = if k < 3 { 0 } else if k < 5 { 1 } else { 2 };
    let dc: u8 = if k == 0 || k == 3 || k == 5 { 0 } else if k == 1 || k == 6 { 1 } else { 2 };
    if (dr == 0 && r == 0) || (dc == 0 && c == 0) {
        return None;
    }
    if (dr == 2 && r + 1 >= rows) || (dc == 2 && c + 1 >= cols) {
        return None;
    }
    let nr = if dr == 0 { r - 1 } else if dr == 1 { r } else { r + 1 };
    let nc = if dc == 0 { c - 1 } else if dc == 1 { c } else { c + 1 };
    Some((nr, nc))
}

/// The neighbors of (`r`, `c`) on a `rows` by `cols` grid, in the fixed order
/// of the eight compass offsets, skipping those off the grid.
pub fn surrounding(rows: usize, cols: usize, r: usize, c: usize) -> (v: Vec<Pos>)
    requires
        r < rows,
        c < cols,
    ensures
        v@ == neighbors(rows as nat, cols as nat, (r, c)),
{
    let mut v: Vec<Pos> = Vec::new();
    let mut k: usize = 0;
    while k < 8
        invariant
            k <= 8,
            r < rows,
            c < cols,
            v@ == nbrs_upto(rows as nat, cols as nat, (r, c), k as nat),
        decreases 8 - k,
    {
        match shift(rows, cols, r, c, k) {
            Some(q) => v.push(q),
            None => {},
        }
        k += 1;
    }
    v
}

/// The classes of cells that neighbor lists are narrowed to.
enum Kind {
    Hidden,
    Flagged,
    Unknown,
    Numbered,
}

spec fn kind_pred(g: Grid, kind: Kind) -> spec_fn(Pos) -> bool {
    match kind {
        Kind::Hidden => g.hidden_pred(),
        Kind::Flagged => g.flagged_pred(),
        Kind::Unknown => g.unknown_pred(),
        Kind::Numbered => g.numbered_pred(),
    }
}

fn is_kind(cell: Cell, kind: &Kind) -> (b: bool)
    ensures
        b == match *kind {
            Kind::Hidden => cell is Hidden,
            Kind::Flagged => cell is Flagged,
            Kind::Unknown => cell is Hidden || cell is Flagged,
            Kind::Numbered => cell is Revealed && cell->Revealed_0 > 0,
        },
{
    match kind {
        Kind::Hidden => cell == Cell::Hidden,
        Kind::Flagged => cell == Cell::Flagged,
        Kind::Unknown => cell == Cell::Hidden || cell == Cell::Flagged,
        Kind::Numbered => match cell {
            Cell::Revealed(n) => n > 0,
            _ => false,
        },
    }
}

/// The neighbors of (`r`, `c`) whose cell is of the given kind, in order.
fn surrounding_of_kind(board: &Board, r: usize, c: usize, kind: Kind) -> (v: Vec<Pos>)
    requires
        board@.wf(),
        board@.in_bounds((r, c)),
    ensures
        v@ == board@.nbrs((r, c)).filter(kind_pred(board@, kind)),
{
    let all = surrounding(board.rows(), board.cols(), r, c);
    proof {
        lemma_neighbors(board@.rows, board@.cols, (r, c));
    }
    let ghost pred = kind_pred(board@, kind);
    let mut out: Vec<Pos> = Vec::new();
    let mut i: usize = 0;
    while i < all.len()
        invariant
            board@.wf(),
            i <= all@.len(),
            all@ == board@.nbrs((r, c)),
            forall|q: Pos| #[trigger] all@.contains(q) ==> board@.in_bounds(q),
            pred == kind_pred(board@, kind),
            out@ == all@.take(i as int).filter(pred),
        decreases all.len() - i,
    {
        let q = all[i];
        assert(all@.contains(q));
        proof {
            assert(all@.take(i + 1) == all@.take(i as int).push(q));
            all@.take(i as int).lemma_filter_push(q, pred);
        }
        if is_kind(board.get(q.0, q.1), &kind) {
            out.push(q);
        }
        i += 1;
    }
    assert(all@.take(all@.len() as int) == all@);
    out
}

/// The hidden neighbors of (`r`, `c`).
pub fn blank_surrounding(board: &Board, r: usize, c: usize) -> (v: Vec<Pos>)
    requires
        board@.wf(),
        board@.in_bounds((r, c)),
    ensures
        v@ == board@.hidden_nbrs((r, c)),
{
    surrounding_of_kind(board, r, c, Kind::Hidden)
}

/// The flagged neighbors of (`r`, `c`).
pub fn flagged_surrounding(board: &Board, r: usize, c: usize) -> (v: Vec<Pos>)
    requires
        board@.wf(),
        board@.in_bounds((r, c)),
    ensures
        v@ == board@.flagged_nbrs((r, c)),
{
    surrounding_of_kind(board, r, c, Kind::Flagged)
}

/// The neighbors of (`r`, `c`) that are hidden or flagged.
pub fn blank_and_flagged_surrounding(board: &Board, r: usize, c: usize) -> (v: Vec<Pos>)
    requires
        board@.wf(),
        board@.in_bounds((r, c)),
    ensures
        v@ == board@.unknown_nbrs((r, c)),
{
    surrounding_of_kind(board, r, c, Kind::Unknown)
}

/// The neighbors of (`r`, `c`) that are revealed with a positive count.
pub fn numbered_surrounding(board: &Board, r: usize, c: usize) -> (v: Vec<Pos>)
    requires
        board@.wf(),
        board@.in_bounds((r, c)),
    ensures
        v@ == board@.numbered_nbrs((r, c)),
{
    surrounding_of_kind(board, r, c, Kind::Numbered)
}

} // verus!
