//! Mathematical model of a board: cell and game views, geometry of the
//! eight-neighbourhood, cell counts, and the reach of a cascade reveal.
use vstd::prelude::*;

verus! {

/// Mathematical model of one grid position.
pub struct CellView {
    pub mined: bool,
    pub flagged: bool,
    pub hidden: bool,
    pub neighbors: nat,
    pub row: nat,
    pub col: nat,
}

/// Mathematical model of a game: dimensions, the mine total, the two
/// end-of-game flags, the grid (`rows` rows of `cols` cells) and the
/// coordinates touched by the most recent command.
pub struct GameView {
    pub rows: nat,
    pub cols: nat,
    pub mines: nat,
    pub over: bool,
    pub victory: bool,
    pub cells: Seq<Seq<CellView>>,
    pub changed: Seq<(usize, usize)>,
}

/// Row and column offset of the `k`-th compass neighbour, `k` in `0..8`,
/// listed row by row from the upper left.
pub open spec fn offset(k: int) -> (int, int) {
    if k == 0 {
        (-1, -1)
    } else if k == 1 {
        (-1, 0)
    } else if k == 2 {
        (-1, 1)
    } else if k == 3 {
        (0, -1)
    } else if k == 4 {
        (0, 1)
    } else if k == 5 {
        (1, -1)
    } else if k == 6 {
        (1, 0)
    } else {
        (1, 1)
    }
}

/// `a` and `b` are distinct and touch by a side or a corner.
pub open spec fn is_neighbor(a: (int, int), b: (int, int)) -> bool {
    &&& a != b
    &&& -1 <= a.0 - b.0 <= 1
    &&& -1 <= a.1 - b.1 <= 1
}

pub open spec fn is_mined_cell() -> spec_fn(CellView) -> bool {
    |c: CellView| c.mined
}

pub open spec fn is_hidden_cell() -> spec_fn(CellView) -> bool {
    |c: CellView| c.hidden
}

pub open spec fn is_revealed_safe_cell() -> spec_fn(CellView) -> bool {
    |c: CellView| !c.hidden && !c.mined
}

pub open spec fn is_safe_cell() -> spec_fn(CellView) -> bool {
    |c: CellView| !c.mined
}

pub open spec fn is_hidden_safe_cell() -> spec_fn(CellView) -> bool {
    |c: CellView| c.hidden && !c.mined
}

/// Number of cells of `row` that satisfy `p`.
pub open spec fn count_row(row: Seq<CellView>, p: spec_fn(CellView) -> bool) -> nat
    decreases row.len(),
{
    if row.len() == 0 {
        0
    } else {
        count_row(row.drop_last(), p) + if p(row.last()) {
            1nat
        } else {
            0nat
        }
    }
}

/// Number of cells of the grid `cells` that satisfy `p`.
pub open spec fn count_cells(cells: Seq<Seq<CellView>>, p: spec_fn(CellView) -> bool) -> nat
    decreases cells.len(),
{
    if cells.len() == 0 {
        0
    } else {
        count_cells(cells.drop_last(), p) + count_row(cells.last(), p)
    }
}

/// Number of `true` entries of `s`.
pub open spec fn count_true(s: Seq<bool>) -> nat
    decreases s.len(),
{
    if s.len() == 0 {
        0
    } else {
        count_true(s.drop_last()) + if s.last() {
            1nat
        } else {
            0nat
        }
    }
}

/// `total` entries, the first `mines` of them `true`.
pub open spec fn initial_layout(total: nat, mines: nat) -> Seq<bool> {
    Seq::new(total, |k: int| k < mines)
}

/// `s` after the first `n` steps of the shuffle: step `i` swaps entry `i`
/// with entry `picks[i]`.
pub open spec fn shuffled(s: Seq<bool>, picks: Seq<usize>, n: nat) -> Seq<bool>
    decreases n,
{
    if n == 0 {
        s
    } else {
        let t = shuffled(s, picks, (n - 1) as nat);
        let i = n - 1;
        let j = picks[i] as int;
        t.update(i, t[j]).update(j, t[i])
    }
}

impl GameView {
    pub open spec fn in_bounds(self, r: int, c: int) -> bool {
        0 <= r < self.rows && 0 <= c < self.cols
    }

    pub open spec fn cell(self, r: int, c: int) -> CellView {
        self.cells[r][c]
    }

    /// In-bounds neighbours of `(r, c)` among the first `k` compass offsets.
    pub open spec fn neighbors_upto(self, r: int, c: int, k: nat) -> Seq<(int, int)>
        decreases k,
    {
        if k == 0 {
            Seq::empty()
        } else {
            let prev = self.neighbors_upto(r, c, (k - 1) as nat);
            let n = (r + offset(k - 1).0, c + offset(k - 1).1);
            if self.in_bounds(n.0, n.1) {
                prev.push(n)
            } else {
                prev
            }
        }
    }

    /// The in-bounds compass neighbours of `(r, c)`, in compass order.
    pub open spec fn neighbor_list(self, r: int, c: int) -> Seq<(int, int)> {
        self.neighbors_upto(r, c, 8)
    }

    /// Number of mined cells at the positions of `list`.
    pub open spec fn mines_in(self, list: Seq<(int, int)>) -> nat
        decreases list.len(),
    {
        if list.len() == 0 {
            0
        } else {
            self.mines_in(list.drop_last()) + if self.cell(list.last().0, list.last().1).mined {
                1nat
            } else {
                0nat
            }
        }
    }

    /// Number of mined cells among the in-bounds neighbours of `(r, c)`.
    pub open spec fn mines_around(self, r: int, c: int) -> nat {
        self.mines_in(self.neighbor_list(r, c))
    }

    /// Every cell that is not mined has been revealed.
    pub open spec fn all_safe_revealed(self) -> bool {
        forall|r: int, c: int|
            self.in_bounds(r, c) && !(#[trigger] self.cells[r][c]).mined ==> !self.cells[r][c].hidden
    }

    /// Cells left to reveal before the game is won: all cells, less the
    /// revealed mine-free ones, less the mines.
    pub open spec fn remaining(self) -> int {
        self.rows * self.cols - count_cells(self.cells, is_revealed_safe_cell()) - self.mines
    }

    pub open spec fn wf(self) -> bool {
        &&& self.cells.len() == self.rows
        &&& forall|r: int| 0 <= r < self.rows ==> #[trigger] self.cells[r].len() == self.cols
        &&& forall|r: int, c: int|
            self.in_bounds(r, c) ==> (#[trigger] self.cells[r][c]).row == r && self.cells[r][c].col == c
        &&& forall|r: int, c: int|
            self.in_bounds(r, c) ==> (#[trigger] self.cells[r][c]).neighbors == self.mines_around(r, c)
        &&& forall|r: int, c: int|
            self.in_bounds(r, c) && (#[trigger] self.cells[r][c]).flagged ==> self.cells[r][c].hidden
        &&& count_cells(self.cells, is_mined_cell()) == self.mines
        &&& self.victory ==> self.over && self.all_safe_revealed()
    }

    /// `self` and `other` have the same dimensions and mine layout.
    pub open spec fn same_layout(self, other: GameView) -> bool {
        &&& self.rows == other.rows
        &&& self.cols == other.cols
        &&& forall|r: int, c: int|
            self.in_bounds(r, c) ==> (#[trigger] self.cells[r][c]).mined == other.cells[r][c].mined
    }

    /// `self` and `other` have the same dimensions, mine total, mine layout,
    /// neighbour counts and coordinates; only hidden, flagged, the game flags
    /// and the changed list may differ.
    pub open spec fn same_board(self, other: GameView) -> bool {
        &&& self.same_layout(other)
        &&& self.mines == other.mines
        &&& forall|r: int, c: int|
            self.in_bounds(r, c) ==> {
                &&& (#[trigger] self.cells[r][c]).neighbors == other.cells[r][c].neighbors
                &&& self.cells[r][c].row == other.cells[r][c].row
                &&& self.cells[r][c].col == other.cells[r][c].col
            }
    }

    /// `p` is a path along which a reveal cascades in `self`: each step goes
    /// to a neighbour, every cell before the last is mine-free with no
    /// mined neighbour, and every cell after the first is hidden.
    pub open spec fn is_cascade_path(self, p: Seq<(int, int)>) -> bool {
        &&& p.len() >= 1
        &&& forall|m: int| 0 <= m < p.len() ==> self.in_bounds(#[trigger] p[m].0, p[m].1)
        &&& forall|m: int|
            0 <= m < p.len() - 1 ==> {
                &&& !self.cells[#[trigger] p[m].0][p[m].1].mined
                &&& self.cells[p[m].0][p[m].1].neighbors == 0
                &&& is_neighbor(p[m], p[m + 1])
            }
        &&& forall|m: int| 1 <= m < p.len() ==> self.cells[#[trigger] p[m].0][p[m].1].hidden
    }

    /// Digging `s` in `self` reveals `x`.
    pub open spec fn cascades_to(self, s: (int, int), x: (int, int)) -> bool {
        exists|p: Seq<(int, int)>|
            #[trigger] self.is_cascade_path(p) && p[0] == s && p.last() == x
    }

    /// `after` is `self` once the cell at `s` has been dug. `s` is reported
    /// first. A mined cell
    /// ends the game lost and reveals the whole board, reporting `s` and every
    /// cell that was hidden. Otherwise exactly the cells that the cascade from
    /// `s` reaches are revealed and unflagged and reported, and the game is
    /// won if it was not over and every mine-free cell is now revealed.
    pub open spec fn dig_outcome(self, s: (int, int), after: GameView) -> bool {
        &&& after.same_board(self)
        &&& after.changed.no_duplicates()
        &&& after.changed.len() > 0
        &&& after.changed[0] == (s.0 as usize, s.1 as usize)
        &&& if self.cells[s.0][s.1].mined {
            &&& after.over
            &&& !after.victory
            &&& forall|r: int, c: int|
                self.in_bounds(r, c) ==> !(#[trigger] after.cells[r][c]).hidden && !after.cells[r][c].flagged
            &&& forall|r: usize, c: usize|
                #[trigger] after.changed.contains((r, c)) <==> ((r as int, c as int) == s || (self.in_bounds(
                    r as int,
                    c as int,
                ) && self.cells[r as int][c as int].hidden))
        } else {
            &&& forall|r: int, c: int|
                self.in_bounds(r, c) ==> {
                    &&& (#[trigger] after.cells[r][c]).hidden == (self.cells[r][c].hidden
                        && !self.cascades_to(s, (r, c)))
                    &&& after.cells[r][c].flagged == (self.cells[r][c].flagged && !self.cascades_to(s, (r, c)))
                }
            &&& forall|r: usize, c: usize|
                #[trigger] after.changed.contains((r, c)) <==> (self.in_bounds(r as int, c as int)
                    && self.cascades_to(s, (r as int, c as int)))
            &&& after.over == (self.over || after.all_safe_revealed())
            &&& after.victory == if self.over {
                self.victory
            } else {
                after.all_safe_revealed()
            }
        }
    }
}

} // verus!
