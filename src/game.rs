//! The board and its commands: construction from a shuffled mine layout,
//! flag toggling, digging with cascade reveal, and replay.
use vstd::prelude::*;
use crate::model::{
    count_cells, count_row, initial_layout, is_hidden_cell, is_mined_cell, is_neighbor,
    is_revealed_safe_cell, offset, shuffled, CellView, GameView,
};
use crate::lemmas::{
    lemma_cells_from_flat, lemma_cells_mono, lemma_cells_total, lemma_count_true_initial, lemma_row_total,
    lemma_count_true_update, lemma_mines_around_same_layout, lemma_mines_in_zero, lemma_neighbor_list,
    lemma_neighbors_upto, lemma_neighbors_same_dims, lemma_path_extend, lemma_all_hidden_remaining,
    lemma_remaining_mono, lemma_same_board_counts, lemma_shuffled_count,
};

verus! {

/// One position of the board.
#[derive(Debug)]
pub struct GridCell {
    mined: bool,
    flagged: bool,
    hidden: bool,
    neighbors: u8,
    i: usize,
    j: usize,
}

impl View for GridCell {
    type V = CellView;

    closed spec fn view(&self) -> CellView {
        CellView {
            mined: self.mined,
            flagged: self.flagged,
            hidden: self.hidden,
            neighbors: self.neighbors as nat,
            row: self.i as nat,
            col: self.j as nat,
        }
    }
}

impl GridCell {
    /// A hidden, unflagged cell at `(i, j)` whose neighbour count is not yet computed.
    fn new(mined: bool, i: usize, j: usize) -> (r: GridCell)
        ensures
            r@ == (CellView { mined, flagged: false, hidden: true, neighbors: 0, row: i as nat, col: j as nat }),
    {
        GridCell { mined, flagged: false, hidden: true, neighbors: 0, i, j }
    }

    pub fn is_flagged(&self) -> (r: bool)
        ensures
            r == self@.flagged,
    {
        self.flagged
    }

    pub fn is_hidden(&self) -> (r: bool)
        ensures
            r == self@.hidden,
    {
        self.hidden
    }

    pub fn is_mined(&self) -> (r: bool)
        ensures
            r == self@.mined,
    {
        self.mined
    }

    pub fn get_neighbors_count(&self) -> (r: u8)
        ensures
            r as nat == self@.neighbors,
    {
        self.neighbors
    }
}

/// A game board: a grid of `num_rows` rows of `num_cols` cells, its mine
/// total, the end-of-game flags, and the coordinates changed by the most
/// recent command.
pub struct Game {
    game_over: bool,
    victory: bool,
    num_rows: usize,
    num_cols: usize,
    num_total: usize,
    num_mined: usize,
    grid: Vec<Vec<GridCell>>,
    updated: Vec<(usize, usize)>,
}

impl View for Game {
    type V = GameView;

    closed spec fn view(&self) -> GameView {
        GameView {
            rows: self.num_rows as nat,
            cols: self.num_cols as nat,
            mines: self.num_mined as nat,
            over: self.game_over,
            victory: self.victory,
            cells: Seq::new(
                self.num_rows as nat,
                |r: int| Seq::new(self.num_cols as nat, |c: int| self.grid@[r]@[c]@),
            ),
            changed: self.updated@,
        }
    }
}

/// Compass offset `k` as machine integers.
fn offset_of(k: usize) -> (d: (i8, i8))
    requires
        k < 8,
    ensures
        (d.0 as int, d.1 as int) == offset(k as int),
{
    if k == 0 {
        (-1, -1)
    } else if k == 1 {
        (-1, 0)
    } else if k == 2 {
        (-1, 1)
    } else if k == 3 {
        (0, -1)
    } else if k == 4 {
        (0, 1)
    } else if k == 5 {
        (1, -1)
    } else if k == 6 {
        (1, 0)
    } else {
        (1, 1)
    }
}

/// `x + d` when it lies in `0..bound`, for `d` in `-1..=1`.
fn step(x: usize, d: i8, bound: usize) -> (r: Option<usize>)
    requires
        x < bound,
        -1 <= d <= 1,
    ensures
        r.is_some() <==> 0 <= x + d < bound,
        r.is_some() ==> r.unwrap() == x + d,
{
    if d < 0 {
        if x == 0 {
            None
        } else {
            Some(x - 1)
        }
    } else if d > 0 {
        if x + 1 >= bound {
            None
        } else {
            Some(x + 1)
        }
    } else {
        Some(x)
    }
}

/// Every cell of `list` is revealed in `v`.
spec fn all_revealed(v: GameView, list: Seq<(int, int)>) -> bool {
    forall|q: int| 0 <= q < list.len() ==> !v.cells[(#[trigger] list[q]).0][list[q].1].hidden
}

/// Revealing more cells keeps a list of board cells revealed.
proof fn lemma_all_revealed_mono(v: GameView, w: GameView, list: Seq<(int, int)>)
    requires
        all_revealed(v, list),
        forall|q: int| 0 <= q < list.len() ==> v.in_bounds((#[trigger] list[q]).0, list[q].1),
        forall|a: int, b: int| v.in_bounds(a, b) && (#[trigger] w.cells[a][b]).hidden ==> v.cells[a][b].hidden,
    ensures
        all_revealed(w, list),
{
    assert forall|q: int| 0 <= q < list.len() implies !w.cells[(#[trigger] list[q]).0][list[q].1].hidden by {
        assert(v.in_bounds(list[q].0, list[q].1));
    }
}

/// Where every reached cell with no mined neighbour has all its neighbours
/// revealed, every cell along a cascade path from a reached cell is reached.
proof fn lemma_cascade_reaches(g: GameView, v: GameView, dom: Set<(int, int)>, p: Seq<(int, int)>, m: int)
    requires
        g.is_cascade_path(p),
        dom.contains(p[0]),
        0 <= m < p.len(),
        forall|x: (int, int)|
            #[trigger] dom.contains(x) && g.cells[x.0][x.1].neighbors == 0 ==> all_revealed(
                v,
                g.neighbor_list(x.0, x.1),
            ),
        forall|a: int, b: int|
            g.in_bounds(a, b) ==> (#[trigger] v.cells[a][b]).hidden == (g.cells[a][b].hidden && !dom.contains(
                (a, b),
            )),
    ensures
        dom.contains(p[m]),
    decreases m,
{
    if m > 0 {
        lemma_cascade_reaches(g, v, dom, p, m - 1);
        let x = p[m - 1];
        let y = p[m];
        assert(g.in_bounds(p[m].0, p[m].1));
        assert(g.cells[p[m - 1].0][p[m - 1].1].neighbors == 0);
        assert(is_neighbor(p[m - 1], p[m]));
        lemma_neighbor_list(g, x.0, x.1);
        let list = g.neighbor_list(x.0, x.1);
        assert(list.contains(y));
        let q = choose|q: int| 0 <= q < list.len() && list[q] == y;
        assert(all_revealed(v, list));
        assert(!v.cells[list[q].0][list[q].1].hidden);
        assert(g.cells[p[m].0][p[m].1].hidden);
    }
}

impl Game {
    /// The grid has the game's dimensions and its total is rows times columns.
    closed spec fn shaped(&self) -> bool {
        &&& self.grid@.len() == self.num_rows
        &&& forall|r: int| 0 <= r < self.num_rows ==> #[trigger] self.grid@[r]@.len() == self.num_cols
        &&& self.num_total == self.num_rows * self.num_cols
    }

    /// The game's invariant: a well-shaped grid whose model is well formed.
    pub closed spec fn wf(&self) -> bool {
        &&& self.shaped()
        &&& self@.wf()
    }

    pub fn get_num_rows(&self) -> (r: usize)
        ensures
            r as nat == self@.rows,
    {
        self.num_rows
    }

    pub fn get_num_cols(&self) -> (r: usize)
        ensures
            r as nat == self@.cols,
    {
        self.num_cols
    }

    pub fn is_over(&self) -> (r: bool)
        ensures
            r == self@.over,
    {
        self.game_over
    }

    pub fn is_victory(&self) -> (r: bool)
        ensures
            r == self@.victory,
    {
        self.victory
    }

    /// `(hidden, flagged, mined, neighbour count)` of the cell at `(i, j)`.
    pub fn get_cell_state(&self, i: usize, j: usize) -> (r: (bool, bool, bool, u8))
        requires
            self.wf(),
            i < self@.rows,
            j < self@.cols,
        ensures
            r.0 == self@.cell(i as int, j as int).hidden,
            r.1 == self@.cell(i as int, j as int).flagged,
            r.2 == self@.cell(i as int, j as int).mined,
            r.3 as nat == self@.cell(i as int, j as int).neighbors,
    {
        let cell = &self.grid[i][j];
        (cell.hidden, cell.flagged, cell.mined, cell.neighbors)
    }

    /// The in-bounds compass neighbours of `(i, j)`, in compass order.
    fn walk_around(&self, i: usize, j: usize) -> (r: Vec<(usize, usize)>)
        requires
            i < self.num_rows,
            j < self.num_cols,
        ensures
            r@.len() == self@.neighbor_list(i as int, j as int).len(),
            forall|m: int|
                0 <= m < r@.len() ==> (#[trigger] r@[m].0 as int, r@[m].1 as int) == self@.neighbor_list(
                    i as int,
                    j as int,
                )[m],
    {
        let mut r: Vec<(usize, usize)> = Vec::new();
        for k in 0..8usize
            invariant
                i < self.num_rows,
                j < self.num_cols,
                r@.len() == self@.neighbors_upto(i as int, j as int, k as nat).len(),
                forall|m: int|
                    0 <= m < r@.len() ==> (#[trigger] r@[m].0 as int, r@[m].1 as int)
                        == self@.neighbors_upto(i as int, j as int, k as nat)[m],
        {
            let (dr, dc) = offset_of(k);
            let a = step(i, dr, self.num_rows);
            let b = step(j, dc, self.num_cols);
            if a.is_some() && b.is_some() {
                r.push((a.unwrap(), b.unwrap()));
            }
        }
        r
    }

    /// Number of mined cells around `(i, j)`.
    fn count_neighbor(&self, i: usize, j: usize) -> (n: u8)
        requires
            self.shaped(),
            i < self.num_rows,
            j < self.num_cols,
        ensures
            n as nat == self@.mines_around(i as int, j as int),
    {
        let around = self.walk_around(i, j);
        let ghost list = self@.neighbor_list(i as int, j as int);
        proof {
            lemma_neighbors_upto(self@, i as int, j as int, 8);
            assert forall|q: int| 0 <= q < list.len() implies self@.in_bounds(#[trigger] list[q].0, list[q].1) by {
                assert(list.contains(list[q]));
            }
        }
        let mut n: u8 = 0;
        for m in 0..around.len()
            invariant
                self.shaped(),
                around@.len() == list.len(),
                list.len() <= 8,
                forall|q: int| 0 <= q < around@.len() ==> (#[trigger] around@[q].0 as int, around@[q].1 as int) == list[q],
                forall|q: int| 0 <= q < list.len() ==> self@.in_bounds(#[trigger] list[q].0, list[q].1),
                n as nat == self@.mines_in(list.subrange(0, m as int)),
                n <= m,
        {
            let (a, b) = around[m];
            proof {
                assert(list.subrange(0, m + 1).drop_last() =~= list.subrange(0, m as int));
                assert(self@.in_bounds(list[m as int].0, list[m as int].1));
            }
            if self.grid[a][b].mined {
                n = n + 1;
            }
        }
        proof {
            assert(list.subrange(0, list.len() as int) =~= list);
        }
        n
    }

    /// Sets the hidden and flagged state of the cell at `(i, j)`.
    fn set_cell_state(&mut self, i: usize, j: usize, hidden: bool, flagged: bool)
        requires
            old(self).shaped(),
            i < old(self).num_rows,
            j < old(self).num_cols,
        ensures
            final(self).shaped(),
            final(self).num_rows == old(self).num_rows,
            final(self).num_cols == old(self).num_cols,
            final(self).num_mined == old(self).num_mined,
            final(self)@ == (GameView {
                cells: old(self)@.cells.update(
                    i as int,
                    old(self)@.cells[i as int].update(
                        j as int,
                        CellView { hidden, flagged, ..old(self)@.cells[i as int][j as int] },
                    ),
                ),
                ..old(self)@
            }),
    {
        let ghost g0 = self@;
        self.grid[i][j].hidden = hidden;
        self.grid[i][j].flagged = flagged;
        proof {
            let cells = g0.cells.update(
                i as int,
                g0.cells[i as int].update(j as int, CellView { hidden, flagged, ..g0.cells[i as int][j as int] }),
            );
            assert forall|r: int| 0 <= r < self.num_rows implies #[trigger] self@.cells[r] =~= cells[r] by {}
            assert(self@.cells =~= cells);
        }
    }

    /// Sets the neighbour count of the cell at `(i, j)`.
    fn set_neighbor_count(&mut self, i: usize, j: usize, n: u8)
        requires
            old(self).shaped(),
            i < old(self).num_rows,
            j < old(self).num_cols,
        ensures
            final(self).shaped(),
            final(self).num_rows == old(self).num_rows,
            final(self).num_cols == old(self).num_cols,
            final(self).num_mined == old(self).num_mined,
            final(self)@ == (GameView {
                cells: old(self)@.cells.update(
                    i as int,
                    old(self)@.cells[i as int].update(
                        j as int,
                        CellView { neighbors: n as nat, ..old(self)@.cells[i as int][j as int] },
                    ),
                ),
                ..old(self)@
            }),
    {
        let ghost g0 = self@;
        self.grid[i][j].neighbors = n;
        proof {
            let cells = g0.cells.update(
                i as int,
                g0.cells[i as int].update(j as int, CellView { neighbors: n as nat, ..g0.cells[i as int][j as int] }),
            );
            assert forall|r: int| 0 <= r < self.num_rows implies #[trigger] self@.cells[r] =~= cells[r] by {}
            assert(self@.cells =~= cells);
        }
    }

    /// The mine layout before it is laid on the grid: `num_mined` mines
    /// first, then step `i` swaps entries `i` and `picks[i]`.
    fn shuffle_mines(num_total: usize, num_mined: usize, picks: &Vec<usize>) -> (r: Vec<bool>)
        requires
            num_mined <= num_total,
            picks@.len() == num_total,
            forall|i: int| 0 <= i < num_total ==> #[trigger] picks@[i] <= i,
        ensures
            r@ == shuffled(initial_layout(num_total as nat, num_mined as nat), picks@, num_total as nat),
    {
        let ghost init = initial_layout(num_total as nat, num_mined as nat);
        let mut is_mined: Vec<bool> = Vec::new();
        for k in 0..num_total
            invariant
                is_mined@ =~= init.subrange(0, k as int),
                init == initial_layout(num_total as nat, num_mined as nat),
        {
            is_mined.push(k < num_mined);
        }
        proof {
            assert(init.subrange(0, num_total as int) =~= init);
        }
        for i in 0..num_total
            invariant
                num_total == picks@.len(),
                forall|k: int| 0 <= k < num_total ==> #[trigger] picks@[k] <= k,
                init.len() == num_total,
                is_mined@ == shuffled(init, picks@, i as nat),
                is_mined@.len() == num_total,
        {
            let j = picks[i];
            let a = is_mined[i];
            let b = is_mined[j];
            is_mined.set(i, b);
            is_mined.set(j, a);
        }
        is_mined
    }

    /// A fresh game on a `num_rows` by `num_cols` grid holding `num_mined`
    /// mines. The layout is `num_mined` mines followed by empty cells, put
    /// through the swaps `picks` and laid out row by row. Every cell starts
    /// hidden and unflagged, with its neighbour count computed.
    pub fn new(num_rows: usize, num_cols: usize, num_mined: usize, picks: &Vec<usize>) -> (g: Game)
        requires
            num_rows > 0,
            num_cols > 0,
            num_rows * num_cols <= usize::MAX,
            num_mined <= num_rows * num_cols,
            picks@.len() == num_rows * num_cols,
            forall|i: int| 0 <= i < picks@.len() ==> #[trigger] picks@[i] <= i,
        ensures
            g.wf(),
            g@.rows == num_rows,
            g@.cols == num_cols,
            g@.mines == num_mined,
            !g@.over,
            !g@.victory,
            g@.changed.len() == 0,
            g@.remaining() == num_rows * num_cols - num_mined,
            forall|r: int, c: int|
                g@.in_bounds(r, c) ==> {
                    &&& (#[trigger] g@.cells[r][c]).hidden
                    &&& !g@.cells[r][c].flagged
                    &&& g@.cells[r][c].mined == shuffled(
                        initial_layout((num_rows * num_cols) as nat, num_mined as nat),
                        picks@,
                        (num_rows * num_cols) as nat,
                    )[r * num_cols + c]
                },
    {
        let num_total = num_rows * num_cols;
        let is_mined = Game::shuffle_mines(num_total, num_mined, picks);
        let ghost flat = is_mined@;
        proof {
            lemma_shuffled_count(initial_layout(num_total as nat, num_mined as nat), picks@, num_total as nat);
        }
        let mut grid: Vec<Vec<GridCell>> = Vec::new();
        for i in 0..num_rows
            invariant
                num_total == num_rows * num_cols,
                is_mined@ == flat,
                flat.len() == num_total,
                grid@.len() == i,
                forall|r: int| 0 <= r < i ==> #[trigger] grid@[r]@.len() == num_cols,
                forall|r: int, c: int|
                    0 <= r < i && 0 <= c < num_cols ==> (#[trigger] grid@[r]@[c])@ == (CellView {
                        mined: flat[r * num_cols + c],
                        flagged: false,
                        hidden: true,
                        neighbors: 0,
                        row: r as nat,
                        col: c as nat,
                    }),
        {
            let mut row: Vec<GridCell> = Vec::new();
            for j in 0..num_cols
                invariant
                    i < num_rows,
                    num_total == num_rows * num_cols,
                    is_mined@ == flat,
                    flat.len() == num_total,
                    row@.len() == j,
                    forall|c: int|
                        0 <= c < j ==> (#[trigger] row@[c])@ == (CellView {
                            mined: flat[i * num_cols + c],
                            flagged: false,
                            hidden: true,
                            neighbors: 0,
                            row: i as nat,
                            col: c as nat,
                        }),
            {
                assert(i * num_cols + j < num_rows * num_cols) by (nonlinear_arith)
                    requires
                        i < num_rows,
                        j < num_cols,
                ;
                let boom = is_mined[i * num_cols + j];
                row.push(GridCell::new(boom, i, j));
            }
            grid.push(row);
        }
        let mut game = Game {
            game_over: false,
            victory: false,
            num_rows,
            num_cols,
            num_total,
            num_mined,
            grid,
            updated: Vec::new(),
        };
        let ghost g1 = game@;
        for i in 0..num_rows
            invariant
                game.shaped(),
                game.num_rows == num_rows,
                game.num_cols == num_cols,
                game.num_mined == num_mined,
                !game.game_over,
                !game.victory,
                game@.changed.len() == 0,
                game@.same_layout(g1),
                forall|r: int, c: int|
                    0 <= r < num_rows && 0 <= c < num_cols ==> {
                        &&& (#[trigger] game@.cells[r][c]).hidden
                        &&& !game@.cells[r][c].flagged
                        &&& game@.cells[r][c].row == r
                        &&& game@.cells[r][c].col == c
                        &&& game@.cells[r][c].mined == flat[r * num_cols + c]
                        &&& r < i ==> game@.cells[r][c].neighbors == g1.mines_around(r, c)
                    },
        {
            for j in 0..num_cols
                invariant
                    i < num_rows,
                    game.shaped(),
                    game.num_rows == num_rows,
                    game.num_cols == num_cols,
                    game.num_mined == num_mined,
                    !game.game_over,
                    !game.victory,
                    game@.changed.len() == 0,
                    game@.same_layout(g1),
                    forall|r: int, c: int|
                        0 <= r < num_rows && 0 <= c < num_cols ==> {
                            &&& (#[trigger] game@.cells[r][c]).hidden
                            &&& !game@.cells[r][c].flagged
                            &&& game@.cells[r][c].row == r
                            &&& game@.cells[r][c].col == c
                            &&& game@.cells[r][c].mined == flat[r * num_cols + c]
                            &&& (r < i || (r == i && c < j)) ==> game@.cells[r][c].neighbors
                                == g1.mines_around(r, c)
                        },
            {
                let n = game.count_neighbor(i, j);
                proof {
                    lemma_mines_around_same_layout(game@, g1, i as int, j as int);
                }
                game.set_neighbor_count(i, j, n);
            }
        }
        proof {
            let v = game@;
            assert forall|r: int, c: int| v.in_bounds(r, c) implies (#[trigger] v.cells[r][c]).neighbors == v.mines_around(r, c) by {
                lemma_mines_around_same_layout(v, g1, r, c);
            }
            lemma_cells_from_flat(v.cells, num_cols as nat, flat, num_rows as nat);
            assert(v.cells.subrange(0, num_rows as int) =~= v.cells);
            assert(flat.subrange(0, (num_rows * num_cols) as int) =~= flat);
            lemma_count_true_initial(num_total as nat, num_mined as nat);
            lemma_all_hidden_remaining(v);
        }
        game
    }

    /// Starts the same board over: every cell hidden again, the game neither
    /// over nor won. Mines, neighbour counts and flags are kept.
    pub fn replay(&mut self)
        requires
            old(self).wf(),
        ensures
            final(self).wf(),
            final(self)@.same_board(old(self)@),
            !final(self)@.over,
            !final(self)@.victory,
            final(self)@.changed == old(self)@.changed,
            final(self)@.remaining() == final(self)@.rows * final(self)@.cols - final(self)@.mines,
            forall|r: int, c: int|
                final(self)@.in_bounds(r, c) ==> (#[trigger] final(self)@.cells[r][c]).hidden
                    && final(self)@.cells[r][c].flagged == old(self)@.cells[r][c].flagged,
    {
        let ghost g0 = self@;
        self.game_over = false;
        self.victory = false;
        let rows = self.num_rows;
        let cols = self.num_cols;
        for r in 0..rows
            invariant
                self.shaped(),
                rows == self.num_rows,
                cols == self.num_cols,
                self.num_mined == g0.mines,
                !self.game_over,
                !self.victory,
                self@.changed == g0.changed,
                g0.wf(),
                g0.rows == rows,
                g0.cols == cols,
                forall|a: int, b: int|
                    0 <= a < rows && 0 <= b < cols ==> {
                        &&& (#[trigger] self@.cells[a][b]).mined == g0.cells[a][b].mined
                        &&& self@.cells[a][b].flagged == g0.cells[a][b].flagged
                        &&& self@.cells[a][b].neighbors == g0.cells[a][b].neighbors
                        &&& self@.cells[a][b].row == g0.cells[a][b].row
                        &&& self@.cells[a][b].col == g0.cells[a][b].col
                        &&& self@.cells[a][b].hidden == (a < r || g0.cells[a][b].hidden)
                    },
        {
            for c in 0..cols
                invariant
                    self.shaped(),
                    r < rows,
                    rows == self.num_rows,
                    cols == self.num_cols,
                    self.num_mined == g0.mines,
                    !self.game_over,
                    !self.victory,
                    self@.changed == g0.changed,
                    g0.wf(),
                    g0.rows == rows,
                    g0.cols == cols,
                    forall|a: int, b: int|
                        0 <= a < rows && 0 <= b < cols ==> {
                            &&& (#[trigger] self@.cells[a][b]).mined == g0.cells[a][b].mined
                            &&& self@.cells[a][b].flagged == g0.cells[a][b].flagged
                            &&& self@.cells[a][b].neighbors == g0.cells[a][b].neighbors
                            &&& self@.cells[a][b].row == g0.cells[a][b].row
                            &&& self@.cells[a][b].col == g0.cells[a][b].col
                            &&& self@.cells[a][b].hidden == (a < r || (a == r && b < c)
                                || g0.cells[a][b].hidden)
                        },
            {
                let flagged = self.grid[r][c].flagged;
                self.set_cell_state(r, c, true, flagged);
            }
        }
        proof {
            lemma_same_board_counts(g0, self@);
            lemma_all_hidden_remaining(self@);
        }
    }

    /// Toggles the flag of the cell at `(i, j)` if it is hidden; a revealed
    /// cell is left alone. Returns the coordinates changed: `(i, j)` or none.
    pub fn toggle_flag(&mut self, i: usize, j: usize) -> (r: &Vec<(usize, usize)>)
        requires
            old(self).wf(),
            i < old(self)@.rows,
            j < old(self)@.cols,
        ensures
            final(self).wf(),
            r@ == final(self)@.changed,
            final(self)@.same_board(old(self)@),
            final(self)@.over == old(self)@.over,
            final(self)@.victory == old(self)@.victory,
            final(self)@.remaining() == old(self)@.remaining(),
            r@ == if old(self)@.cell(i as int, j as int).hidden {
                seq![(i, j)]
            } else {
                Seq::<(usize, usize)>::empty()
            },
            forall|a: int, b: int|
                final(self)@.in_bounds(a, b) ==> {
                    &&& (#[trigger] final(self)@.cells[a][b]).hidden == old(self)@.cells[a][b].hidden
                    &&& final(self)@.cells[a][b].flagged == if a == i && b == j && old(
                        self,
                    )@.cells[a][b].hidden {
                        !old(self)@.cells[a][b].flagged
                    } else {
                        old(self)@.cells[a][b].flagged
                    }
                },
    {
        let ghost g0 = self@;
        self.updated.clear();
        if self.grid[i][j].hidden {
            let flagged = self.grid[i][j].flagged;
            self.set_cell_state(i, j, true, !flagged);
            self.updated.push((i, j));
        }
        proof {
            assert(self@.changed =~= if g0.cell(i as int, j as int).hidden {
                seq![(i, j)]
            } else {
                Seq::<(usize, usize)>::empty()
            });
            lemma_same_board_counts(g0, self@);
            assert(self@.all_safe_revealed() == g0.all_safe_revealed()) by {
                if g0.all_safe_revealed() {
                    assert forall|a: int, b: int| self@.in_bounds(a, b) && !(#[trigger] self@.cells[a][b]).mined
                        implies !self@.cells[a][b].hidden by {
                        assert(g0.in_bounds(a, b) && !g0.cells[a][b].mined);
                    }
                }
                if self@.all_safe_revealed() {
                    assert forall|a: int, b: int| g0.in_bounds(a, b) && !(#[trigger] g0.cells[a][b]).mined
                        implies !g0.cells[a][b].hidden by {
                        assert(self@.in_bounds(a, b) && !self@.cells[a][b].mined);
                    }
                }
            }
            lemma_remaining_mono(g0, self@);
        }
        &self.updated
    }

    /// Cells left to reveal before the game is won: all cells, less the
    /// revealed mine-free ones, less the mines. It is zero exactly when every
    /// mine-free cell is revealed.
    pub fn count_remaining_cells(&self) -> (r: usize)
        requires
            self.wf(),
        ensures
            r as int == self@.remaining(),
            r == 0 <==> self@.all_safe_revealed(),
    {
        let ghost cells = self@.cells;
        let ghost p = is_revealed_safe_cell();
        let mut revealed: usize = 0;
        for i in 0..self.num_rows
            invariant
                self.wf(),
                cells == self@.cells,
                p == is_revealed_safe_cell(),
                revealed as nat == count_cells(cells.subrange(0, i as int), p),
        {
            proof {
                let pre = cells.subrange(0, i as int);
                assert forall|r: int| 0 <= r < pre.len() implies #[trigger] pre[r].len() == self.num_cols by {
                    assert(pre[r] == cells[r]);
                }
                lemma_cells_total(pre, self.num_cols as nat, p, is_mined_cell());
            }
            let ghost row = cells[i as int];
            for j in 0..self.num_cols
                invariant
                    self.wf(),
                    i < self.num_rows,
                    cells == self@.cells,
                    p == is_revealed_safe_cell(),
                    row == cells[i as int],
                    count_cells(cells.subrange(0, i as int), p) <= i * self.num_cols,
                    revealed as nat == count_cells(cells.subrange(0, i as int), p) + count_row(
                        row.subrange(0, j as int),
                        p,
                    ),
            {
                proof {
                    assert(row.subrange(0, j + 1).drop_last() =~= row.subrange(0, j as int));
                    lemma_row_total(row.subrange(0, j as int), p, is_mined_cell());
                    assert(i * self.num_cols + j + 1 <= self.num_rows * self.num_cols) by (nonlinear_arith)
                        requires
                            i < self.num_rows,
                            j < self.num_cols,
                    ;
                }
                if !self.grid[i][j].hidden && !self.grid[i][j].mined {
                    revealed = revealed + 1;
                }
            }
            proof {
                assert(row.subrange(0, self.num_cols as int) =~= row);
                assert(cells.subrange(0, i + 1).drop_last() =~= cells.subrange(0, i as int));
            }
        }
        proof {
            assert(cells.subrange(0, self.num_rows as int) =~= cells);
            lemma_cells_total(cells, self.num_cols as nat, p, is_mined_cell());
        }
        self.num_total - revealed - self.num_mined
    }

    /// Reveals and unflags every cell, recording each one that was hidden.
    fn reveal_all(&mut self)
        requires
            old(self).shaped(),
            old(self)@.changed.no_duplicates(),
            forall|m: int|
                0 <= m < old(self)@.changed.len() ==> {
                    let x = #[trigger] old(self)@.changed[m];
                    &&& old(self)@.in_bounds(x.0 as int, x.1 as int)
                    &&& !old(self)@.cells[x.0 as int][x.1 as int].hidden
                },
            forall|r: int, c: int|
                old(self)@.in_bounds(r, c) && (#[trigger] old(self)@.cells[r][c]).flagged
                    ==> old(self)@.cells[r][c].hidden,
        ensures
            final(self).shaped(),
            final(self).num_rows == old(self).num_rows,
            final(self).num_cols == old(self).num_cols,
            final(self).num_mined == old(self).num_mined,
            final(self)@.over == old(self)@.over,
            final(self)@.victory == old(self)@.victory,
            final(self)@.changed.no_duplicates(),
            final(self)@.changed.len() >= old(self)@.changed.len(),
            forall|m: int| 0 <= m < old(self)@.changed.len() ==> #[trigger] final(self)@.changed[m] == old(self)@.changed[m],
            forall|r: int, c: int|
                old(self)@.in_bounds(r, c) ==> #[trigger] final(self)@.cells[r][c] == (CellView {
                    hidden: false,
                    flagged: false,
                    ..old(self)@.cells[r][c]
                }),
            forall|r: usize, c: usize|
                #[trigger] final(self)@.changed.contains((r, c)) <==> (old(self)@.changed.contains((r, c))
                    || (old(self)@.in_bounds(r as int, c as int) && old(self)@.cells[r as int][c as int].hidden)),
    {
        let ghost g0 = self@;
        let rows = self.num_rows;
        let cols = self.num_cols;
        for r in 0..rows
            invariant
                self.shaped(),
                rows == self.num_rows,
                cols == self.num_cols,
                self.num_mined == g0.mines,
                g0.rows == rows,
                g0.cols == cols,
                self@.over == g0.over,
                self@.victory == g0.victory,
                self@.changed.no_duplicates(),
                self@.changed.len() >= g0.changed.len(),
                forall|m: int| 0 <= m < g0.changed.len() ==> #[trigger] self@.changed[m] == g0.changed[m],
                forall|m: int|
                    0 <= m < self@.changed.len() ==> {
                        let x = #[trigger] self@.changed[m];
                        &&& g0.in_bounds(x.0 as int, x.1 as int)
                        &&& !self@.cells[x.0 as int][x.1 as int].hidden
                    },
                forall|a: int, b: int|
                    0 <= a < rows && 0 <= b < cols ==> #[trigger] self@.cells[a][b] == if a < r {
                        CellView { hidden: false, flagged: false, ..g0.cells[a][b] }
                    } else {
                        g0.cells[a][b]
                    },
                forall|a: usize, b: usize|
                    #[trigger] self@.changed.contains((a, b)) <==> (g0.changed.contains((a, b)) || (a < r && b
                        < cols && g0.cells[a as int][b as int].hidden)),
                forall|a: int, b: int|
                    g0.in_bounds(a, b) && (#[trigger] g0.cells[a][b]).flagged ==> g0.cells[a][b].hidden,
        {
            for c in 0..cols
                invariant
                    self.shaped(),
                    r < rows,
                    rows == self.num_rows,
                    cols == self.num_cols,
                    self.num_mined == g0.mines,
                    g0.rows == rows,
                    g0.cols == cols,
                    self@.over == g0.over,
                    self@.victory == g0.victory,
                    self@.changed.no_duplicates(),
                    self@.changed.len() >= g0.changed.len(),
                    forall|m: int| 0 <= m < g0.changed.len() ==> #[trigger] self@.changed[m] == g0.changed[m],
                    forall|m: int|
                        0 <= m < self@.changed.len() ==> {
                            let x = #[trigger] self@.changed[m];
                            &&& g0.in_bounds(x.0 as int, x.1 as int)
                            &&& !self@.cells[x.0 as int][x.1 as int].hidden
                        },
                    forall|a: int, b: int|
                        0 <= a < rows && 0 <= b < cols ==> #[trigger] self@.cells[a][b] == if a < r || (a == r
                            && b < c) {
                            CellView { hidden: false, flagged: false, ..g0.cells[a][b] }
                        } else {
                            g0.cells[a][b]
                        },
                    forall|a: usize, b: usize|
                        #[trigger] self@.changed.contains((a, b)) <==> (g0.changed.contains((a, b)) || ((a < r
                            || (a == r && b < c)) && b < cols && g0.cells[a as int][b as int].hidden)),
                    forall|a: int, b: int|
                        g0.in_bounds(a, b) && (#[trigger] g0.cells[a][b]).flagged ==> g0.cells[a][b].hidden,
            {
                if self.grid[r][c].hidden {
                    let ghost before = self@.changed;
                    proof {
                        assert(self@.cells[r as int][c as int] == g0.cells[r as int][c as int]);
                        assert(!before.contains((r, c)));
                    }
                    self.updated.push((r, c));
                    self.set_cell_state(r, c, false, false);
                    proof {
                        assert forall|a: usize, b: usize|
                            #[trigger] self@.changed.contains((a, b)) <==> (before.contains((a, b)) || (a == r
                                && b == c)) by {
                            if self@.changed.contains((a, b)) && !(a == r && b == c) {
                                let m = choose|m: int| 0 <= m < self@.changed.len() && self@.changed[m] == (a, b);
                                assert(before[m] == (a, b));
                            }
                            if before.contains((a, b)) {
                                let m = choose|m: int| 0 <= m < before.len() && before[m] == (a, b);
                                assert(self@.changed[m] == (a, b));
                            }
                            if a == r && b == c {
                                assert(self@.changed[before.len() as int] == (a, b));
                            }
                        }
                    }
                } else {
                    proof {
                        assert(self@.cells[r as int][c as int] == g0.cells[r as int][c as int]);
                        assert(!g0.cells[r as int][c as int].hidden);
                        assert(!g0.cells[r as int][c as int].flagged);
                        assert(self@.cells[r as int][c as int] == (CellView {
                            hidden: false,
                            flagged: false,
                            ..g0.cells[r as int][c as int]
                        }));
                    }
                }
            }
        }
    }

    /// Every mine-free cell is revealed.
    fn check_won(&self) -> (r: bool)
        requires
            self.wf(),
        ensures
            r == self@.all_safe_revealed(),
    {
        self.count_remaining_cells() == 0
    }

    /// Digs the cell at `(i, j)`: see `GameView::dig_outcome`. Returns the
    /// coordinates of the cells it changed, each once.
    pub fn dig_cell(&mut self, i: usize, j: usize) -> (r: &Vec<(usize, usize)>)
        requires
            old(self).wf(),
            i < old(self)@.rows,
            j < old(self)@.cols,
        ensures
            final(self).wf(),
            r@ == final(self)@.changed,
            old(self)@.dig_outcome((i as int, j as int), final(self)@),
            final(self)@.remaining() <= old(self)@.remaining(),
    {
        let ghost g0 = self@;
        self.updated.clear();
        proof {
            assert(self@.cells =~~= g0.cells);
            assert(self@ == GameView { changed: Seq::empty(), ..g0 });
            lemma_same_board_counts(g0, self@);
        }
        let ghost g1 = self@;
        self.dig(i, j);
        proof {
            let s = (i as int, j as int);
            assert forall|p: Seq<(int, int)>| #[trigger] g1.is_cascade_path(p) == g0.is_cascade_path(p) by {}
            assert forall|x: (int, int)| #[trigger] g1.cascades_to(s, x) == g0.cascades_to(s, x) by {
                if g1.cascades_to(s, x) {
                    let p = choose|p: Seq<(int, int)>| #[trigger] g1.is_cascade_path(p) && p[0] == s && p.last() == x;
                    assert(g0.is_cascade_path(p));
                }
                if g0.cascades_to(s, x) {
                    let p = choose|p: Seq<(int, int)>| #[trigger] g0.is_cascade_path(p) && p[0] == s && p.last() == x;
                    assert(g1.is_cascade_path(p));
                }
            }
            lemma_remaining_mono(g0, self@);
        }
        &self.updated
    }

    /// Reveals `(i, j)`; on a mine, loses and reveals everything. Otherwise
    /// the cascade runs over a work list of revealed cells with no mined
    /// neighbour, each revealing its hidden neighbours, and the win is
    /// checked once it is done.
    fn dig(&mut self, i: usize, j: usize)
        requires
            old(self).wf(),
            i < old(self)@.rows,
            j < old(self)@.cols,
            old(self)@.changed.len() == 0,
        ensures
            final(self).wf(),
            old(self)@.dig_outcome((i as int, j as int), final(self)@),
    {
        let ghost g0 = self@;
        let ghost s = (i as int, j as int);
        self.updated.push((i, j));
        self.set_cell_state(i, j, false, false);
        proof {
            assert(self@.cells[s.0][s.1] == self.grid@[s.0]@[s.1]@);
        }
        if self.grid[i][j].mined {
            self.game_over = true;
            self.victory = false;
            proof {
                assert(self@.changed =~= seq![(i, j)]);
            }
            let ghost g1 = self@;
            self.reveal_all();
            proof {
                lemma_same_board_counts(g0, self@);
                assert forall|r: usize, c: usize|
                    #[trigger] self@.changed.contains((r, c)) <==> ((r as int, c as int) == s || (g0.in_bounds(
                        r as int,
                        c as int,
                    ) && g0.cells[r as int][c as int].hidden)) by {
                    if r == i && c == j {
                        assert(g1.changed[0] == (r, c));
                    }
                    if g1.changed.contains((r, c)) {
                        let m = choose|m: int| 0 <= m < g1.changed.len() && g1.changed[m] == (r, c);
                    }
                }
            }
            return;
        }
        let mut pending: Vec<(usize, usize)> = Vec::new();
        if self.grid[i][j].neighbors == 0 {
            pending.push((i, j));
        }
        let ghost mut paths: Map<(int, int), Seq<(int, int)>> = map![s => seq![s]];
        proof {
            assert(self@.changed =~= seq![(i, j)]);
            assert forall|a: usize, b: usize|
                #[trigger] self@.changed.contains((a, b)) <==> paths.contains_key((a as int, b as int)) by {
                if self@.changed.contains((a, b)) {
                    let m = choose|m: int| 0 <= m < self@.changed.len() && self@.changed[m] == (a, b);
                }
                if paths.contains_key((a as int, b as int)) {
                    assert(self@.changed[0] == (a, b));
                }
            }
        }
        while pending.len() > 0
            invariant
                self.shaped(),
                self.num_rows == g0.rows,
                self.num_cols == g0.cols,
                self.num_mined == g0.mines,
                self@.same_board(g0),
                self@.over == g0.over,
                self@.victory == g0.victory,
                g0.wf(),
                g0.in_bounds(s.0, s.1),
                !g0.cells[s.0][s.1].mined,
                s == (i as int, j as int),
                self@.changed.no_duplicates(),
                self@.changed.len() > 0,
                self@.changed[0] == (i, j),
                forall|a: usize, b: usize|
                    #[trigger] self@.changed.contains((a, b)) <==> paths.contains_key((a as int, b as int)),
                forall|x: (int, int)|
                    #[trigger] paths.contains_key(x) ==> {
                        &&& g0.in_bounds(x.0, x.1)
                        &&& !g0.cells[x.0][x.1].mined
                        &&& g0.is_cascade_path(paths[x])
                        &&& paths[x][0] == s
                        &&& paths[x].last() == x
                    },
                paths.contains_key(s),
                forall|a: int, b: int|
                    g0.in_bounds(a, b) ==> {
                        &&& (#[trigger] self@.cells[a][b]).hidden == (g0.cells[a][b].hidden && !paths.contains_key(
                            (a, b),
                        ))
                        &&& self@.cells[a][b].flagged == (g0.cells[a][b].flagged && !paths.contains_key((a, b)))
                    },
                forall|k: int|
                    0 <= k < pending@.len() ==> {
                        let x = #[trigger] pending@[k];
                        &&& x.0 < g0.rows
                        &&& x.1 < g0.cols
                        &&& paths.contains_key((x.0 as int, x.1 as int))
                        &&& g0.cells[x.0 as int][x.1 as int].neighbors == 0
                    },
                forall|x: (int, int)|
                    #[trigger] paths.contains_key(x) && g0.cells[x.0][x.1].neighbors == 0 ==> pending@.contains(
                        (x.0 as usize, x.1 as usize),
                    ) || all_revealed(self@, g0.neighbor_list(x.0, x.1)),
            decreases 9 * count_cells(self@.cells, is_hidden_cell()) + pending@.len(),
        {
            let ghost measure0 = 9 * count_cells(self@.cells, is_hidden_cell()) + pending@.len();
            let ghost before_pop = pending@;
            let (r, c) = pending.pop().unwrap();
            let ghost cur = (r as int, c as int);
            proof {
                assert(before_pop[before_pop.len() - 1] == (r, c));
                assert forall|x: (int, int)|
                    #[trigger] paths.contains_key(x) && g0.cells[x.0][x.1].neighbors == 0 && x != cur
                        implies pending@.contains((x.0 as usize, x.1 as usize)) || all_revealed(
                        self@,
                        g0.neighbor_list(x.0, x.1),
                    ) by {
                    if before_pop.contains((x.0 as usize, x.1 as usize)) {
                        let k = choose|k: int| 0 <= k < before_pop.len() && before_pop[k] == (x.0 as usize, x.1 as usize);
                        assert(g0.in_bounds(x.0, x.1));
                        if k < before_pop.len() - 1 {
                            assert(pending@[k] == before_pop[k]);
                        }
                    }
                }
                lemma_neighbors_same_dims(self@, g0, r as int, c as int, 8);
                lemma_neighbor_list(g0, r as int, c as int);
                lemma_neighbors_upto(g0, r as int, c as int, 8);
                lemma_mines_in_zero(g0, g0.neighbor_list(r as int, c as int));
            }
            let around = self.walk_around(r, c);
            let ghost list = g0.neighbor_list(r as int, c as int);
            proof {
                assert forall|q: int| 0 <= q < list.len() implies {
                    &&& g0.in_bounds((#[trigger] list[q]).0, list[q].1)
                    &&& is_neighbor(list[q], cur)
                    &&& !g0.cells[list[q].0][list[q].1].mined
                } by {
                    assert(list.contains(list[q]));
                }
            }
            for m in 0..around.len()
                invariant
                    self.shaped(),
                    self.num_rows == g0.rows,
                    self.num_cols == g0.cols,
                    self.num_mined == g0.mines,
                    self@.same_board(g0),
                    self@.over == g0.over,
                    self@.victory == g0.victory,
                    g0.wf(),
                    g0.in_bounds(s.0, s.1),
                    !g0.cells[s.0][s.1].mined,
                    s == (i as int, j as int),
                    self@.changed.no_duplicates(),
                    self@.changed.len() > 0,
                    self@.changed[0] == (i, j),
                    forall|a: usize, b: usize|
                        #[trigger] self@.changed.contains((a, b)) <==> paths.contains_key((a as int, b as int)),
                    forall|x: (int, int)|
                        #[trigger] paths.contains_key(x) ==> {
                            &&& g0.in_bounds(x.0, x.1)
                            &&& !g0.cells[x.0][x.1].mined
                            &&& g0.is_cascade_path(paths[x])
                            &&& paths[x][0] == s
                            &&& paths[x].last() == x
                        },
                    paths.contains_key(s),
                    forall|a: int, b: int|
                        g0.in_bounds(a, b) ==> {
                            &&& (#[trigger] self@.cells[a][b]).hidden == (g0.cells[a][b].hidden
                                && !paths.contains_key((a, b)))
                            &&& self@.cells[a][b].flagged == (g0.cells[a][b].flagged && !paths.contains_key((a, b)))
                        },
                    forall|k: int|
                        0 <= k < pending@.len() ==> {
                            let x = #[trigger] pending@[k];
                            &&& x.0 < g0.rows
                            &&& x.1 < g0.cols
                            &&& paths.contains_key((x.0 as int, x.1 as int))
                            &&& g0.cells[x.0 as int][x.1 as int].neighbors == 0
                        },
                    forall|x: (int, int)|
                        #[trigger] paths.contains_key(x) && g0.cells[x.0][x.1].neighbors == 0 && x != cur
                            ==> pending@.contains((x.0 as usize, x.1 as usize)) || all_revealed(
                            self@,
                            g0.neighbor_list(x.0, x.1),
                        ),
                    cur == (r as int, c as int),
                    paths.contains_key(cur),
                    g0.cells[cur.0][cur.1].neighbors == 0,
                    list == g0.neighbor_list(cur.0, cur.1),
                    around@.len() == list.len(),
                    forall|q: int|
                        0 <= q < around@.len() ==> (#[trigger] around@[q].0 as int, around@[q].1 as int) == list[q],
                    forall|q: int|
                        0 <= q < list.len() ==> {
                            &&& g0.in_bounds((#[trigger] list[q]).0, list[q].1)
                            &&& is_neighbor(list[q], cur)
                            &&& !g0.cells[list[q].0][list[q].1].mined
                        },
                    all_revealed(self@, list.subrange(0, m as int)),
                    9 * count_cells(self@.cells, is_hidden_cell()) + pending@.len() < measure0,
            {
                let (a, b) = around[m];
                let ghost n = (a as int, b as int);
                proof {
                    assert(n == list[m as int]);
                }
                proof {
                    assert(self@.cells[n.0][n.1] == self.grid@[n.0]@[n.1]@);
                }
                if self.grid[a][b].hidden {
                    let ghost v1 = self@;
                    let ghost p1 = pending@;
                    proof {
                        assert(self@.cells[a as int][b as int].hidden);
                        assert(!paths.contains_key(n));
                        assert(!self@.changed.contains((a, b)));
                        lemma_path_extend(g0, paths[cur], n);
                    }
                    self.updated.push((a, b));
                    self.set_cell_state(a, b, false, false);
                    proof {
                        paths = paths.insert(n, paths[cur].push(n));
                    }
                    proof {
                        assert(self@.cells[n.0][n.1] == self.grid@[n.0]@[n.1]@);
                    }
                    if self.grid[a][b].neighbors == 0 {
                        pending.push((a, b));
                    }
                    proof {
                        let v2 = self@;
                        assert forall|x: usize, y: usize|
                            #[trigger] v2.changed.contains((x, y)) <==> paths.contains_key((x as int, y as int)) by {
                            if v2.changed.contains((x, y)) && !(x == a && y == b) {
                                let k = choose|k: int| 0 <= k < v2.changed.len() && v2.changed[k] == (x, y);
                                assert(v1.changed[k] == (x, y));
                            }
                            if v1.changed.contains((x, y)) {
                                let k = choose|k: int| 0 <= k < v1.changed.len() && v1.changed[k] == (x, y);
                                assert(v2.changed[k] == (x, y));
                            }
                            if x == a && y == b {
                                assert(v2.changed[v1.changed.len() as int] == (x, y));
                            }
                        }
                        assert forall|k: int| 0 <= k < pending@.len() implies {
                            let x = #[trigger] pending@[k];
                            &&& x.0 < g0.rows
                            &&& x.1 < g0.cols
                            &&& paths.contains_key((x.0 as int, x.1 as int))
                            &&& g0.cells[x.0 as int][x.1 as int].neighbors == 0
                        } by {
                            if k < p1.len() {
                                assert(pending@[k] == p1[k]);
                            }
                        }
                        assert forall|x: int, y: int| v1.in_bounds(x, y) && (#[trigger] v2.cells[x][y]).hidden
                            implies v1.cells[x][y].hidden by {}
                        assert forall|x: (int, int)|
                            #[trigger] paths.contains_key(x) && g0.cells[x.0][x.1].neighbors == 0 && x != cur
                                implies pending@.contains((x.0 as usize, x.1 as usize)) || all_revealed(
                                v2,
                                g0.neighbor_list(x.0, x.1),
                            ) by {
                            if x == n {
                                assert(pending@[pending@.len() - 1] == (a, b));
                            } else if p1.contains((x.0 as usize, x.1 as usize)) {
                                let k = choose|k: int| 0 <= k < p1.len() && p1[k] == (x.0 as usize, x.1 as usize);
                                assert(pending@[k] == p1[k]);
                            } else {
                                lemma_neighbor_list(g0, x.0, x.1);
                                let nl = g0.neighbor_list(x.0, x.1);
                                assert forall|q: int| 0 <= q < nl.len() implies v1.in_bounds((#[trigger] nl[q]).0, nl[q].1) by {
                                    assert(nl.contains(nl[q]));
                                }
                                lemma_all_revealed_mono(v1, v2, nl);
                            }
                        }
                        assert forall|q: int| 0 <= q < list.subrange(0, m as int).len() implies v1.in_bounds(
                            (#[trigger] list.subrange(0, m as int)[q]).0,
                            list.subrange(0, m as int)[q].1,
                        ) by {
                            assert(list.subrange(0, m as int)[q] == list[q]);
                        }
                        lemma_all_revealed_mono(v1, v2, list.subrange(0, m as int));
                        assert(all_revealed(v2, list.subrange(0, m + 1))) by {
                            assert forall|q: int| 0 <= q < m + 1 implies !v2.cells[(#[trigger] list.subrange(0, m + 1)[q]).0][list.subrange(0, m + 1)[q].1].hidden by {
                                if q < m {
                                    assert(list.subrange(0, m + 1)[q] == list.subrange(0, m as int)[q]);
                                }
                            }
                        }
                        assert forall|r: int, c: int| 0 <= r < v2.cells.len() && 0 <= c < v2.cells[r].len()
                            && is_hidden_cell()(#[trigger] v2.cells[r][c]) implies is_hidden_cell()(v1.cells[r][c]) by {}
                        assert(!is_hidden_cell()(v2.cells[a as int][b as int]) && is_hidden_cell()(v1.cells[a as int][b as int]));
                        lemma_cells_mono(v2.cells, v1.cells, is_hidden_cell(), is_hidden_cell());
                    }
                } else {
                    proof {
                        assert(all_revealed(self@, list.subrange(0, m + 1))) by {
                            assert forall|q: int| 0 <= q < m + 1 implies !self@.cells[(#[trigger] list.subrange(0, m + 1)[q]).0][list.subrange(0, m + 1)[q].1].hidden by {
                                if q < m {
                                    assert(list.subrange(0, m + 1)[q] == list.subrange(0, m as int)[q]);
                                }
                            }
                        }
                    }
                }
            }
            proof {
                assert(list.subrange(0, list.len() as int) =~= list);
            }
        }
        proof {
            let v = self@;
            let dom = paths.dom();
            assert forall|a: int, b: int| g0.in_bounds(a, b) implies dom.contains((a, b)) == g0.cascades_to(s, (a, b)) by {
                if dom.contains((a, b)) {
                    assert(g0.is_cascade_path(paths[(a, b)]));
                }
                if g0.cascades_to(s, (a, b)) {
                    let p = choose|p: Seq<(int, int)>| #[trigger] g0.is_cascade_path(p) && p[0] == s && p.last() == (a, b);
                    lemma_cascade_reaches(g0, v, dom, p, p.len() - 1);
                }
            }
            assert forall|r: usize, c: usize|
                #[trigger] v.changed.contains((r, c)) <==> (g0.in_bounds(r as int, c as int) && g0.cascades_to(
                    s,
                    (r as int, c as int),
                )) by {
                if g0.cascades_to(s, (r as int, c as int)) {
                    let p = choose|p: Seq<(int, int)>| #[trigger] g0.is_cascade_path(p) && p[0] == s && p.last() == (r as int, c as int);
                    assert(g0.in_bounds(p[p.len() - 1].0, p[p.len() - 1].1));
                }
            }
            lemma_same_board_counts(g0, v);
            if g0.victory {
                assert forall|a: int, b: int| v.in_bounds(a, b) && !(#[trigger] v.cells[a][b]).mined implies !v.cells[a][b].hidden by {
                    assert(g0.in_bounds(a, b) && !g0.cells[a][b].mined);
                }
            }
        }
        let ghost v = self@;
        if !self.game_over && self.check_won() {
            self.game_over = true;
            self.victory = true;
        }
        proof {
            assert(self@.cells =~~= v.cells);
            lemma_same_board_counts(v, self@);
        }
    }
}

/// Every game holds exactly its mine total of mined cells.
pub proof fn lemma_mine_total(g: &Game)
    requires
        g.wf(),
    ensures
        count_cells(g@.cells, is_mined_cell()) == g@.mines,
        g@.mines <= g@.rows * g@.cols,
{
    lemma_cells_total(g@.cells, g@.cols, is_mined_cell(), is_revealed_safe_cell());
}

/// In every game each cell's neighbour count is the number of mined cells
/// among the cells of the board that touch it.
pub proof fn lemma_neighbor_counts(g: &Game)
    requires
        g.wf(),
    ensures
        forall|r: int, c: int|
            g@.in_bounds(r, c) ==> (#[trigger] g@.cells[r][c]).neighbors == g@.mines_in(g@.neighbor_list(r, c)),
        forall|r: int, c: int, x: (int, int)|
            #[trigger] g@.neighbor_list(r, c).contains(x) <==> (g@.in_bounds(x.0, x.1) && is_neighbor(x, (r, c))),
{
    assert forall|r: int, c: int, x: (int, int)|
        #[trigger] g@.neighbor_list(r, c).contains(x) <==> (g@.in_bounds(x.0, x.1) && is_neighbor(x, (r, c))) by {
        lemma_neighbor_list(g@, r, c);
    }
}

/// A won game is over, every mine-free cell of it is revealed, and no cell
/// remains to be revealed.
pub proof fn lemma_victory_clears_board(g: &Game)
    requires
        g.wf(),
        g@.victory,
    ensures
        g@.over,
        g@.all_safe_revealed(),
        g@.remaining() == 0,
{
    let v = g@;
    lemma_cells_total(v.cells, v.cols, is_revealed_safe_cell(), is_mined_cell());
    assert forall|r: int, c: int| 0 <= r < v.cells.len() && 0 <= c < v.cols
        implies is_revealed_safe_cell()(#[trigger] v.cells[r][c]) || is_mined_cell()(v.cells[r][c]) by {
        assert(v.in_bounds(r, c));
    }
}

/// The model of every game is well formed: in particular its grid has
/// `rows` rows of `cols` cells.
pub proof fn lemma_view_wf(g: &Game)
    requires
        g.wf(),
    ensures
        g@.wf(),
        g@.cells.len() == g@.rows,
        forall|r: int| 0 <= r < g@.rows ==> #[trigger] g@.cells[r].len() == g@.cols,
{
}

} // verus!
