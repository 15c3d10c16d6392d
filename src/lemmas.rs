//! Facts about cell counts, the shuffle and the eight-neighbourhood.
use vstd::prelude::*;
use crate::model::{
    count_cells, count_row, count_true, initial_layout, is_hidden_safe_cell, is_mined_cell, is_neighbor,
    is_revealed_safe_cell, is_safe_cell, offset, shuffled, CellView, GameView,
};

verus! {

/// Pointwise `p(a) ==> q(b)` bounds the counts, strictly where some cell
/// satisfies `q` in `b` and not `p` in `a`.
pub proof fn lemma_row_mono(
    a: Seq<CellView>,
    b: Seq<CellView>,
    p: spec_fn(CellView) -> bool,
    q: spec_fn(CellView) -> bool,
)
    requires
        a.len() == b.len(),
        forall|i: int| 0 <= i < a.len() ==> p(a[i]) ==> q(b[i]),
    ensures
        count_row(a, p) <= count_row(b, q),
        (exists|i: int| 0 <= i < a.len() && !p(a[i]) && q(b[i])) ==> count_row(a, p) < count_row(b, q),
    decreases a.len(),
{
    if a.len() > 0 {
        lemma_row_mono(a.drop_last(), b.drop_last(), p, q);
        if exists|i: int| 0 <= i < a.len() && !p(a[i]) && q(b[i]) {
            let i = choose|i: int| 0 <= i < a.len() && !p(a[i]) && q(b[i]);
            if i < a.len() - 1 {
                assert(!p(a.drop_last()[i]) && q(b.drop_last()[i]));
            }
        }
    }
}

pub proof fn lemma_cells_mono(
    a: Seq<Seq<CellView>>,
    b: Seq<Seq<CellView>>,
    p: spec_fn(CellView) -> bool,
    q: spec_fn(CellView) -> bool,
)
    requires
        a.len() == b.len(),
        forall|r: int| 0 <= r < a.len() ==> #[trigger] a[r].len() == b[r].len(),
        forall|r: int, c: int| 0 <= r < a.len() && 0 <= c < a[r].len() ==> p(#[trigger] a[r][c]) ==> q(b[r][c]),
    ensures
        count_cells(a, p) <= count_cells(b, q),
        (exists|r: int, c: int| 0 <= r < a.len() && 0 <= c < a[r].len() && !p(#[trigger] a[r][c]) && q(b[r][c]))
            ==> count_cells(a, p) < count_cells(b, q),
    decreases a.len(),
{
    if a.len() > 0 {
        let n = a.len() - 1;
        assert forall|r: int, c: int| 0 <= r < n && 0 <= c < a.drop_last()[r].len() && p(#[trigger] a.drop_last()[r][c])
            implies q(b.drop_last()[r][c]) by {
            assert(a.drop_last()[r] == a[r]);
            assert(b.drop_last()[r] == b[r]);
        }
        lemma_cells_mono(a.drop_last(), b.drop_last(), p, q);
        lemma_row_mono(a.last(), b.last(), p, q);
        if exists|r: int, c: int| 0 <= r < a.len() && 0 <= c < a[r].len() && !p(#[trigger] a[r][c]) && q(b[r][c]) {
            let (r, c) = choose|r: int, c: int|
                0 <= r < a.len() && 0 <= c < a[r].len() && !p(#[trigger] a[r][c]) && q(b[r][c]);
            if r < n {
                assert(!p(a.drop_last()[r][c]) && q(b.drop_last()[r][c]));
            } else {
                assert(!p(a.last()[c]) && q(b.last()[c]));
            }
        }
    }
}

/// Two disjoint properties together hold of at most all cells of a row,
/// and of all of them exactly when every cell has one of them.
pub proof fn lemma_row_total(row: Seq<CellView>, p: spec_fn(CellView) -> bool, q: spec_fn(CellView) -> bool)
    requires
        forall|x: CellView| !(#[trigger] p(x) && q(x)),
    ensures
        count_row(row, p) + count_row(row, q) <= row.len(),
        count_row(row, p) + count_row(row, q) == row.len()
            <==> forall|i: int| 0 <= i < row.len() ==> p(row[i]) || q(row[i]),
    decreases row.len(),
{
    if row.len() > 0 {
        let s = row.drop_last();
        lemma_row_total(s, p, q);
        if forall|i: int| 0 <= i < row.len() ==> p(row[i]) || q(row[i]) {
            assert forall|i: int| 0 <= i < s.len() implies p(s[i]) || q(s[i]) by {
                assert(s[i] == row[i]);
            }
        }
        if count_row(row, p) + count_row(row, q) == row.len() {
            assert forall|i: int| 0 <= i < row.len() implies p(row[i]) || q(row[i]) by {
                if i < s.len() {
                    assert(s[i] == row[i]);
                }
            }
        }
    }
}

pub proof fn lemma_cells_total(
    cells: Seq<Seq<CellView>>,
    cols: nat,
    p: spec_fn(CellView) -> bool,
    q: spec_fn(CellView) -> bool,
)
    requires
        forall|x: CellView| !(#[trigger] p(x) && q(x)),
        forall|r: int| 0 <= r < cells.len() ==> #[trigger] cells[r].len() == cols,
    ensures
        count_cells(cells, p) + count_cells(cells, q) <= cells.len() * cols,
        count_cells(cells, p) + count_cells(cells, q) == cells.len() * cols
            <==> forall|r: int, c: int| 0 <= r < cells.len() && 0 <= c < cols ==> p(#[trigger] cells[r][c]) || q(cells[r][c]),
    decreases cells.len(),
{
    if cells.len() > 0 {
        let s = cells.drop_last();
        let n = s.len();
        assert forall|r: int| 0 <= r < s.len() implies #[trigger] s[r].len() == cols by {
            assert(s[r] == cells[r]);
        }
        lemma_cells_total(s, cols, p, q);
        lemma_row_total(cells.last(), p, q);
        assert(cells.len() * cols == n * cols + cols) by (nonlinear_arith)
            requires cells.len() == n + 1;
        if forall|r: int, c: int| 0 <= r < cells.len() && 0 <= c < cols ==> p(#[trigger] cells[r][c]) || q(cells[r][c]) {
            assert forall|r: int, c: int| 0 <= r < s.len() && 0 <= c < cols implies p(#[trigger] s[r][c]) || q(s[r][c]) by {
                assert(s[r] == cells[r]);
            }
            assert forall|c: int| 0 <= c < cols implies p(cells.last()[c]) || q(cells.last()[c]) by {
                assert(cells.last() == cells[n as int]);
            }
        }
        if count_cells(cells, p) + count_cells(cells, q) == cells.len() * cols {
            assert forall|r: int, c: int| 0 <= r < cells.len() && 0 <= c < cols implies p(#[trigger] cells[r][c]) || q(cells[r][c]) by {
                if r < n {
                    assert(s[r] == cells[r]);
                } else {
                    assert(cells.last() == cells[r]);
                }
            }
        }
    }
}

pub proof fn lemma_count_true_update(s: Seq<bool>, i: int, v: bool)
    requires
        0 <= i < s.len(),
    ensures
        count_true(s.update(i, v)) + (if s[i] { 1int } else { 0int }) == count_true(s) + (if v { 1int } else { 0int }),
    decreases s.len(),
{
    let t = s.update(i, v);
    if i < s.len() - 1 {
        assert(t.drop_last() =~= s.drop_last().update(i, v));
        lemma_count_true_update(s.drop_last(), i, v);
    } else {
        assert(t.drop_last() =~= s.drop_last());
    }
}

pub proof fn lemma_count_true_initial(total: nat, mines: nat)
    requires
        mines <= total,
    ensures
        count_true(initial_layout(total, mines)) == mines,
    decreases total,
{
    if total > 0 {
        if mines == total {
            lemma_count_true_initial((total - 1) as nat, (mines - 1) as nat);
            assert(initial_layout(total, mines).drop_last() =~= initial_layout((total - 1) as nat, (mines - 1) as nat));
        } else {
            lemma_count_true_initial((total - 1) as nat, mines);
            assert(initial_layout(total, mines).drop_last() =~= initial_layout((total - 1) as nat, mines));
        }
    }
}

/// The shuffle keeps the length and the number of `true` entries.
pub proof fn lemma_shuffled_count(s: Seq<bool>, picks: Seq<usize>, n: nat)
    requires
        n <= s.len(),
        n <= picks.len(),
        forall|i: int| 0 <= i < n ==> #[trigger] picks[i] < s.len(),
    ensures
        shuffled(s, picks, n).len() == s.len(),
        count_true(shuffled(s, picks, n)) == count_true(s),
    decreases n,
{
    if n > 0 {
        lemma_shuffled_count(s, picks, (n - 1) as nat);
        let t = shuffled(s, picks, (n - 1) as nat);
        let i = n - 1;
        let j = picks[i] as int;
        lemma_count_true_update(t, i, t[j]);
        lemma_count_true_update(t.update(i, t[j]), j, t[i]);
    }
}

/// A row laid over `flat[base..base + row.len()]` adds its mines to the
/// count of the prefix before it.
pub proof fn lemma_row_from_flat(row: Seq<CellView>, flat: Seq<bool>, base: int)
    requires
        0 <= base,
        base + row.len() <= flat.len(),
        forall|c: int| 0 <= c < row.len() ==> #[trigger] row[c].mined == flat[base + c],
    ensures
        count_true(flat.subrange(0, base + row.len())) == count_true(flat.subrange(0, base)) + count_row(row, is_mined_cell()),
    decreases row.len(),
{
    if row.len() > 0 {
        let s = row.drop_last();
        assert forall|c: int| 0 <= c < s.len() implies #[trigger] s[c].mined == flat[base + c] by {
            assert(s[c] == row[c]);
        }
        lemma_row_from_flat(s, flat, base);
        assert(flat.subrange(0, base + row.len()).drop_last() =~= flat.subrange(0, base + s.len()));
    }
}

/// A grid laid row-major over `flat` holds as many mines as `flat` holds
/// `true` entries, row by row.
pub proof fn lemma_cells_from_flat(cells: Seq<Seq<CellView>>, cols: nat, flat: Seq<bool>, n: nat)
    requires
        n <= cells.len(),
        flat.len() == cells.len() * cols,
        forall|r: int| 0 <= r < cells.len() ==> #[trigger] cells[r].len() == cols,
        forall|r: int, c: int| 0 <= r < cells.len() && 0 <= c < cols ==> #[trigger] cells[r][c].mined == flat[r * cols + c],
    ensures
        count_cells(cells.subrange(0, n as int), is_mined_cell()) == count_true(flat.subrange(0, (n * cols) as int)),
    decreases n,
{
    if n > 0 {
        let m = (n - 1) as nat;
        lemma_cells_from_flat(cells, cols, flat, m);
        let base = m * cols;
        assert(n * cols == base + cols) by (nonlinear_arith)
            requires n == m + 1, base == m * cols;
        assert(n * cols <= cells.len() * cols) by (nonlinear_arith)
            requires n <= cells.len();
        let row = cells[m as int];
        assert forall|c: int| 0 <= c < row.len() implies #[trigger] row[c].mined == flat[base + c] by {
            assert(cells[m as int][c].mined == flat[m * cols + c]);
        }
        lemma_row_from_flat(row, flat, base as int);
        assert(cells.subrange(0, n as int).drop_last() =~= cells.subrange(0, m as int));
        assert(cells.subrange(0, n as int).last() == row);
        assert(base + row.len() == n * cols);
        let sub = cells.subrange(0, n as int);
        assert(count_cells(sub, is_mined_cell()) == count_cells(sub.drop_last(), is_mined_cell()) + count_row(sub.last(), is_mined_cell()));
        assert(count_true(flat.subrange(0, (n * cols) as int)) == count_true(flat.subrange(0, base as int)) + count_row(row, is_mined_cell()));
    } else {
        assert(0 * cols == 0);
        assert(cells.subrange(0, 0) =~= Seq::<Seq<CellView>>::empty());
        assert(flat.subrange(0, 0) =~= Seq::<bool>::empty());
    }
}

/// The first `k` compass neighbours of `(r, c)` that lie on the board.
pub proof fn lemma_neighbors_upto(v: GameView, r: int, c: int, k: nat)
    requires
        k <= 8,
    ensures
        v.neighbors_upto(r, c, k).len() <= k,
        forall|x: (int, int)|
            #[trigger] v.neighbors_upto(r, c, k).contains(x) <==> (v.in_bounds(x.0, x.1) && exists|i: int|
                0 <= i < k && x == (r + offset(i).0, c + offset(i).1)),
    decreases k,
{
    if k > 0 {
        lemma_neighbors_upto(v, r, c, (k - 1) as nat);
        let prev = v.neighbors_upto(r, c, (k - 1) as nat);
        let n = (r + offset(k - 1).0, c + offset(k - 1).1);
        assert forall|x: (int, int)|
            #[trigger] v.neighbors_upto(r, c, k).contains(x) <==> (v.in_bounds(x.0, x.1) && exists|i: int|
                0 <= i < k && x == (r + offset(i).0, c + offset(i).1)) by {
            if v.in_bounds(n.0, n.1) {
                assert(prev.push(n).contains(x) <==> (prev.contains(x) || x == n)) by {
                    if x == n {
                        assert(prev.push(n)[prev.len() as int] == n);
                    }
                    if prev.contains(x) {
                        let j = choose|j: int| 0 <= j < prev.len() && prev[j] == x;
                        assert(prev.push(n)[j] == x);
                    }
                    if prev.push(n).contains(x) && x != n {
                        let j = choose|j: int| 0 <= j < prev.push(n).len() && prev.push(n)[j] == x;
                        assert(prev[j] == x);
                    }
                }
            }
            if v.in_bounds(x.0, x.1) && exists|i: int| 0 <= i < k && x == (r + offset(i).0, c + offset(i).1) {
                let i = choose|i: int| 0 <= i < k && x == (r + offset(i).0, c + offset(i).1);
                if i < k - 1 {
                    assert(prev.contains(x));
                }
            }
        }
    }
}

/// The neighbour list of `(r, c)` holds exactly the cells of the board
/// that touch it.
pub proof fn lemma_neighbor_list(v: GameView, r: int, c: int)
    ensures
        forall|x: (int, int)|
            #[trigger] v.neighbor_list(r, c).contains(x) <==> (v.in_bounds(x.0, x.1) && is_neighbor(x, (r, c))),
{
    lemma_neighbors_upto(v, r, c, 8);
    assert forall|x: (int, int)|
        #[trigger] v.neighbor_list(r, c).contains(x) <==> (v.in_bounds(x.0, x.1) && is_neighbor(x, (r, c))) by {
        if v.in_bounds(x.0, x.1) && is_neighbor(x, (r, c)) {
            let idx = (x.0 - r + 1) * 3 + (x.1 - c + 1);
            let i = if idx < 4 { idx } else { idx - 1 };
            assert(0 <= i < 8 && x == (r + offset(i).0, c + offset(i).1));
        }
    }
}

/// Only the dimensions decide the neighbour list.
pub proof fn lemma_neighbors_same_dims(v: GameView, w: GameView, r: int, c: int, k: nat)
    requires
        v.rows == w.rows,
        v.cols == w.cols,
    ensures
        v.neighbors_upto(r, c, k) == w.neighbors_upto(r, c, k),
    decreases k,
{
    if k > 0 {
        lemma_neighbors_same_dims(v, w, r, c, (k - 1) as nat);
    }
}

/// Boards with the same mine layout count the same mines on a list of
/// their cells.
pub proof fn lemma_mines_in_same_layout(v: GameView, w: GameView, list: Seq<(int, int)>)
    requires
        v.same_layout(w),
        forall|m: int| 0 <= m < list.len() ==> v.in_bounds(#[trigger] list[m].0, list[m].1),
    ensures
        v.mines_in(list) == w.mines_in(list),
    decreases list.len(),
{
    if list.len() > 0 {
        let s = list.drop_last();
        assert forall|m: int| 0 <= m < s.len() implies v.in_bounds(#[trigger] s[m].0, s[m].1) by {
            assert(s[m] == list[m]);
        }
        lemma_mines_in_same_layout(v, w, s);
        let x = list.last();
        assert(v.in_bounds(list[list.len() - 1].0, list[list.len() - 1].1));
        assert(v.cells[x.0][x.1].mined == w.cells[x.0][x.1].mined);
    }
}

/// No cell of a list with no mines on it is mined.
pub proof fn lemma_mines_in_zero(v: GameView, list: Seq<(int, int)>)
    requires
        v.mines_in(list) == 0,
    ensures
        forall|m: int| 0 <= m < list.len() ==> !v.cell(#[trigger] list[m].0, list[m].1).mined,
    decreases list.len(),
{
    if list.len() > 0 {
        let s = list.drop_last();
        lemma_mines_in_zero(v, s);
        assert forall|m: int| 0 <= m < list.len() implies !v.cell(#[trigger] list[m].0, list[m].1).mined by {
            if m < s.len() {
                assert(s[m] == list[m]);
            }
        }
    }
}

/// Boards with the same mine layout have the same neighbour counts.
pub proof fn lemma_mines_around_same_layout(v: GameView, w: GameView, r: int, c: int)
    requires
        v.same_layout(w),
    ensures
        v.mines_around(r, c) == w.mines_around(r, c),
{
    lemma_neighbors_same_dims(v, w, r, c, 8);
    lemma_neighbors_upto(v, r, c, 8);
    let list = v.neighbor_list(r, c);
    assert forall|m: int| 0 <= m < list.len() implies v.in_bounds(#[trigger] list[m].0, list[m].1) by {
        assert(list.contains(list[m]));
    }
    lemma_mines_in_same_layout(v, w, list);
}

/// A board whose mine layout, coordinates and dimensions agree with a
/// well-formed one has the same neighbour counts and mine total.
pub proof fn lemma_same_board_counts(v: GameView, w: GameView)
    requires
        v.wf(),
        w.same_board(v),
        w.cells.len() == w.rows,
        forall|r: int| 0 <= r < w.rows ==> #[trigger] w.cells[r].len() == w.cols,
    ensures
        forall|r: int, c: int| w.in_bounds(r, c) ==> #[trigger] w.cells[r][c].neighbors == w.mines_around(r, c),
        forall|r: int, c: int| w.in_bounds(r, c) ==> #[trigger] w.cells[r][c].row == r && w.cells[r][c].col == c,
        count_cells(w.cells, is_mined_cell()) == w.mines,
{
    assert forall|r: int, c: int| w.in_bounds(r, c) implies #[trigger] w.cells[r][c].neighbors == w.mines_around(r, c) by {
        lemma_mines_around_same_layout(v, w, r, c);
    }
    assert forall|r: int, c: int| w.in_bounds(r, c) implies #[trigger] w.cells[r][c].row == r && w.cells[r][c].col == c by {
        assert(v.in_bounds(r, c));
    }
    assert forall|r: int| 0 <= r < v.cells.len() implies #[trigger] v.cells[r].len() == w.cells[r].len() by {}
    assert forall|r: int, c: int| 0 <= r < v.cells.len() && 0 <= c < v.cells[r].len() && is_mined_cell()(#[trigger] v.cells[r][c])
        implies is_mined_cell()(w.cells[r][c]) by {
        assert(v.in_bounds(r, c));
    }
    lemma_cells_mono(v.cells, w.cells, is_mined_cell(), is_mined_cell());
    assert forall|r: int, c: int| 0 <= r < w.cells.len() && 0 <= c < w.cells[r].len() && is_mined_cell()(#[trigger] w.cells[r][c])
        implies is_mined_cell()(v.cells[r][c]) by {
        assert(v.in_bounds(r, c));
    }
    lemma_cells_mono(w.cells, v.cells, is_mined_cell(), is_mined_cell());
}

/// A cascade path extends to a hidden neighbour of a mine-free cell with
/// no mined neighbour at its end.
pub proof fn lemma_path_extend(g: GameView, p: Seq<(int, int)>, n: (int, int))
    requires
        g.is_cascade_path(p),
        !g.cells[p.last().0][p.last().1].mined,
        g.cells[p.last().0][p.last().1].neighbors == 0,
        is_neighbor(p.last(), n),
        g.in_bounds(n.0, n.1),
        g.cells[n.0][n.1].hidden,
    ensures
        g.is_cascade_path(p.push(n)),
        p.push(n).last() == n,
        p.push(n)[0] == p[0],
{
    let q = p.push(n);
    assert forall|m: int| 0 <= m < q.len() implies g.in_bounds(#[trigger] q[m].0, q[m].1) by {
        if m < p.len() {
            assert(q[m] == p[m]);
            assert(g.in_bounds(p[m].0, p[m].1));
        }
    }
    assert forall|m: int| 0 <= m < q.len() - 1 implies {
        &&& !g.cells[#[trigger] q[m].0][q[m].1].mined
        &&& g.cells[q[m].0][q[m].1].neighbors == 0
        &&& is_neighbor(q[m], q[m + 1])
    } by {
        assert(q[m] == p[m]);
        if m < p.len() - 1 {
            assert(q[m + 1] == p[m + 1]);
            assert(!g.cells[p[m].0][p[m].1].mined);
        }
    }
    assert forall|m: int| 1 <= m < q.len() implies g.cells[#[trigger] q[m].0][q[m].1].hidden by {
        if m < p.len() {
            assert(q[m] == p[m]);
            assert(g.cells[p[m].0][p[m].1].hidden);
        }
    }
}

/// The cells that digging `s` reveals are closed under the cascade: a
/// reached cell with no mined neighbour, itself mine-free, passes the reveal
/// on to each hidden cell of the board that touches it.
pub proof fn lemma_cascade_closed(g: GameView, s: (int, int), x: (int, int), y: (int, int))
    requires
        g.cascades_to(s, x),
        !g.cells[x.0][x.1].mined,
        g.cells[x.0][x.1].neighbors == 0,
        g.in_bounds(y.0, y.1),
        is_neighbor(x, y),
        g.cells[y.0][y.1].hidden,
    ensures
        g.cascades_to(s, y),
{
    let p = choose|p: Seq<(int, int)>| #[trigger] g.is_cascade_path(p) && p[0] == s && p.last() == x;
    lemma_path_extend(g, p, y);
    let q = p.push(y);
    assert(g.is_cascade_path(q) && q[0] == s && q.last() == y);
}

/// Where, cell by cell, `u` holds exactly when one of the disjoint `p` and
/// `q` does, a row has as many `u` cells as `p` and `q` cells together.
pub proof fn lemma_row_split(
    row: Seq<CellView>,
    u: spec_fn(CellView) -> bool,
    p: spec_fn(CellView) -> bool,
    q: spec_fn(CellView) -> bool,
)
    requires
        forall|i: int| 0 <= i < row.len() ==> !(p(#[trigger] row[i]) && q(row[i])),
        forall|i: int| 0 <= i < row.len() ==> u(#[trigger] row[i]) == (p(row[i]) || q(row[i])),
    ensures
        count_row(row, u) == count_row(row, p) + count_row(row, q),
    decreases row.len(),
{
    if row.len() > 0 {
        let s = row.drop_last();
        assert forall|i: int| 0 <= i < s.len() implies !(p(#[trigger] s[i]) && q(s[i])) by {
            assert(s[i] == row[i]);
        }
        assert forall|i: int| 0 <= i < s.len() implies u(#[trigger] s[i]) == (p(s[i]) || q(s[i])) by {
            assert(s[i] == row[i]);
        }
        lemma_row_split(s, u, p, q);
        assert(row.last() == row[row.len() - 1]);
    }
}

/// Where, cell by cell, `u` holds exactly when one of the disjoint `p` and
/// `q` does, a grid has as many `u` cells as `p` and `q` cells together.
pub proof fn lemma_cells_split(
    cells: Seq<Seq<CellView>>,
    u: spec_fn(CellView) -> bool,
    p: spec_fn(CellView) -> bool,
    q: spec_fn(CellView) -> bool,
)
    requires
        forall|r: int, c: int|
            0 <= r < cells.len() && 0 <= c < cells[r].len() ==> !(p(#[trigger] cells[r][c]) && q(cells[r][c])),
        forall|r: int, c: int|
            0 <= r < cells.len() && 0 <= c < cells[r].len() ==> u(#[trigger] cells[r][c]) == (p(cells[r][c])
                || q(cells[r][c])),
    ensures
        count_cells(cells, u) == count_cells(cells, p) + count_cells(cells, q),
    decreases cells.len(),
{
    if cells.len() > 0 {
        let s = cells.drop_last();
        let n = s.len() as int;
        assert forall|r: int, c: int| 0 <= r < s.len() && 0 <= c < s[r].len() implies !(p(#[trigger] s[r][c]) && q(
            s[r][c],
        )) by {
            assert(s[r] == cells[r]);
        }
        assert forall|r: int, c: int| 0 <= r < s.len() && 0 <= c < s[r].len() implies u(#[trigger] s[r][c]) == (p(
            s[r][c],
        ) || q(s[r][c])) by {
            assert(s[r] == cells[r]);
        }
        lemma_cells_split(s, u, p, q);
        let last = cells.last();
        assert(last == cells[n]);
        assert forall|i: int| 0 <= i < last.len() implies !(p(#[trigger] last[i]) && q(last[i])) by {
            assert(last[i] == cells[n][i]);
        }
        assert forall|i: int| 0 <= i < last.len() implies u(#[trigger] last[i]) == (p(last[i]) || q(last[i])) by {
            assert(last[i] == cells[n][i]);
        }
        lemma_row_split(last, u, p, q);
    }
}

/// In a well-formed game the cells left to reveal are exactly its hidden
/// mine-free cells.
pub proof fn lemma_remaining_is_hidden_safe(v: GameView)
    requires
        v.wf(),
    ensures
        v.remaining() == count_cells(v.cells, is_hidden_safe_cell()),
{
    assert forall|r: int, c: int| 0 <= r < v.cells.len() && 0 <= c < v.cols
        implies is_mined_cell()(#[trigger] v.cells[r][c]) || is_safe_cell()(v.cells[r][c]) by {}
    lemma_cells_total(v.cells, v.cols, is_mined_cell(), is_safe_cell());
    lemma_cells_split(v.cells, is_safe_cell(), is_revealed_safe_cell(), is_hidden_safe_cell());
}

/// A well-formed game with every cell hidden has all its mine-free cells
/// left to reveal.
pub proof fn lemma_all_hidden_remaining(v: GameView)
    requires
        v.wf(),
        forall|r: int, c: int| v.in_bounds(r, c) ==> (#[trigger] v.cells[r][c]).hidden,
    ensures
        v.remaining() == v.rows * v.cols - v.mines,
{
    assert forall|r: int, c: int| 0 <= r < v.cells.len() && 0 <= c < v.cells[r].len()
        implies is_mined_cell()(#[trigger] v.cells[r][c]) == (is_mined_cell()(v.cells[r][c])
            || is_revealed_safe_cell()(v.cells[r][c])) by {
        assert(v.in_bounds(r, c));
    }
    lemma_cells_split(v.cells, is_mined_cell(), is_mined_cell(), is_revealed_safe_cell());
}

/// Where every revealed mine-free cell of `v` is still one in `w`, `w` has
/// no more cells left to reveal than `v`; where the two have the same
/// revealed mine-free cells, the same number.
pub proof fn lemma_remaining_mono(v: GameView, w: GameView)
    requires
        v.wf(),
        w.wf(),
        w.same_board(v),
        forall|r: int, c: int|
            v.in_bounds(r, c) && !(#[trigger] v.cells[r][c]).hidden ==> !w.cells[r][c].hidden,
    ensures
        w.remaining() <= v.remaining(),
        (forall|r: int, c: int| v.in_bounds(r, c) ==> (#[trigger] v.cells[r][c]).hidden == w.cells[r][c].hidden)
            ==> w.remaining() == v.remaining(),
{
    assert forall|r: int| 0 <= r < v.cells.len() implies #[trigger] v.cells[r].len() == w.cells[r].len() by {}
    assert forall|r: int, c: int| 0 <= r < v.cells.len() && 0 <= c < v.cells[r].len() && is_revealed_safe_cell()(
        #[trigger] v.cells[r][c],
    ) implies is_revealed_safe_cell()(w.cells[r][c]) by {
        assert(v.in_bounds(r, c));
    }
    lemma_cells_mono(v.cells, w.cells, is_revealed_safe_cell(), is_revealed_safe_cell());
    if forall|r: int, c: int| v.in_bounds(r, c) ==> (#[trigger] v.cells[r][c]).hidden == w.cells[r][c].hidden {
        assert forall|r: int| 0 <= r < w.cells.len() implies #[trigger] w.cells[r].len() == v.cells[r].len() by {}
        assert forall|r: int, c: int| 0 <= r < w.cells.len() && 0 <= c < w.cells[r].len() && is_revealed_safe_cell()(
            #[trigger] w.cells[r][c],
        ) implies is_revealed_safe_cell()(v.cells[r][c]) by {
            assert(v.in_bounds(r, c));
        }
        lemma_cells_mono(w.cells, v.cells, is_revealed_safe_cell(), is_revealed_safe_cell());
    }
}

} // verus!
