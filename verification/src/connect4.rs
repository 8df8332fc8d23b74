//! A connect-style board game: `ROWS` by `COLUMNS` cells, gravity in
//! every column, and `CONNECT` aligned pieces to win.
//!
//! The board is modelled as a grid of cells (`1` for X, `-1` for O,
//! `0` for empty).  Terminal detection scans every row, every column
//! and every diagonal of both directions, in that order, for a run of
//! `CONNECT` equal pieces; the scan is specified line by line with
//! `line_scan` and the lemmas at the bottom relate it to the natural
//! reading "some line contains a run" and prove the scan symmetric
//! under swapping the two players.

use vstd::prelude::*;

use crate::mcts::GeneralGame;

verus! {

/// A cell holds one of the two players' pieces, or nothing.
pub open spec fn cell_ok(v: i8) -> bool {
    v == 0i8 || v == 1i8 || v == -1i8
}

/// The grid has `rows` rows of `cols` valid cells each.
pub open spec fn grid_wf(g: Seq<Seq<i8>>, rows: int, cols: int) -> bool {
    &&& g.len() == rows
    &&& forall|r: int| 0 <= r < rows ==> (#[trigger] g[r]).len() == cols
    &&& forall|r: int, c: int| 0 <= r < rows && 0 <= c < cols ==> cell_ok(#[trigger] g[r][c])
}

/// The all-empty grid.
pub open spec fn empty_grid(rows: int, cols: int) -> Seq<Seq<i8>> {
    Seq::new(rows as nat, |r: int| Seq::new(cols as nat, |c: int| 0i8))
}

/// The counter scan over one line, from position `i` with the current
/// run lengths of the two players: reports 1 or -1 for the player
/// whose run reaches `k` first, 0 when neither ever does.
pub open spec fn line_scan_from(l: Seq<i8>, k: int, i: int, c1: int, cn: int) -> int
    decreases l.len() - i,
{
    if i < 0 || i >= l.len() {
        0
    } else {
        let c1n = if l[i] == 1i8 {
            c1 + 1
        } else {
            0
        };
        let cnn = if l[i] == -1i8 {
            cn + 1
        } else {
            0
        };
        if c1n >= k {
            1
        } else if cnn >= k {
            -1
        } else {
            line_scan_from(l, k, i + 1, c1n, cnn)
        }
    }
}

/// The scan of one whole line.
pub open spec fn line_scan(l: Seq<i8>, k: int) -> int {
    line_scan_from(l, k, 0, 0, 0)
}

/// Column `c` of the grid, top to bottom.
pub open spec fn col_line(g: Seq<Seq<i8>>, c: int, rows: int) -> Seq<i8> {
    Seq::new(rows as nat, |r: int| g[r][c])
}

/// The first column of the rising diagonal whose cells satisfy
/// row + column == d.
pub open spec fn diag_up_start(d: int, rows: int) -> int {
    if d >= rows {
        d - (rows - 1)
    } else {
        0
    }
}

/// The last column of that rising diagonal.
pub open spec fn diag_up_end(d: int, cols: int) -> int {
    if d < cols {
        d
    } else {
        cols - 1
    }
}

/// The rising diagonal with row + column == d, in column order.
pub open spec fn diag_up_line(g: Seq<Seq<i8>>, d: int, rows: int, cols: int) -> Seq<i8> {
    let c0 = diag_up_start(d, rows);
    let c1 = diag_up_end(d, cols);
    Seq::new((c1 - c0 + 1) as nat, |i: int| g[d - (c0 + i)][c0 + i])
}

/// The first column of the falling diagonal whose cells satisfy
/// column - row == o.
pub open spec fn diag_down_start(o: int) -> int {
    if o > 0 {
        o
    } else {
        0
    }
}

/// The last column of that falling diagonal.
pub open spec fn diag_down_end(o: int, rows: int, cols: int) -> int {
    if rows - 1 + o < cols - 1 {
        rows - 1 + o
    } else {
        cols - 1
    }
}

/// The falling diagonal with column - row == o, in column order.
pub open spec fn diag_down_line(g: Seq<Seq<i8>>, o: int, rows: int, cols: int) -> Seq<i8> {
    let c0 = diag_down_start(o);
    let c1 = diag_down_end(o, rows, cols);
    Seq::new((c1 - c0 + 1) as nat, |i: int| g[(c0 + i) - o][c0 + i])
}

/// How many diagonals of each direction are long enough to hold a run
/// of `k`.
pub open spec fn num_diags(rows: int, cols: int, k: int) -> int {
    if rows + cols - 2 * k + 1 > 0 {
        rows + cols - 2 * k + 1
    } else {
        0
    }
}

/// Every line the terminal scan inspects, in scan order: the rows, the
/// columns, the rising diagonals, the falling diagonals.
pub open spec fn lines_of(g: Seq<Seq<i8>>, rows: int, cols: int, k: int) -> Seq<Seq<i8>> {
    Seq::new(rows as nat, |r: int| g[r]) + Seq::new(cols as nat, |c: int| col_line(g, c, rows))
        + Seq::new(num_diags(rows, cols, k) as nat, |i: int| diag_up_line(g, k - 1 + i, rows, cols))
        + Seq::new(
        num_diags(rows, cols, k) as nat,
        |i: int| diag_down_line(g, (k - rows) + i, rows, cols),
    )
}

/// The value of the first line whose scan is decided, 0 when none is.
pub open spec fn first_nonzero(ls: Seq<Seq<i8>>, k: int, i: int) -> int
    decreases ls.len() - i,
{
    if i < 0 || i >= ls.len() {
        0
    } else if line_scan(ls[i], k) != 0 {
        line_scan(ls[i], k)
    } else {
        first_nonzero(ls, k, i + 1)
    }
}

/// The terminal score of a grid: the first decided line, in scan order.
pub open spec fn score_of_grid(g: Seq<Seq<i8>>, rows: int, cols: int, k: int) -> int {
    first_nonzero(lines_of(g, rows, cols, k), k, 0)
}

/// A decided line keeps the scan's value.
proof fn lemma_first_nonzero_hit(ls: Seq<Seq<i8>>, k: int, i: int)
    requires
        0 <= i < ls.len(),
        line_scan(ls[i], k) != 0,
    ensures
        first_nonzero(ls, k, i) == line_scan(ls[i], k),
{
}

/// An undecided line passes the scan on.
proof fn lemma_first_nonzero_step(ls: Seq<Seq<i8>>, k: int, i: int)
    requires
        0 <= i < ls.len(),
        line_scan(ls[i], k) == 0,
    ensures
        first_nonzero(ls, k, i) == first_nonzero(ls, k, i + 1),
{
}

/// Scans one line for a run of `k` equal pieces; the executable form
/// of `line_scan`.
fn scan_line(line: &Vec<i8>, k: usize) -> (r: i8)
    requires
        k >= 1,
    ensures
        r as int == line_scan(line@, k as int),
        -1 <= r as int <= 1,
{
    let mut c1: usize = 0;
    let mut cn: usize = 0;
    let mut i: usize = 0;
    while i < line.len()
        invariant
            i <= line@.len(),
            c1 <= i,
            cn <= i,
            c1 < k,
            cn < k,
            line_scan(line@, k as int) == line_scan_from(
                line@,
                k as int,
                i as int,
                c1 as int,
                cn as int,
            ),
        decreases line@.len() - i,
    {
        let v = line[i];
        let c1n: usize = if v == 1 {
            c1 + 1
        } else {
            0
        };
        let cnn: usize = if v == -1 {
            cn + 1
        } else {
            0
        };
        if c1n >= k {
            return 1;
        }
        if cnn >= k {
            return -1;
        }
        c1 = c1n;
        cn = cnn;
        i = i + 1;
    }
    0
}

/// The columns among the first `n` whose top cell is free, in order:
/// the legal moves of a board with gravity.
pub open spec fn avail_up_to(g: Seq<Seq<i8>>, n: int) -> Seq<usize>
    decreases n,
{
    if n <= 0 {
        Seq::empty()
    } else if g[0][n - 1] == 0i8 {
        avail_up_to(g, n - 1) + seq![(n - 1) as usize]
    } else {
        avail_up_to(g, n - 1)
    }
}

/// A column is legal exactly when its top cell is free.
pub proof fn lemma_avail_contains(g: Seq<Seq<i8>>, n: int, x: usize)
    requires
        0 <= n <= usize::MAX,
    ensures
        avail_up_to(g, n).contains(x) <==> ((x as int) < n && g[0][x as int] == 0i8),
    decreases n,
{
    if n > 0 {
        lemma_avail_contains(g, n - 1, x);
        let prev = avail_up_to(g, n - 1);
        if g[0][n - 1] == 0i8 {
            let cur = prev + seq![(n - 1) as usize];
            if cur.contains(x) {
                let i = choose|i: int| 0 <= i < cur.len() && cur[i] == x;
                if i < prev.len() {
                    assert(prev[i] == x);
                    assert(prev.contains(x));
                } else {
                    assert(x == (n - 1) as usize);
                }
            }
            if (x as int) < n && g[0][x as int] == 0i8 {
                if (x as int) < n - 1 {
                    let i = choose|i: int| 0 <= i < prev.len() && prev[i] == x;
                    assert(cur[i] == x);
                    assert(cur.contains(x));
                } else {
                    assert(cur[prev.len() as int] == x);
                    assert(cur.contains(x));
                }
            }
        }
    }
}

/// How many cells of the first `n` in a row are free.
pub open spec fn free_in_row(row: Seq<i8>, n: int) -> nat
    decreases n,
{
    if n <= 0 {
        0
    } else {
        free_in_row(row, n - 1) + (if row[n - 1] == 0i8 {
            1nat
        } else {
            0nat
        })
    }
}

/// How many cells of the grid are free.
pub open spec fn free_in_grid(g: Seq<Seq<i8>>, rows: int, cols: int) -> nat
    decreases rows,
{
    if rows <= 0 {
        0
    } else {
        free_in_grid(g, rows - 1, cols) + free_in_row(g[rows - 1], cols)
    }
}

proof fn lemma_free_row_congruent(r1: Seq<i8>, r2: Seq<i8>, n: int)
    requires
        forall|j: int| 0 <= j < n ==> r1[j] == r2[j],
    ensures
        free_in_row(r1, n) == free_in_row(r2, n),
    decreases n,
{
    if n > 0 {
        lemma_free_row_congruent(r1, r2, n - 1);
    }
}

proof fn lemma_free_grid_congruent(g1: Seq<Seq<i8>>, g2: Seq<Seq<i8>>, rows: int, cols: int)
    requires
        forall|r: int| 0 <= r < rows ==> g1[r] == g2[r],
    ensures
        free_in_grid(g1, rows, cols) == free_in_grid(g2, rows, cols),
    decreases rows,
{
    if rows > 0 {
        lemma_free_grid_congruent(g1, g2, rows - 1, cols);
    }
}

proof fn lemma_free_row_update(row: Seq<i8>, n: int, c: int, p: i8)
    requires
        0 <= c < n <= row.len(),
        row[c] == 0i8,
        p != 0i8,
    ensures
        free_in_row(row.update(c, p), n) + 1 == free_in_row(row, n),
    decreases n,
{
    let row2 = row.update(c, p);
    if c == n - 1 {
        lemma_free_row_congruent(row, row2, n - 1);
    } else {
        lemma_free_row_update(row, n - 1, c, p);
    }
}

/// Filling one free cell lowers the free count by exactly one.
pub proof fn lemma_free_grid_update(
    g: Seq<Seq<i8>>,
    rows: int,
    cols: int,
    r0: int,
    c0: int,
    p: i8,
)
    requires
        0 <= r0 < rows <= g.len(),
        0 <= c0 < cols <= g[r0].len(),
        g[r0][c0] == 0i8,
        p != 0i8,
    ensures
        free_in_grid(g.update(r0, g[r0].update(c0, p)), rows, cols) + 1 == free_in_grid(
            g,
            rows,
            cols,
        ),
    decreases rows,
{
    let g2 = g.update(r0, g[r0].update(c0, p));
    if r0 == rows - 1 {
        lemma_free_row_update(g[r0], cols, c0, p);
        lemma_free_grid_congruent(g, g2, rows - 1, cols);
    } else {
        lemma_free_grid_update(g, rows - 1, cols, r0, c0, p);
        assert(g2[rows - 1] == g[rows - 1]);
    }
}

/// The lowest row at or below `r` whose cell in column `c` is free,
/// or -1 when the column is full up to `r`; rows grow downward, so the
/// search starts at the bottom.
pub open spec fn lowest_empty(g: Seq<Seq<i8>>, c: int, r: int) -> int
    decreases r + 1,
{
    if r < 0 {
        -1
    } else if g[r][c] == 0i8 {
        r
    } else {
        lowest_empty(g, c, r - 1)
    }
}

/// A column with a free top cell always has a lowest free cell.
pub proof fn lemma_lowest_empty_some(g: Seq<Seq<i8>>, c: int, r: int)
    requires
        0 <= r,
        g[0][c] == 0i8,
    ensures
        0 <= lowest_empty(g, c, r) <= r,
        g[lowest_empty(g, c, r)][c] == 0i8,
    decreases r,
{
    if g[r][c] != 0i8 {
        lemma_lowest_empty_some(g, c, r - 1);
    }
}

/// The grid after dropping a piece of `p` in column `index`: the piece
/// lands in the lowest free cell; a full column leaves the grid as is.
pub open spec fn apply_grid(g: Seq<Seq<i8>>, rows: int, index: int, p: i8) -> Seq<Seq<i8>> {
    let r = lowest_empty(g, index, rows - 1);
    if r >= 0 {
        g.update(r, g[r].update(index, p))
    } else {
        g
    }
}

/// The board: a grid of `ROWS` rows by `COLUMNS` columns of cells,
/// with `CONNECT` aligned pieces deciding the game.
#[derive(Debug, Clone, PartialEq)]
pub struct Connect4<const ROWS: usize, const COLUMNS: usize, const CONNECT: usize> {
    pub board: Vec<Vec<i8>>,
}

impl<const ROWS: usize, const COLUMNS: usize, const CONNECT: usize> Connect4<
    ROWS,
    COLUMNS,
    CONNECT,
> {
    /// The board dimensions are positive and small enough that the
    /// index arithmetic over them can never overflow a usize.
    pub open spec fn dims_ok() -> bool {
        &&& 1 <= ROWS <= 0x10000000
        &&& 1 <= COLUMNS <= 0x10000000
        &&& 1 <= CONNECT <= 0x10000000
    }

    /// The abstract grid held by the board.
    pub open spec fn grid(&self) -> Seq<Seq<i8>> {
        self.board.deep_view()
    }

    /// The board holds a full grid of valid cells.
    pub open spec fn well_formed(&self) -> bool {
        &&& Self::dims_ok()
        &&& grid_wf(self.grid(), ROWS as int, COLUMNS as int)
    }

    /// The all-empty board.
    pub fn empty() -> (r: Self)
        requires
            Self::dims_ok(),
        ensures
            r.well_formed(),
            r.grid() == empty_grid(ROWS as int, COLUMNS as int),
    {
        let mut board: Vec<Vec<i8>> = Vec::new();
        let mut r: usize = 0;
        while r < ROWS
            invariant
                r <= ROWS,
                board@.len() == r,
                forall|i: int|
                    0 <= i < r ==> (#[trigger] board@[i])@ == Seq::new(
                        COLUMNS as nat,
                        |c: int| 0i8,
                    ),
            decreases ROWS - r,
        {
            let mut rowv: Vec<i8> = Vec::new();
            let mut c: usize = 0;
            while c < COLUMNS
                invariant
                    c <= COLUMNS,
                    rowv@.len() == c,
                    forall|j: int| 0 <= j < c ==> rowv@[j] == 0i8,
                decreases COLUMNS - c,
            {
                rowv.push(0);
                c = c + 1;
            }
            proof {
                assert(rowv@ =~= Seq::new(COLUMNS as nat, |cc: int| 0i8));
            }
            board.push(rowv);
            r = r + 1;
        }
        let result = Connect4 { board };
        proof {
            assert(result.grid() =~~= empty_grid(ROWS as int, COLUMNS as int));
        }
        result
    }
}

} // verus!

verus! {

impl<const ROWS: usize, const COLUMNS: usize, const CONNECT: usize> GeneralGame for Connect4<
    ROWS,
    COLUMNS,
    CONNECT,
> {
    open spec fn wf(&self) -> bool {
        self.well_formed()
    }

    open spec fn model(&self) -> Seq<Seq<i8>> {
        self.grid()
    }

    open spec fn score_spec(&self) -> int {
        score_of_grid(self.grid(), ROWS as int, COLUMNS as int, CONNECT as int)
    }

    open spec fn avail_spec(&self) -> Seq<usize> {
        avail_up_to(self.grid(), COLUMNS as int)
    }

    open spec fn free_spec(&self) -> nat {
        free_in_grid(self.grid(), ROWS as int, COLUMNS as int)
    }

    open spec fn apply_spec(&self, index: usize, player: i8) -> Seq<Seq<i8>> {
        apply_grid(self.grid(), ROWS as int, index as int, player)
    }

    /// Scans every row, every column and the diagonals of both
    /// directions, in that order, and reports the first decided line.
    fn get_score(&self) -> (r: i8) {
        let ghost g = self.grid();
        let ghost rows = ROWS as int;
        let ghost cols = COLUMNS as int;
        let ghost k = CONNECT as int;
        let ghost ls = lines_of(g, rows, cols, k);
        let nd: usize = if 2 * CONNECT <= ROWS + COLUMNS {
            ROWS + COLUMNS + 1 - 2 * CONNECT
        } else {
            0
        };
        proof {
            assert(nd as int == num_diags(rows, cols, k));
            assert(ls.len() == rows + cols + 2 * num_diags(rows, cols, k));
        }

        // Rows.
        let mut row: usize = 0;
        while row < ROWS
            invariant
                self.well_formed(),
                g == self.grid() && rows == ROWS as int && cols == COLUMNS as int && k
                    == CONNECT as int && ls == lines_of(g, rows, cols, k),
                row <= ROWS,
                first_nonzero(ls, k, 0) == first_nonzero(ls, k, row as int),
            decreases ROWS - row,
        {
            proof {
                assert(ls[row as int] == g[row as int]);
                assert((#[trigger] self.board@[row as int]).deep_view() =~= self.board@[
                row as int]@);
                assert(g[row as int] == self.board@[row as int]@);
            }
            let s = scan_line(&self.board[row], CONNECT);
            if s != 0 {
                proof {
                    lemma_first_nonzero_hit(ls, k, row as int);
                }
                return s;
            }
            proof {
                lemma_first_nonzero_step(ls, k, row as int);
            }
            row = row + 1;
        }

        // Columns.
        let mut col: usize = 0;
        while col < COLUMNS
            invariant
                self.well_formed(),
                g == self.grid() && rows == ROWS as int && cols == COLUMNS as int && k
                    == CONNECT as int && ls == lines_of(g, rows, cols, k),
                col <= COLUMNS,
                first_nonzero(ls, k, 0) == first_nonzero(ls, k, rows + col),
            decreases COLUMNS - col,
        {
            let mut line: Vec<i8> = Vec::new();
            let mut r: usize = 0;
            while r < ROWS
                invariant
                    self.well_formed(),
                    g == self.grid(),
                    col < COLUMNS,
                    r <= ROWS,
                    line@.len() == r as int,
                    forall|t: int| 0 <= t < r ==> #[trigger] line@[t] == g[t][col as int],
                decreases ROWS - r,
            {
                proof {
                    assert((#[trigger] self.board@[r as int]).deep_view() =~= self.board@[r as int]@);
                    assert(g[r as int] == self.board@[r as int]@);
                }
                let cell = self.board[r][col];
                line.push(cell);
                r = r + 1;
            }
            proof {
                assert(line@ =~= col_line(g, col as int, rows));
                assert(ls[rows + col] == col_line(g, col as int, rows));
            }
            let s = scan_line(&line, CONNECT);
            if s != 0 {
                proof {
                    lemma_first_nonzero_hit(ls, k, rows + col);
                }
                return s;
            }
            proof {
                lemma_first_nonzero_step(ls, k, rows + col);
            }
            col = col + 1;
        }

        // Rising diagonals: cells with row + column constant.
        let mut i: usize = 0;
        while i < nd
            invariant
                self.well_formed(),
                g == self.grid() && rows == ROWS as int && cols == COLUMNS as int && k
                    == CONNECT as int && ls == lines_of(g, rows, cols, k),
                nd as int == num_diags(rows, cols, k),
                ls.len() == rows + cols + 2 * num_diags(rows, cols, k),
                i <= nd,
                first_nonzero(ls, k, 0) == first_nonzero(ls, k, rows + cols + i),
            decreases nd - i,
        {
            let d: usize = CONNECT - 1 + i;
            let ghost dd = d as int;
            let c0: usize = if d >= ROWS {
                d - (ROWS - 1)
            } else {
                0
            };
            let cend: usize = if d < COLUMNS {
                d
            } else {
                COLUMNS - 1
            };
            proof {
                assert(c0 as int == diag_up_start(dd, rows));
                assert(cend as int == diag_up_end(dd, cols));
                assert(c0 <= cend);
            }
            let mut line: Vec<i8> = Vec::new();
            let mut c: usize = c0;
            while c <= cend
                invariant
                    self.well_formed(),
                    g == self.grid(),
                    rows == ROWS as int,
                    c0 as int == diag_up_start(dd, rows),
                    cend as int == diag_up_end(dd, COLUMNS as int),
                    cend < COLUMNS,
                    dd == d as int,
                    CONNECT <= d + 1 <= ROWS + COLUMNS - 1,
                    c0 <= c <= cend + 1,
                    dd - c0 <= rows - 1,
                    line@.len() == c - c0,
                    forall|t: int|
                        0 <= t < c - c0 ==> #[trigger] line@[t] == g[dd - (c0 + t)][c0 + t],
                decreases cend + 1 - c,
            {
                let rr: usize = d - c;
                proof {
                    assert(dd - c as int <= dd - c0);
                    assert((#[trigger] self.board@[rr as int]).deep_view() =~= self.board@[
                    rr as int]@);
                    assert(g[rr as int] == self.board@[rr as int]@);
                }
                let cell = self.board[rr][c];
                line.push(cell);
                c = c + 1;
            }
            proof {
                assert(line@ =~= diag_up_line(g, dd, rows, cols));
                assert(ls[rows + cols + i] == diag_up_line(g, k - 1 + i, rows, cols));
            }
            let s = scan_line(&line, CONNECT);
            if s != 0 {
                proof {
                    lemma_first_nonzero_hit(ls, k, rows + cols + i);
                }
                return s;
            }
            proof {
                lemma_first_nonzero_step(ls, k, rows + cols + i);
            }
            i = i + 1;
        }

        // Falling diagonals: cells with column - row constant.
        let mut i2: usize = 0;
        while i2 < nd
            invariant
                self.well_formed(),
                g == self.grid() && rows == ROWS as int && cols == COLUMNS as int && k
                    == CONNECT as int && ls == lines_of(g, rows, cols, k),
                nd as int == num_diags(rows, cols, k),
                ls.len() == rows + cols + 2 * num_diags(rows, cols, k),
                i2 <= nd,
                first_nonzero(ls, k, 0) == first_nonzero(ls, k, rows + cols + nd + i2),
            decreases nd - i2,
        {
            let ghost o = k - rows + i2;
            let c0: usize = if CONNECT + i2 >= ROWS {
                CONNECT + i2 - ROWS
            } else {
                0
            };
            let cend: usize = if CONNECT + i2 - 1 < COLUMNS {
                CONNECT + i2 - 1
            } else {
                COLUMNS - 1
            };
            proof {
                assert(c0 as int == diag_down_start(o));
                assert(cend as int == diag_down_end(o, rows, cols));
                assert(c0 <= cend);
            }
            let mut line: Vec<i8> = Vec::new();
            let mut c: usize = c0;
            while c <= cend
                invariant
                    self.well_formed(),
                    g == self.grid(),
                    rows == ROWS as int,
                    o == k - rows + i2,
                    k == CONNECT as int,
                    i2 < nd,
                    nd as int == num_diags(rows, cols, k),
                    cols == COLUMNS as int,
                    c0 as int == diag_down_start(o),
                    cend as int == diag_down_end(o, rows, cols),
                    cend < COLUMNS,
                    c0 <= c <= cend + 1,
                    line@.len() == c - c0,
                    forall|t: int|
                        0 <= t < c - c0 ==> #[trigger] line@[t] == g[(c0 + t) - o][c0 + t],
                decreases cend + 1 - c,
            {
                let rr: usize = c + ROWS - CONNECT - i2;
                proof {
                    assert(rr as int == c as int - o);
                    assert(0 <= c as int - o <= rows - 1);
                    assert((#[trigger] self.board@[rr as int]).deep_view() =~= self.board@[
                    rr as int]@);
                    assert(g[rr as int] == self.board@[rr as int]@);
                }
                let cell = self.board[rr][c];
                line.push(cell);
                c = c + 1;
            }
            proof {
                assert(line@ =~= diag_down_line(g, o, rows, cols));
                assert(ls[rows + cols + nd + i2] == diag_down_line(g, (k - rows) + i2, rows, cols));
            }
            let s = scan_line(&line, CONNECT);
            if s != 0 {
                proof {
                    lemma_first_nonzero_hit(ls, k, rows + cols + nd + i2);
                }
                return s;
            }
            proof {
                lemma_first_nonzero_step(ls, k, rows + cols + nd + i2);
            }
            i2 = i2 + 1;
        }
        proof {
            assert(first_nonzero(ls, k, rows + cols + nd + nd) == 0);
        }
        0
    }

    /// Every column whose top cell is still free, in column order.
    fn get_available(&self) -> (r: Vec<usize>) {
        let mut out: Vec<usize> = Vec::new();
        let mut c: usize = 0;
        while c < COLUMNS
            invariant
                self.well_formed(),
                c <= COLUMNS,
                out@ == avail_up_to(self.grid(), c as int),
            decreases COLUMNS - c,
        {
            proof {
                assert((#[trigger] self.board@[0int]).deep_view() =~= self.board@[0int]@);
                assert(self.grid()[0int] == self.board@[0int]@);
            }
            let cell = self.board[0][c];
            if cell == 0 {
                out.push(c);
                proof {
                    assert(out@ =~= avail_up_to(self.grid(), c as int + 1));
                }
            } else {
                proof {
                    assert(out@ =~= avail_up_to(self.grid(), c as int + 1));
                }
            }
            c = c + 1;
        }
        out
    }

    /// Drops a piece in the chosen column: it lands in the lowest free
    /// cell, which the legality of the move guarantees to exist.
    fn update(&mut self, index: usize, player: i8) {
        proof {
            lemma_avail_contains(old(self).grid(), COLUMNS as int, index);
            assert(old(self).grid()[0int][index as int] == 0i8);
        }
        let ghost g0 = self.grid();
        let mut r: usize = ROWS;
        while r > 0
            invariant
                self.well_formed(),
                *self == *old(self),
                g0 == self.grid(),
                r <= ROWS,
                index < COLUMNS,
                player == 1i8 || player == -1i8,
                g0[0int][index as int] == 0i8,
                lowest_empty(g0, index as int, ROWS as int - 1) == lowest_empty(
                    g0,
                    index as int,
                    r as int - 1,
                ),
            decreases r,
        {
            r = r - 1;
            proof {
                assert((#[trigger] self.board@[r as int]).deep_view() =~= self.board@[r as int]@);
                assert(g0[r as int] == self.board@[r as int]@);
            }
            let cell = self.board[r][index];
            if cell == 0 {
                proof {
                    assert(lowest_empty(g0, index as int, r as int) == r as int);
                }
                self.board[r][index] = player;
                proof {
                    assert(self.grid() =~~= g0.update(
                        r as int,
                        g0[r as int].update(index as int, player),
                    ));
                    assert(self.grid() == apply_grid(g0, ROWS as int, index as int, player));
                    lemma_free_grid_update(
                        g0,
                        ROWS as int,
                        COLUMNS as int,
                        r as int,
                        index as int,
                        player,
                    );
                    assert(grid_wf(self.grid(), ROWS as int, COLUMNS as int)) by {
                        assert forall|rr: int, cc: int|
                            0 <= rr < ROWS as int && 0 <= cc < COLUMNS as int implies cell_ok(
                            #[trigger] self.grid()[rr][cc]) by {
                            if rr != r as int || cc != index as int {
                                assert(self.grid()[rr][cc] == g0[rr][cc]);
                            }
                        }
                    }
                }
                return ;
            }
            proof {
                assert(lowest_empty(g0, index as int, r as int) == lowest_empty(
                    g0,
                    index as int,
                    r as int - 1,
                ));
            }
        }
        proof {
            lemma_lowest_empty_some(g0, index as int, ROWS as int - 1);
            assert(false);
        }
    }

    /// A cell-by-cell copy of the board.
    fn clone_game(&self) -> (r: Self) {
        Connect4 { board: copy_grid(&self.board) }
    }
}

/// A cell-by-cell copy of a grid of rows.
pub(crate) fn copy_grid(b: &Vec<Vec<i8>>) -> (r: Vec<Vec<i8>>)
    ensures
        r.deep_view() == b.deep_view(),
{
    let mut board: Vec<Vec<i8>> = Vec::new();
    let mut r: usize = 0;
    let n = b.len();
    while r < n
        invariant
            n == b@.len(),
            r <= n,
            board@.len() == r as int,
            forall|i: int| 0 <= i < r ==> (#[trigger] board@[i])@ == b@[i]@,
        decreases n - r,
    {
        let src = &b[r];
        let mut rowv: Vec<i8> = Vec::new();
        let mut c: usize = 0;
        while c < src.len()
            invariant
                c <= src@.len(),
                rowv@.len() == c as int,
                forall|j: int| 0 <= j < c ==> #[trigger] rowv@[j] == src@[j],
            decreases src@.len() - c,
        {
            let cell = src[c];
            rowv.push(cell);
            c = c + 1;
        }
        proof {
            assert(rowv@ =~= src@);
        }
        board.push(rowv);
        r = r + 1;
    }
    proof {
        assert(board.deep_view() =~~= b.deep_view());
    }
    board
}

} // verus!

verus! {

/// The cell a character denotes, or nothing for a foreign character.
pub open spec fn char_cell(ch: char) -> Option<i8> {
    if ch == '.' {
        Some(0i8)
    } else if ch == 'X' {
        Some(1i8)
    } else if ch == 'O' {
        Some(-1i8)
    } else {
        None
    }
}

/// The character a cell is written as.
pub open spec fn cell_char(v: i8) -> char {
    if v == 1i8 {
        'X'
    } else if v == -1i8 {
        'O'
    } else {
        '.'
    }
}

/// Gravity holds in column `c`: below a piece there is never a hole.
pub open spec fn col_no_gap(g: Seq<Seq<i8>>, rows: int, c: int) -> bool {
    forall|r1: int, r2: int|
        #![trigger g[r1][c], g[r2][c]]
        (0 <= r1 < r2 < rows && g[r1][c] != 0i8) ==> g[r2][c] != 0i8
}

/// Gravity holds in every column.
pub open spec fn gaps_ok(g: Seq<Seq<i8>>, rows: int, cols: int) -> bool {
    forall|c: int| 0 <= c < cols ==> #[trigger] col_no_gap(g, rows, c)
}

/// The parser's state machine, from character `i` with the cursor at
/// `row`, `col` and the grid read so far: a line break must close a
/// full row, a cell character must fall inside the grid, and at the
/// end of the text the cursor must have passed exactly `rows` full
/// newline-terminated lines and gravity must hold — a text of the
/// wrong dimensions is rejected.
pub open spec fn parse_from(
    s: Seq<char>,
    i: int,
    row: int,
    col: int,
    g: Seq<Seq<i8>>,
    rows: int,
    cols: int,
) -> Option<Seq<Seq<i8>>>
    decreases s.len() - i,
{
    if i < 0 || i >= s.len() {
        if row == rows && col == 0 && gaps_ok(g, rows, cols) {
            Some(g)
        } else {
            None
        }
    } else {
        let ch = s[i];
        if ch == '\n' || ch == '\r' {
            if col != cols {
                None
            } else {
                parse_from(s, i + 1, row + 1, 0, g, rows, cols)
            }
        } else if row >= rows {
            None
        } else if col >= cols {
            None
        } else {
            match char_cell(ch) {
                None => None,
                Some(v) => parse_from(
                    s,
                    i + 1,
                    row,
                    col + 1,
                    g.update(row, g[row].update(col, v)),
                    rows,
                    cols,
                ),
            }
        }
    }
}

/// What a text denotes as a grid, starting from the empty board.
pub open spec fn parse_grid(s: Seq<char>, rows: int, cols: int) -> Option<Seq<Seq<i8>>> {
    parse_from(s, 0, 0, 0, empty_grid(rows, cols), rows, cols)
}

/// The canonical text of the grid from the cursor on: one character
/// per cell and a newline after each row.  This is exactly the format
/// the parser accepts.
pub open spec fn canon_suffix(g: Seq<Seq<i8>>, row: int, col: int, rows: int, cols: int) -> Seq<
    char,
>
    decreases rows - row, cols - col,
{
    if row < 0 || row >= rows || col < 0 || col > cols {
        Seq::empty()
    } else if col == cols {
        seq!['\n'] + canon_suffix(g, row + 1, 0, rows, cols)
    } else {
        seq![cell_char(g[row][col])] + canon_suffix(g, row, col + 1, rows, cols)
    }
}

/// The canonical text of a whole grid.
pub open spec fn canon_text(g: Seq<Seq<i8>>, rows: int, cols: int) -> Seq<char> {
    canon_suffix(g, 0, 0, rows, cols)
}

/// The display text of the grid from the cursor on: each cell followed
/// by a space, and a newline after each row.
pub open spec fn display_suffix(g: Seq<Seq<i8>>, row: int, col: int, rows: int, cols: int) -> Seq<
    char,
>
    decreases rows - row, cols - col,
{
    if row < 0 || row >= rows || col < 0 || col > cols {
        Seq::empty()
    } else if col == cols {
        seq!['\n'] + display_suffix(g, row + 1, 0, rows, cols)
    } else {
        seq![cell_char(g[row][col]), ' '] + display_suffix(g, row, col + 1, rows, cols)
    }
}

/// The display text of a whole grid.
pub open spec fn display_text(g: Seq<Seq<i8>>, rows: int, cols: int) -> Seq<char> {
    display_suffix(g, 0, 0, rows, cols)
}

impl<const ROWS: usize, const COLUMNS: usize, const CONNECT: usize> Connect4<
    ROWS,
    COLUMNS,
    CONNECT,
> {
    /// Reads a board from text: cells are '.', 'X' and 'O', and each
    /// row of exactly `COLUMNS` cells ends with a line break.  A text
    /// with wrong dimensions, a foreign character or a hole under a
    /// piece is rejected.
    pub fn from_string(val: &str) -> (r: Option<Self>)
        requires
            Self::dims_ok(),
        ensures
            match r {
                None => parse_grid(val@, ROWS as int, COLUMNS as int) is None,
                Some(b) => b.well_formed() && parse_grid(val@, ROWS as int, COLUMNS as int)
                    == Some(b.grid()),
            },
    {
        let mut b = Self::empty();
        let n = val.unicode_len();
        let mut i: usize = 0;
        let mut row: usize = 0;
        let mut col: usize = 0;
        while i < n
            invariant
                Self::dims_ok(),
                b.well_formed(),
                n == val@.len(),
                i <= n,
                row <= i,
                col <= COLUMNS,
                parse_grid(val@, ROWS as int, COLUMNS as int) == parse_from(
                    val@,
                    i as int,
                    row as int,
                    col as int,
                    b.grid(),
                    ROWS as int,
                    COLUMNS as int,
                ),
            decreases n - i,
        {
            let ch = val.get_char(i);
            if ch == '\n' || ch == '\r' {
                if col != COLUMNS {
                    return None;
                }
                row = row + 1;
                col = 0;
            } else {
                if row >= ROWS {
                    return None;
                }
                if col >= COLUMNS {
                    return None;
                }
                let v: i8;
                if ch == '.' {
                    v = 0;
                } else if ch == 'X' {
                    v = 1;
                } else if ch == 'O' {
                    v = -1;
                } else {
                    return None;
                }
                let ghost gb = b.grid();
                proof {
                    assert((#[trigger] b.board@[row as int]).deep_view() =~= b.board@[row as int]@);
                    assert(gb[row as int] == b.board@[row as int]@);
                }
                b.board[row][col] = v;
                proof {
                    assert(b.grid() =~~= gb.update(
                        row as int,
                        gb[row as int].update(col as int, v),
                    ));
                    assert(grid_wf(b.grid(), ROWS as int, COLUMNS as int)) by {
                        assert forall|rr: int, cc: int|
                            0 <= rr < ROWS as int && 0 <= cc < COLUMNS as int implies cell_ok(
                            #[trigger] b.grid()[rr][cc]) by {
                            if rr != row as int || cc != col as int {
                                assert(b.grid()[rr][cc] == gb[rr][cc]);
                            }
                        }
                    }
                }
                col = col + 1;
            }
            i = i + 1;
        }
        // The whole text is read: it must have held exactly ROWS full
        // newline-terminated lines; gravity remains to be checked.
        if row != ROWS || col != 0 {
            return None;
        }
        let ghost g = b.grid();
        let mut c: usize = 0;
        while c < COLUMNS
            invariant
                Self::dims_ok(),
                b.well_formed(),
                g == b.grid(),
                c <= COLUMNS,
                parse_grid(val@, ROWS as int, COLUMNS as int) == (if gaps_ok(
                    g,
                    ROWS as int,
                    COLUMNS as int,
                ) {
                    Some(g)
                } else {
                    Option::<Seq<Seq<i8>>>::None
                }),
                forall|cc: int| 0 <= cc < c ==> #[trigger] col_no_gap(g, ROWS as int, cc),
            decreases COLUMNS - c,
        {
            let mut gap = false;
            let mut r: usize = ROWS;
            while r > 0
                invariant
                    Self::dims_ok(),
                    b.well_formed(),
                    g == b.grid(),
                    c < COLUMNS,
                    r <= ROWS,
                    parse_grid(val@, ROWS as int, COLUMNS as int) == (if gaps_ok(
                        g,
                        ROWS as int,
                        COLUMNS as int,
                    ) {
                        Some(g)
                    } else {
                        Option::<Seq<Seq<i8>>>::None
                    }),
                    gap == exists|rr: int|
                        r <= rr < ROWS && #[trigger] g[rr][c as int] == 0i8,
                    forall|r1: int, r2: int|
                        #![trigger g[r1][c as int], g[r2][c as int]]
                        (r <= r1 < r2 < ROWS && g[r1][c as int] != 0i8) ==> g[r2][c as int] != 0i8,
                decreases r,
            {
                r = r - 1;
                proof {
                    assert((#[trigger] b.board@[r as int]).deep_view() =~= b.board@[r as int]@);
                    assert(g[r as int] == b.board@[r as int]@);
                }
                let cell = self_cell(&b.board, r, c);
                if cell == 0 {
                    gap = true;
                } else {
                    if gap {
                        proof {
                            let rr = choose|rr: int|
                                r as int + 1 <= rr < ROWS && #[trigger] g[rr][c as int] == 0i8;
                            assert(g[r as int][c as int] != 0i8 && g[rr][c as int] == 0i8);
                            assert(!col_no_gap(g, ROWS as int, c as int));
                            assert(!gaps_ok(g, ROWS as int, COLUMNS as int));
                        }
                        return None;
                    }
                }
            }
            c = c + 1;
        }
        proof {
            assert(gaps_ok(g, ROWS as int, COLUMNS as int));
        }
        Some(b)
    }

    /// The display form of the board: each cell as '.', 'X' or 'O'
    /// followed by a space, one line per row.
    pub fn to_string(&self) -> (r: String)
        requires
            self.well_formed(),
        ensures
            r@ == display_text(self.grid(), ROWS as int, COLUMNS as int),
    {
        let ghost g = self.grid();
        let mut out = String::new();
        let mut row: usize = 0;
        while row < ROWS
            invariant
                self.well_formed(),
                g == self.grid(),
                row <= ROWS,
                display_text(g, ROWS as int, COLUMNS as int) == out@ + display_suffix(
                    g,
                    row as int,
                    0,
                    ROWS as int,
                    COLUMNS as int,
                ),
            decreases ROWS - row,
        {
            let mut col: usize = 0;
            while col < COLUMNS
                invariant
                    self.well_formed(),
                    g == self.grid(),
                    row < ROWS,
                    col <= COLUMNS,
                    display_text(g, ROWS as int, COLUMNS as int) == out@ + display_suffix(
                        g,
                        row as int,
                        col as int,
                        ROWS as int,
                        COLUMNS as int,
                    ),
                decreases COLUMNS - col,
            {
                proof {
                    assert((#[trigger] self.board@[row as int]).deep_view() =~= self.board@[
                    row as int]@);
                    assert(g[row as int] == self.board@[row as int]@);
                    reveal_strlit("X ");
                    reveal_strlit("O ");
                    reveal_strlit(". ");
                }
                let cell = self_cell(&self.board, row, col);
                if cell == 1 {
                    out.append("X ");
                } else if cell == -1 {
                    out.append("O ");
                } else {
                    out.append(". ");
                }
                proof {
                    assert(out@ =~= (out@.subrange(0, out@.len() - 2) + seq![
                        cell_char(g[row as int][col as int]),
                        ' ',
                    ]));
                }
                col = col + 1;
            }
            proof {
                reveal_strlit("\n");
            }
            out.append("\n");
            row = row + 1;
        }
        out
    }

    /// The canonical form of the board: the exact text `from_string`
    /// reads back, one character per cell and a newline per row.
    pub fn canon_string(&self) -> (r: String)
        requires
            self.well_formed(),
        ensures
            r@ == canon_text(self.grid(), ROWS as int, COLUMNS as int),
    {
        let ghost g = self.grid();
        let mut out = String::new();
        let mut row: usize = 0;
        while row < ROWS
            invariant
                self.well_formed(),
                g == self.grid(),
                row <= ROWS,
                canon_text(g, ROWS as int, COLUMNS as int) == out@ + canon_suffix(
                    g,
                    row as int,
                    0,
                    ROWS as int,
                    COLUMNS as int,
                ),
            decreases ROWS - row,
        {
            let mut col: usize = 0;
            while col < COLUMNS
                invariant
                    self.well_formed(),
                    g == self.grid(),
                    row < ROWS,
                    col <= COLUMNS,
                    canon_text(g, ROWS as int, COLUMNS as int) == out@ + canon_suffix(
                        g,
                        row as int,
                        col as int,
                        ROWS as int,
                        COLUMNS as int,
                    ),
                decreases COLUMNS - col,
            {
                proof {
                    assert((#[trigger] self.board@[row as int]).deep_view() =~= self.board@[
                    row as int]@);
                    assert(g[row as int] == self.board@[row as int]@);
                    reveal_strlit("X");
                    reveal_strlit("O");
                    reveal_strlit(".");
                }
                let cell = self_cell(&self.board, row, col);
                if cell == 1 {
                    out.append("X");
                } else if cell == -1 {
                    out.append("O");
                } else {
                    out.append(".");
                }
                proof {
                    assert(out@ =~= (out@.subrange(0, out@.len() - 1) + seq![
                        cell_char(g[row as int][col as int]),
                    ]));
                }
                col = col + 1;
            }
            proof {
                reveal_strlit("\n");
            }
            out.append("\n");
            row = row + 1;
        }
        out
    }
}

/// One cell of a board held as rows of columns.
fn self_cell(board: &Vec<Vec<i8>>, r: usize, c: usize) -> (v: i8)
    requires
        r < board@.len(),
        c < board@[r as int]@.len(),
    ensures
        v == board@[r as int]@[c as int],
{
    board[r][c]
}

} // verus!

verus! {

/// The same cell with the two players swapped.
pub open spec fn flip_cell(v: i8) -> i8 {
    if v == 1i8 {
        -1i8
    } else if v == -1i8 {
        1i8
    } else {
        0i8
    }
}

/// The same line with the two players swapped.
pub open spec fn flip_line(l: Seq<i8>) -> Seq<i8> {
    Seq::new(l.len(), |i: int| flip_cell(l[i]))
}

/// The same grid with the two players swapped.
pub open spec fn flip_grid(g: Seq<Seq<i8>>) -> Seq<Seq<i8>> {
    Seq::new(g.len(), |r: int| flip_line(g[r]))
}

/// Which line sits at position `j` of the scan order.
proof fn lemma_lines_of_index(g: Seq<Seq<i8>>, rows: int, cols: int, k: int, j: int)
    requires
        rows >= 0,
        cols >= 0,
        0 <= j < rows + cols + 2 * num_diags(rows, cols, k),
    ensures
        lines_of(g, rows, cols, k).len() == rows + cols + 2 * num_diags(rows, cols, k),
        j < rows ==> lines_of(g, rows, cols, k)[j] == g[j],
        rows <= j < rows + cols ==> lines_of(g, rows, cols, k)[j] == col_line(g, j - rows, rows),
        rows + cols <= j < rows + cols + num_diags(rows, cols, k) ==> lines_of(g, rows, cols, k)[j]
            == diag_up_line(g, k - 1 + (j - rows - cols), rows, cols),
        rows + cols + num_diags(rows, cols, k) <= j ==> lines_of(g, rows, cols, k)[j]
            == diag_down_line(g, (k - rows) + (j - rows - cols - num_diags(rows, cols, k)), rows, cols),
{
    let nd = num_diags(rows, cols, k);
    let a = Seq::new(rows as nat, |r: int| g[r]);
    let b = Seq::new(cols as nat, |c: int| col_line(g, c, rows));
    let cc = Seq::new(nd as nat, |i: int| diag_up_line(g, k - 1 + i, rows, cols));
    let dd = Seq::new(nd as nat, |i: int| diag_down_line(g, (k - rows) + i, rows, cols));
    assert(lines_of(g, rows, cols, k) == a + b + cc + dd);
    assert((a + b).len() == rows + cols);
    assert((a + b + cc).len() == rows + cols + nd);
    if j < rows {
        assert((a + b)[j] == a[j]);
        assert((a + b + cc)[j] == (a + b)[j]);
        assert((a + b + cc + dd)[j] == (a + b + cc)[j]);
    } else if j < rows + cols {
        assert((a + b)[j] == b[j - rows]);
        assert((a + b + cc)[j] == (a + b)[j]);
        assert((a + b + cc + dd)[j] == (a + b + cc)[j]);
    } else if j < rows + cols + nd {
        assert((a + b + cc)[j] == cc[j - rows - cols]);
        assert((a + b + cc + dd)[j] == (a + b + cc)[j]);
    } else {
        assert((a + b + cc + dd)[j] == dd[j - rows - cols - nd]);
    }
}

/// Swapping the players swaps the two counters and negates the scan.
proof fn lemma_scan_flip(l: Seq<i8>, k: int, i: int, c1: int, cn: int)
    requires
        k >= 1,
    ensures
        line_scan_from(flip_line(l), k, i, cn, c1) == -line_scan_from(l, k, i, c1, cn),
    decreases l.len() - i,
{
    if 0 <= i < l.len() {
        assert(flip_line(l)[i] == flip_cell(l[i]));
        let c1n = if l[i] == 1i8 {
            c1 + 1
        } else {
            0
        };
        let cnn = if l[i] == -1i8 {
            cn + 1
        } else {
            0
        };
        if c1n >= k || cnn >= k {
        } else {
            lemma_scan_flip(l, k, i + 1, c1n, cnn);
        }
    }
}

/// Negation carries through the first decided line.
proof fn lemma_first_nonzero_flip(ls: Seq<Seq<i8>>, lsf: Seq<Seq<i8>>, k: int, i: int)
    requires
        k >= 1,
        lsf.len() == ls.len(),
        forall|j: int| 0 <= j < ls.len() ==> #[trigger] lsf[j] == flip_line(ls[j]),
    ensures
        first_nonzero(lsf, k, i) == -first_nonzero(ls, k, i),
    decreases ls.len() - i,
{
    if 0 <= i < ls.len() {
        lemma_scan_flip(ls[i], k, 0, 0, 0);
        if line_scan(ls[i], k) != 0 {
        } else {
            lemma_first_nonzero_flip(ls, lsf, k, i + 1);
        }
    }
}

/// Evaluation is symmetric in the two players: swapping every piece
/// negates the terminal score, on every well-formed board.
pub proof fn lemma_score_flip_symmetric(g: Seq<Seq<i8>>, rows: int, cols: int, k: int)
    requires
        k >= 1,
        cols >= 0,
        grid_wf(g, rows, cols),
    ensures
        score_of_grid(flip_grid(g), rows, cols, k) == -score_of_grid(g, rows, cols, k),
{
    let gf = flip_grid(g);
    let ls = lines_of(g, rows, cols, k);
    let lsf = lines_of(gf, rows, cols, k);
    let nd = num_diags(rows, cols, k);
    assert(gf.len() == rows);
    assert forall|r: int| 0 <= r < rows implies (#[trigger] gf[r]).len() == cols by {
        assert(gf[r] == flip_line(g[r]));
    }
    assert forall|j: int| 0 <= j < ls.len() implies #[trigger] lsf[j] == flip_line(ls[j]) by {
        lemma_lines_of_index(g, rows, cols, k, j);
        lemma_lines_of_index(gf, rows, cols, k, j);
        if j < rows {
            assert(gf[j] =~= flip_line(g[j]));
        } else if j < rows + cols {
            let c = j - rows;
            assert(col_line(gf, c, rows) =~= flip_line(col_line(g, c, rows)));
        } else if j < rows + cols + nd {
            let d = k - 1 + (j - rows - cols);
            assert(diag_up_line(gf, d, rows, cols) =~= flip_line(diag_up_line(g, d, rows, cols)));
        } else {
            let o = (k - rows) + (j - rows - cols - nd);
            assert(diag_down_line(gf, o, rows, cols) =~= flip_line(
                diag_down_line(g, o, rows, cols),
            ));
        }
    }
    lemma_first_nonzero_flip(ls, lsf, k, 0);
}

/// `p` occupies the `k` cells starting at `j`.
pub open spec fn run_at(l: Seq<i8>, k: int, p: i8, j: int) -> bool {
    0 <= j && j + k <= l.len() && (forall|t: int| j <= t < j + k ==> l[t] == p)
}

/// Some `k` consecutive cells of the line all hold `p`.
pub open spec fn has_run(l: Seq<i8>, k: int, p: i8) -> bool {
    exists|j: int| #[trigger] run_at(l, k, p, j)
}

/// The length of the unbroken run of `p` ending just before `i`.
pub open spec fn trail(l: Seq<i8>, p: i8, i: int) -> int
    decreases i,
{
    if i <= 0 || i > l.len() {
        0
    } else if l[i - 1] == p {
        trail(l, p, i - 1) + 1
    } else {
        0
    }
}

/// The trailing run length is between zero and the position.
proof fn lemma_trail_bounds(l: Seq<i8>, p: i8, i: int)
    ensures
        0 <= trail(l, p, i),
        i >= 0 ==> trail(l, p, i) <= i,
    decreases i,
{
    if 0 < i <= l.len() && l[i - 1] == p {
        lemma_trail_bounds(l, p, i - 1);
    }
}

/// A trailing run covers its cells.
proof fn lemma_trail_cells(l: Seq<i8>, p: i8, i: int, m: int)
    requires
        0 <= m <= trail(l, p, i),
        0 <= i <= l.len(),
    ensures
        forall|t: int| i - m <= t < i ==> l[t] == p,
    decreases m,
{
    if m > 0 {
        lemma_trail_cells(l, p, i - 1, m - 1);
    }
}

/// Covered cells give a trailing run.
proof fn lemma_cells_trail(l: Seq<i8>, p: i8, e: int, m: int)
    requires
        0 <= m <= e <= l.len(),
        forall|t: int| e - m <= t < e ==> l[t] == p,
    ensures
        trail(l, p, e) >= m,
    decreases m,
{
    lemma_trail_bounds(l, p, e);
    if m > 0 {
        lemma_cells_trail(l, p, e - 1, m - 1);
    }
}

/// The counter scan, run with the true trailing-run lengths, is sound
/// (a decision names a player who owns a run) and complete (an
/// undecided scan leaves no run ending beyond the scan point).
proof fn lemma_scan_exact(l: Seq<i8>, k: int, i: int)
    requires
        k >= 1,
        0 <= i <= l.len(),
    ensures
        line_scan_from(l, k, i, trail(l, 1i8, i), trail(l, -1i8, i)) == 1 ==> has_run(l, k, 1i8),
        line_scan_from(l, k, i, trail(l, 1i8, i), trail(l, -1i8, i)) == -1 ==> has_run(l, k, -1i8),
        line_scan_from(l, k, i, trail(l, 1i8, i), trail(l, -1i8, i)) == 0 ==> (forall|j: int, p: i8|
            (p == 1i8 || p == -1i8) && j + k > i ==> !(#[trigger] run_at(l, k, p, j))),
    decreases l.len() - i,
{
    let c1 = trail(l, 1i8, i);
    let cn = trail(l, -1i8, i);
    lemma_trail_bounds(l, 1i8, i);
    lemma_trail_bounds(l, -1i8, i);
    if i < l.len() {
        let c1n = if l[i] == 1i8 {
            c1 + 1
        } else {
            0
        };
        let cnn = if l[i] == -1i8 {
            cn + 1
        } else {
            0
        };
        assert(c1n == trail(l, 1i8, i + 1));
        assert(cnn == trail(l, -1i8, i + 1));
        if c1n >= k {
            lemma_trail_cells(l, 1i8, i + 1, k);
            assert(run_at(l, k, 1i8, i + 1 - k));
            assert(has_run(l, k, 1i8));
        } else if cnn >= k {
            lemma_trail_cells(l, -1i8, i + 1, k);
            assert(run_at(l, k, -1i8, i + 1 - k));
            assert(has_run(l, k, -1i8));
        } else {
            lemma_scan_exact(l, k, i + 1);
            if line_scan_from(l, k, i, c1, cn) == 0 {
                assert forall|j: int, p: i8|
                    (p == 1i8 || p == -1i8) && j + k > i && #[trigger] run_at(
                        l,
                        k,
                        p,
                        j,
                    ) implies false by {
                    if j + k > i + 1 {
                        assert(!run_at(l, k, p, j));
                    } else {
                        assert(j + k == i + 1);
                        lemma_cells_trail(l, p, i + 1, k);
                        assert(trail(l, p, i + 1) >= k);
                    }
                }
            }
        }
    }
}

/// The scan only ever reports -1, 0 or 1.
proof fn lemma_scan_range(l: Seq<i8>, k: int, i: int, c1: int, cn: int)
    ensures
        -1 <= line_scan_from(l, k, i, c1, cn) <= 1,
    decreases l.len() - i,
{
    if 0 <= i < l.len() {
        let c1n = if l[i] == 1i8 {
            c1 + 1
        } else {
            0
        };
        let cnn = if l[i] == -1i8 {
            cn + 1
        } else {
            0
        };
        if c1n >= k || cnn >= k {
        } else {
            lemma_scan_range(l, k, i + 1, c1n, cnn);
        }
    }
}

/// A line's scan is undecided exactly when neither player owns a run
/// in it, and a decision names a player who owns one.
pub proof fn lemma_line_scan_characterized(l: Seq<i8>, k: int)
    requires
        k >= 1,
    ensures
        line_scan(l, k) == 0 <==> (!has_run(l, k, 1i8) && !has_run(l, k, -1i8)),
        line_scan(l, k) == 1 ==> has_run(l, k, 1i8),
        line_scan(l, k) == -1 ==> has_run(l, k, -1i8),
        -1 <= line_scan(l, k) <= 1,
{
    lemma_scan_exact(l, k, 0);
    lemma_scan_range(l, k, 0, 0, 0);
    if line_scan(l, k) == 0 {
        assert forall|p: i8| (p == 1i8 || p == -1i8) implies !has_run(l, k, p) by {
            if has_run(l, k, p) {
                let j = choose|j: int| #[trigger] run_at(l, k, p, j);
                assert(j + k > 0);
                assert(!run_at(l, k, p, j));
            }
        }
    }
}

/// Player `p` has `k` aligned pieces somewhere on the board: in a row,
/// a column, or a diagonal of either direction.
pub open spec fn grid_has_win(g: Seq<Seq<i8>>, rows: int, cols: int, k: int, p: i8) -> bool {
    exists|i: int|
        0 <= i < lines_of(g, rows, cols, k).len() && #[trigger] has_run(
            lines_of(g, rows, cols, k)[i],
            k,
            p,
        )
}

/// The first decided line over a range: zero exactly when every line
/// is undecided, and otherwise the value of some decided line.
proof fn lemma_first_nonzero_char(ls: Seq<Seq<i8>>, k: int, i: int)
    requires
        k >= 1,
        0 <= i,
    ensures
        first_nonzero(ls, k, i) == 0 <==> (forall|j: int|
            i <= j < ls.len() ==> #[trigger] line_scan(ls[j], k) == 0),
        first_nonzero(ls, k, i) != 0 ==> exists|j: int|
            i <= j < ls.len() && #[trigger] line_scan(ls[j], k) == first_nonzero(ls, k, i),
    decreases ls.len() - i,
{
    if i < ls.len() {
        lemma_first_nonzero_char(ls, k, i + 1);
    }
}

/// Terminal detection is sound and complete over every direction: the
/// score is zero exactly when neither player has `k` aligned pieces in
/// any row, column or diagonal; when exactly one player has them, the
/// score names that player.
pub proof fn lemma_score_characterized(g: Seq<Seq<i8>>, rows: int, cols: int, k: int)
    requires
        k >= 1,
    ensures
        score_of_grid(g, rows, cols, k) == 0 <==> (!grid_has_win(g, rows, cols, k, 1i8)
            && !grid_has_win(g, rows, cols, k, -1i8)),
        grid_has_win(g, rows, cols, k, 1i8) && !grid_has_win(g, rows, cols, k, -1i8)
            ==> score_of_grid(g, rows, cols, k) == 1,
        grid_has_win(g, rows, cols, k, -1i8) && !grid_has_win(g, rows, cols, k, 1i8)
            ==> score_of_grid(g, rows, cols, k) == -1,
{
    let ls = lines_of(g, rows, cols, k);
    let sc = score_of_grid(g, rows, cols, k);
    lemma_first_nonzero_char(ls, k, 0);
    assert forall|i: int| 0 <= i < ls.len() implies (-1 <= line_scan(ls[i], k) <= 1 && (line_scan(
        ls[i],
        k,
    ) == 0 <==> (!has_run(ls[i], k, 1i8) && !has_run(ls[i], k, -1i8))) && (line_scan(ls[i], k) == 1
        ==> has_run(ls[i], k, 1i8)) && (line_scan(ls[i], k) == -1 ==> has_run(
        ls[i],
        k,
        -1i8,
    ))) by {
        lemma_line_scan_characterized(ls[i], k);
    }
    if sc == 0 {
        assert forall|p: i8| (p == 1i8 || p == -1i8) implies !grid_has_win(
            g,
            rows,
            cols,
            k,
            p,
        ) by {
            if grid_has_win(g, rows, cols, k, p) {
                let i = choose|i: int| 0 <= i < ls.len() && #[trigger] has_run(ls[i], k, p);
                assert(line_scan(ls[i], k) == 0);
            }
        }
    } else {
        let j = choose|j: int| 0 <= j < ls.len() && #[trigger] line_scan(ls[j], k) == sc;
        if sc == 1 {
            assert(grid_has_win(g, rows, cols, k, 1i8));
        } else {
            assert(sc == -1);
            assert(grid_has_win(g, rows, cols, k, -1i8));
        }
    }
}

/// One canonical-text step: parsing the canonical suffix of a grid,
/// from a cursor whose earlier cells are already in place, fills in
/// the rest of the grid exactly.
proof fn lemma_parse_canon_from(
    s: Seq<char>,
    i: int,
    row: int,
    col: int,
    h: Seq<Seq<i8>>,
    g: Seq<Seq<i8>>,
    rows: int,
    cols: int,
)
    requires
        cols >= 0,
        grid_wf(g, rows, cols),
        h.len() == rows,
        forall|r: int| 0 <= r < rows ==> (#[trigger] h[r]).len() == cols,
        0 <= row <= rows,
        0 <= col <= cols,
        row == rows ==> col == 0,
        0 <= i <= s.len(),
        s.subrange(i, s.len() as int) == canon_suffix(g, row, col, rows, cols),
        forall|r: int, c: int|
            0 <= r < rows && 0 <= c < cols && (r < row || (r == row && c < col)) ==> #[trigger] h[r][c]
                == g[r][c],
    ensures
        parse_from(s, i, row, col, h, rows, cols) == (if gaps_ok(g, rows, cols) {
            Some(g)
        } else {
            Option::<Seq<Seq<i8>>>::None
        }),
    decreases rows - row, cols - col,
{
    let suffix = canon_suffix(g, row, col, rows, cols);
    if row >= rows {
        assert(suffix =~= Seq::<char>::empty());
        assert(s.len() - i == 0);
        assert(h =~~= g);
        assert(parse_from(s, i, row, col, h, rows, cols) == (if gaps_ok(h, rows, cols) {
            Some(h)
        } else {
            Option::<Seq<Seq<i8>>>::None
        }));
    } else if col == cols {
        let rest = canon_suffix(g, row + 1, 0, rows, cols);
        assert(suffix == seq!['\n'] + rest);
        assert(s[i] == suffix[0]);
        assert(s[i] == '\n');
        assert(i < s.len());
        assert forall|t: int| 0 <= t < rest.len() implies s.subrange(i + 1, s.len() as int)[t]
            == rest[t] by {
            assert(s.subrange(i, s.len() as int)[t + 1] == s[i + 1 + t]);
            assert(suffix[t + 1] == rest[t]);
        }
        assert(s.subrange(i + 1, s.len() as int) =~= rest);
        lemma_parse_canon_from(s, i + 1, row + 1, 0, h, g, rows, cols);
    } else {
        let v = g[row][col];
        let rest = canon_suffix(g, row, col + 1, rows, cols);
        assert(suffix == seq![cell_char(v)] + rest);
        assert(s[i] == suffix[0]);
        assert(s[i] == cell_char(v));
        assert(i < s.len());
        assert(cell_ok(v));
        assert(s[i] != '\n' && s[i] != '\r');
        assert(char_cell(cell_char(v)) == Some(v));
        assert forall|t: int| 0 <= t < rest.len() implies s.subrange(i + 1, s.len() as int)[t]
            == rest[t] by {
            assert(s.subrange(i, s.len() as int)[t + 1] == s[i + 1 + t]);
            assert(suffix[t + 1] == rest[t]);
        }
        assert(s.subrange(i + 1, s.len() as int) =~= rest);
        let h2 = h.update(row, h[row].update(col, v));
        assert forall|r: int, c: int|
            0 <= r < rows && 0 <= c < cols && (r < row || (r == row && c < col + 1)) implies #[trigger] h2[r][c]
            == g[r][c] by {
            if r != row || c != col {
                assert(h2[r][c] == h[r][c]);
            }
        }
        lemma_parse_canon_from(s, i + 1, row, col + 1, h2, g, rows, cols);
    }
}

/// Round trip: a well-formed, gapless board written in canonical text
/// parses back to exactly itself — so parsing any canonical board text
/// and re-serializing the result reproduces the identical text.
pub proof fn lemma_canon_round_trip(g: Seq<Seq<i8>>, rows: int, cols: int)
    requires
        cols >= 0,
        grid_wf(g, rows, cols),
        gaps_ok(g, rows, cols),
    ensures
        parse_grid(canon_text(g, rows, cols), rows, cols) == Some(g),
{
    let s = canon_text(g, rows, cols);
    assert(s.subrange(0, s.len() as int) =~= s);
    lemma_parse_canon_from(s, 0, 0, 0, empty_grid(rows, cols), g, rows, cols);
}

} // verus!
