//! A fixed 3-by-3 tic-tac-toe board that implements the engine's game
//! contract: a move addresses a cell directly, and three aligned
//! pieces in a row, a column or a diagonal win.

use vstd::prelude::*;

use crate::connect4::cell_ok;
use crate::connect4::char_cell;
use crate::connect4::copy_grid;
use crate::connect4::display_suffix;
use crate::connect4::display_text;
use crate::connect4::free_in_grid;
use crate::connect4::grid_wf;
use crate::connect4::lemma_free_grid_update;
use crate::mcts::GeneralGame;

verus! {

/// Three cells in a line, starting at (r0, c0) and stepping by
/// (dr, dc), all holding `p`.
pub open spec fn ttt_line(g: Seq<Seq<i8>>, p: i8, r0: int, c0: int, dr: int, dc: int) -> bool {
    g[r0][c0] == p && g[r0 + dr][c0 + dc] == p && g[r0 + 2 * dr][c0 + 2 * dc] == p
}

/// `p` owns one of the three rows, three columns or two diagonals.
pub open spec fn ttt_wins(g: Seq<Seq<i8>>, p: i8) -> bool {
    ||| ttt_line(g, p, 0, 0, 0, 1)
    ||| ttt_line(g, p, 1, 0, 0, 1)
    ||| ttt_line(g, p, 2, 0, 0, 1)
    ||| ttt_line(g, p, 0, 0, 1, 0)
    ||| ttt_line(g, p, 0, 1, 1, 0)
    ||| ttt_line(g, p, 0, 2, 1, 0)
    ||| ttt_line(g, p, 0, 0, 1, 1)
    ||| ttt_line(g, p, 0, 2, 1, -1)
}

/// The terminal score; a board where both sides own lines is not
/// reachable in play and scores for O, which is checked first.
pub open spec fn ttt_score(g: Seq<Seq<i8>>) -> int {
    if ttt_wins(g, -1i8) {
        -1
    } else if ttt_wins(g, 1i8) {
        1
    } else {
        0
    }
}

/// The free cells among the first `n` in row-major order, as flat
/// indices (row times three plus column).
pub open spec fn ttt_avail_up_to(g: Seq<Seq<i8>>, n: int) -> Seq<usize>
    decreases n,
{
    if n <= 0 {
        Seq::empty()
    } else if g[(n - 1) / 3][(n - 1) % 3] == 0i8 {
        ttt_avail_up_to(g, n - 1) + seq![(n - 1) as usize]
    } else {
        ttt_avail_up_to(g, n - 1)
    }
}

/// A flat index is legal exactly when its cell is free.
pub proof fn lemma_ttt_avail_contains(g: Seq<Seq<i8>>, n: int, x: usize)
    requires
        0 <= n <= 9,
    ensures
        ttt_avail_up_to(g, n).contains(x) <==> ((x as int) < n && g[x as int / 3][x as int % 3]
            == 0i8),
    decreases n,
{
    if n > 0 {
        lemma_ttt_avail_contains(g, n - 1, x);
        let prev = ttt_avail_up_to(g, n - 1);
        if g[(n - 1) / 3][(n - 1) % 3] == 0i8 {
            let cur = prev + seq![(n - 1) as usize];
            if cur.contains(x) {
                let i = choose|i: int| 0 <= i < cur.len() && cur[i] == x;
                if i < prev.len() {
                    assert(prev[i] == x);
                    assert(prev.contains(x));
                } else {
                    assert(x == (n - 1) as usize);
                }
            }
            if (x as int) < n && g[x as int / 3][x as int % 3] == 0i8 {
                if (x as int) < n - 1 {
                    let i = choose|i: int| 0 <= i < prev.len() && prev[i] == x;
                    assert(cur[i] == x);
                    assert(cur.contains(x));
                } else {
                    assert(cur[prev.len() as int] == x);
                    assert(cur.contains(x));
                }
            }
        }
    }
}

/// The parser's state machine for the fixed 3-by-3 text form: every
/// fourth character is a line break, the rest address cells directly.
/// The text must reach at least the last cell (eleven characters, the
/// optional final line break making twelve), so a board of the wrong
/// dimensions is rejected; anything longer is rejected by the cursor
/// leaving the grid.
pub open spec fn ttt_parse_from(s: Seq<char>, i: int, g: Seq<Seq<i8>>) -> Option<Seq<Seq<i8>>>
    decreases s.len() - i,
{
    if i < 0 || i >= s.len() {
        if s.len() >= 11 {
            Some(g)
        } else {
            None
        }
    } else {
        let ch = s[i];
        if (i + 1) % 4 == 0 {
            if ch == '\n' || ch == '\r' {
                ttt_parse_from(s, i + 1, g)
            } else {
                None
            }
        } else if i / 4 >= 3 {
            None
        } else {
            match char_cell(ch) {
                None => None,
                Some(v) => {
                    if v == 0i8 {
                        ttt_parse_from(s, i + 1, g)
                    } else {
                        ttt_parse_from(s, i + 1, g.update(i / 4, g[i / 4].update(i % 4, v)))
                    }
                },
            }
        }
    }
}

/// What a text denotes, starting from the empty board.
pub open spec fn ttt_parse(s: Seq<char>) -> Option<Seq<Seq<i8>>> {
    ttt_parse_from(s, 0, crate::connect4::empty_grid(3, 3))
}

/// The fixed 3-by-3 board.
#[derive(Debug, Clone, PartialEq)]
pub struct TicTacToe {
    pub board: Vec<Vec<i8>>,
}

impl TicTacToe {
    /// The abstract grid held by the board.
    pub open spec fn grid(&self) -> Seq<Seq<i8>> {
        self.board.deep_view()
    }

    /// The board holds a 3-by-3 grid of valid cells.
    pub open spec fn well_formed(&self) -> bool {
        grid_wf(self.grid(), 3, 3)
    }

    /// One cell of the board.
    fn cell(&self, r: usize, c: usize) -> (v: i8)
        requires
            self.well_formed(),
            r < 3,
            c < 3,
        ensures
            v == self.grid()[r as int][c as int],
    {
        proof {
            assert((#[trigger] self.board@[r as int]).deep_view() =~= self.board@[r as int]@);
            assert(self.grid()[r as int] == self.board@[r as int]@);
        }
        self.board[r][c]
    }

    /// Whether `p` owns a full row, column or diagonal.
    fn wins_player(&self, p: i8) -> (r: bool)
        requires
            self.well_formed(),
        ensures
            r == ttt_wins(self.grid(), p),
    {
        let r0 = self.cell(0, 0) == p && self.cell(0, 1) == p && self.cell(0, 2) == p;
        let r1 = self.cell(1, 0) == p && self.cell(1, 1) == p && self.cell(1, 2) == p;
        let r2 = self.cell(2, 0) == p && self.cell(2, 1) == p && self.cell(2, 2) == p;
        let c0 = self.cell(0, 0) == p && self.cell(1, 0) == p && self.cell(2, 0) == p;
        let c1 = self.cell(0, 1) == p && self.cell(1, 1) == p && self.cell(2, 1) == p;
        let c2 = self.cell(0, 2) == p && self.cell(1, 2) == p && self.cell(2, 2) == p;
        let d0 = self.cell(0, 0) == p && self.cell(1, 1) == p && self.cell(2, 2) == p;
        let d1 = self.cell(0, 2) == p && self.cell(1, 1) == p && self.cell(2, 0) == p;
        r0 || r1 || r2 || c0 || c1 || c2 || d0 || d1
    }

    /// The terminal score: O's lines are checked before X's.
    pub fn get_score(&self) -> (r: i8)
        requires
            self.well_formed(),
        ensures
            r as int == ttt_score(self.grid()),
            -1 <= r as int <= 1,
    {
        if self.wins_player(-1) {
            return -1;
        }
        if self.wins_player(1) {
            return 1;
        }
        0
    }

    /// The free cells, as (row, column) pairs in row-major order.
    pub fn get_available(&self) -> (r: Vec<(usize, usize)>)
        requires
            self.well_formed(),
        ensures
            r@.len() == ttt_avail_up_to(self.grid(), 9).len(),
            forall|t: int|
                0 <= t < r@.len() ==> #[trigger] r@[t] == (
                    (ttt_avail_up_to(self.grid(), 9)[t] as usize / 3),
                    (ttt_avail_up_to(self.grid(), 9)[t] as usize % 3),
                ),
            forall|t: int|
                0 <= t < r@.len() ==> (#[trigger] r@[t]).0 < 3 && r@[t].1 < 3 && self.grid()[
                    r@[t].0 as int][r@[t].1 as int] == 0i8,
    {
        let mut out: Vec<(usize, usize)> = Vec::new();
        let mut i: usize = 0;
        while i < 3
            invariant
                self.well_formed(),
                i <= 3,
                out@.len() == ttt_avail_up_to(self.grid(), 3 * i as int).len(),
                forall|t: int|
                    0 <= t < out@.len() ==> #[trigger] out@[t] == (
                        (ttt_avail_up_to(self.grid(), 3 * i as int)[t] as usize / 3),
                        (ttt_avail_up_to(self.grid(), 3 * i as int)[t] as usize % 3),
                    ),
                forall|t: int|
                    0 <= t < out@.len() ==> (#[trigger] out@[t]).0 < 3 && out@[t].1 < 3
                        && self.grid()[out@[t].0 as int][out@[t].1 as int] == 0i8,
                ttt_avail_up_to(self.grid(), 9).len() >= ttt_avail_up_to(
                    self.grid(),
                    3 * i as int,
                ).len(),
                forall|t: int|
                    0 <= t < out@.len() ==> ttt_avail_up_to(self.grid(), 9)[t] == ttt_avail_up_to(
                        self.grid(),
                        3 * i as int,
                    )[t],
            decreases 3 - i,
        {
            let mut j: usize = 0;
            while j < 3
                invariant
                    self.well_formed(),
                    i < 3,
                    j <= 3,
                    out@.len() == ttt_avail_up_to(self.grid(), 3 * i as int + j as int).len(),
                    forall|t: int|
                        0 <= t < out@.len() ==> #[trigger] out@[t] == (
                            (ttt_avail_up_to(self.grid(), 3 * i as int + j as int)[t] as usize / 3),
                            (ttt_avail_up_to(self.grid(), 3 * i as int + j as int)[t] as usize % 3),
                        ),
                    forall|t: int|
                        0 <= t < out@.len() ==> (#[trigger] out@[t]).0 < 3 && out@[t].1 < 3
                            && self.grid()[out@[t].0 as int][out@[t].1 as int] == 0i8,
                    ttt_avail_up_to(self.grid(), 9).len() >= ttt_avail_up_to(
                        self.grid(),
                        3 * i as int + j as int,
                    ).len(),
                    forall|t: int|
                        0 <= t < out@.len() ==> ttt_avail_up_to(self.grid(), 9)[t]
                            == ttt_avail_up_to(self.grid(), 3 * i as int + j as int)[t],
                decreases 3 - j,
            {
                proof {
                    lemma_ttt_prefix(self.grid(), 3 * i as int + j as int + 1, 9);
                    assert((3 * i as int + j as int) / 3 == i as int && (3 * i as int + j as int)
                        % 3 == j as int) by (nonlinear_arith)
                        requires i < 3, j < 3;
                }
                if self.cell(i, j) == 0 {
                    out.push((i, j));
                }
                j = j + 1;
            }
            i = i + 1;
        }
        out
    }

    /// Reads a board from text: twelve characters, every fourth a line
    /// break, the rest '.', 'X' or 'O' addressing cells directly.
    pub fn from_string(val: &str) -> (r: Option<TicTacToe>)
        ensures
            match r {
                None => ttt_parse(val@) is None,
                Some(b) => b.well_formed() && ttt_parse(val@) == Some(b.grid()),
            },
    {
        let mut b = TicTacToe::empty_board();
        let n = val.unicode_len();
        let mut i: usize = 0;
        while i < n
            invariant
                b.well_formed(),
                n == val@.len(),
                i <= n,
                ttt_parse(val@) == ttt_parse_from(val@, i as int, b.grid()),
            decreases n - i,
        {
            let ch = val.get_char(i);
            if (i + 1) % 4 == 0 {
                if ch != '\n' && ch != '\r' {
                    return None;
                }
            } else {
                if i / 4 >= 3 {
                    return None;
                }
                if ch != '.' {
                    let v: i8;
                    if ch == 'X' {
                        v = 1;
                    } else if ch == 'O' {
                        v = -1;
                    } else {
                        return None;
                    }
                    let x = i % 4;
                    let y = i / 4;
                    proof {
                        assert(x < 3) by (nonlinear_arith)
                            requires x == i % 4, (i + 1) % 4 != 0, x == i as int % 4;
                        assert((#[trigger] b.board@[y as int]).deep_view() =~= b.board@[y as int]@);
                        assert(b.grid()[y as int] == b.board@[y as int]@);
                    }
                    let ghost gb = b.grid();
                    b.board[y][x] = v;
                    proof {
                        assert(b.grid() =~~= gb.update(
                            y as int,
                            gb[y as int].update(x as int, v),
                        ));
                        assert(grid_wf(b.grid(), 3, 3)) by {
                            assert forall|rr: int, cc: int|
                                0 <= rr < 3 && 0 <= cc < 3 implies cell_ok(
                                #[trigger] b.grid()[rr][cc]) by {
                                if rr != y as int || cc != x as int {
                                    assert(b.grid()[rr][cc] == gb[rr][cc]);
                                }
                            }
                        }
                    }
                }
            }
            i = i + 1;
        }
        if n < 11 {
            return None;
        }
        Some(b)
    }

    /// The all-empty board.
    fn empty_board() -> (r: TicTacToe)
        ensures
            r.well_formed(),
            r.grid() == crate::connect4::empty_grid(3, 3),
    {
        let mut board: Vec<Vec<i8>> = Vec::new();
        let mut r: usize = 0;
        while r < 3
            invariant
                r <= 3,
                board@.len() == r,
                forall|i: int|
                    0 <= i < r ==> (#[trigger] board@[i])@ == Seq::new(3nat, |c: int| 0i8),
            decreases 3 - r,
        {
            let mut rowv: Vec<i8> = Vec::new();
            rowv.push(0);
            rowv.push(0);
            rowv.push(0);
            proof {
                assert(rowv@ =~= Seq::new(3nat, |c: int| 0i8));
            }
            board.push(rowv);
            r = r + 1;
        }
        let result = TicTacToe { board };
        proof {
            assert(result.grid() =~~= crate::connect4::empty_grid(3, 3));
        }
        result
    }

    /// Writes `player` into the addressed cell, legal or not: callers
    /// are expected to respect the legal-move list.
    pub fn update(&mut self, indeces: (usize, usize), player: i8)
        requires
            old(self).well_formed(),
            indeces.0 < 3,
            indeces.1 < 3,
            player == 1i8 || player == -1i8,
        ensures
            final(self).well_formed(),
            final(self).grid() == old(self).grid().update(
                indeces.0 as int,
                old(self).grid()[indeces.0 as int].update(indeces.1 as int, player),
            ),
    {
        let ghost g0 = self.grid();
        proof {
            assert((#[trigger] self.board@[indeces.0 as int]).deep_view() =~= self.board@[
            indeces.0 as int]@);
            assert(g0[indeces.0 as int] == self.board@[indeces.0 as int]@);
        }
        self.board[indeces.0][indeces.1] = player;
        proof {
            assert(self.grid() =~~= g0.update(
                indeces.0 as int,
                g0[indeces.0 as int].update(indeces.1 as int, player),
            ));
            assert(grid_wf(self.grid(), 3, 3)) by {
                assert forall|rr: int, cc: int| 0 <= rr < 3 && 0 <= cc < 3 implies cell_ok(
                    #[trigger] self.grid()[rr][cc]) by {
                    if rr != indeces.0 as int || cc != indeces.1 as int {
                        assert(self.grid()[rr][cc] == g0[rr][cc]);
                    }
                }
            }
        }
    }

    /// The display form of the board: each cell as '.', 'X' or 'O'
    /// followed by a space, one line per row.
    pub fn to_string(&self) -> (r: String)
        requires
            self.well_formed(),
        ensures
            r@ == display_text(self.grid(), 3, 3),
    {
        let ghost g = self.grid();
        let mut out = String::new();
        let mut row: usize = 0;
        while row < 3
            invariant
                self.well_formed(),
                g == self.grid(),
                row <= 3,
                display_text(g, 3, 3) == out@ + display_suffix(g, row as int, 0, 3, 3),
            decreases 3 - row,
        {
            let mut col: usize = 0;
            while col < 3
                invariant
                    self.well_formed(),
                    g == self.grid(),
                    row < 3,
                    col <= 3,
                    display_text(g, 3, 3) == out@ + display_suffix(g, row as int, col as int, 3, 3),
                decreases 3 - col,
            {
                proof {
                    reveal_strlit("X ");
                    reveal_strlit("O ");
                    reveal_strlit(". ");
                }
                let cell = self.cell(row, col);
                if cell == 1 {
                    out.append("X ");
                } else if cell == -1 {
                    out.append("O ");
                } else {
                    out.append(". ");
                }
                proof {
                    assert(out@ =~= (out@.subrange(0, out@.len() - 2) + seq![
                        crate::connect4::cell_char(g[row as int][col as int]),
                        ' ',
                    ]));
                }
                col = col + 1;
            }
            proof {
                reveal_strlit("\n");
            }
            out.append("\n");
            row = row + 1;
        }
        out
    }
}

/// A longer prefix of the legal-move list extends a shorter one.
proof fn lemma_ttt_prefix(g: Seq<Seq<i8>>, n1: int, n2: int)
    requires
        0 <= n1 <= n2,
    ensures
        ttt_avail_up_to(g, n2).len() >= ttt_avail_up_to(g, n1).len(),
        forall|t: int|
            0 <= t < ttt_avail_up_to(g, n1).len() ==> #[trigger] ttt_avail_up_to(g, n2)[t]
                == ttt_avail_up_to(g, n1)[t],
    decreases n2 - n1,
{
    if n1 < n2 {
        lemma_ttt_prefix(g, n1, n2 - 1);
    }
}

impl GeneralGame for TicTacToe {
    open spec fn wf(&self) -> bool {
        self.well_formed()
    }

    open spec fn model(&self) -> Seq<Seq<i8>> {
        self.grid()
    }

    open spec fn score_spec(&self) -> int {
        ttt_score(self.grid())
    }

    open spec fn avail_spec(&self) -> Seq<usize> {
        ttt_avail_up_to(self.grid(), 9)
    }

    open spec fn free_spec(&self) -> nat {
        free_in_grid(self.grid(), 3, 3)
    }

    open spec fn apply_spec(&self, index: usize, player: i8) -> Seq<Seq<i8>> {
        self.grid().update(
            index as int / 3,
            self.grid()[index as int / 3].update(index as int % 3, player),
        )
    }

    fn get_score(&self) -> (r: i8) {
        self.get_score()
    }

    fn get_available(&self) -> (r: Vec<usize>) {
        let pairs = self.get_available();
        let mut out: Vec<usize> = Vec::new();
        let mut t: usize = 0;
        proof {
            lemma_ttt_prefix(self.grid(), 0, 9);
        }
        while t < pairs.len()
            invariant
                self.well_formed(),
                t <= pairs@.len(),
                pairs@.len() == ttt_avail_up_to(self.grid(), 9).len(),
                forall|u: int|
                    0 <= u < pairs@.len() ==> #[trigger] pairs@[u] == (
                        (ttt_avail_up_to(self.grid(), 9)[u] as usize / 3),
                        (ttt_avail_up_to(self.grid(), 9)[u] as usize % 3),
                    ),
                out@.len() == t,
                forall|u: int|
                    0 <= u < t ==> #[trigger] out@[u] == ttt_avail_up_to(self.grid(), 9)[u],
            decreases pairs@.len() - t,
        {
            let (pi, pj) = pairs[t];
            proof {
                let x = ttt_avail_up_to(self.grid(), 9)[t as int];
                assert(pi == x as usize / 3 && pj == x as usize % 3);
                assert((x as int / 3) * 3 + (x as int % 3) == x as int) by (nonlinear_arith);
            }
            out.push(pi * 3 + pj);
            t = t + 1;
        }
        proof {
            assert(out@ =~= ttt_avail_up_to(self.grid(), 9));
        }
        out
    }

    fn update(&mut self, index: usize, player: i8) {
        proof {
            lemma_ttt_avail_contains(old(self).grid(), 9, index);
            assert(index < 9);
            assert(index as int / 3 < 3 && index as int % 3 < 3) by (nonlinear_arith)
                requires index < 9;
        }
        let r = index / 3;
        let c = index % 3;
        let ghost g0 = self.grid();
        self.update((r, c), player);
        proof {
            lemma_free_grid_update(g0, 3, 3, index as int / 3, index as int % 3, player);
        }
    }

    fn clone_game(&self) -> (r: Self) {
        TicTacToe { board: copy_grid(&self.board) }
    }
}

} // verus!
