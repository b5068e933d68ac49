//! The server's minesweeper: a board of rows of cells on top of the
//! turn-based base game, with mines laid on the first reveal and a flood
//! that opens every cell next to an opened cell with no mine around it.

use vstd::prelude::*;
use serde_json::Value;
use crate::platform::{
    json_array, json_as_u64, json_bool, json_boolean, json_get, json_list, json_member, json_number, json_object, json_unsigned,
    json_record, json_u64, shuffle,
};
use crate::game::minesweeper::{lemma_push_contains, lemma_same_elements};
use crate::server::game::{BaseGame, GameEvent, GameResult};
use crate::server::utils::{find_param, pairs_map};

verus! {

/// One square of the board.
#[derive(Debug, Clone, Copy, PartialEq, Eq, Structural)]
pub struct Cell {
    pub has_mine: bool,
    pub is_revealed: bool,
    pub is_flagged: bool,
    /// Mines on the (up to eight) squares around; kept for squares
    /// without a mine.
    pub adjacent_mines: u8,
}

/// A square as a player may see it.
#[derive(Debug, Clone, Copy, PartialEq, Eq, Structural)]
pub enum PlayerCell {
    Hidden,
    Revealed(u8),
    Flagged,
    Mine,
}

/// What a player sees of `c`: an opened square shows its mine or its
/// number, a closed one only its flag.
pub open spec fn player_view(c: Cell) -> PlayerCell {
    if c.is_revealed {
        if c.has_mine {
            PlayerCell::Mine
        } else {
            PlayerCell::Revealed(c.adjacent_mines)
        }
    } else if c.is_flagged {
        PlayerCell::Flagged
    } else {
        PlayerCell::Hidden
    }
}

/// A closed square shows at most its flag: never a mine or a number, and
/// the same whether or not it holds a mine. An opened square shows a mine
/// exactly when it holds one, and otherwise its count of mines around.
pub proof fn lemma_closed_squares_hide_mines(c: Cell)
    ensures
        !c.is_revealed ==> (player_view(c) is Hidden || player_view(c) is Flagged),
        !c.is_revealed ==> (player_view(c) is Flagged <==> c.is_flagged),
        !c.is_revealed ==> player_view(c) == player_view(Cell { has_mine: !c.has_mine, ..c }),
        c.is_revealed ==> (player_view(c) is Mine <==> c.has_mine),
        c.is_revealed && !c.has_mine ==> player_view(c) == PlayerCell::Revealed(c.adjacent_mines),
{
}

/// A square before the game: closed, unflagged, no mine.
pub open spec fn blank_cell() -> Cell {
    Cell { has_mine: false, is_revealed: false, is_flagged: false, adjacent_mines: 0 }
}

/// The sum of `w` over `s`.
pub open spec fn sum_of<A>(s: Seq<A>, w: spec_fn(A) -> nat) -> nat
    decreases s.len(),
{
    if s.len() == 0 {
        0
    } else {
        sum_of(s.drop_last(), w) + w(s.last())
    }
}

/// Replacing one element changes the sum by the difference of the weights.
pub proof fn lemma_sum_update<A>(s: Seq<A>, i: int, a: A, w: spec_fn(A) -> nat)
    requires
        0 <= i < s.len(),
    ensures
        sum_of(s.update(i, a), w) + w(s[i]) == sum_of(s, w) + w(a),
    decreases s.len(),
{
    if i < s.len() - 1 {
        assert(s.update(i, a).drop_last() =~= s.drop_last().update(i, a));
        lemma_sum_update(s.drop_last(), i, a, w);
    } else {
        assert(s.update(i, a).drop_last() =~= s.drop_last());
    }
}

/// Sums compare as their terms do, element by element.
pub proof fn lemma_sum_le<A, B>(s1: Seq<A>, s2: Seq<B>, w1: spec_fn(A) -> nat, w2: spec_fn(B) -> nat)
    requires
        s1.len() == s2.len(),
        forall|i: int| 0 <= i < s1.len() ==> w1(#[trigger] s1[i]) <= w2(s2[i]),
    ensures
        sum_of(s1, w1) <= sum_of(s2, w2),
    decreases s1.len(),
{
    if s1.len() > 0 {
        lemma_sum_le(s1.drop_last(), s2.drop_last(), w1, w2);
    }
}

/// Sums agree when their terms do, element by element.
pub proof fn lemma_sum_eq<A, B>(s1: Seq<A>, s2: Seq<B>, w1: spec_fn(A) -> nat, w2: spec_fn(B) -> nat)
    requires
        s1.len() == s2.len(),
        forall|i: int| 0 <= i < s1.len() ==> w1(#[trigger] s1[i]) == w2(s2[i]),
    ensures
        sum_of(s1, w1) == sum_of(s2, w2),
{
    lemma_sum_le(s1, s2, w1, w2);
    lemma_sum_le(s2, s1, w2, w1);
}

/// A sum of terms of at most `k` is at most `k` times the length.
pub proof fn lemma_sum_bound<A>(s: Seq<A>, w: spec_fn(A) -> nat, k: nat)
    requires
        forall|i: int| 0 <= i < s.len() ==> w(#[trigger] s[i]) <= k,
    ensures
        sum_of(s, w) <= s.len() * k,
    decreases s.len(),
{
    if s.len() > 0 {
        lemma_sum_bound(s.drop_last(), w, k);
        assert(s.len() * k == (s.len() - 1) * k + k) by (nonlinear_arith);
    }
}

/// A sum of zero terms is zero.
pub proof fn lemma_sum_zero<A>(s: Seq<A>, w: spec_fn(A) -> nat)
    requires
        forall|i: int| 0 <= i < s.len() ==> w(#[trigger] s[i]) == 0,
    ensures
        sum_of(s, w) == 0,
    decreases s.len(),
{
    if s.len() > 0 {
        lemma_sum_zero(s.drop_last(), w);
    }
}

/// One for a square that satisfies `p`, zero otherwise.
pub open spec fn tally(p: spec_fn(Cell) -> bool) -> spec_fn(Cell) -> nat {
    |c: Cell|
        if p(c) {
            1nat
        } else {
            0nat
        }
}

/// The squares of a row that satisfy `p`.
pub open spec fn row_tally(p: spec_fn(Cell) -> bool) -> spec_fn(Vec<Cell>) -> nat {
    |row: Vec<Cell>| sum_of(row@, tally(p))
}

/// The squares of a board that satisfy `p`.
pub open spec fn count_board(board: Seq<Vec<Cell>>, p: spec_fn(Cell) -> bool) -> nat {
    sum_of(board, row_tally(p))
}

pub open spec fn revealed_p() -> spec_fn(Cell) -> bool {
    |c: Cell| c.is_revealed
}

pub open spec fn flagged_p() -> spec_fn(Cell) -> bool {
    |c: Cell| c.is_flagged
}

pub open spec fn mine_p() -> spec_fn(Cell) -> bool {
    |c: Cell| c.has_mine
}

/// Changing the square at (`x`, `y`) to `c` changes each count by the
/// difference between the old square and `c`.
pub proof fn lemma_count_set(board: Seq<Vec<Cell>>, row: Vec<Cell>, x: int, y: int, c: Cell, p: spec_fn(Cell) -> bool)
    requires
        0 <= y < board.len(),
        0 <= x < board[y]@.len(),
        row@ == board[y]@.update(x, c),
    ensures
        count_board(board.update(y, row), p) + tally(p)(board[y]@[x]) == count_board(board, p) + tally(p)(c),
{
    lemma_sum_update(board[y]@, x, c, tally(p));
    lemma_sum_update(board, y, row, row_tally(p));
}

/// A board of `h` rows of `w` squares has at most `w * h` squares that
/// satisfy anything.
pub proof fn lemma_count_bound(board: Seq<Vec<Cell>>, w: int, p: spec_fn(Cell) -> bool)
    requires
        w >= 0,
        forall|y: int| 0 <= y < board.len() ==> (#[trigger] board[y])@.len() == w,
    ensures
        count_board(board, p) <= w * board.len(),
{
    assert forall|y: int| 0 <= y < board.len() implies row_tally(p)(#[trigger] board[y]) <= w as nat by {
        lemma_sum_bound(board[y]@, tally(p), 1);
    }
    lemma_sum_bound(board, row_tally(p), w as nat);
    assert(board.len() * (w as nat) == w * board.len()) by (nonlinear_arith)
        requires
            w >= 0,
    ;
}

/// Boards whose squares agree on `p` count alike.
pub proof fn lemma_count_same(b1: Seq<Vec<Cell>>, b2: Seq<Vec<Cell>>, p: spec_fn(Cell) -> bool)
    requires
        b1.len() == b2.len(),
        forall|y: int| 0 <= y < b1.len() ==> (#[trigger] b1[y])@.len() == b2[y]@.len(),
        forall|y: int, x: int|
            0 <= y < b1.len() && 0 <= x < b1[y]@.len() ==> p(#[trigger] b1[y]@[x]) == p(b2[y]@[x]),
    ensures
        count_board(b1, p) == count_board(b2, p),
{
    assert forall|y: int| 0 <= y < b1.len() implies row_tally(p)(#[trigger] b1[y]) == row_tally(p)(b2[y]) by {
        assert forall|x: int| 0 <= x < b1[y]@.len() implies tally(p)(#[trigger] b1[y]@[x]) == tally(p)(
            b2[y]@[x],
        ) by {
            assert(p(b1[y]@[x]) == p(b2[y]@[x]));
        }
        lemma_sum_eq(b1[y]@, b2[y]@, tally(p), tally(p));
    }
    lemma_sum_eq(b1, b2, row_tally(p), row_tally(p));
}

/// A board on which no square satisfies `p` counts zero.
pub proof fn lemma_count_none(board: Seq<Vec<Cell>>, p: spec_fn(Cell) -> bool)
    requires
        forall|y: int, x: int| 0 <= y < board.len() && 0 <= x < board[y]@.len() ==> !p(#[trigger] board[y]@[x]),
    ensures
        count_board(board, p) == 0,
{
    assert forall|y: int| 0 <= y < board.len() implies row_tally(p)(#[trigger] board[y]) == 0 by {
        assert forall|x: int| 0 <= x < board[y]@.len() implies tally(p)(#[trigger] board[y]@[x]) == 0 by {
            assert(!p(board[y]@[x]));
        }
        lemma_sum_zero(board[y]@, tally(p));
    }
    lemma_sum_zero(board, row_tally(p));
}

/// The server's minesweeper game.
pub struct MinesweeperGame {
    /// Seats, turns, start and end.
    pub base: BaseGame,
    pub width: usize,
    pub height: usize,
    pub mines: usize,
    /// `height` rows of `width` squares.
    pub board: Vec<Vec<Cell>>,
    pub revealed_count: usize,
    pub flagged_count: usize,
    pub game_over: bool,
}

impl MinesweeperGame {
    pub open spec fn in_grid(self, x: int, y: int) -> bool {
        0 <= x < self.width && 0 <= y < self.height
    }

    /// The square in column `x` of row `y`.
    pub open spec fn cell(self, x: int, y: int) -> Cell {
        self.board@[y]@[x]
    }

    /// `height` rows of `width` squares.
    pub open spec fn shaped(self) -> bool {
        &&& self.board@.len() == self.height
        &&& forall|y: int| 0 <= y < self.height ==> (#[trigger] self.board@[y])@.len() == self.width
    }

    /// The board has its shape, the counters count the opened and the
    /// flagged squares, and no mine lies before the first square opens.
    pub open spec fn wf(self) -> bool {
        &&& self.counted()
        &&& self.revealed_count == 0 ==> count_board(self.board@, mine_p()) == 0
    }

    /// The board has its shape and the counters count the opened and the
    /// flagged squares.
    pub open spec fn counted(self) -> bool {
        &&& self.base.wf()
        &&& self.shaped()
        &&& self.width * self.height <= usize::MAX
        &&& self.revealed_count == count_board(self.board@, revealed_p())
        &&& self.flagged_count == count_board(self.board@, flagged_p())
    }

    /// Whether `self` and `other` hold the same squares.
    pub open spec fn same_board(self, other: Self) -> bool {
        &&& self.board@.len() == other.board@.len()
        &&& forall|y: int| 0 <= y < self.board@.len() ==> (#[trigger] self.board@[y])@ == other.board@[y]@
    }
}

/// A term of a sum is at most the sum.
pub proof fn lemma_sum_term<A>(s: Seq<A>, i: int, w: spec_fn(A) -> nat)
    requires
        0 <= i < s.len(),
    ensures
        w(s[i]) <= sum_of(s, w),
    decreases s.len(),
{
    if i < s.len() - 1 {
        lemma_sum_term(s.drop_last(), i, w);
    }
}

/// A board that counts no square satisfying `p` has none.
pub proof fn lemma_count_zero(board: Seq<Vec<Cell>>, p: spec_fn(Cell) -> bool, x: int, y: int)
    requires
        count_board(board, p) == 0,
        0 <= y < board.len(),
        0 <= x < board[y]@.len(),
    ensures
        !p(board[y]@[x]),
{
    lemma_sum_term(board[y]@, x, tally(p));
    lemma_sum_term(board, y, row_tally(p));
}

/// The `k`-th square of the three-by-three block around (`x`, `y`),
/// reading its rows from the top, when it lies on a `w` by `h` board and
/// is not (`x`, `y`) itself (`k` = 4).
pub open spec fn around(w: int, h: int, x: int, y: int, k: int) -> Option<(int, int)> {
    let nx = x + k % 3 - 1;
    let ny = y + k / 3 - 1;
    if k != 4 && 0 <= nx < w && 0 <= ny < h {
        Some((nx, ny))
    } else {
        None
    }
}

/// Whether (`x`, `y`) is (`fx`, `fy`) or one of the eight squares around.
pub open spec fn in_safe_zone(fx: int, fy: int, x: int, y: int) -> bool {
    -1 <= x - fx <= 1 && -1 <= y - fy <= 1
}

/// How many of the indices below `n` lie within one of `f`.
pub open spec fn near_count(f: int, n: int) -> int {
    let hi = if f + 2 < n {
        f + 2
    } else {
        n
    };
    let lo = if f - 1 > 0 {
        f - 1
    } else {
        0
    };
    if hi > lo {
        hi - lo
    } else {
        0
    }
}

/// How many squares of a `w` by `h` board lie in the safe zone around
/// (`fx`, `fy`).
pub open spec fn safe_count(w: int, h: int, fx: int, fy: int) -> int {
    near_count(fx, w) * near_count(fy, h)
}

/// The square `k` of the block around (`x`, `y`) on a `w` by `h` board.
fn neighbor(w: usize, h: usize, x: usize, y: usize, k: usize) -> (r: Option<(usize, usize)>)
    requires
        x < w,
        y < h,
        k < 9,
    ensures
        match around(w as int, h as int, x as int, y as int, k as int) {
            Some((a, b)) => r == Some((a as usize, b as usize)),
            None => r is None,
        },
{
    if k == 4 {
        return None;
    }
    let dx = k % 3;
    let dy = k / 3;
    let nx = if dx == 0 {
        if x == 0 {
            return None;
        }
        x - 1
    } else if dx == 1 {
        x
    } else {
        if x + 1 >= w {
            return None;
        }
        x + 1
    };
    let ny = if dy == 0 {
        if y == 0 {
            return None;
        }
        y - 1
    } else if dy == 1 {
        y
    } else {
        if y + 1 >= h {
            return None;
        }
        y + 1
    };
    Some((nx, ny))
}

/// The settings a new game records: its width, height and mines.
pub open spec fn size_config(width: usize, height: usize, mines: usize) -> Value {
    json_record(
        seq![
            ("width"@, json_number(width as u64)),
            ("height"@, json_number(height as u64)),
            ("mines"@, json_number(mines as u64)),
        ],
    )
}

/// A row of `width` blank squares.
fn blank_row(width: usize) -> (r: Vec<Cell>)
    ensures
        r@.len() == width,
        forall|x: int| 0 <= x < width ==> #[trigger] r@[x] == blank_cell(),
{
    let mut row: Vec<Cell> = Vec::new();
    let mut x: usize = 0;
    while x < width
        invariant
            x <= width,
            row@.len() == x,
            forall|i: int| 0 <= i < x ==> #[trigger] row@[i] == blank_cell(),
        decreases width - x,
    {
        row.push(Cell { has_mine: false, is_revealed: false, is_flagged: false, adjacent_mines: 0 });
        x = x + 1;
    }
    row
}

impl MinesweeperGame {
    /// A game of `width` by `height` squares with `mines` mines, for one
    /// to four players; every square starts closed and empty, the mines
    /// are laid on the first reveal.
    pub fn new(width: usize, height: usize, mines: usize) -> (r: MinesweeperGame)
        requires
            width * height <= usize::MAX,
        ensures
            r.wf(),
            r.width == width,
            r.height == height,
            r.mines == mines,
            r.revealed_count == 0,
            r.flagged_count == 0,
            !r.game_over,
            forall|x: int, y: int| r.in_grid(x, y) ==> #[trigger] r.cell(x, y) == blank_cell(),
            r.base.name@ == "Minesweeper"@,
            r.base.min_players == 1,
            r.base.max_players == 4,
            r.base.players@.len() == 0,
            !r.base.started,
            !r.base.ended,
            r.base.turn_player_id is None,
            r.base.turn_number == 0,
            r.base.result is None,
            r.base.custom_config == size_config(width, height, mines),
    {
        let mut base = BaseGame::new(String::from_str("Minesweeper"), 1, 4);
        let mut entries: Vec<(String, Value)> = Vec::new();
        entries.push((String::from_str("width"), json_u64(width as u64)));
        entries.push((String::from_str("height"), json_u64(height as u64)));
        entries.push((String::from_str("mines"), json_u64(mines as u64)));
        proof {
            reveal_strlit("width");
            reveal_strlit("height");
            reveal_strlit("mines");
            assert(entries@.map_values(|e: (String, Value)| (e.0@, e.1)) =~= seq![
                ("width"@, json_number(width as u64)),
                ("height"@, json_number(height as u64)),
                ("mines"@, json_number(mines as u64)),
            ]);
        }
        base.set_custom_config(json_object(entries));
        let mut board: Vec<Vec<Cell>> = Vec::new();
        let mut y: usize = 0;
        while y < height
            invariant
                y <= height,
                board@.len() == y,
                forall|yy: int| 0 <= yy < y ==> (#[trigger] board@[yy])@.len() == width,
                forall|yy: int, x: int| 0 <= yy < y && 0 <= x < width ==> #[trigger] board@[yy]@[x] == blank_cell(),
            decreases height - y,
        {
            board.push(blank_row(width));
            y = y + 1;
        }
        proof {
            lemma_count_none(board@, revealed_p());
            lemma_count_none(board@, flagged_p());
            lemma_count_none(board@, mine_p());
        }
        MinesweeperGame {
            base,
            width,
            height,
            mines,
            board,
            revealed_count: 0,
            flagged_count: 0,
            game_over: false,
        }
    }

    /// Writes `c` into column `x` of row `y`.
    fn set_cell(&mut self, x: usize, y: usize, c: Cell)
        requires
            old(self).shaped(),
            x < old(self).width,
            y < old(self).height,
        ensures
            final(self).shaped(),
            final(self).board@ == old(self).board@.update(y as int, final(self).board@[y as int]),
            final(self).board@[y as int]@ == old(self).board@[y as int]@.update(x as int, c),
            *final(self) == (MinesweeperGame { board: final(self).board, ..*old(self) }),
            forall|xx: int, yy: int|
                old(self).in_grid(xx, yy) ==> #[trigger] final(self).cell(xx, yy) == if xx == x && yy == y {
                    c
                } else {
                    old(self).cell(xx, yy)
                },
    {
        self.board[y].set(x, c);
        proof {
            assert forall|xx: int, yy: int| old(self).in_grid(xx, yy) implies #[trigger] self.cell(xx, yy)
                == if xx == x && yy == y {
                c
            } else {
                old(self).cell(xx, yy)
            } by {
                if yy != y {
                    assert(self.board@[yy] == old(self).board@[yy]);
                }
            }
        }
    }

    /// Flags or unflags the closed square (`x`, `y`) and tells whether it
    /// is flagged now; an opened square stays as it is (`false`), and a
    /// square off the board is refused.
    fn toggle_flag(&mut self, x: usize, y: usize) -> (r: Result<bool, String>)
        requires
            old(self).wf(),
        ensures
            final(self).wf(),
            !old(self).in_grid(x as int, y as int) ==> (r matches Err(e) && e@ == "座標が範囲外です"@)
                && *final(self) == *old(self),
            old(self).in_grid(x as int, y as int) && old(self).cell(x as int, y as int).is_revealed ==> r
                == Ok::<bool, String>(false) && *final(self) == *old(self),
            old(self).in_grid(x as int, y as int) && !old(self).cell(x as int, y as int).is_revealed ==> {
                let c = old(self).cell(x as int, y as int);
                let flipped = Cell { is_flagged: !c.is_flagged, ..c };
                &&& r == Ok::<bool, String>(!c.is_flagged)
                &&& final(self).board@[y as int]@ == old(self).board@[y as int]@.update(x as int, flipped)
                &&& final(self).board@ == old(self).board@.update(y as int, final(self).board@[y as int])
                &&& final(self).flagged_count == if c.is_flagged {
                    old(self).flagged_count - 1
                } else {
                    old(self).flagged_count + 1
                }
                &&& *final(self) == (MinesweeperGame {
                    board: final(self).board,
                    flagged_count: final(self).flagged_count,
                    ..*old(self)
                })
            },
    {
        if x >= self.width || y >= self.height {
            return Err(String::from_str("座標が範囲外です"));
        }
        let c = self.board[y][x];
        if c.is_revealed {
            return Ok(false);
        }
        let flipped = Cell { is_flagged: !c.is_flagged, ..c };
        let ghost before = *self;
        self.set_cell(x, y, flipped);
        proof {
            lemma_count_set(before.board@, self.board@[y as int], x as int, y as int, flipped, flagged_p());
            lemma_count_set(before.board@, self.board@[y as int], x as int, y as int, flipped, revealed_p());
            lemma_count_set(before.board@, self.board@[y as int], x as int, y as int, flipped, mine_p());
            lemma_count_bound(self.board@, self.width as int, flagged_p());
            assert(self.width * self.board@.len() <= usize::MAX);
        }
        if flipped.is_flagged {
            self.flagged_count = self.flagged_count + 1;
        } else {
            self.flagged_count = self.flagged_count - 1;
        }
        Ok(flipped.is_flagged)
    }

    /// Whether every square without a mine is open: the opened squares
    /// and the mines fill the board.
    fn is_cleared(&self) -> (r: bool)
        ensures
            r == (self.revealed_count + self.mines == self.width * self.height),
    {
        let opened_and_mines: u128 = (self.revealed_count as u128) + (self.mines as u128);
        let w: u128 = self.width as u128;
        let h: u128 = self.height as u128;
        assert(w * h <= 0xffff_ffff_ffff_ffffu128 * 0xffff_ffff_ffff_ffffu128) by (nonlinear_arith)
            requires
                w <= 0xffff_ffff_ffff_ffffu128,
                h <= 0xffff_ffff_ffff_ffffu128,
        ;
        let squares: u128 = w * h;
        opened_and_mines == squares
    }

    /// The board as the players see it, row by row.
    pub fn get_player_board(&self) -> (r: Vec<Vec<PlayerCell>>)
        requires
            self.shaped(),
        ensures
            r@.len() == self.height,
            forall|y: int| 0 <= y < self.height ==> (#[trigger] r@[y])@.len() == self.width,
            forall|x: int, y: int|
                self.in_grid(x, y) ==> #[trigger] r@[y]@[x] == player_view(self.cell(x, y)),
            forall|x: int, y: int|
                self.in_grid(x, y) && !self.cell(x, y).is_revealed ==> (#[trigger] r@[y]@[x] is Hidden
                    || r@[y]@[x] is Flagged),
            forall|x: int, y: int|
                self.in_grid(x, y) && self.cell(x, y).is_revealed ==> (#[trigger] r@[y]@[x] is Mine
                    <==> self.cell(x, y).has_mine),
    {
        let mut rows: Vec<Vec<PlayerCell>> = Vec::new();
        let mut y: usize = 0;
        while y < self.height
            invariant
                self.shaped(),
                y <= self.height,
                rows@.len() == y,
                forall|yy: int| 0 <= yy < y ==> (#[trigger] rows@[yy])@.len() == self.width,
                forall|x: int, yy: int|
                    0 <= yy < y && 0 <= x < self.width ==> #[trigger] rows@[yy]@[x] == player_view(
                        self.cell(x, yy),
                    ),
            decreases self.height - y,
        {
            let mut row: Vec<PlayerCell> = Vec::new();
            let mut x: usize = 0;
            while x < self.width
                invariant
                    self.shaped(),
                    y < self.height,
                    x <= self.width,
                    row@.len() == x,
                    forall|i: int| 0 <= i < x ==> #[trigger] row@[i] == player_view(self.cell(i, y as int)),
                decreases self.width - x,
            {
                let cell = self.board[y][x];
                let seen = if cell.is_revealed {
                    if cell.has_mine {
                        PlayerCell::Mine
                    } else {
                        PlayerCell::Revealed(cell.adjacent_mines)
                    }
                } else if cell.is_flagged {
                    PlayerCell::Flagged
                } else {
                    PlayerCell::Hidden
                };
                row.push(seen);
                x = x + 1;
            }
            rows.push(row);
            y = y + 1;
        }
        rows
    }
}

impl MinesweeperGame {
    /// One when the square `p` holds a mine.
    pub open spec fn mine_at(self, p: Option<(int, int)>) -> nat {
        match p {
            Some((a, b)) => if self.cell(a, b).has_mine {
                1nat
            } else {
                0nat
            },
            None => 0nat,
        }
    }

    /// The mines among the first `k` squares of the block around (`x`, `y`).
    pub open spec fn mines_upto(self, x: int, y: int, k: nat) -> nat
        decreases k,
    {
        if k == 0 {
            0
        } else {
            self.mines_upto(x, y, (k - 1) as nat) + self.mine_at(
                around(self.width as int, self.height as int, x, y, k - 1),
            )
        }
    }

    /// The mines on the squares around (`x`, `y`).
    pub open spec fn mines_around(self, x: int, y: int) -> nat {
        self.mines_upto(x, y, 9)
    }

    /// Every square without a mine shows the mines around it.
    pub open spec fn numbers_right(self) -> bool {
        forall|x: int, y: int|
            self.in_grid(x, y) && !self.cell(x, y).has_mine ==> #[trigger] self.cell(x, y).adjacent_mines
                == self.mines_around(x, y)
    }

    /// `other` has the same size and the same mines as `self`.
    pub open spec fn same_mines(self, other: Self) -> bool {
        &&& self.width == other.width
        &&& self.height == other.height
        &&& forall|x: int, y: int|
            self.in_grid(x, y) ==> (#[trigger] self.cell(x, y)).has_mine == other.cell(x, y).has_mine
    }
}

/// There are no more mines around a square than squares around it.
pub proof fn lemma_mines_upto_bound(g: MinesweeperGame, x: int, y: int, k: nat)
    ensures
        g.mines_upto(x, y, k) <= k,
    decreases k,
{
    if k > 0 {
        lemma_mines_upto_bound(g, x, y, (k - 1) as nat);
    }
}

/// The mines around a square depend on the mines alone.
pub proof fn lemma_mines_upto_same(g1: MinesweeperGame, g2: MinesweeperGame, x: int, y: int, k: nat)
    requires
        g1.same_mines(g2),
    ensures
        g1.mines_upto(x, y, k) == g2.mines_upto(x, y, k),
    decreases k,
{
    if k > 0 {
        lemma_mines_upto_same(g1, g2, x, y, (k - 1) as nat);
        let p = around(g1.width as int, g1.height as int, x, y, k - 1);
        if let Some((a, b)) = p {
            assert(g1.cell(a, b).has_mine == g2.cell(a, b).has_mine);
        }
    }
}

impl MinesweeperGame {
    /// The mines on the squares around (`x`, `y`).
    fn count_adjacent(&self, x: usize, y: usize) -> (r: u8)
        requires
            self.shaped(),
            x < self.width,
            y < self.height,
        ensures
            r == self.mines_around(x as int, y as int),
    {
        let mut count: u8 = 0;
        let mut k: usize = 0;
        while k < 9
            invariant
                self.shaped(),
                x < self.width,
                y < self.height,
                k <= 9,
                count == self.mines_upto(x as int, y as int, k as nat),
            decreases 9 - k,
        {
            proof {
                lemma_mines_upto_bound(*self, x as int, y as int, k as nat);
            }
            match neighbor(self.width, self.height, x, y, k) {
                Some((nx, ny)) => {
                    if self.board[ny][nx].has_mine {
                        count = count + 1;
                    }
                },
                None => {},
            }
            k = k + 1;
        }
        count
    }

    /// Writes into every square without a mine the mines around it.
    fn number_squares(&mut self)
        requires
            old(self).shaped(),
        ensures
            final(self).shaped(),
            final(self).numbers_right(),
            final(self).same_mines(*old(self)),
            forall|x: int, y: int|
                old(self).in_grid(x, y) ==> {
                    let c = old(self).cell(x, y);
                    let d = #[trigger] final(self).cell(x, y);
                    &&& d.is_revealed == c.is_revealed
                    &&& d.is_flagged == c.is_flagged
                    &&& c.has_mine ==> d == c
                },
            *final(self) == (MinesweeperGame { board: final(self).board, ..*old(self) }),
    {
        let ghost start = *self;
        let mut y: usize = 0;
        while y < self.height
            invariant
                self.shaped(),
                y <= self.height,
                self.same_mines(start),
                start.shaped(),
                *self == (MinesweeperGame { board: self.board, ..start }),
                forall|x: int, yy: int|
                    self.in_grid(x, yy) ==> {
                        let c = start.cell(x, yy);
                        let d = #[trigger] self.cell(x, yy);
                        &&& d.is_revealed == c.is_revealed
                        &&& d.is_flagged == c.is_flagged
                        &&& c.has_mine ==> d == c
                        &&& yy >= y ==> d == c
                        &&& yy < y && !c.has_mine ==> d.adjacent_mines == start.mines_around(x, yy)
                    },
            decreases self.height - y,
        {
            let mut x: usize = 0;
            while x < self.width
                invariant
                    self.shaped(),
                    y < self.height,
                    x <= self.width,
                    self.same_mines(start),
                    start.shaped(),
                    *self == (MinesweeperGame { board: self.board, ..start }),
                    forall|xx: int, yy: int|
                        self.in_grid(xx, yy) ==> {
                            let c = start.cell(xx, yy);
                            let d = #[trigger] self.cell(xx, yy);
                            &&& d.is_revealed == c.is_revealed
                            &&& d.is_flagged == c.is_flagged
                            &&& c.has_mine ==> d == c
                            &&& (yy > y || (yy == y && xx >= x)) ==> d == c
                            &&& (yy < y || (yy == y && xx < x)) && !c.has_mine ==> d.adjacent_mines
                                == start.mines_around(xx, yy)
                        },
                decreases self.width - x,
            {
                let c = self.board[y][x];
                if !c.has_mine {
                    let n = self.count_adjacent(x, y);
                    proof {
                        lemma_mines_upto_same(*self, start, x as int, y as int, 9);
                    }
                    let ghost before = *self;
                    self.set_cell(x, y, Cell { adjacent_mines: n, ..c });
                    proof {
                        assert forall|xx: int, yy: int| self.in_grid(xx, yy) implies (#[trigger] self.cell(
                            xx,
                            yy,
                        )).has_mine == start.cell(xx, yy).has_mine by {
                            assert(before.cell(xx, yy).has_mine == start.cell(xx, yy).has_mine);
                            assert(self.cell(xx, yy) == if xx == x && yy == y {
                                Cell { adjacent_mines: n, ..c }
                            } else {
                                before.cell(xx, yy)
                            });
                        }
                        assert forall|xx: int, yy: int| self.in_grid(xx, yy) implies {
                            let c0 = start.cell(xx, yy);
                            let d = #[trigger] self.cell(xx, yy);
                            &&& d.is_revealed == c0.is_revealed
                            &&& d.is_flagged == c0.is_flagged
                            &&& c0.has_mine ==> d == c0
                            &&& (yy > y || (yy == y && xx >= x + 1)) ==> d == c0
                            &&& (yy < y || (yy == y && xx < x + 1)) && !c0.has_mine ==> d.adjacent_mines
                                == start.mines_around(xx, yy)
                        } by {
                            assert(before.cell(xx, yy).has_mine == start.cell(xx, yy).has_mine);
                            assert(n == start.mines_around(x as int, y as int));
                            assert(self.cell(xx, yy) == if xx == x && yy == y {
                                Cell { adjacent_mines: n, ..c }
                            } else {
                                before.cell(xx, yy)
                            });
                        }
                    }
                }
                x = x + 1;
            }
            y = y + 1;
        }
        proof {
            assert forall|x: int, y: int|
                self.in_grid(x, y) && !self.cell(x, y).has_mine implies #[trigger] self.cell(
                x,
                y,
            ).adjacent_mines == self.mines_around(x, y) by {
                lemma_mines_upto_same(*self, start, x, y, 9);
            }
        }
    }
}

/// One more index counts when it lies within one of `f`.
pub proof fn lemma_near_count_step(f: int, n: int)
    requires
        0 <= f,
        0 <= n,
    ensures
        near_count(f, n + 1) == near_count(f, n) + if -1 <= n - f <= 1 {
            1int
        } else {
            0int
        },
{
}

/// Whether square `p` comes before square `q`, row by row.
pub open spec fn before_in_rows(p: (usize, usize), q: (usize, usize)) -> bool {
    p.1 < q.1 || (p.1 == q.1 && p.0 < q.0)
}

impl MinesweeperGame {
    /// Where a mine may go for a first reveal at (`fx`, `fy`): on the
    /// board, off the safe zone, on a square without one.
    pub open spec fn mine_spot(self, fx: int, fy: int, a: int, b: int) -> bool {
        self.in_grid(a, b) && !self.cell(a, b).has_mine && !in_safe_zone(fx, fy, a, b)
    }

    /// The squares where a mine may go, row by row.
    fn mine_candidates(&self, fx: usize, fy: usize) -> (r: Vec<(usize, usize)>)
        requires
            self.shaped(),
            fx < self.width,
            fy < self.height,
        ensures
            r@.no_duplicates(),
            forall|i: int|
                0 <= i < r@.len() ==> self.mine_spot(fx as int, fy as int, (#[trigger] r@[i]).0 as int, r@[i].1 as int),
            forall|a: int, b: int|
                #[trigger] self.mine_spot(fx as int, fy as int, a, b) ==> r@.contains((a as usize, b as usize)),
            count_board(self.board@, mine_p()) == 0 ==> r@.len() == self.width * self.height - safe_count(
                self.width as int,
                self.height as int,
                fx as int,
                fy as int,
            ),
    {
        let ghost no_mines = count_board(self.board@, mine_p()) == 0;
        let ghost w = self.width as int;
        let ghost big = near_count(fx as int, w);
        let mut r: Vec<(usize, usize)> = Vec::new();
        let mut y: usize = 0;
        while y < self.height
            invariant
                self.shaped(),
                fx < self.width,
                fy < self.height,
                y <= self.height,
                w == self.width,
                big == near_count(fx as int, w),
                no_mines == (count_board(self.board@, mine_p()) == 0),
                forall|i: int, j: int| 0 <= i < j < r@.len() ==> before_in_rows(#[trigger] r@[i], #[trigger] r@[j]),
                forall|i: int| 0 <= i < r@.len() ==> (#[trigger] r@[i]).1 < y,
                forall|i: int|
                    0 <= i < r@.len() ==> self.mine_spot(fx as int, fy as int, (#[trigger] r@[i]).0 as int, r@[i].1 as int),
                forall|a: int, b: int|
                    #[trigger] self.mine_spot(fx as int, fy as int, a, b) && b < y ==> r@.contains((a as usize, b as usize)),
                no_mines ==> r@.len() == y * w - near_count(fy as int, y as int) * big,
            decreases self.height - y,
        {
            let ghost row_start = r@.len();
            let mut x: usize = 0;
            while x < self.width
                invariant
                    self.shaped(),
                    fx < self.width,
                    fy < self.height,
                    y < self.height,
                    x <= self.width,
                    w == self.width,
                    no_mines == (count_board(self.board@, mine_p()) == 0),
                    row_start <= r@.len(),
                    forall|i: int, j: int| 0 <= i < j < r@.len() ==> before_in_rows(#[trigger] r@[i], #[trigger] r@[j]),
                    forall|i: int| 0 <= i < row_start ==> (#[trigger] r@[i]).1 < y,
                    forall|i: int| row_start <= i < r@.len() ==> (#[trigger] r@[i]).1 == y && r@[i].0 < x,
                    forall|i: int|
                        0 <= i < r@.len() ==> self.mine_spot(fx as int, fy as int, (#[trigger] r@[i]).0 as int, r@[i].1 as int),
                    forall|a: int, b: int|
                        #[trigger] self.mine_spot(fx as int, fy as int, a, b) && (b < y || (b == y && a < x)) ==> r@.contains(
                            (a as usize, b as usize),
                        ),
                    no_mines ==> r@.len() - row_start == x - if -1 <= y - fy <= 1 {
                        near_count(fx as int, x as int)
                    } else {
                        0
                    },
                decreases self.width - x,
            {
                let dx_near = (x + 1 >= fx && x <= fx + 1);
                let dy_near = (y + 1 >= fy && y <= fy + 1);
                let safe = dx_near && dy_near;
                proof {
                    lemma_near_count_step(fx as int, x as int);
                    if no_mines {
                        lemma_count_zero(self.board@, mine_p(), x as int, y as int);
                    }
                }
                if !self.board[y][x].has_mine && !safe {
                    let ghost before = r@;
                    r.push((x, y));
                    proof {
                        assert forall|a: int, b: int|
                            #[trigger] self.mine_spot(fx as int, fy as int, a, b) && (b < y || (b == y && a < x + 1))
                                implies r@.contains((a as usize, b as usize)) by {
                            if b == y && a == x {
                                assert(r@[r@.len() - 1] == (x, y));
                            } else {
                                assert(before.contains((a as usize, b as usize)));
                                let k = choose|k: int| 0 <= k < before.len() && before[k] == (a as usize, b as usize);
                                assert(r@[k] == before[k]);
                            }
                        }
                    }
                }
                x = x + 1;
            }
            proof {
                if no_mines {
                    let a = near_count(fy as int, y as int);
                    let inband: int = if -1 <= y - fy <= 1 { 1 } else { 0 };
                    lemma_near_count_step(fy as int, y as int);
                    assert((y + 1) * w == y * w + w) by (nonlinear_arith);
                    assert((a + inband) * big == a * big + inband * big) by (nonlinear_arith);
                    assert(inband * big == if inband == 1 { big } else { 0 }) by (nonlinear_arith)
                        requires
                            inband == 0 || inband == 1,
                    ;
                }
            }
            y = y + 1;
        }
        proof {
            assert forall|i: int, j: int| 0 <= i < r@.len() && 0 <= j < r@.len() && i != j implies r@[i] != r@[j] by {
                if i < j {
                    assert(before_in_rows(r@[i], r@[j]));
                } else {
                    assert(before_in_rows(r@[j], r@[i]));
                }
            }
            if no_mines {
                assert(near_count(fy as int, self.height as int) * big == safe_count(
                    self.width as int,
                    self.height as int,
                    fx as int,
                    fy as int,
                )) by (nonlinear_arith)
                    requires
                        big == near_count(fx as int, self.width as int),
                ;
                assert(self.height * w == self.width * self.height) by (nonlinear_arith)
                    requires
                        w == self.width,
                ;
            }
        }
        r
    }
}

impl MinesweeperGame {
    /// `after` is `self` with its mines laid for a first reveal at
    /// (`fx`, `fy`): exactly `mines` of them, none in the safe zone, and
    /// every square without a mine numbered; nothing else changed.
    pub open spec fn mines_laid(self, after: Self, fx: int, fy: int) -> bool {
        &&& after.shaped()
        &&& after == (MinesweeperGame { board: after.board, ..self })
        &&& count_board(after.board@, mine_p()) == self.mines
        &&& after.numbers_right()
        &&& forall|x: int, y: int|
            self.in_grid(x, y) ==> {
                let c = self.cell(x, y);
                let d = #[trigger] after.cell(x, y);
                &&& d.is_revealed == c.is_revealed
                &&& d.is_flagged == c.is_flagged
                &&& d.has_mine ==> !in_safe_zone(fx, fy, x, y)
            }
    }

    /// Lays the mines at random before the first reveal at (`fx`, `fy`):
    /// every square off the three-by-three block around it is equally
    /// likely to get one. Then numbers the squares.
    fn initialize_board(&mut self, fx: usize, fy: usize)
        requires
            old(self).counted(),
            count_board(old(self).board@, mine_p()) == 0,
            fx < old(self).width,
            fy < old(self).height,
            old(self).mines + safe_count(old(self).width as int, old(self).height as int, fx as int, fy as int)
                <= old(self).width * old(self).height,
        ensures
            final(self).counted(),
            old(self).mines_laid(*final(self), fx as int, fy as int),
    {
        let ghost start = *self;
        let cands = self.mine_candidates(fx, fy);
        let order = shuffle(cands);
        proof {
            lemma_same_elements(order@, cands@);
            assert(order@.take(0) =~= Seq::<(usize, usize)>::empty());
            assert forall|x: int, y: int| self.in_grid(x, y) implies !(#[trigger] self.cell(x, y)).has_mine by {
                lemma_count_zero(self.board@, mine_p(), x, y);
            }
        }
        let mut i: usize = 0;
        while i < self.mines
            invariant
                self.shaped(),
                start.shaped(),
                i <= self.mines,
                self.mines <= order@.len(),
                order@.no_duplicates(),
                forall|p: (usize, usize)| order@.contains(p) ==> cands@.contains(p),
                forall|k: int|
                    0 <= k < cands@.len() ==> start.mine_spot(fx as int, fy as int, (#[trigger] cands@[k]).0 as int, cands@[k].1 as int),
                *self == (MinesweeperGame { board: self.board, ..start }),
                count_board(self.board@, mine_p()) == i,
                forall|x: int, y: int|
                    self.in_grid(x, y) ==> {
                        let c = start.cell(x, y);
                        let d = #[trigger] self.cell(x, y);
                        &&& d == Cell { has_mine: d.has_mine, ..c }
                        &&& d.has_mine == order@.take(i as int).contains((x as usize, y as usize))
                    },
            decreases self.mines - i,
        {
            let (x, y) = order[i];
            proof {
                assert(order@.contains(order@[i as int]));
                let k = choose|k: int| 0 <= k < cands@.len() && cands@[k] == (x, y);
                assert(start.mine_spot(fx as int, fy as int, cands@[k].0 as int, cands@[k].1 as int));
                if order@.take(i as int).contains((x, y)) {
                    let j = choose|j: int| 0 <= j < i && order@.take(i as int)[j] == (x, y);
                    assert(order@[j] == order@[i as int]);
                }
                assert(!self.cell(x as int, y as int).has_mine);
            }
            let c = self.board[y][x];
            let ghost before = *self;
            let mined = Cell { has_mine: true, ..c };
            self.set_cell(x, y, mined);
            proof {
                lemma_count_set(before.board@, self.board@[y as int], x as int, y as int, mined, mine_p());
                assert(order@.take(i + 1) =~= order@.take(i as int).push((x, y)));
                assert forall|xx: int, yy: int| self.in_grid(xx, yy) implies {
                    let c0 = start.cell(xx, yy);
                    let d = #[trigger] self.cell(xx, yy);
                    &&& d == Cell { has_mine: d.has_mine, ..c0 }
                    &&& d.has_mine == order@.take(i + 1).contains((xx as usize, yy as usize))
                } by {
                    assert(before.cell(xx, yy) == Cell { has_mine: before.cell(xx, yy).has_mine, ..start.cell(xx, yy) });
                    assert(self.cell(xx, yy) == if xx == x && yy == y {
                        mined
                    } else {
                        before.cell(xx, yy)
                    });
                    lemma_push_contains(order@.take(i as int), (x, y), (xx as usize, yy as usize));
                    if !(xx == x && yy == y) {
                        assert((xx as usize, yy as usize) != (x, y));
                    }
                }
            }
            i = i + 1;
        }
        let ghost laid = *self;
        self.number_squares();
        proof {
            assert forall|x: int, y: int| start.in_grid(x, y) implies {
                let c = start.cell(x, y);
                let d = #[trigger] self.cell(x, y);
                &&& d.is_revealed == c.is_revealed
                &&& d.is_flagged == c.is_flagged
                &&& d.has_mine ==> !in_safe_zone(fx as int, fy as int, x, y)
            } by {
                assert(laid.cell(x, y).has_mine == self.cell(x, y).has_mine);
                if self.cell(x, y).has_mine {
                    let p = (x as usize, y as usize);
                    assert(order@.take(i as int).contains(p));
                    let j = choose|j: int| 0 <= j < i && order@.take(i as int)[j] == p;
                    assert(order@.contains(order@[j]));
                    assert(cands@.contains(p));
                    let k = choose|k: int| 0 <= k < cands@.len() && cands@[k] == p;
                    assert(start.mine_spot(fx as int, fy as int, cands@[k].0 as int, cands@[k].1 as int));
                }
            }
            assert forall|y: int, x: int|
                0 <= y < start.board@.len() && 0 <= x < start.board@[y]@.len() implies revealed_p()(
                #[trigger] start.board@[y]@[x]) == revealed_p()(self.board@[y]@[x]) by {
                assert(self.cell(x, y).is_revealed == start.cell(x, y).is_revealed);
            }
            assert forall|y: int, x: int|
                0 <= y < start.board@.len() && 0 <= x < start.board@[y]@.len() implies flagged_p()(
                #[trigger] start.board@[y]@[x]) == flagged_p()(self.board@[y]@[x]) by {
                assert(self.cell(x, y).is_flagged == start.cell(x, y).is_flagged);
            }
            lemma_count_same(start.board@, self.board@, revealed_p());
            lemma_count_same(start.board@, self.board@, flagged_p());
            assert forall|y: int, x: int|
                0 <= y < laid.board@.len() && 0 <= x < laid.board@[y]@.len() implies mine_p()(
                #[trigger] laid.board@[y]@[x]) == mine_p()(self.board@[y]@[x]) by {
                assert(self.cell(x, y).has_mine == laid.cell(x, y).has_mine);
            }
            lemma_count_same(laid.board@, self.board@, mine_p());
        }
    }
}

/// `q` is one of the eight squares around `p`.
pub open spec fn near(p: (usize, usize), q: (usize, usize)) -> bool {
    p != q && -1 <= p.0 - q.0 <= 1 && -1 <= p.1 - q.1 <= 1
}

/// Neither opened nor flagged: a square a reveal may open.
pub open spec fn closed(c: Cell) -> bool {
    !c.is_revealed && !c.is_flagged
}

/// `c`, opened.
pub open spec fn opened_cell(c: Cell) -> Cell {
    Cell { is_revealed: true, ..c }
}

impl MinesweeperGame {
    /// The square at `p`.
    pub open spec fn at(self, p: (usize, usize)) -> Cell {
        self.cell(p.0 as int, p.1 as int)
    }

    /// The square at `p` has no mine and none around: opening it opens
    /// the squares around too.
    pub open spec fn opens_around(self, p: (usize, usize)) -> bool {
        !self.at(p).has_mine && self.at(p).adjacent_mines == 0
    }

    /// Every square around (`a`, `b`) is opened or flagged.
    pub open spec fn settled_around(self, a: int, b: int) -> bool {
        forall|k: int|
            0 <= k < 9 ==> match #[trigger] around(self.width as int, self.height as int, a, b, k) {
                Some((nx, ny)) => self.cell(nx, ny).is_revealed || self.cell(nx, ny).is_flagged,
                None => true,
            }
    }

    /// Some square listed in `opened` holds a mine.
    pub open spec fn hits_mine(self, opened: Seq<(usize, usize)>) -> bool {
        exists|i: int| 0 <= i < opened.len() && (#[trigger] self.at(opened[i])).has_mine
    }

    /// `after` is `self` with the closed squares listed in `opened` (each
    /// once) opened, the counter moved on by as many, and the game lost
    /// when one of them held a mine; nothing else changed.
    pub open spec fn opened_into(self, after: Self, opened: Seq<(usize, usize)>) -> bool {
        &&& after.shaped()
        &&& after == (MinesweeperGame {
            board: after.board,
            revealed_count: after.revealed_count,
            game_over: after.game_over,
            ..self
        })
        &&& opened.no_duplicates()
        &&& forall|i: int|
            0 <= i < opened.len() ==> self.in_grid((#[trigger] opened[i]).0 as int, opened[i].1 as int)
                && closed(self.at(opened[i]))
        &&& forall|a: int, b: int|
            self.in_grid(a, b) ==> #[trigger] after.cell(a, b) == if opened.contains((a as usize, b as usize)) {
                opened_cell(self.cell(a, b))
            } else {
                self.cell(a, b)
            }
        &&& after.revealed_count == self.revealed_count + opened.len()
        &&& after.game_over == (self.game_over || self.hits_mine(opened))
    }

    /// Each square of `opened` after the first lies around an earlier one
    /// that opens the squares around it.
    pub open spec fn chained(self, opened: Seq<(usize, usize)>) -> bool {
        forall|i: int|
            #![trigger opened[i]]
            0 < i < opened.len() ==> exists|j: int|
                #![trigger opened[j]]
                0 <= j < i && self.opens_around(opened[j]) && near(opened[j], opened[i])
    }

    /// Around every square of `opened` that opens the squares around it,
    /// `after` has opened or flagged them all.
    pub open spec fn spread(self, after: Self, opened: Seq<(usize, usize)>) -> bool {
        forall|i: int|
            0 <= i < opened.len() && self.opens_around(#[trigger] opened[i]) ==> after.settled_around(
                opened[i].0 as int,
                opened[i].1 as int,
            )
    }

    /// A reveal at (`x`, `y`) took `self` to `after`, opening `opened` in
    /// that order: (`x`, `y`) first, then the flood from the squares that
    /// have no mine around them.
    pub open spec fn flooded(self, after: Self, opened: Seq<(usize, usize)>, x: int, y: int) -> bool {
        &&& opened.len() >= 1
        &&& opened[0] == (x as usize, y as usize)
        &&& self.opened_into(after, opened)
        &&& self.chained(opened)
        &&& self.spread(after, opened)
    }
}

/// A list contains what its parts contain.
pub proof fn lemma_concat_contains<A>(s: Seq<A>, t: Seq<A>, a: A)
    ensures
        (s + t).contains(a) <==> s.contains(a) || t.contains(a),
{
    if s.contains(a) {
        let k = choose|k: int| 0 <= k < s.len() && s[k] == a;
        assert((s + t)[k] == a);
    }
    if t.contains(a) {
        let k = choose|k: int| 0 <= k < t.len() && t[k] == a;
        assert((s + t)[s.len() + k] == a);
    }
    if (s + t).contains(a) {
        let k = choose|k: int| 0 <= k < (s + t).len() && (s + t)[k] == a;
        if k < s.len() {
            assert(s[k] == a);
        } else {
            assert(t[k - s.len()] == a);
        }
    }
}

/// Opening squares keeps every opened or flagged square so, and so keeps
/// the squares around a square settled.
pub proof fn lemma_settled_kept(g1: MinesweeperGame, g2: MinesweeperGame, opened: Seq<(usize, usize)>, a: int, b: int)
    requires
        g1.opened_into(g2, opened),
        g1.settled_around(a, b),
    ensures
        g2.settled_around(a, b),
{
    assert forall|k: int| 0 <= k < 9 implies match #[trigger] around(g2.width as int, g2.height as int, a, b, k) {
        Some((nx, ny)) => g2.cell(nx, ny).is_revealed || g2.cell(nx, ny).is_flagged,
        None => true,
    } by {
        if let Some((nx, ny)) = around(g1.width as int, g1.height as int, a, b, k) {
            assert(g1.in_grid(nx, ny));
            assert(g2.cell(nx, ny) == if opened.contains((nx as usize, ny as usize)) {
                opened_cell(g1.cell(nx, ny))
            } else {
                g1.cell(nx, ny)
            });
        }
    }
}

/// Two openings in a row are one opening of both lists, one after the
/// other.
pub proof fn lemma_opened_chain(
    g1: MinesweeperGame,
    g2: MinesweeperGame,
    g3: MinesweeperGame,
    l1: Seq<(usize, usize)>,
    l2: Seq<(usize, usize)>,
)
    requires
        g1.opened_into(g2, l1),
        g2.opened_into(g3, l2),
    ensures
        g1.opened_into(g3, l1 + l2),
        forall|a: int, b: int| g1.in_grid(a, b) ==> (#[trigger] g2.cell(a, b)).has_mine == g1.cell(a, b).has_mine
            && g2.cell(a, b).adjacent_mines == g1.cell(a, b).adjacent_mines,
{
    let l = l1 + l2;
    assert forall|a: int, b: int| g1.in_grid(a, b) implies (#[trigger] g2.cell(a, b)).has_mine == g1.cell(
        a,
        b,
    ).has_mine && g2.cell(a, b).adjacent_mines == g1.cell(a, b).adjacent_mines by {
        assert(g2.cell(a, b) == if l1.contains((a as usize, b as usize)) {
            opened_cell(g1.cell(a, b))
        } else {
            g1.cell(a, b)
        });
    }
    // The second list opens squares that the first left closed.
    assert forall|i: int| 0 <= i < l2.len() implies !l1.contains(#[trigger] l2[i]) by {
        let p = l2[i];
        assert(g2.in_grid(p.0 as int, p.1 as int) && closed(g2.at(p)));
        if l1.contains(p) {
            assert(g2.cell(p.0 as int, p.1 as int) == opened_cell(g1.cell(p.0 as int, p.1 as int)));
        }
    }
    assert forall|i: int, j: int| 0 <= i < l.len() && 0 <= j < l.len() && i != j implies l[i] != l[j] by {
        if i < l1.len() && j >= l1.len() {
            assert(l[j] == l2[j - l1.len()]);
            assert(l1.contains(l[i]));
        } else if j < l1.len() && i >= l1.len() {
            assert(l[i] == l2[i - l1.len()]);
            assert(l1.contains(l[j]));
        }
    }
    assert forall|i: int| 0 <= i < l.len() implies g1.in_grid((#[trigger] l[i]).0 as int, l[i].1 as int)
        && closed(g1.at(l[i])) by {
        if i >= l1.len() {
            let p = l2[i - l1.len()];
            assert(l[i] == p);
            assert(!l1.contains(p));
            assert(g2.in_grid(p.0 as int, p.1 as int));
            assert(g2.cell(p.0 as int, p.1 as int) == g1.cell(p.0 as int, p.1 as int));
        }
    }
    assert forall|a: int, b: int| g1.in_grid(a, b) implies #[trigger] g3.cell(a, b) == if l.contains(
        (a as usize, b as usize),
    ) {
        opened_cell(g1.cell(a, b))
    } else {
        g1.cell(a, b)
    } by {
        let p = (a as usize, b as usize);
        lemma_concat_contains(l1, l2, p);
        assert(g2.in_grid(a, b));
        assert(g3.cell(a, b) == if l2.contains(p) {
            opened_cell(g2.cell(a, b))
        } else {
            g2.cell(a, b)
        });
        assert(g2.cell(a, b) == if l1.contains(p) {
            opened_cell(g1.cell(a, b))
        } else {
            g1.cell(a, b)
        });
        if l2.contains(p) {
            let k = choose|k: int| 0 <= k < l2.len() && l2[k] == p;
            assert(!l1.contains(l2[k]));
        }
    }
    if g1.hits_mine(l) {
        let i = choose|i: int| 0 <= i < l.len() && (#[trigger] g1.at(l[i])).has_mine;
        if i < l1.len() {
            assert(l[i] == l1[i]);
            assert(g1.hits_mine(l1));
        } else {
            let p = l2[i - l1.len()];
            assert(l[i] == p);
            assert(g2.at(p).has_mine);
            assert(g2.hits_mine(l2));
        }
    }
    if g1.hits_mine(l1) {
        let i = choose|i: int| 0 <= i < l1.len() && (#[trigger] g1.at(l1[i])).has_mine;
        assert(l[i] == l1[i]);
        assert(g1.hits_mine(l));
    }
    if g2.hits_mine(l2) {
        let i = choose|i: int| 0 <= i < l2.len() && (#[trigger] g2.at(l2[i])).has_mine;
        let p = l2[i];
        assert(l[l1.len() + i] == p);
        assert(g2.in_grid(p.0 as int, p.1 as int));
        assert(g1.at(p).has_mine);
        assert(g1.hits_mine(l));
    }
}

/// A square of the block around (`x`, `y`) lies next to it.
pub proof fn lemma_around_near(w: int, h: int, x: int, y: int, k: int)
    requires
        0 <= k < 9,
        0 <= x < w <= usize::MAX,
        0 <= y < h <= usize::MAX,
        around(w, h, x, y, k) is Some,
    ensures
        ({
            let (nx, ny) = around(w, h, x, y, k)->0;
            &&& 0 <= nx < w
            &&& 0 <= ny < h
            &&& near((x as usize, y as usize), (nx as usize, ny as usize))
        }),
{
    let (nx, ny) = around(w, h, x, y, k)->0;
    assert(0 <= k % 3 <= 2 && 0 <= k / 3 <= 2);
    assert(k == 3 * (k / 3) + k % 3);
}

/// One more flood from a square around (`x`, `y`) extends the squares
/// opened so far, keeping them chained and their surroundings settled.
pub proof fn lemma_flood_step(
    start: MinesweeperGame,
    cur: MinesweeperGame,
    next: MinesweeperGame,
    listed: Seq<(usize, usize)>,
    sub: Seq<(usize, usize)>,
    x: int,
    y: int,
    k: int,
)
    requires
        start.opened_into(cur, listed),
        listed.len() >= 1,
        listed[0] == (x as usize, y as usize),
        start.in_grid(x, y),
        start.chained(listed),
        forall|i: int|
            1 <= i < listed.len() && start.opens_around(#[trigger] listed[i]) ==> cur.settled_around(
                listed[i].0 as int,
                listed[i].1 as int,
            ),
        start.opens_around((x as usize, y as usize)),
        0 <= k < 9,
        around(start.width as int, start.height as int, x, y, k) is Some,
        cur.flooded(
            next,
            sub,
            (around(start.width as int, start.height as int, x, y, k)->0).0,
            (around(start.width as int, start.height as int, x, y, k)->0).1,
        ),
    ensures
        start.opened_into(next, listed + sub),
        (listed + sub)[0] == (x as usize, y as usize),
        start.chained(listed + sub),
        forall|i: int|
            1 <= i < (listed + sub).len() && start.opens_around(#[trigger] (listed + sub)[i])
                ==> next.settled_around((listed + sub)[i].0 as int, (listed + sub)[i].1 as int),
        forall|a: int, b: int|
            start.in_grid(a, b) && (cur.cell(a, b).is_revealed || cur.cell(a, b).is_flagged) ==> (
            #[trigger] next.cell(a, b)).is_revealed || next.cell(a, b).is_flagged,
        next.cell(
            (around(start.width as int, start.height as int, x, y, k)->0).0,
            (around(start.width as int, start.height as int, x, y, k)->0).1,
        ).is_revealed,
{
    let l = listed + sub;
    let n = listed.len() as int;
    let (nx, ny) = around(start.width as int, start.height as int, x, y, k)->0;
    lemma_around_near(start.width as int, start.height as int, x, y, k);
    lemma_opened_chain(start, cur, next, listed, sub);
    assert(l[0] == listed[0]);
    // Squares keep their mines and numbers while they open.
    assert forall|i: int| 0 <= i < sub.len() implies start.opens_around(#[trigger] sub[i]) == cur.opens_around(
        sub[i],
    ) by {
        assert(cur.in_grid(sub[i].0 as int, sub[i].1 as int));
        assert(cur.cell(sub[i].0 as int, sub[i].1 as int).has_mine == start.cell(
            sub[i].0 as int,
            sub[i].1 as int,
        ).has_mine);
    }
    assert forall|i: int| #![trigger l[i]] 0 < i < l.len() implies exists|j: int|
        #![trigger l[j]]
        0 <= j < i && start.opens_around(l[j]) && near(l[j], l[i]) by {
        if i < n {
            assert(l[i] == listed[i]);
            let j = choose|j: int| #![trigger listed[j]] 0 <= j < i && start.opens_around(listed[j]) && near(listed[j], listed[i]);
            assert(l[j] == listed[j]);
        } else if i == n {
            assert(l[i] == sub[0]);
            assert(l[0] == listed[0]);
        } else {
            let i2 = i - n;
            assert(l[i] == sub[i2]);
            let j2 = choose|j: int| #![trigger sub[j]] 0 <= j < i2 && cur.opens_around(sub[j]) && near(sub[j], sub[i2]);
            assert(l[n + j2] == sub[j2]);
            assert(start.opens_around(sub[j2]));
        }
    }
    assert forall|i: int|
        1 <= i < l.len() && start.opens_around(#[trigger] l[i]) implies next.settled_around(
        l[i].0 as int,
        l[i].1 as int,
    ) by {
        if i < n {
            assert(l[i] == listed[i]);
            lemma_settled_kept(cur, next, sub, listed[i].0 as int, listed[i].1 as int);
        } else {
            assert(l[i] == sub[i - n]);
            assert(cur.opens_around(sub[i - n]));
        }
    }
    assert forall|a: int, b: int|
        start.in_grid(a, b) && (cur.cell(a, b).is_revealed || cur.cell(a, b).is_flagged) implies (
        #[trigger] next.cell(a, b)).is_revealed || next.cell(a, b).is_flagged by {
        assert(cur.in_grid(a, b));
        assert(next.cell(a, b) == if sub.contains((a as usize, b as usize)) {
            opened_cell(cur.cell(a, b))
        } else {
            cur.cell(a, b)
        });
    }
    assert(sub.contains(sub[0]));
    assert(cur.in_grid(nx, ny));
    assert(next.cell(nx, ny) == opened_cell(cur.cell(nx, ny)));
}

impl MinesweeperGame {
    /// A reveal at (`x`, `y`) took `self` to `after`, opening `opened`:
    /// after laying the mines when no square was open yet.
    pub open spec fn revealed_from(self, after: Self, opened: Seq<(usize, usize)>, x: int, y: int) -> bool {
        if self.revealed_count == 0 {
            exists|mid: MinesweeperGame| self.mines_laid(mid, x, y) && mid.flooded(after, opened, x, y)
        } else {
            self.flooded(after, opened, x, y)
        }
    }

    /// Opens (`x`, `y`) and returns the squares opened, in order: the
    /// square itself, then, when it has no mine and none around, each
    /// closed square around it opened the same way in turn (rows from the
    /// top, left to right). The first reveal of the game lays the mines
    /// first. Opening a mine loses the game. An opened or flagged square
    /// opens nothing; a square off the board is refused.
    fn reveal_at(&mut self, x: usize, y: usize) -> (r: Result<Vec<(usize, usize)>, String>)
        requires
            old(self).wf(),
            old(self).in_grid(x as int, y as int) && closed(old(self).cell(x as int, y as int))
                && old(self).revealed_count == 0 ==> old(self).mines + safe_count(
                old(self).width as int,
                old(self).height as int,
                x as int,
                y as int,
            ) <= old(self).width * old(self).height,
        ensures
            final(self).wf(),
            !old(self).in_grid(x as int, y as int) ==> (r matches Err(e) && e@ == "座標が範囲外です"@)
                && *final(self) == *old(self),
            old(self).in_grid(x as int, y as int) && !closed(old(self).cell(x as int, y as int)) ==> (r matches Ok(
                v,
            ) && v@.len() == 0) && *final(self) == *old(self),
            old(self).in_grid(x as int, y as int) && closed(old(self).cell(x as int, y as int)) ==> (r matches Ok(
                v,
            ) && old(self).revealed_from(*final(self), v@, x as int, y as int)),
        decreases old(self).width * old(self).height - old(self).revealed_count,
    {
        if x >= self.width || y >= self.height {
            return Err(String::from_str("座標が範囲外です"));
        }
        let c0 = self.board[y][x];
        if c0.is_revealed || c0.is_flagged {
            return Ok(Vec::new());
        }
        if self.revealed_count == 0 {
            self.initialize_board(x, y);
        }
        let ghost start = *self;
        proof {
            assert(start.counted());
            assert(closed(start.cell(x as int, y as int)));
        }
        let c = self.board[y][x];
        let mut revealed: Vec<(usize, usize)> = Vec::new();
        revealed.push((x, y));
        let opened = Cell { is_revealed: true, ..c };
        self.set_cell(x, y, opened);
        proof {
            lemma_count_set(start.board@, self.board@[y as int], x as int, y as int, opened, revealed_p());
            lemma_count_set(start.board@, self.board@[y as int], x as int, y as int, opened, flagged_p());
            lemma_count_bound(self.board@, self.width as int, revealed_p());
            assert(self.width * self.board@.len() <= usize::MAX);
        }
        self.revealed_count = self.revealed_count + 1;
        if c.has_mine {
            self.game_over = true;
        }
        proof {
            let one = revealed@;
            assert(one =~= seq![(x, y)]);
            assert forall|a: int, b: int| start.in_grid(a, b) implies #[trigger] self.cell(a, b) == if one.contains(
                (a as usize, b as usize),
            ) {
                opened_cell(start.cell(a, b))
            } else {
                start.cell(a, b)
            } by {
                if one.contains((a as usize, b as usize)) {
                    let k = choose|k: int| 0 <= k < one.len() && one[k] == (a as usize, b as usize);
                    assert(one[k] == (x, y));
                } else {
                    assert(one[0] == (x, y));
                }
            }
            if start.hits_mine(one) {
                let i = choose|i: int| 0 <= i < one.len() && (#[trigger] start.at(one[i])).has_mine;
                assert(one[i] == (x, y));
            }
            if c.has_mine {
                assert(start.at(one[0]).has_mine);
            }
            assert(start.opened_into(*self, one));
        }
        if c.has_mine {
            return Ok(revealed);
        }
        if c.adjacent_mines == 0 {
            let mut k: usize = 0;
            while k < 9
                invariant
                    self.wf(),
                    start.in_grid(x as int, y as int),
                    start.opens_around((x, y)),
                    start.opened_into(*self, revealed@),
                    revealed@.len() >= 1,
                    revealed@[0] == (x, y),
                    start.chained(revealed@),
                    forall|i: int|
                        1 <= i < revealed@.len() && start.opens_around(#[trigger] revealed@[i]) ==> self.settled_around(
                            revealed@[i].0 as int,
                            revealed@[i].1 as int,
                        ),
                    forall|j: int|
                        0 <= j < k ==> match #[trigger] around(self.width as int, self.height as int, x as int, y as int, j) {
                            Some((a, b)) => self.cell(a, b).is_revealed || self.cell(a, b).is_flagged,
                            None => true,
                        },
                    k <= 9,
                    self.width == old(self).width,
                    self.height == old(self).height,
                    self.revealed_count > old(self).revealed_count,
                decreases 9 - k,
            {
                match neighbor(self.width, self.height, x, y, k) {
                    Some((nx, ny)) => {
                        let d = self.board[ny][nx];
                        if !d.is_revealed && !d.is_flagged {
                            let ghost cur = *self;
                            let ghost listed = revealed@;
                            proof {
                                lemma_count_bound(self.board@, self.width as int, revealed_p());
                                assert(self.width * self.board@.len() == self.width * self.height);
                            }
                            match self.reveal_at(nx, ny) {
                                Ok(mut sub) => {
                                    let ghost sub_list = sub@;
                                    revealed.append(&mut sub);
                                    proof {
                                        assert(revealed@ == listed + sub_list);
                                        lemma_flood_step(start, cur, *self, listed, sub_list, x as int, y as int, k as int);
                                        assert forall|j: int|
                                            0 <= j < k + 1 implies match #[trigger] around(
                                            self.width as int,
                                            self.height as int,
                                            x as int,
                                            y as int,
                                            j,
                                        ) {
                                            Some((a, b)) => self.cell(a, b).is_revealed || self.cell(a, b).is_flagged,
                                            None => true,
                                        } by {
                                            if j < k {
                                                if let Some((a, b)) = around(
                                                    self.width as int,
                                                    self.height as int,
                                                    x as int,
                                                    y as int,
                                                    j,
                                                ) {
                                                    lemma_around_near(
                                                        self.width as int,
                                                        self.height as int,
                                                        x as int,
                                                        y as int,
                                                        j,
                                                    );
                                                }
                                            }
                                        }
                                    }
                                },
                                Err(_) => {},
                            }
                        }
                    },
                    None => {},
                }
                k = k + 1;
            }
            proof {
                assert forall|i: int|
                    0 <= i < revealed@.len() && start.opens_around(#[trigger] revealed@[i]) implies self.settled_around(
                    revealed@[i].0 as int,
                    revealed@[i].1 as int,
                ) by {
                    if i == 0 {
                        assert(revealed@[0] == (x, y));
                    }
                }
            }
        }
        proof {
            if c.adjacent_mines != 0 {
                assert forall|i: int|
                    0 <= i < revealed@.len() && start.opens_around(#[trigger] revealed@[i]) implies self.settled_around(
                    revealed@[i].0 as int,
                    revealed@[i].1 as int,
                ) by {
                    assert(revealed@[i] == (x, y));
                }
            }
            assert(start.flooded(*self, revealed@, x as int, y as int));
            if old(self).revealed_count == 0 {
                assert(old(self).mines_laid(start, x as int, y as int));
            }
        }
        Ok(revealed)
    }
}

/// What a player's move answers.
#[derive(Debug)]
pub enum ActionReply {
    /// The squares a reveal opened, in order, and how the game stands.
    Revealed { revealed: Vec<(usize, usize)>, game_over: bool, is_cleared: bool },
    /// The square whose flag was toggled, its flag and the flags set.
    Flagged { x: usize, y: usize, is_flagged: bool, flagged_count: usize },
}

/// The coordinate a move names.
pub open spec fn coord(v: Option<u64>) -> int {
    ((v->0) as usize) as int
}

/// Whether `s` reads `lit`.
fn str_is(s: &str, lit: &str) -> (r: bool)
    ensures
        r == (s@ == lit@),
{
    let a = String::from_str(s);
    let b = String::from_str(lit);
    a == b
}

impl MinesweeperGame {
    /// Every square without a mine is open.
    pub open spec fn cleared(self) -> bool {
        self.revealed_count + self.mines == self.width * self.height
    }

    /// A move of `player_id` may go ahead: the game runs, is not lost, and
    /// the player is seated.
    pub open spec fn may_move(self, player_id: Seq<char>) -> bool {
        &&& self.base.started
        &&& !self.base.ended
        &&& !self.game_over
        &&& pairs_map(self.base.players@).contains_key(player_id)
    }

    /// When the move is the game's first reveal, the mines fit off its
    /// safe zone (else laying them would never end).
    pub open spec fn room_for_first_reveal(
        self,
        player_id: Seq<char>,
        action: Seq<char>,
        x: Option<u64>,
        y: Option<u64>,
    ) -> bool {
        (self.may_move(player_id) && action == "reveal"@ && x is Some && y is Some && self.in_grid(
            coord(x),
            coord(y),
        ) && closed(self.cell(coord(x), coord(y))) && self.revealed_count == 0) ==> self.mines + safe_count(
            self.width as int,
            self.height as int,
            coord(x),
            coord(y),
        ) <= self.width * self.height
    }

    /// What a reveal at (`a`, `b`) by `player_id` does and answers: the
    /// squares open as `reveal_at` opens them; a lost game ends with no
    /// winner, a cleared one with the player as winner.
    pub open spec fn reveal_outcome(self, after: Self, player_id: String, a: int, b: int, r: Result<ActionReply, String>) -> bool {
        &&& r matches Ok(ActionReply::Revealed { revealed, game_over, is_cleared })
        &&& exists|mid: MinesweeperGame|
            {
                &&& if closed(self.cell(a, b)) {
                    self.revealed_from(mid, revealed@, a, b)
                } else {
                    mid == self && revealed@.len() == 0
                }
                &&& after == (MinesweeperGame { base: after.base, ..mid })
                &&& if mid.game_over {
                    mid.base.finished(after.base, None)
                } else if mid.cleared() {
                    mid.base.finished(after.base, Some(player_id))
                } else {
                    after.base == mid.base
                }
                &&& game_over == mid.game_over
                &&& is_cleared == mid.cleared()
            }
    }

    /// What toggling the flag at (`a`, `b`) does and answers.
    pub open spec fn flag_outcome(self, after: Self, a: int, b: int, r: Result<ActionReply, String>) -> bool {
        let c = self.cell(a, b);
        if c.is_revealed {
            &&& r == Ok::<ActionReply, String>(
                ActionReply::Flagged { x: a as usize, y: b as usize, is_flagged: false, flagged_count: self.flagged_count },
            )
            &&& after == self
        } else {
            let flipped = Cell { is_flagged: !c.is_flagged, ..c };
            &&& after.board@[b]@ == self.board@[b]@.update(a, flipped)
            &&& after.board@ == self.board@.update(b, after.board@[b])
            &&& after.flagged_count == if c.is_flagged {
                self.flagged_count - 1
            } else {
                self.flagged_count + 1
            }
            &&& after == (MinesweeperGame { board: after.board, flagged_count: after.flagged_count, ..self })
            &&& r == Ok::<ActionReply, String>(
                ActionReply::Flagged {
                    x: a as usize,
                    y: b as usize,
                    is_flagged: !c.is_flagged,
                    flagged_count: after.flagged_count,
                },
            )
        }
    }

    /// What the move `action` of `player_id` at (`x`, `y`) does and
    /// answers: refused before the start, after the end or the loss, for
    /// a player not seated (in that order); a reveal or a flag needs both
    /// coordinates on the board; any other move is unknown.
    pub open spec fn action_outcome(
        self,
        after: Self,
        player_id: String,
        action: Seq<char>,
        x: Option<u64>,
        y: Option<u64>,
        r: Result<ActionReply, String>,
    ) -> bool {
        if !self.base.started {
            (r matches Err(e) && e@ == "ゲームがまだ開始されていません"@) && after == self
        } else if self.base.ended || self.game_over {
            (r matches Err(e) && e@ == "ゲームはすでに終了しています"@) && after == self
        } else if !pairs_map(self.base.players@).contains_key(player_id@) {
            (r matches Err(e) && e@ == "プレイヤーが存在しません"@) && after == self
        } else if action == "reveal"@ || action == "flag"@ {
            if x is None {
                (r matches Err(e) && e@ == "x座標が不正です"@) && after == self
            } else if y is None {
                (r matches Err(e) && e@ == "y座標が不正です"@) && after == self
            } else if !self.in_grid(coord(x), coord(y)) {
                (r matches Err(e) && e@ == "座標が範囲外です"@) && after == self
            } else if action == "reveal"@ {
                self.reveal_outcome(after, player_id, coord(x), coord(y), r)
            } else {
                self.flag_outcome(after, coord(x), coord(y), r)
            }
        } else {
            (r matches Err(e) && e@ == "不明なアクションタイプです: "@ + action) && after == self
        }
    }

    /// Plays the move `action_type` ("reveal" or "flag") of `player_id` at
    /// (`x`, `y`), as `action_outcome` says.
    pub fn apply_action(&mut self, player_id: &String, action_type: &str, x: Option<u64>, y: Option<u64>) -> (r: Result<
        ActionReply,
        String,
    >)
        requires
            old(self).wf(),
            old(self).room_for_first_reveal(player_id@, action_type@, x, y),
        ensures
            final(self).wf(),
            old(self).action_outcome(*final(self), *player_id, action_type@, x, y, r),
    {
        if !self.base.started {
            return Err(String::from_str("ゲームがまだ開始されていません"));
        }
        if self.base.ended || self.game_over {
            return Err(String::from_str("ゲームはすでに終了しています"));
        }
        if find_param(&self.base.players, player_id).is_none() {
            return Err(String::from_str("プレイヤーが存在しません"));
        }
        let is_reveal = str_is(action_type, "reveal");
        let is_flag = str_is(action_type, "flag");
        if !is_reveal && !is_flag {
            let mut e = String::from_str("不明なアクションタイプです: ");
            e.append(action_type);
            return Err(e);
        }
        let xv = match x {
            Some(v) => v,
            None => {
                return Err(String::from_str("x座標が不正です"));
            },
        };
        let yv = match y {
            Some(v) => v,
            None => {
                return Err(String::from_str("y座標が不正です"));
            },
        };
        let a = xv as usize;
        let b = yv as usize;
        if is_reveal {
            let ghost before = *self;
            let revealed = match self.reveal_at(a, b) {
                Ok(v) => v,
                Err(e) => {
                    return Err(e);
                },
            };
            let ghost mid = *self;
            if self.game_over {
                match self.base.end_game(None) {
                    Ok(_) => {},
                    Err(e) => {
                        return Err(e);
                    },
                }
            } else if self.is_cleared() {
                match self.base.end_game(Some(player_id.clone())) {
                    Ok(_) => {},
                    Err(e) => {
                        return Err(e);
                    },
                }
            }
            let game_over = self.game_over;
            let is_cleared = self.is_cleared();
            let r = Ok(ActionReply::Revealed { revealed, game_over, is_cleared });
            proof {
                assert(mid.base.players == before.base.players);
                if closed(before.cell(a as int, b as int)) {
                    assert(before.revealed_from(mid, revealed@, a as int, b as int));
                } else {
                    assert(mid == before);
                }
                assert(*self == (MinesweeperGame { base: self.base, ..mid }));
                assert(if mid.game_over {
                    mid.base.finished(self.base, None)
                } else if mid.cleared() {
                    mid.base.finished(self.base, Some(*player_id))
                } else {
                    self.base == mid.base
                });
                assert(game_over == mid.game_over);
                assert(is_cleared == mid.cleared());
                assert(before.reveal_outcome(*self, *player_id, a as int, b as int, r));
            }
            r
        } else {
            let is_flagged = match self.toggle_flag(a, b) {
                Ok(f) => f,
                Err(e) => {
                    return Err(e);
                },
            };
            Ok(ActionReply::Flagged { x: a, y: b, is_flagged, flagged_count: self.flagged_count })
        }
    }
}

/// The field `key` of `data` read as an unsigned integer.
pub open spec fn field_u64(data: Value, key: Seq<char>) -> Option<u64> {
    match json_member(data, key) {
        Some(f) => json_unsigned(f),
        None => None,
    }
}

/// The field `key` of `data` read as an unsigned integer.
fn read_u64(data: &Value, key: &str) -> (r: Option<u64>)
    ensures
        r == field_u64(*data, key@),
{
    match json_get(data, key) {
        Some(f) => json_as_u64(f),
        None => None,
    }
}

/// A square as the JSON pair `[x, y]`.
pub open spec fn square_value(p: (usize, usize)) -> Value {
    json_list(seq![json_number(p.0 as u64), json_number(p.1 as u64)])
}

/// The JSON answer to a move.
pub open spec fn reply_value(reply: ActionReply) -> Value {
    match reply {
        ActionReply::Revealed { revealed, game_over, is_cleared } => json_record(
            seq![
                ("revealed"@, json_list(revealed@.map_values(|p: (usize, usize)| square_value(p)))),
                ("game_over"@, json_boolean(game_over)),
                ("is_cleared"@, json_boolean(is_cleared)),
            ],
        ),
        ActionReply::Flagged { x, y, is_flagged, flagged_count } => json_record(
            seq![
                ("x"@, json_number(x as u64)),
                ("y"@, json_number(y as u64)),
                ("is_flagged"@, json_boolean(is_flagged)),
                ("flagged_count"@, json_number(flagged_count as u64)),
            ],
        ),
    }
}

/// The answer to a move as sent back: its JSON, or the refusal.
pub open spec fn sent_reply(r: Result<ActionReply, String>) -> Result<Value, String> {
    match r {
        Ok(reply) => Ok(reply_value(reply)),
        Err(e) => Err(e),
    }
}

/// The JSON answer to a move.
fn reply_json(reply: &ActionReply) -> (v: Value)
    ensures
        v == reply_value(*reply),
{
    match reply {
        ActionReply::Revealed { revealed, game_over, is_cleared } => {
            let mut squares: Vec<Value> = Vec::new();
            let mut i: usize = 0;
            while i < revealed.len()
                invariant
                    i <= revealed@.len(),
                    squares@ == revealed@.take(i as int).map_values(|p: (usize, usize)| square_value(p)),
                decreases revealed@.len() - i,
            {
                let (a, b) = revealed[i];
                let mut pair: Vec<Value> = Vec::new();
                pair.push(json_u64(a as u64));
                pair.push(json_u64(b as u64));
                proof {
                    assert(pair@ =~= seq![json_number(a as u64), json_number(b as u64)]);
                }
                squares.push(json_array(pair));
                proof {
                    assert(revealed@.take(i + 1) =~= revealed@.take(i as int).push(revealed@[i as int]));
                    assert(squares@ =~= revealed@.take(i + 1).map_values(|p: (usize, usize)| square_value(p)));
                }
                i = i + 1;
            }
            proof {
                assert(revealed@.take(i as int) =~= revealed@);
            }
            let mut entries: Vec<(String, Value)> = Vec::new();
            entries.push((String::from_str("revealed"), json_array(squares)));
            entries.push((String::from_str("game_over"), json_bool(*game_over)));
            entries.push((String::from_str("is_cleared"), json_bool(*is_cleared)));
            proof {
                reveal_strlit("revealed");
                reveal_strlit("game_over");
                reveal_strlit("is_cleared");
                assert(entries@.map_values(|e: (String, Value)| (e.0@, e.1)) =~= seq![
                    ("revealed"@, json_list(revealed@.map_values(|p: (usize, usize)| square_value(p)))),
                    ("game_over"@, json_boolean(*game_over)),
                    ("is_cleared"@, json_boolean(*is_cleared)),
                ]);
            }
            json_object(entries)
        },
        ActionReply::Flagged { x, y, is_flagged, flagged_count } => {
            let mut entries: Vec<(String, Value)> = Vec::new();
            entries.push((String::from_str("x"), json_u64(*x as u64)));
            entries.push((String::from_str("y"), json_u64(*y as u64)));
            entries.push((String::from_str("is_flagged"), json_bool(*is_flagged)));
            entries.push((String::from_str("flagged_count"), json_u64(*flagged_count as u64)));
            proof {
                reveal_strlit("x");
                reveal_strlit("y");
                reveal_strlit("is_flagged");
                reveal_strlit("flagged_count");
                assert(entries@.map_values(|e: (String, Value)| (e.0@, e.1)) =~= seq![
                    ("x"@, json_number(*x as u64)),
                    ("y"@, json_number(*y as u64)),
                    ("is_flagged"@, json_boolean(*is_flagged)),
                    ("flagged_count"@, json_number(*flagged_count as u64)),
                ]);
            }
            json_object(entries)
        },
    }
}

/// How many indices below `n` lie within one of `f`.
fn near_count_of(f: usize, n: usize) -> (r: usize)
    requires
        f < n,
    ensures
        r == near_count(f as int, n as int),
        r <= 3,
{
    let hi = if n - f > 2 {
        f + 2
    } else {
        n
    };
    let lo = if f > 1 {
        f - 1
    } else {
        0
    };
    hi - lo
}

impl MinesweeperGame {
    /// Whether the move may go ahead as far as laying mines goes (see
    /// `room_for_first_reveal`).
    pub fn has_room_for_first_reveal(&self, player_id: &String, action_type: &str, x: Option<u64>, y: Option<u64>) -> (r: bool)
        requires
            self.wf(),
        ensures
            r == self.room_for_first_reveal(player_id@, action_type@, x, y),
    {
        if !self.base.started || self.base.ended || self.game_over || find_param(&self.base.players, player_id).is_none()
            || !str_is(action_type, "reveal") || self.revealed_count != 0 {
            return true;
        }
        match (x, y) {
            (Some(xv), Some(yv)) => {
                let a = xv as usize;
                let b = yv as usize;
                if a >= self.width || b >= self.height {
                    return true;
                }
                let c = self.board[b][a];
                if c.is_revealed || c.is_flagged {
                    return true;
                }
                let near_x = near_count_of(a, self.width);
                let near_y = near_count_of(b, self.height);
                let nx: u128 = near_x as u128;
                let ny: u128 = near_y as u128;
                assert(nx * ny <= 9) by (nonlinear_arith)
                    requires
                        nx <= 3,
                        ny <= 3,
                ;
                let safe: u128 = nx * ny;
                let w: u128 = self.width as u128;
                let h: u128 = self.height as u128;
                assert(w * h <= 0xffff_ffff_ffff_ffffu128 * 0xffff_ffff_ffff_ffffu128) by (nonlinear_arith)
                    requires
                        w <= 0xffff_ffff_ffff_ffffu128,
                        h <= 0xffff_ffff_ffff_ffffu128,
                ;
                (self.mines as u128) + safe <= w * h
            },
            _ => true,
        }
    }

    /// Plays the move `action_type` of `player_id`, reading its
    /// coordinates from the fields `x` and `y` of `data`, and answers in
    /// JSON.
    pub fn process_action(&mut self, player_id: &String, action_type: &str, data: Value) -> (r: Result<Value, String>)
        requires
            old(self).wf(),
            old(self).room_for_first_reveal(
                player_id@,
                action_type@,
                field_u64(data, "x"@),
                field_u64(data, "y"@),
            ),
        ensures
            final(self).wf(),
            exists|reply: Result<ActionReply, String>|
                old(self).action_outcome(
                    *final(self),
                    *player_id,
                    action_type@,
                    field_u64(data, "x"@),
                    field_u64(data, "y"@),
                    reply,
                ) && r == sent_reply(reply),
    {
        let x = read_u64(&data, "x");
        let y = read_u64(&data, "y");
        let reply = self.apply_action(player_id, action_type, x, y);
        match reply {
            Ok(rep) => {
                let v = reply_json(&rep);
                proof {
                    assert(sent_reply(reply) == Ok::<Value, String>(v));
                }
                Ok(v)
            },
            Err(e) => Err(e),
        }
    }

    /// `process_action` where the mines fit; `None`, and no change, for a
    /// first reveal whose mines would not fit off its safe zone.
    pub fn try_process_action(&mut self, player_id: &String, action_type: &str, data: Value) -> (r: Option<
        Result<Value, String>,
    >)
        requires
            old(self).wf(),
        ensures
            final(self).wf(),
            !old(self).room_for_first_reveal(
                player_id@,
                action_type@,
                field_u64(data, "x"@),
                field_u64(data, "y"@),
            ) ==> r is None && *final(self) == *old(self),
            old(self).room_for_first_reveal(
                player_id@,
                action_type@,
                field_u64(data, "x"@),
                field_u64(data, "y"@),
            ) ==> (r matches Some(res) && exists|reply: Result<ActionReply, String>|
                old(self).action_outcome(
                    *final(self),
                    *player_id,
                    action_type@,
                    field_u64(data, "x"@),
                    field_u64(data, "y"@),
                    reply,
                ) && res == sent_reply(reply)),
    {
        let x = read_u64(&data, "x");
        let y = read_u64(&data, "y");
        if !self.has_room_for_first_reveal(player_id, action_type, x, y) {
            return None;
        }
        Some(self.process_action(player_id, action_type, data))
    }

    /// Seats a player, as `BaseGame::add_player` does.
    pub fn add_player(&mut self, player_id: String, player_name: String) -> (r: Result<(), String>)
        requires
            old(self).wf(),
        ensures
            final(self).wf(),
            old(self).base.seated(final(self).base, player_id, player_name, r),
            *final(self) == (MinesweeperGame { base: final(self).base, ..*old(self) }),
    {
        self.base.add_player(player_id, player_name)
    }

    /// Unseats a player, as `BaseGame::remove_player` does.
    pub fn remove_player(&mut self, player_id: &String) -> (r: Result<(), String>)
        requires
            old(self).wf(),
        ensures
            final(self).wf(),
            old(self).base.unseated(final(self).base, *player_id, r),
            *final(self) == (MinesweeperGame { base: final(self).base, ..*old(self) }),
    {
        self.base.remove_player(player_id)
    }

    /// Starts the game, as `BaseGame::start_game` does.
    pub fn start_game(&mut self) -> (r: Result<(), String>)
        requires
            old(self).wf(),
        ensures
            final(self).wf(),
            old(self).base.started_as(final(self).base, r),
            *final(self) == (MinesweeperGame { base: final(self).base, ..*old(self) }),
    {
        self.base.start_game()
    }

    /// Ends the game, as `BaseGame::end_game` does.
    pub fn end_game(&mut self, winner_id: Option<String>) -> (r: Result<GameResult, String>)
        requires
            old(self).wf(),
        ensures
            final(self).wf(),
            old(self).base.ended_as(final(self).base, winner_id, r),
            *final(self) == (MinesweeperGame { base: final(self).base, ..*old(self) }),
    {
        self.base.end_game(winner_id)
    }

    /// A tick of the clock, as `BaseGame::update` does.
    pub fn update(&mut self) -> (r: Vec<GameEvent>)
        requires
            old(self).wf(),
        ensures
            final(self).wf(),
            exists|now: std::time::Instant| #[trigger] old(self).base.updated_at(now, final(self).base, r@),
            *final(self) == (MinesweeperGame { base: final(self).base, ..*old(self) }),
    {
        self.base.update()
    }

    /// The kept result of an ended game, as `BaseGame::get_result` gives
    /// it.
    pub fn get_result(&self) -> (r: Option<GameResult>)
        ensures
            r is Some <==> self.base.result is Some,
            (r matches Some(res) ==> res.winner_id == self.base.result->0.winner_id
                && res.player_scores@ == self.base.result->0.player_scores@ && res.game_duration
                == self.base.result->0.game_duration && res.stats == self.base.result->0.stats),
    {
        self.base.get_result()
    }

    /// Whether the game is over: ended, or lost on a mine.
    pub fn is_game_ended(&self) -> (r: bool)
        ensures
            r == (self.base.ended || self.game_over),
    {
        self.base.ended || self.game_over
    }
}

/// With no mine around a square, none of the squares around it holds one.
pub proof fn lemma_no_mine_around(g: MinesweeperGame, x: int, y: int, k: nat, j: int)
    requires
        g.mines_upto(x, y, k) == 0,
        0 <= j < k,
    ensures
        g.mine_at(around(g.width as int, g.height as int, x, y, j)) == 0,
    decreases k,
{
    if j < k - 1 {
        lemma_no_mine_around(g, x, y, (k - 1) as nat, j);
    }
}

/// A square next to `p` on the board is one of the block around `p`.
pub proof fn lemma_near_is_around(g: MinesweeperGame, p: (usize, usize), q: (usize, usize))
    requires
        near(p, q),
        g.in_grid(q.0 as int, q.1 as int),
    ensures
        around(
            g.width as int,
            g.height as int,
            p.0 as int,
            p.1 as int,
            (q.1 - p.1 + 1) * 3 + (q.0 - p.0 + 1),
        ) == Some((q.0 as int, q.1 as int)),
{
    let k = (q.1 - p.1 + 1) * 3 + (q.0 - p.0 + 1);
    assert(k % 3 == q.0 - p.0 + 1 && k / 3 == q.1 - p.1 + 1);
}

/// Where every square shows the mines around it, a reveal opens no mine
/// beyond the square it starts on.
pub proof fn lemma_flood_avoids_mines(g: MinesweeperGame, after: MinesweeperGame, opened: Seq<(usize, usize)>, x: int, y: int)
    requires
        g.numbers_right(),
        g.flooded(after, opened, x, y),
    ensures
        forall|i: int| 1 <= i < opened.len() ==> !(#[trigger] g.at(opened[i])).has_mine,
{
    assert forall|i: int| 1 <= i < opened.len() implies !(#[trigger] g.at(opened[i])).has_mine by {
        assert(opened[i] == opened[i]);
        let j = choose|j: int| #![trigger opened[j]] 0 <= j < i && g.opens_around(opened[j]) && near(opened[j], opened[i]);
        let p = opened[j];
        let q = opened[i];
        assert(g.in_grid(p.0 as int, p.1 as int));
        assert(g.in_grid(q.0 as int, q.1 as int));
        assert(g.cell(p.0 as int, p.1 as int).adjacent_mines == g.mines_around(p.0 as int, p.1 as int));
        lemma_near_is_around(g, p, q);
        let k = (q.1 - p.1 + 1) * 3 + (q.0 - p.0 + 1);
        lemma_no_mine_around(g, p.0 as int, p.1 as int, 9, k);
    }
}

/// The first reveal of a game never loses it: the mines keep off the
/// square and the squares around it, and the flood opens no mine.
pub proof fn lemma_first_reveal_is_safe(g: MinesweeperGame, after: MinesweeperGame, opened: Seq<(usize, usize)>, x: int, y: int)
    requires
        g.revealed_count == 0,
        g.in_grid(x, y),
        g.revealed_from(after, opened, x, y),
    ensures
        after.game_over == g.game_over,
{
    let mid = choose|mid: MinesweeperGame| g.mines_laid(mid, x, y) && mid.flooded(after, opened, x, y);
    lemma_flood_avoids_mines(mid, after, opened, x, y);
    assert(mid.in_grid(x, y));
    assert(!mid.at(opened[0]).has_mine);
    if mid.hits_mine(opened) {
        let i = choose|i: int| 0 <= i < opened.len() && (#[trigger] mid.at(opened[i])).has_mine;
        if i >= 1 {
            assert(!mid.at(opened[i]).has_mine);
        }
    }
}

/// Toggling the flag of a square twice leaves the game as it was.
pub proof fn lemma_flag_twice(g: MinesweeperGame, g1: MinesweeperGame, g2: MinesweeperGame, a: int, b: int, r1: Result<ActionReply, String>, r2: Result<ActionReply, String>)
    requires
        g.shaped(),
        g.in_grid(a, b),
        g.flag_outcome(g1, a, b, r1),
        g1.flag_outcome(g2, a, b, r2),
    ensures
        g2.same_board(g),
        g2 == (MinesweeperGame { board: g2.board, ..g }),
{
    if !g.cell(a, b).is_revealed {
        assert(g1.cell(a, b) == Cell { is_flagged: !g.cell(a, b).is_flagged, ..g.cell(a, b) });
        assert(g2.board@[b]@ =~= g.board@[b]@);
        assert forall|y: int| 0 <= y < g2.board@.len() implies (#[trigger] g2.board@[y])@ == g.board@[y]@ by {
            if y != b {
                assert(g2.board@[y] == g.board@[y]);
            }
        }
    }
}

impl MinesweeperGame {
    /// The squares that hold a mine, row by row (shown once the game is
    /// over).
    pub fn mine_positions(&self) -> (r: Vec<(usize, usize)>)
        requires
            self.shaped(),
        ensures
            forall|i: int|
                0 <= i < r@.len() ==> self.in_grid((#[trigger] r@[i]).0 as int, r@[i].1 as int) && self.at(
                    r@[i],
                ).has_mine,
            forall|x: int, y: int|
                self.in_grid(x, y) && (#[trigger] self.cell(x, y)).has_mine ==> r@.contains((x as usize, y as usize)),
            forall|i: int, j: int| 0 <= i < j < r@.len() ==> before_in_rows(#[trigger] r@[i], #[trigger] r@[j]),
    {
        let mut r: Vec<(usize, usize)> = Vec::new();
        let mut y: usize = 0;
        while y < self.height
            invariant
                self.shaped(),
                y <= self.height,
                forall|i: int|
                    0 <= i < r@.len() ==> self.in_grid((#[trigger] r@[i]).0 as int, r@[i].1 as int) && self.at(
                        r@[i],
                    ).has_mine && r@[i].1 < y,
                forall|x: int, yy: int|
                    self.in_grid(x, yy) && (#[trigger] self.cell(x, yy)).has_mine && yy < y ==> r@.contains(
                        (x as usize, yy as usize),
                    ),
                forall|i: int, j: int| 0 <= i < j < r@.len() ==> before_in_rows(#[trigger] r@[i], #[trigger] r@[j]),
            decreases self.height - y,
        {
            let ghost row_start = r@.len();
            let mut x: usize = 0;
            while x < self.width
                invariant
                    self.shaped(),
                    y < self.height,
                    x <= self.width,
                    row_start <= r@.len(),
                    forall|i: int|
                        0 <= i < r@.len() ==> self.in_grid((#[trigger] r@[i]).0 as int, r@[i].1 as int) && self.at(
                            r@[i],
                        ).has_mine,
                    forall|i: int| 0 <= i < row_start ==> (#[trigger] r@[i]).1 < y,
                    forall|i: int| row_start <= i < r@.len() ==> (#[trigger] r@[i]).1 == y && r@[i].0 < x,
                    forall|xx: int, yy: int|
                        self.in_grid(xx, yy) && (#[trigger] self.cell(xx, yy)).has_mine && (yy < y || (yy == y
                            && xx < x)) ==> r@.contains((xx as usize, yy as usize)),
                    forall|i: int, j: int| 0 <= i < j < r@.len() ==> before_in_rows(#[trigger] r@[i], #[trigger] r@[j]),
                decreases self.width - x,
            {
                if self.board[y][x].has_mine {
                    let ghost before = r@;
                    r.push((x, y));
                    proof {
                        assert forall|xx: int, yy: int|
                            self.in_grid(xx, yy) && (#[trigger] self.cell(xx, yy)).has_mine && (yy < y || (yy == y
                                && xx < x + 1)) implies r@.contains((xx as usize, yy as usize)) by {
                            lemma_push_contains(before, (x, y), (xx as usize, yy as usize));
                        }
                    }
                }
                x = x + 1;
            }
            y = y + 1;
        }
        r
    }
}

} // verus!
