//! Cooperative / competitive multiplayer minesweeper: the board, its
//! flood-fill reveal, and the room that players share.

use vstd::prelude::*;
use std::time::Instant;
use crate::platform::{choose_char, instant_now, new_uuid_v4, push_char, shuffle};

verus! {

/// Identifies a player. The value is the 128-bit form of a random UUID.
#[derive(Debug, Clone, Copy, PartialEq, Eq, Hash, Structural)]
pub struct PlayerId(pub u128);

impl PlayerId {
    /// A fresh random identifier (a version-4 UUID).
    pub fn new() -> (r: PlayerId)
        ensures
            (r.0 >> 76u128) & 0xfu128 == 4,
    {
        PlayerId(new_uuid_v4())
    }
}

/// Identifies a room. The value is the 128-bit form of a random UUID.
#[derive(Debug, Clone, Copy, PartialEq, Eq, Hash, Structural)]
pub struct RoomId(pub u128);

/// The characters a room code is made of: capital letters and digits,
/// without the easily confused I, O, 0 and 1.
pub open spec fn code_alphabet() -> Seq<char> {
    seq![
        'A', 'B', 'C', 'D', 'E', 'F', 'G', 'H', 'J', 'K', 'L', 'M', 'N', 'P', 'Q', 'R',
        'S', 'T', 'U', 'V', 'W', 'X', 'Y', 'Z', '2', '3', '4', '5', '6', '7', '8', '9',
    ]
}

/// Length of a room code.
pub const CODE_LEN: usize = 5;

impl RoomId {
    /// A fresh random identifier (a version-4 UUID).
    pub fn new() -> (r: RoomId)
        ensures
            (r.0 >> 76u128) & 0xfu128 == 4,
    {
        RoomId(new_uuid_v4())
    }

    /// A random five-character join code drawn from `code_alphabet()`.
    pub fn generate_code() -> (code: String)
        ensures
            code@.len() == CODE_LEN,
            forall|i: int| 0 <= i < code@.len() ==> code_alphabet().contains(#[trigger] code@[i]),
    {
        let chars: Vec<char> = vec![
            'A', 'B', 'C', 'D', 'E', 'F', 'G', 'H', 'J', 'K', 'L', 'M', 'N', 'P', 'Q', 'R',
            'S', 'T', 'U', 'V', 'W', 'X', 'Y', 'Z', '2', '3', '4', '5', '6', '7', '8', '9',
        ];
        assert(chars@ == code_alphabet());
        let mut code = String::new();
        let mut i: usize = 0;
        while i < CODE_LEN
            invariant
                i <= CODE_LEN,
                chars@ == code_alphabet(),
                code@.len() == i,
                forall|k: int| 0 <= k < code@.len() ==> code_alphabet().contains(#[trigger] code@[k]),
            decreases CODE_LEN - i,
        {
            let c = choose_char(chars.as_slice()).unwrap();
            let ghost before = code@;
            push_char(&mut code, c);
            assert forall|k: int| 0 <= k < code@.len() implies code_alphabet().contains(
                #[trigger] code@[k],
            ) by {
                if k < before.len() {
                    assert(code@[k] == before[k]);
                }
            }
            i = i + 1;
        }
        code
    }
}

/// Board presets.
#[derive(Debug, Clone, Copy, PartialEq, Eq, Structural)]
pub enum Difficulty {
    /// 9x9, 10 mines
    Beginner,
    /// 16x16, 40 mines
    Intermediate,
    /// 30x16, 99 mines
    Advanced,
    /// width, height, mines
    Custom(u8, u8, u32),
}

/// The `(width, height, mines)` of a difficulty.
pub open spec fn spec_board_config(d: Difficulty) -> (u8, u8, u32) {
    match d {
        Difficulty::Beginner => (9u8, 9u8, 10u32),
        Difficulty::Intermediate => (16u8, 16u8, 40u32),
        Difficulty::Advanced => (30u8, 16u8, 99u32),
        Difficulty::Custom(w, h, m) => (w, h, m),
    }
}

impl Difficulty {
    /// Board width, height and mine count for this difficulty.
    pub fn board_config(&self) -> (r: (u8, u8, u32))
        ensures
            r == spec_board_config(*self),
    {
        match self {
            Difficulty::Beginner => (9, 9, 10),
            Difficulty::Intermediate => (16, 16, 40),
            Difficulty::Advanced => (30, 16, 99),
            Difficulty::Custom(width, height, mines) => (*width, *height, *mines),
        }
    }
}

/// How players relate to each other in a room.
#[derive(Debug, Clone, Copy, PartialEq, Eq, Structural)]
pub enum GameMode {
    /// Everybody clears the same board together.
    Cooperative,
    /// Players race for points.
    Competitive,
}

/// Coordinates of a cell.
#[derive(Debug, Clone, Copy, PartialEq, Eq, Hash, Structural)]
pub struct Position {
    pub x: u8,
    pub y: u8,
}

/// Two distinct positions that touch horizontally, vertically or diagonally.
pub open spec fn is_adjacent(p: Position, q: Position) -> bool {
    &&& p != q
    &&& -1 <= q.x - p.x <= 1
    &&& -1 <= q.y - p.y <= 1
}

/// The candidate visited at step `t` (0..9) of the neighbour scan: rows
/// from top to bottom, columns from left to right, skipping the centre.
pub open spec fn neighbor_candidate(p: Position, width: u8, height: u8, t: int) -> Option<Position> {
    let nx = p.x + (t % 3 - 1);
    let ny = p.y + (t / 3 - 1);
    if t == 4 {
        None
    } else if 0 <= nx < width && 0 <= ny < height {
        Some(Position { x: nx as u8, y: ny as u8 })
    } else {
        None
    }
}

/// The first `t` steps of the neighbour scan.
pub open spec fn neighbors_upto(p: Position, width: u8, height: u8, t: nat) -> Seq<Position>
    decreases t,
{
    if t == 0 {
        Seq::empty()
    } else {
        let prev = neighbors_upto(p, width, height, (t - 1) as nat);
        match neighbor_candidate(p, width, height, t - 1) {
            Some(q) => prev.push(q),
            None => prev,
        }
    }
}

/// The in-bounds neighbours of `p`, in scan order.
pub open spec fn spec_neighbors(p: Position, width: u8, height: u8) -> Seq<Position> {
    neighbors_upto(p, width, height, 9)
}

impl Position {
    pub fn new(x: u8, y: u8) -> (r: Position)
        ensures
            r == (Position { x, y }),
    {
        Position { x, y }
    }

    /// The in-bounds cells around this one (at most eight), row by row.
    pub fn neighbors(&self, width: u8, height: u8) -> (r: Vec<Position>)
        ensures
            r@ == spec_neighbors(*self, width, height),
    {
        let mut neighbors: Vec<Position> = Vec::with_capacity(8);
        let mut t: u8 = 0;
        while t < 9
            invariant
                t <= 9,
                neighbors@ == neighbors_upto(*self, width, height, t as nat),
            decreases 9 - t,
        {
            let dy: i16 = (t / 3) as i16 - 1;
            let dx: i16 = (t % 3) as i16 - 1;
            if !(dx == 0 && dy == 0) {
                let nx: i16 = self.x as i16 + dx;
                let ny: i16 = self.y as i16 + dy;
                if nx >= 0 && nx < width as i16 && ny >= 0 && ny < height as i16 {
                    neighbors.push(Position::new(nx as u8, ny as u8));
                }
            }
            t = t + 1;
        }
        neighbors
    }
}

/// Step `t` of the scan finds `q` exactly when `q` is an in-bounds
/// neighbour of `p` lying in direction `t`.
proof fn lemma_candidate(p: Position, width: u8, height: u8, t: int, q: Position)
    requires
        0 <= t < 9,
    ensures
        neighbor_candidate(p, width, height, t) == Some(q) <==> (is_adjacent(p, q) && q.x < width
            && q.y < height && t == (q.y - p.y + 1) * 3 + (q.x - p.x + 1)),
{
    if t == 0 {} else if t == 1 {} else if t == 2 {} else if t == 3 {} else if t == 4 {}
    else if t == 5 {} else if t == 6 {} else if t == 7 {} else {}
}

proof fn lemma_upto(p: Position, width: u8, height: u8, t: nat)
    requires
        t <= 9,
    ensures
        neighbors_upto(p, width, height, t).no_duplicates(),
        neighbors_upto(p, width, height, t).len() <= (if t <= 4 { t as int } else { t - 1 }),
        forall|q: Position|
            neighbors_upto(p, width, height, t).contains(q) <==> (is_adjacent(p, q) && q.x < width
                && q.y < height && (q.y - p.y + 1) * 3 + (q.x - p.x + 1) < t),
    decreases t,
{
    if t > 0 {
        let prev = neighbors_upto(p, width, height, (t - 1) as nat);
        lemma_upto(p, width, height, (t - 1) as nat);
        let cur = neighbors_upto(p, width, height, t);
        assert forall|q: Position|
            cur.contains(q) <==> (is_adjacent(p, q) && q.x < width && q.y < height && (q.y - p.y
                + 1) * 3 + (q.x - p.x + 1) < t) by {
            lemma_candidate(p, width, height, t - 1, q);
            assert(prev.contains(q) <==> (is_adjacent(p, q) && q.x < width && q.y < height && (q.y
                - p.y + 1) * 3 + (q.x - p.x + 1) < t - 1));
            assert(cur == match neighbor_candidate(p, width, height, t - 1) {
                Some(c) => prev.push(c),
                None => prev,
            });
            match neighbor_candidate(p, width, height, t - 1) {
                Some(c) => {
                    lemma_candidate(p, width, height, t - 1, c);
                    if cur.contains(q) && q != c {
                        let i = choose|i: int| 0 <= i < cur.len() && cur[i] == q;
                        assert(prev[i] == q);
                    }
                    if prev.contains(q) {
                        let i = choose|i: int| 0 <= i < prev.len() && prev[i] == q;
                        assert(cur[i] == q);
                    }
                    if q == c {
                        assert(cur[cur.len() - 1] == q);
                    }
                },
                None => {
                    assert(cur == prev);
                },
            }
        }
        match neighbor_candidate(p, width, height, t - 1) {
            Some(c) => {
                lemma_candidate(p, width, height, t - 1, c);
                assert(!prev.contains(c));
                assert forall|i: int, j: int| 0 <= i < cur.len() && 0 <= j < cur.len() && i != j
                    implies cur[i] != cur[j] by {
                    if j == cur.len() - 1 {
                        assert(prev.contains(cur[i]));
                    } else if i == cur.len() - 1 {
                        assert(prev.contains(cur[j]));
                    }
                }
                assert(t - 1 != 4);
            },
            None => {},
        }
    }
}

/// The neighbour scan yields exactly the in-bounds positions adjacent to
/// `p`, each once, and never more than eight of them.
pub proof fn lemma_neighbors_are_adjacent(p: Position, width: u8, height: u8)
    ensures
        spec_neighbors(p, width, height).no_duplicates(),
        spec_neighbors(p, width, height).len() <= 8,
        forall|q: Position|
            #[trigger] spec_neighbors(p, width, height).contains(q) <==> (is_adjacent(p, q) && q.x
                < width && q.y < height),
{
    lemma_upto(p, width, height, 9);
}

/// State of one square of the board.
#[derive(Debug, Clone, Copy, PartialEq, Eq)]
pub struct Cell {
    pub position: Position,
    pub is_mine: bool,
    pub is_revealed: bool,
    pub is_flagged: bool,
    pub adjacent_mines: u8,
    pub revealed_by: Option<PlayerId>,
    pub flagged_by: Option<PlayerId>,
    pub reveal_time: Option<Instant>,
}

/// An untouched cell at `(x, y)`.
pub open spec fn fresh_cell(x: u8, y: u8) -> Cell {
    Cell {
        position: Position { x, y },
        is_mine: false,
        is_revealed: false,
        is_flagged: false,
        adjacent_mines: 0,
        revealed_by: None,
        flagged_by: None,
        reveal_time: None,
    }
}

impl Cell {
    pub fn new(x: u8, y: u8) -> (r: Cell)
        ensures
            r == fresh_cell(x, y),
    {
        Cell {
            position: Position::new(x, y),
            is_mine: false,
            is_revealed: false,
            is_flagged: false,
            adjacent_mines: 0,
            revealed_by: None,
            flagged_by: None,
            reveal_time: None,
        }
    }
}

/// Number of cells of `s` that satisfy `f`.
pub open spec fn count_cells(s: Seq<Cell>, f: spec_fn(Cell) -> bool) -> nat
    decreases s.len(),
{
    if s.len() == 0 {
        0
    } else {
        count_cells(s.drop_last(), f) + if f(s.last()) {
            1nat
        } else {
            0nat
        }
    }
}

pub open spec fn flagged_pred() -> spec_fn(Cell) -> bool {
    |c: Cell| c.is_flagged
}

pub open spec fn revealed_pred() -> spec_fn(Cell) -> bool {
    |c: Cell| c.is_revealed
}

pub open spec fn mine_pred() -> spec_fn(Cell) -> bool {
    |c: Cell| c.is_mine
}

pub open spec fn hidden_pred() -> spec_fn(Cell) -> bool {
    |c: Cell| is_hidden(c)
}

pub open spec fn count_flagged(s: Seq<Cell>) -> nat {
    count_cells(s, flagged_pred())
}

pub open spec fn count_revealed(s: Seq<Cell>) -> nat {
    count_cells(s, revealed_pred())
}

pub open spec fn count_mines(s: Seq<Cell>) -> nat {
    count_cells(s, mine_pred())
}

/// Cells a reveal may still open: neither revealed nor flagged.
pub open spec fn is_hidden(c: Cell) -> bool {
    !c.is_revealed && !c.is_flagged
}

pub open spec fn count_hidden(s: Seq<Cell>) -> nat {
    count_cells(s, hidden_pred())
}

pub proof fn lemma_count_le_len(s: Seq<Cell>, f: spec_fn(Cell) -> bool)
    ensures
        count_cells(s, f) <= s.len(),
    decreases s.len(),
{
    if s.len() > 0 {
        lemma_count_le_len(s.drop_last(), f);
    }
}

pub proof fn lemma_count_update(s: Seq<Cell>, i: int, c: Cell, f: spec_fn(Cell) -> bool)
    requires
        0 <= i < s.len(),
    ensures
        count_cells(s.update(i, c), f) + (if f(s[i]) {
            1nat
        } else {
            0nat
        }) == count_cells(s, f) + (if f(c) {
            1nat
        } else {
            0nat
        }),
    decreases s.len(),
{
    if i < s.len() - 1 {
        assert(s.update(i, c).drop_last() =~= s.drop_last().update(i, c));
        lemma_count_update(s.drop_last(), i, c, f);
    } else {
        assert(s.update(i, c).drop_last() =~= s.drop_last());
    }
}

/// Counts agree on sequences that agree on the predicate cell by cell.
pub proof fn lemma_count_same(s1: Seq<Cell>, s2: Seq<Cell>, f: spec_fn(Cell) -> bool)
    requires
        s1.len() == s2.len(),
        forall|i: int| 0 <= i < s1.len() ==> f(#[trigger] s1[i]) == f(s2[i]),
    ensures
        count_cells(s1, f) == count_cells(s2, f),
    decreases s1.len(),
{
    if s1.len() > 0 {
        lemma_count_same(s1.drop_last(), s2.drop_last(), f);
    }
}

/// A predicate that no cell satisfies counts zero.
pub proof fn lemma_count_none(s: Seq<Cell>, f: spec_fn(Cell) -> bool)
    requires
        forall|i: int| 0 <= i < s.len() ==> !f(#[trigger] s[i]),
    ensures
        count_cells(s, f) == 0,
    decreases s.len(),
{
    if s.len() > 0 {
        lemma_count_none(s.drop_last(), f);
    }
}

/// The position stored at index `i` of a row-major board `width` wide.
pub open spec fn pos_of_index(width: u8, i: int) -> Position {
    Position { x: (i % (width as int)) as u8, y: (i / (width as int)) as u8 }
}

/// Row-major index of `p` on a board `width` wide.
pub open spec fn index_of(width: u8, p: Position) -> int {
    p.y * width + p.x
}

/// Number of positions in `ps` that hold a mine in `cells`.
pub open spec fn mines_among(cells: Seq<Cell>, width: u8, ps: Seq<Position>) -> nat
    decreases ps.len(),
{
    if ps.len() == 0 {
        0
    } else {
        mines_among(cells, width, ps.drop_last()) + if cells[index_of(width, ps.last())].is_mine {
            1nat
        } else {
            0nat
        }
    }
}

pub proof fn lemma_index_of_pos(width: u8, height: u8, x: int, y: int)
    requires
        0 <= x < width,
        0 <= y < height,
    ensures
        0 <= y * width + x < width * height,
        (y * width + x) % (width as int) == x,
        (y * width + x) / (width as int) == y,
{
    vstd::arithmetic::div_mod::lemma_fundamental_div_mod_converse(
        y * width + x,
        width as int,
        y,
        x,
    );
    assert(y * width + x < width * height) by (nonlinear_arith)
        requires
            0 <= x < width,
            0 <= y < height,
    ;
    assert(0 <= y * width) by (nonlinear_arith)
        requires
            0 <= y,
            0 <= width,
    ;
}

pub proof fn lemma_pos_of_index(width: u8, height: u8, i: int)
    requires
        0 <= i < width * height,
    ensures
        pos_of_index(width, i).x == i % (width as int),
        pos_of_index(width, i).y == i / (width as int),
        pos_of_index(width, i).x < width,
        pos_of_index(width, i).y < height,
        index_of(width, pos_of_index(width, i)) == i,
{
    assert(width > 0) by (nonlinear_arith)
        requires
            0 <= i < width * height,
            width >= 0,
            height >= 0,
    ;
    vstd::arithmetic::div_mod::lemma_fundamental_div_mod(i, width as int);
    vstd::arithmetic::div_mod::lemma_div_pos_is_pos(i, width as int);
    vstd::arithmetic::div_mod::lemma_mod_pos_bound(i, width as int);
    assert(i / (width as int) < height) by {
        vstd::arithmetic::div_mod::lemma_div_is_ordered(i, width * height - 1, width as int);
        vstd::arithmetic::div_mod::lemma_div_multiples_vanish_fancy(height - 1, width - 1, width as int);
        assert((height - 1) * width + (width - 1) == width * height - 1) by (nonlinear_arith);
    }
    let q = i / (width as int);
    assert(q * width == width * q) by (nonlinear_arith);
}

pub proof fn lemma_mines_among_le(cells: Seq<Cell>, width: u8, ps: Seq<Position>)
    ensures
        mines_among(cells, width, ps) <= ps.len(),
    decreases ps.len(),
{
    if ps.len() > 0 {
        lemma_mines_among_le(cells, width, ps.drop_last());
    }
}

/// `mines_among` only looks at whether each listed cell holds a mine.
pub proof fn lemma_mines_among_same(c1: Seq<Cell>, c2: Seq<Cell>, width: u8, height: u8, ps: Seq<Position>)
    requires
        c1.len() == width * height,
        c2.len() == width * height,
        forall|i: int| 0 <= i < c1.len() ==> (#[trigger] c1[i]).is_mine == c2[i].is_mine,
        forall|k: int| 0 <= k < ps.len() ==> (#[trigger] ps[k]).x < width && ps[k].y < height,
    ensures
        mines_among(c1, width, ps) == mines_among(c2, width, ps),
    decreases ps.len(),
{
    if ps.len() > 0 {
        let last = ps.last();
        lemma_index_of_pos(width, height, last.x as int, last.y as int);
        assert(ps[ps.len() - 1] == last);
        lemma_mines_among_same(c1, c2, width, height, ps.drop_last());
    }
}

/// On a board without mines every neighbourhood counts zero.
pub proof fn lemma_mines_among_no_mines(cells: Seq<Cell>, width: u8, height: u8, ps: Seq<Position>)
    requires
        cells.len() == width * height,
        forall|i: int| 0 <= i < cells.len() ==> !(#[trigger] cells[i]).is_mine,
        forall|k: int| 0 <= k < ps.len() ==> (#[trigger] ps[k]).x < width && ps[k].y < height,
    ensures
        mines_among(cells, width, ps) == 0,
    decreases ps.len(),
{
    if ps.len() > 0 {
        let last = ps.last();
        lemma_index_of_pos(width, height, last.x as int, last.y as int);
        assert(ps[ps.len() - 1] == last);
        lemma_mines_among_no_mines(cells, width, height, ps.drop_last());
    }
}

/// A neighbourhood that counts zero holds no mine.
pub proof fn lemma_mines_among_zero(cells: Seq<Cell>, width: u8, ps: Seq<Position>, k: int)
    requires
        mines_among(cells, width, ps) == 0,
        0 <= k < ps.len(),
    ensures
        !cells[index_of(width, ps[k])].is_mine,
    decreases ps.len(),
{
    if k < ps.len() - 1 {
        assert(ps.drop_last()[k] == ps[k]);
        lemma_mines_among_zero(cells, width, ps.drop_last(), k);
    }
}

/// The board: `width * height` cells stored row by row.
#[derive(Debug, Clone)]
pub struct GameBoard {
    pub width: u8,
    pub height: u8,
    pub cells: Vec<Cell>,
    pub mine_count: u32,
    pub revealed_count: u32,
    pub flagged_count: u32,
    pub first_move_made: bool,
}

impl GameBoard {
    pub open spec fn in_bounds(self, p: Position) -> bool {
        p.x < self.width && p.y < self.height
    }

    /// The cell at an in-bounds position.
    pub open spec fn cell_at(self, p: Position) -> Cell {
        self.cells@[index_of(self.width, p)]
    }

    /// Mines around `p`, as the board's cells say.
    pub open spec fn mines_around(self, p: Position) -> nat {
        mines_among(self.cells@, self.width, spec_neighbors(p, self.width, self.height))
    }

    /// One cell per position, in row-major order.
    pub open spec fn well_shaped(self) -> bool {
        &&& self.cells@.len() == self.width * self.height
        &&& forall|i: int|
            0 <= i < self.cells@.len() ==> (#[trigger] self.cells@[i]).position == pos_of_index(
                self.width,
                i,
            )
    }

    /// Well-formedness: one cell per position in row-major order, the flag
    /// counter matches the flags, the reveal counter never exceeds the
    /// revealed cells, and every cell knows how many mines surround it.
    pub open spec fn wf(self) -> bool {
        &&& self.well_shaped()
        &&& forall|i: int|
            0 <= i < self.cells@.len() ==> (#[trigger] self.cells@[i]).adjacent_mines
                == self.mines_around(self.cells@[i].position)
        &&& self.counters_ok()
    }

    /// The flag counter matches the flags and the reveal counter never
    /// exceeds the revealed cells.
    pub open spec fn counters_ok(self) -> bool {
        &&& self.flagged_count == count_flagged(self.cells@)
        &&& self.revealed_count <= count_revealed(self.cells@)
    }

    /// A board of untouched cells; mines are laid on the first reveal.
    pub fn new(width: u8, height: u8, mine_count: u32) -> (r: GameBoard)
        ensures
            r.wf(),
            r.width == width,
            r.height == height,
            r.mine_count == mine_count,
            r.revealed_count == 0,
            r.flagged_count == 0,
            !r.first_move_made,
            forall|i: int|
                0 <= i < r.cells@.len() ==> #[trigger] r.cells@[i] == fresh_cell(
                    pos_of_index(width, i).x,
                    pos_of_index(width, i).y,
                ),
    {
        assert(width * height <= 255 * 255) by (nonlinear_arith)
            requires
                width <= 255,
                height <= 255,
        ;
        let mut cells: Vec<Cell> = Vec::with_capacity((width as usize) * (height as usize));
        let mut y: u8 = 0;
        while y < height
            invariant
                y <= height,
                cells@.len() == y * width,
                forall|i: int|
                    0 <= i < cells@.len() ==> #[trigger] cells@[i] == fresh_cell(
                        pos_of_index(width, i).x,
                        pos_of_index(width, i).y,
                    ),
            decreases height - y,
        {
            let mut x: u8 = 0;
            while x < width
                invariant
                    y < height,
                    x <= width,
                    cells@.len() == y * width + x,
                    forall|i: int|
                        0 <= i < cells@.len() ==> #[trigger] cells@[i] == fresh_cell(
                            pos_of_index(width, i).x,
                            pos_of_index(width, i).y,
                        ),
                decreases width - x,
            {
                proof {
                    lemma_index_of_pos(width, height, x as int, y as int);
                }
                cells.push(Cell::new(x, y));
                x = x + 1;
            }
            assert((y + 1) * width == y * width + width) by (nonlinear_arith);
            y = y + 1;
        }
        assert(cells@.len() == width * height) by (nonlinear_arith)
            requires
                cells@.len() == y * width,
                y == height,
        ;
        let r = GameBoard {
            width,
            height,
            cells,
            mine_count,
            revealed_count: 0,
            flagged_count: 0,
            first_move_made: false,
        };
        proof {
            let cs = r.cells@;
            assert forall|i: int| 0 <= i < cs.len() implies !(#[trigger] cs[i]).is_mine by {}
            assert forall|i: int| 0 <= i < cs.len() implies {
                &&& (#[trigger] cs[i]).position == pos_of_index(width, i)
                &&& cs[i].adjacent_mines == r.mines_around(cs[i].position)
            } by {
                let p = cs[i].position;
                lemma_neighbors_are_adjacent(p, width, height);
                let ns = spec_neighbors(p, width, height);
                assert forall|k: int| 0 <= k < ns.len() implies (#[trigger] ns[k]).x < width
                    && ns[k].y < height by {
                    assert(ns.contains(ns[k]));
                    assert(is_adjacent(p, ns[k]) && ns[k].x < width && ns[k].y < height);
                }
                lemma_mines_among_no_mines(cs, width, height, ns);
            }
            lemma_count_none(cs, flagged_pred());
        }
        r
    }

    /// A board of `width * height` untouched cells expecting `mine_count`
    /// mines, none laid yet.
    pub open spec fn is_fresh(self, width: u8, height: u8, mine_count: u32) -> bool {
        &&& self.wf()
        &&& self.width == width
        &&& self.height == height
        &&& self.mine_count == mine_count
        &&& self.revealed_count == 0
        &&& self.flagged_count == 0
        &&& !self.first_move_made
        &&& forall|i: int|
            0 <= i < self.cells@.len() ==> #[trigger] self.cells@[i] == fresh_cell(
                pos_of_index(width, i).x,
                pos_of_index(width, i).y,
            )
    }

    /// A fresh board sized for the given difficulty.
    pub fn from_difficulty(difficulty: Difficulty) -> (r: GameBoard)
        ensures
            r.is_fresh(
                spec_board_config(difficulty).0,
                spec_board_config(difficulty).1,
                spec_board_config(difficulty).2,
            ),
    {
        let (width, height, mines) = difficulty.board_config();
        GameBoard::new(width, height, mines)
    }

    /// The position stored at `index`. The row wraps modulo 256, as the
    /// narrowing conversion does.
    pub fn index_to_position(&self, index: usize) -> (r: Position)
        requires
            self.width > 0,
        ensures
            r == pos_of_index(self.width, index as int),
    {
        let x = (index % self.width as usize) as u8;
        let y = (index / self.width as usize) as u8;
        Position::new(x, y)
    }

    /// Row-major index of `pos`.
    pub fn position_to_index(&self, pos: &Position) -> (r: usize)
        ensures
            r == index_of(self.width, *pos),
    {
        assert(pos.y * self.width <= 255 * 255) by (nonlinear_arith)
            requires
                pos.y <= 255,
                self.width <= 255,
        ;
        (pos.y as usize) * (self.width as usize) + (pos.x as usize)
    }

    /// The cell at `pos`, or `None` when `pos` is off the board.
    pub fn get_cell(&self, pos: &Position) -> (r: Option<&Cell>)
        requires
            self.well_shaped(),
        ensures
            r == (if self.in_bounds(*pos) {
                Some(&self.cell_at(*pos))
            } else {
                None
            }),
    {
        if pos.x >= self.width || pos.y >= self.height {
            return None;
        }
        proof {
            lemma_index_of_pos(self.width, self.height, pos.x as int, pos.y as int);
        }
        let index = self.position_to_index(pos);
        self.cells.get(index)
    }

    /// Mutable access to the cell at `pos`, or `None` when `pos` is off
    /// the board.
    pub fn get_cell_mut(&mut self, pos: &Position) -> (r: Option<&mut Cell>)
        requires
            old(self).wf(),
        ensures
            old(self).in_bounds(*pos) ==> r is Some && *r.unwrap() == old(self).cell_at(*pos)
                && final(self).cells@ == old(self).cells@.update(
                index_of(old(self).width, *pos),
                *final(r.unwrap()),
            ) && final(self).width == old(self).width && final(self).height == old(self).height
                && final(self).mine_count == old(self).mine_count && final(self).revealed_count
                == old(self).revealed_count && final(self).flagged_count == old(self).flagged_count
                && final(self).first_move_made == old(self).first_move_made,
            !old(self).in_bounds(*pos) ==> r is None && *final(self) == *old(self),
    {
        if pos.x >= self.width || pos.y >= self.height {
            return None;
        }
        proof {
            lemma_index_of_pos(self.width, self.height, pos.x as int, pos.y as int);
        }
        let index = self.position_to_index(pos);
        Some(&mut self.cells[index])
    }
}

/// A cell with its flag toggled by `player`.
pub open spec fn flag_toggled(c: Cell, player: PlayerId) -> Cell {
    if c.is_flagged {
        Cell { is_flagged: false, flagged_by: None, ..c }
    } else {
        Cell { is_flagged: true, flagged_by: Some(player), ..c }
    }
}

/// Counting is monotone in the predicate, cell by cell.
pub proof fn lemma_count_mono(s1: Seq<Cell>, s2: Seq<Cell>, f: spec_fn(Cell) -> bool)
    requires
        s1.len() == s2.len(),
        forall|i: int| 0 <= i < s1.len() ==> f(#[trigger] s1[i]) ==> f(s2[i]),
    ensures
        count_cells(s1, f) <= count_cells(s2, f),
    decreases s1.len(),
{
    if s1.len() > 0 {
        lemma_count_mono(s1.drop_last(), s2.drop_last(), f);
    }
}

/// Editing cells without moving them or touching the mines keeps a board
/// well formed, as long as the counters still match.
pub proof fn lemma_wf_after_edit(old_b: GameBoard, new_b: GameBoard)
    requires
        old_b.wf(),
        new_b.width == old_b.width,
        new_b.height == old_b.height,
        new_b.cells@.len() == old_b.cells@.len(),
        forall|i: int|
            0 <= i < old_b.cells@.len() ==> {
                &&& (#[trigger] new_b.cells@[i]).position == old_b.cells@[i].position
                &&& new_b.cells@[i].is_mine == old_b.cells@[i].is_mine
                &&& new_b.cells@[i].adjacent_mines == old_b.cells@[i].adjacent_mines
            },
        new_b.flagged_count == count_flagged(new_b.cells@),
        new_b.revealed_count <= count_revealed(new_b.cells@),
    ensures
        new_b.wf(),
{
    let w = old_b.width;
    let h = old_b.height;
    assert forall|i: int| 0 <= i < new_b.cells@.len() implies {
        &&& (#[trigger] new_b.cells@[i]).position == pos_of_index(w, i)
        &&& new_b.cells@[i].adjacent_mines == new_b.mines_around(new_b.cells@[i].position)
    } by {
        assert(old_b.cells@[i].position == pos_of_index(w, i));
        let p = new_b.cells@[i].position;
        lemma_neighbors_are_adjacent(p, w, h);
        let ns = spec_neighbors(p, w, h);
        assert forall|k: int| 0 <= k < ns.len() implies (#[trigger] ns[k]).x < w && ns[k].y < h by {
            assert(ns.contains(ns[k]));
            assert(is_adjacent(p, ns[k]) && ns[k].x < w && ns[k].y < h);
        }
        assert forall|j: int| 0 <= j < old_b.cells@.len() implies (#[trigger] old_b.cells@[j]).is_mine
            == new_b.cells@[j].is_mine by {
            assert(new_b.cells@[j].is_mine == old_b.cells@[j].is_mine);
        }
        lemma_mines_among_same(old_b.cells@, new_b.cells@, w, h, ns);
    }
}

impl GameBoard {
    /// Mines among the in-bounds neighbours of `pos`.
    fn count_adjacent_mines(&self, pos: &Position) -> (r: u8)
        requires
            self.well_shaped(),
        ensures
            r == self.mines_around(*pos),
    {
        let neighbors = pos.neighbors(self.width, self.height);
        proof {
            lemma_neighbors_are_adjacent(*pos, self.width, self.height);
        }
        let ghost ns = neighbors@;
        assert forall|q: Position| ns.contains(q) implies q.x < self.width && q.y < self.height by {
            assert(spec_neighbors(*pos, self.width, self.height).contains(q));
        }
        let mut count: u8 = 0;
        let mut k: usize = 0;
        while k < neighbors.len()
            invariant
                self.well_shaped(),
                ns == neighbors@,
                ns == spec_neighbors(*pos, self.width, self.height),
                ns.len() <= 8,
                forall|q: Position| ns.contains(q) ==> q.x < self.width && q.y < self.height,
                k <= ns.len(),
                count == mines_among(self.cells@, self.width, ns.take(k as int)),
                count <= k,
            decreases ns.len() - k,
        {
            let q = neighbors[k];
            assert(ns.contains(q));
            assert(ns.take(k + 1).drop_last() =~= ns.take(k as int));
            assert(ns.take(k + 1).last() == q);
            match self.get_cell(&q) {
                Some(cell) => {
                    if cell.is_mine {
                        count = count + 1;
                    }
                },
                None => {},
            }
            k = k + 1;
        }
        assert(ns.take(k as int) =~= ns);
        count
    }

    /// `after` is this board with the flag at `pos` toggled by `player`
    /// and the flag counter adjusted; nothing else changes.
    pub open spec fn flag_toggled_on(self, after: GameBoard, pos: Position, player: PlayerId) -> bool {
        &&& after.cells@ == self.cells@.update(
            index_of(self.width, pos),
            flag_toggled(self.cell_at(pos), player),
        )
        &&& after.flagged_count == (if self.cell_at(pos).is_flagged {
            self.flagged_count - 1
        } else {
            self.flagged_count + 1
        })
        &&& after.width == self.width
        &&& after.height == self.height
        &&& after.mine_count == self.mine_count
        &&& after.revealed_count == self.revealed_count
        &&& after.first_move_made == self.first_move_made
    }

    /// Plants or lifts a flag on a covered cell. Returns whether anything
    /// changed: off-board positions and revealed cells are left alone.
    pub fn toggle_flag(&mut self, pos: &Position, player_id: PlayerId) -> (changed: bool)
        requires
            old(self).wf(),
        ensures
            final(self).wf(),
            changed == (old(self).in_bounds(*pos) && !old(self).cell_at(*pos).is_revealed),
            changed ==> old(self).flag_toggled_on(*final(self), *pos, player_id),
            !changed ==> *final(self) == *old(self),
    {
        if pos.x >= self.width || pos.y >= self.height {
            return false;
        }
        proof {
            lemma_index_of_pos(self.width, self.height, pos.x as int, pos.y as int);
        }
        let index = self.position_to_index(pos);
        let cell = self.cells[index];
        if cell.is_revealed {
            return false;
        }
        let ghost old_b = *self;
        let ghost f = flagged_pred();
        let mut new_cell = cell;
        if cell.is_flagged {
            new_cell.is_flagged = false;
            new_cell.flagged_by = None;
            proof {
                lemma_count_update(old_b.cells@, index as int, new_cell, f);
            }
            self.cells.set(index, new_cell);
            self.flagged_count = self.flagged_count - 1;
        } else {
            new_cell.is_flagged = true;
            new_cell.flagged_by = Some(player_id);
            proof {
                lemma_count_update(old_b.cells@, index as int, new_cell, f);
                lemma_count_le_len(old_b.cells@.update(index as int, new_cell), f);
                assert(old_b.cells@.len() <= 255 * 255) by (nonlinear_arith)
                    requires
                        old_b.cells@.len() == old_b.width * old_b.height,
                        old_b.width <= 255,
                        old_b.height <= 255,
                ;
            }
            self.cells.set(index, new_cell);
            self.flagged_count = self.flagged_count + 1;
        }
        proof {
            let g = revealed_pred();
            lemma_count_same(old_b.cells@, self.cells@, g);
            lemma_wf_after_edit(old_b, *self);
        }
        true
    }

    /// Whether every mine-free cell has been revealed, judged by the reveal
    /// counter.
    pub fn is_completed(&self) -> (r: bool)
        requires
            self.mine_count <= self.width * self.height,
        ensures
            r == (self.revealed_count >= self.width * self.height - self.mine_count),
    {
        assert(self.width * self.height <= 255 * 255) by (nonlinear_arith)
            requires
                self.width <= 255,
                self.height <= 255,
        ;
        let non_mine_cells = (self.width as u32) * (self.height as u32) - self.mine_count;
        self.revealed_count >= non_mine_cells
    }

    /// `after` is this board with every covered mine uncovered and stamped;
    /// nothing else changes.
    pub open spec fn mines_shown(self, after: GameBoard) -> bool {
        &&& after.width == self.width
        &&& after.height == self.height
        &&& after.mine_count == self.mine_count
        &&& after.revealed_count == self.revealed_count
        &&& after.flagged_count == self.flagged_count
        &&& after.first_move_made == self.first_move_made
        &&& after.cells@.len() == self.cells@.len()
        &&& forall|i: int|
            0 <= i < self.cells@.len() ==> {
                let c = #[trigger] self.cells@[i];
                let d = after.cells@[i];
                if c.is_mine && !c.is_revealed {
                    d == Cell { is_revealed: true, reveal_time: d.reveal_time, ..c }
                        && d.reveal_time is Some
                } else {
                    d == c
                }
            }
    }

    /// Uncovers every mine that is still covered.
    pub fn reveal_all_mines(&mut self)
        requires
            old(self).wf(),
        ensures
            final(self).wf(),
            old(self).mines_shown(*final(self)),
    {
        let ghost old_b = *self;
        let mut i: usize = 0;
        while i < self.cells.len()
            invariant
                old_b.wf(),
                self.width == old_b.width,
                self.height == old_b.height,
                self.mine_count == old_b.mine_count,
                self.revealed_count == old_b.revealed_count,
                self.flagged_count == old_b.flagged_count,
                self.first_move_made == old_b.first_move_made,
                self.cells@.len() == old_b.cells@.len(),
                i <= self.cells@.len(),
                forall|j: int|
                    0 <= j < old_b.cells@.len() ==> {
                        let c = #[trigger] old_b.cells@[j];
                        let d = self.cells@[j];
                        if j < i && c.is_mine && !c.is_revealed {
                            d == Cell { is_revealed: true, reveal_time: d.reveal_time, ..c }
                                && d.reveal_time is Some
                        } else {
                            d == c
                        }
                    },
            decreases self.cells@.len() - i,
        {
            let cell = self.cells[i];
            if cell.is_mine && !cell.is_revealed {
                let mut new_cell = cell;
                new_cell.is_revealed = true;
                new_cell.reveal_time = Some(instant_now());
                self.cells.set(i, new_cell);
            }
            i = i + 1;
        }
        proof {
            let f = flagged_pred();
            let g = revealed_pred();
            assert forall|j: int| 0 <= j < old_b.cells@.len() implies f(#[trigger] old_b.cells@[j])
                == f(self.cells@[j]) by {}
            lemma_count_same(old_b.cells@, self.cells@, f);
            assert forall|j: int| 0 <= j < old_b.cells@.len() && g(#[trigger] old_b.cells@[j])
                implies g(self.cells@[j]) by {}
            lemma_count_mono(old_b.cells@, self.cells@, g);
            lemma_wf_after_edit(old_b, *self);
        }
    }
}

/// The first move and the cells around it never hold a mine.
pub open spec fn in_safe_zone(first: Position, p: Position) -> bool {
    p == first || is_adjacent(first, p)
}

/// Positions of the first `n` cells that lie outside the safe zone, in
/// board order.
pub open spec fn mine_candidates_upto(cells: Seq<Cell>, first: Position, n: nat) -> Seq<Position>
    decreases n,
{
    if n == 0 {
        Seq::empty()
    } else {
        let prev = mine_candidates_upto(cells, first, (n - 1) as nat);
        if in_safe_zone(first, cells[n - 1].position) {
            prev
        } else {
            prev.push(cells[n - 1].position)
        }
    }
}

pub proof fn lemma_push_contains<A>(s: Seq<A>, x: A, y: A)
    ensures
        s.push(x).contains(y) <==> (s.contains(y) || x == y),
{
    if s.contains(y) {
        let k = choose|k: int| 0 <= k < s.len() && s[k] == y;
        assert(s.push(x)[k] == y);
    }
    if x == y {
        assert(s.push(x)[s.len() as int] == y);
    }
    if s.push(x).contains(y) && x != y {
        let k = choose|k: int| 0 <= k < s.len() + 1 && s.push(x)[k] == y;
        assert(s[k] == y);
    }
}

/// Whether `p` appears in `v`.
pub fn contains_position(v: &Vec<Position>, p: &Position) -> (r: bool)
    ensures
        r == v@.contains(*p),
{
    let mut i: usize = 0;
    while i < v.len()
        invariant
            i <= v@.len(),
            forall|j: int| 0 <= j < i ==> v@[j] != *p,
        decreases v@.len() - i,
    {
        if v[i] == *p {
            return true;
        }
        i = i + 1;
    }
    false
}

impl GameBoard {
    /// Where mines may go when the first move is `first`: every cell
    /// outside the safe zone, in board order.
    pub open spec fn mine_candidates(self, first: Position) -> Seq<Position> {
        mine_candidates_upto(self.cells@, first, self.cells@.len())
    }

    /// Candidates are distinct on-board positions outside the safe zone,
    /// and every cell outside the safe zone is one.
    pub proof fn lemma_mine_candidates(self, first: Position, n: nat)
        requires
            self.well_shaped(),
            n <= self.cells@.len(),
        ensures
            mine_candidates_upto(self.cells@, first, n).no_duplicates(),
            forall|q: Position|
                #[trigger] mine_candidates_upto(self.cells@, first, n).contains(q) ==> self.in_bounds(q)
                    && !in_safe_zone(first, q) && index_of(self.width, q) < n,
            forall|i: int|
                0 <= i < n && !in_safe_zone(first, #[trigger] self.cells@[i].position)
                    ==> mine_candidates_upto(self.cells@, first, n).contains(self.cells@[i].position),
        decreases n,
    {
        if n > 0 {
            self.lemma_mine_candidates(first, (n - 1) as nat);
            let prev = mine_candidates_upto(self.cells@, first, (n - 1) as nat);
            let cur = mine_candidates_upto(self.cells@, first, n);
            let p = self.cells@[n - 1].position;
            lemma_pos_of_index(self.width, self.height, n - 1);
            assert(cur == if in_safe_zone(first, p) {
                prev
            } else {
                prev.push(p)
            });
            assert forall|q: Position| #[trigger] cur.contains(q) implies self.in_bounds(q)
                && !in_safe_zone(first, q) && index_of(self.width, q) < n by {
                lemma_push_contains(prev, p, q);
                if q != p || in_safe_zone(first, p) {
                    assert(prev.contains(q));
                }
            }
            assert forall|i: int| 0 <= i < n && !in_safe_zone(first, #[trigger] self.cells@[i].position)
                implies cur.contains(self.cells@[i].position) by {
                lemma_push_contains(prev, p, self.cells@[i].position);
                if i < n - 1 {
                    assert(prev.contains(self.cells@[i].position));
                }
            }
            if !in_safe_zone(first, p) {
                assert(!prev.contains(p));
                assert forall|a: int, b: int| 0 <= a < cur.len() && 0 <= b < cur.len() && a != b
                    implies cur[a] != cur[b] by {
                    if b == cur.len() - 1 {
                        assert(prev.contains(cur[a]));
                    } else if a == cur.len() - 1 {
                        assert(prev.contains(cur[b]));
                    }
                }
            }
        }
    }

    /// The mine candidates for `first`, in board order.
    fn mine_candidate_list(&self, first_move: &Position) -> (r: Vec<Position>)
        requires
            self.well_shaped(),
        ensures
            r@ == self.mine_candidates(*first_move),
    {
        let neighbors = first_move.neighbors(self.width, self.height);
        let mut safe_positions = neighbors;
        safe_positions.push(*first_move);
        proof {
            lemma_neighbors_are_adjacent(*first_move, self.width, self.height);
            assert forall|q: Position| self.in_bounds(q) implies (#[trigger] safe_positions@.contains(
                q,
            ) <==> in_safe_zone(*first_move, q)) by {
                lemma_push_contains(neighbors@, *first_move, q);
                assert(spec_neighbors(*first_move, self.width, self.height).contains(q) <==> (
                is_adjacent(*first_move, q) && q.x < self.width && q.y < self.height));
            }
        }
        let mut available: Vec<Position> = Vec::new();
        let mut i: usize = 0;
        while i < self.cells.len()
            invariant
                self.well_shaped(),
                i <= self.cells@.len(),
                available@ == mine_candidates_upto(self.cells@, *first_move, i as nat),
                forall|q: Position|
                    self.in_bounds(q) ==> (#[trigger] safe_positions@.contains(q) <==> in_safe_zone(
                        *first_move,
                        q,
                    )),
            decreases self.cells@.len() - i,
        {
            let pos = self.cells[i].position;
            proof {
                lemma_pos_of_index(self.width, self.height, i as int);
            }
            if !contains_position(&safe_positions, &pos) {
                available.push(pos);
            }
            i = i + 1;
        }
        available
    }

    /// Puts a mine on each of the first `take` positions of `order`.
    fn mark_mines(&mut self, order: &Vec<Position>, take: usize)
        requires
            old(self).well_shaped(),
            take <= order@.len(),
            order@.no_duplicates(),
            forall|q: Position| #[trigger] order@.contains(q) ==> old(self).in_bounds(q),
        ensures
            final(self).well_shaped(),
            final(self).width == old(self).width,
            final(self).height == old(self).height,
            final(self).mine_count == old(self).mine_count,
            final(self).revealed_count == old(self).revealed_count,
            final(self).flagged_count == old(self).flagged_count,
            final(self).first_move_made == old(self).first_move_made,
            final(self).cells@.len() == old(self).cells@.len(),
            forall|i: int|
                0 <= i < old(self).cells@.len() ==> {
                    let c = #[trigger] old(self).cells@[i];
                    final(self).cells@[i] == Cell {
                        is_mine: c.is_mine || order@.take(take as int).contains(c.position),
                        ..c
                    }
                },
            count_mines(old(self).cells@) == 0 ==> count_mines(final(self).cells@) == take,
    {
        let ghost old_b = *self;
        let ghost w = self.width;
        let ghost h = self.height;
        let mut j: usize = 0;
        while j < take
            invariant
                old_b.well_shaped(),
                w == old_b.width,
                h == old_b.height,
                self.width == w,
                self.height == h,
                self.mine_count == old_b.mine_count,
                self.revealed_count == old_b.revealed_count,
                self.flagged_count == old_b.flagged_count,
                self.first_move_made == old_b.first_move_made,
                take <= order@.len(),
                j <= take,
                order@.no_duplicates(),
                forall|q: Position| #[trigger] order@.contains(q) ==> old_b.in_bounds(q),
                self.cells@.len() == old_b.cells@.len(),
                forall|i: int|
                    0 <= i < old_b.cells@.len() ==> {
                        let c = #[trigger] old_b.cells@[i];
                        self.cells@[i] == Cell {
                            is_mine: c.is_mine || order@.take(j as int).contains(c.position),
                            ..c
                        }
                    },
                count_mines(old_b.cells@) == 0 ==> count_mines(self.cells@) == j,
            decreases take - j,
        {
            let pos = order[j];
            proof {
                assert(order@[j as int] == pos);
                assert(order@.contains(pos));
                lemma_index_of_pos(w, h, pos.x as int, pos.y as int);
                lemma_pos_of_index(w, h, index_of(w, pos));
            }
            let index = self.position_to_index(&pos);
            let ghost before = self.cells@;
            let mut cell = self.cells[index];
            proof {
                assert(!order@.take(j as int).contains(pos)) by {
                    if order@.take(j as int).contains(pos) {
                        let k = choose|k: int| 0 <= k < j && order@.take(j as int)[k] == pos;
                        assert(order@[k] == order@[j as int]);
                    }
                }
                assert(old_b.cells@[index as int].position == pos);
                if count_mines(old_b.cells@) == 0 && old_b.cells@[index as int].is_mine {
                    lemma_count_update(
                        old_b.cells@,
                        index as int,
                        Cell { is_mine: false, ..old_b.cells@[index as int] },
                        mine_pred(),
                    );
                }
                assert(count_mines(old_b.cells@) == 0 ==> !before[index as int].is_mine);
            }
            cell.is_mine = true;
            self.cells.set(index, cell);
            proof {
                lemma_count_update(before, index as int, cell, mine_pred());
                assert(self.cells@ == before.update(index as int, cell));
                assert(mine_pred()(cell));
                if count_mines(old_b.cells@) == 0 {
                    assert(!mine_pred()(before[index as int]));
                    assert(count_cells(before, mine_pred()) == j);
                    assert(count_cells(self.cells@, mine_pred()) == j + 1);
                }
                assert(order@.take(j + 1) =~= order@.take(j as int).push(pos));
                assert forall|i: int| 0 <= i < old_b.cells@.len() implies {
                    let c = #[trigger] old_b.cells@[i];
                    self.cells@[i] == Cell {
                        is_mine: c.is_mine || order@.take(j + 1).contains(c.position),
                        ..c
                    }
                } by {
                    let c = old_b.cells@[i];
                    lemma_pos_of_index(w, h, i);
                    lemma_push_contains(order@.take(j as int), pos, c.position);
                    if i != index as int {
                        assert(c.position != pos);
                        assert(self.cells@[i] == before[i]);
                    }
                }
            }
            j = j + 1;
        }
        proof {
            assert forall|i: int| 0 <= i < self.cells@.len() implies (#[trigger] self.cells@[i]).position
                == pos_of_index(self.width, i) by {
                assert(old_b.cells@[i].position == pos_of_index(w, i));
            }
        }
    }

    /// Recomputes every cell's neighbour mine count.
    fn refresh_adjacency(&mut self)
        requires
            old(self).well_shaped(),
            old(self).counters_ok(),
        ensures
            final(self).wf(),
            final(self).width == old(self).width,
            final(self).height == old(self).height,
            final(self).mine_count == old(self).mine_count,
            final(self).revealed_count == old(self).revealed_count,
            final(self).flagged_count == old(self).flagged_count,
            final(self).first_move_made == old(self).first_move_made,
            final(self).cells@.len() == old(self).cells@.len(),
            forall|i: int|
                0 <= i < old(self).cells@.len() ==> {
                    let c = #[trigger] old(self).cells@[i];
                    final(self).cells@[i] == Cell {
                        adjacent_mines: final(self).cells@[i].adjacent_mines,
                        ..c
                    }
                },
    {
        let ghost old_b = *self;
        let ghost w = self.width;
        let ghost h = self.height;
        let mut i: usize = 0;
        while i < self.cells.len()
            invariant
                old_b.well_shaped(),
                old_b.counters_ok(),
                self.width == w,
                self.height == h,
                w == old_b.width,
                h == old_b.height,
                self.mine_count == old_b.mine_count,
                self.revealed_count == old_b.revealed_count,
                self.flagged_count == old_b.flagged_count,
                self.first_move_made == old_b.first_move_made,
                self.cells@.len() == old_b.cells@.len(),
                i <= self.cells@.len(),
                forall|k: int|
                    0 <= k < old_b.cells@.len() ==> {
                        let m = #[trigger] old_b.cells@[k];
                        if k < i {
                            self.cells@[k] == Cell {
                                adjacent_mines: old_b.mines_around(m.position) as u8,
                                ..m
                            } && old_b.mines_around(m.position) <= 8
                        } else {
                            self.cells@[k] == m
                        }
                    },
            decreases self.cells@.len() - i,
        {
            let pos = self.cells[i].position;
            proof {
                assert forall|k: int| 0 <= k < self.cells@.len() implies (#[trigger] self.cells@[k]).position
                    == pos_of_index(self.width, k) by {
                    assert(old_b.cells@[k].position == pos_of_index(w, k));
                }
            }
            let adjacent = self.count_adjacent_mines(&pos);
            proof {
                lemma_neighbors_are_adjacent(pos, w, h);
                let ns = spec_neighbors(pos, w, h);
                assert forall|k: int| 0 <= k < ns.len() implies (#[trigger] ns[k]).x < w && ns[k].y
                    < h by {
                    assert(ns.contains(ns[k]));
                }
                assert forall|k: int| 0 <= k < old_b.cells@.len() implies (
                #[trigger] old_b.cells@[k]).is_mine == self.cells@[k].is_mine by {}
                lemma_mines_among_same(old_b.cells@, self.cells@, w, h, ns);
                lemma_mines_among_le(old_b.cells@, w, ns);
            }
            let ghost before = self.cells@;
            let mut cell = self.cells[i];
            cell.adjacent_mines = adjacent;
            self.cells.set(i, cell);
            proof {
                assert forall|k: int| 0 <= k < old_b.cells@.len() implies {
                    let m = #[trigger] old_b.cells@[k];
                    if k < i + 1 {
                        self.cells@[k] == Cell {
                            adjacent_mines: old_b.mines_around(m.position) as u8,
                            ..m
                        } && old_b.mines_around(m.position) <= 8
                    } else {
                        self.cells@[k] == m
                    }
                } by {
                    if k != i as int {
                        assert(self.cells@[k] == before[k]);
                    }
                }
            }
            i = i + 1;
        }
        proof {
            let f = flagged_pred();
            let g = revealed_pred();
            assert forall|k: int| 0 <= k < old_b.cells@.len() implies f(#[trigger] old_b.cells@[k])
                == f(self.cells@[k]) by {}
            assert forall|k: int| 0 <= k < old_b.cells@.len() implies g(#[trigger] old_b.cells@[k])
                == g(self.cells@[k]) by {}
            lemma_count_same(old_b.cells@, self.cells@, f);
            lemma_count_same(old_b.cells@, self.cells@, g);
            assert forall|k: int| 0 <= k < self.cells@.len() implies {
                &&& (#[trigger] self.cells@[k]).position == pos_of_index(w, k)
                &&& self.cells@[k].adjacent_mines == self.mines_around(self.cells@[k].position)
            } by {
                let p = self.cells@[k].position;
                assert(old_b.cells@[k].position == p);
                lemma_neighbors_are_adjacent(p, w, h);
                let ns = spec_neighbors(p, w, h);
                assert forall|t: int| 0 <= t < ns.len() implies (#[trigger] ns[t]).x < w && ns[t].y
                    < h by {
                    assert(ns.contains(ns[t]));
                }
                assert forall|t: int| 0 <= t < old_b.cells@.len() implies (
                #[trigger] old_b.cells@[t]).is_mine == self.cells@[t].is_mine by {}
                lemma_mines_among_same(old_b.cells@, self.cells@, w, h, ns);
            }
        }
    }
}

/// `d` is `c` opened by `player`: revealed, attributed, and stamped.
pub open spec fn opened_by(c: Cell, d: Cell, player: PlayerId) -> bool {
    &&& d == Cell {
        is_revealed: true,
        revealed_by: Some(player),
        reveal_time: d.reveal_time,
        ..c
    }
    &&& d.reveal_time is Some
}

impl GameBoard {
    /// The cell at `p` shows no neighbouring mine.
    pub open spec fn shows_zero(self, p: Position) -> bool {
        self.cell_at(p).adjacent_mines == 0
    }

    /// `opened` is what a reveal at `start` uncovers on this board when
    /// `start` holds no mine: `start` first, then every covered cell
    /// reachable from it through cells that show zero, each once, and each
    /// next to an earlier cell that shows zero.
    pub open spec fn is_flood_from(self, start: Position, opened: Seq<Position>) -> bool {
        &&& opened.len() > 0
        &&& opened[0] == start
        &&& opened.no_duplicates()
        &&& forall|i: int|
            0 <= i < opened.len() ==> self.in_bounds(#[trigger] opened[i]) && is_hidden(
                self.cell_at(opened[i]),
            )
        &&& self.reached_through_zeros(opened)
        &&& self.closed_under_zeros(opened)
    }

    /// The cell `opened[i]` sits next to an earlier cell of `opened` that
    /// shows zero.
    pub open spec fn has_zero_parent(self, opened: Seq<Position>, i: int) -> bool {
        exists|j: int|
            0 <= j < i && self.shows_zero(opened[j]) && #[trigger] is_adjacent(opened[j], opened[i])
    }

    /// Every cell of `opened` after the first sits next to an earlier one
    /// that shows zero.
    #[verifier::opaque]
    pub open spec fn reached_through_zeros(self, opened: Seq<Position>) -> bool {
        forall|i: int| 1 <= i < opened.len() ==> #[trigger] self.has_zero_parent(opened, i)
    }

    /// Every covered on-board neighbour of a cell of `opened` that shows
    /// zero is in `opened` too.
    #[verifier::opaque]
    pub open spec fn closed_under_zeros(self, opened: Seq<Position>) -> bool {
        forall|i: int, q: Position|
            0 <= i < opened.len() && self.shows_zero(opened[i]) && #[trigger] is_adjacent(
                opened[i],
                q,
            ) && self.in_bounds(q) && is_hidden(self.cell_at(q)) ==> opened.contains(q)
    }

    /// `after` is this board with the cells at `opened` uncovered by
    /// `player` and counted.
    pub open spec fn opened_into(self, after: GameBoard, opened: Seq<Position>, player: PlayerId) -> bool {
        &&& after.width == self.width
        &&& after.height == self.height
        &&& after.mine_count == self.mine_count
        &&& after.flagged_count == self.flagged_count
        &&& after.first_move_made == self.first_move_made
        &&& after.revealed_count == self.revealed_count + opened.len()
        &&& after.cells@.len() == self.cells@.len()
        &&& forall|k: int|
            0 <= k < self.cells@.len() ==> {
                let c = #[trigger] self.cells@[k];
                if opened.contains(c.position) {
                    opened_by(c, after.cells@[k], player)
                } else {
                    after.cells@[k] == c
                }
            }
    }

    /// Uncovers the cell at `index` for `player`.
    fn open_cell_at(&mut self, index: usize, player_id: PlayerId)
        requires
            old(self).well_shaped(),
            old(self).counters_ok(),
            index < old(self).cells@.len(),
            is_hidden(old(self).cells@[index as int]),
        ensures
            final(self).well_shaped(),
            final(self).counters_ok(),
            final(self).width == old(self).width,
            final(self).height == old(self).height,
            final(self).mine_count == old(self).mine_count,
            final(self).flagged_count == old(self).flagged_count,
            final(self).first_move_made == old(self).first_move_made,
            final(self).revealed_count == old(self).revealed_count + 1,
            final(self).cells@.len() == old(self).cells@.len(),
            opened_by(old(self).cells@[index as int], final(self).cells@[index as int], player_id),
            forall|k: int|
                0 <= k < old(self).cells@.len() && k != index ==> #[trigger] final(self).cells@[k]
                    == old(self).cells@[k],
            count_revealed(final(self).cells@) == count_revealed(old(self).cells@) + 1,
            count_hidden(final(self).cells@) + 1 == count_hidden(old(self).cells@),
    {
        let ghost before = self.cells@;
        let mut cell = self.cells[index];
        cell.is_revealed = true;
        cell.revealed_by = Some(player_id);
        cell.reveal_time = Some(instant_now());
        proof {
            lemma_count_update(before, index as int, cell, revealed_pred());
            lemma_count_update(before, index as int, cell, hidden_pred());
            lemma_count_update(before, index as int, cell, flagged_pred());
            lemma_count_le_len(before.update(index as int, cell), revealed_pred());
            assert(before.len() <= 255 * 255) by (nonlinear_arith)
                requires
                    before.len() == self.width * self.height,
                    self.width <= 255,
                    self.height <= 255,
            ;
        }
        self.cells.set(index, cell);
        self.revealed_count = self.revealed_count + 1;
        proof {
            assert forall|k: int| 0 <= k < self.cells@.len() implies (#[trigger] self.cells@[k]).position
                == pos_of_index(self.width, k) by {
                assert(before[k].position == pos_of_index(self.width, k));
            }
        }
    }

    /// Pushes onto `stack` every neighbour of `p` that is still covered.
    fn push_covered_neighbors(&self, p: &Position, stack: &mut Vec<Position>)
        requires
            self.well_shaped(),
        ensures
            final(stack)@.len() >= old(stack)@.len(),
            final(stack)@.subrange(0, old(stack)@.len() as int) == old(stack)@,
            forall|k: int|
                old(stack)@.len() <= k < final(stack)@.len() ==> {
                    let q = #[trigger] final(stack)@[k];
                    &&& self.in_bounds(q)
                    &&& is_adjacent(*p, q)
                    &&& is_hidden(self.cell_at(q))
                },
            forall|q: Position|
                #[trigger] is_adjacent(*p, q) && self.in_bounds(q) && is_hidden(self.cell_at(q))
                    ==> final(stack)@.contains(q),
    {
        let neighbors = p.neighbors(self.width, self.height);
        proof {
            lemma_neighbors_are_adjacent(*p, self.width, self.height);
        }
        let ghost ns = neighbors@;
        let ghost base = stack@;
        let mut k: usize = 0;
        while k < neighbors.len()
            invariant
                self.well_shaped(),
                ns == neighbors@,
                ns == spec_neighbors(*p, self.width, self.height),
                k <= ns.len(),
                stack@.len() >= base.len(),
                stack@.subrange(0, base.len() as int) == base,
                forall|t: int|
                    base.len() <= t < stack@.len() ==> {
                        let q = #[trigger] stack@[t];
                        &&& self.in_bounds(q)
                        &&& is_adjacent(*p, q)
                        &&& is_hidden(self.cell_at(q))
                    },
                forall|m: int|
                    0 <= m < k && self.in_bounds(#[trigger] ns[m]) && is_hidden(self.cell_at(ns[m]))
                        ==> stack@.contains(ns[m]),
            decreases ns.len() - k,
        {
            let q = neighbors[k];
            proof {
                assert(ns.contains(q));
                assert(spec_neighbors(*p, self.width, self.height).contains(q));
            }
            let ghost prev = stack@;
            match self.get_cell(&q) {
                Some(nc) => {
                    if !nc.is_revealed && !nc.is_flagged {
                        stack.push(q);
                    }
                },
                None => {},
            }
            proof {
                lemma_neighbors_are_adjacent(*p, self.width, self.height);
                assert(is_adjacent(*p, q) && q.x < self.width && q.y < self.height);
                assert forall|t: int| base.len() <= t < stack@.len() implies {
                    let r = #[trigger] stack@[t];
                    &&& self.in_bounds(r)
                    &&& is_adjacent(*p, r)
                    &&& is_hidden(self.cell_at(r))
                } by {
                    if t < prev.len() {
                        assert(stack@[t] == prev[t]);
                    }
                }
                assert(stack@.subrange(0, base.len() as int) =~= base) by {
                    assert forall|t: int| 0 <= t < base.len() implies stack@[t] == base[t] by {
                        assert(prev.subrange(0, base.len() as int)[t] == base[t]);
                    }
                }
                assert forall|m: int|
                    0 <= m < k + 1 && self.in_bounds(#[trigger] ns[m]) && is_hidden(self.cell_at(ns[m]))
                    implies stack@.contains(ns[m]) by {
                    if m < k {
                        let t = choose|t: int| 0 <= t < prev.len() && prev[t] == ns[m];
                        assert(stack@[t] == ns[m]);
                    } else {
                        assert(stack@[stack@.len() - 1] == q);
                    }
                }
            }
            k = k + 1;
        }
        proof {
            assert forall|q: Position|
                #[trigger] is_adjacent(*p, q) && self.in_bounds(q) && is_hidden(self.cell_at(q))
                implies stack@.contains(q) by {
                assert(spec_neighbors(*p, self.width, self.height).contains(q));
                let m = choose|m: int| 0 <= m < ns.len() && ns[m] == q;
            }
        }
    }
}


/// Two sequences that hold the same elements, each as often, when the
/// second has no repeats: the first has none either, and they contain the
/// same values.
pub proof fn lemma_same_elements<A>(a: Seq<A>, b: Seq<A>)
    requires
        a.to_multiset() == b.to_multiset(),
        b.no_duplicates(),
    ensures
        a.no_duplicates(),
        a.len() == b.len(),
        forall|x: A| a.contains(x) <==> b.contains(x),
{
    a.to_multiset_ensures();
    b.to_multiset_ensures();
    b.lemma_multiset_has_no_duplicates();
    a.lemma_multiset_has_no_duplicates_conv();
    assert forall|x: A| a.contains(x) <==> b.contains(x) by {
        assert(a.contains(x) <==> a.to_multiset().count(x) > 0);
        assert(b.contains(x) <==> b.to_multiset().count(x) > 0);
    }
}

/// How many mines the first move lays: the requested number, but never
/// more than the cells outside a full 3x3 safe zone.
pub open spec fn mines_to_lay(requested: u32, width: u8, height: u8) -> u32 {
    let room = (width * height - 9) as u32;
    if requested < room {
        requested
    } else {
        room
    }
}

impl GameBoard {
    /// Lays the mines for a first move at `first_move`, taking the mine
    /// candidates in the order `order` gives them: the first
    /// `mines_to_lay(..)` of them (or all, if there are fewer) get a mine.
    /// Then every cell's neighbour count is refreshed.
    pub fn place_mines_in_order(&mut self, first_move: &Position, order: &Vec<Position>)
        requires
            old(self).wf(),
            old(self).width * old(self).height >= 9,
            order@.to_multiset() == old(self).mine_candidates(*first_move).to_multiset(),
        ensures
            final(self).wf(),
            final(self).width == old(self).width,
            final(self).height == old(self).height,
            final(self).mine_count == mines_to_lay(
                old(self).mine_count,
                old(self).width,
                old(self).height,
            ),
            final(self).revealed_count == old(self).revealed_count,
            final(self).flagged_count == old(self).flagged_count,
            final(self).first_move_made,
            final(self).cells@.len() == old(self).cells@.len(),
            forall|i: int|
                0 <= i < old(self).cells@.len() ==> {
                    let c = #[trigger] old(self).cells@[i];
                    let d = final(self).cells@[i];
                    d == Cell {
                        is_mine: c.is_mine || order@.take(
                            vstd::math::min(final(self).mine_count as int, order@.len() as int),
                        ).contains(c.position),
                        adjacent_mines: d.adjacent_mines,
                        ..c
                    }
                },
            count_mines(old(self).cells@) == 0 ==> count_mines(final(self).cells@)
                == vstd::math::min(final(self).mine_count as int, order@.len() as int),
    {
        let ghost old_b = *self;
        let ghost cands = self.mine_candidates(*first_move);
        proof {
            self.lemma_mine_candidates(*first_move, self.cells@.len());
            lemma_same_elements(order@, cands);
            assert(self.width * self.height <= 255 * 255) by (nonlinear_arith)
                requires
                    self.width <= 255,
                    self.height <= 255,
            ;
        }
        let total: u32 = (self.width as u32) * (self.height as u32);
        let mine_count = if self.mine_count < total - 9 {
            self.mine_count
        } else {
            total - 9
        };
        self.mine_count = mine_count;
        let take: usize = if (mine_count as usize) < order.len() {
            mine_count as usize
        } else {
            order.len()
        };
        proof {
            assert forall|q: Position| #[trigger] order@.contains(q) implies self.in_bounds(q) by {
                assert(cands.contains(q));
            }
        }
        self.mark_mines(order, take);
        let ghost mid = *self;
        proof {
            let f = flagged_pred();
            let g = revealed_pred();
            assert forall|k: int| 0 <= k < old_b.cells@.len() implies f(#[trigger] old_b.cells@[k])
                == f(mid.cells@[k]) by {}
            assert forall|k: int| 0 <= k < old_b.cells@.len() implies g(#[trigger] old_b.cells@[k])
                == g(mid.cells@[k]) by {}
            lemma_count_same(old_b.cells@, mid.cells@, f);
            lemma_count_same(old_b.cells@, mid.cells@, g);
        }
        self.refresh_adjacency();
        self.first_move_made = true;
        proof {
            assert forall|i: int| 0 <= i < old_b.cells@.len() implies {
                let c = #[trigger] old_b.cells@[i];
                let d = self.cells@[i];
                d == Cell {
                    is_mine: c.is_mine || order@.take(take as int).contains(c.position),
                    adjacent_mines: d.adjacent_mines,
                    ..c
                }
            } by {
                assert(mid.cells@[i] == Cell {
                    is_mine: old_b.cells@[i].is_mine || order@.take(take as int).contains(
                        old_b.cells@[i].position,
                    ),
                    ..old_b.cells@[i]
                });
                assert(self.cells@[i] == Cell {
                    adjacent_mines: self.cells@[i].adjacent_mines,
                    ..mid.cells@[i]
                });
            }
            let m = mine_pred();
            assert forall|k: int| 0 <= k < mid.cells@.len() implies m(#[trigger] mid.cells@[k])
                == m(self.cells@[k]) by {
                assert(self.cells@[k] == Cell {
                    adjacent_mines: self.cells@[k].adjacent_mines,
                    ..mid.cells@[k]
                });
            }
            lemma_count_same(mid.cells@, self.cells@, m);
        }
    }

    /// Lays the mines for a first move at `first_move`: the candidates
    /// (every cell outside the first move's 3x3 safe zone) are shuffled and
    /// the first `mines_to_lay(..)` of them get a mine. Then every cell's
    /// neighbour count is refreshed.
    pub fn place_mines(&mut self, first_move: &Position)
        requires
            old(self).wf(),
            old(self).width * old(self).height >= 9,
        ensures
            old(self).mines_laid(*final(self), *first_move),
    {
        let ghost old_b = *self;
        let candidates = self.mine_candidate_list(first_move);
        let order = shuffle(candidates);
        let ghost cands = old_b.mine_candidates(*first_move);
        proof {
            old_b.lemma_mine_candidates(*first_move, old_b.cells@.len());
            lemma_same_elements(order@, cands);
        }
        self.place_mines_in_order(first_move, &order);
        proof {
            let k = vstd::math::min(self.mine_count as int, order@.len() as int);
            assert forall|i: int| 0 <= i < old_b.cells@.len() implies {
                let c = #[trigger] old_b.cells@[i];
                let d = self.cells@[i];
                d.is_mine && !c.is_mine ==> !in_safe_zone(*first_move, c.position)
            } by {
                let c = old_b.cells@[i];
                if self.cells@[i].is_mine && !c.is_mine {
                    assert(order@.take(k).contains(c.position));
                    let t = choose|t: int| 0 <= t < k && order@.take(k)[t] == c.position;
                    assert(order@[t] == c.position);
                    assert(order@.contains(c.position));
                    assert(cands.contains(c.position));
                }
            }
        }
    }
}



impl GameBoard {
    /// Work still to do in a flood from `start`: on-board cells covered on
    /// this board, each the start or next to an opened cell showing zero.
    #[verifier::opaque]
    pub open spec fn pending_ok(self, start: Position, opened: Seq<Position>, stack: Seq<Position>) -> bool {
        forall|t: int|
            #![trigger stack[t]]
            0 <= t < stack.len() ==> {
                &&& self.in_bounds(stack[t])
                &&& is_hidden(self.cell_at(stack[t]))
                &&& (stack[t] == start || exists|j: int|
                    0 <= j < opened.len() && self.shows_zero(opened[j]) && #[trigger] is_adjacent(
                        opened[j],
                        stack[t],
                    ))
            }
    }

    /// Every covered neighbour of an opened cell showing zero has been
    /// opened or is waiting on the stack.
    #[verifier::opaque]
    pub open spec fn frontier_kept(self, opened: Seq<Position>, stack: Seq<Position>) -> bool {
        forall|j: int, q: Position|
            0 <= j < opened.len() && self.shows_zero(opened[j]) && #[trigger] is_adjacent(
                opened[j],
                q,
            ) && self.in_bounds(q) && is_hidden(self.cell_at(q)) ==> opened.contains(q)
                || stack.contains(q)
    }

    /// What the top of a valid stack is.
    proof fn lemma_pending_top(self, start: Position, opened: Seq<Position>, stack: Seq<Position>)
        requires
            self.pending_ok(start, opened, stack),
            stack.len() > 0,
        ensures
            self.in_bounds(stack.last()),
            is_hidden(self.cell_at(stack.last())),
            stack.last() == start || exists|j: int|
                0 <= j < opened.len() && self.shows_zero(opened[j]) && #[trigger] is_adjacent(
                    opened[j],
                    stack.last(),
                ),
    {
        reveal(GameBoard::pending_ok);
        assert(stack[stack.len() - 1] == stack.last());
    }

    /// Dropping the top of the stack, when it was already opened.
    proof fn lemma_pop_seen(self, start: Position, opened: Seq<Position>, stack: Seq<Position>)
        requires
            self.pending_ok(start, opened, stack),
            self.frontier_kept(opened, stack),
            stack.len() > 0,
            opened.contains(stack.last()),
        ensures
            self.pending_ok(start, opened, stack.drop_last()),
            self.frontier_kept(opened, stack.drop_last()),
    {
        reveal(GameBoard::pending_ok);
        reveal(GameBoard::frontier_kept);
        let t1 = stack.drop_last();
        assert forall|t: int| #![trigger t1[t]] 0 <= t < t1.len() implies {
            &&& self.in_bounds(t1[t])
            &&& is_hidden(self.cell_at(t1[t]))
            &&& (t1[t] == start || exists|j: int|
                0 <= j < opened.len() && self.shows_zero(opened[j]) && #[trigger] is_adjacent(
                    opened[j],
                    t1[t],
                ))
        } by {
            assert(stack[t] == t1[t]);
        }
        assert forall|j: int, q: Position|
            0 <= j < opened.len() && self.shows_zero(opened[j]) && #[trigger] is_adjacent(opened[j], q)
                && self.in_bounds(q) && is_hidden(self.cell_at(q)) implies opened.contains(q)
            || t1.contains(q) by {
            if stack.contains(q) && q != stack.last() {
                let t = choose|t: int| 0 <= t < stack.len() && stack[t] == q;
                assert(t != stack.len() - 1);
                assert(t1[t] == q);
            }
        }
    }

    /// Appending a newly opened cell keeps `opened` free of repeats and
    /// reached through zeros.
    proof fn lemma_push_opened(self, opened: Seq<Position>, cur: Position)
        requires
            self.reached_through_zeros(opened),
            opened.no_duplicates(),
            !opened.contains(cur),
            opened.len() > 0 ==> exists|j: int|
                0 <= j < opened.len() && self.shows_zero(opened[j]) && #[trigger] is_adjacent(
                    opened[j],
                    cur,
                ),
        ensures
            self.reached_through_zeros(opened.push(cur)),
            opened.push(cur).no_duplicates(),
    {
        reveal(GameBoard::reached_through_zeros);
        let s1 = opened.push(cur);
        assert forall|i: int| 1 <= i < s1.len() implies #[trigger] self.has_zero_parent(s1, i) by {
            if i < opened.len() {
                assert(s1[i] == opened[i]);
                assert(self.has_zero_parent(opened, i));
                let j = choose|j: int|
                    0 <= j < i && self.shows_zero(opened[j]) && #[trigger] is_adjacent(
                        opened[j],
                        opened[i],
                    );
                assert(s1[j] == opened[j]);
                assert(is_adjacent(s1[j], s1[i]));
            } else {
                assert(s1[i] == cur);
                let j = choose|j: int|
                    0 <= j < opened.len() && self.shows_zero(opened[j]) && #[trigger] is_adjacent(
                        opened[j],
                        cur,
                    );
                assert(s1[j] == opened[j]);
                assert(is_adjacent(s1[j], s1[i]));
            }
        }
        assert forall|a: int, b: int| 0 <= a < s1.len() && 0 <= b < s1.len() && a != b implies s1[a]
            != s1[b] by {
            if a == opened.len() {
                assert(opened[b] == s1[b]);
                assert(opened.contains(s1[b]));
            } else if b == opened.len() {
                assert(opened[a] == s1[a]);
                assert(opened.contains(s1[a]));
            } else {
                assert(opened[a] == s1[a] && opened[b] == s1[b]);
            }
        }
    }

    /// The stack after opening `cur`, which shows a mine count other than
    /// zero: nothing is pushed.
    proof fn lemma_after_open_nonzero(
        self,
        start: Position,
        opened: Seq<Position>,
        rest: Seq<Position>,
        cur: Position,
    )
        requires
            self.pending_ok(start, opened, rest.push(cur)),
            self.frontier_kept(opened, rest.push(cur)),
            !self.shows_zero(cur),
        ensures
            self.pending_ok(start, opened.push(cur), rest),
            self.frontier_kept(opened.push(cur), rest),
    {
        reveal(GameBoard::pending_ok);
        reveal(GameBoard::frontier_kept);
        let t0 = rest.push(cur);
        let s1 = opened.push(cur);
        assert forall|t: int| #![trigger rest[t]] 0 <= t < rest.len() implies {
            &&& self.in_bounds(rest[t])
            &&& is_hidden(self.cell_at(rest[t]))
            &&& (rest[t] == start || exists|j: int|
                0 <= j < s1.len() && self.shows_zero(s1[j]) && #[trigger] is_adjacent(s1[j], rest[t]))
        } by {
            assert(t0[t] == rest[t]);
            if rest[t] != start {
                let j = choose|j: int|
                    0 <= j < opened.len() && self.shows_zero(opened[j]) && #[trigger] is_adjacent(
                        opened[j],
                        t0[t],
                    );
                assert(s1[j] == opened[j]);
            }
        }
        assert forall|j: int, q: Position|
            0 <= j < s1.len() && self.shows_zero(s1[j]) && #[trigger] is_adjacent(s1[j], q)
                && self.in_bounds(q) && is_hidden(self.cell_at(q)) implies s1.contains(q)
            || rest.contains(q) by {
            assert(j < opened.len());
            assert(s1[j] == opened[j]);
            assert(opened.contains(q) || t0.contains(q));
            lemma_push_contains(opened, cur, q);
            lemma_push_contains(rest, cur, q);
        }
    }

    /// The stack after opening `cur`, which shows zero: its covered
    /// neighbours were pushed on top of `rest`.
    proof fn lemma_after_open_zero(
        self,
        start: Position,
        opened: Seq<Position>,
        rest: Seq<Position>,
        cur: Position,
        stack: Seq<Position>,
    )
        requires
            self.pending_ok(start, opened, rest.push(cur)),
            self.frontier_kept(opened, rest.push(cur)),
            self.shows_zero(cur),
            stack.len() >= rest.len(),
            stack.subrange(0, rest.len() as int) == rest,
            forall|k: int|
                rest.len() <= k < stack.len() ==> {
                    let q = #[trigger] stack[k];
                    &&& self.in_bounds(q)
                    &&& is_adjacent(cur, q)
                    &&& is_hidden(self.cell_at(q))
                },
            forall|q: Position|
                #[trigger] is_adjacent(cur, q) && self.in_bounds(q) && is_hidden(self.cell_at(q))
                    && !opened.push(cur).contains(q) ==> stack.contains(q),
        ensures
            self.pending_ok(start, opened.push(cur), stack),
            self.frontier_kept(opened.push(cur), stack),
    {
        reveal(GameBoard::pending_ok);
        reveal(GameBoard::frontier_kept);
        let t0 = rest.push(cur);
        let s1 = opened.push(cur);
        assert forall|t: int| 0 <= t < rest.len() implies #[trigger] stack[t] == rest[t] by {
            assert(stack.subrange(0, rest.len() as int)[t] == rest[t]);
        }
        assert forall|t: int| #![trigger stack[t]] 0 <= t < stack.len() implies {
            &&& self.in_bounds(stack[t])
            &&& is_hidden(self.cell_at(stack[t]))
            &&& (stack[t] == start || exists|j: int|
                0 <= j < s1.len() && self.shows_zero(s1[j]) && #[trigger] is_adjacent(s1[j], stack[t]))
        } by {
            if t < rest.len() {
                assert(t0[t] == stack[t]);
                if stack[t] != start {
                    let j = choose|j: int|
                        0 <= j < opened.len() && self.shows_zero(opened[j]) && #[trigger] is_adjacent(
                            opened[j],
                            t0[t],
                        );
                    assert(s1[j] == opened[j]);
                }
            } else {
                assert(s1[opened.len() as int] == cur);
                assert(is_adjacent(s1[opened.len() as int], stack[t]));
            }
        }
        assert forall|j: int, q: Position|
            0 <= j < s1.len() && self.shows_zero(s1[j]) && #[trigger] is_adjacent(s1[j], q)
                && self.in_bounds(q) && is_hidden(self.cell_at(q)) implies s1.contains(q)
            || stack.contains(q) by {
            lemma_push_contains(opened, cur, q);
            if j < opened.len() {
                assert(s1[j] == opened[j]);
                assert(opened.contains(q) || t0.contains(q));
                lemma_push_contains(rest, cur, q);
                if rest.contains(q) {
                    let t = choose|t: int| 0 <= t < rest.len() && rest[t] == q;
                    assert(stack[t] == q);
                }
            } else {
                assert(s1[j] == cur);
            }
        }
    }
}

/// Opening `cur` at `index` extends what has been opened so far by `cur`.
proof fn lemma_opened_into_push(
    b0: GameBoard,
    mid: GameBoard,
    after: GameBoard,
    opened: Seq<Position>,
    cur: Position,
    index: int,
    player: PlayerId,
)
    requires
        b0.well_shaped(),
        b0.opened_into(mid, opened, player),
        b0.in_bounds(cur),
        index == index_of(b0.width, cur),
        !opened.contains(cur),
        after.width == mid.width,
        after.height == mid.height,
        after.mine_count == mid.mine_count,
        after.flagged_count == mid.flagged_count,
        after.first_move_made == mid.first_move_made,
        after.revealed_count == mid.revealed_count + 1,
        after.cells@.len() == mid.cells@.len(),
        opened_by(mid.cells@[index], after.cells@[index], player),
        forall|k: int| 0 <= k < mid.cells@.len() && k != index ==> #[trigger] after.cells@[k] == mid.cells@[k],
    ensures
        b0.opened_into(after, opened.push(cur), player),
{
    let s1 = opened.push(cur);
    lemma_index_of_pos(b0.width, b0.height, cur.x as int, cur.y as int);
    lemma_pos_of_index(b0.width, b0.height, index);
    assert forall|k: int| 0 <= k < b0.cells@.len() implies {
        let c = #[trigger] b0.cells@[k];
        if s1.contains(c.position) {
            opened_by(c, after.cells@[k], player)
        } else {
            after.cells@[k] == c
        }
    } by {
        let c = b0.cells@[k];
        lemma_push_contains(opened, cur, c.position);
        lemma_pos_of_index(b0.width, b0.height, k);
        if k == index {
            assert(c.position == cur);
            assert(mid.cells@[k] == c);
        } else {
            assert(c.position != cur);
        }
    }
}

/// On a board that is `b0` with `opened` uncovered, an on-board cell is
/// covered exactly when it was covered on `b0` and is not in `opened`.
proof fn lemma_hidden_after_open(b0: GameBoard, after: GameBoard, opened: Seq<Position>, player: PlayerId, q: Position)
    requires
        b0.well_shaped(),
        b0.opened_into(after, opened, player),
        b0.in_bounds(q),
    ensures
        is_hidden(after.cell_at(q)) <==> (is_hidden(b0.cell_at(q)) && !opened.contains(q)),
{
    lemma_index_of_pos(b0.width, b0.height, q.x as int, q.y as int);
    lemma_pos_of_index(b0.width, b0.height, index_of(b0.width, q));
    let k = index_of(b0.width, q);
    assert(b0.cells@[k].position == q);
}

/// Opening cells keeps a board well formed.
proof fn lemma_wf_after_open(b0: GameBoard, after: GameBoard, opened: Seq<Position>, player: PlayerId)
    requires
        b0.wf(),
        after.well_shaped(),
        after.counters_ok(),
        b0.opened_into(after, opened, player),
    ensures
        after.wf(),
{
    assert forall|k: int| 0 <= k < b0.cells@.len() implies {
        &&& (#[trigger] after.cells@[k]).position == b0.cells@[k].position
        &&& after.cells@[k].is_mine == b0.cells@[k].is_mine
        &&& after.cells@[k].adjacent_mines == b0.cells@[k].adjacent_mines
    } by {
        let c = b0.cells@[k];
        if opened.contains(c.position) {
            assert(opened_by(c, after.cells@[k], player));
        }
    }
    lemma_wf_after_edit(b0, after);
}

impl GameBoard {
    /// Opens `start` and, through every opened cell that shows zero, the
    /// covered cells around it, depth first.
    fn flood_open(&mut self, start: &Position, player_id: PlayerId) -> (opened: Vec<Position>)
        requires
            old(self).wf(),
            old(self).in_bounds(*start),
            is_hidden(old(self).cell_at(*start)),
        ensures
            final(self).wf(),
            old(self).is_flood_from(*start, opened@),
            old(self).opened_into(*final(self), opened@, player_id),
    {
        let ghost b0 = *self;
        let mut revealed_positions: Vec<Position> = Vec::new();
        let mut to_reveal: Vec<Position> = Vec::new();
        to_reveal.push(*start);
        proof {
            assert(b0.cells@ =~= self.cells@);
            reveal(GameBoard::pending_ok);
            reveal(GameBoard::frontier_kept);
            reveal(GameBoard::reached_through_zeros);
            assert(to_reveal@[0] == *start);
        }
        while to_reveal.len() > 0
            invariant
                b0.wf(),
                b0.in_bounds(*start),
                is_hidden(b0.cell_at(*start)),
                self.well_shaped(),
                self.counters_ok(),
                b0.opened_into(*self, revealed_positions@, player_id),
                revealed_positions@.no_duplicates(),
                revealed_positions@.len() == 0 ==> to_reveal@ == seq![*start],
                revealed_positions@.len() > 0 ==> revealed_positions@[0] == *start,
                forall|i: int|
                    0 <= i < revealed_positions@.len() ==> b0.in_bounds(
                        #[trigger] revealed_positions@[i],
                    ) && is_hidden(b0.cell_at(revealed_positions@[i])),
                b0.reached_through_zeros(revealed_positions@),
                b0.pending_ok(*start, revealed_positions@, to_reveal@),
                b0.frontier_kept(revealed_positions@, to_reveal@),
            decreases count_hidden(self.cells@), to_reveal@.len(),
        {
            let ghost s0 = revealed_positions@;
            let ghost t0 = to_reveal@;
            proof {
                b0.lemma_pending_top(*start, s0, t0);
            }
            let current_pos = to_reveal.pop().unwrap();
            let ghost rest = to_reveal@;
            proof {
                assert(t0.last() == current_pos);
                assert(rest =~= t0.drop_last());
                assert(t0 =~= rest.push(current_pos));
            }
            if contains_position(&revealed_positions, &current_pos) {
                proof {
                    b0.lemma_pop_seen(*start, s0, t0);
                }
                continue;
            }
            proof {
                lemma_index_of_pos(b0.width, b0.height, current_pos.x as int, current_pos.y as int);
                lemma_hidden_after_open(b0, *self, s0, player_id, current_pos);
            }
            let index = self.position_to_index(&current_pos);
            let cell = self.cells[index];
            if cell.is_revealed || cell.is_flagged {
                continue;
            }
            proof {
                if s0.len() > 0 {
                    assert(s0.contains(s0[0]));
                    assert(current_pos != *start);
                }
                b0.lemma_push_opened(s0, current_pos);
                lemma_pos_of_index(b0.width, b0.height, index as int);
            }
            let ghost mid = *self;
            self.open_cell_at(index, player_id);
            revealed_positions.push(current_pos);
            proof {
                lemma_opened_into_push(
                    b0,
                    mid,
                    *self,
                    s0,
                    current_pos,
                    index as int,
                    player_id,
                );
                assert forall|i: int|
                    0 <= i < revealed_positions@.len() implies b0.in_bounds(
                    #[trigger] revealed_positions@[i],
                ) && is_hidden(b0.cell_at(revealed_positions@[i])) by {
                    if i < s0.len() {
                        assert(revealed_positions@[i] == s0[i]);
                    }
                }
                if s0.len() == 0 {
                    assert(current_pos == *start);
                }
                assert(b0.cells@[index as int] == mid.cells@[index as int]);
            }
            if cell.adjacent_mines == 0 {
                let ghost after_open = *self;
                self.push_covered_neighbors(&current_pos, &mut to_reveal);
                proof {
                    let s1 = revealed_positions@;
                    assert(b0.shows_zero(current_pos));
                    assert forall|k: int| rest.len() <= k < to_reveal@.len() implies {
                        let q = #[trigger] to_reveal@[k];
                        &&& b0.in_bounds(q)
                        &&& is_adjacent(current_pos, q)
                        &&& is_hidden(b0.cell_at(q))
                    } by {
                        lemma_hidden_after_open(b0, after_open, s1, player_id, to_reveal@[k]);
                    }
                    assert forall|q: Position|
                        #[trigger] is_adjacent(current_pos, q) && b0.in_bounds(q) && is_hidden(
                            b0.cell_at(q),
                        ) && !s1.contains(q) implies to_reveal@.contains(q) by {
                        lemma_hidden_after_open(b0, after_open, s1, player_id, q);
                    }
                    b0.lemma_after_open_zero(*start, s0, rest, current_pos, to_reveal@);
                }
            } else {
                proof {
                    b0.lemma_after_open_nonzero(*start, s0, rest, current_pos);
                }
            }
        }
        proof {
            let s = revealed_positions@;
            reveal(GameBoard::frontier_kept);
            reveal(GameBoard::closed_under_zeros);
            assert forall|i: int, q: Position|
                0 <= i < s.len() && b0.shows_zero(s[i]) && #[trigger] is_adjacent(s[i], q)
                    && b0.in_bounds(q) && is_hidden(b0.cell_at(q)) implies s.contains(q) by {
                assert(!to_reveal@.contains(q));
            }
            lemma_wf_after_open(b0, *self, s, player_id);
        }
        revealed_positions
    }
}


impl GameBoard {
    /// `after` is this board with its mines laid for a first move at
    /// `first`: only mine flags and neighbour counts change, no mine goes
    /// away, new mines lie outside the 3x3 safe zone around `first`, and on
    /// a board without mines exactly `min(mine_count, candidates)` appear.
    pub open spec fn mines_laid(self, after: GameBoard, first: Position) -> bool {
        &&& after.wf()
        &&& after.width == self.width
        &&& after.height == self.height
        &&& after.mine_count == mines_to_lay(self.mine_count, self.width, self.height)
        &&& after.revealed_count == self.revealed_count
        &&& after.flagged_count == self.flagged_count
        &&& after.first_move_made
        &&& after.cells@.len() == self.cells@.len()
        &&& forall|i: int|
            0 <= i < self.cells@.len() ==> {
                let c = #[trigger] self.cells@[i];
                let d = after.cells@[i];
                &&& d == Cell { is_mine: d.is_mine, adjacent_mines: d.adjacent_mines, ..c }
                &&& c.is_mine ==> d.is_mine
                &&& d.is_mine && !c.is_mine ==> !in_safe_zone(first, c.position)
            }
        &&& count_mines(self.cells@) == 0 ==> count_mines(after.cells@) == vstd::math::min(
            after.mine_count as int,
            self.mine_candidates(first).len() as int,
        )
    }

    /// What one reveal at the covered cell `pos` by `player` does: `armed`
    /// is the board with its mines in place (this board itself once the
    /// first move is made), `after` the result, and `opened` the returned
    /// positions. A mine opens alone; otherwise the flood from `pos` opens.
    pub open spec fn reveal_from(
        self,
        armed: GameBoard,
        after: GameBoard,
        pos: Position,
        opened: Seq<Position>,
        player: PlayerId,
    ) -> bool {
        &&& if self.first_move_made {
            armed == self
        } else {
            self.mines_laid(armed, pos)
        }
        &&& if armed.cell_at(pos).is_mine {
            opened == seq![pos]
        } else {
            armed.is_flood_from(pos, opened)
        }
        &&& armed.opened_into(after, opened, player)
    }

    /// Opens the cell at `pos` for `player` and returns the positions it
    /// opened. Off-board, revealed and flagged cells open nothing. The
    /// first reveal of a game lays the mines around it first. A mine opens
    /// alone; a safe cell opens together with every covered cell reachable
    /// from it through cells that show zero.
    pub fn reveal_cell(&mut self, pos: &Position, player_id: PlayerId) -> (revealed: Vec<Position>)
        requires
            old(self).wf(),
            !old(self).first_move_made && old(self).in_bounds(*pos) && is_hidden(
                old(self).cell_at(*pos),
            ) ==> old(self).width * old(self).height >= 9,
        ensures
            final(self).wf(),
            !(old(self).in_bounds(*pos) && is_hidden(old(self).cell_at(*pos))) ==> revealed@.len()
                == 0 && *final(self) == *old(self),
            old(self).in_bounds(*pos) && is_hidden(old(self).cell_at(*pos)) ==> exists|
                armed: GameBoard,
            | #[trigger] old(self).reveal_from(armed, *final(self), *pos, revealed@, player_id),
    {
        let revealed_positions: Vec<Position> = Vec::new();
        match self.get_cell(pos) {
            Some(cell) => {
                if cell.is_revealed || cell.is_flagged {
                    return revealed_positions;
                }
            },
            None => {
                return revealed_positions;
            },
        }
        let ghost before = *self;
        if !self.first_move_made {
            self.place_mines(pos);
        }
        let ghost armed = *self;
        proof {
            lemma_index_of_pos(self.width, self.height, pos.x as int, pos.y as int);
            if !before.first_move_made {
                let k = index_of(self.width, *pos);
                assert(before.cells@[k] == Cell {
                    is_mine: before.cells@[k].is_mine,
                    adjacent_mines: before.cells@[k].adjacent_mines,
                    ..before.cells@[k]
                });
            }
        }
        let index = self.position_to_index(pos);
        let is_mine = self.cells[index].is_mine;
        if is_mine {
            let mut revealed_positions = revealed_positions;
            self.open_cell_at(index, player_id);
            revealed_positions.push(*pos);
            proof {
                assert(revealed_positions@ =~= seq![*pos]);
                lemma_opened_into_push(
                    armed,
                    armed,
                    *self,
                    Seq::empty(),
                    *pos,
                    index as int,
                    player_id,
                );
                assert(Seq::<Position>::empty().push(*pos) =~= seq![*pos]);
                lemma_wf_after_open(armed, *self, revealed_positions@, player_id);
                assert(before.reveal_from(armed, *self, *pos, revealed_positions@, player_id));
            }
            return revealed_positions;
        }
        let opened = self.flood_open(pos, player_id);
        proof {
            assert(before.reveal_from(armed, *self, *pos, opened@, player_id));
        }
        opened
    }
}


/// On a well-formed board, a neighbour of a cell that shows zero holds no
/// mine.
pub proof fn lemma_zero_has_no_mine_neighbor(b: GameBoard, p: Position, q: Position)
    requires
        b.wf(),
        b.in_bounds(p),
        b.in_bounds(q),
        b.shows_zero(p),
        is_adjacent(p, q),
    ensures
        !b.cell_at(q).is_mine,
{
    lemma_index_of_pos(b.width, b.height, p.x as int, p.y as int);
    lemma_pos_of_index(b.width, b.height, index_of(b.width, p));
    let k = index_of(b.width, p);
    assert(b.cells@[k].position == p);
    lemma_neighbors_are_adjacent(p, b.width, b.height);
    let ns = spec_neighbors(p, b.width, b.height);
    assert(ns.contains(q));
    let t = choose|t: int| 0 <= t < ns.len() && ns[t] == q;
    lemma_mines_among_zero(b.cells@, b.width, ns, t);
}

/// A flood from a cell without a mine opens no mine: every cell it
/// reaches sits next to a cell that shows zero.
pub proof fn lemma_flood_avoids_mines(b: GameBoard, start: Position, opened: Seq<Position>)
    requires
        b.wf(),
        b.is_flood_from(start, opened),
        !b.cell_at(start).is_mine,
    ensures
        forall|i: int| 0 <= i < opened.len() ==> !b.cell_at(#[trigger] opened[i]).is_mine,
{
    reveal(GameBoard::reached_through_zeros);
    assert forall|i: int| 0 <= i < opened.len() implies !b.cell_at(#[trigger] opened[i]).is_mine by {
        if i > 0 {
            assert(b.has_zero_parent(opened, i));
            let j = choose|j: int|
                0 <= j < i && b.shows_zero(opened[j]) && #[trigger] is_adjacent(opened[j], opened[i]);
            lemma_zero_has_no_mine_neighbor(b, opened[j], opened[i]);
        }
    }
}

/// The first reveal on a board without mines never opens a mine: the
/// first move and the cells around it stay clear, so it opens at least
/// the first cell and nothing it opens holds a mine.
pub proof fn lemma_first_reveal_is_safe(
    before: GameBoard,
    armed: GameBoard,
    after: GameBoard,
    pos: Position,
    opened: Seq<Position>,
    player: PlayerId,
)
    requires
        before.wf(),
        !before.first_move_made,
        forall|i: int| 0 <= i < before.cells@.len() ==> !(#[trigger] before.cells@[i]).is_mine,
        before.in_bounds(pos),
        before.reveal_from(armed, after, pos, opened, player),
    ensures
        opened.len() >= 1,
        opened[0] == pos,
        forall|q: Position| armed.in_bounds(q) && in_safe_zone(pos, q) ==> !armed.cell_at(q).is_mine,
        forall|i: int| 0 <= i < opened.len() ==> !after.cell_at(#[trigger] opened[i]).is_mine,
{
    assert forall|q: Position| armed.in_bounds(q) && in_safe_zone(pos, q) implies !armed.cell_at(
        q,
    ).is_mine by {
        lemma_index_of_pos(before.width, before.height, q.x as int, q.y as int);
        lemma_pos_of_index(before.width, before.height, index_of(before.width, q));
        let k = index_of(before.width, q);
        assert(before.cells@[k].position == q);
    }
    assert(armed.in_bounds(pos) && in_safe_zone(pos, pos));
    assert(!armed.cell_at(pos).is_mine);
    lemma_flood_avoids_mines(armed, pos, opened);
    assert forall|i: int| 0 <= i < opened.len() implies !after.cell_at(#[trigger] opened[i]).is_mine by {
        let q = opened[i];
        assert(armed.in_bounds(q));
        lemma_index_of_pos(armed.width, armed.height, q.x as int, q.y as int);
        lemma_pos_of_index(armed.width, armed.height, index_of(armed.width, q));
        let k = index_of(armed.width, q);
        assert(armed.cells@[k].position == q);
        if opened.contains(q) {
            assert(opened_by(armed.cells@[k], after.cells@[k], player));
        }
    }
}


/// Place of `p` in the 3x3 square around `first`, row by row (0..9).
pub open spec fn zone_code(first: Position, p: Position) -> int {
    (p.y - first.y + 1) * 3 + (p.x - first.x + 1)
}

/// Zone codes of the safe-zone cells among the first `n` cells.
pub open spec fn safe_codes_upto(cells: Seq<Cell>, first: Position, n: nat) -> Seq<int>
    decreases n,
{
    if n == 0 {
        Seq::empty()
    } else {
        let prev = safe_codes_upto(cells, first, (n - 1) as nat);
        let p = cells[n - 1].position;
        if in_safe_zone(first, p) {
            prev.push(zone_code(first, p))
        } else {
            prev
        }
    }
}

/// Every one of the first `n` cells is either a mine candidate or a
/// distinct safe-zone cell, and there are at most nine of the latter.
proof fn lemma_safe_codes(b: GameBoard, first: Position, n: nat)
    requires
        b.well_shaped(),
        n <= b.cells@.len(),
    ensures
        mine_candidates_upto(b.cells@, first, n).len() + safe_codes_upto(b.cells@, first, n).len()
            == n,
        safe_codes_upto(b.cells@, first, n).no_duplicates(),
        forall|k: int|
            0 <= k < safe_codes_upto(b.cells@, first, n).len() ==> {
                let c = #[trigger] safe_codes_upto(b.cells@, first, n)[k];
                &&& 0 <= c < 9
                &&& exists|i: int|
                    0 <= i < n && in_safe_zone(first, b.cells@[i].position) && #[trigger] zone_code(
                        first,
                        b.cells@[i].position,
                    ) == c
            },
    decreases n,
{
    if n > 0 {
        lemma_safe_codes(b, first, (n - 1) as nat);
        let prev = safe_codes_upto(b.cells@, first, (n - 1) as nat);
        let cur = safe_codes_upto(b.cells@, first, n);
        let p = b.cells@[n - 1].position;
        if in_safe_zone(first, p) {
            let c = zone_code(first, p);
            assert forall|k: int| 0 <= k < prev.len() implies prev[k] != c by {
                let pk = prev[k];
                let i = choose|i: int|
                    0 <= i < n - 1 && in_safe_zone(first, b.cells@[i].position) && #[trigger] zone_code(
                        first,
                        b.cells@[i].position,
                    ) == pk;
                if pk == c {
                    let q = b.cells@[i].position;
                    assert(q == p);
                    lemma_pos_of_index(b.width, b.height, i);
                    lemma_pos_of_index(b.width, b.height, n - 1);
                }
            }
            assert forall|k: int| 0 <= k < cur.len() implies {
                let c2 = #[trigger] cur[k];
                &&& 0 <= c2 < 9
                &&& exists|i: int|
                    0 <= i < n && in_safe_zone(first, b.cells@[i].position) && #[trigger] zone_code(
                        first,
                        b.cells@[i].position,
                    ) == c2
            } by {
                if k < prev.len() {
                    assert(cur[k] == prev[k]);
                } else {
                    assert(cur[k] == c);
                    assert(zone_code(first, b.cells@[n - 1].position) == c);
                }
            }
            assert forall|a: int, d: int| 0 <= a < cur.len() && 0 <= d < cur.len() && a != d implies cur[a]
                != cur[d] by {
                if a < prev.len() && d < prev.len() {
                    assert(cur[a] == prev[a] && cur[d] == prev[d]);
                } else if a < prev.len() {
                    assert(cur[a] == prev[a]);
                } else if d < prev.len() {
                    assert(cur[d] == prev[d]);
                }
            }
        }
    }
}

impl GameBoard {
    /// At most nine cells (the first move and its neighbours) are kept
    /// free of mines, so there are at least `width * height - 9`
    /// candidates.
    pub proof fn lemma_enough_candidates(self, first: Position)
        requires
            self.well_shaped(),
        ensures
            self.mine_candidates(first).len() + 9 >= self.width * self.height,
    {
        let n = self.cells@.len();
        lemma_safe_codes(self, first, n);
        let codes = safe_codes_upto(self.cells@, first, n);
        codes.unique_seq_to_set();
        vstd::set_lib::lemma_int_range(0, 9);
        assert forall|c: int| codes.to_set().contains(c) implies vstd::set_lib::set_int_range(0, 9).contains(c) by {
            let k = choose|k: int| 0 <= k < codes.len() && codes[k] == c;
        }
        vstd::set_lib::lemma_len_subset(codes.to_set(), vstd::set_lib::set_int_range(0, 9));
    }
}

/// Laying the mines on a board without any gives it exactly
/// `mines_to_lay(..)` of them: there is always room for that many.
pub proof fn lemma_mines_laid_exactly(before: GameBoard, after: GameBoard, first: Position)
    requires
        before.well_shaped(),
        before.width * before.height >= 9,
        count_mines(before.cells@) == 0,
        before.mines_laid(after, first),
    ensures
        count_mines(after.cells@) == after.mine_count,
        after.mine_count == mines_to_lay(before.mine_count, before.width, before.height),
{
    before.lemma_enough_candidates(first);
}


/// Toggling a flag twice, by the player who planted it, gives back the
/// cell (an unflagged cell has nobody recorded as its flagger).
pub proof fn lemma_flag_toggled_twice(c: Cell, player: PlayerId)
    requires
        (c.is_flagged && c.flagged_by == Some(player)) || (!c.is_flagged && c.flagged_by is None),
    ensures
        flag_toggled(flag_toggled(c, player), player) == c,
{
}

/// Two flag toggles at the same place by the same player give back the
/// board, when the cell's flag was planted by that player or is absent.
pub proof fn lemma_board_flag_toggled_twice(
    b0: GameBoard,
    b1: GameBoard,
    b2: GameBoard,
    pos: Position,
    player: PlayerId,
)
    requires
        b0.well_shaped(),
        b0.in_bounds(pos),
        (b0.cell_at(pos).is_flagged && b0.cell_at(pos).flagged_by == Some(player)) || (
        !b0.cell_at(pos).is_flagged && b0.cell_at(pos).flagged_by is None),
        b0.flag_toggled_on(b1, pos, player),
        b1.flag_toggled_on(b2, pos, player),
    ensures
        b2.cells@ == b0.cells@,
        b2.flagged_count == b0.flagged_count,
        b2.width == b0.width,
        b2.height == b0.height,
        b2.mine_count == b0.mine_count,
        b2.revealed_count == b0.revealed_count,
        b2.first_move_made == b0.first_move_made,
{
    lemma_index_of_pos(b0.width, b0.height, pos.x as int, pos.y as int);
    let k = index_of(b0.width, pos);
    assert(b1.cell_at(pos) == flag_toggled(b0.cell_at(pos), player));
    lemma_flag_toggled_twice(b0.cell_at(pos), player);
    assert(b2.cells@ =~= b0.cells@);
}

} // verus!
