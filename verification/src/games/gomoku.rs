//! Gomoku: two players take turns placing stones on a square board; five or
//! more in an unbroken line, across, down or diagonally, wins. Black moves
//! first. A full board without a line of five is a draw.

use vstd::prelude::*;
use super::{
    fail_soft, AiDifficulty, GameStatus, MoveError, MovePayload, PlayerColor, fold_cells, lemma_sort_desc_members, sort_by_score,
    sort_desc, top, won_by,
};

verus! {

#[derive(Debug, Clone, Copy, PartialEq, Eq, Structural)]
pub enum GomokuColor {
    Black,
    White,
}

pub open spec fn other_color(c: GomokuColor) -> GomokuColor {
    match c {
        GomokuColor::Black => GomokuColor::White,
        GomokuColor::White => GomokuColor::Black,
    }
}

pub open spec fn color_player(c: GomokuColor) -> PlayerColor {
    match c {
        GomokuColor::White => PlayerColor::White,
        GomokuColor::Black => PlayerColor::Black,
    }
}

impl GomokuColor {
    fn opposite(&self) -> (r: GomokuColor)
        ensures
            r == other_color(*self),
    {
        match self {
            GomokuColor::Black => GomokuColor::White,
            GomokuColor::White => GomokuColor::Black,
        }
    }

    fn to_player(&self) -> (r: PlayerColor)
        ensures
            r == color_player(*self),
    {
        match self {
            GomokuColor::White => PlayerColor::White,
            GomokuColor::Black => PlayerColor::Black,
        }
    }
}

pub type GomokuBoard = Seq<Seq<Option<GomokuColor>>>;

/// A game of gomoku on a `size` by `size` board.
#[derive(Clone)]
pub struct GomokuGame {
    pub size: usize,
    /// Rows of points; `None` is an empty point.
    pub board: Vec<Vec<Option<GomokuColor>>>,
    pub current_turn: GomokuColor,
    pub status: GameStatus,
    pub move_count: u32,
    pub last_move: Option<(usize, usize)>,
}

/// What a gomoku game holds, as mathematical values.
pub struct GomokuState {
    pub size: int,
    pub board: GomokuBoard,
    pub turn: GomokuColor,
    pub status: GameStatus,
    pub move_count: int,
    pub last_move: Option<(usize, usize)>,
}

impl GomokuGame {
    pub open spec fn state(&self) -> GomokuState {
        GomokuState {
            size: self.size as int,
            board: self.board@.map_values(|row: Vec<Option<GomokuColor>>| row@),
            turn: self.current_turn,
            status: self.status,
            move_count: self.move_count as int,
            last_move: self.last_move,
        }
    }

    /// The board is `size` rows of `size` points, and coordinates fit in
    /// an `i32`.
    pub open spec fn wf(&self) -> bool {
        &&& self.size <= 0x7fff_ffff
        &&& self.board@.len() == self.size
        &&& forall|i: int| 0 <= i < self.size ==> (#[trigger] self.board@[i]).len() == self.size
    }
}

pub open spec fn on_board(n: int, r: int, c: int) -> bool {
    0 <= r < n && 0 <= c < n
}

/// One of the eight unit steps.
pub open spec fn is_dir(dr: int, dc: int) -> bool {
    -1 <= dr <= 1 && -1 <= dc <= 1 && (dr != 0 || dc != 0)
}

/// How far (r, c) is from leaving the board in direction (dr, dc).
pub open spec fn steps_left(n: int, r: int, c: int, dr: int, dc: int) -> int {
    if dr > 0 {
        n - r
    } else if dr < 0 {
        r + 1
    } else if dc > 0 {
        n - c
    } else {
        c + 1
    }
}

/// The number of stones of `color` in an unbroken line that starts at
/// (r, c) and goes in direction (dr, dc).
pub open spec fn run(b: GomokuBoard, n: int, r: int, c: int, dr: int, dc: int, color: GomokuColor) -> nat
    decreases steps_left(n, r, c, dr, dc),
{
    if !is_dir(dr, dc) || !on_board(n, r, c) || b[r][c] != Some(color) {
        0
    } else {
        1 + run(b, n, r + dr, c + dc, dr, dc, color)
    }
}

/// Whether the line of `color` that starts at (r, c) in direction
/// (dr, dc) ends at an empty point of the board.
pub open spec fn open_end(b: GomokuBoard, n: int, r: int, c: int, dr: int, dc: int, color: GomokuColor) -> bool
    decreases steps_left(n, r, c, dr, dc),
{
    if !is_dir(dr, dc) || !on_board(n, r, c) {
        false
    } else if b[r][c] == Some(color) {
        open_end(b, n, r + dr, c + dc, dr, dc, color)
    } else {
        b[r][c] is None
    }
}

/// The length of the line of `color` through (r, c) along (dr, dc),
/// counting (r, c) itself.
pub open spec fn line_len(b: GomokuBoard, n: int, r: int, c: int, dr: int, dc: int, color: GomokuColor) -> int {
    (1 + run(b, n, r + dr, c + dc, dr, dc, color) + run(b, n, r - dr, c - dc, -dr, -dc, color)) as int
}

/// A stone of `color` at (r, c) completes five or more in a row.
pub open spec fn wins(b: GomokuBoard, n: int, r: int, c: int, color: GomokuColor) -> bool {
    ||| line_len(b, n, r, c, 0, 1, color) >= 5
    ||| line_len(b, n, r, c, 1, 0, color) >= 5
    ||| line_len(b, n, r, c, 1, 1, color) >= 5
    ||| line_len(b, n, r, c, 1, -1, color) >= 5
}

pub open spec fn board_full(b: GomokuBoard, n: int) -> bool {
    forall|r: int, c: int| on_board(n, r, c) ==> (#[trigger] b[r][c]) is Some
}

pub open spec fn place(b: GomokuBoard, r: int, c: int, color: GomokuColor) -> GomokuBoard {
    b.update(r, b[r].update(c, Some(color)))
}

/// Why a move would be refused, if it would.
pub open spec fn gomoku_move_error(s: GomokuState, mv: MovePayload, player: PlayerColor) -> Option<MoveError> {
    if s.status != GameStatus::Playing {
        Some(MoveError::GameOver)
    } else if color_player(s.turn) != player {
        Some(MoveError::NotYourTurn)
    } else if mv.row is None {
        Some(MoveError::InvalidRow)
    } else if mv.col is None {
        Some(MoveError::InvalidCol)
    } else if mv.row->0 >= s.size || mv.col->0 >= s.size {
        Some(MoveError::OutOfBounds)
    } else if s.board[mv.row->0 as int][mv.col->0 as int] is Some {
        Some(MoveError::Occupied)
    } else {
        None
    }
}

/// The game after the side to move places a stone at (r, c): a line of
/// five wins, else a full board is drawn, else the turn passes.
pub open spec fn gomoku_after(s: GomokuState, r: int, c: int) -> GomokuState {
    let b = place(s.board, r, c, s.turn);
    let won = wins(b, s.size, r, c, s.turn);
    let full = board_full(b, s.size);
    GomokuState {
        board: b,
        last_move: Some((r as usize, c as usize)),
        move_count: s.move_count + 1,
        status: if won {
            won_by(color_player(s.turn))
        } else if full {
            GameStatus::Draw
        } else {
            s.status
        },
        turn: if won || full {
            s.turn
        } else {
            other_color(s.turn)
        },
        ..s
    }
}

/// The worth of a line by its length and its open ends.
pub open spec fn line_value(count: int, open: int) -> int {
    if count >= 4 {
        100000
    } else if count == 3 && open == 2 {
        5000
    } else if count == 3 && open == 1 {
        500
    } else if count == 2 && open == 2 {
        100
    } else if count == 2 && open == 1 {
        10
    } else if count == 1 && open == 2 {
        5
    } else {
        0
    }
}

pub open spec fn open_count(b: GomokuBoard, n: int, r: int, c: int, dr: int, dc: int, color: GomokuColor) -> int {
    (if open_end(b, n, r + dr, c + dc, dr, dc, color) { 1int } else { 0int }) + (if open_end(
        b,
        n,
        r - dr,
        c - dc,
        -dr,
        -dc,
        color,
    ) { 1int } else { 0int })
}

/// What a stone of `color` at (r, c) would be worth along (dr, dc): the
/// stones of `color` on both sides and the open ends of that line.
pub open spec fn line_score(b: GomokuBoard, n: int, r: int, c: int, dr: int, dc: int, color: GomokuColor) -> int {
    line_value(
        (run(b, n, r + dr, c + dc, dr, dc, color) + run(b, n, r - dr, c - dc, -dr, -dc, color)) as int,
        open_count(b, n, r, c, dr, dc, color),
    )
}

/// The line scores of (r, c) for `color` over the four directions.
pub open spec fn dirs_score(b: GomokuBoard, n: int, r: int, c: int, color: GomokuColor) -> int {
    line_score(b, n, r, c, 0, 1, color) + line_score(b, n, r, c, 1, 0, color) + line_score(b, n, r, c, 1, 1, color)
        + line_score(b, n, r, c, 1, -1, color)
}

/// How good (r, c) is for `color`: its own lines, plus the opponent's lines
/// there weighted by 1.1 (blocking), rounded down.
pub open spec fn cell_value(b: GomokuBoard, n: int, r: int, c: int, color: GomokuColor) -> int {
    let opp = dirs_score(b, n, r, c, other_color(color));
    dirs_score(b, n, r, c, color) + opp + opp / 10
}

/// Some stone lies within `radius` rows and columns of (r, c).
pub open spec fn near_stone(b: GomokuBoard, n: int, r: int, c: int, radius: int) -> bool {
    exists|i: int, j: int|
        r - radius <= i <= r + radius && c - radius <= j <= c + radius && on_board(n, i, j) && (#[trigger] b[i][j]) is Some
}

pub open spec fn cand_step(b: GomokuBoard, n: int, radius: int, color: GomokuColor) -> spec_fn(Seq<(i32, usize, usize)>, int, int) -> Seq<(i32, usize, usize)> {
    |acc: Seq<(i32, usize, usize)>, r: int, c: int|
        if b[r][c] is None && near_stone(b, n, r, c, radius) {
            acc.push((cell_value(b, n, r, c, color) as i32, r as usize, c as usize))
        } else {
            acc
        }
}

/// The empty points near a stone, in row-major order, each with its
/// `cell_value` for `color`.
pub open spec fn candidates(b: GomokuBoard, n: int, radius: int, color: GomokuColor) -> Seq<(i32, usize, usize)> {
    fold_cells(n, n, 0, Seq::empty(), cand_step(b, n, radius, color))
}

/// The game after the search places a stone of `color` at (r, c): a line
/// of five ends it, else the other colour is to move.
pub open spec fn place_state(s: GomokuState, r: int, c: int, color: GomokuColor) -> GomokuState {
    let b = place(s.board, r, c, color);
    if wins(b, s.size, r, c, color) {
        GomokuState { board: b, move_count: s.move_count + 1, status: won_by(color_player(color)), ..s }
    } else {
        GomokuState { board: b, move_count: s.move_count + 1, turn: other_color(color), ..s }
    }
}

pub open spec fn leaf_step(b: GomokuBoard, n: int, ai: GomokuColor) -> spec_fn(int, int, int) -> int {
    |acc: int, r: int, c: int|
        if b[r][c] is None {
            acc + dirs_score(b, n, r, c, ai) - dirs_score(b, n, r, c, other_color(ai))
        } else {
            acc
        }
}

/// The board balance for `ai`: over the empty points, `ai`'s line scores
/// less the opponent's.
pub open spec fn leaf_value(s: GomokuState, ai: GomokuColor) -> int {
    fold_cells(s.size, s.size, 0, 0int, leaf_step(s.board, s.size, ai))
}

pub open spec fn mover(maximizing: bool, ai: GomokuColor) -> GomokuColor {
    if maximizing {
        ai
    } else {
        other_color(ai)
    }
}

/// The minimax value for `ai` looking `depth` stones ahead, over the ten
/// best-scored empty points next to a stone; `maximizing` says whether
/// `ai` places the next stone.
pub open spec fn gsearch(s: GomokuState, depth: nat, maximizing: bool, ai: GomokuColor) -> int
    decreases depth, 0nat,
{
    if s.status != GameStatus::Playing || depth == 0 {
        leaf_value(s, ai)
    } else {
        let cands = top(sort_desc(candidates(s.board, s.size, 1, mover(maximizing, ai))), 10);
        if cands.len() == 0 {
            0
        } else {
            gbest(s, cands, (depth - 1) as nat, maximizing, ai)
        }
    }
}

pub open spec fn gbest(s: GomokuState, cands: Seq<(i32, usize, usize)>, depth: nat, maximizing: bool, ai: GomokuColor) -> int
    decreases depth, cands.len(),
{
    if cands.len() == 0 {
        if maximizing {
            i32::MIN as int
        } else {
            i32::MAX as int
        }
    } else {
        let prev = gbest(s, cands.drop_last(), depth, maximizing, ai);
        let t = cands.last();
        let v = gsearch(place_state(s, t.1 as int, t.2 as int, mover(maximizing, ai)), depth, !maximizing, ai);
        if maximizing {
            if v > prev {
                v
            } else {
                prev
            }
        } else {
            if v < prev {
                v
            } else {
                prev
            }
        }
    }
}

/// A move at (r, c) as a computer player sends it.
pub open spec fn is_point_payload(mv: MovePayload, r: int, c: int) -> bool {
    &&& mv.row == Some(r as u64)
    &&& mv.col == Some(c as u64)
    &&& mv.from_row is None
    &&& mv.from_col is None
    &&& mv.to_row is None
    &&& mv.to_col is None
    &&& mv.pass is None
    &&& mv.promotion is None
}

pub open spec fn empty_step(b: GomokuBoard) -> spec_fn(Seq<(usize, usize)>, int, int) -> Seq<(usize, usize)> {
    |acc: Seq<(usize, usize)>, r: int, c: int|
        if b[r][c] is None {
            acc.push((r as usize, c as usize))
        } else {
            acc
        }
}

/// The empty points in row-major order.
pub open spec fn empty_points(s: GomokuState) -> Seq<(usize, usize)> {
    fold_cells(s.size, s.size, 0, Seq::empty(), empty_step(s.board))
}

/// The easy computer player's answer: an empty point picked by the move
/// count.
pub open spec fn random_choice(s: GomokuState, r: Option<MovePayload>) -> bool {
    let e = empty_points(s);
    &&& (r is None <==> e.len() == 0)
    &&& (r matches Some(mv) ==> is_point_payload(
        mv,
        e[(s.move_count * 7919 + 13) % e.len() as int].0 as int,
        e[(s.move_count * 7919 + 13) % e.len() as int].1 as int,
    ))
}

pub open spec fn heur_step(b: GomokuBoard, n: int, color: GomokuColor) -> spec_fn(Option<(int, int, int)>, int, int) -> Option<(int, int, int)> {
    |acc: Option<(int, int, int)>, r: int, c: int|
        if b[r][c] is None && near_stone(b, n, r, c, 2) {
            let v = cell_value(b, n, r, c, color);
            match acc {
                Some(t) => if v > t.0 {
                    Some((v, r, c))
                } else {
                    acc
                },
                None => Some((v, r, c)),
            }
        } else {
            acc
        }
}

/// The point the heuristic player picks: the centre on an empty board,
/// else the first empty point within two of a stone with the greatest
/// `cell_value`, else the centre.
pub open spec fn heuristic_point(s: GomokuState, color: GomokuColor) -> (int, int) {
    if s.move_count == 0 {
        (s.size / 2, s.size / 2)
    } else {
        match fold_cells(s.size, s.size, 0, None, heur_step(s.board, s.size, color)) {
            Some(t) => (t.1, t.2),
            None => (s.size / 2, s.size / 2),
        }
    }
}

pub open spec fn placing_wins(s: GomokuState, t: (i32, usize, usize), color: GomokuColor) -> bool {
    wins(place(s.board, t.1 as int, t.2 as int, color), s.size, t.1 as int, t.2 as int, color)
}

pub open spec fn reply_value(s: GomokuState, t: (i32, usize, usize), color: GomokuColor, depth: nat) -> int {
    gsearch(place_state(s, t.1 as int, t.2 as int, color), depth, false, color)
}

/// The searching player picks the `k`-th candidate: the first that wins at
/// once if any does, else the first of greatest search value.
pub open spec fn root_pick(s: GomokuState, cands: Seq<(i32, usize, usize)>, color: GomokuColor, depth: nat, k: int) -> bool {
    &&& 0 <= k < cands.len()
    &&& if exists|j: int| 0 <= j < cands.len() && #[trigger] placing_wins(s, cands[j], color) {
        &&& placing_wins(s, cands[k], color)
        &&& forall|j: int| 0 <= j < k ==> !#[trigger] placing_wins(s, cands[j], color)
    } else {
        &&& forall|j: int| 0 <= j < cands.len() ==> #[trigger] reply_value(s, cands[j], color, depth) <= reply_value(s, cands[k], color, depth)
        &&& forall|j: int| 0 <= j < k ==> #[trigger] reply_value(s, cands[j], color, depth) < reply_value(s, cands[k], color, depth)
    }
}

/// The searching player's answer: the centre on an empty board; else the
/// root pick among the fifteen best-scored empty points next to a stone;
/// else the heuristic point.
pub open spec fn search_choice(s: GomokuState, color: GomokuColor, depth: nat, r: Option<MovePayload>) -> bool {
    let cands = top(sort_desc(candidates(s.board, s.size, 1, color)), 15);
    if s.move_count == 0 {
        r matches Some(mv) && is_point_payload(mv, s.size / 2, s.size / 2)
    } else if cands.len() == 0 {
        r matches Some(mv) && is_point_payload(mv, heuristic_point(s, color).0, heuristic_point(s, color).1)
    } else {
        r matches Some(mv) && exists|k: int| #[trigger] root_pick(s, cands, color, depth, k) && is_point_payload(mv, cands[k].1 as int, cands[k].2 as int)
    }
}

proof fn lemma_dirs_bounded(b: GomokuBoard, n: int, r: int, c: int, color: GomokuColor)
    ensures
        0 <= dirs_score(b, n, r, c, color) <= 400000,
{
}

proof fn lemma_leaf_fold_bounded(b: GomokuBoard, n: int, ai: GomokuColor, r: int, c: int)
    requires
        0 <= r,
        0 <= c <= n,
    ensures
        -400000 * (r * n + c) <= fold_cells(n, r, c, 0int, leaf_step(b, n, ai)) <= 400000 * (r * n + c),
    decreases r, c,
{
    if c == 0 {
        if r > 0 {
            lemma_leaf_fold_bounded(b, n, ai, r - 1, n);
            assert((r - 1) * n + n == r * n) by (nonlinear_arith);
        }
    } else {
        lemma_leaf_fold_bounded(b, n, ai, r, c - 1);
        lemma_dirs_bounded(b, n, r, c - 1, ai);
        lemma_dirs_bounded(b, n, r, c - 1, other_color(ai));
    }
}

proof fn lemma_gsearch_bounded(s: GomokuState, depth: nat, maximizing: bool, ai: GomokuColor)
    requires
        0 <= s.size <= 73,
    ensures
        -2131600000 <= gsearch(s, depth, maximizing, ai) <= 2131600000,
    decreases depth, 0nat,
{
    lemma_leaf_fold_bounded(s.board, s.size, ai, s.size, 0);
    assert(s.size * s.size <= 5329) by (nonlinear_arith)
        requires
            0 <= s.size <= 73,
    ;
    if s.status == GameStatus::Playing && depth > 0 {
        let cands = top(sort_desc(candidates(s.board, s.size, 1, mover(maximizing, ai))), 10);
        if cands.len() > 0 {
            lemma_gbest_bounded(s, cands, (depth - 1) as nat, maximizing, ai);
        }
    }
}

proof fn lemma_gbest_bounded(s: GomokuState, cands: Seq<(i32, usize, usize)>, depth: nat, maximizing: bool, ai: GomokuColor)
    requires
        0 <= s.size <= 73,
        cands.len() > 0,
    ensures
        -2131600000 <= gbest(s, cands, depth, maximizing, ai) <= 2131600000,
    decreases depth, cands.len(),
{
    let t = cands.last();
    lemma_gsearch_bounded(place_state(s, t.1 as int, t.2 as int, mover(maximizing, ai)), depth, !maximizing, ai);
    if cands.len() > 1 {
        lemma_gbest_bounded(s, cands.drop_last(), depth, maximizing, ai);
    } else {
        assert(cands.drop_last().len() == 0);
        assert(gbest(s, cands.drop_last(), depth, maximizing, ai) == (if maximizing {
            i32::MIN as int
        } else {
            i32::MAX as int
        }));
    }
}

proof fn lemma_gbest_prefix(s: GomokuState, cands: Seq<(i32, usize, usize)>, i: int, depth: nat, maximizing: bool, ai: GomokuColor)
    requires
        0 <= i <= cands.len(),
    ensures
        maximizing ==> gbest(s, cands.take(i), depth, maximizing, ai) <= gbest(s, cands, depth, maximizing, ai),
        !maximizing ==> gbest(s, cands.take(i), depth, maximizing, ai) >= gbest(s, cands, depth, maximizing, ai),
    decreases cands.len(),
{
    if i < cands.len() {
        lemma_gbest_prefix(s, cands.drop_last(), i, depth, maximizing, ai);
        assert(cands.drop_last().take(i) =~= cands.take(i));
    } else {
        assert(cands.take(i) =~= cands);
    }
}

proof fn lemma_cand_fold_on_board(b: GomokuBoard, n: int, radius: int, color: GomokuColor, r: int, c: int)
    requires
        0 <= r <= n,
        0 <= c <= n,
        r < n || c == 0,
        n <= usize::MAX,
    ensures
        forall|i: int|
            0 <= i < fold_cells(n, r, c, Seq::empty(), cand_step(b, n, radius, color)).len() ==> on_board(
                n,
                (#[trigger] fold_cells(n, r, c, Seq::empty(), cand_step(b, n, radius, color))[i]).1 as int,
                fold_cells(n, r, c, Seq::empty(), cand_step(b, n, radius, color))[i].2 as int,
            ),
    decreases r, c,
{
    if c == 0 {
        if r > 0 {
            lemma_cand_fold_on_board(b, n, radius, color, r - 1, n);
            assert(fold_cells(n, r, c, Seq::empty(), cand_step(b, n, radius, color)) == fold_cells(
                n,
                r - 1,
                n,
                Seq::empty(),
                cand_step(b, n, radius, color),
            ));
        } else {
            assert(fold_cells(n, r, c, Seq::empty(), cand_step(b, n, radius, color)).len() == 0);
        }
    } else {
        lemma_cand_fold_on_board(b, n, radius, color, r, c - 1);
        let f = cand_step(b, n, radius, color);
        let acc = fold_cells(n, r, c - 1, Seq::empty(), f);
        let res = fold_cells(n, r, c, Seq::empty(), f);
        assert(res == f(acc, r, c - 1));
        assert forall|i: int| 0 <= i < res.len() implies on_board(n, (#[trigger] res[i]).1 as int, res[i].2 as int) by {
            if i < acc.len() {
                assert(res[i] == acc[i]);
            } else {
                assert(res[i] == (cell_value(b, n, r, c - 1, color) as i32, r as usize, (c - 1) as usize));
            }
        }
    }
}

/// The best-scored candidates are points of the board.
proof fn lemma_top_on_board(b: GomokuBoard, n: int, radius: int, color: GomokuColor, limit: int)
    requires
        0 <= n <= usize::MAX,
        0 <= limit,
    ensures
        forall|i: int|
            0 <= i < top(sort_desc(candidates(b, n, radius, color)), limit).len() ==> on_board(
                n,
                (#[trigger] top(sort_desc(candidates(b, n, radius, color)), limit)[i]).1 as int,
                top(sort_desc(candidates(b, n, radius, color)), limit)[i].2 as int,
            ),
{
    let cands = candidates(b, n, radius, color);
    let sorted = sort_desc(cands);
    let t = top(sorted, limit);
    lemma_cand_fold_on_board(b, n, radius, color, n, 0);
    assert forall|i: int| 0 <= i < t.len() implies on_board(n, (#[trigger] t[i]).1 as int, t[i].2 as int) by {
        let m = t[i];
        lemma_sort_desc_members(cands, m);
        assert(sorted[i] == m);
        assert(sorted.contains(m));
        let j = choose|j: int| 0 <= j < cands.len() && cands[j] == m;
        assert(cands[j] == m);
    }
}

proof fn lemma_run_bounded(b: GomokuBoard, n: int, r: int, c: int, dr: int, dc: int, color: GomokuColor)
    ensures
        run(b, n, r, c, dr, dc, color) <= (if steps_left(n, r, c, dr, dc) >= 0 {
            steps_left(n, r, c, dr, dc)
        } else {
            0
        }),
    decreases steps_left(n, r, c, dr, dc),
{
    if is_dir(dr, dc) && on_board(n, r, c) && b[r][c] == Some(color) {
        lemma_run_bounded(b, n, r + dr, c + dc, dr, dc, color);
    }
}

impl GomokuGame {
    /// An empty board of the given size, Black to move.
    pub fn new(size: usize) -> (g: GomokuGame)
        requires
            size <= 0x7fff_ffff,
        ensures
            g.wf(),
            g.size == size,
            forall|r: int, c: int| on_board(size as int, r, c) ==> (#[trigger] g.state().board[r][c]) is None,
            g.current_turn == GomokuColor::Black,
            g.status == GameStatus::Playing,
            g.move_count == 0,
            g.last_move is None,
    {
        let mut board: Vec<Vec<Option<GomokuColor>>> = Vec::new();
        let mut i: usize = 0;
        while i < size
            invariant
                i <= size,
                board@.len() == i,
                forall|k: int| 0 <= k < i ==> (#[trigger] board@[k])@.len() == size,
                forall|k: int, c: int| 0 <= k < i && 0 <= c < size ==> (#[trigger] board@[k]@[c]) is None,
            decreases size - i,
        {
            let mut row: Vec<Option<GomokuColor>> = Vec::new();
            let mut j: usize = 0;
            while j < size
                invariant
                    j <= size,
                    row@.len() == j,
                    forall|c: int| 0 <= c < j ==> (#[trigger] row@[c]) is None,
                decreases size - j,
            {
                row.push(None);
                j = j + 1;
            }
            board.push(row);
            i = i + 1;
        }
        GomokuGame {
            size,
            board,
            current_turn: GomokuColor::Black,
            status: GameStatus::Playing,
            move_count: 0,
            last_move: None,
        }
    }

    /// Follows the stones of `color` from the point after (row, col) in
    /// direction (dr, dc): how many there are, and whether an empty point
    /// ends them.
    fn walk(&self, row: usize, col: usize, dr: i64, dc: i64, color: GomokuColor) -> (res: (usize, bool))
        requires
            self.wf(),
            row < self.size,
            col < self.size,
            is_dir(dr as int, dc as int),
        ensures
            res.0 == run(self.state().board, self.size as int, row + dr, col + dc, dr as int, dc as int, color),
            res.1 == open_end(self.state().board, self.size as int, row + dr, col + dc, dr as int, dc as int, color),
    {
        let ghost b = self.state().board;
        let ghost nn = self.size as int;
        let n: i64 = self.size as i64;
        let mut r: i64 = row as i64 + dr;
        let mut c: i64 = col as i64 + dc;
        let mut count: usize = 0;
        proof {
            lemma_run_bounded(b, nn, r as int, c as int, dr as int, dc as int, color);
        }
        let ghost total = run(b, nn, r as int, c as int, dr as int, dc as int, color);
        let ghost open = open_end(b, nn, r as int, c as int, dr as int, dc as int, color);
        loop
            invariant
                self.wf(),
                b == self.state().board,
                nn == self.size,
                n == nn,
                is_dir(dr as int, dc as int),
                -1 <= r <= n,
                -1 <= c <= n,
                total <= nn + 1,
                total == run(b, nn, row + dr, col + dc, dr as int, dc as int, color),
                open == open_end(b, nn, row + dr, col + dc, dr as int, dc as int, color),
                count + run(b, nn, r as int, c as int, dr as int, dc as int, color) == total,
                open_end(b, nn, r as int, c as int, dr as int, dc as int, color) == open,
            decreases steps_left(nn, r as int, c as int, dr as int, dc as int),
        {
            if r < 0 || r >= n || c < 0 || c >= n {
                return (count, false);
            }
            let cell = self.board[r as usize][c as usize];
            match cell {
                Some(x) => {
                    if x == color {
                        count = count + 1;
                        r = r + dr;
                        c = c + dc;
                    } else {
                        return (count, false);
                    }
                },
                None => {
                    return (count, true);
                },
            }
        }
    }

    /// The length of the line of `color` through (row, col) along (dr, dc).
    fn line_through(&self, row: usize, col: usize, dr: i64, dc: i64, color: GomokuColor) -> (len: usize)
        requires
            self.wf(),
            row < self.size,
            col < self.size,
            is_dir(dr as int, dc as int),
        ensures
            len == line_len(self.state().board, self.size as int, row as int, col as int, dr as int, dc as int, color),
    {
        proof {
            lemma_run_bounded(self.state().board, self.size as int, row + dr, col + dc, dr as int, dc as int, color);
            lemma_run_bounded(self.state().board, self.size as int, row - dr, col - dc, -dr, -dc, color);
        }
        let (forward, _) = self.walk(row, col, dr, dc, color);
        let (backward, _) = self.walk(row, col, -dr, -dc, color);
        1 + forward + backward
    }

    /// Whether a stone of `color` at (row, col) makes five in a row.
    fn check_win(&self, row: usize, col: usize, color: GomokuColor) -> (b: bool)
        requires
            self.wf(),
            row < self.size,
            col < self.size,
        ensures
            b == wins(self.state().board, self.size as int, row as int, col as int, color),
    {
        self.line_through(row, col, 0, 1, color) >= 5 || self.line_through(row, col, 1, 0, color) >= 5
            || self.line_through(row, col, 1, 1, color) >= 5 || self.line_through(row, col, 1, -1, color) >= 5
    }

    /// Whether every point holds a stone.
    fn is_board_full(&self) -> (b: bool)
        requires
            self.wf(),
        ensures
            b == board_full(self.state().board, self.size as int),
    {
        let ghost b = self.state().board;
        let mut r: usize = 0;
        while r < self.size
            invariant
                self.wf(),
                b == self.state().board,
                r <= self.size,
                forall|i: int, j: int| 0 <= i < r && 0 <= j < self.size ==> (#[trigger] b[i][j]) is Some,
            decreases self.size - r,
        {
            let mut c: usize = 0;
            while c < self.size
                invariant
                    self.wf(),
                    b == self.state().board,
                    r < self.size,
                    c <= self.size,
                    forall|i: int, j: int| 0 <= i < r && 0 <= j < self.size ==> (#[trigger] b[i][j]) is Some,
                    forall|j: int| 0 <= j < c ==> (#[trigger] b[r as int][j]) is Some,
                decreases self.size - c,
            {
                if self.board[r][c].is_none() {
                    return false;
                }
                c = c + 1;
            }
            r = r + 1;
        }
        true
    }

    /// Plays a stone for `player` at the payload's (row, col), or says why
    /// the move is refused; a refused move leaves the game as it was.
    pub fn make_move(&mut self, mv: &MovePayload, player: &PlayerColor) -> (r: Result<(), MoveError>)
        requires
            old(self).wf(),
            old(self).move_count < u32::MAX,
        ensures
            final(self).wf(),
            gomoku_played(*old(self), *final(self), *mv, *player, r),
    {
        if self.status != GameStatus::Playing {
            return Err(MoveError::GameOver);
        }
        if self.current_turn.to_player() != *player {
            return Err(MoveError::NotYourTurn);
        }
        let row64 = match mv.row {
            Some(v) => v,
            None => return Err(MoveError::InvalidRow),
        };
        let col64 = match mv.col {
            Some(v) => v,
            None => return Err(MoveError::InvalidCol),
        };
        if row64 >= self.size as u64 || col64 >= self.size as u64 {
            return Err(MoveError::OutOfBounds);
        }
        let row = row64 as usize;
        let col = col64 as usize;
        if self.board[row][col].is_some() {
            return Err(MoveError::Occupied);
        }
        let ghost s0 = self.state();
        let color = self.current_turn;
        self.board[row][col] = Some(color);
        proof {
            assert(self.state().board =~= place(s0.board, row as int, col as int, color));
        }
        self.last_move = Some((row, col));
        self.move_count = self.move_count + 1;
        if self.check_win(row, col, color) {
            self.status = match color {
                GomokuColor::Black => GameStatus::BlackWon,
                GomokuColor::White => GameStatus::WhiteWon,
            };
        } else if self.is_board_full() {
            self.status = GameStatus::Draw;
        } else {
            self.current_turn = color.opposite();
        }
        proof {
            assert(self.state().board =~= place(s0.board, row as int, col as int, color));
        }
        Ok(())
    }

    /// A point-by-point copy of the game.
    fn copy(&self) -> (g: GomokuGame)
        requires
            self.wf(),
        ensures
            g.wf(),
            g.state() == self.state(),
            g.size == self.size,
    {
        let mut board: Vec<Vec<Option<GomokuColor>>> = Vec::new();
        let mut i: usize = 0;
        while i < self.size
            invariant
                self.wf(),
                i <= self.size,
                board@.len() == i,
                forall|k: int| 0 <= k < i ==> (#[trigger] board@[k])@ == self.board@[k]@,
            decreases self.size - i,
        {
            let mut row: Vec<Option<GomokuColor>> = Vec::new();
            let mut j: usize = 0;
            while j < self.size
                invariant
                    self.wf(),
                    i < self.size,
                    j <= self.size,
                    row@ == self.board@[i as int]@.take(j as int),
                decreases self.size - j,
            {
                row.push(self.board[i][j]);
                j = j + 1;
            }
            assert(row@ =~= self.board@[i as int]@);
            board.push(row);
            i = i + 1;
        }
        let g = GomokuGame {
            size: self.size,
            board,
            current_turn: self.current_turn,
            status: self.status,
            move_count: self.move_count,
            last_move: self.last_move,
        };
        assert(g.state().board =~= self.state().board);
        g
    }

    /// The game with a stone of `color` at (r, c) and the move counted.
    fn with_stone(&self, r: usize, c: usize, color: GomokuColor) -> (next: GomokuGame)
        requires
            self.wf(),
            r < self.size,
            c < self.size,
            self.move_count < u32::MAX,
        ensures
            next.wf(),
            next.size == self.size,
            next.state() == (GomokuState {
                board: place(self.state().board, r as int, c as int, color),
                move_count: self.move_count + 1,
                ..self.state()
            }),
    {
        let mut next = self.copy();
        let ghost b0 = next.state().board;
        next.board[r][c] = Some(color);
        next.move_count = next.move_count + 1;
        proof {
            assert(next.state().board =~= place(b0, r as int, c as int, color));
        }
        next
    }

    /// The game after the search places a stone of `color` at (r, c).
    fn try_place(&self, r: usize, c: usize, color: GomokuColor) -> (next: GomokuGame)
        requires
            self.wf(),
            r < self.size,
            c < self.size,
            self.move_count < u32::MAX,
        ensures
            next.wf(),
            next.size == self.size,
            next.state() == place_state(self.state(), r as int, c as int, color),
    {
        let mut next = self.with_stone(r, c, color);
        if next.check_win(r, c, color) {
            next.status = match color {
                GomokuColor::Black => GameStatus::BlackWon,
                GomokuColor::White => GameStatus::WhiteWon,
            };
        } else {
            next.current_turn = color.opposite();
        }
        next
    }

    /// Whether a stone lies within `radius` rows and columns of (row, col).
    fn neighbors_have_stone(&self, row: usize, col: usize, radius: usize) -> (b: bool)
        requires
            self.wf(),
            row < self.size,
            col < self.size,
            radius <= 2,
        ensures
            b == near_stone(self.state().board, self.size as int, row as int, col as int, radius as int),
    {
        let ghost b = self.state().board;
        let rmin: usize = if row >= radius { row - radius } else { 0 };
        let rmax: usize = if row + radius + 1 < self.size { row + radius + 1 } else { self.size };
        let cmin: usize = if col >= radius { col - radius } else { 0 };
        let cmax: usize = if col + radius + 1 < self.size { col + radius + 1 } else { self.size };
        let mut r: usize = rmin;
        while r < rmax
            invariant
                self.wf(),
                b == self.state().board,
                rmin <= r <= rmax,
                rmax <= self.size,
                cmin <= cmax <= self.size,
                rmin == (if row >= radius { row - radius } else { 0 }),
                cmin == (if col >= radius { col - radius } else { 0 }),
                rmax == (if row + radius + 1 < self.size { row + radius + 1 } else { self.size as int }),
                cmax == (if col + radius + 1 < self.size { col + radius + 1 } else { self.size as int }),
                forall|i: int, j: int| rmin <= i < r && cmin <= j < cmax ==> (#[trigger] b[i][j]) is None,
            decreases rmax - r,
        {
            let mut c: usize = cmin;
            while c < cmax
                invariant
                    self.wf(),
                    b == self.state().board,
                    rmin <= r < rmax,
                    cmin <= c <= cmax,
                    rmax <= self.size,
                    cmax <= self.size,
                    rmin == (if row >= radius { row - radius } else { 0 }),
                    cmin == (if col >= radius { col - radius } else { 0 }),
                    rmax == (if row + radius + 1 < self.size { row + radius + 1 } else { self.size as int }),
                    cmax == (if col + radius + 1 < self.size { col + radius + 1 } else { self.size as int }),
                    forall|i: int, j: int| rmin <= i < r && cmin <= j < cmax ==> (#[trigger] b[i][j]) is None,
                    forall|j: int| cmin <= j < c ==> (#[trigger] b[r as int][j]) is None,
                decreases cmax - c,
            {
                if self.board[r][c].is_some() {
                    assert(b[r as int][c as int] is Some);
                    return true;
                }
                c = c + 1;
            }
            r = r + 1;
        }
        assert(!near_stone(b, self.size as int, row as int, col as int, radius as int)) by {
            if near_stone(b, self.size as int, row as int, col as int, radius as int) {
                let (i, j) = choose|i: int, j: int|
                    row - radius <= i <= row + radius && col - radius <= j <= col + radius && on_board(
                        self.size as int,
                        i,
                        j,
                    ) && (#[trigger] b[i][j]) is Some;
                assert(b[i][j] is None);
            }
        }
        false
    }

    /// The score of the line through (row, col) along (dr, dc) for `color`.
    fn score_line(&self, row: usize, col: usize, dr: i64, dc: i64, color: GomokuColor) -> (v: i32)
        requires
            self.wf(),
            row < self.size,
            col < self.size,
            is_dir(dr as int, dc as int),
        ensures
            v == line_score(self.state().board, self.size as int, row as int, col as int, dr as int, dc as int, color),
    {
        proof {
            lemma_run_bounded(self.state().board, self.size as int, row + dr, col + dc, dr as int, dc as int, color);
            lemma_run_bounded(self.state().board, self.size as int, row - dr, col - dc, -dr, -dc, color);
        }
        let (forward, forward_open) = self.walk(row, col, dr, dc, color);
        let (backward, backward_open) = self.walk(row, col, -dr, -dc, color);
        let my_count = forward + backward;
        let open_ends: usize = (if forward_open { 1 } else { 0 }) + (if backward_open { 1 } else { 0 });
        if my_count >= 4 {
            100_000
        } else if my_count == 3 && open_ends == 2 {
            5_000
        } else if my_count == 3 && open_ends == 1 {
            500
        } else if my_count == 2 && open_ends == 2 {
            100
        } else if my_count == 2 && open_ends == 1 {
            10
        } else if my_count == 1 && open_ends == 2 {
            5
        } else {
            0
        }
    }

    /// The line scores of (row, col) for `color` over the four directions.
    fn dirs_total(&self, row: usize, col: usize, color: GomokuColor) -> (v: i32)
        requires
            self.wf(),
            row < self.size,
            col < self.size,
        ensures
            v == dirs_score(self.state().board, self.size as int, row as int, col as int, color),
            0 <= v <= 400000,
    {
        self.score_line(row, col, 0, 1, color) + self.score_line(row, col, 1, 0, color) + self.score_line(
            row,
            col,
            1,
            1,
            color,
        ) + self.score_line(row, col, 1, -1, color)
    }

    /// How good (row, col) is for `color`: its own line scores plus the
    /// opponent's weighted by 1.1, in whole points.
    fn evaluate_cell(&self, row: usize, col: usize, color: GomokuColor) -> (v: i32)
        requires
            self.wf(),
            row < self.size,
            col < self.size,
        ensures
            v == cell_value(self.state().board, self.size as int, row as int, col as int, color),
    {
        let my_score = self.dirs_total(row, col, color);
        let opp_score = self.dirs_total(row, col, color.opposite());
        my_score + opp_score + opp_score / 10
    }

    /// The board balance for `ai` over the empty points.
    fn board_value(&self, ai: GomokuColor) -> (v: i32)
        requires
            self.wf(),
            self.size <= 73,
        ensures
            v == leaf_value(self.state(), ai),
    {
        let ghost b = self.state().board;
        let ghost n = self.size as int;
        let ghost f = leaf_step(b, n, ai);
        let opp = ai.opposite();
        let mut score: i32 = 0;
        let mut r: usize = 0;
        while r < self.size
            invariant
                self.wf(),
                self.size <= 73,
                b == self.state().board,
                n == self.size,
                f == leaf_step(b, n, ai),
                opp == other_color(ai),
                r <= self.size,
                score == fold_cells(n, r as int, 0, 0int, f),
            decreases self.size - r,
        {
            let mut c: usize = 0;
            while c < self.size
                invariant
                    self.wf(),
                    self.size <= 73,
                    b == self.state().board,
                    n == self.size,
                    f == leaf_step(b, n, ai),
                    opp == other_color(ai),
                    r < self.size,
                    c <= self.size,
                    score == fold_cells(n, r as int, c as int, 0int, f),
                decreases self.size - c,
            {
                if self.board[r][c].is_none() {
                    let d = self.dirs_total(r, c, ai) - self.dirs_total(r, c, opp);
                    proof {
                        lemma_leaf_fold_bounded(b, n, ai, r as int, c + 1);
                        assert(r * n + c + 1 <= n * n) by (nonlinear_arith)
                            requires
                                0 <= r < n,
                                0 <= c < n,
                        ;
                        assert(n * n <= 5329) by (nonlinear_arith)
                            requires
                                0 <= n <= 73,
                        ;
                        assert(fold_cells(n, r as int, c + 1, 0int, f) == f(fold_cells(n, r as int, c as int, 0int, f), r as int, c as int));
                    }
                    score = score + d;
                }
                c = c + 1;
            }
            assert(fold_cells(n, r + 1, 0, 0int, f) == fold_cells(n, r as int, n, 0int, f));
            r = r + 1;
        }
        score
    }

    /// The empty points next to a stone, each with its score for `color`.
    fn candidate_moves(&self, radius: usize, color: GomokuColor) -> (res: Vec<(i32, usize, usize)>)
        requires
            self.wf(),
            radius <= 2,
        ensures
            res@ == candidates(self.state().board, self.size as int, radius as int, color),
    {
        let ghost b = self.state().board;
        let ghost n = self.size as int;
        let ghost f = cand_step(b, n, radius as int, color);
        let mut res: Vec<(i32, usize, usize)> = Vec::new();
        let mut r: usize = 0;
        while r < self.size
            invariant
                self.wf(),
                b == self.state().board,
                n == self.size,
                f == cand_step(b, n, radius as int, color),
                radius <= 2,
                r <= self.size,
                res@ == fold_cells(n, r as int, 0, Seq::empty(), f),
            decreases self.size - r,
        {
            let mut c: usize = 0;
            while c < self.size
                invariant
                    self.wf(),
                    b == self.state().board,
                    n == self.size,
                    f == cand_step(b, n, radius as int, color),
                    radius <= 2,
                    r < self.size,
                    c <= self.size,
                    res@ == fold_cells(n, r as int, c as int, Seq::empty(), f),
                decreases self.size - c,
            {
                if self.board[r][c].is_none() && self.neighbors_have_stone(r, c, radius) {
                    let score = self.evaluate_cell(r, c, color);
                    res.push((score, r, c));
                }
                c = c + 1;
            }
            assert(fold_cells(n, r + 1, 0, Seq::empty(), f) == fold_cells(n, r as int, n, Seq::empty(), f));
            r = r + 1;
        }
        res
    }

    /// The empty points in row-major order.
    fn empty_points(&self) -> (res: Vec<(usize, usize)>)
        requires
            self.wf(),
        ensures
            res@ == empty_points(self.state()),
    {
        let ghost b = self.state().board;
        let ghost n = self.size as int;
        let ghost f = empty_step(b);
        let mut res: Vec<(usize, usize)> = Vec::new();
        let mut r: usize = 0;
        while r < self.size
            invariant
                self.wf(),
                b == self.state().board,
                n == self.size,
                f == empty_step(b),
                r <= self.size,
                res@ == fold_cells(n, r as int, 0, Seq::empty(), f),
            decreases self.size - r,
        {
            let mut c: usize = 0;
            while c < self.size
                invariant
                    self.wf(),
                    b == self.state().board,
                    n == self.size,
                    f == empty_step(b),
                    r < self.size,
                    c <= self.size,
                    res@ == fold_cells(n, r as int, c as int, Seq::empty(), f),
                decreases self.size - c,
            {
                if self.board[r][c].is_none() {
                    res.push((r, c));
                }
                c = c + 1;
            }
            assert(fold_cells(n, r + 1, 0, Seq::empty(), f) == fold_cells(n, r as int, n, Seq::empty(), f));
            r = r + 1;
        }
        res
    }

    /// Alpha-beta search for `ai_color`; `maximizing` says whether
    /// `ai_color` places the next stone.
    pub fn gomoku_minimax(&self, depth: u8, alpha: i32, beta: i32, maximizing: bool, ai_color: GomokuColor) -> (v: i32)
        requires
            self.wf(),
            self.size <= 73,
            self.move_count + depth <= u32::MAX,
            i32::MIN + 1 <= alpha < beta <= i32::MAX - 1,
        ensures
            fail_soft(v as int, alpha as int, beta as int, gsearch(self.state(), depth as nat, maximizing, ai_color)),
            self.status != GameStatus::Playing || depth == 0 ==> v == leaf_value(self.state(), ai_color),
        decreases depth,
    {
        if self.status != GameStatus::Playing || depth == 0 {
            return self.board_value(ai_color);
        }
        let ghost st = self.state();
        let ghost d = (depth - 1) as nat;
        let current = if maximizing { ai_color } else { ai_color.opposite() };
        let found = self.candidate_moves(1, current);
        let mut cands = sort_by_score(&found);
        cands.truncate(10);
        proof {
            assert(cands@ =~= top(sort_desc(found@), 10));
            lemma_top_on_board(st.board, st.size, 1, current, 10);
        }
        if cands.len() == 0 {
            return 0;
        }
        let ghost total = gbest(st, cands@, d, maximizing, ai_color);
        assert(total == gsearch(st, depth as nat, maximizing, ai_color));
        if maximizing {
            let mut a = alpha;
            let mut best: i32 = i32::MIN + 1;
            let mut i: usize = 0;
            loop
                invariant_except_break
                    a < beta,
                    i <= cands.len(),
                    a == (if best > alpha { best } else { alpha }),
                    best <= alpha ==> gbest(st, cands@.take(i as int), d, true, ai_color) <= best,
                    best > alpha ==> gbest(st, cands@.take(i as int), d, true, ai_color) == best,
                invariant
                    self.wf(),
                    self.size <= 73,
                    self.move_count + depth <= u32::MAX,
                    st == self.state(),
                    self.status == GameStatus::Playing,
                    depth >= 1,
                    d == depth - 1,
                    maximizing,
                    current == mover(maximizing, ai_color),
                    i32::MIN + 1 <= alpha < beta <= i32::MAX - 1,
                    forall|k: int| 0 <= k < cands.len() ==> on_board(st.size, (#[trigger] cands@[k]).1 as int, cands@[k].2 as int),
                    total == gbest(st, cands@, d, true, ai_color),
                    i32::MIN + 1 <= best,
                ensures
                    fail_soft(best as int, alpha as int, beta as int, total),
                decreases cands.len() - i,
            {
                if i >= cands.len() {
                    assert(cands@.take(i as int) =~= cands@);
                    break;
                }
                let (_, r, c) = cands[i];
                proof {
                    assert(on_board(st.size, cands@[i as int].1 as int, cands@[i as int].2 as int));
                }
                let ghost prev = gbest(st, cands@.take(i as int), d, true, ai_color);
                let next = self.try_place(r, c, current);
                let val = next.gomoku_minimax(depth - 1, a, beta, false, ai_color);
                proof {
                    let t = cands@.take(i + 1);
                    assert(t.drop_last() =~= cands@.take(i as int));
                    assert(t.last() == cands@[i as int]);
                    let vi = gsearch(next.state(), d, false, ai_color);
                    assert(gbest(st, t, d, true, ai_color) == (if vi > prev { vi } else { prev }));
                }
                if val > best {
                    best = val;
                }
                if best > a {
                    a = best;
                }
                if a >= beta {
                    proof {
                        lemma_gbest_prefix(st, cands@, i + 1, d, true, ai_color);
                    }
                    break;
                }
                i = i + 1;
            }
            best
        } else {
            let mut b = beta;
            let mut best: i32 = i32::MAX - 1;
            let mut i: usize = 0;
            loop
                invariant_except_break
                    alpha < b,
                    i <= cands.len(),
                    b == (if best < beta { best } else { beta }),
                    best >= beta ==> gbest(st, cands@.take(i as int), d, false, ai_color) >= best,
                    best < beta ==> gbest(st, cands@.take(i as int), d, false, ai_color) == best,
                invariant
                    self.wf(),
                    self.size <= 73,
                    self.move_count + depth <= u32::MAX,
                    st == self.state(),
                    self.status == GameStatus::Playing,
                    depth >= 1,
                    d == depth - 1,
                    !maximizing,
                    current == mover(maximizing, ai_color),
                    i32::MIN + 1 <= alpha < beta <= i32::MAX - 1,
                    forall|k: int| 0 <= k < cands.len() ==> on_board(st.size, (#[trigger] cands@[k]).1 as int, cands@[k].2 as int),
                    total == gbest(st, cands@, d, false, ai_color),
                    best <= i32::MAX - 1,
                ensures
                    fail_soft(best as int, alpha as int, beta as int, total),
                decreases cands.len() - i,
            {
                if i >= cands.len() {
                    assert(cands@.take(i as int) =~= cands@);
                    break;
                }
                let (_, r, c) = cands[i];
                proof {
                    assert(on_board(st.size, cands@[i as int].1 as int, cands@[i as int].2 as int));
                }
                let ghost prev = gbest(st, cands@.take(i as int), d, false, ai_color);
                let next = self.try_place(r, c, current);
                let val = next.gomoku_minimax(depth - 1, alpha, b, true, ai_color);
                proof {
                    let t = cands@.take(i + 1);
                    assert(t.drop_last() =~= cands@.take(i as int));
                    assert(t.last() == cands@[i as int]);
                    let vi = gsearch(next.state(), d, true, ai_color);
                    assert(gbest(st, t, d, false, ai_color) == (if vi < prev { vi } else { prev }));
                }
                if val < best {
                    best = val;
                }
                if best < b {
                    b = best;
                }
                if alpha >= b {
                    proof {
                        lemma_gbest_prefix(st, cands@, i + 1, d, false, ai_color);
                    }
                    break;
                }
                i = i + 1;
            }
            best
        }
    }

    /// The easy computer player: an empty point picked by the move count.
    fn ai_random_move(&self) -> (r: Option<MovePayload>)
        requires
            self.wf(),
        ensures
            random_choice(self.state(), r),
    {
        let empties = self.empty_points();
        if empties.len() == 0 {
            return None;
        }
        let idx = (self.move_count as u64 * 7919 + 13) % (empties.len() as u64);
        let (r, c) = empties[idx as usize];
        Some(point_payload(r, c))
    }

    /// The heuristic player: the centre on an empty board, else the best
    /// empty point within two of a stone, else the centre.
    fn ai_heuristic_move(&self, color: GomokuColor) -> (res: Option<MovePayload>)
        requires
            self.wf(),
        ensures
            res matches Some(mv) && is_point_payload(
                mv,
                heuristic_point(self.state(), color).0,
                heuristic_point(self.state(), color).1,
            ),
    {
        if self.move_count == 0 {
            let c = self.size / 2;
            return Some(point_payload(c, c));
        }
        let ghost b = self.state().board;
        let ghost n = self.size as int;
        let ghost f = heur_step(b, n, color);
        let mut best: Option<(i32, usize, usize)> = None;
        let mut r: usize = 0;
        while r < self.size
            invariant
                self.wf(),
                b == self.state().board,
                n == self.size,
                f == heur_step(b, n, color),
                r <= self.size,
                best is None <==> fold_cells(n, r as int, 0, None, f) is None,
                best matches Some(t) ==> fold_cells(n, r as int, 0, None, f) == Some((t.0 as int, t.1 as int, t.2 as int)),
            decreases self.size - r,
        {
            let mut c: usize = 0;
            while c < self.size
                invariant
                    self.wf(),
                    b == self.state().board,
                    n == self.size,
                    f == heur_step(b, n, color),
                    r < self.size,
                    c <= self.size,
                    best is None <==> fold_cells(n, r as int, c as int, None, f) is None,
                    best matches Some(t) ==> fold_cells(n, r as int, c as int, None, f) == Some(
                        (t.0 as int, t.1 as int, t.2 as int),
                    ),
                decreases self.size - c,
            {
                proof {
                    assert(fold_cells(n, r as int, c + 1, None, f) == f(fold_cells(n, r as int, c as int, None, f), r as int, c as int));
                }
                if self.board[r][c].is_none() && self.neighbors_have_stone(r, c, 2) {
                    let score = self.evaluate_cell(r, c, color);
                    match best {
                        Some(t) => {
                            if score > t.0 {
                                best = Some((score, r, c));
                            }
                        },
                        None => {
                            best = Some((score, r, c));
                        },
                    }
                }
                c = c + 1;
            }
            assert(fold_cells(n, r + 1, 0, None, f) == fold_cells(n, r as int, n, None, f));
            r = r + 1;
        }
        match best {
            Some((_, br, bc)) => Some(point_payload(br, bc)),
            None => {
                let c = self.size / 2;
                Some(point_payload(c, c))
            },
        }
    }

    /// The searching player: the centre on an empty board; else the first
    /// of the fifteen best-scored points that wins at once, or failing
    /// that the first of greatest search value `depth` stones deep.
    fn ai_minimax_move(&self, color: GomokuColor, depth: u8) -> (res: Option<MovePayload>)
        requires
            self.wf(),
            self.size <= 73,
            depth >= 1,
            self.move_count + depth <= u32::MAX,
        ensures
            search_choice(self.state(), color, (depth - 1) as nat, res),
    {
        if self.move_count == 0 {
            let c = self.size / 2;
            return Some(point_payload(c, c));
        }
        let ghost st = self.state();
        let ghost d = (depth - 1) as nat;
        let found = self.candidate_moves(1, color);
        let mut cands = sort_by_score(&found);
        cands.truncate(15);
        proof {
            assert(cands@ =~= top(sort_desc(found@), 15));
            lemma_top_on_board(st.board, st.size, 1, color, 15);
        }
        if cands.len() == 0 {
            return self.ai_heuristic_move(color);
        }
        let mut best_val: i32 = i32::MIN + 1;
        let mut best: Option<(usize, usize)> = None;
        let ghost mut bk: int = 0;
        let mut i: usize = 0;
        while i < cands.len()
            invariant
                self.wf(),
                self.size <= 73,
                self.move_count + depth <= u32::MAX,
                self.move_count > 0,
                st == self.state(),
                d == depth - 1,
                depth >= 1,
                i <= cands.len(),
                cands.len() > 0,
                cands@ == top(sort_desc(candidates(st.board, st.size, 1, color)), 15),
                forall|k: int| 0 <= k < cands.len() ==> on_board(st.size, (#[trigger] cands@[k]).1 as int, cands@[k].2 as int),
                forall|j: int| 0 <= j < i ==> !#[trigger] placing_wins(st, cands@[j], color),
                0 <= bk < cands.len(),
                i == 0 ==> best is None && best_val == i32::MIN + 1,
                i > 0 ==> bk < i && best == Some((cands@[bk].1, cands@[bk].2)) && best_val == reply_value(st, cands@[bk], color, d),
                i > 0 ==> forall|j: int|
                    0 <= j < i ==> #[trigger] reply_value(st, cands@[j], color, d) <= reply_value(st, cands@[bk], color, d),
                forall|j: int|
                    0 <= j < bk ==> #[trigger] reply_value(st, cands@[j], color, d) < reply_value(st, cands@[bk], color, d),
            decreases cands.len() - i,
        {
            let (_, r, c) = cands[i];
            proof {
                assert(on_board(st.size, cands@[i as int].1 as int, cands@[i as int].2 as int));
            }
            let mut next = self.with_stone(r, c, color);
            if next.check_win(r, c, color) {
                proof {
                    assert(placing_wins(st, cands@[i as int], color));
                    assert(root_pick(st, cands@, color, d, i as int));
                }
                return Some(point_payload(r, c));
            }
            next.current_turn = color.opposite();
            proof {
                assert(next.state() == place_state(st, r as int, c as int, color));
            }
            let val = next.gomoku_minimax(depth - 1, i32::MIN + 1, i32::MAX - 1, false, color);
            proof {
                lemma_gsearch_bounded(next.state(), d, false, color);
                assert(val == reply_value(st, cands@[i as int], color, d));
            }
            if val > best_val {
                best_val = val;
                best = Some((r, c));
                proof {
                    bk = i as int;
                }
            }
            i = i + 1;
        }
        proof {
            assert(!exists|j: int| 0 <= j < cands.len() && #[trigger] placing_wins(st, cands@[j], color));
            assert(root_pick(st, cands@, color, d, bk));
        }
        match best {
            Some((br, bc)) => Some(point_payload(br, bc)),
            None => None,
        }
    }

    /// The computer's move for the side to play: easy picks an empty
    /// point by the move count, normal plays the heuristic point, hard
    /// searches four stones deep.
    pub fn get_ai_move(&self, difficulty: AiDifficulty) -> (res: Option<MovePayload>)
        requires
            self.wf(),
            self.size <= 73,
            self.move_count + 4 <= u32::MAX,
        ensures
            gomoku_ai_choice(*self, difficulty, res),
    {
        let color = self.current_turn;
        match difficulty {
            AiDifficulty::Easy => self.ai_random_move(),
            AiDifficulty::Normal => self.ai_heuristic_move(color),
            AiDifficulty::Hard => self.ai_minimax_move(color, 4),
        }
    }

    /// The game status.
    pub fn status(&self) -> (s: GameStatus)
        ensures
            s == self.status,
    {
        self.status
    }

    /// The side to move.
    pub fn current_player(&self) -> (p: PlayerColor)
        ensures
            p == color_player(self.current_turn),
    {
        self.current_turn.to_player()
    }
}

/// A move at (r, c) as a computer player sends it.
fn point_payload(r: usize, c: usize) -> (mv: MovePayload)
    ensures
        is_point_payload(mv, r as int, c as int),
{
    MovePayload {
        from_row: None,
        from_col: None,
        to_row: None,
        to_col: None,
        row: Some(r as u64),
        col: Some(c as u64),
        pass: None,
        promotion: None,
    }
}

/// What a call of `make_move` on `g0` does: `g1` is the game after it and
/// `r` its result.
pub open spec fn gomoku_played(g0: GomokuGame, g1: GomokuGame, mv: MovePayload, player: PlayerColor, r: Result<(), MoveError>) -> bool {
    match r {
        Err(e) => gomoku_move_error(g0.state(), mv, player) == Some(e) && g1
            == g0,
        Ok(()) => gomoku_move_error(g0.state(), mv, player) is None && g1.state()
            == gomoku_after(g0.state(), mv.row->0 as int, mv.col->0 as int),
    }
}

/// What `get_ai_move` answers for `g` at `difficulty`.
pub open spec fn gomoku_ai_choice(g: GomokuGame, difficulty: AiDifficulty, r: Option<MovePayload>) -> bool {
    &&& (difficulty == AiDifficulty::Easy ==> random_choice(g.state(), r))
    &&& (difficulty == AiDifficulty::Normal ==> (r matches Some(mv) && is_point_payload(
        mv,
        heuristic_point(g.state(), g.current_turn).0,
        heuristic_point(g.state(), g.current_turn).1,
    )))
    &&& (difficulty == AiDifficulty::Hard ==> search_choice(g.state(), g.current_turn, 3, r))
}

/// An accepted gomoku move puts one stone of the side to move on the chosen
/// point, changes no other point, counts the move, and passes the turn
/// unless the game ended.
pub proof fn gomoku_move_places_one_stone(s: GomokuState, mv: MovePayload, player: PlayerColor)
    requires
        gomoku_move_error(s, mv, player) is None,
        s.board.len() == s.size,
        forall|i: int| 0 <= i < s.size ==> (#[trigger] s.board[i]).len() == s.size,
    ensures
        ({
            let r = mv.row->0 as int;
            let c = mv.col->0 as int;
            let a = gomoku_after(s, r, c);
            &&& a.board[r][c] == Some(s.turn)
            &&& forall|i: int, j: int| on_board(s.size, i, j) && (i, j) != (r, c) ==> #[trigger] a.board[i][j] == s.board[i][j]
            &&& a.move_count == s.move_count + 1
            &&& color_player(s.turn) == player
            &&& (a.status == GameStatus::Playing ==> a.turn == other_color(s.turn))
        }),
{
}

/// Five in a row wins: an accepted move that completes a line of five for
/// the side to move ends the game in its favour.
pub proof fn five_in_a_row_wins(s: GomokuState, mv: MovePayload, player: PlayerColor)
    requires
        gomoku_move_error(s, mv, player) is None,
        wins(place(s.board, mv.row->0 as int, mv.col->0 as int, s.turn), s.size, mv.row->0 as int, mv.col->0 as int, s.turn),
    ensures
        gomoku_after(s, mv.row->0 as int, mv.col->0 as int).status == won_by(player),
{
}

proof fn lemma_leaf_fold_negates(b: GomokuBoard, n: int, ai: GomokuColor, r: int, c: int)
    requires
        0 <= r,
        0 <= c <= n,
    ensures
        fold_cells(n, r, c, 0int, leaf_step(b, n, ai)) == -fold_cells(n, r, c, 0int, leaf_step(b, n, other_color(ai))),
    decreases r, c,
{
    assert(other_color(other_color(ai)) == ai);
    if c == 0 {
        if r > 0 {
            lemma_leaf_fold_negates(b, n, ai, r - 1, n);
        }
    } else {
        lemma_leaf_fold_negates(b, n, ai, r, c - 1);
    }
}

/// The leaf balance is zero-sum: what it gives one colour it takes from the
/// other.
pub proof fn leaf_value_is_zero_sum(s: GomokuState, ai: GomokuColor)
    requires
        0 <= s.size,
    ensures
        leaf_value(s, ai) == -leaf_value(s, other_color(ai)),
{
    lemma_leaf_fold_negates(s.board, s.size, ai, s.size, 0);
}

/// `j` steps of `d`, where `d` is -1, 0 or 1.
pub open spec fn steps_of(d: int, j: int) -> int {
    if d == 0 {
        0
    } else if d > 0 {
        j
    } else {
        -j
    }
}

/// A stone of `color` on the point (r, c) of the board.
pub open spec fn has_stone(b: GomokuBoard, n: int, r: int, c: int, color: GomokuColor) -> bool {
    on_board(n, r, c) && b[r][c] == Some(color)
}

proof fn lemma_run_at_least(b: GomokuBoard, n: int, r: int, c: int, dr: int, dc: int, color: GomokuColor, m: int)
    requires
        is_dir(dr, dc),
        0 <= m,
        forall|i: int| 0 <= i < m ==> #[trigger] has_stone(b, n, r + steps_of(dr, i), c + steps_of(dc, i), color),
    ensures
        run(b, n, r, c, dr, dc, color) >= m,
    decreases m,
{
    if m > 0 {
        assert(has_stone(b, n, r + steps_of(dr, 0), c + steps_of(dc, 0), color));
        assert(steps_of(dr, 0) == 0 && steps_of(dc, 0) == 0);
        assert forall|i: int| 0 <= i < m - 1 implies #[trigger] has_stone(
            b,
            n,
            r + dr + steps_of(dr, i),
            c + dc + steps_of(dc, i),
            color,
        ) by {
            assert(r + dr + steps_of(dr, i) == r + steps_of(dr, i + 1));
            assert(c + dc + steps_of(dc, i) == c + steps_of(dc, i + 1));
            assert(has_stone(b, n, r + steps_of(dr, i + 1), c + steps_of(dc, i + 1), color));
        }
        lemma_run_at_least(b, n, r + dr, c + dc, dr, dc, color, m - 1);
    }
}

/// Five stones of the mover in an unbroken line across, down or along a
/// diagonal, one of them the stone just placed (at place `k` of the five,
/// counted from the line's start), win the game for the mover.
pub proof fn five_through_the_new_stone_wins(s: GomokuState, mv: MovePayload, player: PlayerColor, dr: int, dc: int, k: int)
    requires
        gomoku_move_error(s, mv, player) is None,
        (dr == 0 && dc == 1) || (dr == 1 && dc == 0) || (dr == 1 && dc == 1) || (dr == 1 && dc == -1),
        0 <= k < 5,
        forall|j: int|
            -k <= j < 5 - k ==> on_board(s.size, mv.row->0 + steps_of(dr, j), mv.col->0 + steps_of(dc, j))
                && #[trigger] gomoku_after(s, mv.row->0 as int, mv.col->0 as int).board[mv.row->0 + steps_of(dr, j)][mv.col->0
                + steps_of(dc, j)] == Some(s.turn),
    ensures
        gomoku_after(s, mv.row->0 as int, mv.col->0 as int).status == won_by(player),
        gomoku_after(s, mv.row->0 as int, mv.col->0 as int).turn == s.turn,
{
    let r = mv.row->0 as int;
    let c = mv.col->0 as int;
    let n = s.size;
    let b = place(s.board, r, c, s.turn);
    assert(gomoku_after(s, r, c).board == b);
    assert forall|j: int| -k <= j < 5 - k implies #[trigger] has_stone(b, n, r + steps_of(dr, j), c + steps_of(dc, j), s.turn) by {
        assert(b[mv.row->0 + steps_of(dr, j)][mv.col->0 + steps_of(dc, j)] == Some(s.turn));
    }
    assert forall|i: int| 0 <= i < 4 - k implies #[trigger] has_stone(
        b,
        n,
        r + dr + steps_of(dr, i),
        c + dc + steps_of(dc, i),
        s.turn,
    ) by {
        assert(r + dr + steps_of(dr, i) == r + steps_of(dr, i + 1));
        assert(c + dc + steps_of(dc, i) == c + steps_of(dc, i + 1));
        assert(has_stone(b, n, r + steps_of(dr, i + 1), c + steps_of(dc, i + 1), s.turn));
    }
    lemma_run_at_least(b, n, r + dr, c + dc, dr, dc, s.turn, 4 - k);
    assert forall|i: int| 0 <= i < k implies #[trigger] has_stone(
        b,
        n,
        r - dr + steps_of(-dr, i),
        c - dc + steps_of(-dc, i),
        s.turn,
    ) by {
        assert(r - dr + steps_of(-dr, i) == r + steps_of(dr, -(i + 1)));
        assert(c - dc + steps_of(-dc, i) == c + steps_of(dc, -(i + 1)));
        assert(has_stone(b, n, r + steps_of(dr, -(i + 1)), c + steps_of(dc, -(i + 1)), s.turn));
    }
    lemma_run_at_least(b, n, r - dr, c - dc, -dr, -dc, s.turn, k);
    assert(line_len(b, n, r, c, dr, dc, s.turn) >= 5);
    assert(wins(b, n, r, c, s.turn));
}

/// Five stones of `color` in a row along (dr, dc), the point (r, c) being
/// the `k`-th of them.
pub open spec fn five_from(b: GomokuBoard, n: int, r: int, c: int, dr: int, dc: int, k: int, color: GomokuColor) -> bool {
    forall|j: int| -k <= j < 5 - k ==> #[trigger] has_stone(b, n, r + steps_of(dr, j), c + steps_of(dc, j), color)
}

proof fn lemma_run_stones(b: GomokuBoard, n: int, r: int, c: int, dr: int, dc: int, color: GomokuColor, i: int)
    requires
        0 <= i < run(b, n, r, c, dr, dc, color),
    ensures
        is_dir(dr, dc),
        has_stone(b, n, r + steps_of(dr, i), c + steps_of(dc, i), color),
    decreases i,
{
    if i > 0 {
        lemma_run_stones(b, n, r + dr, c + dc, dr, dc, color, i - 1);
        assert(r + dr + steps_of(dr, i - 1) == r + steps_of(dr, i));
        assert(c + dc + steps_of(dc, i - 1) == c + steps_of(dc, i));
    } else {
        assert(steps_of(dr, 0) == 0 && steps_of(dc, 0) == 0);
    }
}

/// A stone wins only by making five: when an accepted move wins the game,
/// five stones of the mover lie in an unbroken line across, down or along
/// a diagonal, the new stone among them.
pub proof fn only_five_in_a_row_wins(s: GomokuState, mv: MovePayload, player: PlayerColor)
    requires
        gomoku_move_error(s, mv, player) is None,
        s.board.len() == s.size,
        forall|i: int| 0 <= i < s.size ==> (#[trigger] s.board[i]).len() == s.size,
        gomoku_after(s, mv.row->0 as int, mv.col->0 as int).status == won_by(player),
    ensures
        exists|dr: int, dc: int, k: int|
            ((dr == 0 && dc == 1) || (dr == 1 && dc == 0) || (dr == 1 && dc == 1) || (dr == 1 && dc == -1)) && 0 <= k < 5
                && #[trigger] five_from(
                gomoku_after(s, mv.row->0 as int, mv.col->0 as int).board,
                s.size,
                mv.row->0 as int,
                mv.col->0 as int,
                dr,
                dc,
                k,
                s.turn,
            ),
{
    let r = mv.row->0 as int;
    let c = mv.col->0 as int;
    let n = s.size;
    let b = place(s.board, r, c, s.turn);
    let color = s.turn;
    assert(gomoku_after(s, r, c).board == b);
    assert(s.status == GameStatus::Playing);
    assert(won_by(player) != GameStatus::Playing && won_by(player) != GameStatus::Draw) by {
        assert(player == PlayerColor::White || player == PlayerColor::Black);
    }
    assert(wins(b, n, r, c, color));
    let (dr, dc): (int, int) = if line_len(b, n, r, c, 0, 1, color) >= 5 {
        (0, 1)
    } else if line_len(b, n, r, c, 1, 0, color) >= 5 {
        (1, 0)
    } else if line_len(b, n, r, c, 1, 1, color) >= 5 {
        (1, 1)
    } else {
        (1, -1)
    };
    let fwd = run(b, n, r + dr, c + dc, dr, dc, color) as int;
    let bwd = run(b, n, r - dr, c - dc, -dr, -dc, color) as int;
    assert(1 + fwd + bwd >= 5);
    let k: int = if bwd < 4 { bwd } else { 4 };
    assert(b[r][c] == Some(color));
    assert forall|j: int| -k <= j < 5 - k implies #[trigger] has_stone(b, n, r + steps_of(dr, j), c + steps_of(dc, j), color) by {
        if j == 0 {
            assert(steps_of(dr, 0) == 0 && steps_of(dc, 0) == 0);
        } else if j > 0 {
            lemma_run_stones(b, n, r + dr, c + dc, dr, dc, color, j - 1);
            assert(r + dr + steps_of(dr, j - 1) == r + steps_of(dr, j));
            assert(c + dc + steps_of(dc, j - 1) == c + steps_of(dc, j));
        } else {
            lemma_run_stones(b, n, r - dr, c - dc, -dr, -dc, color, -j - 1);
            assert(r - dr + steps_of(-dr, -j - 1) == r + steps_of(dr, j));
            assert(c - dc + steps_of(-dc, -j - 1) == c + steps_of(dc, j));
        }
    }
    assert(five_from(b, n, r, c, dr, dc, k, color));
}

} // verus!
