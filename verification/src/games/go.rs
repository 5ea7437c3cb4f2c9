//! Go on a square board under area scoring: stones are captured when their
//! group has no liberty, suicide and immediate recapture (ko) are refused,
//! and two passes in a row end the game. White receives a komi of 6.5
//! points, so Black wins exactly when Black's area is at least White's plus
//! seven.

use vstd::prelude::*;
use super::{
    AiDifficulty, GameStatus, MoveError, MovePayload, PlayerColor, fold_cells, lemma_fold_cells_ext,
    lemma_fold_cells_unit, lemma_sort_desc_members, sort_by_score, sort_desc, top,
};

verus! {

#[derive(Debug, Clone, Copy, PartialEq, Eq, Structural)]
pub enum Stone {
    Black,
    White,
}

pub open spec fn other_stone(c: Stone) -> Stone {
    match c {
        Stone::Black => Stone::White,
        Stone::White => Stone::Black,
    }
}

pub open spec fn stone_player(c: Stone) -> PlayerColor {
    match c {
        Stone::White => PlayerColor::White,
        Stone::Black => PlayerColor::Black,
    }
}

impl Stone {
    fn opposite(&self) -> (r: Stone)
        ensures
            r == other_stone(*self),
    {
        match self {
            Stone::Black => Stone::White,
            Stone::White => Stone::Black,
        }
    }

    fn to_player(&self) -> (r: PlayerColor)
        ensures
            r == stone_player(*self),
    {
        match self {
            Stone::White => PlayerColor::White,
            Stone::Black => PlayerColor::Black,
        }
    }
}

pub type GoBoard = Seq<Seq<Option<Stone>>>;

pub type Grid = Vec<Vec<Option<Stone>>>;

pub open spec fn grid_view(g: Grid) -> GoBoard {
    g@.map_values(|row: Vec<Option<Stone>>| row@)
}

/// A game of go on a `size` by `size` board.
#[derive(Clone)]
pub struct GoGame {
    pub size: usize,
    pub board: Grid,
    pub current_turn: Stone,
    pub status: GameStatus,
    /// Stones captured by Black.
    pub captures_black: u32,
    /// Stones captured by White.
    pub captures_white: u32,
    /// The point where a single stone was just captured; retaking there at
    /// once is refused.
    pub ko_point: Option<(usize, usize)>,
    pub consecutive_passes: u32,
    pub move_count: u32,
    /// Black's area (stones and surrounded territory) once scored.
    pub black_area: u32,
    /// White's area once scored, before komi.
    pub white_area: u32,
    /// The board before the last stone was played.
    pub previous_board: Option<Grid>,
}

/// What a go game holds, as mathematical values.
pub struct GoState {
    pub size: int,
    pub board: GoBoard,
    pub turn: Stone,
    pub status: GameStatus,
    pub captures_black: int,
    pub captures_white: int,
    pub ko_point: Option<(usize, usize)>,
    pub consecutive_passes: int,
    pub move_count: int,
    pub black_area: int,
    pub white_area: int,
    pub previous_board: Option<GoBoard>,
}

pub open spec fn square(b: GoBoard, n: int) -> bool {
    &&& b.len() == n
    &&& forall|i: int| 0 <= i < n ==> (#[trigger] b[i]).len() == n
}

impl GoGame {
    pub open spec fn state(&self) -> GoState {
        GoState {
            size: self.size as int,
            board: grid_view(self.board),
            turn: self.current_turn,
            status: self.status,
            captures_black: self.captures_black as int,
            captures_white: self.captures_white as int,
            ko_point: self.ko_point,
            consecutive_passes: self.consecutive_passes as int,
            move_count: self.move_count as int,
            black_area: self.black_area as int,
            white_area: self.white_area as int,
            previous_board: match self.previous_board {
                Some(p) => Some(grid_view(p)),
                None => None,
            },
        }
    }

    /// The boards are `size` by `size`, and `size` is at most 1000. The
    /// areas and capture counts are 32-bit counts of points, and the
    /// computer's move scores and look-ahead sums are `i32` values made of
    /// point counts times small weights; with at most a million points they
    /// all stay in range. The server makes 19 by 19 boards.
    pub open spec fn wf(&self) -> bool {
        &&& self.size <= 1000
        &&& square(grid_view(self.board), self.size as int)
        &&& (self.previous_board matches Some(p) ==> square(grid_view(p), self.size as int))
    }
}

pub open spec fn on_board(n: int, r: int, c: int) -> bool {
    0 <= r < n && 0 <= c < n
}

/// Points one step apart across or down.
pub open spec fn adjacent(p: (int, int), q: (int, int)) -> bool {
    ||| (q.0 == p.0 - 1 && q.1 == p.1)
    ||| (q.0 == p.0 + 1 && q.1 == p.1)
    ||| (q.0 == p.0 && q.1 == p.1 - 1)
    ||| (q.0 == p.0 && q.1 == p.1 + 1)
}

/// Every point of the board next to a member of `s` that holds `v` is in
/// `s`.
pub open spec fn comp_closed(b: GoBoard, n: int, s: Set<(int, int)>, v: Option<Stone>) -> bool {
    forall|p: (int, int), q: (int, int)|
        #[trigger] s.contains(p) && adjacent(p, q) && on_board(n, q.0, q.1) && b[q.0][q.1] == v ==> #[trigger] s.contains(q)
}

/// The points connected to (r, c) through points holding what (r, c)
/// holds: the least closed set containing (r, c). For a stone this is its
/// group; for an empty point, its region.
pub open spec fn comp(b: GoBoard, n: int, r: int, c: int) -> Set<(int, int)> {
    Set::new(
        |q: (int, int)|
            forall|s: Set<(int, int)>| #[trigger] comp_closed(b, n, s, b[r][c]) && s.contains((r, c)) ==> s.contains(q),
    )
}

pub open spec fn member_step(s: Set<(int, int)>) -> spec_fn(int, int, int) -> int {
    |acc: int, r: int, c: int| acc + (if s.contains((r, c)) { 1int } else { 0int })
}

/// The number of points of the board in `s`.
pub open spec fn members(n: int, s: Set<(int, int)>) -> int {
    fold_cells(n, n, 0, 0int, member_step(s))
}

/// (r, c) is next to a point of `s`.
pub open spec fn touches(s: Set<(int, int)>, r: int, c: int) -> bool {
    s.contains((r - 1, c)) || s.contains((r + 1, c)) || s.contains((r, c - 1)) || s.contains((r, c + 1))
}

pub open spec fn lib_step(b: GoBoard, s: Set<(int, int)>) -> spec_fn(int, int, int) -> int {
    |acc: int, r: int, c: int| acc + (if b[r][c] is None && touches(s, r, c) { 1int } else { 0int })
}

/// The liberties of `s`: the empty points next to it.
pub open spec fn liberties(b: GoBoard, n: int, s: Set<(int, int)>) -> int {
    fold_cells(n, n, 0, 0int, lib_step(b, s))
}

/// The board with the points of `s` emptied.
pub open spec fn remove_set(b: GoBoard, s: Set<(int, int)>) -> GoBoard {
    Seq::new(b.len(), |r: int| Seq::new(b[r].len(), |c: int| if s.contains((r, c)) { None } else { b[r][c] }))
}

pub open spec fn place(b: GoBoard, r: int, c: int, color: Stone) -> GoBoard {
    b.update(r, b[r].update(c, Some(color)))
}

/// Where the removal of captured groups stands: the board, the stones
/// taken so far, and the last single stone taken.
pub struct Capture {
    pub board: GoBoard,
    pub total: int,
    pub single: Option<(usize, usize)>,
}

/// Removes the group of `opp` at (nr, nc) when it has no liberty left.
pub open spec fn capture_at(cs: Capture, n: int, nr: int, nc: int, opp: Stone) -> Capture {
    if on_board(n, nr, nc) && cs.board[nr][nc] == Some(opp) {
        let g = comp(cs.board, n, nr, nc);
        if liberties(cs.board, n, g) == 0 {
            let size = members(n, g);
            Capture {
                board: remove_set(cs.board, g),
                total: cs.total + size,
                single: if size == 1 {
                    Some((nr as usize, nc as usize))
                } else {
                    cs.single
                },
            }
        } else {
            cs
        }
    } else {
        cs
    }
}

/// A stone of `color` at (r, c), then the capture of the opposing groups
/// next to it that are left without liberties, looking up, down, left and
/// right in turn.
pub open spec fn captures_of(b: GoBoard, n: int, r: int, c: int, color: Stone) -> Capture {
    let opp = other_stone(color);
    let c0 = Capture { board: place(b, r, c, color), total: 0, single: None };
    let c1 = capture_at(c0, n, r - 1, c, opp);
    let c2 = capture_at(c1, n, r + 1, c, opp);
    let c3 = capture_at(c2, n, r, c - 1, opp);
    capture_at(c3, n, r, c + 1, opp)
}

/// Why a move would be refused, if it would.
pub open spec fn go_move_error(s: GoState, mv: MovePayload, player: PlayerColor) -> Option<MoveError> {
    if s.status != GameStatus::Playing {
        Some(MoveError::GameOver)
    } else if stone_player(s.turn) != player {
        Some(MoveError::NotYourTurn)
    } else if mv.pass == Some(true) {
        None
    } else if mv.row is None {
        Some(MoveError::InvalidRow)
    } else if mv.col is None {
        Some(MoveError::InvalidCol)
    } else if mv.row->0 >= s.size || mv.col->0 >= s.size {
        Some(MoveError::OutOfBounds)
    } else if s.board[mv.row->0 as int][mv.col->0 as int] is Some {
        Some(MoveError::Occupied)
    } else if s.ko_point == Some((mv.row->0 as usize, mv.col->0 as usize)) {
        Some(MoveError::Ko)
    } else {
        let r = mv.row->0 as int;
        let c = mv.col->0 as int;
        let cap = captures_of(s.board, s.size, r, c, s.turn);
        if liberties(cap.board, s.size, comp(cap.board, s.size, r, c)) == 0 {
            Some(MoveError::Suicide)
        } else if s.previous_board matches Some(pb) && cap.total == 1 && cap.board == pb {
            Some(MoveError::Ko)
        } else {
            None
        }
    }
}

/// Some point of `s` has a stone of `color` next to it.
pub open spec fn borders(b: GoBoard, n: int, s: Set<(int, int)>, color: Stone) -> bool {
    exists|p: (int, int)| #[trigger] s.contains(p) && on_board(n, p.0, p.1) && has_nbr(b, n, p.0, p.1, color)
}

pub open spec fn area_step(b: GoBoard, n: int, color: Stone) -> spec_fn(int, int, int) -> int {
    |acc: int, r: int, c: int|
        acc + (if b[r][c] == Some(color) || (b[r][c] is None && borders(b, n, comp(b, n, r, c), color) && !borders(
            b,
            n,
            comp(b, n, r, c),
            other_stone(color),
        )) {
            1int
        } else {
            0int
        })
}

/// The area of `color`: its stones, and the empty points whose region
/// touches stones of `color` only.
pub open spec fn area(b: GoBoard, n: int, color: Stone) -> int {
    fold_cells(n, n, 0, 0int, area_step(b, n, color))
}

/// The game scored: Black wins when Black's area is at least White's plus
/// seven, that is, beats White's with a komi of 6.5.
pub open spec fn scored(s: GoState) -> GoState {
    let black = area(s.board, s.size, Stone::Black);
    let white = area(s.board, s.size, Stone::White);
    GoState {
        black_area: black,
        white_area: white,
        status: if black >= white + 7 {
            GameStatus::BlackWon
        } else {
            GameStatus::WhiteWon
        },
        ..s
    }
}

/// The game after a move that the rules allow: a pass, which ends the game
/// when it is the second in a row, or a stone with its captures.
pub open spec fn go_after(s: GoState, mv: MovePayload) -> GoState {
    if mv.pass == Some(true) {
        let passed = GoState {
            consecutive_passes: s.consecutive_passes + 1,
            ko_point: None,
            previous_board: None,
            move_count: s.move_count + 1,
            ..s
        };
        if passed.consecutive_passes >= 2 {
            scored(passed)
        } else {
            GoState { turn: other_stone(s.turn), ..passed }
        }
    } else {
        let r = mv.row->0 as int;
        let c = mv.col->0 as int;
        let cap = captures_of(s.board, s.size, r, c, s.turn);
        GoState {
            board: cap.board,
            captures_black: if s.turn == Stone::Black {
                s.captures_black + cap.total
            } else {
                s.captures_black
            },
            captures_white: if s.turn == Stone::White {
                s.captures_white + cap.total
            } else {
                s.captures_white
            },
            ko_point: if cap.total == 1 {
                cap.single
            } else {
                None
            },
            previous_board: Some(s.board),
            consecutive_passes: 0,
            turn: other_stone(s.turn),
            move_count: s.move_count + 1,
            ..s
        }
    }
}

pub open spec fn legal_step(b: GoBoard, ko: Option<(usize, usize)>) -> spec_fn(Seq<(usize, usize)>, int, int) -> Seq<(usize, usize)> {
    |acc: Seq<(usize, usize)>, r: int, c: int|
        if b[r][c] is None && ko != Some((r as usize, c as usize)) {
            acc.push((r as usize, c as usize))
        } else {
            acc
        }
}

/// The empty points other than the ko point, in row-major order.
pub open spec fn legal_points(b: GoBoard, n: int, ko: Option<(usize, usize)>) -> Seq<(usize, usize)> {
    fold_cells(n, n, 0, Seq::empty(), legal_step(b, ko))
}

pub open spec fn legal_positions(s: GoState) -> Seq<(usize, usize)> {
    legal_points(s.board, s.size, s.ko_point)
}

/// The stones of the `opp` group at (nr, nc) when it has no liberty.
pub open spec fn dead_size(t: GoBoard, n: int, nr: int, nc: int, opp: Stone) -> int {
    if on_board(n, nr, nc) && t[nr][nc] == Some(opp) && liberties(t, n, comp(t, n, nr, nc)) == 0 {
        members(n, comp(t, n, nr, nc))
    } else {
        0
    }
}

/// The stones of the `opp` group at (nr, nc) when it has one liberty.
pub open spec fn atari_size(t: GoBoard, n: int, nr: int, nc: int, opp: Stone) -> int {
    if on_board(n, nr, nc) && t[nr][nc] == Some(opp) && liberties(t, n, comp(t, n, nr, nc)) == 1 {
        members(n, comp(t, n, nr, nc))
    } else {
        0
    }
}

pub open spec fn abs_diff(a: int, b: int) -> int {
    if a >= b {
        a - b
    } else {
        b - a
    }
}

/// How good a stone of `color` at (r, c) looks, on the board with the stone
/// placed and nothing removed: 50 for each stone of the opposing groups
/// next to it left without liberties, 20 for each stone of those left with
/// one, 10 for each liberty of its own group, half the closeness to the
/// centre, and 1000 off when its group has no liberty. A group next to the
/// point on two sides counts twice.
pub open spec fn move_score(b: GoBoard, n: int, r: int, c: int, color: Stone) -> int {
    let t = place(b, r, c, color);
    let opp = other_stone(color);
    let captures = dead_size(t, n, r - 1, c, opp) + dead_size(t, n, r + 1, c, opp) + dead_size(t, n, r, c - 1, opp)
        + dead_size(t, n, r, c + 1, opp);
    let atari = atari_size(t, n, r - 1, c, opp) + atari_size(t, n, r + 1, c, opp) + atari_size(t, n, r, c - 1, opp)
        + atari_size(t, n, r, c + 1, opp);
    let own = liberties(t, n, comp(t, n, r, c));
    let dist = abs_diff(r, n / 2) + abs_diff(c, n / 2);
    captures * 50 + atari * 20 + own * 10 + (n - dist) / 2 - (if own == 0 { 1000int } else { 0int })
}

/// A stone of `color` at (r, c) keeps a liberty, or takes an opposing group
/// next to it.
pub open spec fn allowed(b: GoBoard, n: int, r: int, c: int, color: Stone) -> bool {
    let t = place(b, r, c, color);
    let opp = other_stone(color);
    ||| liberties(t, n, comp(t, n, r, c)) != 0
    ||| (on_board(n, r - 1, c) && t[r - 1][c] == Some(opp) && liberties(t, n, comp(t, n, r - 1, c)) == 0)
    ||| (on_board(n, r + 1, c) && t[r + 1][c] == Some(opp) && liberties(t, n, comp(t, n, r + 1, c)) == 0)
    ||| (on_board(n, r, c - 1) && t[r][c - 1] == Some(opp) && liberties(t, n, comp(t, n, r, c - 1)) == 0)
    ||| (on_board(n, r, c + 1) && t[r][c + 1] == Some(opp) && liberties(t, n, comp(t, n, r, c + 1)) == 0)
}

/// The first allowed point of `ps` with the greatest score, and its score.
pub open spec fn heuristic_pick(b: GoBoard, n: int, ps: Seq<(usize, usize)>, color: Stone) -> Option<(int, usize, usize)>
    decreases ps.len(),
{
    if ps.len() == 0 {
        None
    } else {
        let prev = heuristic_pick(b, n, ps.drop_last(), color);
        let p = ps.last();
        if allowed(b, n, p.0 as int, p.1 as int, color) {
            let v = move_score(b, n, p.0 as int, p.1 as int, color);
            match prev {
                Some(t) => if v > t.0 {
                    Some((v, p.0, p.1))
                } else {
                    prev
                },
                None => Some((v, p.0, p.1)),
            }
        } else {
            prev
        }
    }
}

/// The allowed points of `ps`, in order, each with its score.
pub open spec fn scored_points(b: GoBoard, n: int, ps: Seq<(usize, usize)>, color: Stone) -> Seq<(i32, usize, usize)>
    decreases ps.len(),
{
    if ps.len() == 0 {
        Seq::empty()
    } else {
        let prev = scored_points(b, n, ps.drop_last(), color);
        let p = ps.last();
        if allowed(b, n, p.0 as int, p.1 as int, color) {
            prev.push((move_score(b, n, p.0 as int, p.1 as int, color) as i32, p.0, p.1))
        } else {
            prev
        }
    }
}

/// The greatest score of a stone of `color` on the points of `ps`.
pub open spec fn max_score(b: GoBoard, n: int, ps: Seq<(usize, usize)>, color: Stone) -> Option<int>
    decreases ps.len(),
{
    if ps.len() == 0 {
        None
    } else {
        let v = move_score(b, n, ps.last().0 as int, ps.last().1 as int, color);
        match max_score(b, n, ps.drop_last(), color) {
            Some(m) => Some(if v >= m { v } else { m }),
            None => Some(v),
        }
    }
}

/// Integer division by two that rounds toward zero.
pub open spec fn half_toward_zero(x: int) -> int {
    if x >= 0 {
        x / 2
    } else {
        -((-x) / 2)
    }
}

/// The worth of a candidate after the opponent's best answer: its score
/// less half of the best score the opponent then has, or of zero when it
/// has no point to play.
pub open spec fn net_value(s: GoState, t: (i32, usize, usize), color: Stone) -> int {
    let tb = place(s.board, t.1 as int, t.2 as int, color);
    let replies = legal_positions(GoState { board: tb, ..s });
    let best = match max_score(tb, s.size, replies, other_stone(color)) {
        Some(m) => m,
        None => 0,
    };
    t.0 - half_toward_zero(best)
}

/// The first candidate with the greatest `net_value`.
pub open spec fn lookahead_pick(s: GoState, cands: Seq<(i32, usize, usize)>, color: Stone) -> Option<(int, usize, usize)>
    decreases cands.len(),
{
    if cands.len() == 0 {
        None
    } else {
        let prev = lookahead_pick(s, cands.drop_last(), color);
        let t = cands.last();
        let v = net_value(s, t, color);
        match prev {
            Some(p) => if v > p.0 {
                Some((v, t.1, t.2))
            } else {
                prev
            },
            None => Some((v, t.1, t.2)),
        }
    }
}

/// A stone at (r, c) as a computer player sends it.
pub open spec fn is_go_point(mv: MovePayload, r: int, c: int) -> bool {
    &&& mv.row == Some(r as u64)
    &&& mv.col == Some(c as u64)
    &&& mv.pass == Some(false)
    &&& mv.from_row is None
    &&& mv.from_col is None
    &&& mv.to_row is None
    &&& mv.to_col is None
    &&& mv.promotion is None
}

/// A pass as a computer player sends it.
pub open spec fn is_go_pass(mv: MovePayload) -> bool {
    &&& mv.row == Some(0u64)
    &&& mv.col == Some(0u64)
    &&& mv.pass == Some(true)
    &&& mv.from_row is None
    &&& mv.from_col is None
    &&& mv.to_row is None
    &&& mv.to_col is None
    &&& mv.promotion is None
}

/// The answer for a picked point, or a pass when nothing was picked.
pub open spec fn pick_payload(pick: Option<(int, usize, usize)>, mv: MovePayload) -> bool {
    match pick {
        Some(t) => is_go_point(mv, t.1 as int, t.2 as int),
        None => is_go_pass(mv),
    }
}

/// The easy player: a legal point picked by the move count, or a pass.
pub open spec fn go_random_choice(s: GoState, mv: MovePayload) -> bool {
    let ps = legal_positions(s);
    if ps.len() == 0 {
        is_go_pass(mv)
    } else {
        let p = ps[(s.move_count * 7919 + 17) % ps.len() as int];
        is_go_point(mv, p.0 as int, p.1 as int)
    }
}

/// The normal player: the first allowed legal point of greatest score, or
/// a pass.
pub open spec fn go_heuristic_choice(s: GoState, color: Stone, mv: MovePayload) -> bool {
    pick_payload(heuristic_pick(s.board, s.size, legal_positions(s), color), mv)
}

/// The hard player: of the twenty best-scored allowed legal points, the
/// first of greatest `net_value`, or a pass.
pub open spec fn go_lookahead_choice(s: GoState, color: Stone, mv: MovePayload) -> bool {
    let cands = top(sort_desc(scored_points(s.board, s.size, legal_positions(s), color)), 20);
    pick_payload(lookahead_pick(s, cands, color), mv)
}

pub open spec fn grid_bools(v: Vec<Vec<bool>>) -> Seq<Seq<bool>> {
    v@.map_values(|row: Vec<bool>| row@)
}

pub open spec fn count_step(m: Seq<Seq<bool>>) -> spec_fn(int, int, int) -> int {
    |acc: int, r: int, c: int| acc + (if m[r][c] { 1int } else { 0int })
}

/// The number of marked points.
pub open spec fn marked_count(m: Seq<Seq<bool>>, n: int) -> int {
    fold_cells(n, n, 0, 0int, count_step(m))
}

/// The neighbours of (r, c) that hold `v` are marked.
pub open spec fn nbrs_marked(b: GoBoard, n: int, m: Seq<Seq<bool>>, r: int, c: int, v: Option<Stone>) -> bool {
    &&& (r > 0 && b[r - 1][c] == v ==> m[r - 1][c])
    &&& (r + 1 < n && b[r + 1][c] == v ==> m[r + 1][c])
    &&& (c > 0 && b[r][c - 1] == v ==> m[r][c - 1])
    &&& (c + 1 < n && b[r][c + 1] == v ==> m[r][c + 1])
}

/// What holds during a flood fill from `start`: marked points hold `v`,
/// lie in every closed set containing `start`, are counted by `count`,
/// and each of them that is neither waiting on the stack nor `pending`
/// has its neighbours holding `v` marked.
pub open spec fn fill_inv(
    b: GoBoard,
    n: int,
    m: Seq<Seq<bool>>,
    stack: Seq<(usize, usize)>,
    count: int,
    start: (int, int),
    v: Option<Stone>,
    pending: Option<(int, int)>,
) -> bool {
    &&& square(b, n)
    &&& m.len() == n
    &&& (forall|i: int| 0 <= i < n ==> (#[trigger] m[i]).len() == n)
    &&& on_board(n, start.0, start.1)
    &&& m[start.0][start.1]
    &&& b[start.0][start.1] == v
    &&& (forall|k: int|
        0 <= k < stack.len() ==> on_board(n, (#[trigger] stack[k]).0 as int, stack[k].1 as int) && m[stack[k].0 as int][stack[k].1 as int])
    &&& stack.no_duplicates()
    &&& (forall|r: int, c: int| on_board(n, r, c) && #[trigger] m[r][c] ==> b[r][c] == v)
    &&& (forall|s: Set<(int, int)>|
        #[trigger] comp_closed(b, n, s, v) && s.contains(start) ==> forall|r: int, c: int|
            on_board(n, r, c) && #[trigger] m[r][c] ==> s.contains((r, c)))
    &&& (forall|r: int, c: int|
        on_board(n, r, c) && #[trigger] m[r][c] && !stack.contains((r as usize, c as usize)) && pending != Some((r, c))
            ==> nbrs_marked(b, n, m, r, c, v))
    &&& count == marked_count(m, n)
}

pub open spec fn mark(m: Seq<Seq<bool>>, r: int, c: int) -> Seq<Seq<bool>> {
    m.update(r, m[r].update(c, true))
}

proof fn lemma_count_bounded(m: Seq<Seq<bool>>, n: int, r: int, c: int)
    requires
        0 <= r,
        0 <= c <= n,
    ensures
        0 <= fold_cells(n, r, c, 0int, count_step(m)) <= r * n + c,
    decreases r, c,
{
    if c == 0 {
        if r > 0 {
            lemma_count_bounded(m, n, r - 1, n);
            assert((r - 1) * n + n == r * n) by (nonlinear_arith);
        }
    } else {
        lemma_count_bounded(m, n, r, c - 1);
    }
}

/// Marking an unmarked point adds one to the count of the points that
/// come after it.
proof fn lemma_count_mark(m: Seq<Seq<bool>>, n: int, qr: int, qc: int, r: int, c: int)
    requires
        square_bools(m, n),
        on_board(n, qr, qc),
        !m[qr][qc],
        0 <= r <= n,
        0 <= c <= n,
        r < n || c == 0,
    ensures
        fold_cells(n, r, c, 0int, count_step(mark(m, qr, qc))) == fold_cells(n, r, c, 0int, count_step(m)) + (if qr < r
            || (qr == r && qc < c) {
            1int
        } else {
            0int
        }),
    decreases r, c,
{
    let m1 = mark(m, qr, qc);
    if c == 0 {
        if r > 0 {
            lemma_count_mark(m, n, qr, qc, r - 1, n);
            assert(fold_cells(n, r, c, 0int, count_step(m1)) == fold_cells(n, r - 1, n, 0int, count_step(m1)));
            assert(fold_cells(n, r, c, 0int, count_step(m)) == fold_cells(n, r - 1, n, 0int, count_step(m)));
        }
    } else {
        lemma_count_mark(m, n, qr, qc, r, c - 1);
        assert(m1[r][c - 1] == (m[r][c - 1] || (r == qr && c - 1 == qc)));
        assert(fold_cells(n, r, c, 0int, count_step(m1)) == fold_cells(n, r, c - 1, 0int, count_step(m1)) + (if m1[r][c
            - 1] {
            1int
        } else {
            0int
        }));
        assert(fold_cells(n, r, c, 0int, count_step(m)) == fold_cells(n, r, c - 1, 0int, count_step(m)) + (if m[r][c
            - 1] {
            1int
        } else {
            0int
        }));
    }
}

pub open spec fn square_bools(m: Seq<Seq<bool>>, n: int) -> bool {
    &&& m.len() == n
    &&& forall|i: int| 0 <= i < n ==> (#[trigger] m[i]).len() == n
}

/// The count of all marked points is at most the number of points.
proof fn lemma_marked_count_bounded(m: Seq<Seq<bool>>, n: int)
    requires
        0 <= n,
    ensures
        0 <= marked_count(m, n) <= n * n,
{
    lemma_count_bounded(m, n, n, 0);
}

proof fn lemma_grid(g: Grid, n: int)
    requires
        square(grid_view(g), n),
    ensures
        g@.len() == n,
        forall|i: int| 0 <= i < n ==> (#[trigger] g@[i])@.len() == n && grid_view(g)[i] == g@[i]@,
{
    assert forall|i: int| 0 <= i < n implies (#[trigger] g@[i])@.len() == n && grid_view(g)[i] == g@[i]@ by {
        assert(grid_view(g)[i] == g@[i]@);
    }
}

proof fn lemma_bools(m: Vec<Vec<bool>>, n: int)
    requires
        square_bools(grid_bools(m), n),
    ensures
        m@.len() == n,
        forall|i: int| 0 <= i < n ==> (#[trigger] m@[i])@.len() == n && grid_bools(m)[i] == m@[i]@,
{
    assert forall|i: int| 0 <= i < n implies (#[trigger] m@[i])@.len() == n && grid_bools(m)[i] == m@[i]@ by {
        assert(grid_bools(m)[i] == m@[i]@);
    }
}

/// A grid of `false`, `n` by `n`.
fn unmarked(n: usize) -> (m: Vec<Vec<bool>>)
    ensures
        square_bools(grid_bools(m), n as int),
        forall|r: int, c: int| on_board(n as int, r, c) ==> !(#[trigger] grid_bools(m)[r][c]),
{
    let mut m: Vec<Vec<bool>> = Vec::new();
    let mut i: usize = 0;
    while i < n
        invariant
            i <= n,
            m@.len() == i,
            forall|k: int| 0 <= k < i ==> (#[trigger] m@[k])@.len() == n,
            forall|k: int, c: int| 0 <= k < i && 0 <= c < n ==> !(#[trigger] m@[k]@[c]),
        decreases n - i,
    {
        let mut row: Vec<bool> = Vec::new();
        let mut j: usize = 0;
        while j < n
            invariant
                j <= n,
                row@.len() == j,
                forall|c: int| 0 <= c < j ==> !(#[trigger] row@[c]),
            decreases n - j,
        {
            row.push(false);
            j = j + 1;
        }
        m.push(row);
        i = i + 1;
    }
    m
}


/// Marks (nr, nc) and puts it on the stack when it holds `v` and is not
/// marked yet.
fn visit(
    g: &Grid,
    size: usize,
    m: &mut Vec<Vec<bool>>,
    stack: &mut Vec<(usize, usize)>,
    count: &mut usize,
    nr: usize,
    nc: usize,
    v: Option<Stone>,
    Ghost(start): Ghost<(int, int)>,
    Ghost(p): Ghost<(int, int)>,
)
    requires
        size <= 1000,
        square(grid_view(*g), size as int),
        fill_inv(grid_view(*g), size as int, grid_bools(*old(m)), old(stack)@, *old(count) as int, start, v, Some(p)),
        on_board(size as int, p.0, p.1),
        grid_bools(*old(m))[p.0][p.1],
        on_board(size as int, nr as int, nc as int),
        adjacent(p, (nr as int, nc as int)),
    ensures
        fill_inv(grid_view(*g), size as int, grid_bools(*final(m)), final(stack)@, *final(count) as int, start, v, Some(p)),
        grid_bools(*final(m))[p.0][p.1],
        grid_view(*g)[nr as int][nc as int] == v ==> grid_bools(*final(m))[nr as int][nc as int],
        forall|r: int, c: int| on_board(size as int, r, c) && #[trigger] grid_bools(*old(m))[r][c] ==> grid_bools(*final(m))[r][c],
        *final(count) + final(stack)@.len() >= *old(count) + old(stack)@.len(),
        2 * (*final(count) as int) + final(stack)@.len() - (2 * (*old(count) as int) + old(stack)@.len()) == 3 * (*final(count) - *old(count)),
{
    let ghost b = grid_view(*g);
    let ghost n = size as int;
    proof {
        lemma_grid(*g, n as int);
        lemma_bools(*m, n);
    }
    if g[nr][nc] == v && !m[nr][nc] {
        let ghost m0 = grid_bools(*m);
        let ghost s0 = stack@;
        proof {
            lemma_count_mark(m0, n, nr as int, nc as int, n, 0);
            lemma_marked_count_bounded(mark(m0, nr as int, nc as int), n);
            assert(n * n <= 1000000) by (nonlinear_arith)
                requires
                    0 <= n <= 1000,
            ;
        }
        m[nr][nc] = true;
        stack.push((nr, nc));
        *count = *count + 1;
        proof {
            let m1 = grid_bools(*m);
            assert(m1 =~= mark(m0, nr as int, nc as int));
            assert(!s0.contains((nr, nc))) by {
                if s0.contains((nr, nc)) {
                    let k = choose|k: int| 0 <= k < s0.len() && s0[k] == (nr, nc);
                    assert(m0[s0[k].0 as int][s0[k].1 as int]);
                }
            }
            assert forall|k: int| 0 <= k < stack@.len() implies on_board(n, (#[trigger] stack@[k]).0 as int, stack@[k].1 as int)
                && m1[stack@[k].0 as int][stack@[k].1 as int] by {
                if k < s0.len() {
                    assert(stack@[k] == s0[k]);
                }
            }
            assert forall|s: Set<(int, int)>|
                #[trigger] comp_closed(b, n, s, v) && s.contains(start) implies forall|r: int, c: int|
                    on_board(n, r, c) && #[trigger] m1[r][c] ==> s.contains((r, c)) by {
                assert(s.contains(p));
                assert(s.contains((nr as int, nc as int)));
            }
            assert forall|r: int, c: int|
                on_board(n, r, c) && #[trigger] m1[r][c] && !stack@.contains((r as usize, c as usize)) && Some(p) != Some((r, c))
                    implies nbrs_marked(b, n, m1, r, c, v) by {
                if r == nr && c == nc {
                    assert(stack@[stack@.len() - 1] == (nr, nc));
                    assert(stack@.contains((r as usize, c as usize)));
                } else {
                    assert(m0[r][c]);
                    if s0.contains((r as usize, c as usize)) {
                        let k = choose|k: int| 0 <= k < s0.len() && s0[k] == (r as usize, c as usize);
                        assert(stack@[k] == s0[k]);
                    }
                    assert(nbrs_marked(b, n, m0, r, c, v));
                }
            }
        }
    }
}

/// The points connected to (row, col) through points holding what (row,
/// col) holds, as a grid of marks, and their number.
fn component(g: &Grid, size: usize, row: usize, col: usize) -> (res: (Vec<Vec<bool>>, usize))
    requires
        size <= 1000,
        square(grid_view(*g), size as int),
        row < size,
        col < size,
    ensures
        square_bools(grid_bools(res.0), size as int),
        forall|r: int, c: int|
            on_board(size as int, r, c) ==> (#[trigger] grid_bools(res.0)[r][c] <==> comp(
                grid_view(*g),
                size as int,
                row as int,
                col as int,
            ).contains((r, c))),
        res.1 == marked_count(grid_bools(res.0), size as int),
        res.1 == members(size as int, comp(grid_view(*g), size as int, row as int, col as int)),
        forall|q: (int, int)|
            #[trigger] comp(grid_view(*g), size as int, row as int, col as int).contains(q) ==> on_board(size as int, q.0, q.1),
{
    let ghost b = grid_view(*g);
    let ghost n = size as int;
    let ghost start = (row as int, col as int);
    proof {
        lemma_grid(*g, n as int);
    }
    let v = g[row][col];
    let mut m = unmarked(size);
    let ghost m0 = grid_bools(m);
    proof {
        lemma_count_mark(m0, n, row as int, col as int, n, 0);
        lemma_count_zero(m0, n, n, 0);
    }
    m[row][col] = true;
    let mut stack: Vec<(usize, usize)> = Vec::new();
    stack.push((row, col));
    let mut count: usize = 1;
    proof {
        let m1 = grid_bools(m);
        assert(m1 =~= mark(m0, row as int, col as int));
        assert forall|s: Set<(int, int)>|
            #[trigger] comp_closed(b, n, s, v) && s.contains(start) implies forall|r: int, c: int|
                on_board(n, r, c) && #[trigger] m1[r][c] ==> s.contains((r, c)) by {
        }
        assert forall|r: int, c: int|
            on_board(n, r, c) && #[trigger] m1[r][c] && !stack@.contains((r as usize, c as usize)) && None::<(int, int)> != Some((r, c))
                implies nbrs_marked(b, n, m1, r, c, v) by {
            assert(stack@[0] == (row, col));
        }
    }
    while stack.len() > 0
        invariant
            1 <= n <= 1000,
        square(grid_view(*g), n as int),
            b == grid_view(*g),
            n == size,
            start == (row as int, col as int),
            v == b[row as int][col as int],
            fill_inv(b, n, grid_bools(m), stack@, count as int, start, v, None),
        decreases 2 * (n * n - count) + stack@.len(),
    {
        proof {
            lemma_marked_count_bounded(grid_bools(m), n);
        }
        let ghost s0 = stack@;
        let p = stack.pop().unwrap();
        let ghost pp = (p.0 as int, p.1 as int);
        let ghost c0 = count as int;
        proof {
            assert(s0 =~= stack@.push(p));
            assert(s0[s0.len() - 1] == p);
            assert(!stack@.contains(p)) by {
                if stack@.contains(p) {
                    let k = choose|k: int| 0 <= k < stack@.len() && stack@[k] == p;
                    assert(s0[k] == p);
                }
            }
            let mm = grid_bools(m);
            assert forall|k: int| 0 <= k < stack@.len() implies on_board(n, (#[trigger] stack@[k]).0 as int, stack@[k].1 as int)
                && mm[stack@[k].0 as int][stack@[k].1 as int] by {
                assert(stack@[k] == s0[k]);
            }
            assert forall|r: int, c: int|
                on_board(n, r, c) && #[trigger] mm[r][c] && !stack@.contains((r as usize, c as usize)) && Some(pp) != Some((r, c))
                    implies nbrs_marked(b, n, mm, r, c, v) by {
                if s0.contains((r as usize, c as usize)) {
                    let k = choose|k: int| 0 <= k < s0.len() && s0[k] == (r as usize, c as usize);
                    if k < s0.len() - 1 {
                        assert(stack@[k] == s0[k]);
                    }
                }
            }
            assert(s0[s0.len() - 1] == p);
            assert(mm[pp.0][pp.1]);
        }
        let (r, c) = p;
        if r > 0 {
            visit(g, size, &mut m, &mut stack, &mut count, r - 1, c, v, Ghost(start), Ghost(pp));
        }
        if r + 1 < size {
            visit(g, size, &mut m, &mut stack, &mut count, r + 1, c, v, Ghost(start), Ghost(pp));
        }
        if c > 0 {
            visit(g, size, &mut m, &mut stack, &mut count, r, c - 1, v, Ghost(start), Ghost(pp));
        }
        if c + 1 < size {
            visit(g, size, &mut m, &mut stack, &mut count, r, c + 1, v, Ghost(start), Ghost(pp));
        }
        proof {
            let mm = grid_bools(m);
            lemma_marked_count_bounded(mm, n);
            assert(nbrs_marked(b, n, mm, pp.0, pp.1, v));
            assert forall|r: int, c: int|
                on_board(n, r, c) && #[trigger] mm[r][c] && !stack@.contains((r as usize, c as usize)) && None::<(int, int)> != Some((r, c))
                    implies nbrs_marked(b, n, mm, r, c, v) by {
            }
        }
    }
    proof {
        let mm = grid_bools(m);
        let vset = Set::new(|q: (int, int)| on_board(n, q.0, q.1) && mm[q.0][q.1]);
        assert forall|p: (int, int), q: (int, int)|
            #[trigger] vset.contains(p) && adjacent(p, q) && on_board(n, q.0, q.1) && b[q.0][q.1] == v implies #[trigger] vset.contains(q) by {
            assert(!stack@.contains((p.0 as usize, p.1 as usize)));
            assert(nbrs_marked(b, n, mm, p.0, p.1, v));
        }
        assert(comp_closed(b, n, vset, v));
        assert(vset.contains(start));
        assert forall|r: int, c: int| on_board(n, r, c) implies (#[trigger] mm[r][c] <==> comp(b, n, row as int, col as int).contains((r, c))) by {
            if mm[r][c] {
                assert forall|s: Set<(int, int)>| #[trigger] comp_closed(b, n, s, b[row as int][col as int]) && s.contains((row as int, col as int)) implies s.contains((r, c)) by {
                }
            }
            if comp(b, n, row as int, col as int).contains((r, c)) {
                assert(vset.contains((r, c)));
            }
        }
        let cs = comp(b, n, row as int, col as int);
        assert forall|q: (int, int)| #[trigger] cs.contains(q) implies on_board(n, q.0, q.1) by {
            assert(vset.contains(q));
        }
        assert forall|acc: int, i: int, j: int| 0 <= i < n && 0 <= j < n implies #[trigger] count_step(mm)(acc, i, j)
            == member_step(cs)(acc, i, j) by {
            assert(mm[i][j] <==> cs.contains((i, j)));
        }
        lemma_fold_cells_ext(n, n, 0, 0int, count_step(mm), member_step(cs));
    }
    (m, count)
}

/// The number of liberties of the marked points `s`.
fn liberties_of(g: &Grid, size: usize, m: &Vec<Vec<bool>>, Ghost(s): Ghost<Set<(int, int)>>) -> (k: usize)
    requires
        size <= 1000,
        square(grid_view(*g), size as int),
        square_bools(grid_bools(*m), size as int),
        forall|r: int, c: int| on_board(size as int, r, c) ==> (#[trigger] grid_bools(*m)[r][c] <==> s.contains((r, c))),
        forall|q: (int, int)| #[trigger] s.contains(q) ==> on_board(size as int, q.0, q.1),
    ensures
        k == liberties(grid_view(*g), size as int, s),
{
    let ghost b = grid_view(*g);
    let ghost n = size as int;
    let ghost f = lib_step(b, s);
    proof {
        lemma_grid(*g, n);
        lemma_bools(*m, n);
        assert(n * n <= 1000000) by (nonlinear_arith)
            requires
                0 <= n <= 1000,
        ;
    }
    let mut k: usize = 0;
    let mut r: usize = 0;
    while r < size
        invariant
            size <= 1000,
            n == size,
            n * n <= 1000000,
            b == grid_view(*g),
            f == lib_step(b, s),
            square(b, n),
            g@.len() == n,
            forall|i: int| 0 <= i < n ==> (#[trigger] g@[i])@.len() == n && b[i] == g@[i]@,
            m@.len() == n,
            forall|i: int| 0 <= i < n ==> (#[trigger] m@[i])@.len() == n && grid_bools(*m)[i] == m@[i]@,
            forall|i: int, j: int| on_board(n, i, j) ==> (#[trigger] grid_bools(*m)[i][j] <==> s.contains((i, j))),
            forall|q: (int, int)| #[trigger] s.contains(q) ==> on_board(n, q.0, q.1),
            r <= size,
            k == fold_cells(n, r as int, 0, 0int, f),
        decreases size - r,
    {
        let mut c: usize = 0;
        while c < size
            invariant
                size <= 1000,
                n == size,
                n * n <= 1000000,
                b == grid_view(*g),
                f == lib_step(b, s),
                square(b, n),
                g@.len() == n,
                forall|i: int| 0 <= i < n ==> (#[trigger] g@[i])@.len() == n && b[i] == g@[i]@,
                m@.len() == n,
                forall|i: int| 0 <= i < n ==> (#[trigger] m@[i])@.len() == n && grid_bools(*m)[i] == m@[i]@,
                forall|i: int, j: int| on_board(n, i, j) ==> (#[trigger] grid_bools(*m)[i][j] <==> s.contains((i, j))),
                forall|q: (int, int)| #[trigger] s.contains(q) ==> on_board(n, q.0, q.1),
                r < size,
                c <= size,
                k == fold_cells(n, r as int, c as int, 0int, f),
            decreases size - c,
        {
            proof {
                lemma_fold_cells_unit(n, r as int, c + 1, f);
                assert(r * n + c + 1 <= n * n) by (nonlinear_arith)
                    requires
                        0 <= r < n,
                        0 <= c < n,
                ;
                assert(fold_cells(n, r as int, c + 1, 0int, f) == f(fold_cells(n, r as int, c as int, 0int, f), r as int, c as int));
            }
            if g[r][c].is_none() {
                let t = (r > 0 && m[r - 1][c]) || (r + 1 < size && m[r + 1][c]) || (c > 0 && m[r][c - 1]) || (c + 1 < size
                    && m[r][c + 1]);
                proof {
                    let ri = r as int;
                    let ci = c as int;
                    assert(s.contains((ri - 1, ci)) <==> (r > 0 && grid_bools(*m)[ri - 1][ci]));
                    assert(s.contains((ri + 1, ci)) <==> (r + 1 < size && grid_bools(*m)[ri + 1][ci]));
                    assert(s.contains((ri, ci - 1)) <==> (c > 0 && grid_bools(*m)[ri][ci - 1]));
                    assert(s.contains((ri, ci + 1)) <==> (c + 1 < size && grid_bools(*m)[ri][ci + 1]));
                    assert(t == touches(s, ri, ci));
                }
                if t {
                    k = k + 1;
                }
            }
            c = c + 1;
        }
        assert(fold_cells(n, r + 1, 0, 0int, f) == fold_cells(n, r as int, n, 0int, f));
        r = r + 1;
    }
    k
}

proof fn lemma_grid_square(g: Grid, n: int)
    requires
        g@.len() == n,
        forall|i: int| 0 <= i < n ==> (#[trigger] g@[i])@.len() == n,
    ensures
        square(grid_view(g), n),
{
    assert forall|i: int| 0 <= i < n implies (#[trigger] grid_view(g)[i]).len() == n by {
        assert(grid_view(g)[i] == g@[i]@);
    }
}

/// Empties the marked points `s`.
fn remove_marked(g: &mut Grid, size: usize, m: &Vec<Vec<bool>>, Ghost(s): Ghost<Set<(int, int)>>)
    requires
        size <= 1000,
        square(grid_view(*old(g)), size as int),
        square_bools(grid_bools(*m), size as int),
        forall|r: int, c: int| on_board(size as int, r, c) ==> (#[trigger] grid_bools(*m)[r][c] <==> s.contains((r, c))),
    ensures
        square(grid_view(*final(g)), size as int),
        grid_view(*final(g)) == remove_set(grid_view(*old(g)), s),
{
    let ghost b0 = grid_view(*g);
    let ghost n = size as int;
    proof {
        lemma_grid(*g, n);
        lemma_bools(*m, n);
    }
    let mut r: usize = 0;
    while r < size
        invariant
            n == size,
            square(b0, n),
            g@.len() == n,
            forall|i: int| 0 <= i < n ==> (#[trigger] g@[i])@.len() == n,
            m@.len() == n,
            forall|i: int| 0 <= i < n ==> (#[trigger] m@[i])@.len() == n && grid_bools(*m)[i] == m@[i]@,
            forall|i: int, j: int| on_board(n, i, j) ==> (#[trigger] grid_bools(*m)[i][j] <==> s.contains((i, j))),
            r <= size,
            forall|i: int, j: int|
                on_board(n, i, j) ==> #[trigger] g@[i]@[j] == (if i < r && s.contains((i, j)) {
                    None
                } else {
                    b0[i][j]
                }),
        decreases size - r,
    {
        let mut c: usize = 0;
        while c < size
            invariant
                n == size,
                square(b0, n),
                g@.len() == n,
                forall|i: int| 0 <= i < n ==> (#[trigger] g@[i])@.len() == n,
                m@.len() == n,
                forall|i: int| 0 <= i < n ==> (#[trigger] m@[i])@.len() == n && grid_bools(*m)[i] == m@[i]@,
                forall|i: int, j: int| on_board(n, i, j) ==> (#[trigger] grid_bools(*m)[i][j] <==> s.contains((i, j))),
                r < size,
                c <= size,
                forall|i: int, j: int|
                    on_board(n, i, j) ==> #[trigger] g@[i]@[j] == (if (i < r || (i == r && j < c)) && s.contains((i, j)) {
                        None
                    } else {
                        b0[i][j]
                    }),
            decreases size - c,
        {
            if m[r][c] {
                g[r][c] = None;
            }
            c = c + 1;
        }
        r = r + 1;
    }
    proof {
        assert forall|i: int| 0 <= i < n implies #[trigger] grid_view(*g)[i] =~= remove_set(b0, s)[i] by {
            assert(grid_view(*g)[i] == g@[i]@);
        }
        assert(grid_view(*g) =~= remove_set(b0, s));
        lemma_grid_square(*g, n);
    }
}

/// Removes the group of `opp` at (nr, nc) when it has no liberty left,
/// adding its stones to `total` and noting it in `single` when it is one
/// stone.
fn capture_group(
    g: &mut Grid,
    size: usize,
    nr: usize,
    nc: usize,
    opp: Stone,
    total: &mut u32,
    single: &mut Option<(usize, usize)>,
)
    requires
        size <= 1000,
        square(grid_view(*old(g)), size as int),
        on_board(size as int, nr as int, nc as int),
        *old(total) <= 3000000,
    ensures
        square(grid_view(*final(g)), size as int),
        *final(total) <= *old(total) + 1000000,
        (Capture { board: grid_view(*final(g)), total: *final(total) as int, single: *final(single) }) == capture_at(
            Capture { board: grid_view(*old(g)), total: *old(total) as int, single: *old(single) },
            size as int,
            nr as int,
            nc as int,
            opp,
        ),
{
    let ghost b = grid_view(*g);
    let ghost n = size as int;
    proof {
        lemma_grid(*g, n);
    }
    if g[nr][nc] == Some(opp) {
        let ghost cs = comp(b, n, nr as int, nc as int);
        let (m, count) = component(g, size, nr, nc);
        let libs = liberties_of(g, size, &m, Ghost(cs));
        if libs == 0 {
            proof {
                lemma_marked_count_bounded(grid_bools(m), n);
                assert(n * n <= 1000000) by (nonlinear_arith)
                    requires
                        1 <= n <= 1000,
                ;
            }
            if count == 1 {
                *single = Some((nr, nc));
            }
            remove_marked(g, size, &m, Ghost(cs));
            *total = *total + count as u32;
        }
    }
}

/// A copy of a square grid.
fn copy_grid(g: &Grid, size: usize) -> (res: Grid)
    requires
        square(grid_view(*g), size as int),
    ensures
        square(grid_view(res), size as int),
        grid_view(res) == grid_view(*g),
{
    let ghost n = size as int;
    proof {
        lemma_grid(*g, n);
    }
    let mut res: Grid = Vec::new();
    let mut i: usize = 0;
    while i < size
        invariant
            n == size,
            g@.len() == n,
            forall|k: int| 0 <= k < n ==> (#[trigger] g@[k])@.len() == n,
            i <= size,
            res@.len() == i,
            forall|k: int| 0 <= k < i ==> (#[trigger] res@[k])@ == g@[k]@,
        decreases size - i,
    {
        let mut row: Vec<Option<Stone>> = Vec::new();
        let mut j: usize = 0;
        while j < size
            invariant
                n == size,
                g@.len() == n,
                forall|k: int| 0 <= k < n ==> (#[trigger] g@[k])@.len() == n,
                i < size,
                j <= size,
                row@ == g@[i as int]@.take(j as int),
            decreases size - j,
        {
            row.push(g[i][j]);
            j = j + 1;
        }
        assert(row@ =~= g@[i as int]@);
        res.push(row);
        i = i + 1;
    }
    proof {
        assert forall|k: int| 0 <= k < n implies #[trigger] grid_view(res)[k] == grid_view(*g)[k] by {
            assert(grid_view(res)[k] == res@[k]@);
            assert(grid_view(*g)[k] == g@[k]@);
        }
        assert(grid_view(res) =~= grid_view(*g));
    }
    res
}

/// Whether two square grids hold the same stones.
fn boards_equal(a: &Grid, b: &Grid, size: usize) -> (eq: bool)
    requires
        square(grid_view(*a), size as int),
        square(grid_view(*b), size as int),
    ensures
        eq == (grid_view(*a) == grid_view(*b)),
{
    let ghost n = size as int;
    proof {
        lemma_grid(*a, n);
        lemma_grid(*b, n);
    }
    let mut r: usize = 0;
    while r < size
        invariant
            n == size,
            square(grid_view(*a), n),
            square(grid_view(*b), n),
            a@.len() == n,
            b@.len() == n,
            forall|k: int| 0 <= k < n ==> (#[trigger] a@[k])@.len() == n && grid_view(*a)[k] == a@[k]@,
            forall|k: int| 0 <= k < n ==> (#[trigger] b@[k])@.len() == n && grid_view(*b)[k] == b@[k]@,
            r <= size,
            forall|i: int, j: int| 0 <= i < r && 0 <= j < n ==> #[trigger] grid_view(*a)[i][j] == grid_view(*b)[i][j],
        decreases size - r,
    {
        let mut c: usize = 0;
        while c < size
            invariant
                n == size,
                a@.len() == n,
                b@.len() == n,
                forall|k: int| 0 <= k < n ==> (#[trigger] a@[k])@.len() == n && grid_view(*a)[k] == a@[k]@,
                forall|k: int| 0 <= k < n ==> (#[trigger] b@[k])@.len() == n && grid_view(*b)[k] == b@[k]@,
                r < size,
                c <= size,
                forall|i: int, j: int| 0 <= i < r && 0 <= j < n ==> #[trigger] grid_view(*a)[i][j] == grid_view(*b)[i][j],
                forall|j: int| 0 <= j < c ==> #[trigger] grid_view(*a)[r as int][j] == grid_view(*b)[r as int][j],
            decreases size - c,
        {
            if a[r][c] != b[r][c] {
                assert(grid_view(*a)[r as int][c as int] != grid_view(*b)[r as int][c as int]);
                return false;
            }
            c = c + 1;
        }
        r = r + 1;
    }
    assert forall|k: int| 0 <= k < n implies #[trigger] grid_view(*a)[k] =~= grid_view(*b)[k] by {
    }
    assert(grid_view(*a) =~= grid_view(*b));
    true
}

/// The test `borders` makes, for a point: it has a stone of `color` next
/// to it.
pub open spec fn has_nbr(b: GoBoard, n: int, i: int, j: int, color: Stone) -> bool {
    (i > 0 && b[i - 1][j] == Some(color)) || (i + 1 < n && b[i + 1][j] == Some(color)) || (j > 0 && b[i][j - 1] == Some(
        color,
    )) || (j + 1 < n && b[i][j + 1] == Some(color))
}

/// Whether some marked point of `s` has a stone of `color` next to it.
fn region_borders(g: &Grid, size: usize, m: &Vec<Vec<bool>>, Ghost(s): Ghost<Set<(int, int)>>, color: Stone) -> (res: bool)
    requires
        square(grid_view(*g), size as int),
        square_bools(grid_bools(*m), size as int),
        forall|r: int, c: int| on_board(size as int, r, c) ==> (#[trigger] grid_bools(*m)[r][c] <==> s.contains((r, c))),
        forall|q: (int, int)| #[trigger] s.contains(q) ==> on_board(size as int, q.0, q.1),
    ensures
        res == borders(grid_view(*g), size as int, s, color),
{
    let ghost b = grid_view(*g);
    let ghost n = size as int;
    proof {
        lemma_grid(*g, n);
        lemma_bools(*m, n);
    }
    let mut r: usize = 0;
    while r < size
        invariant
            n == size,
            b == grid_view(*g),
            square(b, n),
            g@.len() == n,
            forall|i: int| 0 <= i < n ==> (#[trigger] g@[i])@.len() == n && b[i] == g@[i]@,
            m@.len() == n,
            forall|i: int| 0 <= i < n ==> (#[trigger] m@[i])@.len() == n && grid_bools(*m)[i] == m@[i]@,
            forall|i: int, j: int| on_board(n, i, j) ==> (#[trigger] grid_bools(*m)[i][j] <==> s.contains((i, j))),
            r <= size,
            forall|i: int, j: int| 0 <= i < r && 0 <= j < n && #[trigger] s.contains((i, j)) ==> !has_nbr(b, n, i, j, color),
        decreases size - r,
    {
        let mut c: usize = 0;
        while c < size
            invariant
                n == size,
                b == grid_view(*g),
                square(b, n),
                g@.len() == n,
                forall|i: int| 0 <= i < n ==> (#[trigger] g@[i])@.len() == n && b[i] == g@[i]@,
                m@.len() == n,
                forall|i: int| 0 <= i < n ==> (#[trigger] m@[i])@.len() == n && grid_bools(*m)[i] == m@[i]@,
                forall|i: int, j: int| on_board(n, i, j) ==> (#[trigger] grid_bools(*m)[i][j] <==> s.contains((i, j))),
                r < size,
                c <= size,
                forall|i: int, j: int|
                    ((0 <= i < r && 0 <= j < n) || (i == r && 0 <= j < c)) && #[trigger] s.contains((i, j)) ==> !has_nbr(
                        b,
                        n,
                        i,
                        j,
                        color,
                    ),
            decreases size - c,
        {
            if m[r][c] {
                let near = (r > 0 && g[r - 1][c] == Some(color)) || (r + 1 < size && g[r + 1][c] == Some(color)) || (c > 0
                    && g[r][c - 1] == Some(color)) || (c + 1 < size && g[r][c + 1] == Some(color));
                if near {
                    proof {
                        assert(s.contains((r as int, c as int)));
                        assert(has_nbr(b, n, r as int, c as int, color));
                    }
                    return true;
                }
            }
            c = c + 1;
        }
        r = r + 1;
    }
    proof {
        if borders(b, n, s, color) {
            let p = choose|p: (int, int)| #[trigger] s.contains(p) && on_board(n, p.0, p.1) && has_nbr(b, n, p.0, p.1, color);
            assert(s.contains((p.0, p.1)));
        }
    }
    false
}

/// A `size` by `size` grid of empty points.
fn empty_grid(size: usize) -> (g: Grid)
    ensures
        square(grid_view(g), size as int),
        forall|r: int, c: int| on_board(size as int, r, c) ==> (#[trigger] grid_view(g)[r][c]) is None,
{
    let mut g: Grid = Vec::new();
    let mut i: usize = 0;
    while i < size
        invariant
            i <= size,
            g@.len() == i,
            forall|k: int| 0 <= k < i ==> (#[trigger] g@[k])@.len() == size,
            forall|k: int, c: int| 0 <= k < i && 0 <= c < size ==> (#[trigger] g@[k]@[c]) is None,
        decreases size - i,
    {
        let mut row: Vec<Option<Stone>> = Vec::new();
        let mut j: usize = 0;
        while j < size
            invariant
                j <= size,
                row@.len() == j,
                forall|c: int| 0 <= c < j ==> (#[trigger] row@[c]) is None,
            decreases size - j,
        {
            row.push(None);
            j = j + 1;
        }
        g.push(row);
        i = i + 1;
    }
    proof {
        lemma_grid_square(g, size as int);
        assert forall|r: int, c: int| on_board(size as int, r, c) implies (#[trigger] grid_view(g)[r][c]) is None by {
            assert(grid_view(g)[r] == g@[r]@);
        }
    }
    g
}

impl GoGame {
    /// An empty board of the given size, Black to move; sizes up to 1000
    /// are supported (see `wf`).
    pub fn new(size: usize) -> (g: GoGame)
        requires
            size <= 1000,
        ensures
            g.wf(),
            g.size == size,
            forall|r: int, c: int| on_board(size as int, r, c) ==> (#[trigger] g.state().board[r][c]) is None,
            g.current_turn == Stone::Black,
            g.status == GameStatus::Playing,
            g.captures_black == 0,
            g.captures_white == 0,
            g.ko_point is None,
            g.consecutive_passes == 0,
            g.move_count == 0,
            g.black_area == 0,
            g.white_area == 0,
            g.previous_board is None,
    {
        GoGame {
            size,
            board: empty_grid(size),
            current_turn: Stone::Black,
            status: GameStatus::Playing,
            captures_black: 0,
            captures_white: 0,
            ko_point: None,
            consecutive_passes: 0,
            move_count: 0,
            black_area: 0,
            white_area: 0,
            previous_board: None,
        }
    }

    /// The areas of Black and White: stones, and empty regions that touch
    /// stones of one colour only.
    fn areas(&self) -> (res: (u32, u32))
        requires
            self.wf(),
        ensures
            res.0 == area(grid_view(self.board), self.size as int, Stone::Black),
            res.1 == area(grid_view(self.board), self.size as int, Stone::White),
            res.0 <= 1000000,
            res.1 <= 1000000,
    {
        let ghost b = grid_view(self.board);
        let ghost n = self.size as int;
        let ghost fb = area_step(b, n, Stone::Black);
        let ghost fw = area_step(b, n, Stone::White);
        proof {
            lemma_grid(self.board, n);
            assert(n * n <= 1000000) by (nonlinear_arith)
                requires
                    0 <= n <= 1000,
            ;
        }
        let mut black: u32 = 0;
        let mut white: u32 = 0;
        let mut r: usize = 0;
        while r < self.size
            invariant
                self.wf(),
                b == grid_view(self.board),
                n == self.size,
                n * n <= 1000000,
                fb == area_step(b, n, Stone::Black),
                fw == area_step(b, n, Stone::White),
                r <= self.size,
                black == fold_cells(n, r as int, 0, 0int, fb),
                white == fold_cells(n, r as int, 0, 0int, fw),
                black <= r * n,
                white <= r * n,
            decreases self.size - r,
        {
            let mut c: usize = 0;
            while c < self.size
                invariant
                    self.wf(),
                    b == grid_view(self.board),
                    n == self.size,
                    n * n <= 1000000,
                    fb == area_step(b, n, Stone::Black),
                    fw == area_step(b, n, Stone::White),
                    r < self.size,
                    c <= self.size,
                    black == fold_cells(n, r as int, c as int, 0int, fb),
                    white == fold_cells(n, r as int, c as int, 0int, fw),
                decreases self.size - c,
            {
                proof {
                    lemma_grid(self.board, n);
                    lemma_fold_cells_unit(n, r as int, c + 1, fb);
                    lemma_fold_cells_unit(n, r as int, c + 1, fw);
                    assert(r * n + c + 1 <= n * n) by (nonlinear_arith)
                        requires
                            0 <= r < n,
                            0 <= c < n,
                    ;
                    assert(fold_cells(n, r as int, c + 1, 0int, fb) == fb(fold_cells(n, r as int, c as int, 0int, fb), r as int, c as int));
                    assert(fold_cells(n, r as int, c + 1, 0int, fw) == fw(fold_cells(n, r as int, c as int, 0int, fw), r as int, c as int));
                }
                match self.board[r][c] {
                    Some(Stone::Black) => {
                        black = black + 1;
                    },
                    Some(Stone::White) => {
                        white = white + 1;
                    },
                    None => {
                        let ghost cs = comp(b, n, r as int, c as int);
                        let (m, _) = component(&self.board, self.size, r, c);
                        let bb = region_borders(&self.board, self.size, &m, Ghost(cs), Stone::Black);
                        let ww = region_borders(&self.board, self.size, &m, Ghost(cs), Stone::White);
                        if bb && !ww {
                            black = black + 1;
                        } else if ww && !bb {
                            white = white + 1;
                        }
                    },
                }
                c = c + 1;
            }
            proof {
                assert(fold_cells(n, r + 1, 0, 0int, fb) == fold_cells(n, r as int, n, 0int, fb));
                assert(fold_cells(n, r + 1, 0, 0int, fw) == fold_cells(n, r as int, n, 0int, fw));
                lemma_fold_cells_unit(n, r + 1, 0, fb);
                lemma_fold_cells_unit(n, r + 1, 0, fw);
            }
            r = r + 1;
        }
        proof {
            lemma_fold_cells_unit(n, n, 0, fb);
            lemma_fold_cells_unit(n, n, 0, fw);
        }
        (black, white)
    }

    /// Scores the game by area; with a komi of 6.5, Black wins when its
    /// area is at least White's plus seven.
    fn calculate_score(&mut self)
        requires
            old(self).wf(),
        ensures
            final(self).wf(),
            final(self).state() == scored(old(self).state()),
    {
        let (black, white) = self.areas();
        self.black_area = black;
        self.white_area = white;
        if black >= white + 7 {
            self.status = GameStatus::BlackWon;
        } else {
            self.status = GameStatus::WhiteWon;
        }
    }

    /// Plays a pass or a stone for `player`, or says why the move is
    /// refused; a refused move leaves the game as it was.
    pub fn make_move(&mut self, mv: &MovePayload, player: &PlayerColor) -> (r: Result<(), MoveError>)
        requires
            old(self).wf(),
            old(self).move_count < u32::MAX,
            old(self).consecutive_passes < u32::MAX,
            old(self).captures_black <= 4_000_000_000,
            old(self).captures_white <= 4_000_000_000,
        ensures
            final(self).wf(),
            go_played(*old(self), *final(self), *mv, *player, r),
    {
        if self.status != GameStatus::Playing {
            return Err(MoveError::GameOver);
        }
        if self.current_turn.to_player() != *player {
            return Err(MoveError::NotYourTurn);
        }
        if mv.pass == Some(true) {
            self.consecutive_passes = self.consecutive_passes + 1;
            self.ko_point = None;
            self.previous_board = None;
            if self.consecutive_passes >= 2 {
                self.calculate_score();
            } else {
                self.current_turn = self.current_turn.opposite();
            }
            self.move_count = self.move_count + 1;
            return Ok(());
        }
        let row64 = match mv.row {
            Some(v) => v,
            None => return Err(MoveError::InvalidRow),
        };
        let col64 = match mv.col {
            Some(v) => v,
            None => return Err(MoveError::InvalidCol),
        };
        if row64 >= self.size as u64 || col64 >= self.size as u64 {
            return Err(MoveError::OutOfBounds);
        }
        let row = row64 as usize;
        let col = col64 as usize;
        let ghost b0 = grid_view(self.board);
        let ghost n = self.size as int;
        proof {
            lemma_grid(self.board, n);
        }
        if self.board[row][col].is_some() {
            return Err(MoveError::Occupied);
        }
        if let Some((kr, kc)) = self.ko_point {
            if row == kr && col == kc {
                return Err(MoveError::Ko);
            }
        }
        let size = self.size;
        let color = self.current_turn;
        let opp = color.opposite();
        let mut trial = copy_grid(&self.board, size);
        proof {
            lemma_grid(trial, n);
        }
        trial[row][col] = Some(color);
        proof {
            assert(grid_view(trial) =~~= place(b0, row as int, col as int, color));
            lemma_grid_square(trial, n);
        }
        let ghost c0 = Capture { board: place(b0, row as int, col as int, color), total: 0, single: None };
        let mut total: u32 = 0;
        let mut single: Option<(usize, usize)> = None;
        if row > 0 {
            capture_group(&mut trial, size, row - 1, col, opp, &mut total, &mut single);
        }
        let ghost c1 = capture_at(c0, n, row - 1, col as int, opp);
        assert(Capture { board: grid_view(trial), total: total as int, single } == c1);
        if row + 1 < size {
            capture_group(&mut trial, size, row + 1, col, opp, &mut total, &mut single);
        }
        let ghost c2 = capture_at(c1, n, row + 1, col as int, opp);
        assert(Capture { board: grid_view(trial), total: total as int, single } == c2);
        if col > 0 {
            capture_group(&mut trial, size, row, col - 1, opp, &mut total, &mut single);
        }
        let ghost c3 = capture_at(c2, n, row as int, col - 1, opp);
        assert(Capture { board: grid_view(trial), total: total as int, single } == c3);
        if col + 1 < size {
            capture_group(&mut trial, size, row, col + 1, opp, &mut total, &mut single);
        }
        let ghost c4 = capture_at(c3, n, row as int, col + 1, opp);
        assert(Capture { board: grid_view(trial), total: total as int, single } == c4);
        assert(c4 == captures_of(b0, n, row as int, col as int, color));
        let ghost cs = comp(grid_view(trial), n, row as int, col as int);
        let (pm, _) = component(&trial, size, row, col);
        let libs = liberties_of(&trial, size, &pm, Ghost(cs));
        if libs == 0 {
            return Err(MoveError::Suicide);
        }
        match &self.previous_board {
            Some(prev) => {
                if total == 1 && boards_equal(&trial, prev, size) {
                    return Err(MoveError::Ko);
                }
            },
            None => {},
        }
        std::mem::swap(&mut self.board, &mut trial);
        self.previous_board = Some(trial);
        match color {
            Stone::Black => {
                self.captures_black = self.captures_black + total;
            },
            Stone::White => {
                self.captures_white = self.captures_white + total;
            },
        }
        self.ko_point = if total == 1 { single } else { None };
        self.consecutive_passes = 0;
        self.current_turn = opp;
        self.move_count = self.move_count + 1;
        Ok(())
    }

    /// The game status.
    pub fn status(&self) -> (s: GameStatus)
        ensures
            s == self.status,
    {
        self.status
    }

    /// The side to move.
    pub fn current_player(&self) -> (p: PlayerColor)
        ensures
            p == stone_player(self.current_turn),
    {
        self.current_turn.to_player()
    }
}

/// The empty points other than `ko`, in row-major order.
fn legal_points_of(g: &Grid, size: usize, ko: Option<(usize, usize)>) -> (res: Vec<(usize, usize)>)
    requires
        size <= 1000,
        square(grid_view(*g), size as int),
    ensures
        res@ == legal_points(grid_view(*g), size as int, ko),
        forall|k: int| 0 <= k < res.len() ==> on_board(size as int, (#[trigger] res@[k]).0 as int, res@[k].1 as int),
{
    let ghost b = grid_view(*g);
    let ghost n = size as int;
    let ghost f = legal_step(b, ko);
    proof {
        lemma_grid(*g, n);
    }
    let mut res: Vec<(usize, usize)> = Vec::new();
    let mut r: usize = 0;
    while r < size
        invariant
            n == size,
            b == grid_view(*g),
            f == legal_step(b, ko),
            g@.len() == n,
            forall|i: int| 0 <= i < n ==> (#[trigger] g@[i])@.len() == n && b[i] == g@[i]@,
            r <= size,
            res@ == fold_cells(n, r as int, 0, Seq::empty(), f),
            forall|k: int| 0 <= k < res.len() ==> on_board(n, (#[trigger] res@[k]).0 as int, res@[k].1 as int),
        decreases size - r,
    {
        let mut c: usize = 0;
        while c < size
            invariant
                n == size,
                b == grid_view(*g),
                f == legal_step(b, ko),
                g@.len() == n,
                forall|i: int| 0 <= i < n ==> (#[trigger] g@[i])@.len() == n && b[i] == g@[i]@,
                r < size,
                c <= size,
                res@ == fold_cells(n, r as int, c as int, Seq::empty(), f),
                forall|k: int| 0 <= k < res.len() ==> on_board(n, (#[trigger] res@[k]).0 as int, res@[k].1 as int),
            decreases size - c,
        {
            let is_ko = match ko {
                Some((kr, kc)) => r == kr && c == kc,
                None => false,
            };
            if g[r][c].is_none() && !is_ko {
                res.push((r, c));
            }
            c = c + 1;
        }
        assert(fold_cells(n, r + 1, 0, Seq::empty(), f) == fold_cells(n, r as int, n, Seq::empty(), f));
        r = r + 1;
    }
    res
}

/// The size and the number of liberties of the group of `opp` at (nr, nc),
/// or zeros when (nr, nc) holds no stone of `opp`; and whether that group
/// has no liberty.
fn neighbor_effect(t: &Grid, size: usize, nr: usize, nc: usize, opp: Stone) -> (res: (usize, usize, bool))
    requires
        size <= 1000,
        square(grid_view(*t), size as int),
        on_board(size as int, nr as int, nc as int),
    ensures
        res.0 == dead_size(grid_view(*t), size as int, nr as int, nc as int, opp),
        res.1 == atari_size(grid_view(*t), size as int, nr as int, nc as int, opp),
        res.2 == (grid_view(*t)[nr as int][nc as int] == Some(opp) && liberties(
            grid_view(*t),
            size as int,
            comp(grid_view(*t), size as int, nr as int, nc as int),
        ) == 0),
        res.0 <= 1000000,
        res.1 <= 1000000,
{
    let ghost b = grid_view(*t);
    let ghost n = size as int;
    proof {
        lemma_grid(*t, n);
    }
    if t[nr][nc] == Some(opp) {
        let ghost cs = comp(b, n, nr as int, nc as int);
        let (m, count) = component(t, size, nr, nc);
        let libs = liberties_of(t, size, &m, Ghost(cs));
        proof {
            lemma_marked_count_bounded(grid_bools(m), n);
            assert(n * n <= 1000000) by (nonlinear_arith)
                requires
                    0 <= n <= 1000,
            ;
        }
        if libs == 0 {
            (count, 0, true)
        } else if libs == 1 {
            (0, count, false)
        } else {
            (0, 0, false)
        }
    } else {
        (0, 0, false)
    }
}

/// The board with a stone of `color` at (r, c).
fn placed_copy(g: &Grid, size: usize, r: usize, c: usize, color: Stone) -> (t: Grid)
    requires
        size <= 1000,
        square(grid_view(*g), size as int),
        on_board(size as int, r as int, c as int),
    ensures
        square(grid_view(t), size as int),
        grid_view(t) == place(grid_view(*g), r as int, c as int, color),
{
    let ghost b = grid_view(*g);
    let ghost n = size as int;
    let mut t = copy_grid(g, size);
    proof {
        lemma_grid(t, n);
    }
    t[r][c] = Some(color);
    proof {
        assert(grid_view(t) =~~= place(b, r as int, c as int, color));
        lemma_grid_square(t, n);
    }
    t
}

/// Over the four neighbours of (r, c): the stones of the `opp` groups left
/// without liberties, the stones of those left with one, and whether any
/// is left without.
fn around(t: &Grid, size: usize, r: usize, c: usize, opp: Stone) -> (res: (usize, usize, bool))
    requires
        size <= 1000,
        square(grid_view(*t), size as int),
        on_board(size as int, r as int, c as int),
    ensures
        ({
            let tb = grid_view(*t);
            let n = size as int;
            let (ri, ci) = (r as int, c as int);
            &&& res.0 == dead_size(tb, n, ri - 1, ci, opp) + dead_size(tb, n, ri + 1, ci, opp) + dead_size(tb, n, ri, ci - 1, opp)
                + dead_size(tb, n, ri, ci + 1, opp)
            &&& res.1 == atari_size(tb, n, ri - 1, ci, opp) + atari_size(tb, n, ri + 1, ci, opp) + atari_size(tb, n, ri, ci - 1, opp)
                + atari_size(tb, n, ri, ci + 1, opp)
            &&& res.2 == ((on_board(n, ri - 1, ci) && tb[ri - 1][ci] == Some(opp) && liberties(tb, n, comp(tb, n, ri - 1, ci)) == 0)
                || (on_board(n, ri + 1, ci) && tb[ri + 1][ci] == Some(opp) && liberties(tb, n, comp(tb, n, ri + 1, ci)) == 0)
                || (on_board(n, ri, ci - 1) && tb[ri][ci - 1] == Some(opp) && liberties(tb, n, comp(tb, n, ri, ci - 1)) == 0)
                || (on_board(n, ri, ci + 1) && tb[ri][ci + 1] == Some(opp) && liberties(tb, n, comp(tb, n, ri, ci + 1)) == 0))
            &&& res.0 <= 4000000
            &&& res.1 <= 4000000
        }),
{
    let (d1, a1, k1) = if r > 0 { neighbor_effect(t, size, r - 1, c, opp) } else { (0, 0, false) };
    let (d2, a2, k2) = if r + 1 < size { neighbor_effect(t, size, r + 1, c, opp) } else { (0, 0, false) };
    let (d3, a3, k3) = if c > 0 { neighbor_effect(t, size, r, c - 1, opp) } else { (0, 0, false) };
    let (d4, a4, k4) = if c + 1 < size { neighbor_effect(t, size, r, c + 1, opp) } else { (0, 0, false) };
    (d1 + d2 + d3 + d4, a1 + a2 + a3 + a4, k1 || k2 || k3 || k4)
}

/// The liberties of the group at (r, c).
fn group_liberties(t: &Grid, size: usize, r: usize, c: usize) -> (k: usize)
    requires
        size <= 1000,
        square(grid_view(*t), size as int),
        on_board(size as int, r as int, c as int),
    ensures
        k == liberties(grid_view(*t), size as int, comp(grid_view(*t), size as int, r as int, c as int)),
        k <= 1000000,
{
    let ghost tb = grid_view(*t);
    let ghost n = size as int;
    let ghost cs = comp(tb, n, r as int, c as int);
    let (m, _) = component(t, size, r, c);
    let k = liberties_of(t, size, &m, Ghost(cs));
    proof {
        lemma_fold_cells_unit(n, n, 0, lib_step(tb, cs));
        assert(n * n <= 1000000) by (nonlinear_arith)
            requires
                0 <= n <= 1000,
        ;
    }
    k
}

/// Half the closeness of (r, c) to the centre.
fn position_bonus(size: usize, r: usize, c: usize) -> (v: usize)
    requires
        size <= 1000,
        on_board(size as int, r as int, c as int),
    ensures
        v == (size - (abs_diff(r as int, size as int / 2) + abs_diff(c as int, size as int / 2))) / 2,
        v <= 1000,
{
    let center = size / 2;
    let dr = if r >= center { r - center } else { center - r };
    let dc = if c >= center { c - center } else { center - c };
    (size - (dr + dc)) / 2
}

/// Whether a stone of `color` at (r, c) is allowed (it keeps a liberty or
/// takes a group), and its `move_score`.
fn evaluate_point(g: &Grid, size: usize, r: usize, c: usize, color: Stone) -> (res: (bool, i32))
    requires
        size <= 1000,
        square(grid_view(*g), size as int),
        on_board(size as int, r as int, c as int),
    ensures
        res.0 == allowed(grid_view(*g), size as int, r as int, c as int, color),
        res.1 == move_score(grid_view(*g), size as int, r as int, c as int, color),
{
    let t = placed_copy(g, size, r, c, color);
    let opp = color.opposite();
    let (captures, atari, kills) = around(&t, size, r, c, opp);
    let own = group_liberties(&t, size, r, c);
    let bonus = position_bonus(size, r, c);
    let penalty: i32 = if own == 0 { 1000 } else { 0 };
    let score = captures as i32 * 50 + atari as i32 * 20 + own as i32 * 10 + bonus as i32 - penalty;
    (own != 0 || kills, score)
}

proof fn lemma_scored_on_board(b: GoBoard, n: int, ps: Seq<(usize, usize)>, color: Stone)
    requires
        forall|k: int| 0 <= k < ps.len() ==> on_board(n, (#[trigger] ps[k]).0 as int, ps[k].1 as int),
    ensures
        forall|k: int|
            0 <= k < scored_points(b, n, ps, color).len() ==> on_board(
                n,
                (#[trigger] scored_points(b, n, ps, color)[k]).1 as int,
                scored_points(b, n, ps, color)[k].2 as int,
            ),
    decreases ps.len(),
{
    if ps.len() > 0 {
        assert forall|k: int| 0 <= k < ps.drop_last().len() implies on_board(n, (#[trigger] ps.drop_last()[k]).0 as int, ps.drop_last()[k].1 as int) by {
            assert(ps.drop_last()[k] == ps[k]);
        }
        lemma_scored_on_board(b, n, ps.drop_last(), color);
        assert(on_board(n, ps[ps.len() - 1].0 as int, ps[ps.len() - 1].1 as int));
        let prev = scored_points(b, n, ps.drop_last(), color);
        let res = scored_points(b, n, ps, color);
        assert forall|k: int| 0 <= k < res.len() implies on_board(n, (#[trigger] res[k]).1 as int, res[k].2 as int) by {
            if k < prev.len() {
                assert(res[k] == prev[k]);
            }
        }
    }
}

proof fn lemma_cands_on_board(b: GoBoard, n: int, ps: Seq<(usize, usize)>, color: Stone, limit: int)
    requires
        forall|k: int| 0 <= k < ps.len() ==> on_board(n, (#[trigger] ps[k]).0 as int, ps[k].1 as int),
        0 <= limit,
    ensures
        forall|i: int|
            0 <= i < top(sort_desc(scored_points(b, n, ps, color)), limit).len() ==> on_board(
                n,
                (#[trigger] top(sort_desc(scored_points(b, n, ps, color)), limit)[i]).1 as int,
                top(sort_desc(scored_points(b, n, ps, color)), limit)[i].2 as int,
            ),
{
    let sc = scored_points(b, n, ps, color);
    let sorted = sort_desc(sc);
    let t = top(sorted, limit);
    lemma_scored_on_board(b, n, ps, color);
    assert forall|i: int| 0 <= i < t.len() implies on_board(n, (#[trigger] t[i]).1 as int, t[i].2 as int) by {
        let m = t[i];
        lemma_sort_desc_members(sc, m);
        assert(sorted[i] == m);
        assert(sorted.contains(m));
        let j = choose|j: int| 0 <= j < sc.len() && sc[j] == m;
        assert(sc[j] == m);
    }
}

/// A stone at (r, c) as a computer player sends it.
fn go_point(r: usize, c: usize) -> (mv: MovePayload)
    ensures
        is_go_point(mv, r as int, c as int),
{
    MovePayload {
        from_row: None,
        from_col: None,
        to_row: None,
        to_col: None,
        row: Some(r as u64),
        col: Some(c as u64),
        pass: Some(false),
        promotion: None,
    }
}

/// A pass as a computer player sends it.
fn go_pass() -> (mv: MovePayload)
    ensures
        is_go_pass(mv),
{
    MovePayload {
        from_row: None,
        from_col: None,
        to_row: None,
        to_col: None,
        row: Some(0),
        col: Some(0),
        pass: Some(true),
        promotion: None,
    }
}

/// The greatest score of a stone of `color` on the points of `ps`, or zero
/// when there are none.
fn best_reply_score(g: &Grid, size: usize, ps: &Vec<(usize, usize)>, color: Stone) -> (v: i32)
    requires
        size <= 1000,
        square(grid_view(*g), size as int),
        forall|k: int| 0 <= k < ps.len() ==> on_board(size as int, (#[trigger] ps@[k]).0 as int, ps@[k].1 as int),
    ensures
        v == (match max_score(grid_view(*g), size as int, ps@, color) {
            Some(m) => m,
            None => 0,
        }),
{
    let ghost b = grid_view(*g);
    let ghost n = size as int;
    let mut best: Option<i32> = None;
    let mut i: usize = 0;
    while i < ps.len()
        invariant
            size <= 1000,
            n == size,
            b == grid_view(*g),
            square(b, n),
            i <= ps.len(),
            forall|k: int| 0 <= k < ps.len() ==> on_board(n, (#[trigger] ps@[k]).0 as int, ps@[k].1 as int),
            best is None <==> max_score(b, n, ps@.take(i as int), color) is None,
            best matches Some(v) ==> max_score(b, n, ps@.take(i as int), color) == Some(v as int),
        decreases ps.len() - i,
    {
        let (r, c) = ps[i];
        proof {
            assert(on_board(n, ps@[i as int].0 as int, ps@[i as int].1 as int));
            assert(ps@.take(i + 1).drop_last() =~= ps@.take(i as int));
            assert(ps@.take(i + 1).last() == ps@[i as int]);
        }
        let (_, v) = evaluate_point(g, size, r, c, color);
        best = match best {
            Some(m) => Some(if v >= m { v } else { m }),
            None => Some(v),
        };
        i = i + 1;
    }
    assert(ps@.take(ps.len() as int) =~= ps@);
    match best {
        Some(m) => m,
        None => 0,
    }
}

impl GoGame {
    /// The easy player: a legal point picked by the move count, or a pass.
    fn ai_go_random(&self) -> (res: Option<MovePayload>)
        requires
            self.wf(),
        ensures
            res matches Some(mv) && go_random_choice(self.state(), mv),
    {
        let positions = legal_points_of(&self.board, self.size, self.ko_point);
        if positions.len() == 0 {
            return Some(go_pass());
        }
        let idx = (self.move_count as u64 * 7919 + 17) % (positions.len() as u64);
        let (r, c) = positions[idx as usize];
        Some(go_point(r, c))
    }

    /// The normal player: the first allowed legal point of greatest score,
    /// or a pass.
    fn ai_go_heuristic(&self, color: Stone) -> (res: Option<MovePayload>)
        requires
            self.wf(),
        ensures
            res matches Some(mv) && go_heuristic_choice(self.state(), color, mv),
    {
        let ghost b = grid_view(self.board);
        let ghost n = self.size as int;
        let positions = legal_points_of(&self.board, self.size, self.ko_point);
        let mut best: Option<(i32, usize, usize)> = None;
        let mut i: usize = 0;
        while i < positions.len()
            invariant
                self.wf(),
                n == self.size,
                b == grid_view(self.board),
                i <= positions.len(),
                positions@ == legal_positions(self.state()),
                forall|k: int| 0 <= k < positions.len() ==> on_board(n, (#[trigger] positions@[k]).0 as int, positions@[k].1 as int),
                best is None <==> heuristic_pick(b, n, positions@.take(i as int), color) is None,
                best matches Some(t) ==> heuristic_pick(b, n, positions@.take(i as int), color) == Some((t.0 as int, t.1, t.2)),
            decreases positions.len() - i,
        {
            let (r, c) = positions[i];
            proof {
                assert(on_board(n, positions@[i as int].0 as int, positions@[i as int].1 as int));
                assert(positions@.take(i + 1).drop_last() =~= positions@.take(i as int));
                assert(positions@.take(i + 1).last() == positions@[i as int]);
            }
            let (ok, score) = evaluate_point(&self.board, self.size, r, c, color);
            if ok {
                match best {
                    Some(t) => {
                        if score > t.0 {
                            best = Some((score, r, c));
                        }
                    },
                    None => {
                        best = Some((score, r, c));
                    },
                }
            }
            i = i + 1;
        }
        assert(positions@.take(positions.len() as int) =~= positions@);
        match best {
            Some((_, r, c)) => Some(go_point(r, c)),
            None => Some(go_pass()),
        }
    }

    /// The allowed points of `ps`, in order, each with its score.
    fn scored_candidates(&self, ps: &Vec<(usize, usize)>, color: Stone) -> (res: Vec<(i32, usize, usize)>)
        requires
            self.wf(),
            forall|k: int| 0 <= k < ps.len() ==> on_board(self.size as int, (#[trigger] ps@[k]).0 as int, ps@[k].1 as int),
        ensures
            res@ == scored_points(grid_view(self.board), self.size as int, ps@, color),
    {
        let ghost b = grid_view(self.board);
        let ghost n = self.size as int;
        let mut res: Vec<(i32, usize, usize)> = Vec::new();
        let mut i: usize = 0;
        while i < ps.len()
            invariant
                self.wf(),
                n == self.size,
                b == grid_view(self.board),
                i <= ps.len(),
                forall|k: int| 0 <= k < ps.len() ==> on_board(n, (#[trigger] ps@[k]).0 as int, ps@[k].1 as int),
                res@ == scored_points(b, n, ps@.take(i as int), color),
            decreases ps.len() - i,
        {
            let (r, c) = ps[i];
            proof {
                assert(on_board(n, ps@[i as int].0 as int, ps@[i as int].1 as int));
                assert(ps@.take(i + 1).drop_last() =~= ps@.take(i as int));
                assert(ps@.take(i + 1).last() == ps@[i as int]);
            }
            let (ok, score) = evaluate_point(&self.board, self.size, r, c, color);
            if ok {
                res.push((score, r, c));
            }
            i = i + 1;
        }
        assert(ps@.take(ps.len() as int) =~= ps@);
        res
    }

    /// The hard player: of the twenty best-scored allowed legal points, the
    /// first whose score less half the opponent's best reply is greatest;
    /// a pass when there is none.
    fn ai_go_hard(&self, color: Stone) -> (res: Option<MovePayload>)
        requires
            self.wf(),
        ensures
            res matches Some(mv) && go_lookahead_choice(self.state(), color, mv),
    {
        let ghost st = self.state();
        let ghost b = grid_view(self.board);
        let ghost n = self.size as int;
        let positions = legal_points_of(&self.board, self.size, self.ko_point);
        let scored = self.scored_candidates(&positions, color);
        let mut cands = sort_by_score(&scored);
        cands.truncate(20);
        proof {
            assert(cands@ =~= top(sort_desc(scored@), 20));
            lemma_cands_on_board(b, n, positions@, color, 20);
        }
        let opp = color.opposite();
        let mut best: Option<(i64, usize, usize)> = None;
        let mut i: usize = 0;
        while i < cands.len()
            invariant
                self.wf(),
                st == self.state(),
                n == self.size,
                b == grid_view(self.board),
                opp == other_stone(color),
                i <= cands.len(),
                cands@ == top(sort_desc(scored_points(b, n, legal_positions(st), color)), 20),
                forall|k: int| 0 <= k < cands.len() ==> on_board(n, (#[trigger] cands@[k]).1 as int, cands@[k].2 as int),
                best is None <==> lookahead_pick(st, cands@.take(i as int), color) is None,
                best matches Some(t) ==> lookahead_pick(st, cands@.take(i as int), color) == Some((t.0 as int, t.1, t.2)),
            decreases cands.len() - i,
        {
            let (base, r, c) = cands[i];
            proof {
                assert(on_board(n, cands@[i as int].1 as int, cands@[i as int].2 as int));
                assert(cands@.take(i + 1).drop_last() =~= cands@.take(i as int));
                assert(cands@.take(i + 1).last() == cands@[i as int]);
            }
            let test = placed_copy(&self.board, self.size, r, c, color);
            let replies = legal_points_of(&test, self.size, self.ko_point);
            let opp_score = best_reply_score(&test, self.size, &replies, opp) as i64;
            let half = if opp_score >= 0 { opp_score / 2 } else { -((-opp_score) / 2) };
            let net = base as i64 - half;
            proof {
                assert(legal_positions(GoState { board: place(b, r as int, c as int, color), ..st }) == replies@);
                assert(net == net_value(st, cands@[i as int], color));
            }
            match best {
                Some(t) => {
                    if net > t.0 {
                        best = Some((net, r, c));
                    }
                },
                None => {
                    best = Some((net, r, c));
                },
            }
            i = i + 1;
        }
        assert(cands@.take(cands.len() as int) =~= cands@);
        match best {
            Some((_, r, c)) => Some(go_point(r, c)),
            None => Some(go_pass()),
        }
    }

    /// The computer's move for the side to play: easy picks a legal point
    /// by the move count, normal the best-scored point, hard looks one reply
    /// ahead.
    pub fn get_ai_move(&self, difficulty: AiDifficulty) -> (res: Option<MovePayload>)
        requires
            self.wf(),
        ensures
            go_ai_choice(*self, difficulty, res),
    {
        let color = self.current_turn;
        match difficulty {
            AiDifficulty::Easy => self.ai_go_random(),
            AiDifficulty::Normal => self.ai_go_heuristic(color),
            AiDifficulty::Hard => self.ai_go_hard(color),
        }
    }
}

proof fn lemma_count_zero(m: Seq<Seq<bool>>, n: int, r: int, c: int)
    requires
        square_bools(m, n),
        forall|i: int, j: int| on_board(n, i, j) ==> !#[trigger] m[i][j],
        0 <= r <= n,
        0 <= c <= n,
        r < n || c == 0,
    ensures
        fold_cells(n, r, c, 0int, count_step(m)) == 0,
    decreases r, c,
{
    if c == 0 {
        if r > 0 {
            lemma_count_zero(m, n, r - 1, n);
            assert(fold_cells(n, r, c, 0int, count_step(m)) == fold_cells(n, r - 1, n, 0int, count_step(m)));
        }
    } else {
        lemma_count_zero(m, n, r, c - 1);
        assert(!m[r][c - 1]);
        assert(fold_cells(n, r, c, 0int, count_step(m)) == fold_cells(n, r, c - 1, 0int, count_step(m)) + (if m[r][c
            - 1] {
            1int
        } else {
            0int
        }));
    }
}

/// What a call of `make_move` on `g0` does: `g1` is the game after it and
/// `r` its result.
pub open spec fn go_played(g0: GoGame, g1: GoGame, mv: MovePayload, player: PlayerColor, r: Result<(), MoveError>) -> bool {
    match r {
        Err(e) => go_move_error(g0.state(), mv, player) == Some(e) && g1 == g0,
        Ok(()) => go_move_error(g0.state(), mv, player) is None && g1.state() == go_after(
            g0.state(),
            mv,
        ),
    }
}

/// What `get_ai_move` answers for `g` at `difficulty`.
pub open spec fn go_ai_choice(g: GoGame, difficulty: AiDifficulty, r: Option<MovePayload>) -> bool {
    &&& (difficulty == AiDifficulty::Easy ==> (r matches Some(mv) && go_random_choice(g.state(), mv)))
    &&& (difficulty == AiDifficulty::Normal ==> (r matches Some(mv) && go_heuristic_choice(
        g.state(),
        g.current_turn,
        mv,
    )))
    &&& (difficulty == AiDifficulty::Hard ==> (r matches Some(mv) && go_lookahead_choice(
        g.state(),
        g.current_turn,
        mv,
    )))
}

/// Every point of a component lies on the board and holds what its start
/// holds.
pub proof fn comp_members_match(b: GoBoard, n: int, r: int, c: int)
    requires
        on_board(n, r, c),
    ensures
        forall|q: (int, int)| #[trigger] comp(b, n, r, c).contains(q) ==> on_board(n, q.0, q.1) && b[q.0][q.1] == b[r][c],
{
    let v = b[r][c];
    let same = Set::new(|q: (int, int)| on_board(n, q.0, q.1) && b[q.0][q.1] == v);
    assert(comp_closed(b, n, same, v));
    assert(same.contains((r, c)));
    assert forall|q: (int, int)| #[trigger] comp(b, n, r, c).contains(q) implies on_board(n, q.0, q.1) && b[q.0][q.1] == v by {
        assert(same.contains(q));
    }
}

proof fn lemma_capture_keeps(cs: Capture, n: int, nr: int, nc: int, opp: Stone, r: int, c: int, color: Stone)
    requires
        square(cs.board, n),
        on_board(n, r, c),
        cs.board[r][c] == Some(color),
        color != opp,
    ensures
        square(capture_at(cs, n, nr, nc, opp).board, n),
        capture_at(cs, n, nr, nc, opp).board[r][c] == Some(color),
{
    if on_board(n, nr, nc) && cs.board[nr][nc] == Some(opp) {
        let g = comp(cs.board, n, nr, nc);
        comp_members_match(cs.board, n, nr, nc);
        assert(!g.contains((r, c)));
        let rb = remove_set(cs.board, g);
        assert(square(rb, n));
    }
}

/// A stone that the rules let a player place stays on the board: captures
/// take opposing stones only.
pub proof fn placed_stone_stays(s: GoState, mv: MovePayload, player: PlayerColor)
    requires
        go_move_error(s, mv, player) is None,
        mv.pass != Some(true),
        square(s.board, s.size),
    ensures
        go_after(s, mv).board[mv.row->0 as int][mv.col->0 as int] == Some(s.turn),
        square(go_after(s, mv).board, s.size),
{
    let r = mv.row->0 as int;
    let c = mv.col->0 as int;
    let n = s.size;
    let opp = other_stone(s.turn);
    let c0 = Capture { board: place(s.board, r, c, s.turn), total: 0, single: None };
    assert(square(c0.board, n));
    let c1 = capture_at(c0, n, r - 1, c, opp);
    lemma_capture_keeps(c0, n, r - 1, c, opp, r, c, s.turn);
    let c2 = capture_at(c1, n, r + 1, c, opp);
    lemma_capture_keeps(c1, n, r + 1, c, opp, r, c, s.turn);
    let c3 = capture_at(c2, n, r, c - 1, opp);
    lemma_capture_keeps(c2, n, r, c - 1, opp, r, c, s.turn);
    lemma_capture_keeps(c3, n, r, c + 1, opp, r, c, s.turn);
}

/// A second pass in a row ends the game, scored by area.
pub proof fn second_pass_ends_game(s: GoState, mv: MovePayload, player: PlayerColor)
    requires
        go_move_error(s, mv, player) is None,
        mv.pass == Some(true),
        s.consecutive_passes >= 1,
    ensures
        go_after(s, mv).status != GameStatus::Playing,
        go_after(s, mv).status == (if go_after(s, mv).black_area >= go_after(s, mv).white_area + 7 {
            GameStatus::BlackWon
        } else {
            GameStatus::WhiteWon
        }),
{
}

/// The point of a stone just taken alone cannot be played at once (ko).
pub proof fn ko_point_is_refused(s: GoState, mv: MovePayload, player: PlayerColor)
    requires
        s.status == GameStatus::Playing,
        stone_player(s.turn) == player,
        mv.pass != Some(true),
        mv.row matches Some(r) && r < s.size,
        mv.col matches Some(c) && c < s.size,
        s.board[mv.row->0 as int][mv.col->0 as int] is None,
        s.ko_point == Some((mv.row->0 as usize, mv.col->0 as usize)),
    ensures
        go_move_error(s, mv, player) == Some(MoveError::Ko),
{
}

/// Some empty point of the board is next to a point of `s`.
pub open spec fn has_liberty(b: GoBoard, n: int, s: Set<(int, int)>) -> bool {
    exists|i: int, j: int| on_board(n, i, j) && b[i][j] is None && #[trigger] touches(s, i, j)
}

/// Every group of stones on the board has a liberty.
pub open spec fn groups_breathe(b: GoBoard, n: int) -> bool {
    forall|i: int, j: int| on_board(n, i, j) && b[i][j] is Some ==> liberties(b, n, #[trigger] comp(b, n, i, j)) > 0
}

proof fn lemma_lib_fold(b: GoBoard, n: int, s: Set<(int, int)>, r: int, c: int)
    requires
        0 <= r,
        0 <= c <= n,
    ensures
        fold_cells(n, r, c, 0int, lib_step(b, s)) >= 0,
        fold_cells(n, r, c, 0int, lib_step(b, s)) > 0 <==> exists|i: int, j: int|
            (0 <= i < r && 0 <= j < n || i == r && 0 <= j < c) && b[i][j] is None && #[trigger] touches(s, i, j),
    decreases r, c,
{
    if c == 0 {
        if r > 0 {
            lemma_lib_fold(b, n, s, r - 1, n);
        }
    } else {
        lemma_lib_fold(b, n, s, r, c - 1);
        if b[r][c - 1] is None && touches(s, r, c - 1) {
            assert(0 <= r && 0 <= c - 1 < c);
        }
    }
}

/// A set has liberties exactly when some empty point is next to it.
proof fn lemma_liberties_exist(b: GoBoard, n: int, s: Set<(int, int)>)
    requires
        0 <= n,
    ensures
        liberties(b, n, s) > 0 <==> has_liberty(b, n, s),
{
    lemma_lib_fold(b, n, s, n, 0);
}

/// The component of a point holds the point and is closed.
proof fn lemma_comp_basics(b: GoBoard, n: int, r: int, c: int)
    ensures
        comp(b, n, r, c).contains((r, c)),
        comp_closed(b, n, comp(b, n, r, c), b[r][c]),
{
    let g = comp(b, n, r, c);
    assert forall|p: (int, int), q: (int, int)|
        #[trigger] g.contains(p) && adjacent(p, q) && on_board(n, q.0, q.1) && b[q.0][q.1] == b[r][c] implies #[trigger] g.contains(
        q,
    ) by {
        assert forall|t: Set<(int, int)>| #[trigger] comp_closed(b, n, t, b[r][c]) && t.contains((r, c)) implies t.contains(q) by {
            assert(t.contains(p));
        }
    }
}

/// The component of a point lies in every closed set that holds the point.
proof fn lemma_comp_least(b: GoBoard, n: int, r: int, c: int, t: Set<(int, int)>)
    requires
        comp_closed(b, n, t, b[r][c]),
        t.contains((r, c)),
    ensures
        forall|q: (int, int)| #[trigger] comp(b, n, r, c).contains(q) ==> t.contains(q),
{
}

/// Going from `b` to `b2` only takes stones of `opp` away, and takes whole
/// groups: a stone of `opp` that stays keeps its neighbours of `opp`.
spec fn keeps_groups(b: GoBoard, b2: GoBoard, n: int, opp: Stone) -> bool {
    &&& forall|i: int, j: int|
        on_board(n, i, j) ==> (#[trigger] b2[i][j] == b[i][j] || (b[i][j] == Some(opp) && b2[i][j] is None))
    &&& forall|p: (int, int), x: (int, int)|
        #![trigger b2[p.0][p.1], b[x.0][x.1]]
        on_board(n, p.0, p.1) && on_board(n, x.0, x.1) && adjacent(p, x) && b2[p.0][p.1] == Some(opp) && b[x.0][x.1]
            == Some(opp) ==> b2[x.0][x.1] == Some(opp)
}

proof fn lemma_keeps_trans(b: GoBoard, b1: GoBoard, b2: GoBoard, n: int, opp: Stone)
    requires
        keeps_groups(b, b1, n, opp),
        keeps_groups(b1, b2, n, opp),
    ensures
        keeps_groups(b, b2, n, opp),
{
    assert forall|i: int, j: int| on_board(n, i, j) implies (#[trigger] b2[i][j] == b[i][j] || (b[i][j] == Some(opp)
        && b2[i][j] is None)) by {
        assert(b1[i][j] == b[i][j] || (b[i][j] == Some(opp) && b1[i][j] is None));
        assert(b2[i][j] == b1[i][j] || (b1[i][j] == Some(opp) && b2[i][j] is None));
    }
    assert forall|p: (int, int), x: (int, int)|
        on_board(n, p.0, p.1) && on_board(n, x.0, x.1) && adjacent(p, x) && #[trigger] b2[p.0][p.1] == Some(opp)
            && #[trigger] b[x.0][x.1] == Some(opp) implies b2[x.0][x.1] == Some(opp) by {
        assert(b2[p.0][p.1] == b1[p.0][p.1] || (b1[p.0][p.1] == Some(opp) && b2[p.0][p.1] is None));
        assert(b1[p.0][p.1] == Some(opp));
        assert(b1[x.0][x.1] == Some(opp));
    }
}

/// One capture keeps the board square and takes a whole group of `opp`,
/// and only one left without liberties.
proof fn lemma_capture_step(cs: Capture, n: int, nr: int, nc: int, opp: Stone)
    requires
        square(cs.board, n),
    ensures
        square(capture_at(cs, n, nr, nc, opp).board, n),
        keeps_groups(cs.board, capture_at(cs, n, nr, nc, opp).board, n, opp),
        on_board(n, nr, nc) && cs.board[nr][nc] == Some(opp) && capture_at(cs, n, nr, nc, opp).board[nr][nc] == Some(
            opp,
        ) ==> liberties(cs.board, n, comp(cs.board, n, nr, nc)) > 0,
{
    let b = cs.board;
    let b2 = capture_at(cs, n, nr, nc, opp).board;
    if on_board(n, nr, nc) && b[nr][nc] == Some(opp) {
        let g = comp(b, n, nr, nc);
        lemma_comp_basics(b, n, nr, nc);
        comp_members_match(b, n, nr, nc);
        lemma_lib_fold(b, n, g, n, 0);
        if liberties(b, n, g) == 0 {
            assert(b2 == remove_set(b, g));
            assert(square(b2, n));
            assert(b2[nr][nc] is None);
            assert forall|i: int, j: int| on_board(n, i, j) implies (#[trigger] b2[i][j] == b[i][j] || (b[i][j] == Some(
                opp,
            ) && b2[i][j] is None)) by {
                if g.contains((i, j)) {
                    assert(b[i][j] == Some(opp));
                }
            }
            assert forall|p: (int, int), x: (int, int)|
                on_board(n, p.0, p.1) && on_board(n, x.0, x.1) && adjacent(p, x) && #[trigger] b2[p.0][p.1] == Some(opp)
                    && #[trigger] b[x.0][x.1] == Some(opp) implies b2[x.0][x.1] == Some(opp) by {
                assert(!g.contains(p));
                if g.contains(x) {
                    assert(adjacent(x, p));
                    assert(b[p.0][p.1] == Some(opp));
                    assert(g.contains(p));
                }
            }
        }
    }
}

/// A stone of `opp` that `b2` keeps from `b` has in `b2` at least the group
/// it had in `b`.
proof fn lemma_group_grows(b: GoBoard, b2: GoBoard, n: int, opp: Stone, i: int, j: int)
    requires
        keeps_groups(b, b2, n, opp),
        on_board(n, i, j),
        b2[i][j] == Some(opp),
    ensures
        b[i][j] == Some(opp),
        forall|q: (int, int)| #[trigger] comp(b, n, i, j).contains(q) ==> comp(b2, n, i, j).contains(q),
{
    let g2 = comp(b2, n, i, j);
    lemma_comp_basics(b2, n, i, j);
    comp_members_match(b2, n, i, j);
    assert(b2[i][j] == b[i][j] || (b[i][j] == Some(opp) && b2[i][j] is None));
    assert forall|p: (int, int), x: (int, int)|
        #[trigger] g2.contains(p) && adjacent(p, x) && on_board(n, x.0, x.1) && b[x.0][x.1] == b[i][j] implies #[trigger] g2.contains(
        x,
    ) by {
        assert(on_board(n, p.0, p.1) && b2[p.0][p.1] == Some(opp));
        assert(b2[x.0][x.1] == Some(opp));
    }
    lemma_comp_least(b, n, i, j, g2);
}

/// A group of `opp` that keeps the neighbour `x` of the new stone past
/// the capture that looked at `x` (from `bk` to `bk1`) has a liberty at the
/// end.
proof fn lemma_neighbour_group(bk: GoBoard, bk1: GoBoard, b4: GoBoard, n: int, opp: Stone, x: (int, int), i: int, j: int)
    requires
        0 <= n,
        keeps_groups(bk, bk1, n, opp),
        keeps_groups(bk1, b4, n, opp),
        bk[x.0][x.1] == Some(opp) && bk1[x.0][x.1] == Some(opp) ==> liberties(bk, n, comp(bk, n, x.0, x.1)) > 0,
        on_board(n, x.0, x.1),
        on_board(n, i, j),
        b4[i][j] == Some(opp),
        comp(b4, n, i, j).contains(x),
    ensures
        has_liberty(b4, n, comp(b4, n, i, j)),
{
    let g4 = comp(b4, n, i, j);
    lemma_keeps_trans(bk, bk1, b4, n, opp);
    comp_members_match(b4, n, i, j);
    assert(b4[x.0][x.1] == Some(opp));
    assert(bk1[x.0][x.1] == b4[x.0][x.1] || (bk1[x.0][x.1] == Some(opp) && b4[x.0][x.1] is None));
    assert(bk[x.0][x.1] == bk1[x.0][x.1] || (bk[x.0][x.1] == Some(opp) && bk1[x.0][x.1] is None));
    let gk = comp(bk, n, x.0, x.1);
    lemma_liberties_exist(bk, n, gk);
    let (ei, ej) = choose|ei: int, ej: int| on_board(n, ei, ej) && bk[ei][ej] is None && #[trigger] touches(gk, ei, ej);
    lemma_group_grows(bk, b4, n, opp, x.0, x.1);
    lemma_comp_basics(b4, n, i, j);
    lemma_comp_least(b4, n, x.0, x.1, g4);
    assert(b4[ei][ej] == bk[ei][ej] || (bk[ei][ej] == Some(opp) && b4[ei][ej] is None));
    assert(touches(g4, ei, ej));
}

/// After the new stone at (r, c) and its captures, turning `b` into `b4`,
/// the group of each stone on the board has a liberty.
proof fn lemma_stone_breathes(
    b: GoBoard,
    n: int,
    r: int,
    c: int,
    color: Stone,
    c0: Capture,
    c1: Capture,
    c2: Capture,
    c3: Capture,
    b4: GoBoard,
    i: int,
    j: int,
)
    requires
        0 <= n,
        square(b, n),
        groups_breathe(b, n),
        on_board(n, r, c),
        b[r][c] is None,
        c0.board == place(b, r, c, color),
        square(c0.board, n),
        keeps_groups(c0.board, c1.board, n, other_stone(color)),
        keeps_groups(c1.board, c2.board, n, other_stone(color)),
        keeps_groups(c2.board, c3.board, n, other_stone(color)),
        keeps_groups(c3.board, b4, n, other_stone(color)),
        on_board(n, r - 1, c) && c0.board[r - 1][c] == Some(other_stone(color)) && c1.board[r - 1][c] == Some(
            other_stone(color),
        ) ==> liberties(c0.board, n, comp(c0.board, n, r - 1, c)) > 0,
        on_board(n, r + 1, c) && c1.board[r + 1][c] == Some(other_stone(color)) && c2.board[r + 1][c] == Some(
            other_stone(color),
        ) ==> liberties(c1.board, n, comp(c1.board, n, r + 1, c)) > 0,
        on_board(n, r, c - 1) && c2.board[r][c - 1] == Some(other_stone(color)) && c3.board[r][c - 1] == Some(
            other_stone(color),
        ) ==> liberties(c2.board, n, comp(c2.board, n, r, c - 1)) > 0,
        on_board(n, r, c + 1) && c3.board[r][c + 1] == Some(other_stone(color)) && b4[r][c + 1] == Some(
            other_stone(color),
        ) ==> liberties(c3.board, n, comp(c3.board, n, r, c + 1)) > 0,
        liberties(b4, n, comp(b4, n, r, c)) > 0,
        on_board(n, i, j),
        b4[i][j] is Some,
    ensures
        has_liberty(b4, n, comp(b4, n, i, j)),
{
    let opp = other_stone(color);
    let p0 = c0.board;
    let g4 = comp(b4, n, i, j);
    lemma_keeps_trans(c2.board, c3.board, b4, n, opp);
    lemma_keeps_trans(c1.board, c2.board, b4, n, opp);
    lemma_keeps_trans(p0, c1.board, b4, n, opp);
    lemma_comp_basics(b4, n, i, j);
    comp_members_match(b4, n, i, j);
    assert(p0[r][c] == Some(color));
    assert(b4[r][c] == p0[r][c] || (p0[r][c] == Some(opp) && b4[r][c] is None));
    assert(b4[i][j] == p0[i][j] || (p0[i][j] == Some(opp) && b4[i][j] is None));
    if g4.contains((r, c)) {
        lemma_comp_least(b4, n, r, c, g4);
        lemma_liberties_exist(b4, n, comp(b4, n, r, c));
        let (ei, ej) = choose|ei: int, ej: int|
            on_board(n, ei, ej) && b4[ei][ej] is None && #[trigger] touches(comp(b4, n, r, c), ei, ej);
        assert(touches(g4, ei, ej));
    } else {
        assert((i, j) != (r, c));
        assert(b[i][j] == p0[i][j]);
        let gb = comp(b, n, i, j);
        lemma_liberties_exist(b, n, gb);
        let (ei, ej) = choose|ei: int, ej: int| on_board(n, ei, ej) && b[ei][ej] is None && #[trigger] touches(gb, ei, ej);
        if b4[i][j] == Some(color) {
            // The old group of (i, j) lies in its new one.
            assert forall|p: (int, int), x: (int, int)|
                #[trigger] g4.contains(p) && adjacent(p, x) && on_board(n, x.0, x.1) && b[x.0][x.1] == b[i][j] implies #[trigger] g4.contains(
                x,
            ) by {
                assert(x != (r, c));
                assert(p0[x.0][x.1] == b[x.0][x.1]);
                assert(b4[x.0][x.1] == p0[x.0][x.1] || (p0[x.0][x.1] == Some(opp) && b4[x.0][x.1] is None));
            }
            lemma_comp_least(b, n, i, j, g4);
            assert(touches(g4, ei, ej));
            if (ei, ej) == (r, c) {
                // A member next to the new stone would have joined it.
                if g4.contains((r - 1, c)) {
                    assert(adjacent((r - 1, c), (r, c)));
                } else if g4.contains((r + 1, c)) {
                    assert(adjacent((r + 1, c), (r, c)));
                } else if g4.contains((r, c - 1)) {
                    assert(adjacent((r, c - 1), (r, c)));
                } else {
                    assert(adjacent((r, c + 1), (r, c)));
                }
                assert(false);
            }
            assert(p0[ei][ej] == b[ei][ej]);
            assert(b4[ei][ej] == p0[ei][ej] || (p0[ei][ej] == Some(opp) && b4[ei][ej] is None));
        } else {
            assert(b4[i][j] == Some(opp));
            let gp = comp(p0, n, i, j);
            lemma_group_grows(p0, b4, n, opp, i, j);
            lemma_comp_basics(p0, n, i, j);
            assert forall|p: (int, int), x: (int, int)|
                #[trigger] gp.contains(p) && adjacent(p, x) && on_board(n, x.0, x.1) && b[x.0][x.1] == b[i][j] implies #[trigger] gp.contains(
                x,
            ) by {
                assert(x != (r, c));
                assert(p0[x.0][x.1] == b[x.0][x.1]);
            }
            lemma_comp_least(b, n, i, j, gp);
            assert(touches(g4, ei, ej));
            if (ei, ej) == (r, c) {
                comp_members_match(b, n, i, j);
                if gb.contains((r - 1, c)) {
                    lemma_neighbour_group(p0, c1.board, b4, n, opp, (r - 1, c), i, j);
                } else if gb.contains((r + 1, c)) {
                    lemma_neighbour_group(c1.board, c2.board, b4, n, opp, (r + 1, c), i, j);
                } else if gb.contains((r, c - 1)) {
                    lemma_neighbour_group(c2.board, c3.board, b4, n, opp, (r, c - 1), i, j);
                } else {
                    lemma_neighbour_group(c3.board, b4, b4, n, opp, (r, c + 1), i, j);
                }
            } else {
                assert(p0[ei][ej] == b[ei][ej]);
                assert(b4[ei][ej] == p0[ei][ej] || (p0[ei][ej] == Some(opp) && b4[ei][ej] is None));
            }
        }
    }
}

/// A move that the rules accept leaves every group on the board with a
/// liberty, when every group had one before: captures take the groups of
/// the opponent that lose their last liberty, and a move that would leave
/// the mover's own group without one is refused.
pub proof fn groups_keep_liberties(s: GoState, mv: MovePayload, player: PlayerColor)
    requires
        go_move_error(s, mv, player) is None,
        square(s.board, s.size),
        groups_breathe(s.board, s.size),
    ensures
        groups_breathe(go_after(s, mv).board, s.size),
{
    if mv.pass != Some(true) {
        let n = s.size;
        let b = s.board;
        let r = mv.row->0 as int;
        let c = mv.col->0 as int;
        let color = s.turn;
        let opp = other_stone(color);
        let c0 = Capture { board: place(b, r, c, color), total: 0, single: None };
        assert(square(c0.board, n));
        let c1 = capture_at(c0, n, r - 1, c, opp);
        let c2 = capture_at(c1, n, r + 1, c, opp);
        let c3 = capture_at(c2, n, r, c - 1, opp);
        let c4 = capture_at(c3, n, r, c + 1, opp);
        lemma_capture_step(c0, n, r - 1, c, opp);
        lemma_capture_step(c1, n, r + 1, c, opp);
        lemma_capture_step(c2, n, r, c - 1, opp);
        lemma_capture_step(c3, n, r, c + 1, opp);
        assert(c4 == captures_of(b, n, r, c, color));
        let b4 = c4.board;
        assert(liberties(b4, n, comp(b4, n, r, c)) > 0) by {
            lemma_lib_fold(b4, n, comp(b4, n, r, c), n, 0);
        }
        assert forall|i: int, j: int| on_board(n, i, j) && b4[i][j] is Some implies liberties(
            b4,
            n,
            #[trigger] comp(b4, n, i, j),
        ) > 0 by {
            lemma_stone_breathes(b, n, r, c, color, c0, c1, c2, c3, b4, i, j);
            lemma_liberties_exist(b4, n, comp(b4, n, i, j));
        }
    }
}

/// Who a point belongs to when the game is scored: the colour of its
/// stone; for an empty point, the one colour whose stones its empty region
/// touches, and no one when the region touches both colours or none.
pub open spec fn owner(b: GoBoard, n: int, r: int, c: int) -> Option<Stone> {
    match b[r][c] {
        Some(x) => Some(x),
        None => {
            let region = comp(b, n, r, c);
            let black = borders(b, n, region, Stone::Black);
            let white = borders(b, n, region, Stone::White);
            if black && !white {
                Some(Stone::Black)
            } else if white && !black {
                Some(Stone::White)
            } else {
                None
            }
        },
    }
}

pub open spec fn owner_step(b: GoBoard, n: int, o: Option<Stone>) -> spec_fn(int, int, int) -> int {
    |acc: int, r: int, c: int| acc + (if owner(b, n, r, c) == o { 1int } else { 0int })
}

/// The number of points of the board that belong to `o`.
pub open spec fn owned_count(b: GoBoard, n: int, o: Option<Stone>) -> int {
    fold_cells(n, n, 0, 0int, owner_step(b, n, o))
}

proof fn lemma_owners_partition(b: GoBoard, n: int, r: int, c: int)
    requires
        0 <= r,
        0 <= c <= n,
    ensures
        fold_cells(n, r, c, 0int, owner_step(b, n, Some(Stone::Black))) + fold_cells(
            n,
            r,
            c,
            0int,
            owner_step(b, n, Some(Stone::White)),
        ) + fold_cells(n, r, c, 0int, owner_step(b, n, None)) == r * n + c,
    decreases r, c,
{
    let fb = owner_step(b, n, Some(Stone::Black));
    let fw = owner_step(b, n, Some(Stone::White));
    let fz = owner_step(b, n, None);
    if c == 0 {
        if r > 0 {
            lemma_owners_partition(b, n, r - 1, n);
            assert((r - 1) * n + n == r * n) by (nonlinear_arith);
            assert(fold_cells(n, r, c, 0int, fb) == fold_cells(n, r - 1, n, 0int, fb));
            assert(fold_cells(n, r, c, 0int, fw) == fold_cells(n, r - 1, n, 0int, fw));
            assert(fold_cells(n, r, c, 0int, fz) == fold_cells(n, r - 1, n, 0int, fz));
        } else {
            assert(r * n + c == 0) by (nonlinear_arith)
                requires
                    r == 0,
                    c == 0,
            ;
        }
    } else {
        lemma_owners_partition(b, n, r, c - 1);
        let o = owner(b, n, r, c - 1);
        assert(o == Some(Stone::Black) || o == Some(Stone::White) || o is None);
        assert(fold_cells(n, r, c, 0int, fb) == fb(fold_cells(n, r, c - 1, 0int, fb), r, c - 1));
        assert(fold_cells(n, r, c, 0int, fw) == fw(fold_cells(n, r, c - 1, 0int, fw), r, c - 1));
        assert(fold_cells(n, r, c, 0int, fz) == fz(fold_cells(n, r, c - 1, 0int, fz), r, c - 1));
    }
}

/// Scoring counts, for each colour, exactly the points that belong to it:
/// its stones, and the empty points whose region touches its stones only.
/// An empty region that touches both colours, or none, counts for neither
/// side, so the two areas and the points of no one make up the board.
pub proof fn scoring_counts_owned_points(s: GoState)
    requires
        0 <= s.size,
    ensures
        scored(s).black_area == owned_count(s.board, s.size, Some(Stone::Black)),
        scored(s).white_area == owned_count(s.board, s.size, Some(Stone::White)),
        scored(s).black_area + scored(s).white_area + owned_count(s.board, s.size, None) == s.size * s.size,
{
    let b = s.board;
    let n = s.size;
    assert forall|acc: int, i: int, j: int| 0 <= i < n && 0 <= j < n implies #[trigger] area_step(b, n, Stone::Black)(
        acc,
        i,
        j,
    ) == owner_step(b, n, Some(Stone::Black))(acc, i, j) by {}
    assert forall|acc: int, i: int, j: int| 0 <= i < n && 0 <= j < n implies #[trigger] area_step(b, n, Stone::White)(
        acc,
        i,
        j,
    ) == owner_step(b, n, Some(Stone::White))(acc, i, j) by {}
    lemma_fold_cells_ext(n, n, 0, 0int, area_step(b, n, Stone::Black), owner_step(b, n, Some(Stone::Black)));
    lemma_fold_cells_ext(n, n, 0, 0int, area_step(b, n, Stone::White), owner_step(b, n, Some(Stone::White)));
    lemma_owners_partition(b, n, n, 0);
}

} // verus!
