//! Checkers on an 8x8 board: men move diagonally forward, kings both ways;
//! a capture is compulsory and a capturing piece keeps jumping while it
//! can; a man reaching the far row is crowned. A side that cannot move
//! loses.

use vstd::prelude::*;
use super::{fail_soft, AiDifficulty, GameStatus, MoveError, MovePayload, PlayerColor, won_by};

verus! {

#[derive(Debug, Clone, Copy, PartialEq, Eq, Structural)]
pub enum CheckersPieceType {
    Man,
    King,
}

#[derive(Debug, Clone, Copy, PartialEq, Eq, Structural)]
pub enum CheckersColor {
    White,
    Black,
}

pub open spec fn other_side(c: CheckersColor) -> CheckersColor {
    match c {
        CheckersColor::White => CheckersColor::Black,
        CheckersColor::Black => CheckersColor::White,
    }
}

pub open spec fn side_player(c: CheckersColor) -> PlayerColor {
    match c {
        CheckersColor::White => PlayerColor::White,
        CheckersColor::Black => PlayerColor::Black,
    }
}

impl CheckersColor {
    fn opposite(&self) -> (r: CheckersColor)
        ensures
            r == other_side(*self),
    {
        match self {
            CheckersColor::White => CheckersColor::Black,
            CheckersColor::Black => CheckersColor::White,
        }
    }

    fn to_player(&self) -> (r: PlayerColor)
        ensures
            r == side_player(*self),
    {
        match self {
            CheckersColor::White => PlayerColor::White,
            CheckersColor::Black => PlayerColor::Black,
        }
    }
}

#[derive(Debug, Clone, Copy, PartialEq, Eq, Structural)]
pub struct CheckersPiece {
    pub piece_type: CheckersPieceType,
    pub color: CheckersColor,
}

pub type CheckersBoard = [[Option<CheckersPiece>; 8]; 8];

/// A game of checkers. White starts on rows 0 to 2 and moves first.
#[derive(Clone)]
pub struct CheckersGame {
    pub board: CheckersBoard,
    pub current_turn: CheckersColor,
    pub status: GameStatus,
    /// During a multi-jump, the square of the piece that must jump on.
    pub must_continue_from: Option<(usize, usize)>,
}

/// The moves offered for one piece: its square, its destinations, and
/// whether they are captures.
pub struct ValidMoves {
    pub from: (usize, usize),
    pub to: Vec<(usize, usize)>,
    pub must_jump: bool,
}

pub open spec fn valid_view(v: Seq<ValidMoves>) -> Seq<((usize, usize), Seq<(usize, usize)>, bool)> {
    v.map_values(|e: ValidMoves| (e.from, e.to@, e.must_jump))
}

/// The game as mathematics: the board as rows of squares, and the rest.
pub struct CheckersState {
    pub board: Seq<Seq<Option<CheckersPiece>>>,
    pub turn: CheckersColor,
    pub status: GameStatus,
    pub must: Option<(usize, usize)>,
}

pub open spec fn cboard_view(b: CheckersBoard) -> Seq<Seq<Option<CheckersPiece>>> {
    b@.map_values(|row: [Option<CheckersPiece>; 8]| row@)
}

pub open spec fn on_board(r: int, c: int) -> bool {
    0 <= r < 8 && 0 <= c < 8
}

impl CheckersGame {
    pub open spec fn state(&self) -> CheckersState {
        CheckersState {
            board: cboard_view(self.board),
            turn: self.current_turn,
            status: self.status,
            must: self.must_continue_from,
        }
    }
}

pub proof fn lemma_cboard_view(b: CheckersBoard)
    ensures
        cboard_view(b).len() == 8,
        forall|r: int| 0 <= r < 8 ==> #[trigger] cboard_view(b)[r].len() == 8,
        forall|r: int, c: int| on_board(r, c) ==> #[trigger] cboard_view(b)[r][c] == b[r][c],
{
    assert forall|r: int| 0 <= r < 8 implies #[trigger] cboard_view(b)[r].len() == 8 by {
        assert(cboard_view(b)[r] == b@[r]@);
    }
    assert forall|r: int, c: int| on_board(r, c) implies #[trigger] cboard_view(b)[r][c] == b[r][c] by {
        assert(cboard_view(b)[r] == b@[r]@);
    }
}


pub open spec fn piece_moves(b: Seq<Seq<Option<CheckersPiece>>>, color: CheckersColor, jumping: bool, r: int, c: int) -> Seq<(usize, usize, usize, usize)> {
    if b[r][c] matches Some(p) && p.color == color {
        if jumping {
            jumps(b, r, c).map_values(|t: (usize, usize, usize, usize)| (r as usize, c as usize, t.0, t.1))
        } else {
            steps(b, r, c).map_values(|t: (usize, usize)| (r as usize, c as usize, t.0, t.1))
        }
    } else {
        seq![]
    }
}

/// The moves of `color` from the squares at and after (r, c), row-major:
/// only captures when `jumping`, else only steps.
pub open spec fn moves_from(b: Seq<Seq<Option<CheckersPiece>>>, color: CheckersColor, jumping: bool, r: int, c: int) -> Seq<(usize, usize, usize, usize)>
    decreases 8 - r, 8 - c,
{
    if r < 0 || r >= 8 {
        seq![]
    } else if c < 0 || c >= 8 {
        moves_from(b, color, jumping, r + 1, 0)
    } else {
        piece_moves(b, color, jumping, r, c) + moves_from(b, color, jumping, r, c + 1)
    }
}

/// Every move of `color` as (from row, from col, to row, to col): the
/// captures when there are any, else the steps.
pub open spec fn all_moves(b: Seq<Seq<Option<CheckersPiece>>>, color: CheckersColor) -> Seq<(usize, usize, usize, usize)> {
    moves_from(b, color, any_jumps(b, color), 0, 0)
}

/// The moves the side to move may try: during a multi-jump, the captures of
/// the jumping piece; otherwise all its moves.
pub open spec fn turn_moves(s: CheckersState) -> Seq<(usize, usize, usize, usize)> {
    match s.must {
        Some(p) => if on_board(p.0 as int, p.1 as int) {
            piece_moves(s.board, s.turn, true, p.0 as int, p.1 as int)
        } else {
            seq![]
        },
        None => all_moves(s.board, s.turn),
    }
}

pub open spec fn square_worth(x: Option<CheckersPiece>, row: int, for_color: CheckersColor) -> int {
    match x {
        None => 0,
        Some(p) => {
            let v = (if p.piece_type == CheckersPieceType::Man { 100int } else { 300int }) + (if p.color
                == CheckersColor::White {
                row * 5
            } else {
                (7 - row) * 5
            });
            if p.color == for_color { v } else { -v }
        },
    }
}

pub open spec fn worth_from(b: Seq<Seq<Option<CheckersPiece>>>, for_color: CheckersColor, r: int, c: int) -> int
    decreases 8 - r, 8 - c,
{
    if r < 0 || r >= 8 {
        0
    } else if c < 0 || c >= 8 {
        worth_from(b, for_color, r + 1, 0)
    } else {
        square_worth(b[r][c], r, for_color) + worth_from(b, for_color, r, c + 1)
    }
}

/// The balance for `for_color`: a man is worth 100, a king 300, plus 5 per
/// row advanced.
pub open spec fn board_worth(b: Seq<Seq<Option<CheckersPiece>>>, for_color: CheckersColor) -> int {
    worth_from(b, for_color, 0, 0)
}

/// The game after the search tries a move: the move is played when the
/// rules allow it, else nothing changes.
#[verifier::opaque]
pub open spec fn step_state(s: CheckersState, m: (usize, usize, usize, usize)) -> CheckersState {
    if rule_error(s, m.0 as int, m.1 as int, m.2 as int, m.3 as int) is None {
        checkers_after(s, m.0 as int, m.1 as int, m.2 as int, m.3 as int)
    } else {
        s
    }
}

/// The minimax value for `ai`, looking `depth` moves ahead: the side to
/// move maximizes when it is `ai`. Finished games and depth zero are worth
/// the board balance; a side without moves is worth -50000 to `ai` when it
/// is `ai`, 50000 otherwise.
pub open spec fn search_value(s: CheckersState, depth: nat, ai: CheckersColor) -> int
    decreases depth, 0nat,
{
    if s.status != GameStatus::Playing || depth == 0 {
        board_worth(s.board, ai)
    } else {
        let moves = turn_moves(s);
        if moves.len() == 0 {
            if s.turn == ai { -50000 } else { 50000 }
        } else {
            best_value(s, moves, (depth - 1) as nat, s.turn == ai, ai)
        }
    }
}

pub open spec fn best_value(s: CheckersState, moves: Seq<(usize, usize, usize, usize)>, depth: nat, maximizing: bool, ai: CheckersColor) -> int
    decreases depth, moves.len(),
{
    if moves.len() == 0 {
        if maximizing { i32::MIN as int } else { i32::MAX as int }
    } else {
        let prev = best_value(s, moves.drop_last(), depth, maximizing, ai);
        let v = search_value(step_state(s, moves.last()), depth, ai);
        if maximizing {
            if v > prev { v } else { prev }
        } else {
            if v < prev { v } else { prev }
        }
    }
}

/// A from-and-to move as a computer player sends it.
pub open spec fn is_move_payload(mv: MovePayload, m: (usize, usize, usize, usize)) -> bool {
    &&& mv.from_row == Some(m.0 as u64)
    &&& mv.from_col == Some(m.1 as u64)
    &&& mv.to_row == Some(m.2 as u64)
    &&& mv.to_col == Some(m.3 as u64)
    &&& mv.row is None
    &&& mv.col is None
    &&& mv.pass is None
    &&& mv.promotion is None
}

/// The `k`-th move has the greatest value for `ai`, and is the first that
/// has it.
pub open spec fn first_best(s: CheckersState, moves: Seq<(usize, usize, usize, usize)>, k: int, depth: nat, ai: CheckersColor) -> bool {
    &&& 0 <= k < moves.len()
    &&& forall|j: int|
        0 <= j < moves.len() ==> #[trigger] search_value(step_state(s, moves[j]), depth, ai)
            <= search_value(step_state(s, moves[k]), depth, ai)
    &&& forall|j: int|
        0 <= j < k ==> #[trigger] search_value(step_state(s, moves[j]), depth, ai) < search_value(
            step_state(s, moves[k]),
            depth,
            ai,
        )
}

/// The searching computer player's answer for the side to move.
pub open spec fn search_choice(s: CheckersState, depth: nat, r: Option<MovePayload>) -> bool {
    let moves = turn_moves(s);
    &&& (r is None <==> moves.len() == 0)
    &&& (r matches Some(mv) ==> exists|k: int| first_best(s, moves, k, depth, s.turn) && is_move_payload(mv, moves[k]))
}

pub open spec fn valid_entry(s: CheckersState, color: CheckersColor, jumping: bool, r: int, c: int) -> Seq<((usize, usize), Seq<(usize, usize)>, bool)> {
    if (s.board[r][c] matches Some(p) && p.color == color) && (s.must is None || s.must == Some(
        (r as usize, c as usize),
    )) {
        if jumping {
            let js = jumps(s.board, r, c).map_values(|t: (usize, usize, usize, usize)| (t.0, t.1));
            if js.len() > 0 {
                seq![((r as usize, c as usize), js, true)]
            } else {
                seq![]
            }
        } else {
            let ms = steps(s.board, r, c);
            if ms.len() > 0 {
                seq![((r as usize, c as usize), ms, false)]
            } else {
                seq![]
            }
        }
    } else {
        seq![]
    }
}

pub open spec fn valid_from(s: CheckersState, color: CheckersColor, jumping: bool, r: int, c: int) -> Seq<((usize, usize), Seq<(usize, usize)>, bool)>
    decreases 8 - r, 8 - c,
{
    if r < 0 || r >= 8 {
        seq![]
    } else if c < 0 || c >= 8 {
        valid_from(s, color, jumping, r + 1, 0)
    } else {
        valid_entry(s, color, jumping, r, c) + valid_from(s, color, jumping, r, c + 1)
    }
}

/// The moves offered to the player to move: for each of its pieces that
/// may move (only the jumping piece during a multi-jump), row-major, its
/// destinations, captures only when one is available.
pub open spec fn valid_moves_of(s: CheckersState, color: CheckersColor) -> Seq<((usize, usize), Seq<(usize, usize)>, bool)> {
    valid_from(s, color, any_jumps(s.board, color), 0, 0)
}

/// The starting position: men on the dark squares ((row + col) odd) of
/// rows 0 to 2 (white) and 5 to 7 (black).
pub open spec fn start_cell(r: int, c: int) -> Option<CheckersPiece> {
    if (r + c) % 2 == 1 && 0 <= r < 3 {
        Some(CheckersPiece { piece_type: CheckersPieceType::Man, color: CheckersColor::White })
    } else if (r + c) % 2 == 1 && 5 <= r < 8 {
        Some(CheckersPiece { piece_type: CheckersPieceType::Man, color: CheckersColor::Black })
    } else {
        None
    }
}

/// The far row, where a man is crowned.
pub open spec fn king_row(color: CheckersColor) -> int {
    if color == CheckersColor::White { 7 } else { 0 }
}

/// A piece may go in direction (dr, dc): kings every diagonal way, men
/// forward (up the rows for white, down for black).
pub open spec fn goes(p: CheckersPiece, dr: int) -> bool {
    p.piece_type == CheckersPieceType::King || (p.color == CheckersColor::White && dr == 1) || (
    p.color == CheckersColor::Black && dr == -1)
}

/// The jump in direction (dr, dc) from (row, col), as (landing row,
/// landing col, captured row, captured col): over a piece of the other side
/// onto an empty square.
pub open spec fn jump_dir(b: Seq<Seq<Option<CheckersPiece>>>, row: int, col: int, p: CheckersPiece, dr: int, dc: int) -> Seq<(usize, usize, usize, usize)> {
    let lr = row + 2 * dr;
    let lc = col + 2 * dc;
    if goes(p, dr) && on_board(lr, lc) && (b[row + dr][col + dc] matches Some(m) && m.color
        != p.color) && b[lr][lc] is None {
        seq![(lr as usize, lc as usize, (row + dr) as usize, (col + dc) as usize)]
    } else {
        seq![]
    }
}

/// The jumps of the piece on (row, col), in the order (1,-1), (1,1),
/// (-1,-1), (-1,1).
pub open spec fn jumps(b: Seq<Seq<Option<CheckersPiece>>>, row: int, col: int) -> Seq<(usize, usize, usize, usize)> {
    match b[row][col] {
        None => seq![],
        Some(p) => jump_dir(b, row, col, p, 1, -1) + jump_dir(b, row, col, p, 1, 1) + jump_dir(
            b,
            row,
            col,
            p,
            -1,
            -1,
        ) + jump_dir(b, row, col, p, -1, 1),
    }
}

pub open spec fn step_dir(b: Seq<Seq<Option<CheckersPiece>>>, row: int, col: int, p: CheckersPiece, dr: int, dc: int) -> Seq<(usize, usize)> {
    let r = row + dr;
    let c = col + dc;
    if goes(p, dr) && on_board(r, c) && b[r][c] is None {
        seq![(r as usize, c as usize)]
    } else {
        seq![]
    }
}

/// The non-capturing moves of the piece on (row, col), in the same order
/// of directions.
pub open spec fn steps(b: Seq<Seq<Option<CheckersPiece>>>, row: int, col: int) -> Seq<(usize, usize)> {
    match b[row][col] {
        None => seq![],
        Some(p) => step_dir(b, row, col, p, 1, -1) + step_dir(b, row, col, p, 1, 1) + step_dir(
            b,
            row,
            col,
            p,
            -1,
            -1,
        ) + step_dir(b, row, col, p, -1, 1),
    }
}

pub open spec fn jumps_from(b: Seq<Seq<Option<CheckersPiece>>>, color: CheckersColor, r: int, c: int) -> bool {
    on_board(r, c) && (b[r][c] matches Some(p) && p.color == color) && jumps(b, r, c).len() > 0
}

/// Some piece of `color` can capture.
pub open spec fn any_jumps(b: Seq<Seq<Option<CheckersPiece>>>, color: CheckersColor) -> bool {
    exists|r: int, c: int| #[trigger] jumps_from(b, color, r, c)
}

pub open spec fn moves_at(b: Seq<Seq<Option<CheckersPiece>>>, color: CheckersColor, r: int, c: int) -> bool {
    on_board(r, c) && (b[r][c] matches Some(p) && p.color == color) && (jumps(b, r, c).len() > 0
        || steps(b, r, c).len() > 0)
}

/// Some piece of `color` can move.
pub open spec fn any_moves(b: Seq<Seq<Option<CheckersPiece>>>, color: CheckersColor) -> bool {
    exists|r: int, c: int| #[trigger] moves_at(b, color, r, c)
}

/// The board after the piece on (fr, fc) goes to (tr, tc), crowned if it
/// is a man reaching the far row, capturing on (cr, cc) when `capture`.
pub open spec fn board_after(
    b: Seq<Seq<Option<CheckersPiece>>>,
    fr: int,
    fc: int,
    tr: int,
    tc: int,
    capture: Option<(int, int)>,
) -> Seq<Seq<Option<CheckersPiece>>> {
    let p = b[fr][fc]->0;
    let landed = if p.piece_type == CheckersPieceType::Man && tr == king_row(p.color) {
        CheckersPiece { piece_type: CheckersPieceType::King, color: p.color }
    } else {
        p
    };
    Seq::new(
        8,
        |r: int|
            Seq::new(
                8,
                |c: int|
                    if r == fr && c == fc {
                        None
                    } else if r == tr && c == tc {
                        Some(landed)
                    } else if capture == Some((r, c)) {
                        None
                    } else {
                        b[r][c]
                    },
            ),
    )
}

pub open spec fn is_jump_shape(fr: int, fc: int, tr: int, tc: int) -> bool {
    (tr - fr == 2 || fr - tr == 2) && (tc - fc == 2 || fc - tc == 2)
}

/// Why a move from (fr, fc) to (tr, tc) breaks the rules, checked in this
/// order once the game is on and it is the player's turn.
pub open spec fn rule_error(s: CheckersState, fr: int, fc: int, tr: int, tc: int) -> Option<MoveError> {
    if !(on_board(fr, fc) && on_board(tr, tc)) {
        Some(MoveError::OutOfBounds)
    } else if s.must matches Some(sq) && sq != (fr as usize, fc as usize) {
        Some(MoveError::MustContinueJump)
    } else if s.board[fr][fc] is None {
        Some(MoveError::NoPieceAtSource)
    } else if s.board[fr][fc]->0.color != s.turn {
        Some(MoveError::NotYourPiece)
    } else if any_jumps(s.board, s.turn) && !is_jump_shape(fr, fc, tr, tc) {
        Some(MoveError::MustJump)
    } else if is_jump_shape(fr, fc, tr, tc) && !(exists|k: int|
        0 <= k < jumps(s.board, fr, fc).len() && #[trigger] jumps(s.board, fr, fc)[k].0 == tr
            && jumps(s.board, fr, fc)[k].1 == tc) {
        Some(MoveError::IllegalJump)
    } else if !is_jump_shape(fr, fc, tr, tc) && !steps(s.board, fr, fc).contains(
        (tr as usize, tc as usize),
    ) {
        Some(MoveError::IllegalMove)
    } else {
        None
    }
}

/// Why a checkers move is refused, checked in this order; `None` when it
/// is accepted.
pub open spec fn checkers_move_error(s: CheckersState, mv: MovePayload, player: PlayerColor) -> Option<MoveError> {
    if s.status != GameStatus::Playing {
        Some(MoveError::GameOver)
    } else if side_player(s.turn) != player {
        Some(MoveError::NotYourTurn)
    } else if mv.from_row is None {
        Some(MoveError::InvalidFromRow)
    } else if mv.from_col is None {
        Some(MoveError::InvalidFromCol)
    } else if mv.to_row is None {
        Some(MoveError::InvalidToRow)
    } else if mv.to_col is None {
        Some(MoveError::InvalidToCol)
    } else if mv.from_row->0 >= 8 || mv.from_col->0 >= 8 || mv.to_row->0 >= 8 || mv.to_col->0 >= 8 {
        Some(MoveError::OutOfBounds)
    } else {
        rule_error(s, mv.from_row->0 as int, mv.from_col->0 as int, mv.to_row->0 as int, mv.to_col->0 as int)
    }
}

/// The game after an accepted move from (fr, fc) to (tr, tc). A capture
/// removes the piece jumped over; the mover keeps the turn, bound to the
/// landing square, while it can capture again, unless it was just crowned.
/// A side left without a move loses.
pub open spec fn checkers_after(s: CheckersState, fr: int, fc: int, tr: int, tc: int) -> CheckersState {
    let m = checkers_moved(s, fr, fc, tr, tc);
    CheckersState {
        status: if !any_moves(m.board, m.turn) { won_by(side_player(other_side(m.turn))) } else { s.status },
        ..m
    }
}

/// The board, turn and multi-jump binding after the move, before the
/// status is looked at.
pub open spec fn checkers_moved(s: CheckersState, fr: int, fc: int, tr: int, tc: int) -> CheckersState {
    let p = s.board[fr][fc]->0;
    let jump = is_jump_shape(fr, fc, tr, tc);
    let crowned = p.piece_type == CheckersPieceType::Man && tr == king_row(p.color);
    let b2 = board_after(
        s.board,
        fr,
        fc,
        tr,
        tc,
        if jump { Some(((fr + tr) / 2, (fc + tc) / 2)) } else { None },
    );
    let again = jump && !crowned && jumps(b2, tr, tc).len() > 0;
    let turn2 = if again { s.turn } else { other_side(s.turn) };
    CheckersState {
        board: b2,
        turn: turn2,
        status: s.status,
        must: if again { Some((tr as usize, tc as usize)) } else { None },
    }
}


pub open spec fn jump_shaped(row: int, col: int, t: (usize, usize, usize, usize)) -> bool {
    &&& on_board(t.0 as int, t.1 as int)
    &&& on_board(t.2 as int, t.3 as int)
    &&& is_jump_shape(row, col, t.0 as int, t.1 as int)
    &&& t.2 as int == (row + t.0) / 2
    &&& t.3 as int == (col + t.1) / 2
}

/// A jump lands two squares away diagonally, over the square in between.
proof fn lemma_jumps_shaped(b: Seq<Seq<Option<CheckersPiece>>>, row: int, col: int)
    requires
        on_board(row, col),
    ensures
        forall|k: int| 0 <= k < jumps(b, row, col).len() ==> jump_shaped(row, col, #[trigger] jumps(b, row, col)[k]),
{
    if let Some(p) = b[row][col] {
        let a = jump_dir(b, row, col, p, 1, -1);
        let bb = jump_dir(b, row, col, p, 1, 1);
        let c = jump_dir(b, row, col, p, -1, -1);
        let d = jump_dir(b, row, col, p, -1, 1);
        let s = a + bb + c + d;
        assert forall|k: int| 0 <= k < s.len() implies jump_shaped(row, col, #[trigger] s[k]) by {
            if k < a.len() {
                assert(s[k] == a[k]);
            } else if k < a.len() + bb.len() {
                assert(s[k] == bb[k - a.len()]);
            } else if k < a.len() + bb.len() + c.len() {
                assert(s[k] == c[k - a.len() - bb.len()]);
            } else {
                assert(s[k] == d[k - a.len() - bb.len() - c.len()]);
            }
        }
    }
}

/// A step goes one square diagonally.
proof fn lemma_steps_shape(b: Seq<Seq<Option<CheckersPiece>>>, row: int, col: int)
    ensures
        forall|k: int| 0 <= k < steps(b, row, col).len() ==> {
            let t = #[trigger] steps(b, row, col)[k];
            (t.0 - row == 1 || row - t.0 == 1) && (t.1 - col == 1 || col - t.1 == 1)
        },
{
    if let Some(p) = b[row][col] {
        let a = step_dir(b, row, col, p, 1, -1);
        let bb = step_dir(b, row, col, p, 1, 1);
        let c = step_dir(b, row, col, p, -1, -1);
        let d = step_dir(b, row, col, p, -1, 1);
        let s = a + bb + c + d;
        assert forall|k: int| 0 <= k < s.len() implies {
            let t = #[trigger] s[k];
            (t.0 - row == 1 || row - t.0 == 1) && (t.1 - col == 1 || col - t.1 == 1)
        } by {
            if k < a.len() {
                assert(s[k] == a[k]);
            } else if k < a.len() + bb.len() {
                assert(s[k] == bb[k - a.len()]);
            } else if k < a.len() + bb.len() + c.len() {
                assert(s[k] == c[k - a.len() - bb.len()]);
            } else {
                assert(s[k] == d[k - a.len() - bb.len() - c.len()]);
            }
        }
    }
}


proof fn lemma_worth_bounded(b: Seq<Seq<Option<CheckersPiece>>>, for_color: CheckersColor, r: int, c: int)
    requires
        0 <= r <= 8,
        0 <= c <= 8,
    ensures
        -335 * cells_left(r, c) <= worth_from(b, for_color, r, c) <= 335 * cells_left(r, c),
    decreases 8 - r, 8 - c,
{
    if r < 8 {
        if c >= 8 {
            lemma_worth_bounded(b, for_color, r + 1, 0);
        } else {
            lemma_worth_bounded(b, for_color, r, c + 1);
            assert(cells_left(r, c) == cells_left(r, c + 1) + 1);
        }
    }
}

pub open spec fn cells_left(r: int, c: int) -> int {
    if r < 0 || r >= 8 {
        0
    } else if c < 0 || c >= 8 {
        8 * (7 - r)
    } else {
        8 * (7 - r) + (8 - c)
    }
}

proof fn lemma_search_bounded(s: CheckersState, depth: nat, ai: CheckersColor)
    ensures
        -50000 <= search_value(s, depth, ai) <= 50000,
    decreases depth, 0nat,
{
    lemma_worth_bounded(s.board, ai, 0, 0);
    if s.status == GameStatus::Playing && depth > 0 {
        let moves = turn_moves(s);
        if moves.len() > 0 {
            lemma_best_bounded(s, moves, (depth - 1) as nat, s.turn == ai, ai);
        }
    }
}

proof fn lemma_best_bounded(s: CheckersState, moves: Seq<(usize, usize, usize, usize)>, depth: nat, maximizing: bool, ai: CheckersColor)
    requires
        moves.len() > 0,
    ensures
        -50000 <= best_value(s, moves, depth, maximizing, ai) <= 50000,
    decreases depth, moves.len(),
{
    lemma_search_bounded(step_state(s, moves.last()), depth, ai);
    if moves.len() > 1 {
        lemma_best_bounded(s, moves.drop_last(), depth, maximizing, ai);
    } else {
        assert(moves.drop_last().len() == 0);
        assert(best_value(s, moves.drop_last(), depth, maximizing, ai) == (if maximizing {
            i32::MIN as int
        } else {
            i32::MAX as int
        }));
    }
}

proof fn lemma_best_prefix(s: CheckersState, moves: Seq<(usize, usize, usize, usize)>, i: int, depth: nat, maximizing: bool, ai: CheckersColor)
    requires
        0 <= i <= moves.len(),
    ensures
        maximizing ==> best_value(s, moves.take(i), depth, maximizing, ai) <= best_value(s, moves, depth, maximizing, ai),
        !maximizing ==> best_value(s, moves.take(i), depth, maximizing, ai) >= best_value(s, moves, depth, maximizing, ai),
    decreases moves.len(),
{
    if i < moves.len() {
        lemma_best_prefix(s, moves.drop_last(), i, depth, maximizing, ai);
        assert(moves.drop_last().take(i) =~= moves.take(i));
    } else {
        assert(moves.take(i) =~= moves);
    }
}

/// Every generated move starts and ends on the board.
proof fn lemma_turn_moves_on_board(s: CheckersState, m: (usize, usize, usize, usize))
    requires
        turn_moves(s).contains(m),
    ensures
        on_board(m.0 as int, m.1 as int),
        on_board(m.2 as int, m.3 as int),
{
    match s.must {
        Some(p) => {
            let r = p.0 as int;
            let c = p.1 as int;
            lemma_jumps_shaped(s.board, r, c);
            let k = choose|k: int| 0 <= k < turn_moves(s).len() && turn_moves(s)[k] == m;
            assert(jump_shaped(r, c, jumps(s.board, r, c)[k]));
        },
        None => lemma_moves_on_board(s.board, s.turn, any_jumps(s.board, s.turn), 0, 0, m),
    }
}

proof fn lemma_moves_on_board(b: Seq<Seq<Option<CheckersPiece>>>, color: CheckersColor, jumping: bool, r: int, c: int, m: (usize, usize, usize, usize))
    requires
        moves_from(b, color, jumping, r, c).contains(m),
    ensures
        on_board(m.0 as int, m.1 as int),
        on_board(m.2 as int, m.3 as int),
    decreases 8 - r, 8 - c,
{
    if 0 <= r < 8 {
        if c < 0 || c >= 8 {
            lemma_moves_on_board(b, color, jumping, r + 1, 0, m);
        } else {
            let a = piece_moves(b, color, jumping, r, c);
            let rest = moves_from(b, color, jumping, r, c + 1);
            let k = choose|k: int| 0 <= k < (a + rest).len() && (a + rest)[k] == m;
            if k < a.len() {
                assert(a[k] == m);
                if jumping {
                    lemma_jumps_shaped(b, r, c);
                    assert(jump_shaped(r, c, jumps(b, r, c)[k]));
                } else {
                    lemma_steps_on_board(b, r, c);
                    assert(on_board(steps(b, r, c)[k].0 as int, steps(b, r, c)[k].1 as int));
                }
            } else {
                assert(rest[k - a.len()] == m);
                lemma_moves_on_board(b, color, jumping, r, c + 1, m);
            }
        }
    }
}

proof fn lemma_steps_land_empty(b: Seq<Seq<Option<CheckersPiece>>>, row: int, col: int, t: (usize, usize))
    requires
        steps(b, row, col).contains(t),
    ensures
        b[t.0 as int][t.1 as int] is None,
{
    if let Some(p) = b[row][col] {
        let a = step_dir(b, row, col, p, 1, -1);
        let bb = step_dir(b, row, col, p, 1, 1);
        let c = step_dir(b, row, col, p, -1, -1);
        let d = step_dir(b, row, col, p, -1, 1);
        let s = a + bb + c + d;
        let k = choose|k: int| 0 <= k < s.len() && s[k] == t;
        if k < a.len() {
            assert(s[k] == a[k]);
        } else if k < a.len() + bb.len() {
            assert(s[k] == bb[k - a.len()]);
        } else if k < a.len() + bb.len() + c.len() {
            assert(s[k] == c[k - a.len() - bb.len()]);
        } else {
            assert(s[k] == d[k - a.len() - bb.len() - c.len()]);
        }
    }
}

proof fn lemma_steps_on_board(b: Seq<Seq<Option<CheckersPiece>>>, row: int, col: int)
    ensures
        forall|k: int| 0 <= k < steps(b, row, col).len() ==> on_board(#[trigger] steps(b, row, col)[k].0 as int, steps(b, row, col)[k].1 as int),
{
    if let Some(p) = b[row][col] {
        let a = step_dir(b, row, col, p, 1, -1);
        let bb = step_dir(b, row, col, p, 1, 1);
        let c = step_dir(b, row, col, p, -1, -1);
        let d = step_dir(b, row, col, p, -1, 1);
        let s = a + bb + c + d;
        assert forall|k: int| 0 <= k < s.len() implies on_board(#[trigger] s[k].0 as int, s[k].1 as int) by {
            if k < a.len() {
                assert(s[k] == a[k]);
            } else if k < a.len() + bb.len() {
                assert(s[k] == bb[k - a.len()]);
            } else if k < a.len() + bb.len() + c.len() {
                assert(s[k] == c[k - a.len() - bb.len()]);
            } else {
                assert(s[k] == d[k - a.len() - bb.len() - c.len()]);
            }
        }
    }
}

impl CheckersGame {
    /// White men on the dark squares of rows 0 to 2, black men on those of
    /// rows 5 to 7, white to move.
    pub fn new() -> (g: CheckersGame)
        ensures
            forall|r: int, c: int| on_board(r, c) ==> #[trigger] g.board[r][c] == start_cell(r, c),
            g.current_turn == CheckersColor::White,
            g.status == GameStatus::Playing,
            g.must_continue_from is None,
    {
        let mut board: CheckersBoard = [[None;8];8];
        let mut row: usize = 0;
        while row < 8
            invariant
                row <= 8,
                forall|r: int, c: int|
                    on_board(r, c) ==> #[trigger] board[r][c] == (if r < row {
                        start_cell(r, c)
                    } else {
                        None
                    }),
            decreases 8 - row,
        {
            let mut col: usize = 0;
            while col < 8
                invariant
                    row < 8,
                    col <= 8,
                    forall|r: int, c: int|
                        on_board(r, c) ==> #[trigger] board[r][c] == (if r < row || (r == row && c
                            < col) {
                            start_cell(r, c)
                        } else {
                            None
                        }),
                decreases 8 - col,
            {
                if (row + col) % 2 == 1 {
                    if row >= 5 {
                        board[row][col] = Some(
                            CheckersPiece {
                                piece_type: CheckersPieceType::Man,
                                color: CheckersColor::Black,
                            },
                        );
                    } else if row < 3 {
                        board[row][col] = Some(
                            CheckersPiece {
                                piece_type: CheckersPieceType::Man,
                                color: CheckersColor::White,
                            },
                        );
                    }
                }
                col = col + 1;
            }
            row = row + 1;
        }
        CheckersGame {
            board,
            current_turn: CheckersColor::White,
            status: GameStatus::Playing,
            must_continue_from: None,
        }
    }

    fn jump_in(&self, jumps: &mut Vec<(usize, usize, usize, usize)>, row: usize, col: usize, p: CheckersPiece, dr: i32, dc: i32)
        requires
            row < 8,
            col < 8,
            dr == 1 || dr == -1,
            dc == 1 || dc == -1,
        ensures
            final(jumps)@ == old(jumps)@ + jump_dir(self.state().board, row as int, col as int, p, dr as int, dc as int),
    {
        proof {
            lemma_cboard_view(self.board);
        }
        let ghost start = jumps@;
        let forward = p.piece_type == CheckersPieceType::King || (p.color == CheckersColor::White
            && dr == 1) || (p.color == CheckersColor::Black && dr == -1);
        if forward {
            let mid_r = row as i32 + dr;
            let mid_c = col as i32 + dc;
            let land_r = row as i32 + 2 * dr;
            let land_c = col as i32 + 2 * dc;
            if !(land_r < 0 || land_r >= 8 || land_c < 0 || land_c >= 8) {
                let (mr, mc, lr, lc) = (mid_r as usize, mid_c as usize, land_r as usize, land_c as usize);
                if let Some(mid_p) = self.board[mr][mc] {
                    if mid_p.color != p.color && self.board[lr][lc].is_none() {
                        jumps.push((lr, lc, mr, mc));
                    }
                }
            }
        }
        assert(jumps@ =~= start + jump_dir(self.state().board, row as int, col as int, p, dr as int, dc as int));
    }

    /// The jumps of the piece on (row, col) as (landing row, landing col,
    /// captured row, captured col).
    fn jump_moves(&self, row: usize, col: usize) -> (res: Vec<(usize, usize, usize, usize)>)
        requires
            row < 8,
            col < 8,
        ensures
            res@ == jumps(self.state().board, row as int, col as int),
    {
        proof {
            lemma_cboard_view(self.board);
        }
        let mut res: Vec<(usize, usize, usize, usize)> = Vec::new();
        let piece = match self.board[row][col] {
            Some(p) => p,
            None => {
                assert(res@ =~= jumps(self.state().board, row as int, col as int));
                return res;
            },
        };
        self.jump_in(&mut res, row, col, piece, 1, -1);
        self.jump_in(&mut res, row, col, piece, 1, 1);
        self.jump_in(&mut res, row, col, piece, -1, -1);
        self.jump_in(&mut res, row, col, piece, -1, 1);
        assert(res@ =~= jumps(self.state().board, row as int, col as int));
        res
    }

    fn step_in(&self, moves: &mut Vec<(usize, usize)>, row: usize, col: usize, p: CheckersPiece, dr: i32, dc: i32)
        requires
            row < 8,
            col < 8,
            dr == 1 || dr == -1,
            dc == 1 || dc == -1,
        ensures
            final(moves)@ == old(moves)@ + step_dir(self.state().board, row as int, col as int, p, dr as int, dc as int),
    {
        proof {
            lemma_cboard_view(self.board);
        }
        let ghost start = moves@;
        let forward = p.piece_type == CheckersPieceType::King || (p.color == CheckersColor::White
            && dr == 1) || (p.color == CheckersColor::Black && dr == -1);
        if forward {
            let r = row as i32 + dr;
            let c = col as i32 + dc;
            if r >= 0 && r < 8 && c >= 0 && c < 8 {
                if self.board[r as usize][c as usize].is_none() {
                    moves.push((r as usize, c as usize));
                }
            }
        }
        assert(moves@ =~= start + step_dir(self.state().board, row as int, col as int, p, dr as int, dc as int));
    }

    /// The non-capturing moves of the piece on (row, col).
    fn simple_moves(&self, row: usize, col: usize) -> (res: Vec<(usize, usize)>)
        requires
            row < 8,
            col < 8,
        ensures
            res@ == steps(self.state().board, row as int, col as int),
    {
        proof {
            lemma_cboard_view(self.board);
        }
        let mut res: Vec<(usize, usize)> = Vec::new();
        let piece = match self.board[row][col] {
            Some(p) => p,
            None => {
                assert(res@ =~= steps(self.state().board, row as int, col as int));
                return res;
            },
        };
        self.step_in(&mut res, row, col, piece, 1, -1);
        self.step_in(&mut res, row, col, piece, 1, 1);
        self.step_in(&mut res, row, col, piece, -1, -1);
        self.step_in(&mut res, row, col, piece, -1, 1);
        assert(res@ =~= steps(self.state().board, row as int, col as int));
        res
    }

    fn any_jumps_available(&self, color: CheckersColor) -> (b: bool)
        ensures
            b == any_jumps(self.state().board, color),
    {
        proof {
            lemma_cboard_view(self.board);
        }
        let ghost bd = self.state().board;
        let mut row: usize = 0;
        while row < 8
            invariant
                row <= 8,
                bd == self.state().board,
                forall|r: int, c: int| 0 <= r < row ==> !#[trigger] jumps_from(bd, color, r, c),
            decreases 8 - row,
        {
            let mut col: usize = 0;
            while col < 8
                invariant
                    row < 8,
                    col <= 8,
                    bd == self.state().board,
                    forall|r: int, c: int| 0 <= r < row ==> !#[trigger] jumps_from(bd, color, r, c),
                    forall|c: int| 0 <= c < col ==> !#[trigger] jumps_from(bd, color, row as int, c),
                decreases 8 - col,
            {
                if let Some(p) = self.board[row][col] {
                    if p.color == color && self.jump_moves(row, col).len() > 0 {
                        assert(jumps_from(bd, color, row as int, col as int));
                        return true;
                    }
                }
                col = col + 1;
            }
            row = row + 1;
        }
        assert forall|r: int, c: int| !#[trigger] jumps_from(bd, color, r, c) by {
            if 0 <= r < 8 {
            }
        }
        false
    }

    fn has_any_moves(&self, color: CheckersColor) -> (b: bool)
        ensures
            b == any_moves(self.state().board, color),
    {
        proof {
            lemma_cboard_view(self.board);
        }
        let ghost bd = self.state().board;
        let mut row: usize = 0;
        while row < 8
            invariant
                row <= 8,
                bd == self.state().board,
                forall|r: int, c: int| 0 <= r < row ==> !#[trigger] moves_at(bd, color, r, c),
            decreases 8 - row,
        {
            let mut col: usize = 0;
            while col < 8
                invariant
                    row < 8,
                    col <= 8,
                    bd == self.state().board,
                    forall|r: int, c: int| 0 <= r < row ==> !#[trigger] moves_at(bd, color, r, c),
                    forall|c: int| 0 <= c < col ==> !#[trigger] moves_at(bd, color, row as int, c),
                decreases 8 - col,
            {
                if let Some(p) = self.board[row][col] {
                    if p.color == color {
                        if self.jump_moves(row, col).len() > 0 {
                            assert(moves_at(bd, color, row as int, col as int));
                            return true;
                        }
                        if self.simple_moves(row, col).len() > 0 {
                            assert(moves_at(bd, color, row as int, col as int));
                            return true;
                        }
                    }
                }
                col = col + 1;
            }
            row = row + 1;
        }
        assert forall|r: int, c: int| !#[trigger] moves_at(bd, color, r, c) by {
            if 0 <= r < 8 {
            }
        }
        false
    }

    /// Checks a move against the rules; on success gives its squares.
    fn check_move(&self, mv: &MovePayload, player: &PlayerColor) -> (r: Result<(usize, usize, usize, usize), MoveError>)
        ensures
            match r {
                Err(e) => checkers_move_error(self.state(), *mv, *player) == Some(e),
                Ok(t) => checkers_move_error(self.state(), *mv, *player) is None && t == (
                    mv.from_row->0 as usize,
                    mv.from_col->0 as usize,
                    mv.to_row->0 as usize,
                    mv.to_col->0 as usize,
                ) && t.0 < 8 && t.1 < 8 && t.2 < 8 && t.3 < 8,
            },
    {
        proof {
            lemma_cboard_view(self.board);
        }
        let ghost s0 = self.state();
        if self.status != GameStatus::Playing {
            return Err(MoveError::GameOver);
        }
        if self.current_turn.to_player() != *player {
            return Err(MoveError::NotYourTurn);
        }
        let from_r = match mv.from_row {
            Some(v) => v,
            None => return Err(MoveError::InvalidFromRow),
        };
        let from_c = match mv.from_col {
            Some(v) => v,
            None => return Err(MoveError::InvalidFromCol),
        };
        let to_r = match mv.to_row {
            Some(v) => v,
            None => return Err(MoveError::InvalidToRow),
        };
        let to_c = match mv.to_col {
            Some(v) => v,
            None => return Err(MoveError::InvalidToCol),
        };
        if from_r >= 8 || from_c >= 8 || to_r >= 8 || to_c >= 8 {
            return Err(MoveError::OutOfBounds);
        }
        let from_r = from_r as usize;
        let from_c = from_c as usize;
        let to_r = to_r as usize;
        let to_c = to_c as usize;
        // Check if continuing a multi-jump
        if let Some(must) = self.must_continue_from {
            if must.0 != from_r || must.1 != from_c {
                return Err(MoveError::MustContinueJump);
            }
        }
        let piece = match self.board[from_r][from_c] {
            Some(p) => p,
            None => return Err(MoveError::NoPieceAtSource),
        };
        if piece.color.to_player() != *player {
            return Err(MoveError::NotYourPiece);
        }
        let has_jumps = self.any_jumps_available(self.current_turn);
        let row_diff: i32 = to_r as i32 - from_r as i32;
        let col_diff: i32 = to_c as i32 - from_c as i32;
        let is_jump = (row_diff == 2 || row_diff == -2) && (col_diff == 2 || col_diff == -2);
        if has_jumps && !is_jump {
            return Err(MoveError::MustJump);
        }
        if is_jump {
            let jumps = self.jump_moves(from_r, from_c);
            let mut k: usize = 0;
            while k < jumps.len() && !(jumps[k].0 == to_r && jumps[k].1 == to_c)
                invariant
                    k <= jumps.len(),
                    forall|j: int| 0 <= j < k ==> !(#[trigger] jumps@[j].0 == to_r && jumps@[j].1 == to_c),
                decreases jumps.len() - k,
            {
                k = k + 1;
            }
            if k == jumps.len() {
                return Err(MoveError::IllegalJump);
            }
        } else {
            let moves = self.simple_moves(from_r, from_c);
            let mut k: usize = 0;
            while k < moves.len() && !(moves[k].0 == to_r && moves[k].1 == to_c)
                invariant
                    k <= moves.len(),
                    forall|j: int| 0 <= j < k ==> moves@[j] != (to_r, to_c),
                decreases moves.len() - k,
            {
                k = k + 1;
            }
            if k == moves.len() {
                return Err(MoveError::IllegalMove);
            }
            assert(moves@[k as int] == (to_r, to_c));
        }
        Ok((from_r, from_c, to_r, to_c))
    }

    /// Carries out a jump that the rules allow.
    fn apply_jump(&mut self, from_r: usize, from_c: usize, to_r: usize, to_c: usize)
        requires
            on_board(from_r as int, from_c as int),
            on_board(to_r as int, to_c as int),
            is_jump_shape(from_r as int, from_c as int, to_r as int, to_c as int),
            old(self).board[from_r as int][from_c as int] is Some,
        ensures
            final(self).state() == checkers_moved(old(self).state(), from_r as int, from_c as int, to_r as int, to_c as int),
    {
        proof {
            lemma_cboard_view(self.board);
        }
        let ghost s0 = self.state();
        let ghost fr = from_r as int;
        let ghost fc = from_c as int;
        let ghost tr = to_r as int;
        let ghost tc = to_c as int;
        let piece = self.board[from_r][from_c].unwrap();
        let cap_r = (from_r + to_r) / 2;
        let cap_c = (from_c + to_c) / 2;
        self.board[cap_r][cap_c] = None;
        self.board[to_r][to_c] = Some(piece);
        self.board[from_r][from_c] = None;
        let king_row: usize = if piece.color == CheckersColor::White { 7 } else { 0 };
        if piece.piece_type == CheckersPieceType::Man && to_r == king_row {
            self.board[to_r][to_c] = Some(
                CheckersPiece { piece_type: CheckersPieceType::King, color: piece.color },
            );
            proof {
                lemma_cboard_view(self.board);
                assert(cboard_view(self.board) =~~= board_after(s0.board, fr, fc, tr, tc, Some(((fr + tr) / 2, (fc + tc) / 2))));
            }
            // Can't continue jumping after kinging
            self.must_continue_from = None;
            self.current_turn = self.current_turn.opposite();
        } else {
            proof {
                lemma_cboard_view(self.board);
                assert(cboard_view(self.board) =~~= board_after(s0.board, fr, fc, tr, tc, Some(((fr + tr) / 2, (fc + tc) / 2))));
            }
            // Check for more jumps
            let more_jumps = self.jump_moves(to_r, to_c);
            if more_jumps.len() == 0 {
                self.must_continue_from = None;
                self.current_turn = self.current_turn.opposite();
            } else {
                self.must_continue_from = Some((to_r, to_c));
            }
        }
    }

    /// Carries out a non-capturing move that the rules allow.
    fn apply_step(&mut self, from_r: usize, from_c: usize, to_r: usize, to_c: usize)
        requires
            on_board(from_r as int, from_c as int),
            on_board(to_r as int, to_c as int),
            !is_jump_shape(from_r as int, from_c as int, to_r as int, to_c as int),
            (from_r, from_c) != (to_r, to_c),
            old(self).board[from_r as int][from_c as int] is Some,
        ensures
            final(self).state() == checkers_moved(old(self).state(), from_r as int, from_c as int, to_r as int, to_c as int),
    {
        proof {
            lemma_cboard_view(self.board);
        }
        let ghost s0 = self.state();
        let piece = self.board[from_r][from_c].unwrap();
        self.board[to_r][to_c] = Some(piece);
        self.board[from_r][from_c] = None;
        let king_row: usize = if piece.color == CheckersColor::White { 7 } else { 0 };
        if piece.piece_type == CheckersPieceType::Man && to_r == king_row {
            self.board[to_r][to_c] = Some(
                CheckersPiece { piece_type: CheckersPieceType::King, color: piece.color },
            );
        }
        proof {
            lemma_cboard_view(self.board);
            assert(cboard_view(self.board) =~~= board_after(s0.board, from_r as int, from_c as int, to_r as int, to_c as int, None));
        }
        self.must_continue_from = None;
        self.current_turn = self.current_turn.opposite();
    }

    /// Plays a move for `player`, or says why it is refused; a refused move
    /// leaves the game as it was.
    pub fn make_move(&mut self, mv: &MovePayload, player: &PlayerColor) -> (r: Result<(), MoveError>)
        ensures
            checkers_played(*old(self), *final(self), *mv, *player, r),
    {
        let (from_r, from_c, to_r, to_c) = match self.check_move(mv, player) {
            Ok(t) => t,
            Err(e) => return Err(e),
        };
        proof {
            lemma_cboard_view(self.board);
        }
        let row_diff: i32 = to_r as i32 - from_r as i32;
        let col_diff: i32 = to_c as i32 - from_c as i32;
        let is_jump = (row_diff == 2 || row_diff == -2) && (col_diff == 2 || col_diff == -2);
        if is_jump {
            self.apply_jump(from_r, from_c, to_r, to_c);
        } else {
            proof {
                let st = self.state();
                assert(steps(st.board, from_r as int, from_c as int).contains((to_r, to_c)));
                lemma_steps_shape(st.board, from_r as int, from_c as int);
            }
            self.apply_step(from_r, from_c, to_r, to_c);
        }
        // Check win condition
        let next = self.current_turn;
        if !self.has_any_moves(next) {
            self.status = match next {
                CheckersColor::White => GameStatus::BlackWon,
                CheckersColor::Black => GameStatus::WhiteWon,
            };
        }
        Ok(())
    }

    fn copy(&self) -> (g: CheckersGame)
        ensures
            g == *self,
    {
        CheckersGame {
            board: self.board,
            current_turn: self.current_turn,
            status: self.status,
            must_continue_from: self.must_continue_from,
        }
    }

    /// The moves the side to move may try: during a multi-jump, the
    /// captures of the jumping piece only.
    fn turn_moves(&self) -> (moves: Vec<(usize, usize, usize, usize)>)
        ensures
            moves@ == turn_moves(self.state()),
    {
        proof {
            lemma_cboard_view(self.board);
        }
        match self.must_continue_from {
            None => self.all_moves(self.current_turn),
            Some((row, col)) => {
                let mut moves: Vec<(usize, usize, usize, usize)> = Vec::new();
                if row >= 8 || col >= 8 {
                    return moves;
                }
                let own = match self.board[row][col] {
                    Some(p) => p.color == self.current_turn,
                    None => false,
                };
                if !own {
                    assert(moves@ =~= turn_moves(self.state()));
                    return moves;
                }
                let js = self.jump_moves(row, col);
                let mut k: usize = 0;
                while k < js.len()
                    invariant
                        k <= js.len(),
                        row < 8,
                        col < 8,
                        moves@ == js@.take(k as int).map_values(
                            |t: (usize, usize, usize, usize)| (row, col, t.0, t.1),
                        ),
                    decreases js.len() - k,
                {
                    let (tr, tc, _, _) = js[k];
                    moves.push((row, col, tr, tc));
                    proof {
                        assert(js@.take(k + 1).map_values(
                            |t: (usize, usize, usize, usize)| (row, col, t.0, t.1),
                        ) =~= js@.take(k as int).map_values(
                            |t: (usize, usize, usize, usize)| (row, col, t.0, t.1),
                        ).push((row, col, tr, tc)));
                    }
                    k = k + 1;
                }
                assert(js@.take(js.len() as int) =~= js@);
                assert(moves@ =~= turn_moves(self.state()));
                moves
            },
        }
    }

    /// Every move of `color`: captures when there are any, else steps.
    #[verifier::rlimit(40)]
    fn all_moves(&self, color: CheckersColor) -> (moves: Vec<(usize, usize, usize, usize)>)
        ensures
            moves@ == all_moves(self.state().board, color),
    {
        proof {
            lemma_cboard_view(self.board);
        }
        let ghost b = self.state().board;
        let has_jumps = self.any_jumps_available(color);
        let mut moves: Vec<(usize, usize, usize, usize)> = Vec::new();
        let mut row: usize = 0;
        while row < 8
            invariant
                row <= 8,
                b == self.state().board,
                has_jumps == any_jumps(b, color),
                moves@ + moves_from(b, color, has_jumps, row as int, 0) == all_moves(b, color),
            decreases 8 - row,
        {
            let mut col: usize = 0;
            while col < 8
                invariant
                    row < 8,
                    col <= 8,
                    b == self.state().board,
                    has_jumps == any_jumps(b, color),
                    moves@ + moves_from(b, color, has_jumps, row as int, col as int) == all_moves(b, color),
                decreases 8 - col,
            {
                let ghost before = moves@;
                if let Some(p) = self.board[row][col] {
                    if p.color == color {
                        if has_jumps {
                            let js = self.jump_moves(row, col);
                            let mut k: usize = 0;
                            while k < js.len()
                                invariant
                                    k <= js.len(),
                                    row < 8,
                                    col < 8,
                                    moves@ == before + js@.take(k as int).map_values(
                                        |t: (usize, usize, usize, usize)| (row, col, t.0, t.1),
                                    ),
                                decreases js.len() - k,
                            {
                                let (tr, tc, _, _) = js[k];
                                moves.push((row, col, tr, tc));
                                proof {
                                    assert(js@.take(k + 1).map_values(
                                        |t: (usize, usize, usize, usize)| (row, col, t.0, t.1),
                                    ) =~= js@.take(k as int).map_values(
                                        |t: (usize, usize, usize, usize)| (row, col, t.0, t.1),
                                    ).push((row, col, tr, tc)));
                                }
                                k = k + 1;
                            }
                            assert(js@.take(js.len() as int) =~= js@);
                        } else {
                            let ms = self.simple_moves(row, col);
                            let mut k: usize = 0;
                            while k < ms.len()
                                invariant
                                    k <= ms.len(),
                                    row < 8,
                                    col < 8,
                                    moves@ == before + ms@.take(k as int).map_values(
                                        |t: (usize, usize)| (row, col, t.0, t.1),
                                    ),
                                decreases ms.len() - k,
                            {
                                let (tr, tc) = ms[k];
                                moves.push((row, col, tr, tc));
                                proof {
                                    assert(ms@.take(k + 1).map_values(
                                        |t: (usize, usize)| (row, col, t.0, t.1),
                                    ) =~= ms@.take(k as int).map_values(
                                        |t: (usize, usize)| (row, col, t.0, t.1),
                                    ).push((row, col, tr, tc)));
                                }
                                k = k + 1;
                            }
                            assert(ms@.take(ms.len() as int) =~= ms@);
                        }
                    }
                }
                assert(moves@ == before + piece_moves(b, color, has_jumps, row as int, col as int));
                assert(moves@ + moves_from(b, color, has_jumps, row as int, col + 1) =~= before + moves_from(
                    b,
                    color,
                    has_jumps,
                    row as int,
                    col as int,
                ));
                col = col + 1;
            }
            assert(moves_from(b, color, has_jumps, row as int, 8) == moves_from(b, color, has_jumps, row + 1, 0));
            row = row + 1;
        }
        assert(moves@ =~= all_moves(b, color));
        moves
    }

    /// The board balance for `for_color`.
    fn evaluate_board(&self, for_color: CheckersColor) -> (v: i32)
        ensures
            v == board_worth(self.state().board, for_color),
    {
        proof {
            lemma_cboard_view(self.board);
        }
        let ghost b = self.state().board;
        let mut score: i32 = 0;
        let mut row: usize = 0;
        while row < 8
            invariant
                row <= 8,
                b == self.state().board,
                score + worth_from(b, for_color, row as int, 0) == board_worth(b, for_color),
                -335 * (8 * row) <= score <= 335 * (8 * row),
            decreases 8 - row,
        {
            let mut col: usize = 0;
            while col < 8
                invariant
                    row < 8,
                    col <= 8,
                    b == self.state().board,
                    score + worth_from(b, for_color, row as int, col as int) == board_worth(b, for_color),
                    -335 * (8 * row + col) <= score <= 335 * (8 * row + col),
                decreases 8 - col,
            {
                if let Some(p) = self.board[row][col] {
                    let piece_val: i32 = match p.piece_type {
                        CheckersPieceType::Man => 100,
                        CheckersPieceType::King => 300,
                    };
                    // Positional bonus: advance men toward promotion
                    let pos_bonus: i32 = match p.color {
                        CheckersColor::White => row as i32 * 5,
                        CheckersColor::Black => (7 - row as i32) * 5,
                    };
                    let val = piece_val + pos_bonus;
                    if p.color == for_color {
                        score = score + val;
                    } else {
                        score = score - val;
                    }
                }
                col = col + 1;
            }
            row = row + 1;
        }
        score
    }

    /// The game after the search tries a move of the side to move.
    fn try_move(&self, m: (usize, usize, usize, usize)) -> (next: CheckersGame)
        requires
            self.status == GameStatus::Playing,
            m.0 < 8,
            m.1 < 8,
            m.2 < 8,
            m.3 < 8,
        ensures
            next.state() == step_state(self.state(), m),
    {
        reveal(step_state);
        let mut next = self.copy();
        let mv = payload_for(m);
        let player = self.current_turn.to_player();
        let _ = next.make_move(&mv, &player);
        next
    }

    /// Alpha-beta search for `ai_color`; the side to move maximizes when it
    /// is `ai_color`, whatever `_maximizing` says.
    fn checkers_minimax(&self, depth: u8, alpha: i32, beta: i32, _maximizing: bool, ai_color: CheckersColor) -> (v: i32)
        requires
            i32::MIN + 1 <= alpha < beta <= i32::MAX - 1,
        ensures
            fail_soft(v as int, alpha as int, beta as int, search_value(self.state(), depth as nat, ai_color)),
        decreases depth,
    {
        if self.status != GameStatus::Playing || depth == 0 {
            return self.evaluate_board(ai_color);
        }
        let ghost st = self.state();
        let ghost d = (depth - 1) as nat;
        let current = self.current_turn;
        let is_max = current == ai_color;
        let moves = self.turn_moves();
        if moves.len() == 0 {
            return if is_max { -50000 } else { 50000 };
        }
        let ghost total = best_value(st, moves@, d, is_max, ai_color);
        assert(total == search_value(st, depth as nat, ai_color));
        if is_max {
            let mut a = alpha;
            let mut best: i32 = i32::MIN + 1;
            let mut i: usize = 0;
            loop
                invariant_except_break
                    a < beta,
                    i <= moves.len(),
                    a == (if best > alpha { best } else { alpha }),
                    best <= alpha ==> best_value(st, moves@.take(i as int), d, true, ai_color) <= best,
                    best > alpha ==> best_value(st, moves@.take(i as int), d, true, ai_color) == best,
                invariant
                    st == self.state(),
                    self.status == GameStatus::Playing,
                    depth >= 1,
                    d == depth - 1,
                    i32::MIN + 1 <= alpha < beta <= i32::MAX - 1,
                    forall|m: (usize, usize, usize, usize)| #[trigger] moves@.contains(m) ==> turn_moves(st).contains(m),
                    total == best_value(st, moves@, d, true, ai_color),
                    i32::MIN + 1 <= best,
                ensures
                    fail_soft(best as int, alpha as int, beta as int, total),
                decreases moves.len() - i,
            {
                if i >= moves.len() {
                    assert(moves@.take(i as int) =~= moves@);
                    break;
                }
                let m = moves[i];
                proof {
                    assert(moves@.contains(m));
                    lemma_turn_moves_on_board(st, m);
                }
                let ghost prev = best_value(st, moves@.take(i as int), d, true, ai_color);
                let next = self.try_move(m);
                let val = next.checkers_minimax(depth - 1, a, beta, false, ai_color);
                proof {
                    let t = moves@.take(i + 1);
                    assert(t.drop_last() =~= moves@.take(i as int));
                    assert(t.last() == m);
                    let vi = search_value(next.state(), d, ai_color);
                    assert(best_value(st, t, d, true, ai_color) == (if vi > prev { vi } else { prev }));
                }
                if val > best {
                    best = val;
                }
                if best > a {
                    a = best;
                }
                if a >= beta {
                    proof {
                        lemma_best_prefix(st, moves@, i + 1, d, true, ai_color);
                    }
                    break;
                }
                i = i + 1;
            }
            best
        } else {
            let mut b = beta;
            let mut best: i32 = i32::MAX - 1;
            let mut i: usize = 0;
            loop
                invariant_except_break
                    alpha < b,
                    i <= moves.len(),
                    b == (if best < beta { best } else { beta }),
                    best >= beta ==> best_value(st, moves@.take(i as int), d, false, ai_color) >= best,
                    best < beta ==> best_value(st, moves@.take(i as int), d, false, ai_color) == best,
                invariant
                    st == self.state(),
                    self.status == GameStatus::Playing,
                    depth >= 1,
                    d == depth - 1,
                    i32::MIN + 1 <= alpha < beta <= i32::MAX - 1,
                    forall|m: (usize, usize, usize, usize)| #[trigger] moves@.contains(m) ==> turn_moves(st).contains(m),
                    total == best_value(st, moves@, d, false, ai_color),
                    best <= i32::MAX - 1,
                ensures
                    fail_soft(best as int, alpha as int, beta as int, total),
                decreases moves.len() - i,
            {
                if i >= moves.len() {
                    assert(moves@.take(i as int) =~= moves@);
                    break;
                }
                let m = moves[i];
                proof {
                    assert(moves@.contains(m));
                    lemma_turn_moves_on_board(st, m);
                }
                let ghost prev = best_value(st, moves@.take(i as int), d, false, ai_color);
                let next = self.try_move(m);
                let val = next.checkers_minimax(depth - 1, alpha, b, true, ai_color);
                proof {
                    let t = moves@.take(i + 1);
                    assert(t.drop_last() =~= moves@.take(i as int));
                    assert(t.last() == m);
                    let vi = search_value(next.state(), d, ai_color);
                    assert(best_value(st, t, d, false, ai_color) == (if vi < prev { vi } else { prev }));
                }
                if val < best {
                    best = val;
                }
                if best < b {
                    b = best;
                }
                if alpha >= b {
                    proof {
                        lemma_best_prefix(st, moves@, i + 1, d, false, ai_color);
                    }
                    break;
                }
                i = i + 1;
            }
            best
        }
    }

    /// The easy computer player: the middle one of all moves.
    fn ai_checkers_random(&self) -> (r: Option<MovePayload>)
        ensures
            ({
                let moves = turn_moves(self.state());
                &&& (r is None <==> moves.len() == 0)
                &&& (r matches Some(mv) ==> is_move_payload(mv, moves[(moves.len() / 2) as int]))
            }),
    {
        let moves = self.turn_moves();
        if moves.len() == 0 {
            return None;
        }
        let idx = moves.len() / 2;
        Some(payload_for(moves[idx]))
    }

    /// The computer's move by a full-window search of each move: the first
    /// of greatest value.
    fn ai_checkers_minimax_root(&self, color: CheckersColor, depth: u8) -> (r: Option<MovePayload>)
        requires
            depth >= 1,
            self.status == GameStatus::Playing,
            color == self.current_turn,
        ensures
            search_choice(self.state(), (depth - 1) as nat, r),
    {
        proof {
            lemma_cboard_view(self.board);
        }
        let ghost st = self.state();
        let ghost d = (depth - 1) as nat;
        let moves = self.turn_moves();
        if moves.len() == 0 {
            return None;
        }
        let mut best_val: i32 = i32::MIN + 1;
        let mut best_move = moves[0];
        let ghost mut bk: int = 0;
        let mut i: usize = 0;
        while i < moves.len()
            invariant
                i <= moves.len(),
                moves.len() > 0,
                st == self.state(),
                self.status == GameStatus::Playing,
                color == self.current_turn,
                moves@ == turn_moves(st),
                d == depth - 1,
                depth >= 1,
                0 <= bk < moves.len(),
                best_move == moves@[bk],
                i == 0 ==> bk == 0 && best_val == i32::MIN + 1,
                i > 0 ==> bk < i && best_val == search_value(step_state(st, moves@[bk]), d, color),
                i > 0 ==> forall|j: int|
                    0 <= j < i ==> #[trigger] search_value(step_state(st, moves@[j]), d, color)
                        <= search_value(step_state(st, moves@[bk]), d, color),
                forall|j: int|
                    0 <= j < bk ==> #[trigger] search_value(step_state(st, moves@[j]), d, color)
                        < search_value(step_state(st, moves@[bk]), d, color),
            decreases moves.len() - i,
        {
            let m = moves[i];
            proof {
                assert(moves@.contains(m));
                lemma_turn_moves_on_board(st, m);
            }
            let next = self.try_move(m);
            let val = next.checkers_minimax(depth - 1, i32::MIN + 1, i32::MAX - 1, next.current_turn != color, color);
            proof {
                lemma_search_bounded(next.state(), d, color);
                assert(val == search_value(step_state(st, moves@[i as int]), d, color));
            }
            if val > best_val {
                best_val = val;
                best_move = m;
                proof {
                    bk = i as int;
                }
            }
            i = i + 1;
        }
        assert(first_best(st, moves@, bk, d, color));
        Some(payload_for(best_move))
    }

    /// The computer's move for the side to play: easy takes the middle
    /// move, normal searches four moves deep, hard eight.
    pub fn get_ai_move(&self, difficulty: AiDifficulty) -> (r: Option<MovePayload>)
        requires
            self.status == GameStatus::Playing,
        ensures
            checkers_ai_choice(*self, difficulty, r),
    {
        let color = self.current_turn;
        match difficulty {
            AiDifficulty::Easy => self.ai_checkers_random(),
            AiDifficulty::Normal => self.ai_checkers_minimax_root(color, 4),
            AiDifficulty::Hard => self.ai_checkers_minimax_root(color, 8),
        }
    }

    /// The game status.
    pub fn status(&self) -> (s: GameStatus)
        ensures
            s == self.status,
    {
        self.status
    }

    /// The side to move.
    pub fn current_player(&self) -> (p: PlayerColor)
        ensures
            p == side_player(self.current_turn),
    {
        self.current_turn.to_player()
    }

    fn get_valid_moves_for_player(&self, color: CheckersColor) -> (res: Vec<ValidMoves>)
        ensures
            valid_view(res@) == valid_moves_of(self.state(), color),
    {
        proof {
            lemma_cboard_view(self.board);
        }
        let ghost st = self.state();
        let has_jumps = self.any_jumps_available(color);
        let mut result: Vec<ValidMoves> = Vec::new();
        let mut row: usize = 0;
        while row < 8
            invariant
                row <= 8,
                st == self.state(),
                has_jumps == any_jumps(st.board, color),
                valid_view(result@) + valid_from(st, color, has_jumps, row as int, 0) == valid_moves_of(st, color),
            decreases 8 - row,
        {
            let mut col: usize = 0;
            while col < 8
                invariant
                    row < 8,
                    col <= 8,
                    st == self.state(),
                    has_jumps == any_jumps(st.board, color),
                    valid_view(result@) + valid_from(st, color, has_jumps, row as int, col as int)
                        == valid_moves_of(st, color),
                decreases 8 - col,
            {
                let ghost before = valid_view(result@);
                let mut allowed = false;
                if let Some(p) = self.board[row][col] {
                    if p.color == color {
                        allowed = match self.must_continue_from {
                            Some(must) => must.0 == row && must.1 == col,
                            None => true,
                        };
                    }
                }
                if allowed {
                    if has_jumps {
                        let jumps = self.jump_moves(row, col);
                        if jumps.len() > 0 {
                            let mut to_list: Vec<(usize, usize)> = Vec::new();
                            let mut k: usize = 0;
                            while k < jumps.len()
                                invariant
                                    k <= jumps.len(),
                                    to_list@ == jumps@.take(k as int).map_values(
                                        |t: (usize, usize, usize, usize)| (t.0, t.1),
                                    ),
                                decreases jumps.len() - k,
                            {
                                to_list.push((jumps[k].0, jumps[k].1));
                                proof {
                                    assert(jumps@.take(k + 1).map_values(
                                        |t: (usize, usize, usize, usize)| (t.0, t.1),
                                    ) =~= jumps@.take(k as int).map_values(
                                        |t: (usize, usize, usize, usize)| (t.0, t.1),
                                    ).push((jumps@[k as int].0, jumps@[k as int].1)));
                                }
                                k = k + 1;
                            }
                            assert(jumps@.take(jumps.len() as int) =~= jumps@);
                            result.push(ValidMoves { from: (row, col), to: to_list, must_jump: true });
                        }
                    } else {
                        let moves = self.simple_moves(row, col);
                        if moves.len() > 0 {
                            result.push(ValidMoves { from: (row, col), to: moves, must_jump: false });
                        }
                    }
                }
                assert(valid_view(result@) =~= before + valid_entry(st, color, has_jumps, row as int, col as int));
                assert(valid_view(result@) + valid_from(st, color, has_jumps, row as int, col + 1) =~= before
                    + valid_from(st, color, has_jumps, row as int, col as int));
                col = col + 1;
            }
            assert(valid_from(st, color, has_jumps, row as int, 8) == valid_from(st, color, has_jumps, row + 1, 0));
            row = row + 1;
        }
        assert(valid_view(result@) =~= valid_moves_of(st, color));
        result
    }

    /// The moves offered to the side to move; none once the game is over.
    pub fn valid_moves(&self) -> (res: Vec<ValidMoves>)
        ensures
            self.status == GameStatus::Playing ==> valid_view(res@) == valid_moves_of(self.state(), self.current_turn),
            self.status != GameStatus::Playing ==> res@.len() == 0,
    {
        if self.status == GameStatus::Playing {
            self.get_valid_moves_for_player(self.current_turn)
        } else {
            Vec::new()
        }
    }
}

fn payload_for(m: (usize, usize, usize, usize)) -> (mv: MovePayload)
    ensures
        is_move_payload(mv, m),
{
    MovePayload {
        from_row: Some(m.0 as u64),
        from_col: Some(m.1 as u64),
        to_row: Some(m.2 as u64),
        to_col: Some(m.3 as u64),
        row: None,
        col: None,
        pass: None,
        promotion: None,
    }
}

/// What a call of `make_move` on `g0` does: `g1` is the game after it and
/// `r` its result.
pub open spec fn checkers_played(g0: CheckersGame, g1: CheckersGame, mv: MovePayload, player: PlayerColor, r: Result<(), MoveError>) -> bool {
    match r {
        Err(e) => checkers_move_error(g0.state(), mv, player) == Some(e) && g1
            == g0,
        Ok(()) => checkers_move_error(g0.state(), mv, player) is None && g1.state()
            == checkers_after(
            g0.state(),
            mv.from_row->0 as int,
            mv.from_col->0 as int,
            mv.to_row->0 as int,
            mv.to_col->0 as int,
        ),
    }
}

/// What `get_ai_move` answers for `g` at `difficulty`.
pub open spec fn checkers_ai_choice(g: CheckersGame, difficulty: AiDifficulty, r: Option<MovePayload>) -> bool {
    &&& (difficulty == AiDifficulty::Easy ==> ({
        let moves = turn_moves(g.state());
        &&& (r is None <==> moves.len() == 0)
        &&& (r matches Some(mv) ==> is_move_payload(mv, moves[(moves.len() / 2) as int]))
    }))
    &&& (difficulty == AiDifficulty::Normal ==> search_choice(g.state(), 3, r))
    &&& (difficulty == AiDifficulty::Hard ==> search_choice(g.state(), 7, r))
}

/// Capturing is compulsory: while the side to move has a capture, a move
/// that is not a jump is refused.
pub proof fn capture_is_compulsory(s: CheckersState, fr: int, fc: int, tr: int, tc: int)
    requires
        on_board(fr, fc),
        on_board(tr, tc),
        s.must is None,
        s.board[fr][fc] matches Some(p) && p.color == s.turn,
        any_jumps(s.board, s.turn),
        !is_jump_shape(fr, fc, tr, tc),
    ensures
        rule_error(s, fr, fc, tr, tc) == Some(MoveError::MustJump),
{
}

/// During a multi-jump only the piece that jumped may move.
pub proof fn jumping_piece_must_continue(s: CheckersState, fr: int, fc: int, tr: int, tc: int)
    requires
        on_board(fr, fc),
        on_board(tr, tc),
        s.must matches Some(sq) && sq != (fr as usize, fc as usize),
    ensures
        rule_error(s, fr, fc, tr, tc) == Some(MoveError::MustContinueJump),
{
}

/// An accepted move, step or jump, empties the square it leaves and puts
/// the moving piece on its landing square, crowned when it is a man that
/// reaches the far row of its colour (row 7 for White, row 0 for Black).
pub proof fn moved_piece_lands_crowned_on_far_row(g0: CheckersGame, g1: CheckersGame, mv: MovePayload, player: PlayerColor)
    requires
        checkers_played(g0, g1, mv, player, Ok(())),
    ensures
        ({
            let fr = mv.from_row->0 as int;
            let fc = mv.from_col->0 as int;
            let tr = mv.to_row->0 as int;
            let tc = mv.to_col->0 as int;
            let p = g0.state().board[fr][fc]->0;
            let far = if p.color == CheckersColor::White { 7int } else { 0int };
            &&& g0.state().board[fr][fc] is Some
            &&& g1.state().board[fr][fc] is None
            &&& p.piece_type == CheckersPieceType::Man && tr == far ==> g1.state().board[tr][tc] == Some(
                CheckersPiece { piece_type: CheckersPieceType::King, color: p.color },
            )
            &&& !(p.piece_type == CheckersPieceType::Man && tr == far) ==> g1.state().board[tr][tc] == Some(p)
        }),
{
    let s0 = g0.state();
    let fr = mv.from_row->0 as int;
    let fc = mv.from_col->0 as int;
    let tr = mv.to_row->0 as int;
    let tc = mv.to_col->0 as int;
    assert(rule_error(s0, fr, fc, tr, tc) is None);
    assert(on_board(fr, fc) && on_board(tr, tc));
    assert(s0.board[fr][fc] is Some);
    if !is_jump_shape(fr, fc, tr, tc) {
        lemma_steps_land_empty(s0.board, fr, fc, (tr as usize, tc as usize));
    }
    assert((fr, fc) != (tr, tc));
    let m = checkers_moved(s0, fr, fc, tr, tc);
    assert(g1.state().board == m.board);
}

} // verus!
