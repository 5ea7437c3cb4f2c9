//! Chess: the rules of movement (castling, en passant, promotion), check,
//! checkmate, stalemate and threefold repetition, and a computer opponent.

use vstd::prelude::*;
use super::{
    fail_soft, other_player, text_equals, won_by, AiDifficulty, GameStatus, MoveError, MovePayload,
    PlayerColor,
};

verus! {

#[derive(Debug, Clone, Copy, PartialEq, Eq, Structural)]
pub enum PieceType {
    King,
    Queen,
    Rook,
    Bishop,
    Knight,
    Pawn,
}

#[derive(Debug, Clone, Copy, PartialEq, Eq, Structural)]
pub struct Piece {
    pub piece_type: PieceType,
    pub color: Color,
}

#[derive(Debug, Clone, Copy, PartialEq, Eq, Structural)]
pub enum Color {
    White,
    Black,
}

pub open spec fn opponent(c: Color) -> Color {
    match c {
        Color::White => Color::Black,
        Color::Black => Color::White,
    }
}

pub open spec fn player_of(c: Color) -> PlayerColor {
    match c {
        Color::White => PlayerColor::White,
        Color::Black => PlayerColor::Black,
    }
}

impl Color {
    fn opposite(&self) -> (r: Color)
        ensures
            r == opponent(*self),
    {
        match self {
            Color::White => Color::Black,
            Color::Black => Color::White,
        }
    }

    fn to_player(&self) -> (r: PlayerColor)
        ensures
            r == player_of(*self),
    {
        match self {
            Color::White => PlayerColor::White,
            Color::Black => PlayerColor::Black,
        }
    }
}

pub type Board = [[Option<Piece>; 8]; 8];

#[derive(Debug, Clone, Copy, PartialEq, Eq, Structural)]
pub struct CastlingRights {
    pub white_king_side: bool,
    pub white_queen_side: bool,
    pub black_king_side: bool,
    pub black_queen_side: bool,
}

/// A game of chess. Row 0 is white's back rank.
#[derive(Clone)]
pub struct ChessGame {
    pub board: Board,
    pub current_turn: Color,
    pub castling: CastlingRights,
    pub en_passant: Option<(usize, usize)>,
    pub half_move_clock: u32,
    pub full_move_number: u32,
    pub status: GameStatus,
    pub last_move: Option<(usize, usize, usize, usize)>,
    /// The key of every position reached while the game was in progress,
    /// one entry per time it was reached.
    pub position_history: Vec<Vec<u8>>,
}

// ---------------------------------------------------------------------------
// The model: a position is the board, the castling rights and the en passant
// target; the rules below are stated over it.
// ---------------------------------------------------------------------------

pub struct ChessPosition {
    pub board: Seq<Seq<Option<Piece>>>,
    pub castling: CastlingRights,
    pub en_passant: Option<(usize, usize)>,
}

pub open spec fn board_view(b: Board) -> Seq<Seq<Option<Piece>>> {
    b@.map_values(|row: [Option<Piece>; 8]| row@)
}

pub open spec fn on_board(r: int, c: int) -> bool {
    0 <= r < 8 && 0 <= c < 8
}

pub open spec fn shaped(b: Seq<Seq<Option<Piece>>>) -> bool {
    b.len() == 8 && forall|r: int| 0 <= r < 8 ==> #[trigger] b[r].len() == 8
}

impl ChessGame {
    /// The en passant target, when there is one, lies on the board.
    pub open spec fn wf(&self) -> bool {
        self.en_passant matches Some(e) ==> e.0 < 8 && e.1 < 8
    }

    pub open spec fn history_view(&self) -> Seq<Seq<u8>> {
        self.position_history@.map_values(|k: Vec<u8>| k@)
    }

    pub open spec fn position(&self) -> ChessPosition {
        ChessPosition {
            board: board_view(self.board),
            castling: self.castling,
            en_passant: self.en_passant,
        }
    }
}

pub proof fn lemma_board_view(b: Board)
    ensures
        shaped(board_view(b)),
        forall|r: int, c: int| on_board(r, c) ==> #[trigger] board_view(b)[r][c] == b[r][c],
{
    assert forall|r: int| 0 <= r < 8 implies #[trigger] board_view(b)[r].len() == 8 by {
        assert(board_view(b)[r] == b@[r]@);
    }
    assert forall|r: int, c: int| on_board(r, c) implies #[trigger] board_view(b)[r][c] == b[r][c] by {
        assert(board_view(b)[r] == b@[r]@);
    }
}

/// The square a piece may step to: on the board and not held by its own side.
#[verifier::opaque]
pub open spec fn step_to(pos: ChessPosition, color: Color, r: int, c: int) -> Seq<(usize, usize)> {
    if on_board(r, c) && (match pos.board[r][c] {
        None => true,
        Some(p) => p.color != color,
    }) {
        seq![(r as usize, c as usize)]
    } else {
        seq![]
    }
}

pub open spec fn unit_dir(dr: int, dc: int) -> bool {
    -1 <= dr <= 1 && -1 <= dc <= 1 && (dr != 0 || dc != 0)
}

pub open spec fn ray_measure(r: int, c: int, dr: int, dc: int) -> int {
    (if dr > 0 {
        8 - r
    } else if dr < 0 {
        r + 1
    } else {
        0
    }) + (if dc > 0 {
        8 - c
    } else if dc < 0 {
        c + 1
    } else {
        0
    })
}

/// The squares a sliding piece reaches from (r, c) on, in direction
/// (dr, dc): empty squares up to and including the first piece of the other
/// side, stopping before a piece of its own.
#[verifier::opaque]
pub open spec fn ray(pos: ChessPosition, color: Color, r: int, c: int, dr: int, dc: int) -> Seq<(usize, usize)>
    decreases ray_measure(r, c, dr, dc),
{
    if on_board(r, c) && unit_dir(dr, dc) {
        match pos.board[r][c] {
            None => seq![(r as usize, c as usize)] + ray(pos, color, r + dr, c + dc, dr, dc),
            Some(p) => if p.color != color {
                seq![(r as usize, c as usize)]
            } else {
                seq![]
            },
        }
    } else {
        seq![]
    }
}

pub open spec fn pawn_dir(color: Color) -> int {
    if color == Color::White { 1 } else { -1 }
}

pub open spec fn pawn_start(color: Color) -> int {
    if color == Color::White { 1 } else { 6 }
}

pub open spec fn back_rank(color: Color) -> int {
    if color == Color::White { 0 } else { 7 }
}

pub open spec fn promotion_rank(color: Color) -> int {
    if color == Color::White { 7 } else { 0 }
}

/// One square forward onto an empty square, and two from the starting rank.
#[verifier::opaque]
pub open spec fn pawn_forward(pos: ChessPosition, row: int, col: int, color: Color) -> Seq<(usize, usize)> {
    let r = row + pawn_dir(color);
    if 0 <= r < 8 && pos.board[r][col] is None {
        seq![(r as usize, col as usize)] + (if row == pawn_start(color) && pos.board[row + 2
            * pawn_dir(color)][col] is None {
            seq![((row + 2 * pawn_dir(color)) as usize, col as usize)]
        } else {
            seq![]
        })
    } else {
        seq![]
    }
}

/// A diagonal step onto a piece of the other side, and onto the en passant
/// target.
#[verifier::opaque]
pub open spec fn pawn_diag(pos: ChessPosition, row: int, col: int, color: Color, dc: int) -> Seq<(usize, usize)> {
    let r = row + pawn_dir(color);
    let c = col + dc;
    if on_board(r, c) {
        (if pos.board[r][c] matches Some(p) && p.color != color {
            seq![(r as usize, c as usize)]
        } else {
            seq![]
        }) + (if pos.en_passant == Some((r as usize, c as usize)) {
            seq![(r as usize, c as usize)]
        } else {
            seq![]
        })
    } else {
        seq![]
    }
}

pub open spec fn pawn_moves(pos: ChessPosition, row: int, col: int, color: Color) -> Seq<(usize, usize)> {
    pawn_forward(pos, row, col, color) + pawn_diag(pos, row, col, color, -1) + pawn_diag(
        pos,
        row,
        col,
        color,
        1,
    )
}

pub open spec fn knight_moves(pos: ChessPosition, row: int, col: int, color: Color) -> Seq<(usize, usize)> {
    step_to(pos, color, row - 2, col - 1) + step_to(pos, color, row - 2, col + 1) + step_to(
        pos,
        color,
        row - 1,
        col - 2,
    ) + step_to(pos, color, row - 1, col + 2) + step_to(pos, color, row + 1, col - 2) + step_to(
        pos,
        color,
        row + 1,
        col + 2,
    ) + step_to(pos, color, row + 2, col - 1) + step_to(pos, color, row + 2, col + 1)
}

pub open spec fn diagonal_rays(pos: ChessPosition, row: int, col: int, color: Color) -> Seq<(usize, usize)> {
    ray(pos, color, row - 1, col - 1, -1, -1) + ray(pos, color, row - 1, col + 1, -1, 1) + ray(
        pos,
        color,
        row + 1,
        col - 1,
        1,
        -1,
    ) + ray(pos, color, row + 1, col + 1, 1, 1)
}

pub open spec fn straight_rays(pos: ChessPosition, row: int, col: int, color: Color) -> Seq<(usize, usize)> {
    ray(pos, color, row - 1, col, -1, 0) + ray(pos, color, row + 1, col, 1, 0) + ray(
        pos,
        color,
        row,
        col - 1,
        0,
        -1,
    ) + ray(pos, color, row, col + 1, 0, 1)
}

/// The queen's eight rays, in the order (-1,-1), (-1,0), (-1,1), (0,-1),
/// (0,1), (1,-1), (1,0), (1,1).
pub open spec fn queen_rays(pos: ChessPosition, row: int, col: int, color: Color) -> Seq<(usize, usize)> {
    ray(pos, color, row - 1, col - 1, -1, -1) + ray(pos, color, row - 1, col, -1, 0) + ray(
        pos,
        color,
        row - 1,
        col + 1,
        -1,
        1,
    ) + ray(pos, color, row, col - 1, 0, -1) + ray(pos, color, row, col + 1, 0, 1) + ray(
        pos,
        color,
        row + 1,
        col - 1,
        1,
        -1,
    ) + ray(pos, color, row + 1, col, 1, 0) + ray(pos, color, row + 1, col + 1, 1, 1)
}

pub open spec fn king_steps(pos: ChessPosition, row: int, col: int, color: Color) -> Seq<(usize, usize)> {
    step_to(pos, color, row - 1, col - 1) + step_to(pos, color, row - 1, col) + step_to(
        pos,
        color,
        row - 1,
        col + 1,
    ) + step_to(pos, color, row, col - 1) + step_to(pos, color, row, col + 1) + step_to(
        pos,
        color,
        row + 1,
        col - 1,
    ) + step_to(pos, color, row + 1, col) + step_to(pos, color, row + 1, col + 1)
}

/// The moves of the piece on (row, col), ignoring check and castling.
pub open spec fn base_moves(pos: ChessPosition, row: int, col: int) -> Seq<(usize, usize)> {
    match pos.board[row][col] {
        None => seq![],
        Some(p) => match p.piece_type {
            PieceType::Pawn => pawn_moves(pos, row, col, p.color),
            PieceType::Knight => knight_moves(pos, row, col, p.color),
            PieceType::Bishop => diagonal_rays(pos, row, col, p.color),
            PieceType::Rook => straight_rays(pos, row, col, p.color),
            PieceType::Queen => queen_rays(pos, row, col, p.color),
            PieceType::King => king_steps(pos, row, col, p.color),
        },
    }
}

/// A piece of side `by` on (r, c) could move onto (row, col).
pub open spec fn attacks_from(pos: ChessPosition, r: int, c: int, by: Color, row: int, col: int) -> bool {
    &&& on_board(r, c)
    &&& pos.board[r][c] matches Some(p)
    &&& p.color == by
    &&& base_moves(pos, r, c).contains((row as usize, col as usize))
}

pub open spec fn attacked(pos: ChessPosition, row: int, col: int, by: Color) -> bool {
    exists|r: int, c: int| #[trigger] attacks_from(pos, r, c, by, row, col)
}

pub open spec fn is_king_of(x: Option<Piece>, color: Color) -> bool {
    x matches Some(p) && p.piece_type == PieceType::King && p.color == color
}

/// The first king of the side in row-major order from (r, c) on.
pub open spec fn king_search(pos: ChessPosition, color: Color, r: int, c: int) -> Option<(usize, usize)>
    decreases 8 - r, 8 - c,
{
    if r < 0 || r >= 8 {
        None
    } else if c < 0 || c >= 8 {
        king_search(pos, color, r + 1, 0)
    } else if is_king_of(pos.board[r][c], color) {
        Some((r as usize, c as usize))
    } else {
        king_search(pos, color, r, c + 1)
    }
}

pub open spec fn in_check(pos: ChessPosition, color: Color) -> bool {
    match king_search(pos, color, 0, 0) {
        Some(k) => attacked(pos, k.0 as int, k.1 as int, opponent(color)),
        None => false,
    }
}

#[verifier::opaque]
pub open spec fn castle_moves(pos: ChessPosition, row: int, col: int, color: Color) -> Seq<(usize, usize)> {
    let b = back_rank(color);
    let ks = if color == Color::White {
        pos.castling.white_king_side
    } else {
        pos.castling.black_king_side
    };
    let qs = if color == Color::White {
        pos.castling.white_queen_side
    } else {
        pos.castling.black_queen_side
    };
    if row == b && col == 4 {
        (if ks && pos.board[b][5] is None && pos.board[b][6] is None && !attacked(
            pos,
            b,
            5,
            opponent(color),
        ) && !attacked(pos, b, 6, opponent(color)) {
            seq![(b as usize, 6usize)]
        } else {
            seq![]
        }) + (if qs && pos.board[b][3] is None && pos.board[b][2] is None && pos.board[b][1] is None
            && !attacked(pos, b, 3, opponent(color)) && !attacked(pos, b, 2, opponent(color)) {
            seq![(b as usize, 2usize)]
        } else {
            seq![]
        })
    } else {
        seq![]
    }
}

/// The moves of the piece on (row, col), ignoring whether they leave its own
/// king in check; with `castling`, a king not in check may also castle.
pub open spec fn pseudo_moves(pos: ChessPosition, row: int, col: int, castling: bool) -> Seq<(usize, usize)> {
    base_moves(pos, row, col) + (if castling && (pos.board[row][col] matches Some(p)
        && p.piece_type == PieceType::King && !in_check(pos, p.color)) {
        castle_moves(pos, row, col, pos.board[row][col]->0.color)
    } else {
        seq![]
    })
}

pub open spec fn moved_piece(piece: Piece, tr: int, promo: Option<PieceType>) -> Piece {
    if piece.piece_type == PieceType::Pawn && tr == promotion_rank(piece.color) {
        Piece {
            piece_type: match promo {
                Some(t) => t,
                None => PieceType::Queen,
            },
            color: piece.color,
        }
    } else {
        piece
    }
}

/// What square (r, c) holds after `piece` moves from (fr, fc) to (tr, tc):
/// the mover leaves its square and lands (promoted if due), a castling king
/// brings its rook along, an en passant capture removes the passed pawn.
pub open spec fn raw_cell(
    pos: ChessPosition,
    piece: Piece,
    fr: int,
    fc: int,
    tr: int,
    tc: int,
    promo: Option<PieceType>,
    r: int,
    c: int,
) -> Option<Piece> {
    let b = back_rank(piece.color);
    let castle = piece.piece_type == PieceType::King && fr == b && fc == 4;
    let ep_capture = piece.piece_type == PieceType::Pawn && pos.en_passant == Some(
        (tr as usize, tc as usize),
    );
    let cap_row = if piece.color == Color::White { tr - 1 } else { tr + 1 };
    if r == fr && c == fc {
        None
    } else if r == tr && c == tc {
        Some(moved_piece(piece, tr, promo))
    } else if castle && tc == 6 && r == b && c == 7 {
        None
    } else if castle && tc == 6 && r == b && c == 5 {
        pos.board[b][7]
    } else if castle && tc == 2 && r == b && c == 0 {
        None
    } else if castle && tc == 2 && r == b && c == 3 {
        pos.board[b][0]
    } else if ep_capture && r == cap_row && c == tc {
        None
    } else {
        pos.board[r][c]
    }
}

/// Castling rights after `piece` leaves (fr, fc): a king loses both, a rook
/// leaving its corner loses that side.
pub open spec fn castling_after(cr: CastlingRights, piece: Piece, fr: int, fc: int) -> CastlingRights {
    let king_moved = piece.piece_type == PieceType::King;
    let rook = piece.piece_type == PieceType::Rook;
    let white = piece.color == Color::White;
    CastlingRights {
        white_king_side: cr.white_king_side && !(king_moved && white) && !(rook && white && fr == 0
            && fc == 7),
        white_queen_side: cr.white_queen_side && !(king_moved && white) && !(rook && white && fr
            == 0 && fc == 0),
        black_king_side: cr.black_king_side && !(king_moved && !white) && !(rook && !white && fr
            == 7 && fc == 7),
        black_queen_side: cr.black_queen_side && !(king_moved && !white) && !(rook && !white && fr
            == 7 && fc == 0),
    }
}

/// The en passant target after a move: the square a pawn passed over by its
/// double step.
pub open spec fn en_passant_after(piece: Piece, fr: int, fc: int, tr: int) -> Option<(usize, usize)> {
    if piece.piece_type == PieceType::Pawn && (tr - fr == 2 || fr - tr == 2) {
        Some((((fr + tr) / 2) as usize, fc as usize))
    } else {
        None
    }
}

/// The position after moving the piece on (fr, fc) to (tr, tc), with no
/// check of legality; an empty source square leaves the position as it is.
pub open spec fn apply_raw(
    pos: ChessPosition,
    fr: int,
    fc: int,
    tr: int,
    tc: int,
    promo: Option<PieceType>,
) -> ChessPosition {
    match pos.board[fr][fc] {
        None => pos,
        Some(piece) => ChessPosition {
            board: Seq::new(
                8,
                |r: int| Seq::new(8, |c: int| raw_cell(pos, piece, fr, fc, tr, tc, promo, r, c)),
            ),
            castling: castling_after(pos.castling, piece, fr, fc),
            en_passant: en_passant_after(piece, fr, fc, tr),
        },
    }
}

/// A move of the piece on (fr, fc) to (tr, tc) that `apply_raw` can carry
/// out on a board: all squares on the board, and an en passant capture
/// whose captured pawn stands on the board.
pub open spec fn raw_move_ok(pos: ChessPosition, fr: int, fc: int, tr: int, tc: int) -> bool {
    &&& on_board(fr, fc)
    &&& on_board(tr, tc)
    &&& ((pos.board[fr][fc] matches Some(p) && p.piece_type == PieceType::Pawn) && pos.en_passant == Some(
        (tr as usize, tc as usize),
    ) ==> (if pos.board[fr][fc]->0.color == Color::White {
        tr >= 1
    } else {
        tr <= 6
    }))
}

pub open spec fn keeps_king_safe(pos: ChessPosition, fr: int, fc: int, t: (usize, usize), color: Color) -> bool {
    !in_check(apply_raw(pos, fr, fc, t.0 as int, t.1 as int, None), color)
}

/// The candidates after which the mover's own king is not in check, in order.
pub open spec fn safe_targets(
    pos: ChessPosition,
    fr: int,
    fc: int,
    color: Color,
    cands: Seq<(usize, usize)>,
) -> Seq<(usize, usize)>
    decreases cands.len(),
{
    if cands.len() == 0 {
        seq![]
    } else {
        let rest = safe_targets(pos, fr, fc, color, cands.drop_last());
        if keeps_king_safe(pos, fr, fc, cands.last(), color) {
            rest.push(cands.last())
        } else {
            rest
        }
    }
}

/// The legal destinations of the piece on (row, col).
pub open spec fn legal_targets(pos: ChessPosition, row: int, col: int) -> Seq<(usize, usize)> {
    match pos.board[row][col] {
        None => seq![],
        Some(p) => safe_targets(pos, row, col, p.color, pseudo_moves(pos, row, col, true)),
    }
}

pub open spec fn can_move_from(pos: ChessPosition, color: Color, r: int, c: int) -> bool {
    &&& on_board(r, c)
    &&& pos.board[r][c] matches Some(p)
    &&& p.color == color
    &&& legal_targets(pos, r, c).len() > 0
}

pub open spec fn has_legal_move(pos: ChessPosition, color: Color) -> bool {
    exists|r: int, c: int| #[trigger] can_move_from(pos, color, r, c)
}



impl ChessGame {
    fn material_value(pt: PieceType) -> (v: i32)
        ensures
            v == material(pt),
    {
        match pt {
            PieceType::Pawn => 100,
            PieceType::Knight => 320,
            PieceType::Bishop => 330,
            PieceType::Rook => 500,
            PieceType::Queen => 900,
            PieceType::King => 20000,
        }
    }

    /// Piece-square tables indexed [row][col] from the piece's own side.
    pub fn pst_bonus(pt: PieceType, color: Color, row: usize, col: usize) -> (v: i32)
        requires
            row < 8,
            col < 8,
        ensures
            v == pst(pt, color, row as int, col as int),
    {
        let r = if color == Color::White { row } else { 7 - row };
        match pt {
            PieceType::Pawn => PAWN_TABLE[r][col],
            PieceType::Knight => KNIGHT_TABLE[r][col],
            PieceType::Bishop => BISHOP_TABLE[r][col],
            PieceType::Rook => ROOK_TABLE[r][col],
            PieceType::Queen => QUEEN_TABLE[r][col],
            PieceType::King => KING_TABLE[r][col],
        }
    }

    fn evaluate(&self, for_color: Color) -> (v: i32)
        ensures
            v == evaluation(self.position(), self.status, for_color),
    {
        if self.status == GameStatus::WhiteWon {
            return if for_color == Color::White { 90000 } else { -90000 };
        }
        if self.status == GameStatus::BlackWon {
            return if for_color == Color::Black { 90000 } else { -90000 };
        }
        if self.status == GameStatus::Draw {
            return 0;
        }
        proof {
            lemma_board_view(self.board);
            lemma_score_bounded(self.position(), for_color, 0, 0);
        }
        let ghost pos = self.position();
        let mut score: i32 = 0;
        let mut row: usize = 0;
        while row < 8
            invariant
                row <= 8,
                pos == self.position(),
                score + score_from(pos, for_color, row as int, 0) == score_from(pos, for_color, 0, 0),
                -20050 * (8 * row) <= score <= 20050 * (8 * row),
            decreases 8 - row,
        {
            let mut col: usize = 0;
            while col < 8
                invariant
                    row < 8,
                    col <= 8,
                    pos == self.position(),
                    score + score_from(pos, for_color, row as int, col as int) == score_from(
                        pos,
                        for_color,
                        0,
                        0,
                    ),
                    -20050 * (8 * row + col) <= score <= 20050 * (8 * row + col),
                decreases 8 - col,
            {
                proof {
                    lemma_square_value_bounded(pos.board[row as int][col as int], row as int, col as int, for_color);
                }
                if let Some(p) = self.board[row][col] {
                    let v = Self::material_value(p.piece_type) + Self::pst_bonus(
                        p.piece_type,
                        p.color,
                        row,
                        col,
                    );
                    if p.color == for_color {
                        score = score + v;
                    } else {
                        score = score - v;
                    }
                }
                col = col + 1;
            }
            row = row + 1;
        }
        score
    }

    fn victim_key_of(&self, m: (usize, usize, usize, usize)) -> (k: i32)
        requires
            m.2 < 8,
            m.3 < 8,
        ensures
            k == victim_key(self.position(), m),
    {
        proof {
            lemma_board_view(self.board);
        }
        if let Some(victim) = self.board[m.2][m.3] {
            -Self::material_value(victim.piece_type)
        } else {
            0
        }
    }

    /// Orders moves so that captures of the most valuable pieces come first,
    /// keeping the order among equal keys.
    fn sort_by_victim(&self, moves: &Vec<(usize, usize, usize, usize)>) -> (res: Vec<(usize, usize, usize, usize)>)
        requires
            forall|i: int| 0 <= i < moves.len() ==> (#[trigger] moves@[i]).2 < 8 && moves@[i].3 < 8,
        ensures
            res@ == sort_moves(self.position(), moves@),
    {
        let ghost pos = self.position();
        let mut sorted: Vec<(usize, usize, usize, usize)> = Vec::new();
        let mut i: usize = 0;
        while i < moves.len()
            invariant
                i <= moves.len(),
                pos == self.position(),
                forall|i: int| 0 <= i < moves.len() ==> (#[trigger] moves@[i]).2 < 8 && moves@[i].3 < 8,
                sorted@ == sort_moves(pos, moves@.take(i as int)),
                forall|t: int| 0 <= t < sorted.len() ==> (#[trigger] sorted@[t]).2 < 8 && sorted@[t].3 < 8,
            decreases moves.len() - i,
        {
            let m = moves[i];
            let k = self.victim_key_of(m);
            let mut j: usize = 0;
            while j < sorted.len() && self.victim_key_of(sorted[j]) <= k
                invariant
                    j <= sorted.len(),
                    pos == self.position(),
                    forall|t: int| 0 <= t < sorted.len() ==> (#[trigger] sorted@[t]).2 < 8 && sorted@[t].3 < 8,
                    forall|t: int| 0 <= t < j ==> victim_key(pos, #[trigger] sorted@[t]) <= k,
                decreases sorted.len() - j,
            {
                j = j + 1;
            }
            proof {
                lemma_insert_index_scan(pos, sorted@, k as int, j as int);
                assert(moves@.take(i + 1).drop_last() =~= moves@.take(i as int));
                assert(moves@.take(i + 1).last() == m);
            }
            let ghost before = sorted@;
            sorted.insert(j, m);
            proof {
                assert forall|t: int| 0 <= t < sorted.len() implies (#[trigger] sorted@[t]).2 < 8 && sorted@[t].3 < 8 by {
                    if t < j {
                        assert(sorted@[t] == before[t]);
                    } else if t > j {
                        assert(sorted@[t] == before[t - 1]);
                    }
                }
            }
            i = i + 1;
        }
        assert(moves@.take(moves.len() as int) =~= moves@);
        sorted
    }

    /// The position the search reaches by a legal move of the side to move,
    /// promoting to a queen, with mate or stalemate recorded.
    fn search_child(&self, m: (usize, usize, usize, usize), mover: Color) -> (next: ChessGame)
        requires
            all_legal_moves(self.position(), mover).contains(m),
        ensures
            next.position() == child_position(self.position(), m),
            next.current_turn == opponent(self.current_turn),
            next.status == child_status(
                child_position(self.position(), m),
                opponent(self.current_turn),
                self.status,
            ),
    {
        proof {
            lemma_board_view(self.board);
            lemma_moves_from_legal(self.position(), mover, 0, 0, m);
            lemma_legal_ok(self.position(), m.0 as int, m.1 as int, (m.2, m.3));
        }
        let mut next = self.probe();
        next.apply_move_raw(m.0, m.1, m.2, m.3, Some(PieceType::Queen));
        next.current_turn = next.current_turn.opposite();
        let nc = next.current_turn;
        if !next.has_any_legal_move(nc) {
            next.status = if next.is_in_check(nc) {
                if nc == Color::White {
                    GameStatus::BlackWon
                } else {
                    GameStatus::WhiteWon
                }
            } else {
                GameStatus::Draw
            };
        }
        next
    }

    /// The legal moves of `color` in the order the search tries them.
    fn search_moves(&self, color: Color) -> (moves: Vec<(usize, usize, usize, usize)>)
        ensures
            moves@ == sort_moves(self.position(), all_legal_moves(self.position(), color)),
            forall|m: (usize, usize, usize, usize)| #[trigger] moves@.contains(m) ==> all_legal_moves(self.position(), color).contains(m),
    {
        proof {
            lemma_board_view(self.board);
        }
        let all = self.all_legal_moves_for(color);
        proof {
            assert forall|i: int| 0 <= i < all.len() implies (#[trigger] all@[i]).2 < 8 && all@[i].3 < 8 by {
                let m = all@[i];
                assert(all@.contains(m));
                lemma_moves_from_legal(self.position(), color, 0, 0, m);
                lemma_legal_ok(self.position(), m.0 as int, m.1 as int, (m.2, m.3));
            }
        }
        let moves = self.sort_by_victim(&all);
        proof {
            assert forall|m: (usize, usize, usize, usize)| #[trigger] moves@.contains(m) implies all_legal_moves(self.position(), color).contains(m) by {
                lemma_sort_moves_members(self.position(), all@, m);
            }
        }
        moves
    }

    /// Alpha-beta search: `maximizing` says whether `for_color` is to move.
    pub fn minimax(&self, depth: u8, alpha: i32, beta: i32, maximizing: bool, for_color: Color) -> (v: i32)
        requires
            i32::MIN + 1 <= alpha < beta <= i32::MAX - 1,
        ensures
            fail_soft(
                v as int,
                alpha as int,
                beta as int,
                minimax_value(
                    self.position(),
                    self.current_turn,
                    self.status,
                    depth as nat,
                    maximizing,
                    for_color,
                ),
            ),
            self.status != GameStatus::Playing || depth == 0 ==> v == evaluation(self.position(), self.status, for_color),
        decreases depth,
    {
        if self.status != GameStatus::Playing {
            return self.evaluate(for_color);
        }
        if depth == 0 {
            return self.evaluate(for_color);
        }
        let ghost pos = self.position();
        let ghost turn = self.current_turn;
        let ghost d = (depth - 1) as nat;
        let current = if maximizing { for_color } else { for_color.opposite() };
        let moves = self.search_moves(current);
        if moves.len() == 0 {
            return self.evaluate(for_color);
        }
        let ghost total = best_child_value(pos, turn, moves@, d, maximizing, for_color);
        assert(total == minimax_value(pos, turn, self.status, depth as nat, maximizing, for_color));
        if maximizing {
            let mut a = alpha;
            let mut best: i32 = i32::MIN + 1;
            let mut i: usize = 0;
            loop
                invariant_except_break
                    a < beta,
                    i <= moves.len(),
                    a == (if best > alpha { best } else { alpha }),
                    best <= alpha ==> best_child_value(pos, turn, moves@.take(i as int), d, true, for_color) <= best,
                    best > alpha ==> best_child_value(pos, turn, moves@.take(i as int), d, true, for_color) == best,
                invariant
                    pos == self.position(),
                    turn == self.current_turn,
                    self.status == GameStatus::Playing,
                    depth >= 1,
                    d == depth - 1,
                    i32::MIN + 1 <= alpha < beta <= i32::MAX - 1,
                    forall|m: (usize, usize, usize, usize)| #[trigger] moves@.contains(m) ==> all_legal_moves(pos, current).contains(m),
                    total == best_child_value(pos, turn, moves@, d, true, for_color),
                    i32::MIN + 1 <= best,
                ensures
                    fail_soft(best as int, alpha as int, beta as int, total),
                decreases moves.len() - i,
            {
                if i >= moves.len() {
                    assert(moves@.take(i as int) =~= moves@);
                    break;
                }
                let m = moves[i];
                assert(moves@.contains(m));
                let ghost prev = best_child_value(pos, turn, moves@.take(i as int), d, true, for_color);
                let next = self.search_child(m, current);
                let val = next.minimax(depth - 1, a, beta, false, for_color);
                proof {
                    let t = moves@.take(i + 1);
                    assert(t.drop_last() =~= moves@.take(i as int));
                    assert(t.last() == m);
                    let vi = minimax_value(next.position(), next.current_turn, next.status, d, false, for_color);
                    assert(best_child_value(pos, turn, t, d, true, for_color) == (if vi > prev { vi } else { prev }));
                }
                if val > best {
                    best = val;
                }
                if best > a {
                    a = best;
                }
                if a >= beta {
                    proof {
                        lemma_best_child_prefix(pos, turn, moves@, i + 1, d, true, for_color);
                    }
                    break;
                }
                i = i + 1;
            }
            best
        } else {
            let mut b = beta;
            let mut best: i32 = i32::MAX - 1;
            let mut i: usize = 0;
            loop
                invariant_except_break
                    alpha < b,
                    i <= moves.len(),
                    b == (if best < beta { best } else { beta }),
                    best >= beta ==> best_child_value(pos, turn, moves@.take(i as int), d, false, for_color) >= best,
                    best < beta ==> best_child_value(pos, turn, moves@.take(i as int), d, false, for_color) == best,
                invariant
                    pos == self.position(),
                    turn == self.current_turn,
                    self.status == GameStatus::Playing,
                    depth >= 1,
                    d == depth - 1,
                    i32::MIN + 1 <= alpha < beta <= i32::MAX - 1,
                    forall|m: (usize, usize, usize, usize)| #[trigger] moves@.contains(m) ==> all_legal_moves(pos, current).contains(m),
                    total == best_child_value(pos, turn, moves@, d, false, for_color),
                    best <= i32::MAX - 1,
                ensures
                    fail_soft(best as int, alpha as int, beta as int, total),
                decreases moves.len() - i,
            {
                if i >= moves.len() {
                    assert(moves@.take(i as int) =~= moves@);
                    break;
                }
                let m = moves[i];
                assert(moves@.contains(m));
                let ghost prev = best_child_value(pos, turn, moves@.take(i as int), d, false, for_color);
                let next = self.search_child(m, current);
                let val = next.minimax(depth - 1, alpha, b, true, for_color);
                proof {
                    let t = moves@.take(i + 1);
                    assert(t.drop_last() =~= moves@.take(i as int));
                    assert(t.last() == m);
                    let vi = minimax_value(next.position(), next.current_turn, next.status, d, true, for_color);
                    assert(best_child_value(pos, turn, t, d, false, for_color) == (if vi < prev { vi } else { prev }));
                }
                if val < best {
                    best = val;
                }
                if best < b {
                    b = best;
                }
                if alpha >= b {
                    proof {
                        lemma_best_child_prefix(pos, turn, moves@, i + 1, d, false, for_color);
                    }
                    break;
                }
                i = i + 1;
            }
            best
        }
    }
}


fn payload_for(m: (usize, usize, usize, usize), promote: bool) -> (mv: MovePayload)
    ensures
        is_move_payload(mv, m, promote),
{
    proof {
        reveal_strlit("queen");
    }
    MovePayload {
        from_row: Some(m.0 as u64),
        from_col: Some(m.1 as u64),
        to_row: Some(m.2 as u64),
        to_col: Some(m.3 as u64),
        row: None,
        col: None,
        pass: None,
        promotion: if promote {
            Some(String::from_str("queen"))
        } else {
            None
        },
    }
}

impl ChessGame {
    /// The computer's move by a full-window search of each root move: the
    /// first move of greatest value, in the search order; a pawn reaching
    /// the last rank is promoted to a queen.
    fn ai_minimax_root(&self, color: Color, depth: u8) -> (r: Option<MovePayload>)
        requires
            depth >= 1,
        ensures
            color == self.current_turn ==> search_choice(
                self.position(),
                color,
                self.status,
                (depth - 1) as nat,
                r,
            ),
    {
        proof {
            lemma_board_view(self.board);
        }
        let ghost pos = self.position();
        let ghost d = (depth - 1) as nat;
        let moves = self.search_moves(color);
        if moves.len() == 0 {
            return None;
        }
        let mut best_val: i32 = i32::MIN + 1;
        let mut best_move = moves[0];
        let ghost mut bk: int = 0;
        let mut i: usize = 0;
        while i < moves.len()
            invariant
                i <= moves.len(),
                moves.len() > 0,
                pos == self.position(),
                d == depth - 1,
                depth >= 1,
                forall|m: (usize, usize, usize, usize)| #[trigger] moves@.contains(m) ==> all_legal_moves(pos, color).contains(m),
                0 <= bk < moves.len(),
                best_move == moves@[bk],
                i == 0 ==> bk == 0 && best_val == i32::MIN + 1,
                i > 0 ==> bk < i && best_val == root_value(pos, self.current_turn, self.status, moves@, bk, d, color),
                i > 0 ==> forall|j: int|
                    0 <= j < i ==> #[trigger] root_value(pos, self.current_turn, self.status, moves@, j, d, color)
                        <= root_value(pos, self.current_turn, self.status, moves@, bk, d, color),
                forall|j: int|
                    0 <= j < bk ==> #[trigger] root_value(pos, self.current_turn, self.status, moves@, j, d, color)
                        < root_value(pos, self.current_turn, self.status, moves@, bk, d, color),
            decreases moves.len() - i,
        {
            let m = moves[i];
            assert(moves@.contains(m));
            let next = self.search_child(m, color);
            let val = next.minimax(depth - 1, i32::MIN + 1, i32::MAX - 1, false, color);
            proof {
                lemma_minimax_bounded(next.position(), next.current_turn, next.status, d, false, color);
                assert(val == root_value(pos, self.current_turn, self.status, moves@, i as int, d, color));
            }
            if val > best_val {
                best_val = val;
                best_move = m;
                proof {
                    bk = i as int;
                }
            }
            i = i + 1;
        }
        let (fr, fc, tr, tc) = best_move;
        proof {
            assert(moves@.contains(best_move));
            lemma_moves_from_legal(pos, color, 0, 0, best_move);
        }
        assert(first_best(pos, self.current_turn, self.status, moves@, bk, d, color));
        let promote = match self.board[fr][fc] {
            Some(p) => p.piece_type == PieceType::Pawn && tr == (if color == Color::White { 7 } else { 0 }),
            None => false,
        };
        Some(payload_for(best_move, promote))
    }

    /// The easy computer player: a legal move at an index fixed by the move
    /// number and the side.
    fn ai_random(&self, color: Color) -> (r: Option<MovePayload>)
        ensures
            easy_choice(self.position(), self.full_move_number, color, r),
    {
        let moves = self.all_legal_moves_for(color);
        if moves.len() == 0 {
            return None;
        }
        let color_val: u64 = match color {
            Color::White => 0,
            Color::Black => 1,
        };
        let idx = ((self.full_move_number as u64 * 6991 + color_val * 31) % (moves.len() as u64)) as usize;
        Some(payload_for(moves[idx], false))
    }

    /// The computer's move for the side to play: easy picks by
    /// `random_index`, normal searches three moves deep, hard five.
    pub fn get_ai_move(&self, difficulty: AiDifficulty) -> (r: Option<MovePayload>)
        ensures
            chess_ai_choice(*self, difficulty, r),
    {
        let color = self.current_turn;
        match difficulty {
            AiDifficulty::Easy => self.ai_random(color),
            AiDifficulty::Normal => {
                let r = self.ai_minimax_root(color, 3);
                assert((3u8 - 1) as nat == 2nat);
                r
            },
            AiDifficulty::Hard => {
                let r = self.ai_minimax_root(color, 5);
                assert((5u8 - 1) as nat == 4nat);
                r
            },
        }
    }

    /// The game status.
    pub fn status(&self) -> (s: GameStatus)
        ensures
            s == self.status,
    {
        self.status
    }

    /// The side to move.
    pub fn current_player(&self) -> (p: PlayerColor)
        ensures
            p == player_of(self.current_turn),
    {
        self.current_turn.to_player()
    }

    /// Whether the side to move is in check.
    pub fn in_check_now(&self) -> (b: bool)
        ensures
            b == in_check(self.position(), self.current_turn),
    {
        self.is_in_check(self.current_turn)
    }

    /// For each square of the side to move (row-major) whose piece can move,
    /// its legal destinations; nothing once the game is over.
    pub fn legal_moves_map(&self) -> (res: Vec<((usize, usize), Vec<(usize, usize)>)>)
        ensures
            self.status != GameStatus::Playing ==> res@.len() == 0,
            self.status == GameStatus::Playing ==> (forall|i: int|
                0 <= i < res.len() ==> {
                    let e = #[trigger] res@[i];
                    &&& on_board(e.0.0 as int, e.0.1 as int)
                    &&& self.position().board[e.0.0 as int][e.0.1 as int] matches Some(p)
                    &&& p.color == self.current_turn
                    &&& e.1@ == legal_targets(self.position(), e.0.0 as int, e.0.1 as int)
                    &&& e.1@.len() > 0
                }),
            self.status == GameStatus::Playing ==> (forall|r: int, c: int|
                #[trigger] can_move_from(self.position(), self.current_turn, r, c) ==> exists|i: int|
                    0 <= i < res.len() && res@[i].0 == (r as usize, c as usize)),
            forall|i: int, j: int| 0 <= i < j < res.len() ==> {
                let a = #[trigger] res@[i].0;
                let b = #[trigger] res@[j].0;
                a.0 < b.0 || (a.0 == b.0 && a.1 < b.1)
            },
    {
        proof {
            lemma_board_view(self.board);
        }
        let ghost pos = self.position();
        let mut all: Vec<((usize, usize), Vec<(usize, usize)>)> = Vec::new();
        if self.status != GameStatus::Playing {
            return all;
        }
        let mut row: usize = 0;
        while row < 8
            invariant
                row <= 8,
                pos == self.position(),
                self.status == GameStatus::Playing,
                forall|i: int|
                    0 <= i < all.len() ==> {
                        let e = #[trigger] all@[i];
                        &&& e.0.0 < row
                        &&& on_board(e.0.0 as int, e.0.1 as int)
                        &&& pos.board[e.0.0 as int][e.0.1 as int] matches Some(p)
                        &&& p.color == self.current_turn
                        &&& e.1@ == legal_targets(pos, e.0.0 as int, e.0.1 as int)
                        &&& e.1@.len() > 0
                    },
                forall|r: int, c: int|
                    0 <= r < row && #[trigger] can_move_from(pos, self.current_turn, r, c) ==> exists|i: int|
                        0 <= i < all.len() && all@[i].0 == (r as usize, c as usize),
                forall|i: int, j: int| 0 <= i < j < all.len() ==> {
                    let a = #[trigger] all@[i].0;
                    let b = #[trigger] all@[j].0;
                    a.0 < b.0 || (a.0 == b.0 && a.1 < b.1)
                },
            decreases 8 - row,
        {
            let mut col: usize = 0;
            while col < 8
                invariant
                    row < 8,
                    col <= 8,
                    pos == self.position(),
                    self.status == GameStatus::Playing,
                    forall|i: int|
                        0 <= i < all.len() ==> {
                            let e = #[trigger] all@[i];
                            &&& (e.0.0 < row || (e.0.0 == row && e.0.1 < col))
                            &&& on_board(e.0.0 as int, e.0.1 as int)
                            &&& pos.board[e.0.0 as int][e.0.1 as int] matches Some(p)
                            &&& p.color == self.current_turn
                            &&& e.1@ == legal_targets(pos, e.0.0 as int, e.0.1 as int)
                            &&& e.1@.len() > 0
                        },
                    forall|r: int, c: int|
                        (0 <= r < row || (r == row && 0 <= c < col)) && #[trigger] can_move_from(
                            pos,
                            self.current_turn,
                            r,
                            c,
                        ) ==> exists|i: int| 0 <= i < all.len() && all@[i].0 == (r as usize, c as usize),
                    forall|i: int, j: int| 0 <= i < j < all.len() ==> {
                        let a = #[trigger] all@[i].0;
                        let b = #[trigger] all@[j].0;
                        a.0 < b.0 || (a.0 == b.0 && a.1 < b.1)
                    },
                decreases 8 - col,
            {
                if let Some(p) = self.board[row][col] {
                    if p.color == self.current_turn {
                        let lm = self.legal_moves(row, col);
                        if lm.len() > 0 {
                            let ghost before = all@;
                            all.push(((row, col), lm));
                            proof {
                                assert(all@[all.len() - 1].0 == (row, col));
                                assert forall|r: int, c: int|
                                    (0 <= r < row || (r == row && 0 <= c < col + 1)) && #[trigger] can_move_from(
                                        pos,
                                        self.current_turn,
                                        r,
                                        c,
                                    ) implies exists|i: int| 0 <= i < all.len() && all@[i].0 == (r as usize, c as usize) by {
                                    if r == row && c == col {
                                        assert(all@[all.len() - 1].0 == (r as usize, c as usize));
                                    } else {
                                        let i = choose|i: int| 0 <= i < before.len() && before[i].0 == (r as usize, c as usize);
                                        assert(all@[i] == before[i]);
                                    }
                                }
                            }
                        }
                    }
                }
                col = col + 1;
            }
            row = row + 1;
        }
        assert forall|r: int, c: int|
            #[trigger] can_move_from(pos, self.current_turn, r, c) implies exists|i: int|
                0 <= i < all.len() && all@[i].0 == (r as usize, c as usize) by {}
        all
    }
}

/// Whether the list holds the square.
fn contains_square(v: &Vec<(usize, usize)>, t: (usize, usize)) -> (b: bool)
    ensures
        b == v@.contains(t),
{
    let mut i: usize = 0;
    while i < v.len()
        invariant
            i <= v.len(),
            forall|j: int| 0 <= j < i ==> v@[j] != t,
        decreases v.len() - i,
    {
        if v[i].0 == t.0 && v[i].1 == t.1 {
            return true;
        }
        i = i + 1;
    }
    false
}

impl ChessGame {
    /// The piece on (row, col), if any.
    pub fn piece_at(&self, row: usize, col: usize) -> (r: Option<Piece>)
        requires
            row < 8,
            col < 8,
        ensures
            r == self.position().board[row as int][col as int],
    {
        proof {
            lemma_board_view(self.board);
        }
        self.board[row][col]
    }

    fn add_if_valid(&self, moves: &mut Vec<(usize, usize)>, r: i32, c: i32, color: Color)
        ensures
            final(moves)@ == old(moves)@ + step_to(self.position(), color, r as int, c as int),
    {
        proof {
            lemma_board_view(self.board);
        }
        let ghost start = moves@;
        reveal(step_to);
        if r >= 0 && r < 8 && c >= 0 && c < 8 {
            let ru = r as usize;
            let cu = c as usize;
            match self.board[ru][cu] {
                None => {
                    moves.push((ru, cu));
                },
                Some(p) => {
                    if p.color != color {
                        moves.push((ru, cu));
                    }
                },
            }
        }
        assert(moves@ =~= start + step_to(self.position(), color, r as int, c as int));
    }

    fn slide(&self, moves: &mut Vec<(usize, usize)>, row: usize, col: usize, dr: i32, dc: i32, color: Color)
        requires
            row < 8,
            col < 8,
            unit_dir(dr as int, dc as int),
        ensures
            final(moves)@ == old(moves)@ + ray(
                self.position(),
                color,
                row + dr,
                col + dc,
                dr as int,
                dc as int,
            ),
    {
        proof {
            lemma_board_view(self.board);
        }
        reveal(ray);
        let ghost pos = self.position();
        let ghost target = moves@ + ray(pos, color, row + dr, col + dc, dr as int, dc as int);
        let mut r: i32 = row as i32 + dr;
        let mut c: i32 = col as i32 + dc;
        loop
            invariant_except_break
                target == moves@ + ray(pos, color, r as int, c as int, dr as int, dc as int),
            invariant
                -1 <= r <= 8,
                -1 <= c <= 8,
                unit_dir(dr as int, dc as int),
                pos == self.position(),
                forall|r: int, c: int| on_board(r, c) ==> #[trigger] pos.board[r][c] == self.board[r][c],
            ensures
                moves@ == target,
            decreases ray_measure(r as int, c as int, dr as int, dc as int),
        {
            reveal(ray);
            if !(r >= 0 && r < 8 && c >= 0 && c < 8) {
                assert(moves@ =~= target);
                break;
            }
            let ru = r as usize;
            let cu = c as usize;
            let ghost before = moves@;
            match self.board[ru][cu] {
                None => {
                    moves.push((ru, cu));
                    assert(before + ray(pos, color, r as int, c as int, dr as int, dc as int)
                        =~= moves@ + ray(pos, color, r + dr, c + dc, dr as int, dc as int));
                },
                Some(p) => {
                    if p.color != color {
                        moves.push((ru, cu));
                    }
                    assert(moves@ =~= target);
                    break;
                },
            }
            r = r + dr;
            c = c + dc;
        }
    }

    fn pawn_diagonal(&self, moves: &mut Vec<(usize, usize)>, row: usize, col: usize, color: Color, dc: i32)
        requires
            row < 8,
            col < 8,
            dc == -1 || dc == 1,
        ensures
            final(moves)@ == old(moves)@ + pawn_diag(self.position(), row as int, col as int, color, dc as int),
    {
        proof {
            lemma_board_view(self.board);
        }
        let ghost start = moves@;
        reveal(pawn_diag);
        let dir: i32 = if color == Color::White { 1 } else { -1 };
        let r = row as i32 + dir;
        let c = col as i32 + dc;
        if r >= 0 && r < 8 && c >= 0 && c < 8 {
            let ri = r as usize;
            let ci = c as usize;
            if let Some(p) = self.board[ri][ci] {
                if p.color != color {
                    moves.push((ri, ci));
                }
            }
            if let Some((ep_r, ep_c)) = self.en_passant {
                if ri == ep_r && ci == ep_c {
                    moves.push((ri, ci));
                }
            }
        }
        assert(moves@ =~= start + pawn_diag(self.position(), row as int, col as int, color, dc as int));
    }

    fn pawn_advance(&self, moves: &mut Vec<(usize, usize)>, row: usize, col: usize, color: Color)
        requires
            row < 8,
            col < 8,
        ensures
            final(moves)@ == old(moves)@ + pawn_forward(self.position(), row as int, col as int, color),
    {
        proof {
            lemma_board_view(self.board);
        }
        let ghost start = moves@;
        let ghost pos = self.position();
        reveal(pawn_forward);
        let dir: i32 = if color == Color::White { 1 } else { -1 };
        let start_row: usize = if color == Color::White { 1 } else { 6 };
        let r = row as i32 + dir;
        if r >= 0 && r < 8 && self.board[r as usize][col].is_none() {
            moves.push((r as usize, col));
            if row == start_row {
                let r2 = row as i32 + 2 * dir;
                assert(r2 == row + 2 * pawn_dir(color));
                if self.board[r2 as usize][col].is_none() {
                    moves.push((r2 as usize, col));
                    assert(moves@ =~= start + pawn_forward(pos, row as int, col as int, color));
                } else {
                    assert(moves@ =~= start + pawn_forward(pos, row as int, col as int, color));
                }
            } else {
                assert(moves@ =~= start + pawn_forward(pos, row as int, col as int, color));
            }
        } else {
            assert(moves@ =~= start + pawn_forward(pos, row as int, col as int, color));
        }
    }

    fn pawn_moves(&self, moves: &mut Vec<(usize, usize)>, row: usize, col: usize, color: Color)
        requires
            row < 8,
            col < 8,
        ensures
            final(moves)@ == old(moves)@ + pawn_moves(self.position(), row as int, col as int, color),
    {
        let ghost start = moves@;
        self.pawn_advance(moves, row, col, color);
        self.pawn_diagonal(moves, row, col, color, -1);
        self.pawn_diagonal(moves, row, col, color, 1);
        assert(moves@ =~= start + pawn_moves(self.position(), row as int, col as int, color));
    }

    /// The moves of the piece on (row, col), ignoring check and castling.
    fn base_moves(&self, row: usize, col: usize) -> (moves: Vec<(usize, usize)>)
        requires
            row < 8,
            col < 8,
        ensures
            moves@ == base_moves(self.position(), row as int, col as int),
    {
        proof {
            lemma_board_view(self.board);
        }
        let ghost pos = self.position();
        let mut moves: Vec<(usize, usize)> = Vec::new();
        let piece = match self.board[row][col] {
            Some(p) => p,
            None => {
                assert(moves@ =~= base_moves(pos, row as int, col as int));
                return moves;
            },
        };
        let color = piece.color;
        let r = row as i32;
        let c = col as i32;
        match piece.piece_type {
            PieceType::Pawn => {
                self.pawn_moves(&mut moves, row, col, color);
            },
            PieceType::Knight => {
                self.add_if_valid(&mut moves, r - 2, c - 1, color);
                self.add_if_valid(&mut moves, r - 2, c + 1, color);
                self.add_if_valid(&mut moves, r - 1, c - 2, color);
                self.add_if_valid(&mut moves, r - 1, c + 2, color);
                self.add_if_valid(&mut moves, r + 1, c - 2, color);
                self.add_if_valid(&mut moves, r + 1, c + 2, color);
                self.add_if_valid(&mut moves, r + 2, c - 1, color);
                self.add_if_valid(&mut moves, r + 2, c + 1, color);
            },
            PieceType::Bishop => {
                self.slide(&mut moves, row, col, -1, -1, color);
                self.slide(&mut moves, row, col, -1, 1, color);
                self.slide(&mut moves, row, col, 1, -1, color);
                self.slide(&mut moves, row, col, 1, 1, color);
            },
            PieceType::Rook => {
                self.slide(&mut moves, row, col, -1, 0, color);
                self.slide(&mut moves, row, col, 1, 0, color);
                self.slide(&mut moves, row, col, 0, -1, color);
                self.slide(&mut moves, row, col, 0, 1, color);
            },
            PieceType::Queen => {
                self.slide(&mut moves, row, col, -1, -1, color);
                self.slide(&mut moves, row, col, -1, 0, color);
                self.slide(&mut moves, row, col, -1, 1, color);
                self.slide(&mut moves, row, col, 0, -1, color);
                self.slide(&mut moves, row, col, 0, 1, color);
                self.slide(&mut moves, row, col, 1, -1, color);
                self.slide(&mut moves, row, col, 1, 0, color);
                self.slide(&mut moves, row, col, 1, 1, color);
            },
            PieceType::King => {
                self.add_if_valid(&mut moves, r - 1, c - 1, color);
                self.add_if_valid(&mut moves, r - 1, c, color);
                self.add_if_valid(&mut moves, r - 1, c + 1, color);
                self.add_if_valid(&mut moves, r, c - 1, color);
                self.add_if_valid(&mut moves, r, c + 1, color);
                self.add_if_valid(&mut moves, r + 1, c - 1, color);
                self.add_if_valid(&mut moves, r + 1, c, color);
                self.add_if_valid(&mut moves, r + 1, c + 1, color);
            },
        }
        assert(moves@ =~= base_moves(pos, row as int, col as int));
        moves
    }

    /// Whether a piece of `by_color` could move onto (row, col).
    fn is_square_attacked(&self, row: usize, col: usize, by_color: Color) -> (b: bool)
        ensures
            b == attacked(self.position(), row as int, col as int, by_color),
    {
        proof {
            lemma_board_view(self.board);
        }
        let ghost pos = self.position();
        let mut r: usize = 0;
        while r < 8
            invariant
                r <= 8,
                pos == self.position(),
                forall|r2: int, c2: int|
                    0 <= r2 < r ==> !#[trigger] attacks_from(pos, r2, c2, by_color, row as int, col as int),
            decreases 8 - r,
        {
            let mut c: usize = 0;
            while c < 8
                invariant
                    r < 8,
                    c <= 8,
                    pos == self.position(),
                    forall|r2: int, c2: int|
                        0 <= r2 < r ==> !#[trigger] attacks_from(pos, r2, c2, by_color, row as int, col as int),
                    forall|c2: int|
                        0 <= c2 < c ==> !#[trigger] attacks_from(pos, r as int, c2, by_color, row as int, col as int),
                decreases 8 - c,
            {
                if let Some(p) = self.board[r][c] {
                    if p.color == by_color {
                        let moves = self.base_moves(r, c);
                        if contains_square(&moves, (row, col)) {
                            assert(attacks_from(pos, r as int, c as int, by_color, row as int, col as int));
                            return true;
                        }
                    }
                }
                c = c + 1;
            }
            r = r + 1;
        }
        assert forall|r2: int, c2: int| !#[trigger] attacks_from(pos, r2, c2, by_color, row as int, col as int) by {
            if 0 <= r2 < 8 {
            }
        }
        false
    }

    fn find_king(&self, color: Color) -> (k: Option<(usize, usize)>)
        ensures
            k == king_search(self.position(), color, 0, 0),
            k matches Some(sq) ==> sq.0 < 8 && sq.1 < 8,
    {
        proof {
            lemma_board_view(self.board);
        }
        let ghost pos = self.position();
        let mut row: usize = 0;
        while row < 8
            invariant
                row <= 8,
                pos == self.position(),
                king_search(pos, color, 0, 0) == king_search(pos, color, row as int, 0),
            decreases 8 - row,
        {
            let mut col: usize = 0;
            while col < 8
                invariant
                    row < 8,
                    col <= 8,
                    pos == self.position(),
                    king_search(pos, color, 0, 0) == king_search(pos, color, row as int, col as int),
                decreases 8 - col,
            {
                if let Some(p) = self.board[row][col] {
                    if p.piece_type == PieceType::King && p.color == color {
                        return Some((row, col));
                    }
                }
                col = col + 1;
            }
            row = row + 1;
        }
        None
    }

    fn is_in_check(&self, color: Color) -> (b: bool)
        ensures
            b == in_check(self.position(), color),
    {
        if let Some((kr, kc)) = self.find_king(color) {
            self.is_square_attacked(kr, kc, color.opposite())
        } else {
            false
        }
    }

    fn castling_moves(&self, moves: &mut Vec<(usize, usize)>, row: usize, col: usize, color: Color)
        requires
            row < 8,
            col < 8,
        ensures
            final(moves)@ == old(moves)@ + castle_moves(self.position(), row as int, col as int, color),
    {
        proof {
            lemma_board_view(self.board);
        }
        let ghost start = moves@;
        reveal(castle_moves);
        let back_row: usize = if color == Color::White { 0 } else { 7 };
        if row == back_row && col == 4 {
            let ks = if color == Color::White {
                self.castling.white_king_side
            } else {
                self.castling.black_king_side
            };
            if ks && self.board[back_row][5].is_none() && self.board[back_row][6].is_none() {
                if !self.is_square_attacked(back_row, 5, color.opposite())
                    && !self.is_square_attacked(back_row, 6, color.opposite()) {
                    moves.push((back_row, 6));
                }
            }
            let qs = if color == Color::White {
                self.castling.white_queen_side
            } else {
                self.castling.black_queen_side
            };
            if qs && self.board[back_row][3].is_none() && self.board[back_row][2].is_none()
                && self.board[back_row][1].is_none() {
                if !self.is_square_attacked(back_row, 3, color.opposite())
                    && !self.is_square_attacked(back_row, 2, color.opposite()) {
                    moves.push((back_row, 2));
                }
            }
        }
        assert(moves@ =~= start + castle_moves(self.position(), row as int, col as int, color));
    }

    /// The moves of the piece on (row, col) that ignore whether its own king
    /// is left in check; with `include_castling`, castling too.
    fn pseudo_legal_moves(&self, row: usize, col: usize, include_castling: bool) -> (moves: Vec<(usize, usize)>)
        requires
            row < 8,
            col < 8,
        ensures
            moves@ == pseudo_moves(self.position(), row as int, col as int, include_castling),
    {
        proof {
            lemma_board_view(self.board);
        }
        let mut moves = self.base_moves(row, col);
        let ghost base = moves@;
        if include_castling {
            if let Some(p) = self.board[row][col] {
                if p.piece_type == PieceType::King && !self.is_in_check(p.color) {
                    self.castling_moves(&mut moves, row, col, p.color);
                }
            }
        }
        assert(moves@ =~= pseudo_moves(self.position(), row as int, col as int, include_castling));
        moves
    }

    /// Moves the piece on (from_r, from_c) to (to_r, to_c) without checking
    /// legality: captures en passant, brings the rook along when castling,
    /// promotes, and updates the castling rights and the en passant target.
    fn apply_move_raw(&mut self, from_r: usize, from_c: usize, to_r: usize, to_c: usize, promotion: Option<PieceType>)
        requires
            raw_move_ok(old(self).position(), from_r as int, from_c as int, to_r as int, to_c as int),
        ensures
            final(self).position() == apply_raw(
                old(self).position(),
                from_r as int,
                from_c as int,
                to_r as int,
                to_c as int,
                promotion,
            ),
            final(self).current_turn == old(self).current_turn,
            final(self).half_move_clock == old(self).half_move_clock,
            final(self).full_move_number == old(self).full_move_number,
            final(self).status == old(self).status,
            final(self).last_move == old(self).last_move,
            final(self).position_history == old(self).position_history,
    {
        proof {
            lemma_board_view(self.board);
        }
        let ghost pos0 = self.position();
        let piece = match self.board[from_r][from_c] {
            Some(p) => p,
            None => return ,
        };
        let new_board = moved_board(&self.board, piece, self.en_passant, from_r, from_c, to_r, to_c, promotion);
        self.board = new_board;
        self.castling = castling_update(self.castling, piece, from_r, from_c);
        self.en_passant = None;
        if piece.piece_type == PieceType::Pawn {
            let diff = if to_r >= from_r { to_r - from_r } else { from_r - to_r };
            if diff == 2 {
                let ep_row = (from_r + to_r) / 2;
                self.en_passant = Some((ep_row, from_c));
            }
        }
        proof {
            lemma_board_view(self.board);
            let target = apply_raw(pos0, from_r as int, from_c as int, to_r as int, to_c as int, promotion);
            assert(board_view(self.board) =~~= target.board);
        }
    }

    /// The starting position, white to move, all castling rights, and the
    /// starting position counted once in the history.
    pub fn new() -> (g: ChessGame)
        ensures
            g.wf(),
            forall|r: int, c: int| on_board(r, c) ==> #[trigger] g.board[r][c] == initial_cell(r, c),
            g.current_turn == Color::White,
            g.castling == (CastlingRights {
                white_king_side: true,
                white_queen_side: true,
                black_king_side: true,
                black_queen_side: true,
            }),
            g.en_passant is None,
            g.half_move_clock == 0,
            g.full_move_number == 1,
            g.status == GameStatus::Playing,
            g.last_move is None,
            g.history_view() == seq![position_key(g.position(), Color::White)],
    {
        let mut board: Board = [[None;8];8];
        let back_row = [
            PieceType::Rook,
            PieceType::Knight,
            PieceType::Bishop,
            PieceType::Queen,
            PieceType::King,
            PieceType::Bishop,
            PieceType::Knight,
            PieceType::Rook,
        ];
        let mut col: usize = 0;
        while col < 8
            invariant
                col <= 8,
                forall|c: int| 0 <= c < 8 ==> #[trigger] back_row[c] == back_row_piece(c),
                forall|r: int, c: int|
                    on_board(r, c) ==> #[trigger] board[r][c] == (if c < col {
                        initial_cell(r, c)
                    } else {
                        None
                    }),
            decreases 8 - col,
        {
            let pt = back_row[col];
            board[0][col] = Some(Piece { piece_type: pt, color: Color::White });
            board[7][col] = Some(Piece { piece_type: pt, color: Color::Black });
            board[1][col] = Some(Piece { piece_type: PieceType::Pawn, color: Color::White });
            board[6][col] = Some(Piece { piece_type: PieceType::Pawn, color: Color::Black });
            col = col + 1;
        }
        let mut game = ChessGame {
            board,
            current_turn: Color::White,
            castling: CastlingRights {
                white_king_side: true,
                white_queen_side: true,
                black_king_side: true,
                black_queen_side: true,
            },
            en_passant: None,
            half_move_clock: 0,
            full_move_number: 1,
            status: GameStatus::Playing,
            last_move: None,
            position_history: Vec::new(),
        };
        let key = game.position_key();
        game.position_history.push(key);
        assert(game.history_view() =~= seq![position_key(game.position(), Color::White)]);
        game
    }

    /// A copy of the position and turn, with an empty history, for trying
    /// moves out.
    fn probe(&self) -> (g: ChessGame)
        ensures
            g.position() == self.position(),
            g.board == self.board,
            g.current_turn == self.current_turn,
            g.status == self.status,
    {
        ChessGame {
            board: self.board,
            current_turn: self.current_turn,
            castling: self.castling,
            en_passant: self.en_passant,
            half_move_clock: self.half_move_clock,
            full_move_number: self.full_move_number,
            status: self.status,
            last_move: self.last_move,
            position_history: Vec::new(),
        }
    }

    /// The legal destinations of the piece on (row, col).
    pub fn legal_moves(&self, row: usize, col: usize) -> (res: Vec<(usize, usize)>)
        requires
            row < 8,
            col < 8,
        ensures
            res@ == legal_targets(self.position(), row as int, col as int),
    {
        proof {
            lemma_board_view(self.board);
        }
        let ghost pos = self.position();
        let piece = match self.board[row][col] {
            Some(p) => p,
            None => {
                return Vec::new();
            },
        };
        let color = piece.color;
        let pseudo = self.pseudo_legal_moves(row, col, true);
        let mut res: Vec<(usize, usize)> = Vec::new();
        let mut i: usize = 0;
        while i < pseudo.len()
            invariant
                i <= pseudo.len(),
                pos == self.position(),
                shaped(pos.board),
                row < 8,
                col < 8,
                pseudo@ == pseudo_moves(pos, row as int, col as int, true),
                res@ == safe_targets(pos, row as int, col as int, color, pseudo@.take(i as int)),
            decreases pseudo.len() - i,
        {
            let (tr, tc) = pseudo[i];
            proof {
                assert(pseudo@.contains((tr, tc)));
                lemma_pseudo_ok(pos, row as int, col as int, true, (tr, tc));
            }
            let mut test = self.probe();
            test.apply_move_raw(row, col, tr, tc, None);
            if !test.is_in_check(color) {
                res.push((tr, tc));
            }
            proof {
                assert(pseudo@.take(i + 1).drop_last() =~= pseudo@.take(i as int));
            }
            i = i + 1;
        }
        assert(pseudo@.take(pseudo.len() as int) =~= pseudo@);
        res
    }

    /// Whether `color` has any legal move.
    fn has_any_legal_move(&self, color: Color) -> (b: bool)
        ensures
            b == has_legal_move(self.position(), color),
    {
        proof {
            lemma_board_view(self.board);
        }
        let ghost pos = self.position();
        let mut r: usize = 0;
        while r < 8
            invariant
                r <= 8,
                pos == self.position(),
                forall|r2: int, c2: int| 0 <= r2 < r ==> !#[trigger] can_move_from(pos, color, r2, c2),
            decreases 8 - r,
        {
            let mut c: usize = 0;
            while c < 8
                invariant
                    r < 8,
                    c <= 8,
                    pos == self.position(),
                    forall|r2: int, c2: int| 0 <= r2 < r ==> !#[trigger] can_move_from(pos, color, r2, c2),
                    forall|c2: int| 0 <= c2 < c ==> !#[trigger] can_move_from(pos, color, r as int, c2),
                decreases 8 - c,
            {
                if let Some(p) = self.board[r][c] {
                    if p.color == color && self.legal_moves(r, c).len() > 0 {
                        assert(can_move_from(pos, color, r as int, c as int));
                        return true;
                    }
                }
                c = c + 1;
            }
            r = r + 1;
        }
        assert forall|r2: int, c2: int| !#[trigger] can_move_from(pos, color, r2, c2) by {
            if 0 <= r2 < 8 {
            }
        }
        false
    }

    /// All legal moves of `color`, by source square in row-major order.
    fn all_legal_moves_for(&self, color: Color) -> (moves: Vec<(usize, usize, usize, usize)>)
        ensures
            moves@ == all_legal_moves(self.position(), color),
    {
        proof {
            lemma_board_view(self.board);
        }
        let ghost pos = self.position();
        let mut moves: Vec<(usize, usize, usize, usize)> = Vec::new();
        let mut row: usize = 0;
        while row < 8
            invariant
                row <= 8,
                pos == self.position(),
                moves@ + moves_from(pos, color, row as int, 0) == all_legal_moves(pos, color),
            decreases 8 - row,
        {
            let mut col: usize = 0;
            while col < 8
                invariant
                    row < 8,
                    col <= 8,
                    pos == self.position(),
                    moves@ + moves_from(pos, color, row as int, col as int) == all_legal_moves(pos, color),
                decreases 8 - col,
            {
                let ghost before = moves@;
                if let Some(p) = self.board[row][col] {
                    if p.color == color {
                        let targets = self.legal_moves(row, col);
                        let mut k: usize = 0;
                        while k < targets.len()
                            invariant
                                k <= targets.len(),
                                row < 8,
                                col < 8,
                                moves@ == before + targets@.take(k as int).map_values(
                                    |t: (usize, usize)| (row, col, t.0, t.1),
                                ),
                            decreases targets.len() - k,
                        {
                            let (tr, tc) = targets[k];
                            moves.push((row, col, tr, tc));
                            proof {
                                assert(targets@.take(k + 1).map_values(
                                    |t: (usize, usize)| (row, col, t.0, t.1),
                                ) =~= targets@.take(k as int).map_values(
                                    |t: (usize, usize)| (row, col, t.0, t.1),
                                ).push((row, col, tr, tc)));
                            }
                            k = k + 1;
                        }
                        assert(targets@.take(targets.len() as int) =~= targets@);
                    }
                }
                assert(moves@ == before + moves_of_square(pos, color, row as int, col as int));
                assert(moves_from(pos, color, row as int, col as int) == moves_of_square(
                    pos,
                    color,
                    row as int,
                    col as int,
                ) + moves_from(pos, color, row as int, col + 1));
                assert(moves@ + moves_from(pos, color, row as int, col + 1) =~= before + moves_from(
                    pos,
                    color,
                    row as int,
                    col as int,
                ));
                col = col + 1;
            }
            assert(moves_from(pos, color, row as int, 8) == moves_from(pos, color, row + 1, 0));
            row = row + 1;
        }
        assert(moves@ =~= all_legal_moves(pos, color));
        moves
    }

    /// The repetition key of the current position.
    fn position_key(&self) -> (key: Vec<u8>)
        requires
            self.wf(),
        ensures
            key@ == position_key(self.position(), self.current_turn),
    {
        proof {
            lemma_board_view(self.board);
        }
        let ghost pos = self.position();
        let mut key: Vec<u8> = Vec::new();
        let mut row: usize = 0;
        while row < 8
            invariant
                row <= 8,
                pos == self.position(),
                key@ == rows_codes(pos, row as int),
            decreases 8 - row,
        {
            let mut col: usize = 0;
            while col < 8
                invariant
                    row < 8,
                    col <= 8,
                    pos == self.position(),
                    key@ == rows_codes(pos, row as int) + Seq::new(
                        col as nat,
                        |c: int| piece_code(pos.board[row as int][c]),
                    ),
                decreases 8 - col,
            {
                key.push(square_code(self.board[row][col]));
                proof {
                    assert(Seq::new((col + 1) as nat, |c: int| piece_code(pos.board[row as int][c]))
                        =~= Seq::new(col as nat, |c: int| piece_code(pos.board[row as int][c])).push(
                        piece_code(pos.board[row as int][col as int]),
                    ));
                }
                col = col + 1;
            }
            proof {
                assert(Seq::new(8nat, |c: int| piece_code(pos.board[row as int][c])) =~= Seq::new(
                    8,
                    |c: int| piece_code(pos.board[(row + 1) - 1][c]),
                ));
            }
            row = row + 1;
        }
        let ghost board_part = key@;
        key.push(if self.current_turn == Color::White { 'w' as u8 } else { 'b' as u8 });
        key.push(if self.castling.white_king_side { 'K' as u8 } else { '-' as u8 });
        key.push(if self.castling.white_queen_side { 'Q' as u8 } else { '-' as u8 });
        key.push(if self.castling.black_king_side { 'k' as u8 } else { '-' as u8 });
        key.push(if self.castling.black_queen_side { 'q' as u8 } else { '-' as u8 });
        match self.en_passant {
            None => {
                key.push('-' as u8);
                key.push('-' as u8);
            },
            Some((r, c)) => {
                key.push('a' as u8 + c as u8);
                key.push('1' as u8 + r as u8);
            },
        }
        assert(key@ =~= position_key(pos, self.current_turn));
        key
    }

    /// How many times the key occurs in the history.
    fn count_in_history(&self, key: &Vec<u8>) -> (n: usize)
        ensures
            n == occurrences(self.history_view(), key@),
    {
        let ghost h = self.history_view();
        let mut n: usize = 0;
        let mut i: usize = 0;
        while i < self.position_history.len()
            invariant
                i <= self.position_history.len(),
                h == self.history_view(),
                n <= i,
                n == occurrences(h.take(i as int), key@),
            decreases self.position_history.len() - i,
        {
            if bytes_equal(&self.position_history[i], key) {
                n = n + 1;
            }
            proof {
                assert(h.take(i + 1).drop_last() =~= h.take(i as int));
            }
            i = i + 1;
        }
        assert(h.take(i as int) =~= h);
        n
    }

    /// Plays a move for `player`, or says why it is refused; a refused move
    /// leaves the game as it was.
    pub fn make_move(&mut self, mv: &MovePayload, player: &PlayerColor) -> (r: Result<(), MoveError>)
        requires
            old(self).wf(),
            old(self).full_move_number < u32::MAX,
        ensures
            final(self).wf(),
            chess_played(*old(self), *final(self), *mv, *player, r),
    {
        proof {
            lemma_board_view(self.board);
        }
        let ghost pos0 = self.position();
        if self.status != GameStatus::Playing {
            return Err(MoveError::GameOver);
        }
        let expected = self.current_turn.to_player();
        if expected != *player {
            return Err(MoveError::NotYourTurn);
        }
        let from_r = match mv.from_row {
            Some(v) => v,
            None => return Err(MoveError::InvalidFromRow),
        };
        let from_c = match mv.from_col {
            Some(v) => v,
            None => return Err(MoveError::InvalidFromCol),
        };
        let to_r = match mv.to_row {
            Some(v) => v,
            None => return Err(MoveError::InvalidToRow),
        };
        let to_c = match mv.to_col {
            Some(v) => v,
            None => return Err(MoveError::InvalidToCol),
        };
        if from_r >= 8 || from_c >= 8 || to_r >= 8 || to_c >= 8 {
            return Err(MoveError::OutOfBounds);
        }
        let from_r = from_r as usize;
        let from_c = from_c as usize;
        let to_r = to_r as usize;
        let to_c = to_c as usize;
        let piece = match self.board[from_r][from_c] {
            Some(p) => p,
            None => return Err(MoveError::NoPieceAtSource),
        };
        if piece.color.to_player() != *player {
            return Err(MoveError::NotYourPiece);
        }
        let legal = self.legal_moves(from_r, from_c);
        if !contains_square(&legal, (to_r, to_c)) {
            return Err(MoveError::IllegalMove);
        }
        let promotion = match &mv.promotion {
            Some(s) => promotion_from_str(s.as_str()),
            None => None,
        };
        proof {
            lemma_legal_ok(pos0, from_r as int, from_c as int, (to_r, to_c));
        }
        self.apply_move_raw(from_r, from_c, to_r, to_c, promotion);
        self.last_move = Some((from_r, from_c, to_r, to_c));
        self.current_turn = self.current_turn.opposite();
        // Check game end conditions
        let next_color = self.current_turn;
        let in_check = self.is_in_check(next_color);
        let has_moves = self.has_any_legal_move(next_color);
        if !has_moves {
            if in_check {
                self.status = match next_color {
                    Color::White => GameStatus::BlackWon,
                    Color::Black => GameStatus::WhiteWon,
                };
            } else {
                self.status = GameStatus::Draw;
            }
        }
        // Threefold repetition
        if self.status == GameStatus::Playing {
            let key = self.position_key();
            let ghost k = key@;
            let earlier = self.count_in_history(&key);
            self.position_history.push(key);
            proof {
                assert(self.history_view() =~= old(self).history_view().push(k));
                assert(self.history_view().drop_last() =~= old(self).history_view());
            }
            if earlier >= 2 {
                self.status = GameStatus::Draw;
            }
        }
        if self.current_turn == Color::White {
            self.full_move_number = self.full_move_number + 1;
        }
        Ok(())
    }
}

fn square_code(x: Option<Piece>) -> (b: u8)
    ensures
        b == piece_code(x),
{
    match x {
        None => '.' as u8,
        Some(p) => {
            let upper: u8 = match p.piece_type {
                PieceType::King => 'K' as u8,
                PieceType::Queen => 'Q' as u8,
                PieceType::Rook => 'R' as u8,
                PieceType::Bishop => 'B' as u8,
                PieceType::Knight => 'N' as u8,
                PieceType::Pawn => 'P' as u8,
            };
            if p.color == Color::White {
                upper
            } else {
                upper + 32
            }
        },
    }
}

/// Whether two byte strings are equal.
fn bytes_equal(a: &Vec<u8>, b: &Vec<u8>) -> (eq: bool)
    ensures
        eq == (a@ == b@),
{
    if a.len() != b.len() {
        return false;
    }
    let mut i: usize = 0;
    while i < a.len()
        invariant
            i <= a.len(),
            a.len() == b.len(),
            forall|j: int| 0 <= j < i ==> a@[j] == b@[j],
        decreases a.len() - i,
    {
        if a[i] != b[i] {
            return false;
        }
        i = i + 1;
    }
    assert(a@ =~= b@);
    true
}

/// Reads a promotion choice ("queen", "rook", "bishop", "knight").
fn promotion_from_str(s: &str) -> (r: Option<PieceType>)
    ensures
        r == promotion_named_text(s@),
{
    if text_equals(s, "queen") {
        Some(PieceType::Queen)
    } else if text_equals(s, "rook") {
        Some(PieceType::Rook)
    } else if text_equals(s, "bishop") {
        Some(PieceType::Bishop)
    } else if text_equals(s, "knight") {
        Some(PieceType::Knight)
    } else {
        None
    }
}

/// The castling rights after `piece` leaves (from_r, from_c).
fn castling_update(cr: CastlingRights, piece: Piece, from_r: usize, from_c: usize) -> (res: CastlingRights)
    ensures
        res == castling_after(cr, piece, from_r as int, from_c as int),
{
    let mut cr = cr;
    if piece.piece_type == PieceType::King {
        if piece.color == Color::White {
            cr.white_king_side = false;
            cr.white_queen_side = false;
        } else {
            cr.black_king_side = false;
            cr.black_queen_side = false;
        }
    }
    if piece.piece_type == PieceType::Rook {
        if piece.color == Color::White && from_r == 0 && from_c == 0 {
            cr.white_queen_side = false;
        } else if piece.color == Color::White && from_r == 0 && from_c == 7 {
            cr.white_king_side = false;
        } else if piece.color == Color::Black && from_r == 7 && from_c == 0 {
            cr.black_queen_side = false;
        } else if piece.color == Color::Black && from_r == 7 && from_c == 7 {
            cr.black_king_side = false;
        }
    }
    cr
}

/// The board after the en passant capture, if the move makes one.
pub open spec fn after_capture(b: Board, piece: Piece, ep: Option<(usize, usize)>, tr: int, tc: int, r: int, c: int) -> Option<Piece> {
    let ep_capture = piece.piece_type == PieceType::Pawn && ep == Some((tr as usize, tc as usize));
    let cap_row = if piece.color == Color::White { tr - 1 } else { tr + 1 };
    if ep_capture && r == cap_row && c == tc {
        None
    } else {
        b[r][c]
    }
}

/// The board after the castling rook moves, if the move castles.
pub open spec fn after_rook(b: Board, piece: Piece, ep: Option<(usize, usize)>, fr: int, fc: int, tr: int, tc: int, r: int, c: int) -> Option<Piece> {
    let bk = back_rank(piece.color);
    let castle = piece.piece_type == PieceType::King && fr == bk && fc == 4;
    if castle && tc == 6 && r == bk && c == 7 {
        None
    } else if castle && tc == 6 && r == bk && c == 5 {
        b[bk][7]
    } else if castle && tc == 2 && r == bk && c == 0 {
        None
    } else if castle && tc == 2 && r == bk && c == 3 {
        b[bk][0]
    } else {
        after_capture(b, piece, ep, tr, tc, r, c)
    }
}

/// The board once `piece` has moved from (from_r, from_c) to (to_r, to_c).
fn moved_board(
    b: &Board,
    piece: Piece,
    ep: Option<(usize, usize)>,
    from_r: usize,
    from_c: usize,
    to_r: usize,
    to_c: usize,
    promotion: Option<PieceType>,
) -> (res: Board)
    requires
        from_r < 8,
        from_c < 8,
        to_r < 8,
        to_c < 8,
        b[from_r as int][from_c as int] == Some(piece),
        piece.piece_type == PieceType::Pawn && ep == Some((to_r, to_c)) ==> (if piece.color == Color::White {
            to_r >= 1
        } else {
            to_r <= 6
        }),
    ensures
        forall|r: int, c: int|
            on_board(r, c) ==> #[trigger] res[r][c] == raw_cell(
                ChessPosition { board: board_view(*b), castling: CastlingRights { white_king_side: false, white_queen_side: false, black_king_side: false, black_queen_side: false }, en_passant: ep },
                piece,
                from_r as int,
                from_c as int,
                to_r as int,
                to_c as int,
                promotion,
                r,
                c,
            ),
{
    proof {
        lemma_board_view(*b);
    }
    let ghost b0 = *b;
    let mut nb = *b;
    // En passant capture
    if piece.piece_type == PieceType::Pawn {
        if let Some((ep_r, ep_c)) = ep {
            if to_r == ep_r && to_c == ep_c {
                let capture_row = if piece.color == Color::White { to_r - 1 } else { to_r + 1 };
                nb[capture_row][to_c] = None;
            }
        }
    }
    assert forall|r: int, c: int| on_board(r, c) implies #[trigger] nb[r][c] == after_capture(
        b0,
        piece,
        ep,
        to_r as int,
        to_c as int,
        r,
        c,
    ) by {}
    let ghost b1 = nb;
    // Castling rook move
    if piece.piece_type == PieceType::King {
        let back_row: usize = if piece.color == Color::White { 0 } else { 7 };
        if from_r == back_row && from_c == 4 {
            if to_c == 6 {
                nb[back_row][5] = nb[back_row][7];
                nb[back_row][7] = None;
            } else if to_c == 2 {
                nb[back_row][3] = nb[back_row][0];
                nb[back_row][0] = None;
            }
        }
    }
    assert forall|r: int, c: int| on_board(r, c) implies #[trigger] nb[r][c] == after_rook(
        b0,
        piece,
        ep,
        from_r as int,
        from_c as int,
        to_r as int,
        to_c as int,
        r,
        c,
    ) by {
        let bk = back_rank(piece.color);
        if piece.piece_type == PieceType::King {
            assert(b1[bk][7] == after_capture(b0, piece, ep, to_r as int, to_c as int, bk, 7));
            assert(b1[bk][0] == after_capture(b0, piece, ep, to_r as int, to_c as int, bk, 0));
        }
    }
    let moved_piece = if piece.piece_type == PieceType::Pawn {
        let promo_row: usize = if piece.color == Color::White { 7 } else { 0 };
        if to_r == promo_row {
            Piece {
                piece_type: match promotion {
                    Some(t) => t,
                    None => PieceType::Queen,
                },
                color: piece.color,
            }
        } else {
            piece
        }
    } else {
        piece
    };
    nb[to_r][to_c] = Some(moved_piece);
    nb[from_r][from_c] = None;
    nb
}



pub open spec fn moves_of_square(pos: ChessPosition, color: Color, r: int, c: int) -> Seq<(usize, usize, usize, usize)> {
    if pos.board[r][c] matches Some(p) && p.color == color {
        legal_targets(pos, r, c).map_values(|t: (usize, usize)| (r as usize, c as usize, t.0, t.1))
    } else {
        seq![]
    }
}

/// The legal moves of `color` from the squares at and after (r, c) in
/// row-major order.
pub open spec fn moves_from(pos: ChessPosition, color: Color, r: int, c: int) -> Seq<(usize, usize, usize, usize)>
    decreases 8 - r, 8 - c,
{
    if r < 0 || r >= 8 {
        seq![]
    } else if c < 0 || c >= 8 {
        moves_from(pos, color, r + 1, 0)
    } else {
        moves_of_square(pos, color, r, c) + moves_from(pos, color, r, c + 1)
    }
}

/// All legal moves of `color` as (from row, from col, to row, to col), by
/// source square in row-major order.
pub open spec fn all_legal_moves(pos: ChessPosition, color: Color) -> Seq<(usize, usize, usize, usize)> {
    moves_from(pos, color, 0, 0)
}

pub open spec fn piece_code(x: Option<Piece>) -> u8 {
    match x {
        None => 46u8,
        Some(p) => {
            let upper: u8 = match p.piece_type {
                PieceType::King => 75u8,
                PieceType::Queen => 81u8,
                PieceType::Rook => 82u8,
                PieceType::Bishop => 66u8,
                PieceType::Knight => 78u8,
                PieceType::Pawn => 80u8,
            };
            if p.color == Color::White {
                upper
            } else {
                (upper + 32) as u8
            }
        },
    }
}

pub open spec fn rows_codes(pos: ChessPosition, n: int) -> Seq<u8>
    decreases n,
{
    if n <= 0 {
        seq![]
    } else {
        rows_codes(pos, n - 1) + Seq::new(8, |c: int| piece_code(pos.board[n - 1][c]))
    }
}

pub open spec fn flag_code(b: bool, on: u8) -> u8 {
    if b { on } else { 45u8 }
}

/// The text that identifies a position for the repetition rule: the 64
/// squares as letters (upper case for white, '.' for empty), the side to
/// move, the four castling rights and the en passant target.
pub open spec fn position_key(pos: ChessPosition, turn: Color) -> Seq<u8> {
    rows_codes(pos, 8) + seq![
        if turn == Color::White { 119u8 } else { 98u8 },
        flag_code(pos.castling.white_king_side, 75u8),
        flag_code(pos.castling.white_queen_side, 81u8),
        flag_code(pos.castling.black_king_side, 107u8),
        flag_code(pos.castling.black_queen_side, 113u8),
    ] + match pos.en_passant {
        None => seq![45u8, 45u8],
        Some(e) => seq![(97 + e.1) as u8, (49 + e.0) as u8],
    }
}

/// How many times the key occurs in the history.
pub open spec fn occurrences(h: Seq<Seq<u8>>, k: Seq<u8>) -> nat
    decreases h.len(),
{
    if h.len() == 0 {
        0
    } else {
        occurrences(h.drop_last(), k) + if h.last() == k { 1nat } else { 0nat }
    }
}

pub open spec fn promotion_named_text(t: Seq<char>) -> Option<PieceType> {
    if t == "queen"@ {
        Some(PieceType::Queen)
    } else if t == "rook"@ {
        Some(PieceType::Rook)
    } else if t == "bishop"@ {
        Some(PieceType::Bishop)
    } else if t == "knight"@ {
        Some(PieceType::Knight)
    } else {
        None
    }
}

/// The piece a pawn is promoted to, as the move names it; `None` leaves
/// the default, a queen.
pub open spec fn promotion_named(s: Option<String>) -> Option<PieceType> {
    match s {
        None => None,
        Some(t) => promotion_named_text(t@),
    }
}

/// Why a chess move is refused, checked in this order; `None` when it is
/// accepted.
pub open spec fn chess_move_error(g: ChessGame, mv: MovePayload, player: PlayerColor) -> Option<MoveError> {
    if g.status != GameStatus::Playing {
        Some(MoveError::GameOver)
    } else if player_of(g.current_turn) != player {
        Some(MoveError::NotYourTurn)
    } else if mv.from_row is None {
        Some(MoveError::InvalidFromRow)
    } else if mv.from_col is None {
        Some(MoveError::InvalidFromCol)
    } else if mv.to_row is None {
        Some(MoveError::InvalidToRow)
    } else if mv.to_col is None {
        Some(MoveError::InvalidToCol)
    } else if mv.from_row->0 >= 8 || mv.from_col->0 >= 8 || mv.to_row->0 >= 8 || mv.to_col->0 >= 8 {
        Some(MoveError::OutOfBounds)
    } else if g.position().board[mv.from_row->0 as int][mv.from_col->0 as int] is None {
        Some(MoveError::NoPieceAtSource)
    } else if player_of(g.position().board[mv.from_row->0 as int][mv.from_col->0 as int]->0.color) != player {
        Some(MoveError::NotYourPiece)
    } else if !legal_targets(g.position(), mv.from_row->0 as int, mv.from_col->0 as int).contains(
        (mv.to_row->0 as usize, mv.to_col->0 as usize),
    ) {
        Some(MoveError::IllegalMove)
    } else {
        None
    }
}

/// The status once `mover` has moved and `pos` is reached with the other
/// side to play: checkmate, stalemate, or play goes on.
pub open spec fn status_after_move(pos: ChessPosition, mover: Color) -> GameStatus {
    let next = opponent(mover);
    if !has_legal_move(pos, next) {
        if in_check(pos, next) {
            won_by(player_of(mover))
        } else {
            GameStatus::Draw
        }
    } else {
        GameStatus::Playing
    }
}


pub open spec fn back_row_piece(c: int) -> PieceType {
    if c == 0 || c == 7 {
        PieceType::Rook
    } else if c == 1 || c == 6 {
        PieceType::Knight
    } else if c == 2 || c == 5 {
        PieceType::Bishop
    } else if c == 3 {
        PieceType::Queen
    } else {
        PieceType::King
    }
}

/// The starting position: white on rows 0 and 1, black on rows 6 and 7.
pub open spec fn initial_cell(r: int, c: int) -> Option<Piece> {
    if r == 0 {
        Some(Piece { piece_type: back_row_piece(c), color: Color::White })
    } else if r == 1 {
        Some(Piece { piece_type: PieceType::Pawn, color: Color::White })
    } else if r == 6 {
        Some(Piece { piece_type: PieceType::Pawn, color: Color::Black })
    } else if r == 7 {
        Some(Piece { piece_type: back_row_piece(c), color: Color::Black })
    } else {
        None
    }
}

/// Piece-square bonus for a pawn, by rank counted from its own side and file.
pub const PAWN_TABLE: [[i32; 8]; 8] = [
    [0, 0, 0, 0, 0, 0, 0, 0],
    [5, 10, 10, -20, -20, 10, 10, 5],
    [5, -5, -10, 0, 0, -10, -5, 5],
    [0, 0, 0, 20, 20, 0, 0, 0],
    [5, 5, 10, 25, 25, 10, 5, 5],
    [10, 10, 20, 30, 30, 20, 10, 10],
    [50, 50, 50, 50, 50, 50, 50, 50],
    [0, 0, 0, 0, 0, 0, 0, 0],
];

/// Piece-square bonus for a knight, by rank counted from its own side and file.
pub const KNIGHT_TABLE: [[i32; 8]; 8] = [
    [-50, -40, -30, -30, -30, -30, -40, -50],
    [-40, -20, 0, 0, 0, 0, -20, -40],
    [-30, 0, 10, 15, 15, 10, 0, -30],
    [-30, 5, 15, 20, 20, 15, 5, -30],
    [-30, 0, 15, 20, 20, 15, 0, -30],
    [-30, 5, 10, 15, 15, 10, 5, -30],
    [-40, -20, 0, 5, 5, 0, -20, -40],
    [-50, -40, -30, -30, -30, -30, -40, -50],
];

/// Piece-square bonus for a bishop, by rank counted from its own side and file.
pub const BISHOP_TABLE: [[i32; 8]; 8] = [
    [-20, -10, -10, -10, -10, -10, -10, -20],
    [-10, 0, 0, 0, 0, 0, 0, -10],
    [-10, 0, 5, 10, 10, 5, 0, -10],
    [-10, 5, 5, 10, 10, 5, 5, -10],
    [-10, 0, 10, 10, 10, 10, 0, -10],
    [-10, 10, 10, 10, 10, 10, 10, -10],
    [-10, 5, 0, 0, 0, 0, 5, -10],
    [-20, -10, -10, -10, -10, -10, -10, -20],
];

/// Piece-square bonus for a rook, by rank counted from its own side and file.
pub const ROOK_TABLE: [[i32; 8]; 8] = [
    [0, 0, 0, 0, 0, 0, 0, 0],
    [5, 10, 10, 10, 10, 10, 10, 5],
    [-5, 0, 0, 0, 0, 0, 0, -5],
    [-5, 0, 0, 0, 0, 0, 0, -5],
    [-5, 0, 0, 0, 0, 0, 0, -5],
    [-5, 0, 0, 0, 0, 0, 0, -5],
    [-5, 0, 0, 0, 0, 0, 0, -5],
    [0, 0, 0, 5, 5, 0, 0, 0],
];

/// Piece-square bonus for a queen, by rank counted from its own side and file.
pub const QUEEN_TABLE: [[i32; 8]; 8] = [
    [-20, -10, -10, -5, -5, -10, -10, -20],
    [-10, 0, 0, 0, 0, 0, 0, -10],
    [-10, 0, 5, 5, 5, 5, 0, -10],
    [-5, 0, 5, 5, 5, 5, 0, -5],
    [0, 0, 5, 5, 5, 5, 0, -5],
    [-10, 5, 5, 5, 5, 5, 0, -10],
    [-10, 0, 5, 0, 0, 0, 0, -10],
    [-20, -10, -10, -5, -5, -10, -10, -20],
];

/// Piece-square bonus for a king, by rank counted from its own side and file.
pub const KING_TABLE: [[i32; 8]; 8] = [
    [20, 30, 10, 0, 0, 10, 30, 20],
    [20, 20, 0, 0, 0, 0, 20, 20],
    [-10, -20, -20, -20, -20, -20, -20, -10],
    [-20, -30, -30, -40, -40, -30, -30, -20],
    [-30, -40, -40, -50, -50, -40, -40, -30],
    [-30, -40, -40, -50, -50, -40, -40, -30],
    [-30, -40, -40, -50, -50, -40, -40, -30],
    [-30, -40, -40, -50, -50, -40, -40, -30],
];


pub open spec fn material(pt: PieceType) -> int {
    match pt {
        PieceType::Pawn => 100,
        PieceType::Knight => 320,
        PieceType::Bishop => 330,
        PieceType::Rook => 500,
        PieceType::Queen => 900,
        PieceType::King => 20000,
    }
}

pub open spec fn table_for(pt: PieceType) -> [[i32; 8]; 8] {
    match pt {
        PieceType::Pawn => PAWN_TABLE,
        PieceType::Knight => KNIGHT_TABLE,
        PieceType::Bishop => BISHOP_TABLE,
        PieceType::Rook => ROOK_TABLE,
        PieceType::Queen => QUEEN_TABLE,
        PieceType::King => KING_TABLE,
    }
}

/// The piece-square bonus, read from the table by rank as seen from the
/// piece's own side.
pub open spec fn pst(pt: PieceType, color: Color, row: int, col: int) -> int {
    let r = if color == Color::White { row } else { 7 - row };
    table_for(pt)[r][col] as int
}

pub open spec fn square_value(x: Option<Piece>, row: int, col: int, for_color: Color) -> int {
    match x {
        None => 0,
        Some(p) => {
            let v = material(p.piece_type) + pst(p.piece_type, p.color, row, col);
            if p.color == for_color { v } else { -v }
        },
    }
}

/// The material and placement balance of the squares at and after (r, c).
pub open spec fn score_from(pos: ChessPosition, for_color: Color, r: int, c: int) -> int
    decreases 8 - r, 8 - c,
{
    if r < 0 || r >= 8 {
        0
    } else if c < 0 || c >= 8 {
        score_from(pos, for_color, r + 1, 0)
    } else {
        square_value(pos.board[r][c], r, c, for_color) + score_from(pos, for_color, r, c + 1)
    }
}

/// How good the position is for `for_color`: a won game is worth 90000,
/// a lost one -90000, a draw 0, otherwise the material and placement
/// balance.
pub open spec fn evaluation(pos: ChessPosition, status: GameStatus, for_color: Color) -> int {
    match status {
        GameStatus::WhiteWon => if for_color == Color::White { 90000 } else { -90000 },
        GameStatus::BlackWon => if for_color == Color::Black { 90000 } else { -90000 },
        GameStatus::Draw => 0,
        GameStatus::Playing => score_from(pos, for_color, 0, 0),
    }
}

/// The key by which the search orders moves: captures of the most valuable
/// pieces first.
pub open spec fn victim_key(pos: ChessPosition, m: (usize, usize, usize, usize)) -> int {
    match pos.board[m.2 as int][m.3 as int] {
        Some(v) => -material(v.piece_type),
        None => 0,
    }
}

/// Where a move with key `k` goes in a sorted list: after every move whose
/// key is not greater.
pub open spec fn insert_index(pos: ChessPosition, sorted: Seq<(usize, usize, usize, usize)>, k: int) -> int
    decreases sorted.len(),
{
    if sorted.len() == 0 {
        0
    } else if victim_key(pos, sorted[0]) > k {
        0
    } else {
        1 + insert_index(pos, sorted.drop_first(), k)
    }
}

/// The moves sorted by `victim_key`, keeping the given order among equal keys.
pub open spec fn sort_moves(pos: ChessPosition, s: Seq<(usize, usize, usize, usize)>) -> Seq<(usize, usize, usize, usize)>
    decreases s.len(),
{
    if s.len() == 0 {
        s
    } else {
        let sorted = sort_moves(pos, s.drop_last());
        sorted.insert(insert_index(pos, sorted, victim_key(pos, s.last())), s.last())
    }
}

/// The position after a move tried by the search, which always promotes to
/// a queen.
pub open spec fn child_position(pos: ChessPosition, m: (usize, usize, usize, usize)) -> ChessPosition {
    apply_raw(pos, m.0 as int, m.1 as int, m.2 as int, m.3 as int, Some(PieceType::Queen))
}

/// The status the search gives a position reached with `next` to move:
/// checkmate or stalemate when `next` cannot move, else the status before
/// the move.
pub open spec fn child_status(pos: ChessPosition, next: Color, status: GameStatus) -> GameStatus {
    if !has_legal_move(pos, next) {
        if in_check(pos, next) {
            won_by(player_of(opponent(next)))
        } else {
            GameStatus::Draw
        }
    } else {
        status
    }
}

/// The minimax value of a position for `for_color`, looking `depth` moves
/// ahead; `maximizing` says whether `for_color` is to move. Finished games,
/// depth zero and positions without moves are worth their evaluation.
pub open spec fn minimax_value(
    pos: ChessPosition,
    turn: Color,
    status: GameStatus,
    depth: nat,
    maximizing: bool,
    for_color: Color,
) -> int
    decreases depth, 0nat,
{
    if status != GameStatus::Playing || depth == 0 {
        evaluation(pos, status, for_color)
    } else {
        let cur = if maximizing { for_color } else { opponent(for_color) };
        let moves = sort_moves(pos, all_legal_moves(pos, cur));
        if moves.len() == 0 {
            evaluation(pos, status, for_color)
        } else {
            best_child_value(pos, turn, moves, (depth - 1) as nat, maximizing, for_color)
        }
    }
}

/// The best value among the moves (largest when maximizing, smallest
/// otherwise), each child searched `depth` more moves; the empty list has
/// the lowest (or highest) 32-bit value.
pub open spec fn best_child_value(
    pos: ChessPosition,
    turn: Color,
    moves: Seq<(usize, usize, usize, usize)>,
    depth: nat,
    maximizing: bool,
    for_color: Color,
) -> int
    decreases depth, moves.len(),
{
    if moves.len() == 0 {
        if maximizing { i32::MIN as int } else { i32::MAX as int }
    } else {
        let prev = best_child_value(pos, turn, moves.drop_last(), depth, maximizing, for_color);
        let p2 = child_position(pos, moves.last());
        let next = opponent(turn);
        let v = minimax_value(
            p2,
            next,
            child_status(p2, next, GameStatus::Playing),
            depth,
            !maximizing,
            for_color,
        );
        if maximizing {
            if v > prev { v } else { prev }
        } else {
            if v < prev { v } else { prev }
        }
    }
}

pub open spec fn child_value(
    pos: ChessPosition,
    turn: Color,
    status: GameStatus,
    m: (usize, usize, usize, usize),
    depth: nat,
    maximizing: bool,
    for_color: Color,
) -> int {
    let p2 = child_position(pos, m);
    let next = opponent(turn);
    minimax_value(p2, next, child_status(p2, next, status), depth, !maximizing, for_color)
}


proof fn lemma_tables_bounded()
    ensures
        forall|pt: PieceType, r: int, c: int|
            on_board(r, c) ==> -50 <= #[trigger] table_for(pt)[r][c] <= 50,
{
    assert forall|r: int, c: int| on_board(r, c) implies -50 <= #[trigger] PAWN_TABLE[r][c] <= 50 by {}
    assert forall|r: int, c: int| on_board(r, c) implies -50 <= #[trigger] KNIGHT_TABLE[r][c] <= 50 by {}
    assert forall|r: int, c: int| on_board(r, c) implies -50 <= #[trigger] BISHOP_TABLE[r][c] <= 50 by {}
    assert forall|r: int, c: int| on_board(r, c) implies -50 <= #[trigger] ROOK_TABLE[r][c] <= 50 by {}
    assert forall|r: int, c: int| on_board(r, c) implies -50 <= #[trigger] QUEEN_TABLE[r][c] <= 50 by {}
    assert forall|r: int, c: int| on_board(r, c) implies -50 <= #[trigger] KING_TABLE[r][c] <= 50 by {}
    assert forall|pt: PieceType, r: int, c: int| on_board(r, c) implies -50 <= #[trigger] table_for(
        pt,
    )[r][c] <= 50 by {
        match pt {
            PieceType::Pawn => assert(PAWN_TABLE[r][c] == table_for(pt)[r][c]),
            PieceType::Knight => assert(KNIGHT_TABLE[r][c] == table_for(pt)[r][c]),
            PieceType::Bishop => assert(BISHOP_TABLE[r][c] == table_for(pt)[r][c]),
            PieceType::Rook => assert(ROOK_TABLE[r][c] == table_for(pt)[r][c]),
            PieceType::Queen => assert(QUEEN_TABLE[r][c] == table_for(pt)[r][c]),
            PieceType::King => assert(KING_TABLE[r][c] == table_for(pt)[r][c]),
        }
    }
}

pub open spec fn cells_left(r: int, c: int) -> int {
    if r < 0 || r >= 8 {
        0
    } else if c < 0 || c >= 8 {
        8 * (7 - r)
    } else {
        8 * (7 - r) + (8 - c)
    }
}

/// The largest worth of one square.
pub open spec fn square_bound() -> int {
    20050
}

/// The largest worth of a whole board: 64 squares.
pub open spec fn eval_bound() -> int {
    1283200
}

proof fn lemma_square_value_bounded(x: Option<Piece>, row: int, col: int, for_color: Color)
    requires
        on_board(row, col),
    ensures
        -square_bound() <= square_value(x, row, col, for_color) <= square_bound(),
{
    lemma_tables_bounded();
    if let Some(p) = x {
        let r = if p.color == Color::White { row } else { 7 - row };
        assert(-50 <= table_for(p.piece_type)[r][col] <= 50);
    }
}

proof fn lemma_score_bounded(pos: ChessPosition, for_color: Color, r: int, c: int)
    requires
        0 <= r <= 8,
        0 <= c <= 8,
    ensures
        -20050 * cells_left(r, c) <= score_from(pos, for_color, r, c) <= 20050 * cells_left(r, c),
    decreases 8 - r, 8 - c,
{
    if r < 8 {
        if c >= 8 {
            lemma_score_bounded(pos, for_color, r + 1, 0);
        } else {
            lemma_score_bounded(pos, for_color, r, c + 1);
            lemma_square_value_bounded(pos.board[r][c], r, c, for_color);
            assert(cells_left(r, c) == cells_left(r, c + 1) + 1);
        }
    }
}

/// The evaluation of any position lies within plus or minus 64 squares'
/// worth.
proof fn lemma_evaluation_bounded(pos: ChessPosition, status: GameStatus, for_color: Color)
    ensures
        -eval_bound() <= evaluation(pos, status, for_color) <= eval_bound(),
{
    lemma_score_bounded(pos, for_color, 0, 0);
}

proof fn lemma_minimax_bounded(
    pos: ChessPosition,
    turn: Color,
    status: GameStatus,
    depth: nat,
    maximizing: bool,
    for_color: Color,
)
    ensures
        -eval_bound() <= minimax_value(pos, turn, status, depth, maximizing, for_color)
            <= eval_bound(),
    decreases depth, 0nat,
{
    lemma_evaluation_bounded(pos, status, for_color);
    if status == GameStatus::Playing && depth > 0 {
        let cur = if maximizing { for_color } else { opponent(for_color) };
        let moves = sort_moves(pos, all_legal_moves(pos, cur));
        if moves.len() > 0 {
            lemma_best_child_bounded(pos, turn, moves, (depth - 1) as nat, maximizing, for_color);
        }
    }
}

proof fn lemma_best_child_bounded(
    pos: ChessPosition,
    turn: Color,
    moves: Seq<(usize, usize, usize, usize)>,
    depth: nat,
    maximizing: bool,
    for_color: Color,
)
    requires
        moves.len() > 0,
    ensures
        -eval_bound() <= best_child_value(pos, turn, moves, depth, maximizing, for_color)
            <= eval_bound(),
    decreases depth, moves.len(),
{
    let p2 = child_position(pos, moves.last());
    let next = opponent(turn);
    lemma_minimax_bounded(p2, next, child_status(p2, next, GameStatus::Playing), depth, !maximizing, for_color);
    if moves.len() > 1 {
        lemma_best_child_bounded(pos, turn, moves.drop_last(), depth, maximizing, for_color);
    } else {
        assert(moves.drop_last().len() == 0);
        assert(best_child_value(pos, turn, moves.drop_last(), depth, maximizing, for_color) == (
        if maximizing {
            i32::MIN as int
        } else {
            i32::MAX as int
        }));
    }
}

/// The best value over a prefix of the moves is no better than over all.
proof fn lemma_best_child_prefix(
    pos: ChessPosition,
    turn: Color,
    moves: Seq<(usize, usize, usize, usize)>,
    i: int,
    depth: nat,
    maximizing: bool,
    for_color: Color,
)
    requires
        0 <= i <= moves.len(),
    ensures
        maximizing ==> best_child_value(pos, turn, moves.take(i), depth, maximizing, for_color)
            <= best_child_value(pos, turn, moves, depth, maximizing, for_color),
        !maximizing ==> best_child_value(pos, turn, moves.take(i), depth, maximizing, for_color)
            >= best_child_value(pos, turn, moves, depth, maximizing, for_color),
    decreases moves.len(),
{
    if i < moves.len() {
        lemma_best_child_prefix(pos, turn, moves.drop_last(), i, depth, maximizing, for_color);
        assert(moves.drop_last().take(i) =~= moves.take(i));
    } else {
        assert(moves.take(i) =~= moves);
    }
}

/// Every move in the list of all legal moves starts from a piece of the
/// side and goes to one of its legal destinations.
proof fn lemma_moves_from_legal(pos: ChessPosition, color: Color, r: int, c: int, m: (usize, usize, usize, usize))
    requires
        moves_from(pos, color, r, c).contains(m),
    ensures
        on_board(m.0 as int, m.1 as int),
        pos.board[m.0 as int][m.1 as int] matches Some(p) && p.color == color,
        legal_targets(pos, m.0 as int, m.1 as int).contains((m.2, m.3)),
    decreases 8 - r, 8 - c,
{
    if 0 <= r < 8 {
        if c < 0 || c >= 8 {
            lemma_moves_from_legal(pos, color, r + 1, 0, m);
        } else {
            let a = moves_of_square(pos, color, r, c);
            let b = moves_from(pos, color, r, c + 1);
            let k = choose|k: int| 0 <= k < (a + b).len() && (a + b)[k] == m;
            if k < a.len() {
                assert(a[k] == m);
                let t = legal_targets(pos, r, c)[k];
                assert(legal_targets(pos, r, c).contains(t));
            } else {
                assert(b[k - a.len()] == m);
                lemma_moves_from_legal(pos, color, r, c + 1, m);
            }
        }
    }
}

proof fn lemma_insert_index_bounded(pos: ChessPosition, sorted: Seq<(usize, usize, usize, usize)>, k: int)
    ensures
        0 <= insert_index(pos, sorted, k) <= sorted.len(),
    decreases sorted.len(),
{
    if sorted.len() > 0 && victim_key(pos, sorted[0]) <= k {
        lemma_insert_index_bounded(pos, sorted.drop_first(), k);
    }
}

/// The index found by scanning from the front is `insert_index`.
proof fn lemma_insert_index_scan(pos: ChessPosition, sorted: Seq<(usize, usize, usize, usize)>, k: int, j: int)
    requires
        0 <= j <= sorted.len(),
        forall|t: int| 0 <= t < j ==> victim_key(pos, #[trigger] sorted[t]) <= k,
        j == sorted.len() || victim_key(pos, sorted[j]) > k,
    ensures
        insert_index(pos, sorted, k) == j,
    decreases sorted.len(),
{
    if sorted.len() > 0 && j > 0 {
        assert(victim_key(pos, sorted[0]) <= k);
        assert forall|t: int| 0 <= t < j - 1 implies victim_key(pos, #[trigger] sorted.drop_first()[t]) <= k by {
            assert(sorted.drop_first()[t] == sorted[t + 1]);
        }
        if j < sorted.len() {
            assert(sorted.drop_first()[j - 1] == sorted[j]);
        }
        lemma_insert_index_scan(pos, sorted.drop_first(), k, j - 1);
    }
}

/// Sorting keeps the moves, and the count.
proof fn lemma_sort_moves_members(pos: ChessPosition, s: Seq<(usize, usize, usize, usize)>, m: (usize, usize, usize, usize))
    ensures
        sort_moves(pos, s).len() == s.len(),
        sort_moves(pos, s).contains(m) ==> s.contains(m),
    decreases s.len(),
{
    if s.len() > 0 {
        let sorted = sort_moves(pos, s.drop_last());
        let idx = insert_index(pos, sorted, victim_key(pos, s.last()));
        lemma_sort_moves_members(pos, s.drop_last(), m);
        lemma_insert_index_bounded(pos, sorted, victim_key(pos, s.last()));
        let res = sorted.insert(idx, s.last());
        if res.contains(m) {
            let k = choose|k: int| 0 <= k < res.len() && res[k] == m;
            if k < idx {
                assert(sorted[k] == m);
                assert(sorted.contains(m));
                let j = choose|j: int| 0 <= j < s.drop_last().len() && s.drop_last()[j] == m;
                assert(s[j] == m);
            } else if k == idx {
                assert(s[s.len() - 1] == m);
            } else {
                assert(sorted[k - 1] == m);
                assert(sorted.contains(m));
                let j = choose|j: int| 0 <= j < s.drop_last().len() && s.drop_last()[j] == m;
                assert(s[j] == m);
            }
        }
    }
}


/// The move a computer player sends: from and to, and a queen promotion
/// when `promote`.
pub open spec fn is_move_payload(mv: MovePayload, m: (usize, usize, usize, usize), promote: bool) -> bool {
    &&& mv.from_row == Some(m.0 as u64)
    &&& mv.from_col == Some(m.1 as u64)
    &&& mv.to_row == Some(m.2 as u64)
    &&& mv.to_col == Some(m.3 as u64)
    &&& mv.row is None
    &&& mv.col is None
    &&& mv.pass is None
    &&& (mv.promotion is Some <==> promote)
    &&& (mv.promotion matches Some(s) ==> s@ == "queen"@)
}

/// The move takes a pawn of `color` to its last rank.
pub open spec fn promotes(pos: ChessPosition, m: (usize, usize, usize, usize), color: Color) -> bool {
    pos.board[m.0 as int][m.1 as int] matches Some(p) && p.piece_type == PieceType::Pawn && m.2
        == promotion_rank(color)
}

/// The move the easy computer player picks: the index is fixed by the move
/// number and the side.
pub open spec fn random_index(full_move_number: u32, color: Color, n: int) -> int {
    (full_move_number * 6991 + (if color == Color::White { 0int } else { 1int }) * 31) % n
}


/// The value the search gives the `k`-th of the root moves.
pub open spec fn root_value(
    pos: ChessPosition,
    turn: Color,
    status: GameStatus,
    moves: Seq<(usize, usize, usize, usize)>,
    k: int,
    depth: nat,
    color: Color,
) -> int {
    child_value(pos, turn, status, moves[k], depth, true, color)
}

/// The easy computer player's answer: none without legal moves, else the
/// move at `random_index` among all legal moves.
pub open spec fn easy_choice(pos: ChessPosition, full_move_number: u32, color: Color, r: Option<MovePayload>) -> bool {
    let moves = all_legal_moves(pos, color);
    &&& (r is None <==> moves.len() == 0)
    &&& (r matches Some(mv) ==> is_move_payload(
        mv,
        moves[random_index(full_move_number, color, moves.len() as int)],
        false,
    ))
}

/// The searching computer player's answer for `color`, to move: none
/// without legal moves, else the first move of greatest value in the
/// search order.
pub open spec fn search_choice(pos: ChessPosition, color: Color, status: GameStatus, depth: nat, r: Option<MovePayload>) -> bool {
    let moves = sort_moves(pos, all_legal_moves(pos, color));
    &&& (r is None <==> moves.len() == 0)
    &&& (r matches Some(mv) ==> exists|k: int|
        first_best(pos, color, status, moves, k, depth, color) && is_move_payload(
            mv,
            moves[k],
            promotes(pos, moves[k], color),
        ))
}

/// The `k`-th move has the greatest value, and is the first that has it.
pub open spec fn first_best(
    pos: ChessPosition,
    turn: Color,
    status: GameStatus,
    moves: Seq<(usize, usize, usize, usize)>,
    k: int,
    depth: nat,
    color: Color,
) -> bool {
    &&& 0 <= k < moves.len()
    &&& forall|j: int|
        0 <= j < moves.len() ==> #[trigger] root_value(pos, turn, status, moves, j, depth, color)
            <= root_value(pos, turn, status, moves, k, depth, color)
    &&& forall|j: int|
        0 <= j < k ==> #[trigger] root_value(pos, turn, status, moves, j, depth, color)
            < root_value(pos, turn, status, moves, k, depth, color)
}

pub open spec fn all_on_board(s: Seq<(usize, usize)>) -> bool {
    forall|i: int| 0 <= i < s.len() ==> on_board(#[trigger] s[i].0 as int, s[i].1 as int)
}

proof fn lemma_ray_on_board(pos: ChessPosition, color: Color, r: int, c: int, dr: int, dc: int)
    ensures
        all_on_board(ray(pos, color, r, c, dr, dc)),
    decreases ray_measure(r, c, dr, dc),
{
    reveal(ray);
    if on_board(r, c) && unit_dir(dr, dc) {
        if pos.board[r][c] is None {
            lemma_ray_on_board(pos, color, r + dr, c + dc, dr, dc);
        }
    }
}

proof fn lemma_steps_on_board(pos: ChessPosition, color: Color, r: int, c: int)
    ensures
        all_on_board(step_to(pos, color, r, c)),
{
    reveal(step_to);
}

proof fn lemma_concat_on_board(a: Seq<(usize, usize)>, b: Seq<(usize, usize)>)
    requires
        all_on_board(a),
        all_on_board(b),
    ensures
        all_on_board(a + b),
{
    assert forall|i: int| 0 <= i < (a + b).len() implies on_board(#[trigger] (a + b)[i].0 as int, (a + b)[i].1 as int) by {
        if i < a.len() {
            assert((a + b)[i] == a[i]);
        } else {
            assert((a + b)[i] == b[i - a.len()]);
        }
    }
}

proof fn lemma_eight_steps_on_board(pos: ChessPosition, color: Color, row: int, col: int, knight: bool)
    ensures
        knight ==> all_on_board(knight_moves(pos, row, col, color)),
        !knight ==> all_on_board(king_steps(pos, row, col, color)),
{
    if knight {
        lemma_steps_on_board(pos, color, row - 2, col - 1);
        lemma_steps_on_board(pos, color, row - 2, col + 1);
        lemma_steps_on_board(pos, color, row - 1, col - 2);
        lemma_steps_on_board(pos, color, row - 1, col + 2);
        lemma_steps_on_board(pos, color, row + 1, col - 2);
        lemma_steps_on_board(pos, color, row + 1, col + 2);
        lemma_steps_on_board(pos, color, row + 2, col - 1);
        lemma_steps_on_board(pos, color, row + 2, col + 1);
        let a = step_to(pos, color, row - 2, col - 1);
        let a = a + step_to(pos, color, row - 2, col + 1);
        lemma_concat_on_board(step_to(pos, color, row - 2, col - 1), step_to(pos, color, row - 2, col + 1));
        lemma_concat_on_board(a, step_to(pos, color, row - 1, col - 2));
        let a = a + step_to(pos, color, row - 1, col - 2);
        lemma_concat_on_board(a, step_to(pos, color, row - 1, col + 2));
        let a = a + step_to(pos, color, row - 1, col + 2);
        lemma_concat_on_board(a, step_to(pos, color, row + 1, col - 2));
        let a = a + step_to(pos, color, row + 1, col - 2);
        lemma_concat_on_board(a, step_to(pos, color, row + 1, col + 2));
        let a = a + step_to(pos, color, row + 1, col + 2);
        lemma_concat_on_board(a, step_to(pos, color, row + 2, col - 1));
        let a = a + step_to(pos, color, row + 2, col - 1);
        lemma_concat_on_board(a, step_to(pos, color, row + 2, col + 1));
    } else {
        lemma_steps_on_board(pos, color, row - 1, col - 1);
        lemma_steps_on_board(pos, color, row - 1, col);
        lemma_steps_on_board(pos, color, row - 1, col + 1);
        lemma_steps_on_board(pos, color, row, col - 1);
        lemma_steps_on_board(pos, color, row, col + 1);
        lemma_steps_on_board(pos, color, row + 1, col - 1);
        lemma_steps_on_board(pos, color, row + 1, col);
        lemma_steps_on_board(pos, color, row + 1, col + 1);
        let a = step_to(pos, color, row - 1, col - 1);
        lemma_concat_on_board(a, step_to(pos, color, row - 1, col));
        let a = a + step_to(pos, color, row - 1, col);
        lemma_concat_on_board(a, step_to(pos, color, row - 1, col + 1));
        let a = a + step_to(pos, color, row - 1, col + 1);
        lemma_concat_on_board(a, step_to(pos, color, row, col - 1));
        let a = a + step_to(pos, color, row, col - 1);
        lemma_concat_on_board(a, step_to(pos, color, row, col + 1));
        let a = a + step_to(pos, color, row, col + 1);
        lemma_concat_on_board(a, step_to(pos, color, row + 1, col - 1));
        let a = a + step_to(pos, color, row + 1, col - 1);
        lemma_concat_on_board(a, step_to(pos, color, row + 1, col));
        let a = a + step_to(pos, color, row + 1, col);
        lemma_concat_on_board(a, step_to(pos, color, row + 1, col + 1));
    }
}

proof fn lemma_rays_on_board(pos: ChessPosition, color: Color, row: int, col: int)
    ensures
        all_on_board(diagonal_rays(pos, row, col, color)),
        all_on_board(straight_rays(pos, row, col, color)),
        all_on_board(queen_rays(pos, row, col, color)),
{
    let r1 = ray(pos, color, row - 1, col - 1, -1, -1);
    let r2 = ray(pos, color, row - 1, col, -1, 0);
    let r3 = ray(pos, color, row - 1, col + 1, -1, 1);
    let r4 = ray(pos, color, row, col - 1, 0, -1);
    let r5 = ray(pos, color, row, col + 1, 0, 1);
    let r6 = ray(pos, color, row + 1, col - 1, 1, -1);
    let r7 = ray(pos, color, row + 1, col, 1, 0);
    let r8 = ray(pos, color, row + 1, col + 1, 1, 1);
    lemma_ray_on_board(pos, color, row - 1, col - 1, -1, -1);
    lemma_ray_on_board(pos, color, row - 1, col, -1, 0);
    lemma_ray_on_board(pos, color, row - 1, col + 1, -1, 1);
    lemma_ray_on_board(pos, color, row, col - 1, 0, -1);
    lemma_ray_on_board(pos, color, row, col + 1, 0, 1);
    lemma_ray_on_board(pos, color, row + 1, col - 1, 1, -1);
    lemma_ray_on_board(pos, color, row + 1, col, 1, 0);
    lemma_ray_on_board(pos, color, row + 1, col + 1, 1, 1);
    lemma_concat_on_board(r1, r3);
    lemma_concat_on_board(r1 + r3, r6);
    lemma_concat_on_board(r1 + r3 + r6, r8);
    lemma_concat_on_board(r2, r7);
    lemma_concat_on_board(r2 + r7, r4);
    lemma_concat_on_board(r2 + r7 + r4, r5);
    lemma_concat_on_board(r1, r2);
    lemma_concat_on_board(r1 + r2, r3);
    lemma_concat_on_board(r1 + r2 + r3, r4);
    lemma_concat_on_board(r1 + r2 + r3 + r4, r5);
    lemma_concat_on_board(r1 + r2 + r3 + r4 + r5, r6);
    lemma_concat_on_board(r1 + r2 + r3 + r4 + r5 + r6, r7);
    lemma_concat_on_board(r1 + r2 + r3 + r4 + r5 + r6 + r7, r8);
}

/// A pawn's destinations lie one or two ranks ahead of it, on the board.
proof fn lemma_pawn_targets(pos: ChessPosition, row: int, col: int, color: Color)
    requires
        shaped(pos.board),
        on_board(row, col),
    ensures
        all_on_board(pawn_moves(pos, row, col, color)),
        forall|i: int|
            0 <= i < pawn_moves(pos, row, col, color).len() ==> {
                let t = #[trigger] pawn_moves(pos, row, col, color)[i];
                t.0 == row + pawn_dir(color) || t.0 == row + 2 * pawn_dir(color)
            },
{
    reveal(pawn_forward);
    reveal(pawn_diag);
    let a = pawn_forward(pos, row, col, color);
    let b = pawn_diag(pos, row, col, color, -1);
    let c = pawn_diag(pos, row, col, color, 1);
    assert(all_on_board(a));
    assert(all_on_board(b));
    assert(all_on_board(c));
    lemma_concat_on_board(a, b);
    lemma_concat_on_board(a + b, c);
    assert forall|i: int| 0 <= i < (a + b + c).len() implies {
        let t = #[trigger] (a + b + c)[i];
        t.0 == row + pawn_dir(color) || t.0 == row + 2 * pawn_dir(color)
    } by {
        if i < a.len() {
            assert((a + b + c)[i] == a[i]);
        } else if i < a.len() + b.len() {
            assert((a + b + c)[i] == b[i - a.len()]);
        } else {
            assert((a + b + c)[i] == c[i - a.len() - b.len()]);
        }
    }
}

proof fn lemma_castle_on_board(pos: ChessPosition, row: int, col: int, color: Color)
    ensures
        all_on_board(castle_moves(pos, row, col, color)),
{
    reveal(castle_moves);
}

/// Every destination that the move rules produce is on the board, and a
/// pawn's lies one or two ranks ahead of it.
proof fn lemma_pseudo_ok(pos: ChessPosition, row: int, col: int, castling: bool, t: (usize, usize))
    requires
        shaped(pos.board),
        on_board(row, col),
        pseudo_moves(pos, row, col, castling).contains(t),
    ensures
        raw_move_ok(pos, row, col, t.0 as int, t.1 as int),
{
    let p = pos.board[row][col]->0;
    let base = base_moves(pos, row, col);
    let extra = if castling && (pos.board[row][col] matches Some(p) && p.piece_type
        == PieceType::King && !in_check(pos, p.color)) {
        castle_moves(pos, row, col, pos.board[row][col]->0.color)
    } else {
        seq![]
    };
    let s = pseudo_moves(pos, row, col, castling);
    assert(s == base + extra);
    lemma_castle_on_board(pos, row, col, p.color);
    lemma_eight_steps_on_board(pos, p.color, row, col, true);
    lemma_eight_steps_on_board(pos, p.color, row, col, false);
    lemma_rays_on_board(pos, p.color, row, col);
    lemma_pawn_targets(pos, row, col, p.color);
    assert(all_on_board(base));
    assert(all_on_board(extra));
    lemma_concat_on_board(base, extra);
    let i = choose|i: int| 0 <= i < s.len() && s[i] == t;
    assert(on_board(s[i].0 as int, s[i].1 as int));
    if p.piece_type == PieceType::Pawn {
        assert(extra.len() == 0);
        assert(s[i] == base[i]);
    }
}

/// The legal destinations are among the candidates.
proof fn lemma_safe_subset(pos: ChessPosition, fr: int, fc: int, color: Color, cands: Seq<(usize, usize)>, t: (usize, usize))
    requires
        safe_targets(pos, fr, fc, color, cands).contains(t),
    ensures
        cands.contains(t),
    decreases cands.len(),
{
    if cands.len() > 0 {
        let rest = safe_targets(pos, fr, fc, color, cands.drop_last());
        if rest.contains(t) {
            lemma_safe_subset(pos, fr, fc, color, cands.drop_last(), t);
            let j = choose|j: int| 0 <= j < cands.drop_last().len() && cands.drop_last()[j] == t;
            assert(cands[j] == t);
        } else {
            assert(t == cands.last());
            assert(cands[cands.len() - 1] == t);
        }
    }
}

/// A legal destination can be carried out on the board.
proof fn lemma_legal_ok(pos: ChessPosition, row: int, col: int, t: (usize, usize))
    requires
        shaped(pos.board),
        on_board(row, col),
        legal_targets(pos, row, col).contains(t),
    ensures
        raw_move_ok(pos, row, col, t.0 as int, t.1 as int),
        pseudo_moves(pos, row, col, true).contains(t),
{
    let p = pos.board[row][col]->0;
    lemma_safe_subset(pos, row, col, p.color, pseudo_moves(pos, row, col, true), t);
    lemma_pseudo_ok(pos, row, col, true, t);
}


/// What a call of `make_move` on `g0` does: `g1` is the game after it and
/// `r` its result.
pub open spec fn chess_played(g0: ChessGame, g1: ChessGame, mv: MovePayload, player: PlayerColor, r: Result<(), MoveError>) -> bool {
    match r {
        Err(e) => chess_move_error(g0, mv, player) == Some(e) && g1
            == g0,
        Ok(()) => {
            let fr = mv.from_row->0 as int;
            let fc = mv.from_col->0 as int;
            let tr = mv.to_row->0 as int;
            let tc = mv.to_col->0 as int;
            let pos2 = apply_raw(g0.position(), fr, fc, tr, tc, promotion_named(mv.promotion));
            let next = opponent(g0.current_turn);
            let st = status_after_move(pos2, g0.current_turn);
            let key = position_key(pos2, next);
            let hist = if st == GameStatus::Playing {
                g0.history_view().push(key)
            } else {
                g0.history_view()
            };
            &&& chess_move_error(g0, mv, player) is None
            &&& g1.position() == pos2
            &&& g1.current_turn == next
            &&& g1.last_move == Some((fr as usize, fc as usize, tr as usize, tc as usize))
            &&& g1.history_view() == hist
            &&& g1.status == (if st == GameStatus::Playing && occurrences(hist, key) >= 3 {
                GameStatus::Draw
            } else {
                st
            })
            &&& g1.full_move_number == g0.full_move_number + (if next == Color::White {
                1int
            } else {
                0int
            })
            &&& g1.half_move_clock == g0.half_move_clock
        },
    }
}

/// What `get_ai_move` answers for `g` at `difficulty`.
pub open spec fn chess_ai_choice(g: ChessGame, difficulty: AiDifficulty, r: Option<MovePayload>) -> bool {
    &&& (difficulty == AiDifficulty::Easy ==> easy_choice(
        g.position(),
        g.full_move_number,
        g.current_turn,
        r,
    ))
    &&& (difficulty != AiDifficulty::Easy ==> search_choice(
        g.position(),
        g.current_turn,
        g.status,
        if difficulty == AiDifficulty::Normal { 2 } else { 4 },
        r,
    ))
}

proof fn lemma_safe_targets_safe(pos: ChessPosition, fr: int, fc: int, color: Color, cands: Seq<(usize, usize)>, t: (usize, usize))
    requires
        safe_targets(pos, fr, fc, color, cands).contains(t),
    ensures
        keeps_king_safe(pos, fr, fc, t, color),
    decreases cands.len(),
{
    if cands.len() > 0 {
        let rest = safe_targets(pos, fr, fc, color, cands.drop_last());
        if rest.contains(t) {
            lemma_safe_targets_safe(pos, fr, fc, color, cands.drop_last(), t);
        }
    }
}

proof fn lemma_safe_targets_members(
    pos: ChessPosition,
    fr: int,
    fc: int,
    color: Color,
    cands: Seq<(usize, usize)>,
    t: (usize, usize),
)
    ensures
        safe_targets(pos, fr, fc, color, cands).contains(t) <==> cands.contains(t) && keeps_king_safe(pos, fr, fc, t, color),
    decreases cands.len(),
{
    if cands.len() > 0 {
        let front = cands.drop_last();
        let last = cands.last();
        lemma_safe_targets_members(pos, fr, fc, color, front, t);
        assert(cands =~= front.push(last));
        lemma_push_contains(front, last, t);
        let rest = safe_targets(pos, fr, fc, color, front);
        if keeps_king_safe(pos, fr, fc, last, color) {
            lemma_push_contains(rest, last, t);
        }
    }
}

proof fn lemma_push_contains(s: Seq<(usize, usize)>, x: (usize, usize), t: (usize, usize))
    ensures
        s.push(x).contains(t) <==> s.contains(t) || x == t,
{
    let res = s.push(x);
    if res.contains(t) {
        let k = choose|k: int| 0 <= k < res.len() && res[k] == t;
        if k < s.len() {
            assert(s[k] == t);
        }
    }
    if s.contains(t) {
        let k = choose|k: int| 0 <= k < s.len() && s[k] == t;
        assert(res[k] == t);
    }
    if x == t {
        assert(res[s.len() as int] == t);
    }
}

/// The legal moves of a piece are exactly its pseudo-legal moves, castling
/// included, after which its own king is not attacked.
pub proof fn legal_moves_are_safe_pseudo_moves(pos: ChessPosition, row: int, col: int, t: (usize, usize))
    requires
        pos.board[row][col] is Some,
    ensures
        legal_targets(pos, row, col).contains(t) <==> pseudo_moves(pos, row, col, true).contains(t) && keeps_king_safe(
            pos,
            row,
            col,
            t,
            pos.board[row][col]->0.color,
        ),
{
    lemma_safe_targets_members(pos, row, col, pos.board[row][col]->0.color, pseudo_moves(pos, row, col, true), t);
}

/// The square tables are written for White; Black reads them mirrored by
/// rank.
pub proof fn tables_mirror_for_black(pt: PieceType, row: int, col: int)
    requires
        0 <= row < 8,
        0 <= col < 8,
    ensures
        pst(pt, Color::Black, row, col) == pst(pt, Color::White, 7 - row, col),
{
}

pub open spec fn side_of(x: Option<Piece>) -> Option<Color> {
    match x {
        None => None,
        Some(p) => Some(p.color),
    }
}

/// `a` and `b` have pieces of the same sides on the same squares, whatever
/// their kinds, and the same en passant target.
pub open spec fn same_sides(a: ChessPosition, b: ChessPosition) -> bool {
    &&& a.en_passant == b.en_passant
    &&& forall|r: int, c: int| on_board(r, c) ==> side_of(#[trigger] a.board[r][c]) == side_of(b.board[r][c])
}

proof fn lemma_step_to_sides(a: ChessPosition, b: ChessPosition, color: Color, r: int, c: int)
    requires
        same_sides(a, b),
    ensures
        step_to(a, color, r, c) == step_to(b, color, r, c),
{
    reveal(step_to);
    if on_board(r, c) {
        assert(side_of(a.board[r][c]) == side_of(b.board[r][c]));
    }
}

proof fn lemma_ray_sides(a: ChessPosition, b: ChessPosition, color: Color, r: int, c: int, dr: int, dc: int)
    requires
        same_sides(a, b),
    ensures
        ray(a, color, r, c, dr, dc) == ray(b, color, r, c, dr, dc),
    decreases ray_measure(r, c, dr, dc),
{
    reveal(ray);
    if on_board(r, c) && unit_dir(dr, dc) {
        assert(side_of(a.board[r][c]) == side_of(b.board[r][c]));
        if a.board[r][c] is None {
            lemma_ray_sides(a, b, color, r + dr, c + dc, dr, dc);
        }
    }
}

/// The moves of a piece depend on the sides of the other pieces only, not
/// on their kinds.
proof fn lemma_base_moves_sides(a: ChessPosition, b: ChessPosition, row: int, col: int)
    requires
        same_sides(a, b),
        on_board(row, col),
        a.board[row][col] == b.board[row][col],
    ensures
        base_moves(a, row, col) == base_moves(b, row, col),
{
    if let Some(p) = a.board[row][col] {
        let color = p.color;
        lemma_step_to_sides(a, b, color, row - 2, col - 1);
        lemma_step_to_sides(a, b, color, row - 2, col + 1);
        lemma_step_to_sides(a, b, color, row - 1, col - 2);
        lemma_step_to_sides(a, b, color, row - 1, col + 2);
        lemma_step_to_sides(a, b, color, row + 1, col - 2);
        lemma_step_to_sides(a, b, color, row + 1, col + 2);
        lemma_step_to_sides(a, b, color, row + 2, col - 1);
        lemma_step_to_sides(a, b, color, row + 2, col + 1);
        lemma_step_to_sides(a, b, color, row - 1, col - 1);
        lemma_step_to_sides(a, b, color, row - 1, col);
        lemma_step_to_sides(a, b, color, row - 1, col + 1);
        lemma_step_to_sides(a, b, color, row, col - 1);
        lemma_step_to_sides(a, b, color, row, col + 1);
        lemma_step_to_sides(a, b, color, row + 1, col - 1);
        lemma_step_to_sides(a, b, color, row + 1, col);
        lemma_step_to_sides(a, b, color, row + 1, col + 1);
        lemma_ray_sides(a, b, color, row - 1, col - 1, -1, -1);
        lemma_ray_sides(a, b, color, row - 1, col, -1, 0);
        lemma_ray_sides(a, b, color, row - 1, col + 1, -1, 1);
        lemma_ray_sides(a, b, color, row, col - 1, 0, -1);
        lemma_ray_sides(a, b, color, row, col + 1, 0, 1);
        lemma_ray_sides(a, b, color, row + 1, col - 1, 1, -1);
        lemma_ray_sides(a, b, color, row + 1, col, 1, 0);
        lemma_ray_sides(a, b, color, row + 1, col + 1, 1, 1);
        reveal(pawn_forward);
        reveal(pawn_diag);
        let r1 = row + pawn_dir(color);
        if 0 <= r1 < 8 && on_board(r1, col) {
            assert(side_of(a.board[r1][col]) == side_of(b.board[r1][col]));
        }
        let r2 = row + 2 * pawn_dir(color);
        if 0 <= r2 < 8 && on_board(r2, col) {
            assert(side_of(a.board[r2][col]) == side_of(b.board[r2][col]));
        }
        if on_board(r1, col - 1) {
            assert(side_of(a.board[r1][col - 1]) == side_of(b.board[r1][col - 1]));
        }
        if on_board(r1, col + 1) {
            assert(side_of(a.board[r1][col + 1]) == side_of(b.board[r1][col + 1]));
        }
        assert(pawn_forward(a, row, col, color) == pawn_forward(b, row, col, color));
        assert(pawn_diag(a, row, col, color, -1) == pawn_diag(b, row, col, color, -1));
        assert(pawn_diag(a, row, col, color, 1) == pawn_diag(b, row, col, color, 1));
    }
}

proof fn lemma_king_search_sides(a: ChessPosition, b: ChessPosition, color: Color, r: int, c: int)
    requires
        forall|i: int, j: int| on_board(i, j) ==> is_king_of(#[trigger] a.board[i][j], color) == is_king_of(b.board[i][j], color),
    ensures
        king_search(a, color, r, c) == king_search(b, color, r, c),
    decreases 8 - r, 8 - c,
{
    if 0 <= r < 8 {
        if c < 0 || c >= 8 {
            lemma_king_search_sides(a, b, color, r + 1, 0);
        } else {
            assert(is_king_of(a.board[r][c], color) == is_king_of(b.board[r][c], color));
            lemma_king_search_sides(a, b, color, r, c + 1);
        }
    }
}

/// Whether a side is in check does not depend on the kind of one of its own
/// pieces other than its king.
proof fn lemma_check_ignores_own_kind(a: ChessPosition, b: ChessPosition, color: Color, tr: int, tc: int)
    requires
        same_sides(a, b),
        forall|i: int, j: int| on_board(i, j) && (i, j) != (tr, tc) ==> #[trigger] a.board[i][j] == b.board[i][j],
        on_board(tr, tc),
        a.board[tr][tc] matches Some(p) && p.color == color && p.piece_type != PieceType::King,
        b.board[tr][tc] matches Some(p) && p.color == color && p.piece_type != PieceType::King,
    ensures
        in_check(a, color) == in_check(b, color),
{
    assert forall|i: int, j: int| on_board(i, j) implies is_king_of(#[trigger] a.board[i][j], color) == is_king_of(
        b.board[i][j],
        color,
    ) by {
        if (i, j) != (tr, tc) {
            assert(a.board[i][j] == b.board[i][j]);
        }
    }
    lemma_king_search_sides(a, b, color, 0, 0);
    let opp = opponent(color);
    assert forall|row: int, col: int, r: int, c: int| #[trigger] attacks_from(a, r, c, opp, row, col) == attacks_from(b, r, c, opp, row, col) by {
        if on_board(r, c) && (r, c) != (tr, tc) {
            assert(a.board[r][c] == b.board[r][c]);
            lemma_base_moves_sides(a, b, r, c);
        }
    }
    if let Some(k) = king_search(a, color, 0, 0) {
        if attacked(a, k.0 as int, k.1 as int, opp) {
            let (r, c) = choose|r: int, c: int| #[trigger] attacks_from(a, r, c, opp, k.0 as int, k.1 as int);
            assert(attacks_from(b, r, c, opp, k.0 as int, k.1 as int));
        }
        if attacked(b, k.0 as int, k.1 as int, opp) {
            let (r, c) = choose|r: int, c: int| #[trigger] attacks_from(b, r, c, opp, k.0 as int, k.1 as int);
            assert(attacks_from(a, r, c, opp, k.0 as int, k.1 as int));
        }
    }
}

/// A move that the rules accept never leaves the mover's own king in check,
/// whatever piece a pawn is promoted to.
pub proof fn accepted_moves_leave_king_safe(g: ChessGame, mv: MovePayload, player: PlayerColor)
    requires
        chess_move_error(g, mv, player) is None,
    ensures
        !in_check(
            apply_raw(
                g.position(),
                mv.from_row->0 as int,
                mv.from_col->0 as int,
                mv.to_row->0 as int,
                mv.to_col->0 as int,
                promotion_named(mv.promotion),
            ),
            g.current_turn,
        ),
{
    let pos = g.position();
    let fr = mv.from_row->0 as int;
    let fc = mv.from_col->0 as int;
    let tr = mv.to_row->0 as int;
    let tc = mv.to_col->0 as int;
    let t = (mv.to_row->0 as usize, mv.to_col->0 as usize);
    let p = pos.board[fr][fc]->0;
    let promo = promotion_named(mv.promotion);
    assert(p.color == g.current_turn);
    lemma_safe_targets_safe(pos, fr, fc, p.color, pseudo_moves(pos, fr, fc, true), t);
    let a = apply_raw(pos, fr, fc, tr, tc, promo);
    let b = apply_raw(pos, fr, fc, tr, tc, None);
    if moved_piece(p, tr, promo) == moved_piece(p, tr, None) || (tr == fr && tc == fc) {
        assert(a.board =~~= b.board);
        assert(a == b);
    } else {
        // The two boards differ only in the kind of the promoted piece.
        assert forall|i: int, j: int| on_board(i, j) && (i, j) != (tr, tc) implies #[trigger] a.board[i][j]
            == b.board[i][j] by {}
        assert forall|i: int, j: int| on_board(i, j) implies side_of(#[trigger] a.board[i][j]) == side_of(
            b.board[i][j],
        ) by {}
        assert(a.board[tr][tc] == Some(moved_piece(p, tr, promo)));
        assert(b.board[tr][tc] == Some(moved_piece(p, tr, None)));
        lemma_check_ignores_own_kind(a, b, p.color, tr, tc);
    }
}

/// Castling rights only go away, and go with the pieces they need: after an
/// accepted move no right is gained, a king that moves loses both of its
/// side's rights, and a rook that leaves its corner loses the right on that
/// corner's side.
pub proof fn castling_rights_follow_moves(g0: ChessGame, g1: ChessGame, mv: MovePayload, player: PlayerColor)
    requires
        chess_played(g0, g1, mv, player, Ok(())),
    ensures
        g1.castling.white_king_side ==> g0.castling.white_king_side,
        g1.castling.white_queen_side ==> g0.castling.white_queen_side,
        g1.castling.black_king_side ==> g0.castling.black_king_side,
        g1.castling.black_queen_side ==> g0.castling.black_queen_side,
        ({
            let p = g0.position().board[mv.from_row->0 as int][mv.from_col->0 as int];
            let from = (mv.from_row->0, mv.from_col->0);
            &&& p == Some(Piece { piece_type: PieceType::King, color: Color::White }) ==> !g1.castling.white_king_side
                && !g1.castling.white_queen_side
            &&& p == Some(Piece { piece_type: PieceType::King, color: Color::Black }) ==> !g1.castling.black_king_side
                && !g1.castling.black_queen_side
            &&& p == Some(Piece { piece_type: PieceType::Rook, color: Color::White }) && from == (0u64, 7u64)
                ==> !g1.castling.white_king_side
            &&& p == Some(Piece { piece_type: PieceType::Rook, color: Color::White }) && from == (0u64, 0u64)
                ==> !g1.castling.white_queen_side
            &&& p == Some(Piece { piece_type: PieceType::Rook, color: Color::Black }) && from == (7u64, 7u64)
                ==> !g1.castling.black_king_side
            &&& p == Some(Piece { piece_type: PieceType::Rook, color: Color::Black }) && from == (7u64, 0u64)
                ==> !g1.castling.black_queen_side
        }),
{
}
} // verus!
