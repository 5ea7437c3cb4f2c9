//! Types shared by all four games, and the comparison of text against the
//! fixed names that the protocol uses.

use vstd::prelude::*;
use vstd::string::*;
use self::checkers::{CheckersGame, checkers_ai_choice, checkers_played, start_cell};
use self::chess::{ChessGame, chess_ai_choice, chess_played, initial_cell};
use self::go::{GoGame, Stone, go_ai_choice, go_played};
use self::gomoku::{GomokuColor, GomokuGame, gomoku_ai_choice, gomoku_played};

pub mod checkers;
pub mod chess;
pub mod go;
pub mod gomoku;

verus! {

/// Whether two strings hold the same characters.
pub fn text_equals(s: &str, lit: &str) -> (b: bool)
    ensures
        b == (s@ == lit@),
{
    let n = s.unicode_len();
    let m = lit.unicode_len();
    if n != m {
        return false;
    }
    let mut i: usize = 0;
    while i < n
        invariant
            n == s@.len(),
            m == lit@.len(),
            n == m,
            i <= n,
            forall|j: int| 0 <= j < i ==> s@[j] == lit@[j],
        decreases n - i,
    {
        if s.get_char(i) != lit.get_char(i) {
            return false;
        }
        i = i + 1;
    }
    assert(s@ =~= lit@);
    true
}

/// What alpha-beta search with window (alpha, beta) may return for a node
/// whose true value is `v`: the value itself when it returns a number inside
/// the window, and otherwise a bound on the same side of the window.
pub open spec fn fail_soft(ret: int, alpha: int, beta: int, v: int) -> bool {
    &&& (ret <= alpha ==> v <= ret)
    &&& (alpha < ret < beta ==> v == ret)
    &&& (ret >= beta ==> v >= ret)
}

/// Folds `f` over the points of an `n` by `n` board that come before
/// `(r, c)` in row-major order, starting from `init`; `c` ranges over
/// `0..=n`.
pub open spec fn fold_cells<A>(n: int, r: int, c: int, init: A, f: spec_fn(A, int, int) -> A) -> A
    decreases r, c,
{
    if r < 0 || c < 0 || c > n {
        init
    } else if c == 0 {
        if r == 0 {
            init
        } else {
            fold_cells(n, r - 1, n, init, f)
        }
    } else {
        f(fold_cells(n, r, c - 1, init, f), r, c - 1)
    }
}

/// Two folds whose steps agree on the points of the board agree.
pub proof fn lemma_fold_cells_ext<A>(
    n: int,
    r: int,
    c: int,
    init: A,
    f: spec_fn(A, int, int) -> A,
    g: spec_fn(A, int, int) -> A,
)
    requires
        0 <= r <= n,
        0 <= c <= n,
        r < n || c == 0,
        forall|acc: A, i: int, j: int| 0 <= i < n && 0 <= j < n ==> #[trigger] f(acc, i, j) == g(acc, i, j),
    ensures
        fold_cells(n, r, c, init, f) == fold_cells(n, r, c, init, g),
    decreases r, c,
{
    if c == 0 {
        if r > 0 {
            lemma_fold_cells_ext(n, r - 1, n, init, f, g);
        }
    } else {
        lemma_fold_cells_ext(n, r, c - 1, init, f, g);
        assert(f(fold_cells(n, r, c - 1, init, f), r, c - 1) == g(fold_cells(n, r, c - 1, init, g), r, c - 1));
    }
}

/// A fold whose every step adds nothing or one counts at most the points
/// it has passed.
pub proof fn lemma_fold_cells_unit(n: int, r: int, c: int, f: spec_fn(int, int, int) -> int)
    requires
        0 <= r,
        0 <= c <= n,
        forall|acc: int, i: int, j: int| #[trigger] f(acc, i, j) == acc || f(acc, i, j) == acc + 1,
    ensures
        0 <= fold_cells(n, r, c, 0int, f) <= r * n + c,
    decreases r, c,
{
    if c == 0 {
        if r > 0 {
            lemma_fold_cells_unit(n, r - 1, n, f);
            assert((r - 1) * n + n == r * n) by (nonlinear_arith);
        }
    } else {
        lemma_fold_cells_unit(n, r, c - 1, f);
        let acc = fold_cells(n, r, c - 1, 0int, f);
        assert(f(acc, r, c - 1) == acc || f(acc, r, c - 1) == acc + 1);
    }
}

/// Where a candidate with score `k` goes in a list sorted by decreasing
/// score: after every candidate whose score is not smaller.
pub open spec fn desc_index(sorted: Seq<(i32, usize, usize)>, k: i32) -> int
    decreases sorted.len(),
{
    if sorted.len() == 0 {
        0
    } else if sorted[0].0 < k {
        0
    } else {
        1 + desc_index(sorted.drop_first(), k)
    }
}

/// The candidates by decreasing score, keeping their order among equal
/// scores.
pub open spec fn sort_desc(s: Seq<(i32, usize, usize)>) -> Seq<(i32, usize, usize)>
    decreases s.len(),
{
    if s.len() == 0 {
        s
    } else {
        let sorted = sort_desc(s.drop_last());
        sorted.insert(desc_index(sorted, s.last().0), s.last())
    }
}

/// The first `limit` entries.
pub open spec fn top(s: Seq<(i32, usize, usize)>, limit: int) -> Seq<(i32, usize, usize)> {
    if s.len() <= limit {
        s
    } else {
        s.subrange(0, limit)
    }
}

pub proof fn lemma_desc_index_bounded(sorted: Seq<(i32, usize, usize)>, k: i32)
    ensures
        0 <= desc_index(sorted, k) <= sorted.len(),
    decreases sorted.len(),
{
    if sorted.len() > 0 && sorted[0].0 >= k {
        lemma_desc_index_bounded(sorted.drop_first(), k);
    }
}

/// The index found by scanning from the front is `desc_index`.
pub proof fn lemma_desc_index_scan(sorted: Seq<(i32, usize, usize)>, k: i32, j: int)
    requires
        0 <= j <= sorted.len(),
        forall|t: int| 0 <= t < j ==> (#[trigger] sorted[t]).0 >= k,
        j == sorted.len() || sorted[j].0 < k,
    ensures
        desc_index(sorted, k) == j,
    decreases sorted.len(),
{
    if sorted.len() > 0 && j > 0 {
        assert(sorted[0].0 >= k);
        assert forall|t: int| 0 <= t < j - 1 implies (#[trigger] sorted.drop_first()[t]).0 >= k by {
            assert(sorted.drop_first()[t] == sorted[t + 1]);
        }
        if j < sorted.len() {
            assert(sorted.drop_first()[j - 1] == sorted[j]);
        }
        lemma_desc_index_scan(sorted.drop_first(), k, j - 1);
    }
}

/// Sorting keeps the candidates, and their number.
pub proof fn lemma_sort_desc_members(s: Seq<(i32, usize, usize)>, m: (i32, usize, usize))
    ensures
        sort_desc(s).len() == s.len(),
        sort_desc(s).contains(m) ==> s.contains(m),
    decreases s.len(),
{
    if s.len() > 0 {
        let sorted = sort_desc(s.drop_last());
        let idx = desc_index(sorted, s.last().0);
        lemma_sort_desc_members(s.drop_last(), m);
        lemma_desc_index_bounded(sorted, s.last().0);
        let res = sorted.insert(idx, s.last());
        if res.contains(m) {
            let k = choose|k: int| 0 <= k < res.len() && res[k] == m;
            if k < idx {
                assert(sorted[k] == m);
                assert(sorted.contains(m));
                let j = choose|j: int| 0 <= j < s.drop_last().len() && s.drop_last()[j] == m;
                assert(s[j] == m);
            } else if k == idx {
                assert(s[s.len() - 1] == m);
            } else {
                assert(sorted[k - 1] == m);
                assert(sorted.contains(m));
                let j = choose|j: int| 0 <= j < s.drop_last().len() && s.drop_last()[j] == m;
                assert(s[j] == m);
            }
        }
    }
}

/// The candidates by decreasing score, keeping their order among equal
/// scores.
pub fn sort_by_score(v: &Vec<(i32, usize, usize)>) -> (res: Vec<(i32, usize, usize)>)
    ensures
        res@ == sort_desc(v@),
{
    let mut sorted: Vec<(i32, usize, usize)> = Vec::new();
    let mut i: usize = 0;
    while i < v.len()
        invariant
            i <= v.len(),
            sorted@ == sort_desc(v@.take(i as int)),
        decreases v.len() - i,
    {
        let m = v[i];
        let mut j: usize = 0;
        while j < sorted.len() && sorted[j].0 >= m.0
            invariant
                j <= sorted.len(),
                forall|t: int| 0 <= t < j ==> (#[trigger] sorted@[t]).0 >= m.0,
            decreases sorted.len() - j,
        {
            j = j + 1;
        }
        proof {
            lemma_desc_index_scan(sorted@, m.0, j as int);
            assert(v@.take(i + 1).drop_last() =~= v@.take(i as int));
            assert(v@.take(i + 1).last() == m);
        }
        sorted.insert(j, m);
        i = i + 1;
    }
    assert(v@.take(v.len() as int) =~= v@);
    sorted
}

/// Strength of the computer opponent.
#[derive(Debug, Clone, Copy, PartialEq, Eq, Structural)]
pub enum AiDifficulty {
    Easy,
    Normal,
    Hard,
}

/// The difficulty that a protocol name stands for.
pub open spec fn difficulty_named(s: Seq<char>) -> Option<AiDifficulty> {
    if s == "easy"@ {
        Some(AiDifficulty::Easy)
    } else if s == "normal"@ {
        Some(AiDifficulty::Normal)
    } else if s == "hard"@ {
        Some(AiDifficulty::Hard)
    } else {
        None
    }
}

impl AiDifficulty {
    /// Reads a difficulty from its protocol name ("easy", "normal", "hard").
    pub fn from_str(s: &str) -> (r: Option<AiDifficulty>)
        ensures
            r == difficulty_named(s@),
    {
        if text_equals(s, "easy") {
            Some(AiDifficulty::Easy)
        } else if text_equals(s, "normal") {
            Some(AiDifficulty::Normal)
        } else if text_equals(s, "hard") {
            Some(AiDifficulty::Hard)
        } else {
            None
        }
    }

    /// The protocol name of the difficulty.
    pub fn name(&self) -> (r: &'static str)
        ensures
            difficulty_named(r@) == Some(*self),
    {
        proof {
            reveal_strlit("easy");
            reveal_strlit("normal");
            reveal_strlit("hard");
        }
        assert("normal"@ != "easy"@) by { assert("normal"@.len() != "easy"@.len()); }
        assert("hard"@ != "easy"@) by { assert("hard"@[0] != "easy"@[0]); }
        assert("hard"@ != "normal"@) by { assert("hard"@.len() != "normal"@.len()); }
        match self {
            AiDifficulty::Easy => "easy",
            AiDifficulty::Normal => "normal",
            AiDifficulty::Hard => "hard",
        }
    }
}

/// The side a player plays.
#[derive(Debug, Clone, Copy, PartialEq, Eq, Structural)]
pub enum PlayerColor {
    White,
    Black,
}

pub open spec fn other_player(c: PlayerColor) -> PlayerColor {
    match c {
        PlayerColor::White => PlayerColor::Black,
        PlayerColor::Black => PlayerColor::White,
    }
}

impl PlayerColor {
    /// The other side.
    pub fn opposite(&self) -> (r: PlayerColor)
        ensures
            r == other_player(*self),
            r != *self,
    {
        match self {
            PlayerColor::White => PlayerColor::Black,
            PlayerColor::Black => PlayerColor::White,
        }
    }
}

/// Where a game stands.
#[derive(Debug, Clone, Copy, PartialEq, Eq, Structural)]
pub enum GameStatus {
    Playing,
    WhiteWon,
    BlackWon,
    Draw,
}

/// The status in which the given side has won.
pub open spec fn won_by(c: PlayerColor) -> GameStatus {
    match c {
        PlayerColor::White => GameStatus::WhiteWon,
        PlayerColor::Black => GameStatus::BlackWon,
    }
}

/// The four games on offer.
#[derive(Debug, Clone, Copy, PartialEq, Eq, Structural)]
pub enum GameType {
    Chess,
    Checkers,
    Go,
    Gomoku,
}

/// The game that a protocol name stands for.
pub open spec fn game_type_named(s: Seq<char>) -> Option<GameType> {
    if s == "chess"@ {
        Some(GameType::Chess)
    } else if s == "checkers"@ {
        Some(GameType::Checkers)
    } else if s == "go"@ {
        Some(GameType::Go)
    } else if s == "gomoku"@ {
        Some(GameType::Gomoku)
    } else {
        None
    }
}

pub open spec fn game_type_display(t: GameType) -> Seq<char> {
    match t {
        GameType::Chess => "Chess"@,
        GameType::Checkers => "Checkers"@,
        GameType::Go => "Go"@,
        GameType::Gomoku => "Gomoku"@,
    }
}

impl GameType {
    /// Reads a game type from its protocol name ("chess", "checkers", "go", "gomoku").
    pub fn from_str(s: &str) -> (r: Option<GameType>)
        ensures
            r == game_type_named(s@),
    {
        if text_equals(s, "chess") {
            Some(GameType::Chess)
        } else if text_equals(s, "checkers") {
            Some(GameType::Checkers)
        } else if text_equals(s, "go") {
            Some(GameType::Go)
        } else if text_equals(s, "gomoku") {
            Some(GameType::Gomoku)
        } else {
            None
        }
    }

    /// The name shown to people.
    pub fn display_name(&self) -> (r: &'static str)
        ensures
            r@ == game_type_display(*self),
    {
        match self {
            GameType::Chess => "Chess",
            GameType::Checkers => "Checkers",
            GameType::Go => "Go",
            GameType::Gomoku => "Gomoku",
        }
    }

    /// The protocol name, the inverse of `from_str`.
    pub fn protocol_name(&self) -> (r: &'static str)
        ensures
            game_type_named(r@) == Some(*self),
    {
        proof {
            reveal_strlit("chess");
            reveal_strlit("checkers");
            reveal_strlit("go");
            reveal_strlit("gomoku");
        }
        assert("checkers"@ != "chess"@) by { assert("checkers"@.len() != "chess"@.len()); }
        assert("go"@ != "chess"@) by { assert("go"@.len() != "chess"@.len()); }
        assert("go"@ != "checkers"@) by { assert("go"@.len() != "checkers"@.len()); }
        assert("gomoku"@ != "chess"@) by { assert("gomoku"@[0] != "chess"@[0]); }
        assert("gomoku"@ != "checkers"@) by { assert("gomoku"@.len() != "checkers"@.len()); }
        assert("gomoku"@ != "go"@) by { assert("gomoku"@.len() != "go"@.len()); }
        match self {
            GameType::Chess => "chess",
            GameType::Checkers => "checkers",
            GameType::Go => "go",
            GameType::Gomoku => "gomoku",
        }
    }
}

/// A move as a client sends it, holding each field that one of the games
/// reads; a field that the message lacks, or that has the wrong kind of
/// value, is `None`.
pub struct MovePayload {
    pub from_row: Option<u64>,
    pub from_col: Option<u64>,
    pub to_row: Option<u64>,
    pub to_col: Option<u64>,
    pub row: Option<u64>,
    pub col: Option<u64>,
    pub pass: Option<bool>,
    pub promotion: Option<String>,
}

/// Why a move was refused.
#[derive(Debug, Clone, Copy, PartialEq, Eq, Structural)]
pub enum MoveError {
    GameOver,
    NotYourTurn,
    InvalidFromRow,
    InvalidFromCol,
    InvalidToRow,
    InvalidToCol,
    InvalidRow,
    InvalidCol,
    OutOfBounds,
    NoPieceAtSource,
    NotYourPiece,
    IllegalMove,
    MustContinueJump,
    MustJump,
    IllegalJump,
    Occupied,
    Ko,
    Suicide,
}

/// The text sent to a player whose move is refused.
pub open spec fn error_text(e: MoveError) -> Seq<char> {
    match e {
        MoveError::GameOver => "Game is over"@,
        MoveError::NotYourTurn => "Not your turn"@,
        MoveError::InvalidFromRow => "invalid from row"@,
        MoveError::InvalidFromCol => "invalid from col"@,
        MoveError::InvalidToRow => "invalid to row"@,
        MoveError::InvalidToCol => "invalid to col"@,
        MoveError::InvalidRow => "invalid row"@,
        MoveError::InvalidCol => "invalid col"@,
        MoveError::OutOfBounds => "Coordinates out of bounds"@,
        MoveError::NoPieceAtSource => "No piece at source"@,
        MoveError::NotYourPiece => "That piece doesn't belong to you"@,
        MoveError::IllegalMove => "Illegal move"@,
        MoveError::MustContinueJump => "You must continue jumping with the same piece"@,
        MoveError::MustJump => "You must make a jump move"@,
        MoveError::IllegalJump => "Illegal jump"@,
        MoveError::Occupied => "Intersection already occupied"@,
        MoveError::Ko => "Illegal move (Ko)"@,
        MoveError::Suicide => "Suicide move is illegal"@,
    }
}

impl MoveError {
    /// The text sent to the player.
    pub fn message(&self) -> (r: &'static str)
        ensures
            r@ == error_text(*self),
    {
        match self {
            MoveError::GameOver => "Game is over",
            MoveError::NotYourTurn => "Not your turn",
            MoveError::InvalidFromRow => "invalid from row",
            MoveError::InvalidFromCol => "invalid from col",
            MoveError::InvalidToRow => "invalid to row",
            MoveError::InvalidToCol => "invalid to col",
            MoveError::InvalidRow => "invalid row",
            MoveError::InvalidCol => "invalid col",
            MoveError::OutOfBounds => "Coordinates out of bounds",
            MoveError::NoPieceAtSource => "No piece at source",
            MoveError::NotYourPiece => "That piece doesn't belong to you",
            MoveError::IllegalMove => "Illegal move",
            MoveError::MustContinueJump => "You must continue jumping with the same piece",
            MoveError::MustJump => "You must make a jump move",
            MoveError::IllegalJump => "Illegal jump",
            MoveError::Occupied => "Intersection already occupied",
            MoveError::Ko => "Illegal move (Ko)",
            MoveError::Suicide => "Suicide move is illegal",
        }
    }
}


/// One game of any of the four kinds.
#[derive(Clone)]
pub enum Game {
    Chess(ChessGame),
    Checkers(CheckersGame),
    Go(GoGame),
    Gomoku(GomokuGame),
}

impl Game {
    /// The consistency of the game's state, which every move keeps.
    pub open spec fn wf(&self) -> bool {
        match self {
            Game::Chess(g) => g.wf(),
            Game::Checkers(_) => true,
            Game::Go(g) => g.wf(),
            Game::Gomoku(g) => g.wf(),
        }
    }

    /// The game's counters have room for one more move.
    pub open spec fn can_move(&self) -> bool {
        match self {
            Game::Chess(g) => g.full_move_number < u32::MAX,
            Game::Checkers(_) => true,
            Game::Go(g) => g.move_count < u32::MAX && g.consecutive_passes < u32::MAX && g.captures_black
                <= 4_000_000_000 && g.captures_white <= 4_000_000_000,
            Game::Gomoku(g) => g.move_count < u32::MAX,
        }
    }

    /// The computer player can be asked for a move: a checkers game must be
    /// in progress, and a gomoku board at most 73 points wide (so that its
    /// evaluation fits in an `i32`) with room in the move counter.
    pub open spec fn ai_can_move(&self) -> bool {
        match self {
            Game::Chess(_) => true,
            Game::Checkers(g) => g.status == GameStatus::Playing,
            Game::Go(_) => true,
            Game::Gomoku(g) => g.size <= 73 && g.move_count + 4 <= u32::MAX,
        }
    }

    pub open spec fn kind(&self) -> GameType {
        match self {
            Game::Chess(_) => GameType::Chess,
            Game::Checkers(_) => GameType::Checkers,
            Game::Go(_) => GameType::Go,
            Game::Gomoku(_) => GameType::Gomoku,
        }
    }

    pub open spec fn state_status(&self) -> GameStatus {
        match self {
            Game::Chess(g) => g.status,
            Game::Checkers(g) => g.status,
            Game::Go(g) => g.status,
            Game::Gomoku(g) => g.status,
        }
    }

    pub open spec fn to_move(&self) -> PlayerColor {
        match self {
            Game::Chess(g) => chess::player_of(g.current_turn),
            Game::Checkers(g) => checkers::side_player(g.current_turn),
            Game::Go(g) => go::stone_player(g.current_turn),
            Game::Gomoku(g) => gomoku::color_player(g.current_turn),
        }
    }

    /// Whether the counters have room for one more move.
    pub fn within_limits(&self) -> (b: bool)
        ensures
            b == self.can_move(),
    {
        match self {
            Game::Chess(g) => g.full_move_number < u32::MAX,
            Game::Checkers(_) => true,
            Game::Go(g) => g.move_count < u32::MAX && g.consecutive_passes < u32::MAX && g.captures_black
                <= 4_000_000_000 && g.captures_white <= 4_000_000_000,
            Game::Gomoku(g) => g.move_count < u32::MAX,
        }
    }

    /// Whether the computer player can be asked for a move.
    pub fn ai_ready(&self) -> (b: bool)
        ensures
            b == self.ai_can_move(),
    {
        match self {
            Game::Chess(_) => true,
            Game::Checkers(g) => g.status == GameStatus::Playing,
            Game::Go(_) => true,
            Game::Gomoku(g) => g.size <= 73 && g.move_count <= u32::MAX - 4,
        }
    }

    /// Which game this is.
    pub fn game_type(&self) -> (t: GameType)
        ensures
            t == self.kind(),
    {
        match self {
            Game::Chess(_) => GameType::Chess,
            Game::Checkers(_) => GameType::Checkers,
            Game::Go(_) => GameType::Go,
            Game::Gomoku(_) => GameType::Gomoku,
        }
    }

    /// Where the game stands.
    pub fn status(&self) -> (s: GameStatus)
        ensures
            s == self.state_status(),
    {
        match self {
            Game::Chess(g) => g.status(),
            Game::Checkers(g) => g.status(),
            Game::Go(g) => g.status(),
            Game::Gomoku(g) => g.status(),
        }
    }

    /// The side to move.
    pub fn current_player(&self) -> (p: PlayerColor)
        ensures
            p == self.to_move(),
    {
        match self {
            Game::Chess(g) => g.current_player(),
            Game::Checkers(g) => g.current_player(),
            Game::Go(g) => g.current_player(),
            Game::Gomoku(g) => g.current_player(),
        }
    }

    /// Plays a move for `player` by the rules of the game, or says why it
    /// is refused.
    pub fn make_move(&mut self, mv: &MovePayload, player: &PlayerColor) -> (r: Result<(), MoveError>)
        requires
            old(self).wf(),
            old(self).can_move(),
        ensures
            final(self).wf(),
            game_played(*old(self), *final(self), *mv, *player, r),
    {
        match self {
            Game::Chess(g) => g.make_move(mv, player),
            Game::Checkers(g) => g.make_move(mv, player),
            Game::Go(g) => g.make_move(mv, player),
            Game::Gomoku(g) => g.make_move(mv, player),
        }
    }

    /// The computer's move for the side to play.
    pub fn get_ai_move(&self, difficulty: AiDifficulty) -> (r: Option<MovePayload>)
        requires
            self.wf(),
            self.ai_can_move(),
        ensures
            game_ai_choice(*self, difficulty, r),
    {
        match self {
            Game::Chess(g) => g.get_ai_move(difficulty),
            Game::Checkers(g) => g.get_ai_move(difficulty),
            Game::Go(g) => g.get_ai_move(difficulty),
            Game::Gomoku(g) => g.get_ai_move(difficulty),
        }
    }
}

/// What `Game::get_ai_move` answers for `g` at `difficulty`, by the
/// computer player of its game.
pub open spec fn game_ai_choice(g: Game, difficulty: AiDifficulty, r: Option<MovePayload>) -> bool {
    match g {
        Game::Chess(c) => chess_ai_choice(c, difficulty, r),
        Game::Checkers(c) => checkers_ai_choice(c, difficulty, r),
        Game::Go(c) => go_ai_choice(c, difficulty, r),
        Game::Gomoku(c) => gomoku_ai_choice(c, difficulty, r),
    }
}

/// What a call of `Game::make_move` on `g0` does, by the rules of its
/// game: `g1` is the game after it and `r` its result.
pub open spec fn game_played(g0: Game, g1: Game, mv: MovePayload, player: PlayerColor, r: Result<(), MoveError>) -> bool {
    match (g0, g1) {
        (Game::Chess(a), Game::Chess(b)) => chess_played(a, b, mv, player, r),
        (Game::Checkers(a), Game::Checkers(b)) => checkers_played(a, b, mv, player, r),
        (Game::Go(a), Game::Go(b)) => go_played(a, b, mv, player, r),
        (Game::Gomoku(a), Game::Gomoku(b)) => gomoku_played(a, b, mv, player, r),
        _ => false,
    }
}

/// Each side's opponent is the other side, and the opponent's opponent is
/// the side itself.
pub proof fn opposite_is_an_involution(c: PlayerColor)
    ensures
        other_player(c) != c,
        other_player(other_player(c)) == c,
{
}

/// A move that a game refuses leaves the game exactly as it was.
pub proof fn refused_move_keeps_game(g0: Game, g1: Game, mv: MovePayload, player: PlayerColor, e: MoveError)
    requires
        game_played(g0, g1, mv, player, Err(e)),
    ensures
        g1 == g0,
{
}

/// A game that is over refuses every move, and says so.
pub proof fn finished_game_refuses_moves(g0: Game, g1: Game, mv: MovePayload, player: PlayerColor, r: Result<(), MoveError>)
    requires
        game_played(g0, g1, mv, player, r),
        g0.state_status() != GameStatus::Playing,
    ensures
        r == Err::<(), MoveError>(MoveError::GameOver),
        g1 == g0,
{
}

/// A move for the side that is not to move is refused.
pub proof fn moves_out_of_turn_are_refused(g0: Game, g1: Game, mv: MovePayload, player: PlayerColor, r: Result<(), MoveError>)
    requires
        game_played(g0, g1, mv, player, r),
        g0.state_status() == GameStatus::Playing,
        g0.to_move() != player,
    ensures
        r == Err::<(), MoveError>(MoveError::NotYourTurn),
        g1 == g0,
{
}

/// A new game of the given kind: chess and checkers in their starting
/// positions, go on a 19 by 19 board and gomoku on a 15 by 15 board, both
/// empty with Black to move.
pub fn create_game(game_type: &GameType) -> (g: Game)
    ensures
        g.wf(),
        g.can_move(),
        g.kind() == *game_type,
        g.state_status() == GameStatus::Playing,
        g matches Game::Chess(c) ==> {
            &&& c.current_turn == chess::Color::White
            &&& forall|r: int, col: int| 0 <= r < 8 && 0 <= col < 8 ==> #[trigger] c.board[r][col] == initial_cell(r, col)
            &&& c.castling.white_king_side && c.castling.white_queen_side
            &&& c.castling.black_king_side && c.castling.black_queen_side
            &&& c.en_passant is None
            &&& c.half_move_clock == 0
            &&& c.full_move_number == 1
            &&& c.last_move is None
        },
        g matches Game::Checkers(c) ==> {
            &&& c.current_turn == checkers::CheckersColor::White
            &&& forall|r: int, col: int| 0 <= r < 8 && 0 <= col < 8 ==> #[trigger] c.board[r][col] == start_cell(r, col)
            &&& c.must_continue_from is None
        },
        g matches Game::Go(x) ==> {
            &&& x.size == 19
            &&& forall|r: int, col: int| 0 <= r < 19 && 0 <= col < 19 ==> (#[trigger] x.state().board[r][col]) is None
            &&& x.current_turn == Stone::Black
            &&& x.captures_black == 0 && x.captures_white == 0
            &&& x.ko_point is None
            &&& x.consecutive_passes == 0
            &&& x.move_count == 0
            &&& x.black_area == 0 && x.white_area == 0
            &&& x.previous_board is None
        },
        g matches Game::Gomoku(x) ==> {
            &&& x.size == 15
            &&& forall|r: int, col: int| 0 <= r < 15 && 0 <= col < 15 ==> (#[trigger] x.state().board[r][col]) is None
            &&& x.current_turn == GomokuColor::Black
            &&& x.move_count == 0
            &&& x.last_move is None
        },
{
    match game_type {
        GameType::Chess => Game::Chess(ChessGame::new()),
        GameType::Checkers => Game::Checkers(CheckersGame::new()),
        GameType::Go => Game::Go(GoGame::new(19)),
        GameType::Gomoku => Game::Gomoku(GomokuGame::new(15)),
    }
}

/// Alpha-beta search never changes the value it is asked for inside its
/// window: a search whose result `ret` is fail-soft for the true value `v`
/// returns `v` itself when `v` lies strictly inside (alpha, beta), a number
/// between `v` and alpha when `v` is at most alpha, and one between beta and
/// `v` when `v` is at least beta.
pub proof fn search_keeps_value_in_window(ret: int, alpha: int, beta: int, v: int)
    requires
        alpha < beta,
        fail_soft(ret, alpha, beta, v),
    ensures
        alpha < v < beta ==> ret == v,
        v <= alpha ==> v <= ret <= alpha,
        v >= beta ==> beta <= ret <= v,
{
}

} // verus!
