use board_games::games::checkers::{CheckersColor, CheckersGame, CheckersPiece, CheckersPieceType};
use board_games::games::chess::{ChessGame, Color, Piece, PieceType};
use board_games::games::go::{GoGame, Stone};
use board_games::games::gomoku::{GomokuColor, GomokuGame};
use board_games::games::{
    create_game, AiDifficulty, Game, GameStatus, GameType, MoveError, MovePayload, PlayerColor,
};

fn from_to(fr: u64, fc: u64, tr: u64, tc: u64) -> MovePayload {
    MovePayload {
        from_row: Some(fr),
        from_col: Some(fc),
        to_row: Some(tr),
        to_col: Some(tc),
        row: None,
        col: None,
        pass: None,
        promotion: None,
    }
}

fn at(r: u64, c: u64) -> MovePayload {
    MovePayload {
        from_row: None,
        from_col: None,
        to_row: None,
        to_col: None,
        row: Some(r),
        col: Some(c),
        pass: None,
        promotion: None,
    }
}

fn pass() -> MovePayload {
    MovePayload {
        from_row: None,
        from_col: None,
        to_row: None,
        to_col: None,
        row: None,
        col: None,
        pass: Some(true),
        promotion: None,
    }
}

#[test]
fn difficulty_names_parse() {
    assert_eq!(AiDifficulty::from_str("easy"), Some(AiDifficulty::Easy));
    assert_eq!(AiDifficulty::from_str("normal"), Some(AiDifficulty::Normal));
    assert_eq!(AiDifficulty::from_str("hard"), Some(AiDifficulty::Hard));
    assert_eq!(AiDifficulty::from_str("Hard"), None);
    assert_eq!(AiDifficulty::from_str(""), None);
    assert_eq!(AiDifficulty::Hard.name(), "hard");
    assert_eq!(AiDifficulty::from_str(AiDifficulty::Easy.name()), Some(AiDifficulty::Easy));
}

#[test]
fn game_type_names_parse() {
    assert_eq!(GameType::from_str("chess"), Some(GameType::Chess));
    assert_eq!(GameType::from_str("checkers"), Some(GameType::Checkers));
    assert_eq!(GameType::from_str("go"), Some(GameType::Go));
    assert_eq!(GameType::from_str("gomoku"), Some(GameType::Gomoku));
    assert_eq!(GameType::from_str("poker"), None);
    assert_eq!(GameType::from_str("Chess"), None);
    assert_eq!(GameType::Gomoku.display_name(), "Gomoku");
    assert_eq!(GameType::Chess.display_name(), "Chess");
    for t in [GameType::Chess, GameType::Checkers, GameType::Go, GameType::Gomoku] {
        assert_eq!(GameType::from_str(t.protocol_name()), Some(t));
    }
}

#[test]
fn opposite_flips_and_returns() {
    assert_eq!(PlayerColor::White.opposite(), PlayerColor::Black);
    assert_eq!(PlayerColor::Black.opposite(), PlayerColor::White);
    assert_eq!(PlayerColor::White.opposite().opposite(), PlayerColor::White);
}

#[test]
fn error_messages_read_as_sent() {
    assert_eq!(MoveError::GameOver.message(), "Game is over");
    assert_eq!(MoveError::NotYourTurn.message(), "Not your turn");
    assert_eq!(MoveError::Occupied.message(), "Intersection already occupied");
    assert_eq!(MoveError::Ko.message(), "Illegal move (Ko)");
    assert_eq!(MoveError::Suicide.message(), "Suicide move is illegal");
    assert_eq!(MoveError::MustJump.message(), "You must make a jump move");
    assert_eq!(MoveError::OutOfBounds.message(), "Coordinates out of bounds");
    assert_eq!(MoveError::InvalidRow.message(), "invalid row");
}

#[test]
fn created_games_start_right() {
    let chess = create_game(&GameType::Chess);
    assert_eq!(chess.game_type(), GameType::Chess);
    assert_eq!(chess.status(), GameStatus::Playing);
    assert_eq!(chess.current_player(), PlayerColor::White);
    let checkers = create_game(&GameType::Checkers);
    assert_eq!(checkers.game_type(), GameType::Checkers);
    assert_eq!(checkers.current_player(), PlayerColor::White);
    let go = create_game(&GameType::Go);
    assert_eq!(go.current_player(), PlayerColor::Black);
    match &go {
        Game::Go(g) => assert_eq!(g.size, 19),
        _ => panic!("not go"),
    }
    let gomoku = create_game(&GameType::Gomoku);
    assert_eq!(gomoku.current_player(), PlayerColor::Black);
    match &gomoku {
        Game::Gomoku(g) => assert_eq!(g.size, 15),
        _ => panic!("not gomoku"),
    }
    assert!(gomoku.within_limits());
    assert!(gomoku.ai_ready());
}

#[test]
fn game_refuses_move_out_of_turn() {
    let mut g = create_game(&GameType::Gomoku);
    assert_eq!(g.make_move(&at(7, 7), &PlayerColor::White), Err(MoveError::NotYourTurn));
    assert_eq!(g.make_move(&at(7, 7), &PlayerColor::Black), Ok(()));
    assert_eq!(g.current_player(), PlayerColor::White);
}

#[test]
fn chess_starting_position() {
    let g = ChessGame::new();
    assert_eq!(g.board[0][4], Some(Piece { piece_type: PieceType::King, color: Color::White }));
    assert_eq!(g.board[7][3], Some(Piece { piece_type: PieceType::Queen, color: Color::Black }));
    assert_eq!(g.board[1][0], Some(Piece { piece_type: PieceType::Pawn, color: Color::White }));
    assert_eq!(g.board[4][4], None);
    assert_eq!(g.piece_at(0, 4), Some(Piece { piece_type: PieceType::King, color: Color::White }));
    assert_eq!(g.piece_at(3, 3), None);
    assert_eq!(g.current_player(), PlayerColor::White);
    assert!(!g.in_check_now());
    let map = g.legal_moves_map();
    let total: usize = map.iter().map(|(_, to)| to.len()).sum();
    assert_eq!(total, 20);
}

#[test]
fn chess_pawn_double_step() {
    let mut g = ChessGame::new();
    assert_eq!(g.make_move(&from_to(1, 4, 3, 4), &PlayerColor::White), Ok(()));
    assert_eq!(g.board[3][4], Some(Piece { piece_type: PieceType::Pawn, color: Color::White }));
    assert_eq!(g.board[1][4], None);
    assert_eq!(g.current_player(), PlayerColor::Black);
    assert_eq!(g.en_passant, Some((2, 4)));
}

#[test]
fn chess_refusals() {
    let mut g = ChessGame::new();
    assert_eq!(g.make_move(&from_to(6, 4, 4, 4), &PlayerColor::White), Err(MoveError::NotYourPiece));
    assert_eq!(g.make_move(&from_to(1, 4, 4, 4), &PlayerColor::White), Err(MoveError::IllegalMove));
    assert_eq!(g.make_move(&from_to(3, 4, 4, 4), &PlayerColor::White), Err(MoveError::NoPieceAtSource));
    assert_eq!(g.make_move(&from_to(1, 4, 3, 4), &PlayerColor::Black), Err(MoveError::NotYourTurn));
    assert_eq!(g.make_move(&from_to(1, 4, 3, 9), &PlayerColor::White), Err(MoveError::OutOfBounds));
    let mut missing = from_to(1, 4, 3, 4);
    missing.to_col = None;
    assert_eq!(g.make_move(&missing, &PlayerColor::White), Err(MoveError::InvalidToCol));
    assert_eq!(g.current_player(), PlayerColor::White);
    assert_eq!(g.board[1][4], Some(Piece { piece_type: PieceType::Pawn, color: Color::White }));
}

#[test]
fn chess_fools_mate() {
    let mut g = ChessGame::new();
    assert_eq!(g.make_move(&from_to(1, 5, 2, 5), &PlayerColor::White), Ok(()));
    assert_eq!(g.make_move(&from_to(6, 4, 4, 4), &PlayerColor::Black), Ok(()));
    assert_eq!(g.make_move(&from_to(1, 6, 3, 6), &PlayerColor::White), Ok(()));
    assert_eq!(g.make_move(&from_to(7, 3, 3, 7), &PlayerColor::Black), Ok(()));
    assert_eq!(g.status(), GameStatus::BlackWon);
    assert!(g.in_check_now());
    assert_eq!(g.make_move(&from_to(1, 0, 2, 0), &PlayerColor::White), Err(MoveError::GameOver));
}

#[test]
fn chess_computer_moves_are_legal() {
    for d in [AiDifficulty::Easy, AiDifficulty::Normal] {
        let g = ChessGame::new();
        let mv = g.get_ai_move(d).expect("a move");
        let mut h = ChessGame::new();
        assert_eq!(h.make_move(&mv, &PlayerColor::White), Ok(()));
    }
}

#[test]
fn chess_search_answers_after_opening() {
    let mut g = ChessGame::new();
    assert_eq!(g.make_move(&from_to(1, 4, 3, 4), &PlayerColor::White), Ok(()));
    assert_eq!(g.make_move(&from_to(6, 3, 4, 3), &PlayerColor::Black), Ok(()));
    assert_eq!(g.make_move(&from_to(0, 3, 4, 7), &PlayerColor::White), Ok(()));
    assert_eq!(g.make_move(&from_to(7, 3, 5, 3), &PlayerColor::Black), Ok(()));
    let mv = g.get_ai_move(AiDifficulty::Normal).expect("a move");
    let mut h = g;
    assert_eq!(h.make_move(&mv, &PlayerColor::White), Ok(()));
}

#[test]
fn checkers_starting_position() {
    let g = CheckersGame::new();
    assert_eq!(g.board[0][1], Some(CheckersPiece { piece_type: CheckersPieceType::Man, color: CheckersColor::White }));
    assert_eq!(g.board[0][0], None);
    assert_eq!(g.board[5][0], Some(CheckersPiece { piece_type: CheckersPieceType::Man, color: CheckersColor::Black }));
    assert_eq!(g.current_player(), PlayerColor::White);
    let vm = g.valid_moves();
    assert!(!vm.is_empty());
    assert!(vm.iter().all(|m| !m.must_jump));
}

#[test]
fn checkers_step_and_forced_capture() {
    let mut g = CheckersGame::new();
    assert_eq!(g.make_move(&from_to(2, 1, 3, 2), &PlayerColor::White), Ok(()));
    assert_eq!(g.current_player(), PlayerColor::Black);
    assert_eq!(g.make_move(&from_to(5, 4, 4, 3), &PlayerColor::Black), Ok(()));
    // White must now jump 3,2 over 4,3 to 5,4.
    assert_eq!(g.make_move(&from_to(2, 3, 3, 4), &PlayerColor::White), Err(MoveError::MustJump));
    assert_eq!(g.make_move(&from_to(3, 2, 5, 4), &PlayerColor::White), Ok(()));
    assert_eq!(g.board[4][3], None);
    assert_eq!(g.board[5][4], Some(CheckersPiece { piece_type: CheckersPieceType::Man, color: CheckersColor::White }));
    assert_eq!(g.make_move(&from_to(2, 1, 3, 2), &PlayerColor::White), Err(MoveError::NotYourTurn));
}

#[test]
fn checkers_refusals() {
    let mut g = CheckersGame::new();
    assert_eq!(g.make_move(&from_to(3, 0, 4, 1), &PlayerColor::White), Err(MoveError::NoPieceAtSource));
    assert_eq!(g.make_move(&from_to(5, 0, 4, 1), &PlayerColor::White), Err(MoveError::NotYourPiece));
    assert_eq!(g.make_move(&from_to(2, 1, 4, 3), &PlayerColor::White), Err(MoveError::IllegalJump));
    assert_eq!(g.make_move(&from_to(2, 1, 2, 2), &PlayerColor::White), Err(MoveError::IllegalMove));
    assert_eq!(g.make_move(&from_to(8, 1, 2, 2), &PlayerColor::White), Err(MoveError::OutOfBounds));
    let mut m = from_to(2, 1, 3, 2);
    m.from_row = None;
    assert_eq!(g.make_move(&m, &PlayerColor::White), Err(MoveError::InvalidFromRow));
}

#[test]
fn checkers_computer_moves_are_legal() {
    for d in [AiDifficulty::Easy, AiDifficulty::Normal] {
        let g = CheckersGame::new();
        let mv = g.get_ai_move(d).expect("a move");
        let mut h = CheckersGame::new();
        assert_eq!(h.make_move(&mv, &PlayerColor::White), Ok(()));
    }
}

#[test]
fn gomoku_five_in_a_row_wins() {
    let mut g = GomokuGame::new(15);
    for i in 0..4u64 {
        assert_eq!(g.make_move(&at(7, i), &PlayerColor::Black), Ok(()));
        assert_eq!(g.make_move(&at(8, i), &PlayerColor::White), Ok(()));
    }
    assert_eq!(g.status(), GameStatus::Playing);
    assert_eq!(g.make_move(&at(7, 4), &PlayerColor::Black), Ok(()));
    assert_eq!(g.status(), GameStatus::BlackWon);
    assert_eq!(g.move_count, 9);
    assert_eq!(g.last_move, Some((7, 4)));
    assert_eq!(g.make_move(&at(0, 0), &PlayerColor::White), Err(MoveError::GameOver));
}

#[test]
fn gomoku_diagonal_win() {
    let mut g = GomokuGame::new(15);
    for i in 0..4u64 {
        assert_eq!(g.make_move(&at(i, i), &PlayerColor::Black), Ok(()));
        assert_eq!(g.make_move(&at(i, 14), &PlayerColor::White), Ok(()));
    }
    assert_eq!(g.make_move(&at(4, 4), &PlayerColor::Black), Ok(()));
    assert_eq!(g.status(), GameStatus::BlackWon);
}

#[test]
fn gomoku_refusals() {
    let mut g = GomokuGame::new(15);
    assert_eq!(g.make_move(&at(7, 7), &PlayerColor::Black), Ok(()));
    assert_eq!(g.make_move(&at(7, 7), &PlayerColor::White), Err(MoveError::Occupied));
    assert_eq!(g.make_move(&at(15, 0), &PlayerColor::White), Err(MoveError::OutOfBounds));
    let mut no_row = at(1, 1);
    no_row.row = None;
    assert_eq!(g.make_move(&no_row, &PlayerColor::White), Err(MoveError::InvalidRow));
    let mut no_col = at(1, 1);
    no_col.col = None;
    assert_eq!(g.make_move(&no_col, &PlayerColor::White), Err(MoveError::InvalidCol));
    assert_eq!(g.move_count, 1);
    assert_eq!(g.current_turn, GomokuColor::White);
}

#[test]
fn gomoku_full_board_draws() {
    let mut g = GomokuGame::new(2);
    assert_eq!(g.make_move(&at(0, 0), &PlayerColor::Black), Ok(()));
    assert_eq!(g.make_move(&at(0, 1), &PlayerColor::White), Ok(()));
    assert_eq!(g.make_move(&at(1, 0), &PlayerColor::Black), Ok(()));
    assert_eq!(g.make_move(&at(1, 1), &PlayerColor::White), Ok(()));
    assert_eq!(g.status(), GameStatus::Draw);
}

#[test]
fn gomoku_computer_opens_in_centre() {
    let g = GomokuGame::new(15);
    let normal = g.get_ai_move(AiDifficulty::Normal).expect("a move");
    assert_eq!((normal.row, normal.col), (Some(7), Some(7)));
    let hard = g.get_ai_move(AiDifficulty::Hard).expect("a move");
    assert_eq!((hard.row, hard.col), (Some(7), Some(7)));
    let easy = g.get_ai_move(AiDifficulty::Easy).expect("a move");
    // (0 * 7919 + 13) % 225 = 13: the 14th empty point, row 0 col 13.
    assert_eq!((easy.row, easy.col), (Some(0), Some(13)));
}

#[test]
fn gomoku_computer_completes_five() {
    let mut g = GomokuGame::new(15);
    for i in 0..4u64 {
        assert_eq!(g.make_move(&at(7, 3 + i), &PlayerColor::Black), Ok(()));
        if i < 3 {
            assert_eq!(g.make_move(&at(0, 2 * i), &PlayerColor::White), Ok(()));
        }
    }
    assert_eq!(g.make_move(&at(7, 2), &PlayerColor::White), Ok(()));
    // Black has 7,3..7,6 with 7,2 blocked: the searching player plays 7,7.
    let mv = g.get_ai_move(AiDifficulty::Hard).expect("a move");
    assert_eq!((mv.row, mv.col), (Some(7), Some(7)));
    let mut h = g;
    assert_eq!(h.make_move(&mv, &PlayerColor::Black), Ok(()));
    assert_eq!(h.status(), GameStatus::BlackWon);
}

#[test]
fn gomoku_heuristic_blocks_four() {
    let mut g = GomokuGame::new(15);
    assert_eq!(g.make_move(&at(0, 0), &PlayerColor::Black), Ok(()));
    for i in 0..4u64 {
        assert_eq!(g.make_move(&at(5, 5 + i), &PlayerColor::White), Ok(()));
        if i < 3 {
            assert_eq!(g.make_move(&at(14, 2 * i + 4), &PlayerColor::Black), Ok(()));
        }
    }
    assert_eq!(g.make_move(&at(5, 4), &PlayerColor::Black), Ok(()));
    assert_eq!(g.make_move(&at(13, 13), &PlayerColor::White), Ok(()));
    // White has 5,5..5,8 blocked at 5,4: Black must block at 5,9.
    let mv = g.get_ai_move(AiDifficulty::Normal).expect("a move");
    assert_eq!((mv.row, mv.col), (Some(5), Some(9)));
}

#[test]
fn go_single_stone_capture_and_ko() {
    let mut g = GoGame::new(5);
    // Black surrounds (1,1) on three sides; White plays there and Black takes it.
    assert_eq!(g.make_move(&at(0, 1), &PlayerColor::Black), Ok(()));
    assert_eq!(g.make_move(&at(1, 1), &PlayerColor::White), Ok(()));
    assert_eq!(g.make_move(&at(1, 0), &PlayerColor::Black), Ok(()));
    assert_eq!(g.make_move(&at(0, 2), &PlayerColor::White), Ok(()));
    assert_eq!(g.make_move(&at(2, 1), &PlayerColor::Black), Ok(()));
    assert_eq!(g.make_move(&at(1, 3), &PlayerColor::White), Ok(()));
    assert_eq!(g.make_move(&at(4, 4), &PlayerColor::Black), Ok(()));
    assert_eq!(g.make_move(&at(2, 2), &PlayerColor::White), Ok(()));
    // Black takes the white stone at 1,1 by playing 1,2.
    assert_eq!(g.make_move(&at(1, 2), &PlayerColor::Black), Ok(()));
    assert_eq!(g.board[1][1], None);
    assert_eq!(g.captures_black, 1);
    assert_eq!(g.ko_point, Some((1, 1)));
    // White may not retake at once.
    assert_eq!(g.make_move(&at(1, 1), &PlayerColor::White), Err(MoveError::Ko));
    assert_eq!(g.current_player(), PlayerColor::White);
}

#[test]
fn go_suicide_is_refused() {
    let mut g = GoGame::new(5);
    assert_eq!(g.make_move(&at(0, 1), &PlayerColor::Black), Ok(()));
    assert_eq!(g.make_move(&at(4, 4), &PlayerColor::White), Ok(()));
    assert_eq!(g.make_move(&at(1, 0), &PlayerColor::Black), Ok(()));
    assert_eq!(g.make_move(&at(0, 0), &PlayerColor::White), Err(MoveError::Suicide));
    assert_eq!(g.board[0][0], None);
    assert_eq!(g.current_player(), PlayerColor::White);
    assert_eq!(g.make_move(&at(0, 1), &PlayerColor::White), Err(MoveError::Occupied));
    assert_eq!(g.make_move(&at(9, 1), &PlayerColor::White), Err(MoveError::OutOfBounds));
}

#[test]
fn go_two_passes_score_the_game() {
    let mut g = GoGame::new(5);
    assert_eq!(g.make_move(&at(2, 2), &PlayerColor::Black), Ok(()));
    assert_eq!(g.make_move(&pass(), &PlayerColor::White), Ok(()));
    assert_eq!(g.status(), GameStatus::Playing);
    assert_eq!(g.make_move(&pass(), &PlayerColor::Black), Ok(()));
    // One black stone owns the whole board: 25 points against 0 plus komi.
    assert_eq!(g.black_area, 25);
    assert_eq!(g.white_area, 0);
    assert_eq!(g.status(), GameStatus::BlackWon);
    assert_eq!(g.make_move(&pass(), &PlayerColor::White), Err(MoveError::GameOver));
}

#[test]
fn go_empty_board_goes_to_white_on_komi() {
    let mut g = GoGame::new(5);
    assert_eq!(g.make_move(&pass(), &PlayerColor::Black), Ok(()));
    assert_eq!(g.make_move(&pass(), &PlayerColor::White), Ok(()));
    assert_eq!(g.black_area, 0);
    assert_eq!(g.white_area, 0);
    assert_eq!(g.status(), GameStatus::WhiteWon);
}

#[test]
fn go_group_capture_counts_stones() {
    let mut g = GoGame::new(5);
    // White pair at 0,0 and 0,1; Black closes them in.
    assert_eq!(g.make_move(&at(1, 0), &PlayerColor::Black), Ok(()));
    assert_eq!(g.make_move(&at(0, 0), &PlayerColor::White), Ok(()));
    assert_eq!(g.make_move(&at(1, 1), &PlayerColor::Black), Ok(()));
    assert_eq!(g.make_move(&at(0, 1), &PlayerColor::White), Ok(()));
    assert_eq!(g.make_move(&at(0, 2), &PlayerColor::Black), Ok(()));
    assert_eq!(g.board[0][0], None);
    assert_eq!(g.board[0][1], None);
    assert_eq!(g.captures_black, 2);
    assert_eq!(g.ko_point, None);
    assert_eq!(g.board[0][2], Some(Stone::Black));
}

#[test]
fn go_computer_players_answer() {
    let g = GoGame::new(5);
    let easy = g.get_ai_move(AiDifficulty::Easy).expect("a move");
    // (0 * 7919 + 17) % 25 = 17: row 3, col 2.
    assert_eq!((easy.row, easy.col, easy.pass), (Some(3), Some(2), Some(false)));
    let normal = g.get_ai_move(AiDifficulty::Normal).expect("a move");
    // 1,2 ties the centre (40 for four liberties, 2 for closeness) and comes first.
    assert_eq!((normal.row, normal.col, normal.pass), (Some(1), Some(2), Some(false)));
    let hard = g.get_ai_move(AiDifficulty::Hard).expect("a move");
    let mut h = GoGame::new(5);
    assert_eq!(h.make_move(&hard, &PlayerColor::Black), Ok(()));
}

#[test]
fn go_computer_takes_a_stone_in_atari() {
    let mut g = GoGame::new(5);
    assert_eq!(g.make_move(&at(0, 1), &PlayerColor::Black), Ok(()));
    assert_eq!(g.make_move(&at(0, 0), &PlayerColor::White), Ok(()));
    // White at 0,0 has one liberty left, at 1,0.
    let mv = g.get_ai_move(AiDifficulty::Normal).expect("a move");
    assert_eq!((mv.row, mv.col), (Some(1), Some(0)));
}

#[test]
fn checkers_jumping_piece_continues() {
    let mut g = CheckersGame::new();
    for r in 0..8 {
        for c in 0..8 {
            g.board[r][c] = None;
        }
    }
    let white = CheckersPiece { piece_type: CheckersPieceType::Man, color: CheckersColor::White };
    let black = CheckersPiece { piece_type: CheckersPieceType::Man, color: CheckersColor::Black };
    g.board[2][1] = Some(white);
    g.board[0][7] = Some(white);
    g.board[3][2] = Some(black);
    g.board[5][4] = Some(black);
    g.board[7][0] = Some(black);
    assert_eq!(g.make_move(&from_to(2, 1, 4, 3), &PlayerColor::White), Ok(()));
    assert_eq!(g.board[3][2], None);
    assert_eq!(g.must_continue_from, Some((4, 3)));
    assert_eq!(g.current_player(), PlayerColor::White);
    assert_eq!(g.make_move(&from_to(0, 7, 1, 6), &PlayerColor::White), Err(MoveError::MustContinueJump));
    assert_eq!(g.make_move(&from_to(4, 3, 6, 5), &PlayerColor::White), Ok(()));
    assert_eq!(g.board[5][4], None);
    assert_eq!(g.must_continue_from, None);
    assert_eq!(g.current_player(), PlayerColor::Black);
}

#[test]
fn chess_check_must_be_answered() {
    let mut g = ChessGame::new();
    assert_eq!(g.make_move(&from_to(1, 4, 3, 4), &PlayerColor::White), Ok(()));
    assert_eq!(g.make_move(&from_to(6, 4, 4, 4), &PlayerColor::Black), Ok(()));
    assert_eq!(g.make_move(&from_to(1, 3, 2, 3), &PlayerColor::White), Ok(()));
    // Bb4+ : the bishop from f8 gives check along the emptied diagonal.
    assert_eq!(g.make_move(&from_to(7, 5, 3, 1), &PlayerColor::Black), Ok(()));
    assert!(g.in_check_now());
    assert_eq!(g.make_move(&from_to(1, 0, 2, 0), &PlayerColor::White), Err(MoveError::IllegalMove));
    // Blocking with c3 answers the check.
    assert_eq!(g.make_move(&from_to(1, 2, 2, 2), &PlayerColor::White), Ok(()));
    assert!(!g.in_check_now());
}

#[test]
fn refused_game_move_changes_nothing() {
    let mut g = create_game(&GameType::Go);
    assert_eq!(g.make_move(&at(40, 0), &PlayerColor::Black), Err(MoveError::OutOfBounds));
    assert_eq!(g.current_player(), PlayerColor::Black);
    match &g {
        Game::Go(x) => {
            assert_eq!(x.move_count, 0);
            assert!(x.board.iter().all(|row| row.iter().all(|c| c.is_none())));
        }
        _ => panic!("not go"),
    }
}

// Every group of stones on the board has an empty point next to it.
fn every_group_breathes(g: &GoGame) -> bool {
    let n = g.size;
    for r in 0..n {
        for c in 0..n {
            let color = match g.board[r][c] {
                Some(s) => s,
                None => continue,
            };
            let mut seen = vec![vec![false; n]; n];
            let mut stack = vec![(r, c)];
            seen[r][c] = true;
            let mut breathes = false;
            while let Some((i, j)) = stack.pop() {
                let mut next = Vec::new();
                if i > 0 {
                    next.push((i - 1, j));
                }
                if i + 1 < n {
                    next.push((i + 1, j));
                }
                if j > 0 {
                    next.push((i, j - 1));
                }
                if j + 1 < n {
                    next.push((i, j + 1));
                }
                for (a, b) in next {
                    match g.board[a][b] {
                        None => breathes = true,
                        Some(s) if s == color && !seen[a][b] => {
                            seen[a][b] = true;
                            stack.push((a, b));
                        }
                        _ => {}
                    }
                }
            }
            if !breathes {
                return false;
            }
        }
    }
    true
}

#[test]
fn go_groups_keep_liberties_through_captures() {
    let mut g = GoGame::new(5);
    // Black surrounds the white pair at (1,1),(1,2) and takes it; a white
    // stone played into a black eye is refused as suicide.
    let moves = [
        (0, 1, PlayerColor::Black),
        (1, 1, PlayerColor::White),
        (0, 2, PlayerColor::Black),
        (1, 2, PlayerColor::White),
        (1, 0, PlayerColor::Black),
        (4, 4, PlayerColor::White),
        (2, 1, PlayerColor::Black),
        (4, 3, PlayerColor::White),
        (2, 2, PlayerColor::Black),
        (3, 4, PlayerColor::White),
    ];
    for (r, c, p) in moves {
        assert_eq!(g.make_move(&at(r, c), &p), Ok(()));
        assert!(every_group_breathes(&g));
    }
    assert_eq!(g.make_move(&at(1, 3), &PlayerColor::Black), Ok(()));
    assert_eq!(g.board[1][1], None);
    assert_eq!(g.board[1][2], None);
    assert_eq!(g.captures_black, 2);
    assert!(every_group_breathes(&g));
    assert_eq!(g.make_move(&at(0, 0), &PlayerColor::White), Err(MoveError::Suicide));
    assert!(every_group_breathes(&g));
}

#[test]
fn go_empty_board_of_no_points() {
    let mut g = GoGame::new(0);
    assert_eq!(g.make_move(&at(0, 0), &PlayerColor::Black), Err(MoveError::OutOfBounds));
    let mv = g.get_ai_move(AiDifficulty::Easy).expect("a move");
    assert_eq!(mv.pass, Some(true));
    assert_eq!(g.make_move(&mv, &PlayerColor::Black), Ok(()));
    assert_eq!(g.current_player(), PlayerColor::White);
}

#[test]
fn chess_tables_mirror_for_black() {
    for pt in [
        PieceType::Pawn,
        PieceType::Knight,
        PieceType::Bishop,
        PieceType::Rook,
        PieceType::Queen,
        PieceType::King,
    ] {
        for r in 0..8 {
            for c in 0..8 {
                assert_eq!(ChessGame::pst_bonus(pt, Color::Black, r, c), ChessGame::pst_bonus(pt, Color::White, 7 - r, c));
            }
        }
    }
}

#[test]
fn chess_legal_moves_leave_the_king_safe() {
    let g = ChessGame::new();
    let mut pawn = g.legal_moves(1, 4);
    pawn.sort();
    assert_eq!(pawn, vec![(2, 4), (3, 4)]);
    assert!(g.legal_moves(0, 4).is_empty());
    // A bishop pinned to its king by a rook may only move along the pin.
    let mut g = ChessGame::new();
    for r in 0..8 {
        for c in 0..8 {
            g.board[r][c] = None;
        }
    }
    g.board[0][4] = Some(Piece { piece_type: PieceType::King, color: Color::White });
    g.board[1][4] = Some(Piece { piece_type: PieceType::Rook, color: Color::White });
    g.board[6][4] = Some(Piece { piece_type: PieceType::Rook, color: Color::Black });
    g.board[7][0] = Some(Piece { piece_type: PieceType::King, color: Color::Black });
    g.castling.white_king_side = false;
    g.castling.white_queen_side = false;
    g.castling.black_king_side = false;
    g.castling.black_queen_side = false;
    let mut rook = g.legal_moves(1, 4);
    rook.sort();
    assert_eq!(rook, vec![(2, 4), (3, 4), (4, 4), (5, 4), (6, 4)]);
}

#[test]
fn searches_keep_values_inside_their_window() {
    let g = ChessGame::new();
    // The starting position is balanced.
    assert_eq!(g.minimax(0, -1000, 1000, true, Color::White), 0);
    assert_eq!(g.minimax(0, -1000, 1000, true, Color::Black), 0);
    let wide = g.minimax(2, -1_000_000, 1_000_000, true, Color::White);
    let narrow = g.minimax(2, wide - 1, wide + 1, true, Color::White);
    assert_eq!(wide, narrow);
    let mut k = GomokuGame::new(15);
    assert_eq!(k.make_move(&at(7, 7), &PlayerColor::Black), Ok(()));
    let b = k.gomoku_minimax(0, -1_000_000, 1_000_000, true, GomokuColor::Black);
    let w = k.gomoku_minimax(0, -1_000_000, 1_000_000, true, GomokuColor::White);
    assert_eq!(b, -w);
    assert!(b > 0);
}

#[test]
fn chess_under_promotion_that_blocks_a_check() {
    let mut g = ChessGame::new();
    for r in 0..8 {
        for c in 0..8 {
            g.board[r][c] = None;
        }
    }
    g.castling.white_king_side = false;
    g.castling.white_queen_side = false;
    g.castling.black_king_side = false;
    g.castling.black_queen_side = false;
    g.board[7][7] = Some(Piece { piece_type: PieceType::King, color: Color::White });
    g.board[6][3] = Some(Piece { piece_type: PieceType::Pawn, color: Color::White });
    g.board[7][0] = Some(Piece { piece_type: PieceType::Rook, color: Color::Black });
    g.board[0][0] = Some(Piece { piece_type: PieceType::King, color: Color::Black });
    assert!(g.in_check_now());
    let mut mv = from_to(6, 3, 7, 3);
    mv.promotion = Some("knight".to_string());
    assert_eq!(g.make_move(&mv, &PlayerColor::White), Ok(()));
    assert_eq!(g.board[7][3], Some(Piece { piece_type: PieceType::Knight, color: Color::White }));
    assert_eq!(g.make_move(&from_to(0, 0, 1, 0), &PlayerColor::Black), Ok(()));
    assert!(!g.in_check_now());
}

#[test]
fn checkers_computer_keeps_to_the_jumping_piece() {
    let mut g = CheckersGame::new();
    for r in 0..8 {
        for c in 0..8 {
            g.board[r][c] = None;
        }
    }
    let white = CheckersPiece { piece_type: CheckersPieceType::Man, color: CheckersColor::White };
    let black = CheckersPiece { piece_type: CheckersPieceType::Man, color: CheckersColor::Black };
    // Black is in the middle of a multi-jump with the man on (3, 2); the man
    // on (5, 6) could capture too, but may not move now.
    g.board[3][2] = Some(black);
    g.board[2][1] = Some(white);
    g.board[5][6] = Some(black);
    g.board[4][5] = Some(white);
    g.board[0][7] = Some(white);
    g.current_turn = CheckersColor::Black;
    g.must_continue_from = Some((3, 2));
    for d in [AiDifficulty::Easy, AiDifficulty::Normal, AiDifficulty::Hard] {
        let mv = g.get_ai_move(d).expect("a capture");
        assert_eq!((mv.from_row, mv.from_col, mv.to_row, mv.to_col), (Some(3), Some(2), Some(1), Some(0)));
    }
    let mv = g.get_ai_move(AiDifficulty::Easy).unwrap();
    assert_eq!(g.make_move(&mv, &PlayerColor::Black), Ok(()));
}

#[test]
fn gomoku_leaf_value_is_zero_sum() {
    let mut g = GomokuGame::new(15);
    assert_eq!(g.make_move(&at(7, 7), &PlayerColor::Black), Ok(()));
    assert_eq!(g.make_move(&at(7, 8), &PlayerColor::White), Ok(()));
    assert_eq!(g.make_move(&at(8, 8), &PlayerColor::Black), Ok(()));
    let b = g.gomoku_minimax(0, -1_000_000, 1_000_000, true, GomokuColor::Black);
    let w = g.gomoku_minimax(0, -1_000_000, 1_000_000, false, GomokuColor::White);
    assert_eq!(b, -w);
}
