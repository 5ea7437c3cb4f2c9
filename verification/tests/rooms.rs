use board_games::games::checkers::{CheckersColor, CheckersGame, CheckersPiece, CheckersPieceType};
use board_games::games::{AiDifficulty, Game, GameStatus, GameType, MovePayload, PlayerColor};
use board_games::lobby::{new_room_id, AppState, Room, RoomStatus};
use board_games::protocol::{
    client_message, parse_client_message, ClientJson, ClientMessage, CreateRoomRequest, Notice, Recipient,
    ServerMessage,
};

fn at(r: u64, c: u64) -> MovePayload {
    MovePayload {
        from_row: None,
        from_col: None,
        to_row: None,
        to_col: None,
        row: Some(r),
        col: Some(c),
        pass: None,
        promotion: None,
    }
}

fn request(game_type: &str, vs: Option<bool>, difficulty: Option<&str>) -> CreateRoomRequest {
    CreateRoomRequest {
        game_type: game_type.to_string(),
        vs_computer: vs,
        difficulty: difficulty.map(|d| d.to_string()),
    }
}

#[test]
fn room_ids_are_eight_hex_digits() {
    let id = new_room_id();
    assert_eq!(id.len(), 8);
    assert!(id.chars().all(|c| c.is_ascii_digit() || ('a'..='f').contains(&c)));
    assert_ne!(new_room_id(), new_room_id());
}

#[test]
fn new_rooms_wait_for_players() {
    let room = Room::new("a3f9c12e".to_string(), GameType::Chess);
    assert_eq!(room.status, RoomStatus::Waiting);
    assert_eq!(room.white_player_id, None);
    assert!(!room.vs_computer);
    assert_eq!(room.ai_difficulty, None);
    assert!(room.created_at > 1_600_000_000);
    let info = room.to_info();
    assert_eq!(info.id, "a3f9c12e");
    assert_eq!(info.game_type, "chess");
    assert_eq!(info.status, RoomStatus::Waiting);
    assert_eq!(info.created_at, room.created_at);
    let stamped = Room::new_at("x".to_string(), GameType::Gomoku, 1709500000);
    assert_eq!(stamped.created_at, 1709500000);
    assert_eq!(stamped.to_info().game_type, "gomoku");
}

#[test]
fn first_player_seat_follows_first_byte() {
    // '0' is byte 48 (even): white.
    let mut even = Room::new_at("0abc".to_string(), GameType::Go, 0);
    assert_eq!(even.add_player("p1".to_string()), Some(PlayerColor::White));
    assert_eq!(even.status, RoomStatus::Waiting);
    assert_eq!(even.add_player("p2".to_string()), Some(PlayerColor::Black));
    assert_eq!(even.status, RoomStatus::Playing);
    assert_eq!(even.add_player("p3".to_string()), None);
    assert_eq!(even.player_color("p1"), Some(PlayerColor::White));
    assert_eq!(even.player_color("p2"), Some(PlayerColor::Black));
    assert_eq!(even.player_color("p3"), None);
    // 'a' is byte 97 (odd): black.
    let mut odd = Room::new_at("a123".to_string(), GameType::Go, 0);
    assert_eq!(odd.add_player("p1".to_string()), Some(PlayerColor::Black));
    assert_eq!(odd.add_player("p2".to_string()), Some(PlayerColor::White));
    // An empty id counts as even.
    let mut empty = Room::new_at(String::new(), GameType::Go, 0);
    assert_eq!(empty.add_player("p".to_string()), Some(PlayerColor::White));
}

#[test]
fn computer_rooms_take_one_player() {
    let mut room = Room::new_vs_computer("b0".to_string(), GameType::Gomoku, AiDifficulty::Hard);
    assert!(room.vs_computer);
    assert_eq!(room.difficulty_str(), Some("hard"));
    assert_eq!(room.add_player("human".to_string()), Some(PlayerColor::White));
    assert_eq!(room.status, RoomStatus::Playing);
    assert_eq!(room.add_player("other".to_string()), None);
    assert_eq!(room.black_player_id, None);
}

#[test]
fn lobby_lists_open_rooms_for_two() {
    let mut st = AppState::new();
    let a = st.create_room(GameType::Chess);
    let b = st.create_room_vs_computer(GameType::Go, AiDifficulty::Easy);
    let c = st.create_room(GameType::Checkers);
    assert_eq!(st.rooms.len(), 3);
    let listed: Vec<String> = st.list_rooms().into_iter().map(|i| i.id).collect();
    assert!(listed.contains(&a));
    assert!(listed.contains(&c));
    assert!(!listed.contains(&b));
    let i = st.find(&c).expect("room");
    st.rooms[i].status = RoomStatus::Finished;
    let listed: Vec<String> = st.list_rooms().into_iter().map(|i| i.id).collect();
    assert_eq!(listed, vec![a.clone()]);
    assert_eq!(st.get_room_info(&b).map(|i| i.game_type), Some("go".to_string()));
    assert!(st.get_room_info("nothere").is_none());
}

#[test]
fn open_room_reads_the_request() {
    let mut st = AppState::new();
    assert_eq!(st.open_room(&request("poker", None, None)), None);
    assert_eq!(st.rooms.len(), 0);
    let id = st.open_room(&request("gomoku", None, Some("hard"))).expect("room");
    let room = &st.rooms[st.find(&id).unwrap()];
    assert!(!room.vs_computer);
    assert_eq!(room.ai_difficulty, None);
    let id = st.open_room(&request("go", Some(true), Some("hard"))).expect("room");
    let room = &st.rooms[st.find(&id).unwrap()];
    assert!(room.vs_computer);
    assert_eq!(room.ai_difficulty, Some(AiDifficulty::Hard));
    let id = st.open_room(&request("chess", Some(true), Some("silly"))).expect("room");
    assert_eq!(st.rooms[st.find(&id).unwrap()].ai_difficulty, Some(AiDifficulty::Normal));
    let id = st.open_room(&request("chess", Some(true), None)).expect("room");
    assert_eq!(st.rooms[st.find(&id).unwrap()].ai_difficulty, Some(AiDifficulty::Normal));
}

#[test]
fn connecting_seats_and_greets() {
    let mut st = AppState::new();
    st.rooms.push(Room::new_at("0room".to_string(), GameType::Gomoku, 0));
    assert_eq!(st.connect("missing", "p1"), None);
    assert_eq!(st.connect("0room", "p1"), Some(PlayerColor::White));
    let out = st.connect_messages("0room", PlayerColor::White);
    assert_eq!(out.len(), 2);
    assert_eq!(out[0].to, Recipient::Only(PlayerColor::White));
    assert!(matches!(out[0].message, ServerMessage::Connected(PlayerColor::White)));
    assert!(matches!(out[1].message, ServerMessage::GameState));
    assert_eq!(out[1].to, Recipient::Only(PlayerColor::White));
    // Reconnecting gives the same seat back.
    assert_eq!(st.connect("0room", "p1"), Some(PlayerColor::White));
    assert_eq!(st.connect("0room", "p2"), Some(PlayerColor::Black));
    let out = st.connect_messages("0room", PlayerColor::Black);
    assert_eq!(out.len(), 3);
    assert!(matches!(out[1].message, ServerMessage::GameState));
    assert_eq!(out[1].to, Recipient::Both);
    assert!(matches!(out[2].message, ServerMessage::GameStarted));
    assert_eq!(st.connect("0room", "p3"), None);
    assert!(st.connect_messages("missing", PlayerColor::Black).is_empty());
    assert!(!st.needs_ai_first("0room", PlayerColor::Black));
}

#[test]
fn messages_get_their_answers() {
    let mut st = AppState::new();
    st.rooms.push(Room::new_at("0room".to_string(), GameType::Gomoku, 0));
    st.connect("0room", "p1");
    st.connect("0room", "p2");
    let (out, ai) = st.handle_message("0room", PlayerColor::White, ClientMessage::Ping);
    assert!(!ai);
    assert_eq!(out.len(), 1);
    assert!(matches!(out[0].message, ServerMessage::Pong));
    let (out, _) = st.handle_message("0room", PlayerColor::White, ClientMessage::Unknown);
    assert!(matches!(out[0].message, ServerMessage::Error(Notice::UnknownType)));
    assert_eq!(Notice::UnknownType.text(), "Unknown message type");
    let (out, _) = st.handle_message("0room", PlayerColor::White, ClientMessage::InvalidJson);
    assert!(matches!(out[0].message, ServerMessage::Error(Notice::InvalidJson)));
    assert_eq!(Notice::InvalidJson.text(), "Invalid JSON");
    let (out, _) = st.handle_message("0room", PlayerColor::Black, ClientMessage::MissingType);
    assert_eq!(out[0].to, Recipient::Only(PlayerColor::Black));
    assert_eq!(Notice::MissingType.text(), "Missing message type");
    let (out, _) = st.handle_message("elsewhere", PlayerColor::White, ClientMessage::Ping);
    assert!(out.is_empty());
    let (out, _) = st.handle_message("0room", PlayerColor::White, ClientMessage::Chat(None));
    assert!(out.is_empty());
}

#[test]
fn chat_lines_are_cut_at_500_characters() {
    let mut st = AppState::new();
    st.rooms.push(Room::new_at("0room".to_string(), GameType::Chess, 0));
    let long = "x".repeat(600);
    let (out, _) = st.handle_message("0room", PlayerColor::Black, ClientMessage::Chat(Some(long)));
    assert_eq!(out.len(), 1);
    assert_eq!(out[0].to, Recipient::Both);
    match &out[0].message {
        ServerMessage::Chat(c, text) => {
            assert_eq!(*c, PlayerColor::Black);
            assert_eq!(text.len(), 500);
        }
        _ => panic!("not chat"),
    }
    let (out, _) = st.handle_message("0room", PlayerColor::White, ClientMessage::Chat(Some("gg".to_string())));
    match &out[0].message {
        ServerMessage::Chat(_, text) => assert_eq!(text, "gg"),
        _ => panic!("not chat"),
    }
    // Two-byte characters: 300 of them are kept whole, 600 are cut to 500.
    let (out, _) = st.handle_message("0room", PlayerColor::White, ClientMessage::Chat(Some("é".repeat(300))));
    match &out[0].message {
        ServerMessage::Chat(_, text) => assert_eq!(text, &"é".repeat(300)),
        _ => panic!("not chat"),
    }
    let (out, _) = st.handle_message("0room", PlayerColor::White, ClientMessage::Chat(Some("é".repeat(600))));
    match &out[0].message {
        ServerMessage::Chat(_, text) => assert_eq!(text, &"é".repeat(500)),
        _ => panic!("not chat"),
    }
    let mixed = format!("{}é", "x".repeat(499));
    let (out, _) = st.handle_message("0room", PlayerColor::White, ClientMessage::Chat(Some(format!("{}zz", mixed))));
    match &out[0].message {
        ServerMessage::Chat(_, text) => assert_eq!(text, &mixed),
        _ => panic!("not chat"),
    }
}

#[test]
fn moves_and_resignation_in_a_room() {
    let mut st = AppState::new();
    st.rooms.push(Room::new_at("0room".to_string(), GameType::Gomoku, 0));
    // Not started yet: moves are refused.
    let (out, _) = st.handle_message("0room", PlayerColor::Black, ClientMessage::MakeMove(at(7, 7)));
    assert!(matches!(out[0].message, ServerMessage::Error(Notice::NotInProgress)));
    assert_eq!(Notice::NotInProgress.text(), "Game is not in progress");
    st.connect("0room", "p1");
    st.connect("0room", "p2");
    let (out, ai) = st.handle_message("0room", PlayerColor::Black, ClientMessage::MakeMove(at(7, 7)));
    assert!(!ai);
    assert_eq!(out.len(), 1);
    assert!(matches!(out[0].message, ServerMessage::GameState));
    assert_eq!(out[0].to, Recipient::Both);
    let (out, _) = st.handle_message("0room", PlayerColor::Black, ClientMessage::MakeMove(at(7, 8)));
    assert!(matches!(out[0].message, ServerMessage::Error(Notice::Move(board_games::games::MoveError::NotYourTurn))));
    assert_eq!(out[0].to, Recipient::Only(PlayerColor::Black));
    assert_eq!(Notice::Move(board_games::games::MoveError::NotYourTurn).text(), "Not your turn");
    let (out, _) = st.handle_message("0room", PlayerColor::White, ClientMessage::Resign);
    assert_eq!(out.len(), 1);
    assert!(matches!(out[0].message, ServerMessage::Resigned(PlayerColor::Black)));
    assert_eq!(st.rooms[0].status, RoomStatus::Finished);
    let (out, _) = st.handle_message("0room", PlayerColor::White, ClientMessage::MakeMove(at(1, 1)));
    assert!(matches!(out[0].message, ServerMessage::Error(Notice::NotInProgress)));
}

#[test]
fn leaving_players_and_empty_rooms() {
    let mut st = AppState::new();
    st.rooms.push(Room::new_at("0room".to_string(), GameType::Gomoku, 0));
    st.connect("0room", "p1");
    st.connect("0room", "p2");
    let out = st.leave("0room", PlayerColor::White, true);
    assert_eq!(out.len(), 1);
    assert_eq!(out[0].to, Recipient::Both);
    assert!(matches!(out[0].message, ServerMessage::OpponentDisconnected(PlayerColor::White)));
    assert!(st.find("0room").is_some());
    assert!(st.leave("none", PlayerColor::White, false).is_empty());
    assert_eq!(st.rooms.len(), 1);
    // The last player leaves: the room goes, without a message.
    assert!(st.leave("0room", PlayerColor::Black, false).is_empty());
    assert!(st.find("0room").is_none());
    assert!(st.rooms.is_empty());
}

#[test]
fn rooms_wait_for_their_players() {
    let mut st = AppState::new();
    // A room against the computer stays when its human leaves.
    st.rooms.push(Room::new_at("0cpu".to_string(), GameType::Gomoku, 0));
    st.rooms[0].vs_computer = true;
    st.rooms[0].ai_difficulty = Some(AiDifficulty::Normal);
    assert_eq!(st.connect("0cpu", "human"), Some(PlayerColor::White));
    let out = st.leave("0cpu", PlayerColor::White, false);
    assert_eq!(out.len(), 1);
    assert!(st.find("0cpu").is_some());
    // The human comes back to the same seat.
    assert_eq!(st.connect("0cpu", "human"), Some(PlayerColor::White));
    // A room with one player so far stays when that player leaves.
    st.rooms.push(Room::new_at("0wait".to_string(), GameType::Chess, 0));
    assert_eq!(st.connect("0wait", "p1"), Some(PlayerColor::White));
    assert_eq!(st.leave("0wait", PlayerColor::White, false).len(), 1);
    let i = st.find("0wait").expect("the room stays");
    assert_eq!(st.rooms[i].white_player_id.as_deref(), Some("p1"));
    assert_eq!(st.rooms[i].status, RoomStatus::Waiting);
}

#[test]
fn winning_move_finishes_the_room() {
    let mut st = AppState::new();
    st.rooms.push(Room::new_at("0room".to_string(), GameType::Gomoku, 0));
    st.connect("0room", "p1");
    st.connect("0room", "p2");
    for i in 0..4u64 {
        st.handle_message("0room", PlayerColor::Black, ClientMessage::MakeMove(at(3, i)));
        st.handle_message("0room", PlayerColor::White, ClientMessage::MakeMove(at(4, i)));
    }
    let (out, ai) = st.handle_message("0room", PlayerColor::Black, ClientMessage::MakeMove(at(3, 4)));
    assert!(!ai);
    assert_eq!(out.len(), 2);
    assert!(matches!(out[1].message, ServerMessage::GameOver(GameStatus::BlackWon)));
    assert_eq!(st.rooms[0].status, RoomStatus::Finished);
}

#[test]
fn computer_answers_in_its_room() {
    let mut st = AppState::new();
    // '0' seats the human as White; Black (the computer) opens in gomoku.
    st.rooms.push(Room::new_at("0cpu".to_string(), GameType::Gomoku, 0));
    st.rooms[0].vs_computer = true;
    st.rooms[0].ai_difficulty = Some(AiDifficulty::Normal);
    assert_eq!(st.connect("0cpu", "human"), Some(PlayerColor::White));
    assert!(st.needs_ai_first("0cpu", PlayerColor::White));
    let (mv, color) = st.ai_turn("0cpu").expect("a move");
    assert_eq!(color, PlayerColor::Black);
    assert_eq!((mv.row, mv.col), (Some(7), Some(7)));
    let (out, again) = st.apply_ai_move("0cpu", &mv, color);
    assert!(!again);
    assert_eq!(out.len(), 1);
    assert!(matches!(out[0].message, ServerMessage::GameState));
    let (_, ai) = st.handle_message("0cpu", PlayerColor::White, ClientMessage::MakeMove(at(0, 0)));
    assert!(ai);
    assert!(st.ai_turn("nothere").is_none());
    // A move the rules refuse is dropped without a message.
    let (out, again) = st.apply_ai_move("0cpu", &at(0, 0), PlayerColor::Black);
    assert!(out.is_empty());
    assert!(!again);
}

fn from_to(fr: u64, fc: u64, tr: u64, tc: u64) -> MovePayload {
    MovePayload {
        from_row: Some(fr),
        from_col: Some(fc),
        to_row: Some(tr),
        to_col: Some(tc),
        row: None,
        col: None,
        pass: None,
        promotion: None,
    }
}

fn checkers_room(st: &mut AppState, pieces: &[(usize, usize, CheckersColor)], turn: CheckersColor) {
    let mut g = CheckersGame::new();
    for r in 0..8 {
        for c in 0..8 {
            g.board[r][c] = None;
        }
    }
    for &(r, c, color) in pieces {
        g.board[r][c] = Some(CheckersPiece { piece_type: CheckersPieceType::Man, color });
    }
    g.current_turn = turn;
    let mut room = Room::new_at("0ck".to_string(), GameType::Checkers, 0);
    room.vs_computer = true;
    room.ai_difficulty = Some(AiDifficulty::Normal);
    room.game = Game::Checkers(g);
    st.rooms.push(room);
    // '0' seats the human as White; the computer plays Black.
    assert_eq!(st.connect("0ck", "human"), Some(PlayerColor::White));
}

#[test]
fn computer_waits_for_the_humans_jumps() {
    let mut st = AppState::new();
    let w = CheckersColor::White;
    let b = CheckersColor::Black;
    checkers_room(&mut st, &[(2, 1, w), (0, 7, w), (3, 2, b), (5, 4, b), (7, 0, b)], w);
    let (out, ai) = st.handle_message("0ck", PlayerColor::White, ClientMessage::MakeMove(from_to(2, 1, 4, 3)));
    assert_eq!(out.len(), 1);
    // The capture must go on: the human is still to move, not the computer.
    assert!(!ai);
    assert!(st.ai_turn("0ck").is_none());
    let (_, ai) = st.handle_message("0ck", PlayerColor::White, ClientMessage::MakeMove(from_to(4, 3, 6, 5)));
    assert!(ai);
    assert!(st.ai_turn("0ck").is_some());
}

#[test]
fn computer_finishes_its_own_jumps() {
    let mut st = AppState::new();
    let w = CheckersColor::White;
    let b = CheckersColor::Black;
    checkers_room(&mut st, &[(4, 3, w), (2, 1, w), (0, 7, w), (5, 4, b), (7, 0, b)], b);
    let (mv, color) = st.ai_turn("0ck").expect("a capture");
    assert_eq!(color, PlayerColor::Black);
    assert_eq!((mv.from_row, mv.from_col, mv.to_row, mv.to_col), (Some(5), Some(4), Some(3), Some(2)));
    let (out, again) = st.apply_ai_move("0ck", &mv, color);
    assert_eq!(out.len(), 1);
    assert!(again);
    let (mv, color) = st.ai_turn("0ck").expect("the second capture");
    assert_eq!((mv.from_row, mv.from_col, mv.to_row, mv.to_col), (Some(3), Some(2), Some(1), Some(0)));
    let (_, again) = st.apply_ai_move("0ck", &mv, color);
    assert!(!again);
    assert_eq!(st.rooms[0].game.current_player(), PlayerColor::White);
    // The computer never moves for the human.
    assert!(st.ai_turn("0ck").is_none());
    let (out, again) = st.apply_ai_move("0ck", &from_to(0, 7, 1, 6), PlayerColor::White);
    assert!(out.is_empty());
    assert!(!again);
}

#[test]
fn texts_read_as_messages() {
    assert!(matches!(parse_client_message("not json"), ClientMessage::InvalidJson));
    assert!(matches!(parse_client_message("{\"text\": \"hi\"}"), ClientMessage::MissingType));
    assert!(matches!(parse_client_message("{\"type\": 3}"), ClientMessage::MissingType));
    assert!(matches!(parse_client_message("[1, 2]"), ClientMessage::MissingType));
    assert!(matches!(parse_client_message("{\"type\": \"resign\"}"), ClientMessage::Resign));
    assert!(matches!(parse_client_message("{\"type\": \"ping\"}"), ClientMessage::Ping));
    assert!(matches!(parse_client_message("{\"type\": \"dance\"}"), ClientMessage::Unknown));
    match parse_client_message("{\"type\": \"chat\", \"text\": \"good game\"}") {
        ClientMessage::Chat(Some(t)) => assert_eq!(t, "good game"),
        _ => panic!("not chat"),
    }
    assert!(matches!(parse_client_message("{\"type\": \"chat\"}"), ClientMessage::Chat(None)));
    match parse_client_message(
        "{\"type\": \"make_move\", \"move\": {\"from\": [6, 4], \"to\": [7, 4], \"promotion\": \"knight\"}}",
    ) {
        ClientMessage::MakeMove(mv) => {
            assert_eq!((mv.from_row, mv.from_col, mv.to_row, mv.to_col), (Some(6), Some(4), Some(7), Some(4)));
            assert_eq!((mv.row, mv.col, mv.pass), (None, None, None));
            assert_eq!(mv.promotion.as_deref(), Some("knight"));
        }
        _ => panic!("not a move"),
    }
    match parse_client_message("{\"type\": \"make_move\", \"move\": {\"row\": 3, \"col\": 15, \"pass\": true}}") {
        ClientMessage::MakeMove(mv) => {
            assert_eq!((mv.row, mv.col, mv.pass), (Some(3), Some(15), Some(true)));
            assert_eq!((mv.from_row, mv.to_col, mv.promotion), (None, None, None));
        }
        _ => panic!("not a move"),
    }
    match parse_client_message("{\"type\": \"make_move\"}") {
        ClientMessage::MakeMove(mv) => assert_eq!((mv.row, mv.from_row), (None, None)),
        _ => panic!("not a move"),
    }
}

#[test]
fn fields_make_messages() {
    let j = ClientJson {
        parsed: true,
        msg_type: Some("make_move".to_string()),
        text: None,
        from_row: None,
        from_col: None,
        to_row: None,
        to_col: None,
        row: Some(2),
        col: Some(9),
        pass: Some(false),
        promotion: None,
    };
    match client_message(j) {
        ClientMessage::MakeMove(mv) => assert_eq!((mv.row, mv.col, mv.pass), (Some(2), Some(9), Some(false))),
        _ => panic!("not a move"),
    }
    let j = ClientJson {
        parsed: false,
        msg_type: Some("ping".to_string()),
        text: None,
        from_row: None,
        from_col: None,
        to_row: None,
        to_col: None,
        row: None,
        col: None,
        pass: None,
        promotion: None,
    };
    assert!(matches!(client_message(j), ClientMessage::InvalidJson));
}
