//! What the server decides for each request and each WebSocket message:
//! how a message's text reads, which room to make, who takes which seat,
//! what a message does to a room, and which messages go to whom. The server
//! carries the decisions out: it writes the JSON it sends and owns the
//! connections.

use vstd::prelude::*;
use vstd::string::*;
use serde_json::Value;
use crate::games::{
    AiDifficulty, Game, GameStatus, GameType, MoveError, MovePayload, PlayerColor, difficulty_named, error_text,
    game_ai_choice, game_played, game_type_named, other_player, refused_move_keeps_game, text_equals,
};
use crate::lobby::{
    AppState, Room, RoomStatus, computer_side, fresh_room, has_room, index_of, is_lower_hex, joined, put_room, seat_of,
};

verus! {

/// The body of a request to make a room.
pub struct CreateRoomRequest {
    pub game_type: String,
    pub vs_computer: Option<bool>,
    pub difficulty: Option<String>,
}

/// The body of a request to join a room.
pub struct JoinRoomRequest {
    pub player_id: String,
}

/// The query of a WebSocket connection.
pub struct WsQuery {
    pub player_id: String,
}

/// A message from a player, as read from its text.
pub enum ClientMessage {
    /// The text is not JSON.
    InvalidJson,
    /// The JSON has no string `type`.
    MissingType,
    MakeMove(MovePayload),
    Resign,
    /// A chat line; `None` when the message has no string `text`.
    Chat(Option<String>),
    Ping,
    /// A `type` the server does not know.
    Unknown,
}

/// What the server reads of a message's text as JSON: whether it parsed,
/// and each field it may use, `None` where the field is missing or holds
/// another kind of value. The move's fields are read from the object under
/// `move`: `from` and `to` as `[row, col]` pairs, then `row`, `col`, `pass`
/// and `promotion`.
pub struct ClientJson {
    pub parsed: bool,
    pub msg_type: Option<String>,
    pub text: Option<String>,
    pub from_row: Option<u64>,
    pub from_col: Option<u64>,
    pub to_row: Option<u64>,
    pub to_col: Option<u64>,
    pub row: Option<u64>,
    pub col: Option<u64>,
    pub pass: Option<bool>,
    pub promotion: Option<String>,
}

/// A `ClientJson` with its strings taken as character sequences.
pub struct ClientJsonView {
    pub parsed: bool,
    pub msg_type: Option<Seq<char>>,
    pub text: Option<Seq<char>>,
    pub from_row: Option<u64>,
    pub from_col: Option<u64>,
    pub to_row: Option<u64>,
    pub to_col: Option<u64>,
    pub row: Option<u64>,
    pub col: Option<u64>,
    pub pass: Option<bool>,
    pub promotion: Option<Seq<char>>,
}

pub open spec fn text_view(o: Option<String>) -> Option<Seq<char>> {
    match o {
        Some(s) => Some(s@),
        None => None,
    }
}

impl View for ClientJson {
    type V = ClientJsonView;

    open spec fn view(&self) -> ClientJsonView {
        ClientJsonView {
            parsed: self.parsed,
            msg_type: text_view(self.msg_type),
            text: text_view(self.text),
            from_row: self.from_row,
            from_col: self.from_col,
            to_row: self.to_row,
            to_col: self.to_col,
            row: self.row,
            col: self.col,
            pass: self.pass,
            promotion: text_view(self.promotion),
        }
    }
}

/// What serde_json reads from a text, as far as the server looks at it.
pub uninterp spec fn json_reading(text: Seq<char>) -> ClientJsonView;

/// Reads `text` as JSON with `serde_json::from_str` into a
/// `serde_json::Value` and picks out the fields the server uses, by
/// `Value`'s indexing (which gives `Null` for a missing key or index) and
/// `as_str`, `as_u64` and `as_bool`. What serde_json accepts and reads is
/// named by `json_reading`, not stated.
#[verifier::external_body]
fn read_client_json(text: &str) -> (j: ClientJson)
    ensures
        j@ == json_reading(text@),
{
    let r = serde_json::from_str::<Value>(text);
    let parsed = r.is_ok();
    let v = r.unwrap_or_default();
    let m = &v["move"];
    ClientJson {
        parsed, msg_type: v["type"].as_str().map(String::from),
        text: v["text"].as_str().map(String::from),
        from_row: m["from"][0].as_u64(), from_col: m["from"][1].as_u64(),
        to_row: m["to"][0].as_u64(), to_col: m["to"][1].as_u64(),
        row: m["row"].as_u64(), col: m["col"].as_u64(), pass: m["pass"].as_bool(),
        promotion: m["promotion"].as_str().map(String::from),
    }
}

/// The message that the fields `j` of a text make: an error when the text
/// is not JSON or has no string `type`, else the message its `type` names,
/// with the move's fields or the chat line.
pub open spec fn classified(j: ClientJsonView, m: ClientMessage) -> bool {
    if !j.parsed {
        m is InvalidJson
    } else {
        match j.msg_type {
            None => m is MissingType,
            Some(t) => if t == "make_move"@ {
                m matches ClientMessage::MakeMove(mv) && mv.from_row == j.from_row && mv.from_col == j.from_col
                    && mv.to_row == j.to_row && mv.to_col == j.to_col && mv.row == j.row && mv.col == j.col
                    && mv.pass == j.pass && text_view(mv.promotion) == j.promotion
            } else if t == "resign"@ {
                m is Resign
            } else if t == "chat"@ {
                m matches ClientMessage::Chat(line) && text_view(line) == j.text
            } else if t == "ping"@ {
                m is Ping
            } else {
                m is Unknown
            },
        }
    }
}

/// The message that the fields `j` of a text make.
pub fn client_message(j: ClientJson) -> (m: ClientMessage)
    ensures
        classified(j@, m),
{
    if !j.parsed {
        return ClientMessage::InvalidJson;
    }
    let t = match j.msg_type {
        Some(t) => t,
        None => return ClientMessage::MissingType,
    };
    if text_equals(t.as_str(), "make_move") {
        ClientMessage::MakeMove(
            MovePayload {
                from_row: j.from_row,
                from_col: j.from_col,
                to_row: j.to_row,
                to_col: j.to_col,
                row: j.row,
                col: j.col,
                pass: j.pass,
                promotion: j.promotion,
            },
        )
    } else if text_equals(t.as_str(), "resign") {
        ClientMessage::Resign
    } else if text_equals(t.as_str(), "chat") {
        ClientMessage::Chat(j.text)
    } else if text_equals(t.as_str(), "ping") {
        ClientMessage::Ping
    } else {
        ClientMessage::Unknown
    }
}

/// A WebSocket text as a message from a player.
pub fn parse_client_message(text: &str) -> (m: ClientMessage)
    ensures
        classified(json_reading(text@), m),
{
    client_message(read_client_json(text))
}

/// Who receives a message.
#[derive(Debug, Clone, Copy, PartialEq, Eq, Structural)]
pub enum Recipient {
    Both,
    Only(PlayerColor),
}

/// What an error message to a player says.
#[derive(Debug, Clone, Copy, PartialEq, Eq, Structural)]
pub enum Notice {
    InvalidJson,
    MissingType,
    UnknownType,
    NotInProgress,
    /// The game's counters are full; no more moves can be played.
    MoveLimit,
    Move(MoveError),
}

pub open spec fn notice_text(n: Notice) -> Seq<char> {
    match n {
        Notice::InvalidJson => "Invalid JSON"@,
        Notice::MissingType => "Missing message type"@,
        Notice::UnknownType => "Unknown message type"@,
        Notice::NotInProgress => "Game is not in progress"@,
        Notice::MoveLimit => "Move limit reached"@,
        Notice::Move(e) => error_text(e),
    }
}

impl Notice {
    /// The text of the notice.
    pub fn text(&self) -> (t: &'static str)
        ensures
            t@ == notice_text(*self),
    {
        match self {
            Notice::InvalidJson => "Invalid JSON",
            Notice::MissingType => "Missing message type",
            Notice::UnknownType => "Unknown message type",
            Notice::NotInProgress => "Game is not in progress",
            Notice::MoveLimit => "Move limit reached",
            Notice::Move(e) => e.message(),
        }
    }
}

/// A message from the server. For `Connected`, `GameState` and
/// `GameStarted` the server fills in the room as it stands when it sends.
pub enum ServerMessage {
    /// To a player who has just connected, with the seat it holds.
    Connected(PlayerColor),
    GameState,
    GameStarted,
    GameOver(GameStatus),
    /// The game ended by resignation; the side that won.
    Resigned(PlayerColor),
    Error(Notice),
    Chat(PlayerColor, String),
    Pong,
    OpponentDisconnected(PlayerColor),
}

pub struct Outgoing {
    pub to: Recipient,
    pub message: ServerMessage,
}

pub open spec fn send(to: Recipient, message: ServerMessage) -> Outgoing {
    Outgoing { to, message }
}

/// The strength a request asks for: the named one, else normal.
pub open spec fn requested_difficulty(d: Option<String>) -> AiDifficulty {
    match d {
        Some(s) => match difficulty_named(s@) {
            Some(x) => x,
            None => AiDifficulty::Normal,
        },
        None => AiDifficulty::Normal,
    }
}

pub open spec fn room_at(rooms: Seq<Room>, id: Seq<char>) -> Room {
    rooms[index_of(rooms, id)]
}

/// The number of characters of a chat line that are kept: at most 500.
pub open spec fn chat_cut(text: Seq<char>) -> int {
    if text.len() < 500 {
        text.len() as int
    } else {
        500
    }
}

/// The messages after a move that the rules allowed: the new state to
/// both, and the end of the game when it is over.
pub open spec fn after_move_messages(g1: Game) -> Seq<Outgoing> {
    if g1.state_status() != GameStatus::Playing {
        seq![
            send(Recipient::Both, ServerMessage::GameState),
            send(Recipient::Both, ServerMessage::GameOver(g1.state_status())),
        ]
    } else {
        seq![send(Recipient::Both, ServerMessage::GameState)]
    }
}

/// The room after its game became `g1`: finished when the game is over.
pub open spec fn with_game(r0: Room, g1: Game) -> Room {
    Room {
        game: g1,
        status: if g1.state_status() != GameStatus::Playing {
            RoomStatus::Finished
        } else {
            r0.status
        },
        ..r0
    }
}

/// What a move in a room does: `r1` and `out` are the room and the
/// messages after `player` asked for `mv` in `r0`; a refusal is told to
/// `player` when `tell` holds, and `goes_on` says that the move was played
/// and the game is not over.
pub open spec fn move_in_room(
    r0: Room,
    mv: MovePayload,
    player: PlayerColor,
    r1: Room,
    out: Seq<Outgoing>,
    tell: bool,
    goes_on: bool,
) -> bool {
    exists|g1: Game, res: Result<(), MoveError>|
        #[trigger] game_played(r0.game, g1, mv, player, res) && match res {
            Err(e) => r1 == r0 && !goes_on && out == (if tell {
                seq![send(Recipient::Only(player), ServerMessage::Error(Notice::Move(e)))]
            } else {
                Seq::empty()
            }),
            Ok(()) => r1 == with_game(r0, g1) && out == after_move_messages(g1) && goes_on == (g1.state_status()
                == GameStatus::Playing),
        }
}

/// The last connection of room `r` has closed: no other seat is connected,
/// and the room held a game between two people, both seats taken.
pub open spec fn room_empties(r: Room, other_connected: bool) -> bool {
    !other_connected && !r.vs_computer && r.white_player_id is Some && r.black_player_id is Some
}

impl AppState {
    /// Makes the room that a request asks for and returns its id; `None`
    /// when the game type is unknown.
    pub fn open_room(&mut self, req: &CreateRoomRequest) -> (r: Option<String>)
        requires
            old(self).wf(),
        ensures
            final(self).wf(),
            match game_type_named(req.game_type@) {
                None => r is None && final(self).rooms@ == old(self).rooms@,
                Some(t) => {
                    let vs = req.vs_computer == Some(true);
                    let d = if vs {
                        Some(requested_difficulty(req.difficulty))
                    } else {
                        None
                    };
                    r matches Some(id) && id@.len() == 8 && (forall|i: int| 0 <= i < 8 ==> is_lower_hex(#[trigger] id@[i]))
                        && exists|room: Room|
                        fresh_room(room, id@, t, vs, d) && final(self).rooms@ == put_room(old(self).rooms@, room)
                },
            },
    {
        let game_type = match GameType::from_str(req.game_type.as_str()) {
            Some(t) => t,
            None => return None,
        };
        let vs = match req.vs_computer {
            Some(b) => b,
            None => false,
        };
        if vs {
            let difficulty = match &req.difficulty {
                Some(d) => match AiDifficulty::from_str(d.as_str()) {
                    Some(x) => x,
                    None => AiDifficulty::Normal,
                },
                None => AiDifficulty::Normal,
            };
            Some(self.create_room_vs_computer(game_type, difficulty))
        } else {
            Some(self.create_room(game_type))
        }
    }

    /// Seats `player_id` in the room `room_id` when it connects: a player
    /// who has a seat gets it back, a new one joins if there is a place.
    /// `None` means the connection is to be closed.
    pub fn connect(&mut self, room_id: &str, player_id: &str) -> (c: Option<PlayerColor>)
        requires
            old(self).wf(),
        ensures
            final(self).wf(),
            !has_room(old(self).rooms@, room_id@) ==> c is None && final(self).rooms@ == old(self).rooms@,
            has_room(old(self).rooms@, room_id@) ==> ({
                let i = index_of(old(self).rooms@, room_id@);
                let r0 = old(self).rooms@[i];
                match seat_of(r0, player_id@) {
                    Some(seat) => c == Some(seat) && final(self).rooms@ == old(self).rooms@,
                    None => exists|p: String, r1: Room|
                        p@ == player_id@ && #[trigger] joined(r0, p, r1, c) && final(self).rooms@ == old(
                            self,
                        ).rooms@.update(i, r1),
                }
            }),
    {
        let i = match self.find(room_id) {
            Some(i) => i,
            None => return None,
        };
        let existing = self.rooms[i].player_color(player_id);
        if existing.is_some() {
            return existing;
        }
        let ghost r0 = self.rooms@[i as int];
        let ghost rooms0 = self.rooms@;
        let p = player_id.to_owned();
        let ghost pg = p;
        let mut room = self.rooms.remove(i);
        let c = room.add_player(p);
        let ghost r1 = room;
        self.rooms.insert(i, room);
        proof {
            assert(self.rooms@ =~= rooms0.update(i as int, r1));
            assert(joined(r0, pg, r1, c));
            assert forall|a: int, b: int| 0 <= a < b < self.rooms.len() implies (#[trigger] self.rooms@[a]).id@
                != (#[trigger] self.rooms@[b]).id@ by {
                assert(rooms0[a].id@ != rooms0[b].id@);
            }
        }
        c
    }

    /// The messages when `color` has connected to `room_id`: the greeting to
    /// it; then the state to both when the game is on, with the news that it
    /// started, else the state to it alone.
    pub fn connect_messages(&self, room_id: &str, color: PlayerColor) -> (out: Vec<Outgoing>)
        requires
            self.wf(),
        ensures
            !has_room(self.rooms@, room_id@) ==> out@.len() == 0,
            has_room(self.rooms@, room_id@) ==> out@ == seq![send(Recipient::Only(color), ServerMessage::Connected(color))]
                + if room_at(self.rooms@, room_id@).status == RoomStatus::Playing {
                seq![send(Recipient::Both, ServerMessage::GameState), send(Recipient::Both, ServerMessage::GameStarted)]
            } else {
                seq![send(Recipient::Only(color), ServerMessage::GameState)]
            },
    {
        let mut out: Vec<Outgoing> = Vec::new();
        let i = match self.find(room_id) {
            Some(i) => i,
            None => return out,
        };
        out.push(Outgoing { to: Recipient::Only(color), message: ServerMessage::Connected(color) });
        if self.rooms[i].status == RoomStatus::Playing {
            out.push(Outgoing { to: Recipient::Both, message: ServerMessage::GameState });
            out.push(Outgoing { to: Recipient::Both, message: ServerMessage::GameStarted });
        } else {
            out.push(Outgoing { to: Recipient::Only(color), message: ServerMessage::GameState });
        }
        out
    }

    /// Whether the computer must move first once `color` has connected: in
    /// a game against the computer that is on, when `color` is not to move.
    pub fn needs_ai_first(&self, room_id: &str, color: PlayerColor) -> (b: bool)
        requires
            self.wf(),
        ensures
            b == (has_room(self.rooms@, room_id@) && ({
                let r = room_at(self.rooms@, room_id@);
                r.vs_computer && r.status == RoomStatus::Playing && r.game.to_move() != color
            })),
    {
        match self.find(room_id) {
            Some(i) => {
                let room = &self.rooms[i];
                room.vs_computer && room.status == RoomStatus::Playing && room.game.current_player() != color
            },
            None => false,
        }
    }

    /// Plays `mv` for `player` in the room at `i`; a refused move is told
    /// to `player` when `tell` holds.
    fn play_in_room(&mut self, i: usize, mv: &MovePayload, player: PlayerColor, tell: bool) -> (res: (Vec<Outgoing>, bool))
        requires
            old(self).wf(),
            i < old(self).rooms.len(),
            old(self).rooms@[i as int].game.can_move(),
        ensures
            final(self).wf(),
            exists|r1: Room|
                #[trigger] move_in_room(
                    old(self).rooms@[i as int],
                    *mv,
                    player,
                    r1,
                    res.0@,
                    tell,
                    res.1,
                ) && final(self).rooms@ == old(self).rooms@.update(i as int, r1),
    {
        let ghost rooms0 = self.rooms@;
        let ghost r0 = rooms0[i as int];
        let mut room = self.rooms.remove(i);
        let mut out: Vec<Outgoing> = Vec::new();
        let res = room.game.make_move(mv, &player);
        let ghost g1 = room.game;
        let mut goes_on = false;
        match res {
            Ok(()) => {
                out.push(Outgoing { to: Recipient::Both, message: ServerMessage::GameState });
                let game_status = room.game.status();
                if game_status != GameStatus::Playing {
                    room.status = RoomStatus::Finished;
                    out.push(Outgoing { to: Recipient::Both, message: ServerMessage::GameOver(game_status) });
                } else {
                    goes_on = true;
                }
                proof {
                    assert(room == with_game(r0, g1));
                    assert(out@ =~= after_move_messages(g1));
                }
            },
            Err(e) => {
                if tell {
                    out.push(Outgoing { to: Recipient::Only(player), message: ServerMessage::Error(Notice::Move(e)) });
                }
                proof {
                    refused_move_keeps_game(r0.game, g1, *mv, player, e);
                    assert(room == r0);
                }
            },
        }
        let ghost r1 = room;
        self.rooms.insert(i, room);
        proof {
            assert(self.rooms@ =~= rooms0.update(i as int, r1));
            assert(move_in_room(r0, *mv, player, r1, out@, tell, goes_on));
            assert forall|a: int, b: int| 0 <= a < b < self.rooms.len() implies (#[trigger] self.rooms@[a]).id@
                != (#[trigger] self.rooms@[b]).id@ by {
                assert(rooms0[a].id@ != rooms0[b].id@);
            }
            assert(rooms0[i as int] == r0);
        }
        let res = (out, goes_on);
        assert(move_in_room(rooms0[i as int], *mv, player, r1, res.0@, tell, res.1));
        assert(self.rooms@ == rooms0.update(i as int, r1));
        res
    }
}

/// The error message `n` to `color`, when the room exists.
pub open spec fn told(rooms: Seq<Room>, id: Seq<char>, color: PlayerColor, n: Notice) -> Seq<Outgoing> {
    if has_room(rooms, id) {
        seq![send(Recipient::Only(color), ServerMessage::Error(n))]
    } else {
        Seq::empty()
    }
}

/// What a message `msg` from `color` in room `id` does: `after` are the
/// rooms after it, `out` the messages to send, and `ai` says whether the
/// computer is to move next.
pub open spec fn message_handled(
    rooms: Seq<Room>,
    id: Seq<char>,
    color: PlayerColor,
    msg: ClientMessage,
    after: Seq<Room>,
    out: Seq<Outgoing>,
    ai: bool,
) -> bool {
    match msg {
        ClientMessage::InvalidJson => after == rooms && !ai && out == told(rooms, id, color, Notice::InvalidJson),
        ClientMessage::MissingType => after == rooms && !ai && out == told(rooms, id, color, Notice::MissingType),
        ClientMessage::Unknown => after == rooms && !ai && out == told(rooms, id, color, Notice::UnknownType),
        ClientMessage::Ping => after == rooms && !ai && out == (if has_room(rooms, id) {
            seq![send(Recipient::Only(color), ServerMessage::Pong)]
        } else {
            Seq::empty()
        }),
        ClientMessage::Chat(None) => after == rooms && !ai && out.len() == 0,
        ClientMessage::Chat(Some(t)) => after == rooms && !ai && if has_room(rooms, id) {
            &&& out.len() == 1
            &&& out[0].to == Recipient::Both
            &&& out[0].message matches ServerMessage::Chat(c, line) && c == color && line@ == t@.take(chat_cut(t@))
        } else {
            out.len() == 0
        },
        ClientMessage::Resign => !ai && if has_room(rooms, id) {
            let i = index_of(rooms, id);
            &&& after == rooms.update(i, Room { status: RoomStatus::Finished, ..rooms[i] })
            &&& out == seq![send(Recipient::Both, ServerMessage::Resigned(other_player(color)))]
        } else {
            after == rooms && out.len() == 0
        },
        ClientMessage::MakeMove(mv) => if !has_room(rooms, id) {
            after == rooms && out.len() == 0 && !ai
        } else {
            let i = index_of(rooms, id);
            let r0 = rooms[i];
            if r0.status != RoomStatus::Playing {
                after == rooms && !ai && out == seq![
                    send(Recipient::Only(color), ServerMessage::Error(Notice::NotInProgress)),
                ]
            } else if !r0.game.can_move() {
                after == rooms && !ai && out == seq![send(Recipient::Only(color), ServerMessage::Error(Notice::MoveLimit))]
            } else {
                exists|r1: Room, goes_on: bool|
                    #[trigger] move_in_room(r0, mv, color, r1, out, true, goes_on) && after == rooms.update(i, r1) && ai
                        == (goes_on && r0.vs_computer && r1.game.to_move() != color)
            }
        },
    }
}

/// The strength of the computer in a room: the one chosen, else normal.
pub open spec fn room_difficulty(r: Room) -> AiDifficulty {
    match r.ai_difficulty {
        Some(d) => d,
        None => AiDifficulty::Normal,
    }
}

impl AppState {
    /// The error message `n` to `color`, when the room exists.
    fn notice(&self, room_id: &str, color: PlayerColor, n: Notice) -> (out: Vec<Outgoing>)
        requires
            self.wf(),
        ensures
            out@ == told(self.rooms@, room_id@, color, n),
    {
        let mut out: Vec<Outgoing> = Vec::new();
        if self.find(room_id).is_some() {
            out.push(Outgoing { to: Recipient::Only(color), message: ServerMessage::Error(n) });
        }
        out
    }

    /// What a message from `color` in room `room_id` does. Returns the
    /// messages to send and whether the computer is to move next.
    pub fn handle_message(&mut self, room_id: &str, color: PlayerColor, msg: ClientMessage) -> (res: (Vec<Outgoing>, bool))
        requires
            old(self).wf(),
        ensures
            final(self).wf(),
            message_handled(old(self).rooms@, room_id@, color, msg, final(self).rooms@, res.0@, res.1),
    {
        match msg {
            ClientMessage::InvalidJson => (self.notice(room_id, color, Notice::InvalidJson), false),
            ClientMessage::MissingType => (self.notice(room_id, color, Notice::MissingType), false),
            ClientMessage::Unknown => (self.notice(room_id, color, Notice::UnknownType), false),
            ClientMessage::Ping => {
                let mut out: Vec<Outgoing> = Vec::new();
                if self.find(room_id).is_some() {
                    out.push(Outgoing { to: Recipient::Only(color), message: ServerMessage::Pong });
                }
                (out, false)
            },
            ClientMessage::Chat(text) => {
                let mut out: Vec<Outgoing> = Vec::new();
                match text {
                    Some(t) => {
                        let line = chat_line(&t);
                        if self.find(room_id).is_some() {
                            out.push(Outgoing { to: Recipient::Both, message: ServerMessage::Chat(color, line) });
                        }
                    },
                    None => {},
                }
                (out, false)
            },
            ClientMessage::Resign => {
                let mut out: Vec<Outgoing> = Vec::new();
                match self.find(room_id) {
                    Some(i) => {
                        let ghost rooms0 = self.rooms@;
                        let mut room = self.rooms.remove(i);
                        room.status = RoomStatus::Finished;
                        self.rooms.insert(i, room);
                        proof {
                            assert(self.rooms@ =~= rooms0.update(
                                i as int,
                                Room { status: RoomStatus::Finished, ..rooms0[i as int] },
                            ));
                            assert forall|a: int, b: int| 0 <= a < b < self.rooms.len() implies (#[trigger] self.rooms@[a]).id@
                                != (#[trigger] self.rooms@[b]).id@ by {
                                assert(rooms0[a].id@ != rooms0[b].id@);
                            }
                        }
                        out.push(Outgoing { to: Recipient::Both, message: ServerMessage::Resigned(color.opposite()) });
                    },
                    None => {},
                }
                (out, false)
            },
            ClientMessage::MakeMove(mv) => {
                let i = match self.find(room_id) {
                    Some(i) => i,
                    None => return (Vec::new(), false),
                };
                if self.rooms[i].status != RoomStatus::Playing {
                    let mut out: Vec<Outgoing> = Vec::new();
                    out.push(Outgoing { to: Recipient::Only(color), message: ServerMessage::Error(Notice::NotInProgress) });
                    return (out, false);
                }
                if !self.rooms[i].game.within_limits() {
                    let mut out: Vec<Outgoing> = Vec::new();
                    out.push(Outgoing { to: Recipient::Only(color), message: ServerMessage::Error(Notice::MoveLimit) });
                    return (out, false);
                }
                let vs = self.rooms[i].vs_computer;
                let (out, goes_on) = self.play_in_room(i, &mv, color, true);
                let next = self.rooms[i].game.current_player();
                (out, goes_on && vs && next != color)
            },
        }
    }

    /// The computer's move in room `room_id`, with the side it plays: asked
    /// of the game at the room's strength when the room is against the
    /// computer, in progress, the computer's side is to move, and the
    /// computer player can be asked.
    pub fn ai_turn(&self, room_id: &str) -> (res: Option<(MovePayload, PlayerColor)>)
        requires
            self.wf(),
        ensures
            ({
                let r = room_at(self.rooms@, room_id@);
                if has_room(self.rooms@, room_id@) && r.vs_computer && r.status == RoomStatus::Playing
                    && computer_side(r) == Some(r.game.to_move()) && r.game.ai_can_move() {
                    match res {
                        Some((mv, c)) => c == r.game.to_move() && game_ai_choice(r.game, room_difficulty(r), Some(mv)),
                        None => game_ai_choice(r.game, room_difficulty(r), None),
                    }
                } else {
                    res is None
                }
            }),
    {
        let i = match self.find(room_id) {
            Some(i) => i,
            None => return None,
        };
        let room = &self.rooms[i];
        if !(room.vs_computer && room.status == RoomStatus::Playing) {
            return None;
        }
        let to_move = room.game.current_player();
        match room.computer_color() {
            Some(c) => {
                if c != to_move {
                    return None;
                }
            },
            None => return None,
        }
        if !room.game.ai_ready() {
            return None;
        }
        let difficulty = match room.ai_difficulty {
            Some(d) => d,
            None => AiDifficulty::Normal,
        };
        let ai_color = room.game.current_player();
        match room.game.get_ai_move(difficulty) {
            Some(mv) => Some((mv, ai_color)),
            None => None,
        }
    }

    /// Plays the computer's move `mv` for `color` in room `room_id`, when the
    /// game there is still in progress and `color` is the computer's side; a
    /// refused move is dropped. Also says whether the computer is still to
    /// move (in the middle of a multi-jump), so that it is asked again.
    pub fn apply_ai_move(&mut self, room_id: &str, mv: &MovePayload, color: PlayerColor) -> (res: (Vec<Outgoing>, bool))
        requires
            old(self).wf(),
        ensures
            final(self).wf(),
            ({
                let rooms = old(self).rooms@;
                let i = index_of(rooms, room_id@);
                if has_room(rooms, room_id@) && rooms[i].status == RoomStatus::Playing && computer_side(rooms[i])
                    == Some(color) && rooms[i].game.can_move() {
                    exists|r1: Room, goes_on: bool|
                        #[trigger] move_in_room(rooms[i], *mv, color, r1, res.0@, false, goes_on) && final(self).rooms@
                            == rooms.update(i, r1) && res.1 == (goes_on && r1.game.to_move() == color)
                } else {
                    final(self).rooms@ == rooms && res.0@.len() == 0 && !res.1
                }
            }),
    {
        let i = match self.find(room_id) {
            Some(i) => i,
            None => return (Vec::new(), false),
        };
        if self.rooms[i].status != RoomStatus::Playing || !self.rooms[i].game.within_limits() {
            return (Vec::new(), false);
        }
        match self.rooms[i].computer_color() {
            Some(c) => {
                if c != color {
                    return (Vec::new(), false);
                }
            },
            None => return (Vec::new(), false),
        }
        let ghost rooms0 = self.rooms@;
        let (out, goes_on) = self.play_in_room(i, mv, color, false);
        let next = self.rooms[i].game.current_player();
        proof {
            let rx = choose|rx: Room|
                #[trigger] move_in_room(rooms0[i as int], *mv, color, rx, out@, false, goes_on) && self.rooms@
                    == rooms0.update(i as int, rx);
            assert(self.rooms@[i as int] == rx);
        }
        let res = (out, goes_on && next == color);
        assert(move_in_room(rooms0[i as int], *mv, color, self.rooms@[i as int], res.0@, false, goes_on));
        assert(self.rooms@ == rooms0.update(i as int, self.rooms@[i as int]));
        res
    }

    /// What happens when the connection of `color` to room `room_id` closes;
    /// `other_connected` says whether the other seat still has a live
    /// connection. The room goes, without a message, when this was the last
    /// connection of a game between two people whose seats are both taken.
    /// Otherwise the room stays as it is, for its players to come back, and
    /// the other seat hears of the departure.
    pub fn leave(&mut self, room_id: &str, color: PlayerColor, other_connected: bool) -> (out: Vec<Outgoing>)
        requires
            old(self).wf(),
        ensures
            final(self).wf(),
            !has_room(old(self).rooms@, room_id@) ==> final(self).rooms@ == old(self).rooms@ && out@.len() == 0,
            has_room(old(self).rooms@, room_id@) && !room_empties(room_at(old(self).rooms@, room_id@), other_connected)
                ==> final(self).rooms@ == old(self).rooms@ && out@ == seq![
                send(Recipient::Both, ServerMessage::OpponentDisconnected(color)),
            ],
            has_room(old(self).rooms@, room_id@) && room_empties(room_at(old(self).rooms@, room_id@), other_connected)
                ==> final(self).rooms@ == old(self).rooms@.remove(index_of(old(self).rooms@, room_id@)) && out@.len()
                == 0 && !has_room(final(self).rooms@, room_id@),
    {
        let mut out: Vec<Outgoing> = Vec::new();
        let i = match self.find(room_id) {
            Some(i) => i,
            None => return out,
        };
        let r = &self.rooms[i];
        let empties = !other_connected && !r.vs_computer && r.white_player_id.is_some() && r.black_player_id.is_some();
        if !empties {
            out.push(Outgoing { to: Recipient::Both, message: ServerMessage::OpponentDisconnected(color) });
        } else {
            let ghost rooms0 = self.rooms@;
            let _gone = self.rooms.remove(i);
            proof {
                assert forall|a: int, b: int| 0 <= a < b < self.rooms.len() implies (#[trigger] self.rooms@[a]).id@
                    != (#[trigger] self.rooms@[b]).id@ by {
                    let a0 = if a < i { a } else { a + 1 };
                    let b0 = if b < i { b } else { b + 1 };
                    assert(self.rooms@[a] == rooms0[a0]);
                    assert(self.rooms@[b] == rooms0[b0]);
                    assert(rooms0[a0].id@ != rooms0[b0].id@);
                }
                assert forall|k: int| 0 <= k < self.rooms.len() implies (#[trigger] self.rooms@[k]).id@ != room_id@ by {
                    let k0 = if k < i { k } else { k + 1 };
                    assert(self.rooms@[k] == rooms0[k0]);
                    assert(rooms0[k0].id@ != rooms0[i as int].id@);
                }
            }
        }
        out
    }
}

/// The chat line kept from `text`: its first 500 characters.
fn chat_line(text: &String) -> (line: String)
    ensures
        line@ == text@.take(chat_cut(text@)),
{
    let s = text.as_str();
    let n = s.unicode_len();
    let cut = if n < 500 { n } else { 500 };
    let head = s.substring_char(0, cut);
    let line = head.to_owned();
    assert(line@ =~= text@.take(chat_cut(text@)));
    line
}

/// A room whose game is not in progress takes no move: the rooms stay as
/// they were and the computer is not asked to play.
pub proof fn finished_rooms_take_no_moves(
    rooms: Seq<Room>,
    id: Seq<char>,
    color: PlayerColor,
    mv: MovePayload,
    after: Seq<Room>,
    out: Seq<Outgoing>,
    ai: bool,
)
    requires
        message_handled(rooms, id, color, ClientMessage::MakeMove(mv), after, out, ai),
        has_room(rooms, id) ==> room_at(rooms, id).status != RoomStatus::Playing,
    ensures
        after == rooms,
        !ai,
{
}

/// A chat line that is passed on holds at most 500 characters.
pub proof fn chat_lines_are_short(
    rooms: Seq<Room>,
    id: Seq<char>,
    color: PlayerColor,
    text: String,
    after: Seq<Room>,
    out: Seq<Outgoing>,
    ai: bool,
)
    requires
        message_handled(rooms, id, color, ClientMessage::Chat(Some(text)), after, out, ai),
    ensures
        forall|k: int|
            0 <= k < out.len() ==> ((#[trigger] out[k]).message matches ServerMessage::Chat(_, line) && line@.len()
                <= 500),
{
    if has_room(rooms, id) {
        assert forall|k: int| 0 <= k < out.len() implies ((#[trigger] out[k]).message matches ServerMessage::Chat(_, line)
            && line@.len() <= 500) by {
            assert(k == 0);
        }
    }
}

/// Resigning hands the game to the other side, and the room is finished.
pub proof fn resigning_hands_the_win(
    rooms: Seq<Room>,
    id: Seq<char>,
    color: PlayerColor,
    after: Seq<Room>,
    out: Seq<Outgoing>,
    ai: bool,
)
    requires
        message_handled(rooms, id, color, ClientMessage::Resign, after, out, ai),
        has_room(rooms, id),
    ensures
        out == seq![send(Recipient::Both, ServerMessage::Resigned(other_player(color)))],
        after[index_of(rooms, id)].status == RoomStatus::Finished,
        !ai,
{
}

} // verus!
