//! Rooms where two players, or a player and the computer, meet over a game,
//! and the set of rooms that the server keeps.

use vstd::prelude::*;
use vstd::string::*;
use vstd::utf8::encode_utf8;
use std::time::{Duration, SystemTime, SystemTimeError};
use crate::games::{
    AiDifficulty, Game, GameStatus, GameType, PlayerColor, create_game, difficulty_named, game_type_named,
    text_equals,
};

verus! {

#[derive(Debug, Clone, Copy, PartialEq, Eq, Structural)]
pub enum RoomStatus {
    /// Waiting for a second player.
    Waiting,
    /// The game is in progress.
    Playing,
    /// The game is over.
    Finished,
}

/// What the lobby shows of a room.
pub struct RoomInfo {
    pub id: String,
    /// The protocol name of the game ("chess", "checkers", "go", "gomoku").
    pub game_type: String,
    pub status: RoomStatus,
    pub white_player: Option<String>,
    pub black_player: Option<String>,
    /// Seconds since the Unix epoch when the room was made.
    pub created_at: u64,
}

pub open spec fn opt_text(o: Option<String>) -> Option<Seq<char>> {
    match o {
        Some(s) => Some(s@),
        None => None,
    }
}

/// A room of the server. The channels to the players' connections are kept
/// beside it by the server.
#[derive(Clone)]
pub struct Room {
    pub id: String,
    pub game_type: GameType,
    pub game: Game,
    pub white_player_id: Option<String>,
    pub black_player_id: Option<String>,
    pub status: RoomStatus,
    pub created_at: u64,
    pub vs_computer: bool,
    pub ai_difficulty: Option<AiDifficulty>,
}

/// `info` describes `room`.
pub open spec fn describes(info: RoomInfo, room: Room) -> bool {
    &&& info.id@ == room.id@
    &&& game_type_named(info.game_type@) == Some(room.game_type)
    &&& info.status == room.status
    &&& opt_text(info.white_player) == opt_text(room.white_player_id)
    &&& opt_text(info.black_player) == opt_text(room.black_player_id)
    &&& info.created_at == room.created_at
}

/// A room just made: no players yet, and a new game of its kind.
pub open spec fn fresh_room(r: Room, id: Seq<char>, t: GameType, vs_computer: bool, d: Option<AiDifficulty>) -> bool {
    &&& r.id@ == id
    &&& r.game_type == t
    &&& r.game.kind() == t
    &&& r.game.wf()
    &&& r.game.can_move()
    &&& r.game.state_status() == GameStatus::Playing
    &&& r.white_player_id is None
    &&& r.black_player_id is None
    &&& r.status == RoomStatus::Waiting
    &&& r.vs_computer == vs_computer
    &&& r.ai_difficulty == d
}

/// The seat of `player` in the room, if it has one.
pub open spec fn seat_of(r: Room, player: Seq<char>) -> Option<PlayerColor> {
    if opt_text(r.white_player_id) == Some(player) {
        Some(PlayerColor::White)
    } else if opt_text(r.black_player_id) == Some(player) {
        Some(PlayerColor::Black)
    } else {
        None
    }
}

/// The side the computer plays in a room against it: the seat the one
/// human player left free.
pub open spec fn computer_side(r: Room) -> Option<PlayerColor> {
    if !r.vs_computer {
        None
    } else if r.white_player_id is Some && r.black_player_id is None {
        Some(PlayerColor::Black)
    } else if r.black_player_id is Some && r.white_player_id is None {
        Some(PlayerColor::White)
    } else {
        None
    }
}

/// The first player to join takes White when the first byte of the room's
/// id is even (or the id is empty), else Black.
pub open spec fn white_first(id: Seq<char>) -> bool {
    let bytes = encode_utf8(id);
    bytes.len() == 0 || bytes[0] % 2 == 0
}

/// A room with `player` seated as `color`.
pub open spec fn seated(r: Room, color: PlayerColor, player: String, status: RoomStatus) -> Room {
    match color {
        PlayerColor::White => Room { white_player_id: Some(player), status, ..r },
        PlayerColor::Black => Room { black_player_id: Some(player), status, ..r },
    }
}

/// What `add_player` does: `r0` becomes `r1` when `player_id` asks to
/// join, and `c` is the seat it gets.
pub open spec fn joined(r0: Room, player_id: String, r1: Room, c: Option<PlayerColor>) -> bool {
    let white_free = r0.white_player_id is None;
    let black_free = r0.black_player_id is None;
    if white_free && black_free {
        let color = if white_first(r0.id@) {
            PlayerColor::White
        } else {
            PlayerColor::Black
        };
        let status = if r0.vs_computer {
            RoomStatus::Playing
        } else {
            r0.status
        };
        c == Some(color) && r1 == seated(r0, color, player_id, status)
    } else if white_free && !r0.vs_computer {
        c == Some(PlayerColor::White) && r1 == seated(r0, PlayerColor::White, player_id, RoomStatus::Playing)
    } else if black_free && !r0.vs_computer {
        c == Some(PlayerColor::Black) && r1 == seated(r0, PlayerColor::Black, player_id, RoomStatus::Playing)
    } else {
        c is None && r1 == r0
    }
}

#[verifier::external_type_specification]
#[verifier::external_body]
pub struct ExSystemTime(std::time::SystemTime);

#[verifier::external_type_specification]
#[verifier::external_body]
pub struct ExSystemTimeError(std::time::SystemTimeError);

/// The system clock's time now, by `std::time::SystemTime::now`. Nothing is
/// promised of it.
#[verifier::external_body]
fn clock_now() -> (t: SystemTime) {
    SystemTime::now()
}

/// The time from the Unix epoch to `t`, by `SystemTime::duration_since`
/// with `std::time::UNIX_EPOCH`; an error when `t` is before the epoch.
/// Nothing is promised of the value.
#[verifier::external_body]
fn since_epoch(t: &SystemTime) -> (d: Result<Duration, SystemTimeError>) {
    t.duration_since(std::time::UNIX_EPOCH)
}

/// The whole seconds of `d`, by `Duration::as_secs`. `Duration` is opaque
/// here, so nothing is promised of the number.
#[verifier::external_body]
fn whole_secs(d: &Duration) -> (s: u64) {
    d.as_secs()
}

/// Seconds since the Unix epoch by the system clock; zero when the clock is
/// set before the epoch.
fn now_secs() -> (t: u64) {
    match since_epoch(&clock_now()) {
        Ok(d) => whole_secs(&d),
        Err(_) => 0,
    }
}

pub open spec fn is_lower_hex(c: char) -> bool {
    ('0' <= c <= '9') || ('a' <= c <= 'f')
}

/// A fresh random identifier, `uuid::Uuid::new_v4()` in its text form:
/// the crate's `Display` writes it hyphenated, as 32 lowercase hexadecimal
/// digits in groups of 8, 4, 4, 4 and 12 joined by `-`. Which digits come
/// out is up to the random source.
#[verifier::external_body]
fn random_uuid_text() -> (s: String)
    ensures
        s@.len() == 36,
        forall|i: int|
            0 <= i < 36 ==> if i == 8 || i == 13 || i == 18 || i == 23 {
                #[trigger] s@[i] == '-'
            } else {
                is_lower_hex(s@[i])
            },
{
    uuid::Uuid::new_v4().to_string()
}

/// An identifier for a room: the first eight digits of a random UUID.
pub fn new_room_id() -> (id: String)
    ensures
        id@.len() == 8,
        forall|i: int| 0 <= i < 8 ==> is_lower_hex(#[trigger] id@[i]),
{
    let u = random_uuid_text();
    let text = u.as_str();
    proof {
        assert forall|i: int| 0 <= i < text@.len() implies '\0' <= #[trigger] text@[i] <= '\u{7f}' by {
            assert(i == 8 || i == 13 || i == 18 || i == 23 || is_lower_hex(text@[i]));
        }
        assert(text.is_ascii());
    }
    let head = text.substring_ascii(0, 8);
    let id = head.to_owned();
    proof {
        assert forall|i: int| 0 <= i < 8 implies is_lower_hex(#[trigger] id@[i]) by {
            assert(id@[i] == u@[i]);
        }
    }
    id
}

impl Room {
    /// A new room with a fresh game, stamped with the current time.
    pub fn new(id: String, game_type: GameType) -> (r: Room)
        ensures
            fresh_room(r, id@, game_type, false, None),
    {
        let now = now_secs();
        Room::new_at(id, game_type, now)
    }

    /// A new room with a fresh game, made at `created_at`.
    pub fn new_at(id: String, game_type: GameType, created_at: u64) -> (r: Room)
        ensures
            fresh_room(r, id@, game_type, false, None),
            r.created_at == created_at,
    {
        let game = create_game(&game_type);
        Room {
            id,
            game_type,
            game,
            white_player_id: None,
            black_player_id: None,
            status: RoomStatus::Waiting,
            created_at,
            vs_computer: false,
            ai_difficulty: None,
        }
    }

    /// A new room where the computer plays the second side.
    pub fn new_vs_computer(id: String, game_type: GameType, difficulty: AiDifficulty) -> (r: Room)
        ensures
            fresh_room(r, id@, game_type, true, Some(difficulty)),
    {
        let mut room = Room::new(id, game_type);
        room.vs_computer = true;
        room.ai_difficulty = Some(difficulty);
        room
    }

    /// What the lobby shows of the room.
    pub fn to_info(&self) -> (info: RoomInfo)
        ensures
            describes(info, *self),
    {
        RoomInfo {
            id: self.id.clone(),
            game_type: self.game_type.protocol_name().to_owned(),
            status: self.status,
            white_player: copy_text(&self.white_player_id),
            black_player: copy_text(&self.black_player_id),
            created_at: self.created_at,
        }
    }

    /// The seat of `player_id`, if the player has one.
    pub fn player_color(&self, player_id: &str) -> (c: Option<PlayerColor>)
        ensures
            c == seat_of(*self, player_id@),
    {
        let is_white = match &self.white_player_id {
            Some(w) => text_equals(w.as_str(), player_id),
            None => false,
        };
        if is_white {
            return Some(PlayerColor::White);
        }
        let is_black = match &self.black_player_id {
            Some(b) => text_equals(b.as_str(), player_id),
            None => false,
        };
        if is_black {
            Some(PlayerColor::Black)
        } else {
            None
        }
    }

    /// Seats a new player: the first one by the room's id, the second in
    /// the free seat (not in a room against the computer). A room against
    /// the computer starts with its player; a room for two with its second.
    /// Returns the seat, or `None` when there is no place.
    pub fn add_player(&mut self, player_id: String) -> (c: Option<PlayerColor>)
        ensures
            joined(*old(self), player_id, *final(self), c),
    {
        let white_free = self.white_player_id.is_none();
        let black_free = self.black_player_id.is_none();
        if white_free && black_free {
            let bytes = self.id.as_str().as_bytes();
            let is_white = if bytes.len() > 0 { bytes[0] % 2 == 0 } else { true };
            if is_white {
                self.white_player_id = Some(player_id);
                if self.vs_computer {
                    self.status = RoomStatus::Playing;
                }
                Some(PlayerColor::White)
            } else {
                self.black_player_id = Some(player_id);
                if self.vs_computer {
                    self.status = RoomStatus::Playing;
                }
                Some(PlayerColor::Black)
            }
        } else if white_free && !self.vs_computer {
            self.white_player_id = Some(player_id);
            self.status = RoomStatus::Playing;
            Some(PlayerColor::White)
        } else if black_free && !self.vs_computer {
            self.black_player_id = Some(player_id);
            self.status = RoomStatus::Playing;
            Some(PlayerColor::Black)
        } else {
            None
        }
    }

    /// The side the computer plays, once its human opponent is seated.
    pub fn computer_color(&self) -> (c: Option<PlayerColor>)
        ensures
            c == computer_side(*self),
    {
        if !self.vs_computer {
            None
        } else if self.white_player_id.is_some() && self.black_player_id.is_none() {
            Some(PlayerColor::Black)
        } else if self.black_player_id.is_some() && self.white_player_id.is_none() {
            Some(PlayerColor::White)
        } else {
            None
        }
    }

    /// The protocol name of the computer's strength, if the computer plays.
    pub fn difficulty_str(&self) -> (s: Option<&'static str>)
        ensures
            match self.ai_difficulty {
                Some(d) => s matches Some(t) && difficulty_named(t@) == Some(d),
                None => s is None,
            },
    {
        match self.ai_difficulty {
            Some(d) => Some(d.name()),
            None => None,
        }
    }
}

fn copy_text(o: &Option<String>) -> (r: Option<String>)
    ensures
        opt_text(r) == opt_text(*o),
{
    match o {
        Some(s) => Some(s.clone()),
        None => None,
    }
}

/// The rooms in `rooms` that the lobby lists: those for two players that
/// are not finished.
pub open spec fn open_rooms(rooms: Seq<Room>) -> Seq<Room>
    decreases rooms.len(),
{
    if rooms.len() == 0 {
        Seq::empty()
    } else {
        let prev = open_rooms(rooms.drop_last());
        let r = rooms.last();
        if r.status != RoomStatus::Finished && !r.vs_computer {
            prev.push(r)
        } else {
            prev
        }
    }
}

/// The index of the room with id `id`.
pub open spec fn index_of(rooms: Seq<Room>, id: Seq<char>) -> int {
    choose|i: int| 0 <= i < rooms.len() && rooms[i].id@ == id
}

pub open spec fn has_room(rooms: Seq<Room>, id: Seq<char>) -> bool {
    exists|i: int| 0 <= i < rooms.len() && #[trigger] rooms[i].id@ == id
}

/// The rooms after `room` is put in: it replaces the room with its id, if
/// there is one, and is added at the end otherwise.
pub open spec fn put_room(rooms: Seq<Room>, room: Room) -> Seq<Room> {
    if has_room(rooms, room.id@) {
        rooms.update(index_of(rooms, room.id@), room)
    } else {
        rooms.push(room)
    }
}

/// All the rooms of the server.
pub struct AppState {
    pub rooms: Vec<Room>,
}

impl AppState {
    /// Every room's game is consistent, and no two rooms share an id.
    pub open spec fn wf(&self) -> bool {
        &&& forall|i: int| 0 <= i < self.rooms.len() ==> (#[trigger] self.rooms@[i]).game.wf()
        &&& forall|i: int, j: int|
            0 <= i < j < self.rooms.len() ==> (#[trigger] self.rooms@[i]).id@ != (#[trigger] self.rooms@[j]).id@
    }

    /// No rooms.
    pub fn new() -> (s: AppState)
        ensures
            s.wf(),
            s.rooms@.len() == 0,
    {
        AppState { rooms: Vec::new() }
    }

    /// Where the room with id `id` is, if there is one.
    pub fn find(&self, id: &str) -> (r: Option<usize>)
        requires
            self.wf(),
        ensures
            match r {
                Some(i) => i < self.rooms.len() && self.rooms@[i as int].id@ == id@ && has_room(self.rooms@, id@)
                    && index_of(self.rooms@, id@) == i,
                None => !has_room(self.rooms@, id@),
            },
    {
        let mut i: usize = 0;
        while i < self.rooms.len()
            invariant
                self.wf(),
                i <= self.rooms.len(),
                forall|k: int| 0 <= k < i ==> (#[trigger] self.rooms@[k]).id@ != id@,
            decreases self.rooms.len() - i,
        {
            if text_equals(self.rooms[i].id.as_str(), id) {
                proof {
                    assert(self.rooms@[i as int].id@ == id@);
                    let j = index_of(self.rooms@, id@);
                    assert(0 <= j < self.rooms.len() && self.rooms@[j].id@ == id@);
                    if j != i {
                        if j < i {
                            assert(self.rooms@[j].id@ != self.rooms@[i as int].id@);
                        } else {
                            assert(self.rooms@[i as int].id@ != self.rooms@[j].id@);
                        }
                    }
                }
                return Some(i);
            }
            i = i + 1;
        }
        None
    }

    /// Puts `room` in, in place of the room with its id if there is one.
    fn insert_room(&mut self, room: Room)
        requires
            old(self).wf(),
            room.game.wf(),
        ensures
            final(self).wf(),
            final(self).rooms@ == put_room(old(self).rooms@, room),
    {
        let ghost r0 = self.rooms@;
        match self.find(room.id.as_str()) {
            Some(i) => {
                self.rooms.set(i, room);
                proof {
                    assert(self.rooms@ == r0.update(i as int, room));
                }
            },
            None => {
                self.rooms.push(room);
                proof {
                    assert forall|i: int, j: int| 0 <= i < j < self.rooms.len() implies (#[trigger] self.rooms@[i]).id@
                        != (#[trigger] self.rooms@[j]).id@ by {
                        if j == self.rooms.len() - 1 {
                            assert(r0[i].id@ != room.id@);
                        }
                    }
                }
            },
        }
    }

    /// Makes a room for two players and returns its id.
    pub fn create_room(&mut self, game_type: GameType) -> (id: String)
        requires
            old(self).wf(),
        ensures
            final(self).wf(),
            id@.len() == 8,
            forall|i: int| 0 <= i < 8 ==> is_lower_hex(#[trigger] id@[i]),
            exists|room: Room| fresh_room(room, id@, game_type, false, None) && final(self).rooms@ == put_room(old(self).rooms@, room),
    {
        let id = new_room_id();
        let room = Room::new(id.clone(), game_type);
        let ghost r = room;
        self.insert_room(room);
        assert(fresh_room(r, id@, game_type, false, None));
        id
    }

    /// Makes a room against the computer and returns its id.
    pub fn create_room_vs_computer(&mut self, game_type: GameType, difficulty: AiDifficulty) -> (id: String)
        requires
            old(self).wf(),
        ensures
            final(self).wf(),
            id@.len() == 8,
            forall|i: int| 0 <= i < 8 ==> is_lower_hex(#[trigger] id@[i]),
            exists|room: Room|
                fresh_room(room, id@, game_type, true, Some(difficulty)) && final(self).rooms@ == put_room(old(self).rooms@, room),
    {
        let id = new_room_id();
        let room = Room::new_vs_computer(id.clone(), game_type, difficulty);
        let ghost r = room;
        self.insert_room(room);
        assert(fresh_room(r, id@, game_type, true, Some(difficulty)));
        id
    }

    /// The rooms for two players that are not finished, as the lobby shows
    /// them.
    pub fn list_rooms(&self) -> (res: Vec<RoomInfo>)
        ensures
            res.len() == open_rooms(self.rooms@).len(),
            forall|k: int| 0 <= k < res.len() ==> describes(#[trigger] res@[k], open_rooms(self.rooms@)[k]),
    {
        let mut res: Vec<RoomInfo> = Vec::new();
        let mut i: usize = 0;
        while i < self.rooms.len()
            invariant
                i <= self.rooms.len(),
                res.len() == open_rooms(self.rooms@.take(i as int)).len(),
                forall|k: int| 0 <= k < res.len() ==> describes(#[trigger] res@[k], open_rooms(self.rooms@.take(i as int))[k]),
            decreases self.rooms.len() - i,
        {
            let ghost before = res@;
            proof {
                assert(self.rooms@.take(i + 1).drop_last() =~= self.rooms@.take(i as int));
                assert(self.rooms@.take(i + 1).last() == self.rooms@[i as int]);
            }
            let room = &self.rooms[i];
            if room.status != RoomStatus::Finished && !room.vs_computer {
                res.push(room.to_info());
                proof {
                    let prev = open_rooms(self.rooms@.take(i as int));
                    let now = open_rooms(self.rooms@.take(i + 1));
                    assert(now == prev.push(self.rooms@[i as int]));
                    assert forall|k: int| 0 <= k < res.len() implies describes(#[trigger] res@[k], now[k]) by {
                        if k < before.len() {
                            assert(res@[k] == before[k]);
                            assert(now[k] == prev[k]);
                        }
                    }
                }
            }
            i = i + 1;
        }
        assert(self.rooms@.take(self.rooms.len() as int) =~= self.rooms@);
        res
    }

    /// What the lobby shows of the room with id `id`, if there is one.
    pub fn get_room_info(&self, id: &str) -> (res: Option<RoomInfo>)
        requires
            self.wf(),
        ensures
            match res {
                Some(info) => has_room(self.rooms@, id@) && describes(info, self.rooms@[index_of(self.rooms@, id@)]),
                None => !has_room(self.rooms@, id@),
            },
    {
        match self.find(id) {
            Some(i) => Some(self.rooms[i].to_info()),
            None => None,
        }
    }
}

/// Joining never takes a seat that someone holds: the seat given was free,
/// and a seated player keeps the seat.
pub proof fn seats_are_never_taken_over(r0: Room, p: String, r1: Room, c: Option<PlayerColor>)
    requires
        joined(r0, p, r1, c),
    ensures
        c == Some(PlayerColor::White) ==> r0.white_player_id is None,
        c == Some(PlayerColor::Black) ==> r0.black_player_id is None,
        r0.white_player_id is Some ==> r1.white_player_id == r0.white_player_id,
        r0.black_player_id is Some ==> r1.black_player_id == r0.black_player_id,
        c is None ==> r1 == r0,
{
}

/// A room holds at most two players: when both seats are taken, no one
/// else joins.
pub proof fn full_rooms_admit_no_one(r0: Room, p: String, r1: Room, c: Option<PlayerColor>)
    requires
        joined(r0, p, r1, c),
        r0.white_player_id is Some,
        r0.black_player_id is Some,
    ensures
        c is None,
        r1 == r0,
{
}

/// A room for two people starts its game when a player takes its last free
/// seat, whichever seat that is: both seats are then held and the room is
/// being played.
pub proof fn second_player_starts_the_game(r0: Room, p: String, r1: Room, c: Option<PlayerColor>)
    requires
        joined(r0, p, r1, c),
        !r0.vs_computer,
        c is Some,
        r1.white_player_id is Some,
        r1.black_player_id is Some,
    ensures
        r1.status == RoomStatus::Playing,
        r0.white_player_id is None || r0.black_player_id is None,
{
}

/// A room starts its game exactly when it gets all the players it needs:
/// a room for two people that still has a free seat after a player joins
/// keeps its status, and a room against the computer is played as soon as
/// its one player joins.
pub proof fn rooms_start_when_full(r0: Room, p: String, r1: Room, c: Option<PlayerColor>)
    requires
        joined(r0, p, r1, c),
        c is Some,
    ensures
        !r0.vs_computer && (r1.white_player_id is None || r1.black_player_id is None) ==> r1.status == r0.status,
        r0.vs_computer ==> r1.status == RoomStatus::Playing,
{
}

/// A room against the computer seats one player only.
pub proof fn computer_rooms_seat_one_player(r0: Room, p: String, r1: Room, c: Option<PlayerColor>)
    requires
        joined(r0, p, r1, c),
        r0.vs_computer,
        r0.white_player_id is Some || r0.black_player_id is Some,
    ensures
        c is None,
        r1 == r0,
{
}

/// The lobby lists only rooms for two players that are not finished, each
/// of them a room of the server.
pub proof fn listed_rooms_are_open(rooms: Seq<Room>)
    ensures
        forall|k: int|
            0 <= k < open_rooms(rooms).len() ==> (#[trigger] open_rooms(rooms)[k]).status != RoomStatus::Finished
                && !open_rooms(rooms)[k].vs_computer && rooms.contains(open_rooms(rooms)[k]),
    decreases rooms.len(),
{
    if rooms.len() > 0 {
        listed_rooms_are_open(rooms.drop_last());
        let prev = open_rooms(rooms.drop_last());
        let now = open_rooms(rooms);
        assert forall|k: int| 0 <= k < now.len() implies (#[trigger] now[k]).status != RoomStatus::Finished
            && !now[k].vs_computer && rooms.contains(now[k]) by {
            if k < prev.len() {
                assert(now[k] == prev[k]);
                let j = choose|j: int| 0 <= j < rooms.drop_last().len() && rooms.drop_last()[j] == prev[k];
                assert(rooms[j] == prev[k]);
            } else {
                assert(rooms[rooms.len() - 1] == now[k]);
            }
        }
    }
}

/// An open room for two players is listed.
pub proof fn open_rooms_are_listed(rooms: Seq<Room>, i: int)
    requires
        0 <= i < rooms.len(),
        rooms[i].status != RoomStatus::Finished,
        !rooms[i].vs_computer,
    ensures
        open_rooms(rooms).contains(rooms[i]),
    decreases rooms.len(),
{
    if i < rooms.len() - 1 {
        open_rooms_are_listed(rooms.drop_last(), i);
        assert(rooms.drop_last()[i] == rooms[i]);
        let prev = open_rooms(rooms.drop_last());
        let k = choose|k: int| 0 <= k < prev.len() && prev[k] == rooms[i];
        assert(open_rooms(rooms)[k] == prev[k]);
    } else {
        let now = open_rooms(rooms);
        assert(now[now.len() - 1] == rooms[i]);
    }
}

} // verus!
