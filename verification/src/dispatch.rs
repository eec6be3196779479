//! Message dispatch: routes a client's message to the room it concerns and
//! answers it. What is sent to other peers goes out on their own channels;
//! what is returned is for the sender only.

use vstd::prelude::*;
use crate::code::RoomCode;
use crate::config::{AppCatalog, AppRoomDefaults, is_registered_app};
use crate::validation::{hello_problem, utf8_len, validate_hello};
use crate::outside::{bytes_content, bytes_from_vec, bytes_is_empty};
use crate::pool::{decimal, describes, push_decimal};
use crate::protocol::{ClientMessage, RoomControl, ServerMessage};
use crate::registry::{broadcast_state_update_and_prune, AppRegistry};
use crate::room::{added, closed_set, extends, lemma_player_total_bound, offer, offered, pruned, removed_ids, told, PeerId, Room};
use crate::protocol::same_message;
use crate::registry::{begins_with_offers, cascade_announced};
use crate::control::{control_done, handle_room_control};
use crate::hello::{hello_done, handle_hello, opt_str, opt_string_chars, secret_refuses};

verus! {

broadcast use vstd::std_specs::hash::group_hash_axioms;

/// Per-connection state: the room the client is in.
#[derive(Debug)]
pub struct Session {
    pub app_key: String,
    pub room_code: RoomCode,
    pub peer_id: PeerId,
}

/// The reply is the single error message `text`.
pub open spec fn is_error_reply(out: Seq<ServerMessage>, text: Seq<char>) -> bool {
    &&& out.len() == 1
    &&& out[0] matches ServerMessage::Error { message } && message@ == text
}

/// The reason a move is rejected while too few players have joined.
pub open spec fn too_few_players_reason(min_players: u32) -> Seq<char> {
    "minimum "@ + decimal(min_players as nat) + " players required to start"@
}

/// The room a session points at, if it still exists.
pub open spec fn session_room(registry: AppRegistry, s: Session) -> Option<Room> {
    if registry.has_room(s.app_key@, s.room_code.key()) {
        Some(registry.room_of(s.app_key@, s.room_code.key()))
    } else {
        None
    }
}

/// `after` is `before` with a new game state `blob`, nothing else changed.
pub open spec fn state_set(before: Room, after: Room, blob: Seq<u8>) -> bool {
    &&& bytes_content(after.state) == blob
    &&& after.clients == before.clients
    &&& after.pending == before.pending
    &&& after.host_peer_id == before.host_peer_id
    &&& after.settings == before.settings
    &&& after.banned == before.banned
    &&& after.code == before.code
    &&& after.app_key == before.app_key
    &&& after.next_peer_id == before.next_peer_id
    &&& after.sent == before.sent
}

/// `fin` is `mid` once its state was relayed: StateUpdate with the state
/// handed to every accepted and pending peer of `mid`; exactly the peers
/// whose channels reported closed are removed, and their leaving announced.
pub open spec fn state_relayed(mid: Room, fin: Room) -> bool {
    &&& pruned(mid, fin)
    &&& extends(mid.sent@, fin.sent@)
    &&& begins_with_offers(added(mid.sent@, fin.sent@), mid.clients@.dom() + mid.pending@.dom(),
        |x: ServerMessage| same_message(ServerMessage::StateUpdate(mid.state), x))
    &&& cascade_announced(mid, fin, added(mid.sent@, fin.sent@))
    &&& removed_ids(mid, fin) == closed_set(added(mid.sent@, fin.sent@))
}

/// What answering a move does: `out` is the reply, `after` the registry.
pub open spec fn move_done(before: AppRegistry, after: AppRegistry, session: Option<Session>, blob: Seq<u8>, out: Seq<ServerMessage>) -> bool {
    match session {
        None => is_error_reply(out, "not in a room"@) && after == before,
        Some(s) => match session_room(before, s) {
            None => out.len() == 0 && after == before,
            Some(room) => if room.host_peer_id != s.peer_id {
                &&& out.len() == 1
                &&& out[0] matches ServerMessage::MoveRejected { reason } && reason@ == "only host can send moves"@
                &&& after == before
            } else if room.settings.min_players > 0 && room.clients@.len() < room.settings.min_players {
                &&& out.len() == 1
                &&& out[0] matches ServerMessage::MoveRejected { reason } && reason@ == too_few_players_reason(room.settings.min_players)
                &&& after == before
            } else {
                &&& out.len() == 1
                &&& out[0] is MoveAccepted
                &&& exists|mid: Room, fin: Room| #[trigger] state_set(room, mid, blob) && #[trigger] state_relayed(mid, fin)
                    && before.with_room(after, s.app_key@, s.room_code.key(), fin)
            },
        },
    }
}

/// Answers Move: the host's new game state is stored and sent to everyone in
/// the room, once enough players have been accepted.
pub fn handle_move(registry: &mut AppRegistry, session: &Option<Session>, blob: Vec<u8>) -> (out: Vec<ServerMessage>)
    requires
        old(registry).wf(),
    ensures
        final(registry).wf(),
        move_done(*old(registry), *final(registry), *session, blob@, out@),
{
    let mut to_send: Vec<ServerMessage> = Vec::new();
    let s = match session {
        Some(s) => s,
        None => {
            to_send.push(ServerMessage::Error { message: "not in a room".to_owned() });
            return to_send;
        },
    };
    let (i, j) = match registry.locate(s.app_key.as_str(), &s.room_code) {
        Some(loc) => loc,
        None => return to_send,
    };
    let ghost app = s.app_key@;
    let ghost key = s.room_code.key();
    let ghost room0 = registry.room_of(app, key);
    assert(room0 == registry.pools@[i as int].rooms@[j as int]);
    assert(room0.wf());
    if registry.pools[i].rooms[j].host_peer_id != s.peer_id {
        to_send.push(ServerMessage::MoveRejected { reason: "only host can send moves".to_owned() });
        return to_send;
    }
    let min_players = registry.pools[i].rooms[j].settings.min_players;
    proof {
        lemma_player_total_bound(room0.clients@, room0.pending@);
    }
    let accepted_count = registry.pools[i].rooms[j].clients.len() as u32;
    if min_players > 0 && accepted_count < min_players {
        let mut reason = "minimum ".to_owned();
        push_decimal(&mut reason, min_players as u64);
        reason.append(" players required to start");
        to_send.push(ServerMessage::MoveRejected { reason });
        return to_send;
    }
    let ghost blob_view = blob@;
    let room = &mut registry.pools[i].rooms[j];
    room.state = bytes_from_vec(blob);
    let ghost mid = *room;
    broadcast_state_update_and_prune(room);
    let ghost fin = *room;
    proof {
        assert(state_set(room0, mid, blob_view));
        assert(state_relayed(mid, fin));
        assert(old(registry).with_room(*registry, app, key, fin));
        old(registry).lemma_with_room(*registry, app, key, fin);
    }
    to_send.push(ServerMessage::MoveAccepted);
    to_send
}

/// What answering RequestState returns: the room's state, if it has one.
pub open spec fn state_reply(before: AppRegistry, session: Option<Session>, out: Seq<ServerMessage>) -> bool {
    match session {
        None => out.len() == 0,
        Some(s) => match session_room(before, s) {
            None => out.len() == 0,
            Some(room) => if bytes_content(room.state).len() == 0 {
                out.len() == 0
            } else {
                &&& out.len() == 1
                &&& out[0] matches ServerMessage::StateUpdate(b) && bytes_content(b) == bytes_content(room.state)
            },
        },
    }
}

/// Answers RequestState with the room's current state (nothing if it has none).
pub fn handle_request_state(registry: &AppRegistry, session: &Option<Session>) -> (out: Vec<ServerMessage>)
    requires
        registry.wf(),
    ensures
        state_reply(*registry, *session, out@),
{
    let mut to_send: Vec<ServerMessage> = Vec::new();
    let s = match session {
        Some(s) => s,
        None => return to_send,
    };
    let room = match registry.lookup_room(s.app_key.as_str(), &s.room_code) {
        Some(room) => room,
        None => return to_send,
    };
    if !bytes_is_empty(&room.state) {
        to_send.push(ServerMessage::StateUpdate(room.state.clone()));
    }
    to_send
}

/// What answering Input does: a guest's input is handed to the host's
/// channel as PeerInput when the host is an accepted client; nothing else is
/// sent, and the sender gets no reply unless it is in no room.
pub open spec fn input_done(before: AppRegistry, after: AppRegistry, session: Option<Session>, blob: Vec<u8>, out: Seq<ServerMessage>) -> bool {
    match session {
        None => is_error_reply(out, "not in a room"@) && after == before,
        Some(s) => out.len() == 0 && match session_room(before, s) {
            None => after == before,
            Some(room) => if room.host_peer_id != s.peer_id && room.clients@.contains_key(room.host_peer_id) {
                exists|fin: Room| {
                    &&& #[trigger] before.with_room(after, s.app_key@, s.room_code.key(), fin)
                    &&& fin == Room { sent: fin.sent, ..room }
                    &&& told(room.sent@, fin.sent@, room.host_peer_id, ServerMessage::PeerInput { peer_id: s.peer_id, blob })
                }
            } else {
                after == before
            },
        },
    }
}

/// Answers Input: a guest's input goes to the host as PeerInput; the sender
/// gets no reply unless it is in no room.
pub fn handle_input(registry: &mut AppRegistry, session: &Option<Session>, blob: Vec<u8>) -> (out: Vec<ServerMessage>)
    requires
        old(registry).wf(),
    ensures
        final(registry).wf(),
        input_done(*old(registry), *final(registry), *session, blob, out@),
{
    let mut to_send: Vec<ServerMessage> = Vec::new();
    let s = match session {
        Some(s) => s,
        None => {
            to_send.push(ServerMessage::Error { message: "not in a room".to_owned() });
            return to_send;
        },
    };
    let (i, j) = match registry.locate(s.app_key.as_str(), &s.room_code) {
        Some(loc) => loc,
        None => return to_send,
    };
    let ghost app = s.app_key@;
    let ghost key = s.room_code.key();
    let ghost room0 = registry.room_of(app, key);
    assert(room0 == registry.pools@[i as int].rooms@[j as int]);
    assert(room0.wf());
    let host = registry.pools[i].rooms[j].host_peer_id;
    if host != s.peer_id && registry.pools[i].rooms[j].clients.contains_key(&host) {
        let room = &mut registry.pools[i].rooms[j];
        if let Some(host_info) = room.clients.get(&host) {
            let _ = offer(&mut room.sent, host, &host_info.tx, ServerMessage::PeerInput { peer_id: s.peer_id, blob });
            let ghost fin = registry.pools@[i as int].rooms@[j as int];
            proof {
                assert(fin == Room { sent: fin.sent, ..room0 });
                assert(fin.sent@.drop_last() =~= room0.sent@);
                assert(old(registry).with_room(*registry, app, key, fin));
                old(registry).lemma_with_room(*registry, app, key, fin);
            }
        }
    }
    to_send
}

/// What answering ListRooms returns.
pub open spec fn room_list_reply(catalog: AppCatalog, registry: AppRegistry, app: Seq<char>, on_disk: Option<AppRoomDefaults>, out: Seq<ServerMessage>) -> bool {
    if catalog.resolve(app, on_disk) is None {
        is_error_reply(out, "unregistered game type"@)
    } else if !registry.has_pool(app) {
        &&& out.len() == 1
        &&& out[0] matches ServerMessage::RoomList { rooms } && rooms@.len() == 0
    } else {
        let listed = registry.pool_of(app).rooms@.filter(|rm: Room| rm.is_listed());
        &&& out.len() == 1
        &&& out[0] matches ServerMessage::RoomList { rooms } && rooms@.len() == listed.len()
            && forall|k: int| 0 <= k < rooms@.len() ==> describes(#[trigger] rooms@[k], listed[k])
    }
}

/// Answers ListRooms: the public, non-full rooms of a registered app.
pub fn handle_list_rooms(
    registry: &AppRegistry,
    catalog: &mut AppCatalog,
    app_key: &str,
    on_disk: Option<AppRoomDefaults>,
) -> (out: Vec<ServerMessage>)
    requires
        registry.wf(),
    ensures
        old(catalog).learned(*final(catalog), app_key@, on_disk),
        room_list_reply(*old(catalog), *registry, app_key@, on_disk, out@),
{
    let mut to_send: Vec<ServerMessage> = Vec::new();
    if !is_registered_app(catalog, app_key, on_disk) {
        to_send.push(ServerMessage::Error { message: "unregistered game type".to_owned() });
        return to_send;
    }
    let i = match registry.pool_index(app_key) {
        Some(i) => i,
        None => {
            to_send.push(ServerMessage::RoomList { rooms: Vec::new() });
            return to_send;
        },
    };
    let rooms = registry.pools[i].list_public_rooms();
    to_send.push(ServerMessage::RoomList { rooms });
    to_send
}

/// What answering `msg` does: `out` is the reply to the sender.
pub open spec fn dispatched(
    reg_before: AppRegistry,
    reg_after: AppRegistry,
    cat_before: AppCatalog,
    cat_after: AppCatalog,
    session_before: Option<Session>,
    session_after: Option<Session>,
    msg: ClientMessage,
    out: Seq<ServerMessage>,
    secret: Option<&str>,
    on_disk: Option<AppRoomDefaults>,
) -> bool {
    match msg {
        ClientMessage::Hello { app_key, room_code, client_hash, display_name, auth_token, password } =>
            hello_done(reg_before, reg_after, cat_before, cat_after, session_before, session_after, out,
                secret, on_disk, app_key@, room_code, client_hash@, display_name, auth_token, password),
        ClientMessage::Move(blob) => {
            &&& move_done(reg_before, reg_after, session_before, blob@, out)
            &&& session_after == session_before
            &&& cat_after == cat_before
        },
        ClientMessage::Input(blob) => {
            &&& input_done(reg_before, reg_after, session_before, blob, out)
            &&& session_after == session_before
            &&& cat_after == cat_before
        },
        ClientMessage::RoomControl(rc) => {
            &&& control_done(reg_before, reg_after, session_before, session_after, rc, out)
            &&& cat_after == cat_before
        },
        ClientMessage::RequestState => {
            &&& state_reply(reg_before, session_before, out)
            &&& reg_after == reg_before
            &&& session_after == session_before
            &&& cat_after == cat_before
        },
        ClientMessage::Ping => {
            &&& out.len() == 1
            &&& out[0] is Pong
            &&& reg_after == reg_before
            &&& session_after == session_before
            &&& cat_after == cat_before
        },
        ClientMessage::ListRooms { app_key } => {
            &&& cat_before.learned(cat_after, app_key@, on_disk)
            &&& room_list_reply(cat_before, reg_before, app_key@, on_disk, out)
            &&& reg_after == reg_before
            &&& session_after == session_before
        },
    }
}

/// Dispatches a client message; returns the messages for this client only.
/// Messages for other peers are sent on their channels. `secret` is the
/// server's app secret, if one is set; `on_disk` is what the config file of
/// the message's app holds, when `config_file_wanted` asked for it.
pub fn dispatch(
    registry: &mut AppRegistry,
    catalog: &mut AppCatalog,
    secret: Option<&str>,
    on_disk: Option<AppRoomDefaults>,
    session: &mut Option<Session>,
    my_tx: &tokio::sync::mpsc::Sender<ServerMessage>,
    msg: ClientMessage,
) -> (out: Vec<ServerMessage>)
    requires
        old(registry).wf(),
    ensures
        final(registry).wf(),
        dispatched(*old(registry), *final(registry), *old(catalog), *final(catalog), *old(session), *final(session),
            msg, out@, secret, on_disk),
{
    match msg {
        ClientMessage::Hello { app_key, room_code, client_hash, display_name, auth_token, password } =>
            handle_hello(registry, catalog, secret, on_disk, session, my_tx, app_key, room_code, client_hash,
                display_name, auth_token, password),
        ClientMessage::Move(blob) => handle_move(registry, session, blob),
        ClientMessage::Input(blob) => handle_input(registry, session, blob),
        ClientMessage::RoomControl(rc) => handle_room_control(registry, session, rc),
        ClientMessage::RequestState => handle_request_state(registry, session),
        ClientMessage::Ping => {
            let mut to_send: Vec<ServerMessage> = Vec::new();
            to_send.push(ServerMessage::Pong);
            to_send
        },
        ClientMessage::ListRooms { app_key } => handle_list_rooms(registry, catalog, app_key.as_str(), on_disk),
    }
}

/// The app whose config file must be read before `msg` is dispatched: the
/// app of a hello that passes its checks up to registration, or of a room
/// listing, when the catalog neither knows it nor has it built in.
pub fn config_file_wanted(catalog: &AppCatalog, secret: Option<&str>, msg: &ClientMessage) -> (r: Option<String>)
    ensures
        match *msg {
            ClientMessage::Hello { app_key, room_code, client_hash, display_name, auth_token, password } => {
                let passes = hello_problem(app_key@, utf8_len(room_code.text()), client_hash@, opt_string_chars(display_name),
                    opt_string_chars(auth_token), opt_string_chars(password)) is None
                    && !secret_refuses(secret, opt_string_chars(auth_token));
                &&& r is Some <==> (passes && !catalog.knows(app_key@) && !crate::config::spec_is_builtin_app(app_key@))
                &&& r matches Some(k) ==> k@ == app_key@
            },
            ClientMessage::ListRooms { app_key } => {
                &&& r is Some <==> (!catalog.knows(app_key@) && !crate::config::spec_is_builtin_app(app_key@))
                &&& r matches Some(k) ==> k@ == app_key@
            },
            _ => r is None,
        },
{
    match msg {
        ClientMessage::Hello { app_key, room_code, client_hash, display_name, auth_token, password } => {
            let code_len = room_code.as_str().as_bytes().len();
            if validate_hello(app_key.as_str(), code_len, client_hash.as_str(), opt_str(display_name),
                opt_str(auth_token), opt_str(password)).is_err() {
                return None;
            }
            if let Some(sec) = secret {
                if !sec.is_empty() {
                    let token: &str = match auth_token {
                        Some(t) => t.as_str(),
                        None => "",
                    };
                    proof {
                        reveal_strlit("");
                    }
                    if !crate::text::same_text(token, sec) {
                        return None;
                    }
                }
            }
            if catalog.needs_config_file(app_key.as_str()) {
                Some(app_key.clone())
            } else {
                None
            }
        },
        ClientMessage::ListRooms { app_key } => {
            if catalog.needs_config_file(app_key.as_str()) {
                Some(app_key.clone())
            } else {
                None
            }
        },
        _ => None,
    }
}

/// What the host's accepted move stored is what asking for the state then
/// returns (when the state is not empty).
pub proof fn lemma_move_then_request_state(
    before: AppRegistry,
    after: AppRegistry,
    s: Session,
    blob: Seq<u8>,
    out: Seq<ServerMessage>,
    reply: Seq<ServerMessage>,
)
    requires
        before.wf(),
        after.wf(),
        move_done(before, after, Some(s), blob, out),
        out.len() == 1,
        out[0] is MoveAccepted,
        state_reply(after, Some(s), reply),
        blob.len() > 0,
    ensures
        reply.len() == 1,
        reply[0] matches ServerMessage::StateUpdate(b) && bytes_content(b) == blob,
{
    let app = s.app_key@;
    let key = s.room_code.key();
    let room = before.room_of(app, key);
    let (mid, fin) = choose|mid: Room, fin: Room| #[trigger] state_set(room, mid, blob) && #[trigger] state_relayed(mid, fin)
        && before.with_room(after, app, key, fin);
    let i = before.pool_pos(app);
    let j = before.room_pos(app, key);
    assert(after.pools@[i].rooms@[j] == fin);
    assert(after.pools@[i].wf());
    before.lemma_with_room(after, app, key, fin);
}

/// The server relays the host's moves: once the host's move is accepted,
/// every accepted and pending peer of the room has been handed the new
/// state (StateUpdate with the move's bytes).
pub proof fn lemma_accepted_move_is_relayed(
    before: AppRegistry,
    after: AppRegistry,
    s: Session,
    blob: Seq<u8>,
    out: Seq<ServerMessage>,
    p: PeerId,
)
    requires
        before.wf(),
        move_done(before, after, Some(s), blob, out),
        out.len() == 1,
        out[0] is MoveAccepted,
        before.has_room(s.app_key@, s.room_code.key()),
        before.room_of(s.app_key@, s.room_code.key()).in_use(p),
    ensures
        after.has_room(s.app_key@, s.room_code.key()),
        exists|m: ServerMessage| {
            &&& #[trigger] offered(added(before.room_of(s.app_key@, s.room_code.key()).sent@,
                after.room_of(s.app_key@, s.room_code.key()).sent@), p, m)
            &&& m matches ServerMessage::StateUpdate(b) && bytes_content(b) == blob
        },
{
    let app = s.app_key@;
    let key = s.room_code.key();
    let room = before.room_of(app, key);
    let (mid, fin) = choose|mid: Room, fin: Room| #[trigger] state_set(room, mid, blob) && #[trigger] state_relayed(mid, fin)
        && before.with_room(after, app, key, fin);
    let i = before.pool_pos(app);
    let j = before.room_pos(app, key);
    assert(before.pools@[i].wf());
    assert(room.wf());
    assert(mid.wf());
    assert(fin.wf()) by {
        assert(fin.clients@.dom().subset_of(mid.clients@.dom()));
    }
    assert(fin.code.key() == key);
    before.lemma_with_room(after, app, key, fin);
    let log = added(mid.sent@, fin.sent@);
    assert((mid.clients@.dom() + mid.pending@.dom()).contains(p));
    crate::registry::lemma_begins_offers_some(log, mid.clients@.dom() + mid.pending@.dom(),
        |x: ServerMessage| same_message(ServerMessage::StateUpdate(mid.state), x), p);
    let m = choose|m: ServerMessage| #[trigger] offered(log, p, m) && same_message(ServerMessage::StateUpdate(mid.state), m);
    assert(offered(log, p, m));
}

/// The minimum player count counts accepted players only: a host's move is
/// refused (MoveRejected, nothing changed) exactly when the room asks for a
/// minimum and has fewer accepted clients than that, however many newcomers
/// wait for the host's approval; otherwise it is accepted.
pub proof fn lemma_move_needs_accepted_players(
    before: AppRegistry,
    after: AppRegistry,
    s: Session,
    blob: Seq<u8>,
    out: Seq<ServerMessage>,
)
    requires
        move_done(before, after, Some(s), blob, out),
        before.has_room(s.app_key@, s.room_code.key()),
        before.room_of(s.app_key@, s.room_code.key()).host_peer_id == s.peer_id,
    ensures
        out.len() == 1,
        ({
            let room = before.room_of(s.app_key@, s.room_code.key());
            let too_few = room.settings.min_players > 0 && room.clients@.len() < room.settings.min_players;
            &&& too_few <==> out[0] is MoveRejected
            &&& !too_few <==> out[0] is MoveAccepted
            &&& too_few ==> after == before
        }),
{
    let room = before.room_of(s.app_key@, s.room_code.key());
    assert(session_room(before, s) == Some(room));
}

/// Only the host moves: a move from a peer of a room that is not its host
/// is rejected ("only host can send moves") and changes nothing.
pub proof fn lemma_only_host_moves(
    before: AppRegistry,
    after: AppRegistry,
    s: Session,
    blob: Seq<u8>,
    out: Seq<ServerMessage>,
)
    requires
        move_done(before, after, Some(s), blob, out),
        before.has_room(s.app_key@, s.room_code.key()),
        before.room_of(s.app_key@, s.room_code.key()).host_peer_id != s.peer_id,
    ensures
        out.len() == 1,
        (out[0] matches ServerMessage::MoveRejected { reason } && reason@ == "only host can send moves"@),
        after == before,
{
    assert(session_room(before, s) == Some(before.room_of(s.app_key@, s.room_code.key())));
}

/// The host's own input goes nowhere: input from the host of a room hands
/// nothing to anyone, changes nothing and gets no reply.
pub proof fn lemma_host_input_ignored(before: AppRegistry, after: AppRegistry, s: Session, blob: Vec<u8>, out: Seq<ServerMessage>)
    requires
        input_done(before, after, Some(s), blob, out),
        before.has_room(s.app_key@, s.room_code.key()),
        before.room_of(s.app_key@, s.room_code.key()).host_peer_id == s.peer_id,
    ensures
        out.len() == 0,
        after == before,
{
    assert(session_room(before, s) == Some(before.room_of(s.app_key@, s.room_code.key())));
}

/// Asking for the state gives the room's current state, and nothing while
/// the room has none (or the client is in no room).
pub proof fn lemma_request_state_gives_state(registry: AppRegistry, s: Option<Session>, out: Seq<ServerMessage>)
    requires
        state_reply(registry, s, out),
    ensures
        s is None ==> out.len() == 0,
        (s matches Some(x) && registry.has_room(x.app_key@, x.room_code.key())) ==> {
            let st = bytes_content(registry.room_of(s->0.app_key@, s->0.room_code.key()).state);
            &&& st.len() == 0 ==> out.len() == 0
            &&& st.len() != 0 ==> out.len() == 1 && (out[0] matches ServerMessage::StateUpdate(b) && bytes_content(b) == st)
        },
{
    if let Some(x) = s {
        assert(session_room(registry, x) == if registry.has_room(x.app_key@, x.room_code.key()) {
            Some(registry.room_of(x.app_key@, x.room_code.key()))
        } else {
            None
        });
    }
}

/// The room list of a registered app shows, for each public room that is
/// not full, the number of its accepted plus pending players, and never a
/// password; an app that is not registered gets "unregistered game type".
pub proof fn lemma_room_list_shows_players(
    catalog: AppCatalog,
    registry: AppRegistry,
    app: Seq<char>,
    on_disk: Option<AppRoomDefaults>,
    out: Seq<ServerMessage>,
)
    requires
        room_list_reply(catalog, registry, app, on_disk, out),
    ensures
        catalog.resolve(app, on_disk) is None ==> is_error_reply(out, "unregistered game type"@),
        catalog.resolve(app, on_disk) is Some ==> out.len() == 1 && out[0] is RoomList,
        (catalog.resolve(app, on_disk) is Some && registry.has_pool(app)) ==> {
            let listed = registry.pool_of(app).rooms@.filter(|rm: Room| rm.is_listed());
            out[0] matches ServerMessage::RoomList { rooms } && rooms@.len() == listed.len()
                && forall|k: int| 0 <= k < rooms@.len() ==> {
                    &&& (#[trigger] rooms@[k]).player_count == listed[k].clients@.len() + listed[k].pending@.len()
                    &&& rooms@[k].settings.password is None
                    &&& listed[k].settings.is_public
                }
        },
{
    if catalog.resolve(app, on_disk) is Some && registry.has_pool(app) {
        let rooms = out[0]->RoomList_rooms;
        crate::pool::lemma_listed_player_count(registry.pool_of(app), rooms@);
    }
}

/// A guest's input reaches the host: when the sender is not the host and the
/// host is an accepted client, the host's channel, and no other, is handed
/// PeerInput with the sender's id and the input's bytes.
pub proof fn lemma_input_reaches_host(before: AppRegistry, after: AppRegistry, s: Session, blob: Vec<u8>, out: Seq<ServerMessage>)
    requires
        before.wf(),
        input_done(before, after, Some(s), blob, out),
        before.has_room(s.app_key@, s.room_code.key()),
        before.room_of(s.app_key@, s.room_code.key()).host_peer_id != s.peer_id,
        before.room_of(s.app_key@, s.room_code.key()).clients@.contains_key(before.room_of(s.app_key@, s.room_code.key()).host_peer_id),
    ensures
        after.has_room(s.app_key@, s.room_code.key()),
        told(before.room_of(s.app_key@, s.room_code.key()).sent@, after.room_of(s.app_key@, s.room_code.key()).sent@,
            before.room_of(s.app_key@, s.room_code.key()).host_peer_id, ServerMessage::PeerInput { peer_id: s.peer_id, blob }),
{
    let app = s.app_key@;
    let key = s.room_code.key();
    let room = before.room_of(app, key);
    let fin = choose|fin: Room| {
        &&& #[trigger] before.with_room(after, app, key, fin)
        &&& fin == Room { sent: fin.sent, ..room }
        &&& told(room.sent@, fin.sent@, room.host_peer_id, ServerMessage::PeerInput { peer_id: s.peer_id, blob })
    };
    let i = before.pool_pos(app);
    assert(before.pools@[i].wf());
    before.lemma_with_room(after, app, key, fin);
}

} // verus!
