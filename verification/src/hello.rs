//! Hello: checking a client, and letting it into a room.

use vstd::prelude::*;
use crate::code::RoomCode;
use crate::config::{AppCatalog, AppRoomDefaults, default_room_settings_for_app, is_registered_app};
use crate::validation::{hello_problem, opt_chars, utf8_len, validate_hello};
use crate::outside::{bytes_content, bytes_is_empty};
use crate::pool::{fallback_code, fallback_taken, is_random_code, serial_after};
use crate::protocol::{ClientMessage, RoomControl, ServerMessage};
use crate::registry::{leave_room, left_room, AppRegistry};
use crate::room::{added, allocation, extends, lemma_offered_each_weaken, offered, offered_each, side_choice, ClientInfo, PeerId, Room};
use crate::protocol::same_message;
use crate::identity::ClientHash;
use crate::settings::RoomSettings;
use crate::dispatch::{dispatched, is_error_reply, Session};
use crate::control::{ban_list_with, control_applied, unchanged_room};

verus! {

broadcast use vstd::std_specs::hash::group_hash_axioms;

/// A copy of an optional string.
pub(crate) fn copy_opt_string(o: &Option<String>) -> (r: Option<String>)
    ensures
        r == *o,
{
    match o {
        Some(t) => Some(t.clone()),
        None => None,
    }
}

/// The text of an optional field, empty when absent.
pub open spec fn text_or_empty(o: Option<String>) -> Seq<char> {
    match o {
        Some(t) => t@,
        None => Seq::<char>::empty(),
    }
}

/// Whether the room's password (if it has one) is not what was given.
pub open spec fn password_refused(required: Option<String>, given: Option<String>) -> bool {
    match required {
        Some(r) => text_or_empty(given) != r@,
        None => false,
    }
}

/// The Joined reply for a client that got `peer` and `side` in `room`
/// (as the room was before the client joined), with host `host`.
pub open spec fn joined_reply(out: Seq<ServerMessage>, code: Seq<char>, room: Room, peer: PeerId, host: PeerId, sd: u8) -> bool {
    &&& out.len() == 1
    &&& out[0] matches ServerMessage::Joined { room_code, peer_id, host_peer_id, side, settings, initial_state }
        && room_code.text() == code
        && peer_id == peer
        && host_peer_id == host
        && side == sd
        && settings == room.settings.without_password()
        && (bytes_content(room.state).len() == 0 ==> initial_state is None)
        && (bytes_content(room.state).len() != 0 ==> (initial_state matches Some(b) && bytes_content(b) == bytes_content(room.state)))
}

/// Whether `info` is the record of a client with this hash, name and side.
pub open spec fn describes_client(info: ClientInfo, hash: Seq<char>, display_name: Option<String>, side: u8) -> bool {
    info.client_hash.0@ == hash && info.display_name == display_name && info.side == side
}

/// Whether `x` tells that peer `p`, with this hash and name, joined.
pub open spec fn announces_join(p: PeerId, hash: Seq<char>, display_name: Option<String>, x: ServerMessage) -> bool {
    x matches ServerMessage::PeerJoined { peer_id, client_hash, display_name: dn }
        && peer_id == p && client_hash@ == hash && dn == display_name
}

/// The newcomer `p` was announced (PeerJoined) to each accepted client of
/// `before`, once each, and nothing else was sent.
pub open spec fn join_announced(before: Room, after: Room, p: PeerId, hash: Seq<char>, display_name: Option<String>) -> bool {
    &&& extends(before.sent@, after.sent@)
    &&& offered_each(added(before.sent@, after.sent@), before.clients@.dom(),
        |x: ServerMessage| announces_join(p, hash, display_name, x))
}

/// What joining a room does: refusals leave the room as it was (but for the
/// peer counter when no id is left); otherwise the client gets an id and a
/// side and becomes the host of an empty room, or a pending client when the
/// host must accept newcomers, or an accepted client.
pub open spec fn join_outcome(
    before: Room,
    after: Room,
    code: Seq<char>,
    hash: Seq<char>,
    display_name: Option<String>,
    password: Option<String>,
    out: Seq<ServerMessage>,
    joined: Option<PeerId>,
) -> bool {
    if before.bans(hash) {
        is_error_reply(out, "banned from this room"@) && unchanged_room(before, after) && after.next_peer_id == before.next_peer_id && joined is None
    } else if before.spec_is_full() {
        is_error_reply(out, "room full"@) && unchanged_room(before, after) && after.next_peer_id == before.next_peer_id && joined is None
    } else if password_refused(before.settings.password, password) {
        is_error_reply(out, "invalid or missing room password"@) && unchanged_room(before, after) && after.next_peer_id == before.next_peer_id && joined is None
    } else if allocation(before, after.next_peer_id, None) {
        is_error_reply(out, "room full"@) && unchanged_room(before, after) && joined is None
    } else {
        exists|p: PeerId, sd: u8| {
            &&& joined == Some(p)
            &&& #[trigger] allocation(before, after.next_peer_id, Some(p))
            &&& #[trigger] side_choice(before.clients@, before.pending@, before.settings, sd)
            &&& after.state == before.state
            &&& after.settings == before.settings
            &&& after.banned == before.banned
            &&& after.code == before.code
            &&& after.app_key == before.app_key
            &&& if before.player_total() == 0 {
                &&& after.host_peer_id == p
                &&& after.clients@.dom() == before.clients@.dom().insert(p)
                &&& describes_client(after.clients@[p], hash, display_name, sd)
                &&& after.pending@ == before.pending@
                &&& joined_reply(out, code, before, p, p, sd)
                &&& join_announced(before, after, p, hash, display_name)
            } else if before.settings.accept_required {
                &&& after.host_peer_id == before.host_peer_id
                &&& after.pending@.dom() == before.pending@.dom().insert(p)
                &&& describes_client(after.pending@[p], hash, display_name, sd)
                &&& forall|q: PeerId| #[trigger] before.pending@.contains_key(q) ==> after.pending@[q] == before.pending@[q]
                &&& after.clients@ == before.clients@
                &&& joined_reply(out, code, before, p, before.host_peer_id, sd)
                &&& after.sent == before.sent
            } else {
                &&& after.host_peer_id == before.host_peer_id
                &&& after.clients@.dom() == before.clients@.dom().insert(p)
                &&& describes_client(after.clients@[p], hash, display_name, sd)
                &&& forall|q: PeerId| #[trigger] before.clients@.contains_key(q) ==> after.clients@[q] == before.clients@[q]
                &&& after.pending@ == before.pending@
                &&& joined_reply(out, code, before, p, before.host_peer_id, sd)
                &&& join_announced(before, after, p, hash, display_name)
            }
        }
    }
}

/// A client that the host banned is refused when it asks to join that room
/// again, whatever else it sends, and the room stays as it was.
pub proof fn lemma_banned_client_refused(
    before: Room,
    banned: Room,
    pid: PeerId,
    again: Room,
    code: Seq<char>,
    display_name: Option<String>,
    password: Option<String>,
    out: Seq<ServerMessage>,
    joined: Option<PeerId>,
)
    requires
        before.clients@.contains_key(pid),
        control_applied(before, banned, RoomControl::Ban(pid)),
        join_outcome(banned, again, code, before.clients@[pid].client_hash.0@, display_name, password, out, joined),
    ensures
        is_error_reply(out, "banned from this room"@),
        joined is None,
        unchanged_room(banned, again),
{
    let hash = before.clients@[pid].client_hash;
    let mid = choose|mid: Room| {
        &&& #[trigger] crate::control::alike(before, mid)
        &&& mid.clients@ == before.clients@.remove(pid)
        &&& mid.pending == before.pending
        &&& mid.host_peer_id == before.host_peer_id
        &&& mid.settings == before.settings
        &&& mid.banned@ == ban_list_with(before.banned@, hash)
        &&& crate::control::told_if_present(before.sent@, mid.sent@, before.clients@, pid, ServerMessage::RoomEvent(crate::protocol::RoomEvent::Banned))
        &&& crate::registry::broadcast_done(mid, banned, ServerMessage::PeerLeft { peer_id: pid })
    };
    assert(mid.banned@ == ban_list_with(before.banned@, hash));
    assert(banned.banned == mid.banned);
    if !(exists|i: int| 0 <= i < before.banned@.len() && #[trigger] before.banned@[i].0@ == hash.0@) {
        let n = before.banned@.len() as int;
        assert(banned.banned@[n].0@ == hash.0@);
    }
    assert(banned.bans(hash.0@));
}

/// A hello from a client in no room that passes the checks and names an
/// existing room goes to that room: the outcome is a join attempt on it.
proof fn lemma_hello_into_room(
    reg0: AppRegistry,
    reg1: AppRegistry,
    cat0: AppCatalog,
    cat1: AppCatalog,
    s1: Option<Session>,
    out: Seq<ServerMessage>,
    secret: Option<&str>,
    on_disk: Option<AppRoomDefaults>,
    app: Seq<char>,
    code: RoomCode,
    hash: Seq<char>,
    display_name: Option<String>,
    auth_token: Option<String>,
    password: Option<String>,
) -> (fin: Room)
    requires
        reg0.wf(),
        hello_done(reg0, reg1, cat0, cat1, None, s1, out, secret, on_disk, app, code, hash, display_name,
            auth_token, password),
        hello_refusal(cat0, secret, on_disk, app, utf8_len(code.text()), hash, opt_string_chars(display_name),
            opt_string_chars(auth_token), opt_string_chars(password)) is None,
        reg0.has_room(app, code.key()),
    ensures
        reg0.room_of(app, code.key()).wf(),
        join_outcome(reg0.room_of(app, code.key()), fin, code.text(), hash, display_name, password, out, peer_of(s1)),
        reg0.with_room(reg1, app, code.key(), fin),
{
    let key = code.key();
    let room = reg0.room_of(app, key);
    let i = reg0.pool_pos(app);
    assert(reg0.pools@[i].wf());
    assert(room.code.key().len() > 0);
    if code.text().len() == 0 {
        assert(code.key() =~= Seq::<char>::empty());
    }
    assert(reg0.has_pool(app));
    assert(reg0.pool_ensured(reg0, app));
    let reg2 = choose|reg2: AppRegistry| #[trigger] reg0.pool_ensured(reg2, app) && joined_in(reg2, reg1, app, key,
        code.text(), hash, display_name, password, out, s1);
    assert(reg2 == reg0);
    choose|fin: Room| {
        &&& #[trigger] join_outcome(room, fin, code.text(), hash, display_name, password, out, peer_of(s1))
        &&& reg0.with_room(reg1, app, key, fin)
        &&& s1 matches Some(x) ==> x.app_key@ == app && x.room_code.text() == code.text()
    }
}

/// A full room takes no one more: a hello from a client in no room that
/// passes the checks and names an existing room that does not ban the
/// client, and whose accepted and pending players together reach its
/// (non-zero) maximum, is refused with "room full" and no session.
pub proof fn lemma_full_room_refused(
    reg0: AppRegistry,
    reg1: AppRegistry,
    cat0: AppCatalog,
    cat1: AppCatalog,
    s1: Option<Session>,
    out: Seq<ServerMessage>,
    secret: Option<&str>,
    on_disk: Option<AppRoomDefaults>,
    app: Seq<char>,
    code: RoomCode,
    hash: Seq<char>,
    display_name: Option<String>,
    auth_token: Option<String>,
    password: Option<String>,
)
    requires
        reg0.wf(),
        hello_done(reg0, reg1, cat0, cat1, None, s1, out, secret, on_disk, app, code, hash, display_name,
            auth_token, password),
        hello_refusal(cat0, secret, on_disk, app, utf8_len(code.text()), hash, opt_string_chars(display_name),
            opt_string_chars(auth_token), opt_string_chars(password)) is None,
        reg0.has_room(app, code.key()),
        !reg0.room_of(app, code.key()).bans(hash),
        reg0.room_of(app, code.key()).settings.max_players != 0,
        reg0.room_of(app, code.key()).clients@.len() + reg0.room_of(app, code.key()).pending@.len()
            >= reg0.room_of(app, code.key()).settings.max_players,
    ensures
        is_error_reply(out, "room full"@),
        s1 is None,
{
    let fin = lemma_hello_into_room(reg0, reg1, cat0, cat1, s1, out, secret, on_disk, app, code, hash,
        display_name, auth_token, password);
}

/// A room's password keeps out whoever does not give it: a hello (from a
/// client in no room) that passes the checks and names an existing room with
/// password p, which neither bans the client nor is full, is refused with
/// "invalid or missing room password" and no session exactly when the
/// password given is not p (no password counts as the empty one).
pub proof fn lemma_wrong_password_refused(
    reg0: AppRegistry,
    reg1: AppRegistry,
    cat0: AppCatalog,
    cat1: AppCatalog,
    s1: Option<Session>,
    out: Seq<ServerMessage>,
    secret: Option<&str>,
    on_disk: Option<AppRoomDefaults>,
    app: Seq<char>,
    code: RoomCode,
    hash: Seq<char>,
    display_name: Option<String>,
    auth_token: Option<String>,
    password: Option<String>,
    p: String,
)
    requires
        reg0.wf(),
        hello_done(reg0, reg1, cat0, cat1, None, s1, out, secret, on_disk, app, code, hash, display_name,
            auth_token, password),
        hello_refusal(cat0, secret, on_disk, app, utf8_len(code.text()), hash, opt_string_chars(display_name),
            opt_string_chars(auth_token), opt_string_chars(password)) is None,
        reg0.has_room(app, code.key()),
        reg0.room_of(app, code.key()).settings.password == Some(p),
        !reg0.room_of(app, code.key()).bans(hash),
        !reg0.room_of(app, code.key()).spec_is_full(),
    ensures
        (match password {
            Some(g) => g@ != p@,
            None => p@.len() != 0,
        }) ==> is_error_reply(out, "invalid or missing room password"@) && s1 is None,
        (match password {
            Some(g) => g@ == p@,
            None => p@.len() == 0,
        }) ==> !is_error_reply(out, "invalid or missing room password"@),
{
    let room = reg0.room_of(app, code.key());
    let fin = lemma_hello_into_room(reg0, reg1, cat0, cat1, s1, out, secret, on_disk, app, code, hash,
        display_name, auth_token, password);
    if password is None && p@.len() == 0 {
        assert(p@ =~= Seq::<char>::empty());
    }
    assert(password_refused(room.settings.password, password) == (match password {
        Some(g) => g@ != p@,
        None => p@.len() != 0,
    }));
    if !password_refused(room.settings.password, password) {
        reveal_strlit("room full");
        reveal_strlit("invalid or missing room password");
        assert("room full"@.len() != "invalid or missing room password"@.len());
    }
}

/// Where a newcomer lands: when a hello from a client in no room names an
/// existing room and the client gets a session, it got a peer id no one in
/// the room held, the reply is Joined with that id, and it became the host
/// of the room if the room was empty, a pending client (the accepted ones
/// unchanged) if the host must accept newcomers, and an accepted client (the
/// pending ones unchanged) otherwise; its record carries its hash. A
/// newcomer accepted at once is announced (PeerJoined with its id, hash and
/// name) to each client accepted before it; a pending one to no one.
pub proof fn lemma_join_places_newcomer(
    reg0: AppRegistry,
    reg1: AppRegistry,
    cat0: AppCatalog,
    cat1: AppCatalog,
    x: Session,
    out: Seq<ServerMessage>,
    secret: Option<&str>,
    on_disk: Option<AppRoomDefaults>,
    app: Seq<char>,
    code: RoomCode,
    hash: Seq<char>,
    display_name: Option<String>,
    auth_token: Option<String>,
    password: Option<String>,
)
    requires
        reg0.wf(),
        reg1.wf(),
        hello_done(reg0, reg1, cat0, cat1, None, Some(x), out, secret, on_disk, app, code, hash, display_name,
            auth_token, password),
        hello_refusal(cat0, secret, on_disk, app, utf8_len(code.text()), hash, opt_string_chars(display_name),
            opt_string_chars(auth_token), opt_string_chars(password)) is None,
        reg0.has_room(app, code.key()),
    ensures
        reg1.has_room(app, code.key()),
        !reg0.room_of(app, code.key()).clients@.contains_key(x.peer_id),
        !reg0.room_of(app, code.key()).pending@.contains_key(x.peer_id),
        out.len() == 1,
        (out[0] matches ServerMessage::Joined { peer_id, .. } && peer_id == x.peer_id),
        reg0.room_of(app, code.key()).clients@.len() + reg0.room_of(app, code.key()).pending@.len() == 0 ==> {
            &&& reg1.room_of(app, code.key()).host_peer_id == x.peer_id
            &&& reg1.room_of(app, code.key()).clients@.contains_key(x.peer_id)
            &&& reg1.room_of(app, code.key()).clients@[x.peer_id].client_hash.0@ == hash
        },
        reg0.room_of(app, code.key()).clients@.len() + reg0.room_of(app, code.key()).pending@.len() != 0
            && reg0.room_of(app, code.key()).settings.accept_required ==> {
            &&& reg1.room_of(app, code.key()).pending@.contains_key(x.peer_id)
            &&& reg1.room_of(app, code.key()).pending@[x.peer_id].client_hash.0@ == hash
            &&& reg1.room_of(app, code.key()).clients@ == reg0.room_of(app, code.key()).clients@
            &&& reg1.room_of(app, code.key()).host_peer_id == reg0.room_of(app, code.key()).host_peer_id
        },
        reg0.room_of(app, code.key()).clients@.len() + reg0.room_of(app, code.key()).pending@.len() != 0
            && !reg0.room_of(app, code.key()).settings.accept_required ==> {
            &&& reg1.room_of(app, code.key()).clients@.contains_key(x.peer_id)
            &&& reg1.room_of(app, code.key()).clients@[x.peer_id].client_hash.0@ == hash
            &&& reg1.room_of(app, code.key()).pending@ == reg0.room_of(app, code.key()).pending@
            &&& reg1.room_of(app, code.key()).host_peer_id == reg0.room_of(app, code.key()).host_peer_id
            &&& forall|q: PeerId| #[trigger] reg0.room_of(app, code.key()).clients@.contains_key(q) ==>
                exists|m: ServerMessage| {
                    &&& #[trigger] offered(added(reg0.room_of(app, code.key()).sent@, reg1.room_of(app, code.key()).sent@), q, m)
                    &&& m matches ServerMessage::PeerJoined { peer_id, client_hash, display_name: dn }
                    &&& peer_id == x.peer_id && client_hash@ == hash && dn == display_name
                }
        },
        reg0.room_of(app, code.key()).clients@.len() + reg0.room_of(app, code.key()).pending@.len() != 0
            && reg0.room_of(app, code.key()).settings.accept_required
            ==> reg1.room_of(app, code.key()).sent == reg0.room_of(app, code.key()).sent,
{
    let key = code.key();
    let room = reg0.room_of(app, key);
    let i = reg0.pool_pos(app);
    let j = reg0.room_pos(app, key);
    let fin = lemma_hello_into_room(reg0, reg1, cat0, cat1, Some(x), out, secret, on_disk, app, code, hash,
        display_name, auth_token, password);
    assert(reg1.pools@[i].rooms@[j] == fin);
    assert(reg1.pools@[i].wf());
    assert(fin.wf());
    let (p, sd) = choose|p: PeerId, sd: u8| {
        &&& peer_of(Some(x)) == Some(p)
        &&& #[trigger] allocation(room, fin.next_peer_id, Some(p))
        &&& #[trigger] side_choice(room.clients@, room.pending@, room.settings, sd)
        &&& fin.state == room.state
        &&& fin.settings == room.settings
        &&& fin.banned == room.banned
        &&& fin.code == room.code
        &&& fin.app_key == room.app_key
        &&& if room.player_total() == 0 {
            &&& fin.host_peer_id == p
            &&& fin.clients@.dom() == room.clients@.dom().insert(p)
            &&& describes_client(fin.clients@[p], hash, display_name, sd)
            &&& fin.pending@ == room.pending@
            &&& joined_reply(out, code.text(), room, p, p, sd)
            &&& join_announced(room, fin, p, hash, display_name)
        } else if room.settings.accept_required {
            &&& fin.host_peer_id == room.host_peer_id
            &&& fin.pending@.dom() == room.pending@.dom().insert(p)
            &&& describes_client(fin.pending@[p], hash, display_name, sd)
            &&& forall|q: PeerId| #[trigger] room.pending@.contains_key(q) ==> fin.pending@[q] == room.pending@[q]
            &&& fin.clients@ == room.clients@
            &&& joined_reply(out, code.text(), room, p, room.host_peer_id, sd)
            &&& fin.sent == room.sent
        } else {
            &&& fin.host_peer_id == room.host_peer_id
            &&& fin.clients@.dom() == room.clients@.dom().insert(p)
            &&& describes_client(fin.clients@[p], hash, display_name, sd)
            &&& forall|q: PeerId| #[trigger] room.clients@.contains_key(q) ==> fin.clients@[q] == room.clients@[q]
            &&& fin.pending@ == room.pending@
            &&& joined_reply(out, code.text(), room, p, room.host_peer_id, sd)
            &&& join_announced(room, fin, p, hash, display_name)
        }
    };
    assert(p == x.peer_id);
    assert(fin.code.key() == key);
    reg0.lemma_with_room(reg1, app, key, fin);
    assert(fin.clients@.contains_key(p) || fin.pending@.contains_key(p)) by {
        if room.player_total() == 0 {
            assert(fin.clients@.dom().contains(p));
        } else if room.settings.accept_required {
            assert(fin.pending@.dom().contains(p));
        } else {
            assert(fin.clients@.dom().contains(p));
        }
    }
    if room.player_total() != 0 && !room.settings.accept_required {
        assert(fin.pending@ =~= room.pending@);
        let log = added(room.sent@, fin.sent@);
        assert forall|q: PeerId| #[trigger] room.clients@.contains_key(q) implies exists|m: ServerMessage| {
            &&& #[trigger] offered(log, q, m)
            &&& m matches ServerMessage::PeerJoined { peer_id, client_hash, display_name: dn }
            &&& peer_id == x.peer_id && client_hash@ == hash && dn == display_name
        } by {
            assert(room.clients@.dom().contains(q));
            let k = choose|k: int| 0 <= k < log.len() && (#[trigger] log[k]).0 == q;
            assert(announces_join(p, hash, display_name, log[k].1));
            assert(offered(log, q, log[k].1));
        }
    }
}

/// Creating a room makes the creator its host: a hello from a client in no
/// room that passes the checks and names no room, for an app whose room
/// settings ask for no password, gets the client a session in a room under a
/// code the app had no room under, with peer id 1; the client is that room's
/// only player and its host, and the reply is Joined with the client's peer
/// id.
pub proof fn lemma_create_makes_host(
    reg0: AppRegistry,
    reg1: AppRegistry,
    cat0: AppCatalog,
    cat1: AppCatalog,
    s1: Option<Session>,
    out: Seq<ServerMessage>,
    secret: Option<&str>,
    on_disk: Option<AppRoomDefaults>,
    app: Seq<char>,
    code: RoomCode,
    hash: Seq<char>,
    display_name: Option<String>,
    auth_token: Option<String>,
    password: Option<String>,
)
    requires
        reg0.wf(),
        reg1.wf(),
        hello_done(reg0, reg1, cat0, cat1, None, s1, out, secret, on_disk, app, code, hash, display_name,
            auth_token, password),
        hello_refusal(cat0, secret, on_disk, app, utf8_len(code.text()), hash, opt_string_chars(display_name),
            opt_string_chars(auth_token), opt_string_chars(password)) is None,
        code.text().len() == 0,
        cat0.resolve(app, on_disk).unwrap().password is None,
    ensures
        s1 is Some,
        s1->0.peer_id == 1,
        !reg0.has_room(app, s1->0.room_code.key()),
        reg1.has_room(app, s1->0.room_code.key()),
        reg1.room_of(app, s1->0.room_code.key()).host_peer_id == s1->0.peer_id,
        reg1.room_of(app, s1->0.room_code.key()).clients@.dom() == set![s1->0.peer_id],
        reg1.room_of(app, s1->0.room_code.key()).pending@.len() == 0,
        out.len() == 1,
        (out[0] matches ServerMessage::Joined { peer_id, .. } && peer_id == s1->0.peer_id),
{
    let settings = cat0.resolve(app, on_disk).unwrap();
    let reg2 = choose|reg2: AppRegistry| #[trigger] reg0.pool_ensured(reg2, app) && exists|reg3: AppRegistry, c: RoomCode| {
        &&& #[trigger] room_added(reg2, reg3, app, settings, c)
        &&& joined_in(reg3, reg1, app, c.key(), c.text(), hash, display_name, password, out, s1)
    };
    let (reg3, c) = choose|reg3: AppRegistry, c: RoomCode| {
        &&& #[trigger] room_added(reg2, reg3, app, settings, c)
        &&& joined_in(reg3, reg1, app, c.key(), c.text(), hash, display_name, password, out, s1)
    };
    if !reg0.has_pool(app) {
        assert(reg2.pools@[reg2.pools@.len() - 1].app_key@ == app);
    }
    assert(reg2.has_pool(app));
    let i = reg2.pool_pos(app);
    let pool = reg2.pools@[i];
    let n = pool.rooms@.len() as int;
    let fresh = reg3.pools@[i].rooms@[n];
    assert(reg3.pools@[i].app_key@ == app);
    assert(reg3.has_pool(app));
    let i3 = reg3.pool_pos(app);
    let fin = choose|fin: Room| {
        &&& #[trigger] join_outcome(reg3.room_of(app, c.key()), fin, c.text(), hash, display_name, password, out, peer_of(s1))
        &&& reg3.with_room(reg1, app, c.key(), fin)
        &&& s1 matches Some(x) ==> x.app_key@ == app && x.room_code.text() == c.text()
    };
    assert forall|k: int| 0 <= k < reg3.pools@.len() implies
        (#[trigger] reg3.pools@[k]).app_key == reg1.pools@[k].app_key by {
        if k != i3 {
            assert(reg1.pools@[k] == reg3.pools@[k]);
        }
    }
    assert(i3 == i) by {
        if i3 < i {
            assert(reg1.pools@[i3].app_key@ != reg1.pools@[i].app_key@);
        } else if i < i3 {
            assert(reg1.pools@[i].app_key@ != reg1.pools@[i3].app_key@);
        }
    }
    assert(fresh.code.key() == c.key());
    let j3 = reg3.room_pos(app, c.key());
    assert(j3 == n) by {
        if j3 < n {
            assert(reg3.pools@[i].rooms@[j3] == pool.rooms@[j3]);
            assert(pool.has_key(c.key()));
        }
    }
    assert(reg3.room_of(app, c.key()) == fresh);
    assert(!fresh.in_use(fresh.id_cursor()));
    assert(!fresh.bans(hash));
    assert(fresh.player_total() == 0);
    let (p, sd) = choose|p: PeerId, sd: u8| {
        &&& peer_of(s1) == Some(p)
        &&& #[trigger] allocation(fresh, fin.next_peer_id, Some(p))
        &&& #[trigger] side_choice(fresh.clients@, fresh.pending@, fresh.settings, sd)
        &&& fin.host_peer_id == p
        &&& fin.clients@.dom() == fresh.clients@.dom().insert(p)
        &&& describes_client(fin.clients@[p], hash, display_name, sd)
        &&& fin.pending@ == fresh.pending@
        &&& joined_reply(out, c.text(), fresh, p, p, sd)
        &&& fin.code == fresh.code
    };
    let x = s1->0;
    assert(x.room_code.key() == c.key());
    assert(fin.clients@.dom() =~= set![p]);
    // the room, once joined, is where it was in the registry
    assert(reg1.pools@[i].rooms@ == reg3.pools@[i].rooms@.update(n, fin));
    assert(reg1.pools@[i].rooms@[n].code.key() == c.key());
    assert(reg1.has_pool(app));
    let i1 = reg1.pool_pos(app);
    assert(i1 == i) by {
        if i1 < i {
            assert(reg1.pools@[i1].app_key@ != reg1.pools@[i].app_key@);
        } else if i < i1 {
            assert(reg1.pools@[i].app_key@ != reg1.pools@[i1].app_key@);
        }
    }
    assert(reg1.pools@[i].wf());
    let j1 = reg1.room_pos(app, c.key());
    assert(j1 == n) by {
        if j1 < n {
            assert(reg1.pools@[i].rooms@[j1].code.key() != reg1.pools@[i].rooms@[n].code.key());
        } else if n < j1 {
            assert(reg1.pools@[i].rooms@[n].code.key() != reg1.pools@[i].rooms@[j1].code.key());
        }
    }
    if reg0.has_pool(app) {
        assert(reg2 == reg0);
    }
}

/// Admits a client into a room, if the room lets it in; tells the accepted
/// clients about a newcomer that was accepted right away (PeerJoined).
fn join_room(
    room: &mut Room,
    code: &RoomCode,
    my_tx: &tokio::sync::mpsc::Sender<ServerMessage>,
    client_hash: &String,
    display_name: &Option<String>,
    password: &Option<String>,
) -> (r: (Vec<ServerMessage>, Option<PeerId>))
    requires
        old(room).wf(),
    ensures
        final(room).wf(),
        join_outcome(*old(room), *final(room), code.text(), client_hash@, *display_name, *password, r.0@, r.1),
{
    let mut to_send: Vec<ServerMessage> = Vec::new();
    let hash = ClientHash(client_hash.clone());
    if room.is_banned(&hash) {
        to_send.push(ServerMessage::Error { message: "banned from this room".to_owned() });
        return (to_send, None);
    }
    if room.is_full() {
        to_send.push(ServerMessage::Error { message: "room full".to_owned() });
        return (to_send, None);
    }
    if let Some(required) = &room.settings.password {
        let provided: &str = match password {
            Some(p) => p.as_str(),
            None => "",
        };
        proof {
            reveal_strlit("");
            assert(provided@ == text_or_empty(*password));
        }
        if !crate::text::same_text(provided, required.as_str()) {
            to_send.push(ServerMessage::Error { message: "invalid or missing room password".to_owned() });
            return (to_send, None);
        }
    }
    let ghost before = *room;
    let peer_id = match room.next_peer_id() {
        Some(id) => id,
        None => {
            to_send.push(ServerMessage::Error { message: "room full".to_owned() });
            assert(allocation(before, room.next_peer_id, None));
            assert(!before.bans(client_hash@));
            assert(!before.spec_is_full());
            assert(!password_refused(before.settings.password, *password));
            assert(unchanged_room(before, *room));
            assert(is_error_reply(to_send@, "room full"@));
            return (to_send, None);
        },
    };
    let side = room.next_available_side();
    let info = ClientInfo {
        client_hash: hash,
        display_name: copy_opt_string(display_name),
        tx: crate::outside::sender_clone(my_tx),
        side,
    };
    let host_id = if room.clients.is_empty() && room.pending.is_empty() {
        room.host_peer_id = peer_id;
        room.clients.insert(peer_id, info);
        peer_id
    } else if room.settings.accept_required {
        room.pending.insert(peer_id, info);
        room.host_peer_id
    } else {
        room.clients.insert(peer_id, info);
        room.host_peer_id
    };
    let initial_state = if bytes_is_empty(&room.state) {
        None
    } else {
        Some(room.state.clone())
    };
    let mut settings = room.settings.clone();
    settings.password = None;
    let joined = ServerMessage::Joined {
        room_code: code.clone(),
        peer_id,
        host_peer_id: host_id,
        side,
        settings,
        initial_state,
    };
    let ghost placed = *room;
    if !room.settings.accept_required || room.clients.contains_key(&peer_id) {
        let note = ServerMessage::PeerJoined {
            peer_id,
            client_hash: client_hash.clone(),
            display_name: copy_opt_string(display_name),
        };
        Room::tell_others(&room.clients, peer_id, &note, &mut room.sent);
        proof {
            assert(placed.clients@.dom().remove(peer_id) =~= before.clients@.dom());
            lemma_offered_each_weaken(added(before.sent@, room.sent@), before.clients@.dom(),
                |x: ServerMessage| same_message(note, x), |x: ServerMessage| announces_join(peer_id, client_hash@, *display_name, x));
        }
    }
    to_send.push(joined);
    proof {
        assert(!allocation(before, room.next_peer_id, None));
        assert(allocation(before, room.next_peer_id, Some(peer_id)));
        assert(side_choice(before.clients@, before.pending@, before.settings, side));
        assert((before.player_total() == 0) == (before.clients@.dom().is_empty() && before.pending@.dom().is_empty())) by {
            if before.clients@.dom().len() == 0 {
                vstd::set_lib::lemma_set_empty_equivalency_len(before.clients@.dom());
            }
            if before.pending@.dom().len() == 0 {
                vstd::set_lib::lemma_set_empty_equivalency_len(before.pending@.dom());
            }
        }
        if before.player_total() == 0 {
            assert(room.clients@.dom() =~= before.clients@.dom().insert(peer_id));
            assert(describes_client(room.clients@[peer_id], client_hash@, *display_name, side));
            assert(joined_reply(to_send@, code.text(), before, peer_id, peer_id, side));
        } else if before.settings.accept_required {
            assert(room.pending@.dom() =~= before.pending@.dom().insert(peer_id));
            assert(describes_client(room.pending@[peer_id], client_hash@, *display_name, side));
            assert(joined_reply(to_send@, code.text(), before, peer_id, before.host_peer_id, side));
        } else {
            assert(room.clients@.dom() =~= before.clients@.dom().insert(peer_id));
            assert(describes_client(room.clients@[peer_id], client_hash@, *display_name, side));
            assert(joined_reply(to_send@, code.text(), before, peer_id, before.host_peer_id, side));
        }
    }
    (to_send, Some(peer_id))
}

/// The characters of an optional string.
pub open spec fn opt_string_chars(s: Option<String>) -> Option<Seq<char>> {
    match s {
        Some(t) => Some(t@),
        None => None,
    }
}

/// Whether the server's app secret (when set and not empty) refuses the token.
pub open spec fn secret_refuses(secret: Option<&str>, auth_token: Option<Seq<char>>) -> bool {
    match secret {
        Some(sec) => sec@.len() > 0 && match auth_token {
            Some(t) => t != sec@,
            None => Seq::<char>::empty() != sec@,
        },
        None => false,
    }
}

/// Why a hello is refused before any room is looked at, as the message sent
/// back; `None` when it passes.
pub open spec fn hello_refusal(
    catalog: AppCatalog,
    secret: Option<&str>,
    on_disk: Option<AppRoomDefaults>,
    app_key: Seq<char>,
    room_code_len: nat,
    client_hash: Seq<char>,
    display_name: Option<Seq<char>>,
    auth_token: Option<Seq<char>>,
    password: Option<Seq<char>>,
) -> Option<Seq<char>> {
    match hello_problem(app_key, room_code_len, client_hash, display_name, auth_token, password) {
        Some(m) => Some(m),
        None => if secret_refuses(secret, auth_token) {
            Some("authentication required"@)
        } else if catalog.resolve(app_key, on_disk) is None {
            Some("unregistered game type"@)
        } else {
            None
        },
    }
}

/// The checks of a hello that come before any room: its fields, the app
/// secret, and that the app is registered (which the catalog learns).
fn admit_hello(
    catalog: &mut AppCatalog,
    secret: Option<&str>,
    on_disk: Option<AppRoomDefaults>,
    app_key: &str,
    room_code_len: usize,
    client_hash: &str,
    display_name: Option<&str>,
    auth_token: Option<&str>,
    password: Option<&str>,
) -> (r: Result<(), String>)
    ensures
        ({
            let refusal = hello_refusal(*old(catalog), secret, on_disk, app_key@, room_code_len as nat,
                client_hash@, opt_chars(display_name), opt_chars(auth_token), opt_chars(password));
            &&& r is Ok <==> refusal is None
            &&& r matches Err(m) ==> refusal == Some(m@)
            &&& (hello_problem(app_key@, room_code_len as nat, client_hash@, opt_chars(display_name),
                    opt_chars(auth_token), opt_chars(password)) is Some
                || secret_refuses(secret, opt_chars(auth_token)))
                ==> final(catalog).held() == old(catalog).held()
            &&& (hello_problem(app_key@, room_code_len as nat, client_hash@, opt_chars(display_name),
                    opt_chars(auth_token), opt_chars(password)) is None
                && !secret_refuses(secret, opt_chars(auth_token)))
                ==> old(catalog).learned(*final(catalog), app_key@, on_disk)
        }),
{
    if let Err(e) = validate_hello(app_key, room_code_len, client_hash, display_name, auth_token, password) {
        return Err(e);
    }
    if let Some(sec) = secret {
        if !sec.is_empty() {
            let token: &str = match auth_token {
                Some(t) => t,
                None => "",
            };
            proof {
                reveal_strlit("");
            }
            if !crate::text::same_text(token, sec) {
                return Err("authentication required".to_owned());
            }
        }
    }
    if !is_registered_app(catalog, app_key, on_disk) {
        return Err("unregistered game type".to_owned());
    }
    Ok(())
}

/// `after` is the registry once the session (if any) left its room.
pub open spec fn session_left(before: AppRegistry, after: AppRegistry, session: Option<Session>) -> bool {
    match session {
        None => after == before,
        Some(s) => after.wf() && left_room(before, after, s.app_key@, s.room_code.key(), s.peer_id),
    }
}

/// The peer id of a session.
pub open spec fn peer_of(session: Option<Session>) -> Option<PeerId> {
    match session {
        Some(s) => Some(s.peer_id),
        None => None,
    }
}

/// A client joined the room (app, key) of `before` (or was refused), giving
/// `after`, the reply `out` and the new session.
pub open spec fn joined_in(
    before: AppRegistry,
    after: AppRegistry,
    app: Seq<char>,
    key: Seq<char>,
    code: Seq<char>,
    hash: Seq<char>,
    display_name: Option<String>,
    password: Option<String>,
    out: Seq<ServerMessage>,
    session: Option<Session>,
) -> bool {
    exists|room: Room| {
        &&& #[trigger] join_outcome(before.room_of(app, key), room, code, hash, display_name, password, out,
            peer_of(session))
        &&& before.with_room(after, app, key, room)
        &&& session matches Some(s) ==> s.app_key@ == app && s.room_code.text() == code
    }
}

/// `after` is `before` with a new room in the pool of `app`, created with
/// `settings` under `code`, a code no room of the app had.
pub open spec fn room_added(before: AppRegistry, after: AppRegistry, app: Seq<char>, settings: RoomSettings, code: RoomCode) -> bool {
    let i = before.pool_pos(app);
    let pool = before.pools@[i];
    &&& after.pools@.len() == before.pools@.len()
    &&& forall|k: int| 0 <= k < before.pools@.len() && k != i ==> after.pools@[k] == #[trigger] before.pools@[k]
    &&& after.pools@[i].app_key == pool.app_key
    &&& !pool.has_key(code.key())
    &&& after.pools@[i].rooms@.drop_last() == pool.rooms@
    &&& after.pools@[i].rooms@.len() == pool.rooms@.len() + 1
    &&& after.pools@[i].rooms@.last().is_fresh(app, code.text(), settings)
    &&& is_random_code(code.text()) || exists|k: nat| #[trigger] fallback_taken(pool, k)
        && code.text() == fallback_code(serial_after(pool.fallback_serial, k))
}

/// What answering a hello does: the client leaves the room it was in, the
/// hello is checked, and the client joins the room it names, or a new room
/// of the app when it names none.
pub open spec fn hello_done(
    reg_before: AppRegistry,
    reg_after: AppRegistry,
    cat_before: AppCatalog,
    cat_after: AppCatalog,
    session_before: Option<Session>,
    session_after: Option<Session>,
    out: Seq<ServerMessage>,
    secret: Option<&str>,
    on_disk: Option<AppRoomDefaults>,
    app: Seq<char>,
    code: RoomCode,
    hash: Seq<char>,
    display_name: Option<String>,
    auth_token: Option<String>,
    password: Option<String>,
) -> bool {
    exists|reg1: AppRegistry| {
        &&& #[trigger] session_left(reg_before, reg1, session_before)
        &&& match hello_refusal(cat_before, secret, on_disk, app, utf8_len(code.text()), hash,
                opt_string_chars(display_name), opt_string_chars(auth_token), opt_string_chars(password)) {
            Some(m) => {
                &&& is_error_reply(out, m)
                &&& reg_after == reg1
                &&& session_after is None
                &&& if hello_problem(app, utf8_len(code.text()), hash, opt_string_chars(display_name),
                        opt_string_chars(auth_token), opt_string_chars(password)) is Some
                        || secret_refuses(secret, opt_string_chars(auth_token)) {
                    cat_after.held() == cat_before.held()
                } else {
                    cat_before.learned(cat_after, app, on_disk)
                }
            },
            None => {
                let settings = cat_before.resolve(app, on_disk).unwrap();
                &&& cat_before.learned(cat_after, app, on_disk)
                &&& exists|reg2: AppRegistry| {
                    &&& #[trigger] reg1.pool_ensured(reg2, app)
                    &&& if code.text().len() == 0 {
                        exists|reg3: AppRegistry, c: RoomCode| {
                            &&& #[trigger] room_added(reg2, reg3, app, settings, c)
                            &&& joined_in(reg3, reg_after, app, c.key(), c.text(), hash, display_name, password, out, session_after)
                        }
                    } else if !reg2.has_room(app, code.key()) {
                        is_error_reply(out, "room not found"@) && reg_after == reg2 && session_after is None
                    } else {
                        joined_in(reg2, reg_after, app, code.key(), code.text(), hash, display_name, password, out, session_after)
                    }
                }
            },
        }
    }
}

/// A borrowed view of an optional string.
pub fn opt_str(o: &Option<String>) -> (r: Option<&str>)
    ensures
        opt_chars(r) == opt_string_chars(*o),
{
    match o {
        Some(t) => Some(t.as_str()),
        None => None,
    }
}

/// Answers a hello: leaves the current room, checks the hello, and joins the
/// room it names (or a new room of the app when it names none).
pub fn handle_hello(
    registry: &mut AppRegistry,
    catalog: &mut AppCatalog,
    secret: Option<&str>,
    on_disk: Option<AppRoomDefaults>,
    session: &mut Option<Session>,
    my_tx: &tokio::sync::mpsc::Sender<ServerMessage>,
    app_key: String,
    room_code: RoomCode,
    client_hash: String,
    display_name: Option<String>,
    auth_token: Option<String>,
    password: Option<String>,
) -> (out: Vec<ServerMessage>)
    requires
        old(registry).wf(),
    ensures
        final(registry).wf(),
        hello_done(*old(registry), *final(registry), *old(catalog), *final(catalog), *old(session), *final(session),
            out@, secret, on_disk, app_key@, room_code, client_hash@, display_name, auth_token, password),
{
    let mut to_send: Vec<ServerMessage> = Vec::new();
    match session {
        Some(s) => {
            leave_room(registry, s.app_key.as_str(), &s.room_code, s.peer_id);
        },
        None => {},
    }
    *session = None;
    let ghost reg1 = *registry;
    assert(session_left(*old(registry), reg1, *old(session)));
    let code_len = room_code.as_str().as_bytes().len();
    let ghost cat0 = *catalog;
    match admit_hello(catalog, secret, on_disk, app_key.as_str(), code_len, client_hash.as_str(),
        opt_str(&display_name), opt_str(&auth_token), opt_str(&password)) {
        Err(e) => {
            to_send.push(ServerMessage::Error { message: e });
            return to_send;
        },
        Ok(()) => {},
    }
    proof {
        cat0.lemma_learned_knows(*catalog, app_key@, on_disk);
    }
    let i = registry.ensure_pool(app_key.as_str());
    let ghost reg2 = *registry;
    assert(reg1.pool_ensured(reg2, app_key@));
    let ghost app = app_key@;
    if room_code.as_str().is_empty() {
        let ghost cat1 = *catalog;
        let default_settings = default_room_settings_for_app(catalog, app_key.as_str(), None);
        let ghost pool_before = registry.pools@[i as int];
        assert(pool_before.wf());
        proof {
            reveal_strlit("");
        }
        match registry.pools[i].create_room(default_settings, "") {
            Some(c) => {
                let j = registry.pools[i].rooms.len() - 1;
                let ghost reg3 = *registry;
                proof {
                    assert(room_added(reg2, reg3, app, cat0.resolve(app, on_disk).unwrap(), c));
                    assert(reg3.wf()) by {
                        assert forall|k: int| 0 <= k < reg3.pools@.len() implies (#[trigger] reg3.pools@[k]).wf() by {
                            if k != i {
                                assert(reg3.pools@[k] == reg2.pools@[k]);
                            }
                        }
                        assert forall|a: int, b: int| 0 <= a < b < reg3.pools@.len() implies
                            (#[trigger] reg3.pools@[a]).app_key@ != (#[trigger] reg3.pools@[b]).app_key@ by {
                            assert(reg2.pools@[a].app_key@ != reg2.pools@[b].app_key@);
                        }
                    }
                    let k = reg3.pool_pos(app);
                    if k != i {
                        if k < i {
                            assert(reg3.pools@[k].app_key@ != reg3.pools@[i as int].app_key@);
                        } else {
                            assert(reg3.pools@[i as int].app_key@ != reg3.pools@[k].app_key@);
                        }
                    }
                    assert(reg3.pools@[i as int].rooms@[j as int].code.key() == c.key());
                    let m = reg3.room_pos(app, c.key());
                    if m != j {
                        assert(reg3.pools@[i as int].rooms@[m].code.key() != reg3.pools@[i as int].rooms@[j as int].code.key());
                    }
                }
                let (msgs, joined) = join_room(&mut registry.pools[i].rooms[j], &c, my_tx, &client_hash, &display_name, &password);
                let ghost fin = registry.pools@[i as int].rooms@[j as int];
                proof {
                    assert(reg3.with_room(*registry, app, c.key(), fin));
                    reg3.lemma_with_room(*registry, app, c.key(), fin);
                }
                if let Some(peer_id) = joined {
                    *session = Some(Session { app_key, room_code: c, peer_id });
                }
                return msgs;
            },
            None => {
                to_send.push(ServerMessage::Error { message: "failed to create room".to_owned() });
                return to_send;
            },
        }
    }
    let j = match registry.pools[i].room_index(&room_code) {
        Some(j) => j,
        None => {
            to_send.push(ServerMessage::Error { message: "room not found".to_owned() });
            return to_send;
        },
    };
    proof {
        let m = reg2.room_pos(app, room_code.key());
        if m != j {
            if m < j {
                assert(reg2.pools@[i as int].rooms@[m].code.key() != reg2.pools@[i as int].rooms@[j as int].code.key());
            } else {
                assert(reg2.pools@[i as int].rooms@[j as int].code.key() != reg2.pools@[i as int].rooms@[m].code.key());
            }
        }
    }
    let code = room_code.clone();
    let (msgs, joined) = join_room(&mut registry.pools[i].rooms[j], &code, my_tx, &client_hash, &display_name, &password);
    let ghost fin = registry.pools@[i as int].rooms@[j as int];
    proof {
        assert(reg2.with_room(*registry, app, room_code.key(), fin));
        reg2.lemma_with_room(*registry, app, room_code.key(), fin);
    }
    if let Some(peer_id) = joined {
        *session = Some(Session { app_key, room_code: code, peer_id });
    }
    msgs
}

/// A client that the host banned is refused when it sends a hello for that
/// room again (with the same hash), and gets no session: across two calls
/// of `dispatch`, the Ban and the later Hello.
pub proof fn lemma_ban_then_hello_refused(
    reg0: AppRegistry,
    reg1: AppRegistry,
    reg2: AppRegistry,
    cat0: AppCatalog,
    cat1: AppCatalog,
    cat2: AppCatalog,
    host: Session,
    pid: PeerId,
    s1: Option<Session>,
    out1: Seq<ServerMessage>,
    s2: Option<Session>,
    out2: Seq<ServerMessage>,
    secret: Option<&str>,
    on_disk: Option<AppRoomDefaults>,
    app_key: String,
    room_code: RoomCode,
    client_hash: String,
    display_name: Option<String>,
    auth_token: Option<String>,
    password: Option<String>,
)
    requires
        reg0.wf(),
        reg1.wf(),
        reg0.has_room(host.app_key@, host.room_code.key()),
        reg0.room_of(host.app_key@, host.room_code.key()).host_peer_id == host.peer_id,
        reg0.room_of(host.app_key@, host.room_code.key()).clients@.contains_key(pid),
        client_hash@ == reg0.room_of(host.app_key@, host.room_code.key()).clients@[pid].client_hash.0@,
        dispatched(reg0, reg1, cat0, cat1, Some(host), s1, ClientMessage::RoomControl(RoomControl::Ban(pid)), out1,
            secret, on_disk),
        app_key@ == host.app_key@,
        room_code.key() == host.room_code.key(),
        hello_refusal(cat1, secret, on_disk, app_key@, utf8_len(room_code.text()), client_hash@,
            opt_string_chars(display_name), opt_string_chars(auth_token), opt_string_chars(password)) is None,
        dispatched(reg1, reg2, cat1, cat2, None, s2,
            ClientMessage::Hello { app_key, room_code, client_hash, display_name, auth_token, password }, out2,
            secret, on_disk),
    ensures
        is_error_reply(out2, "banned from this room"@),
        s2 is None,
{
    let app = host.app_key@;
    let key = host.room_code.key();
    let room = reg0.room_of(app, key);
    let hash = room.clients@[pid].client_hash;
    let fin = choose|fin: Room| #[trigger] control_applied(room, fin, RoomControl::Ban(pid))
        && reg0.with_room(reg1, app, key, fin);
    let i = reg0.pool_pos(app);
    let j = reg0.room_pos(app, key);
    assert(reg0.pools@[i].wf());
    assert(room.wf());
    assert(room.code.key().len() > 0);
    if room_code.text().len() == 0 {
        assert(room_code.key() =~= Seq::<char>::empty());
    }
    assert(reg1.pools@[i].rooms@[j] == fin);
    assert(fin.wf());
    let mid = choose|mid: Room| {
        &&& #[trigger] crate::control::alike(room, mid)
        &&& mid.clients@ == room.clients@.remove(pid)
        &&& mid.pending == room.pending
        &&& mid.host_peer_id == room.host_peer_id
        &&& mid.settings == room.settings
        &&& mid.banned@ == ban_list_with(room.banned@, hash)
        &&& crate::control::told_if_present(room.sent@, mid.sent@, room.clients@, pid, ServerMessage::RoomEvent(crate::protocol::RoomEvent::Banned))
        &&& crate::registry::broadcast_done(mid, fin, ServerMessage::PeerLeft { peer_id: pid })
    };
    assert(fin.code.key() == key);
    reg0.lemma_with_room(reg1, app, key, fin);
    if !(exists|k: int| 0 <= k < room.banned@.len() && #[trigger] room.banned@[k].0@ == hash.0@) {
        let n = room.banned@.len() as int;
        assert(fin.banned@[n].0@ == hash.0@);
    }
    assert(fin.bans(hash.0@));
    assert(reg1.has_pool(app));
    assert(reg1.pool_ensured(reg1, app));
}

} // verus!
