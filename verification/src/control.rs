//! Room control: what the host of a room may change, and leaving.

use vstd::prelude::*;
use crate::protocol::{RoomControl, RoomEvent, ServerMessage};
use crate::registry::{broadcast_and_prune, broadcast_done, leave_room, left_room, AppRegistry};
use crate::room::{added, closed_set, lemma_closed_set_concat, offer, offered, pruned, told, ClientInfo, PeerId, Room};
use crate::protocol::same_message;
use crate::hello::copy_opt_string;
use crate::identity::ClientHash;
use crate::settings::RoomSettings;
use crate::dispatch::{is_error_reply, session_room, Session};

verus! {

broadcast use vstd::std_specs::hash::group_hash_axioms;

/// `after` differs from `before` at most in clients, pending, host,
/// settings and ban list.
pub open spec fn alike(before: Room, after: Room) -> bool {
    &&& after.state == before.state
    &&& after.code == before.code
    &&& after.app_key == before.app_key
    &&& after.next_peer_id == before.next_peer_id
}

/// `after` holds what `before` holds, the peer counter aside.
pub open spec fn unchanged_room(before: Room, after: Room) -> bool {
    &&& after.state == before.state
    &&& after.code == before.code
    &&& after.app_key == before.app_key
    &&& after.clients@ == before.clients@
    &&& after.pending@ == before.pending@
    &&& after.host_peer_id == before.host_peer_id
    &&& after.settings == before.settings
    &&& after.banned == before.banned
    &&& after.sent == before.sent
}

/// `after` is `before` with nothing changed but the settings, now `settings`.
pub open spec fn settings_set(before: Room, after: Room, settings: RoomSettings) -> bool {
    &&& alike(before, after)
    &&& after.settings == settings
    &&& after.clients == before.clients
    &&& after.pending == before.pending
    &&& after.host_peer_id == before.host_peer_id
    &&& after.banned == before.banned
    &&& after.sent == before.sent
}

/// `after` is `before` once `msg` was handed to `pid`'s channel, if `pid`
/// is in `peers`; nothing was handed otherwise.
pub open spec fn told_if_present(before: Seq<(PeerId, ServerMessage, bool)>, after: Seq<(PeerId, ServerMessage, bool)>, peers: Map<PeerId, ClientInfo>, pid: PeerId, msg: ServerMessage) -> bool {
    if peers.contains_key(pid) {
        told(before, after, pid, msg)
    } else {
        after == before
    }
}

/// The ban list once `hash` is banned (kept as a set).
pub open spec fn ban_list_with(banned: Seq<ClientHash>, hash: ClientHash) -> Seq<ClientHash> {
    if exists|i: int| 0 <= i < banned.len() && #[trigger] banned[i].0@ == hash.0@ {
        banned
    } else {
        banned.push(hash)
    }
}

/// What a room-control request by the host does to the room: the change,
/// and then (for the changes that are announced) the pruning of peers whose
/// channels turned out closed.
pub open spec fn control_applied(before: Room, after: Room, rc: RoomControl) -> bool {
    match rc {
        RoomControl::UpdateSettings(ns) => exists|mid: Room|
            #[trigger] settings_set(before, mid, ns)
                && broadcast_done(mid, after, ServerMessage::RoomEvent(RoomEvent::SettingsChanged(ns.without_password()))),
        RoomControl::SetPublic(b) =>
            settings_set(before, after, RoomSettings { is_public: b, ..before.settings }),
        RoomControl::AcceptPeer(pid) => if before.pending@.contains_key(pid) {
            exists|mid: Room| {
                &&& #[trigger] alike(before, mid)
                &&& mid.pending@ == before.pending@.remove(pid)
                &&& mid.clients@ == before.clients@.insert(pid, before.pending@[pid])
                &&& mid.host_peer_id == before.host_peer_id
                &&& mid.settings == before.settings
                &&& mid.banned == before.banned
                &&& mid.sent == before.sent
                &&& broadcast_done(mid, after, ServerMessage::PeerJoined {
                    peer_id: pid,
                    client_hash: before.pending@[pid].client_hash.0,
                    display_name: before.pending@[pid].display_name,
                })
            }
        } else {
            unchanged_room(before, after) && after.next_peer_id == before.next_peer_id
        },
        RoomControl::DenyPeer(pid) => {
            &&& alike(before, after)
            &&& after.pending@ == before.pending@.remove(pid)
            &&& after.clients == before.clients
            &&& after.host_peer_id == before.host_peer_id
            &&& after.settings == before.settings
            &&& after.banned == before.banned
            &&& told_if_present(before.sent@, after.sent@, before.pending@, pid, ServerMessage::RoomEvent(RoomEvent::Kicked))
        },
        RoomControl::Kick(pid) => exists|mid: Room| {
            &&& #[trigger] alike(before, mid)
            &&& mid.clients@ == before.clients@.remove(pid)
            &&& mid.pending == before.pending
            &&& mid.host_peer_id == before.host_peer_id
            &&& mid.settings == before.settings
            &&& mid.banned == before.banned
            &&& told_if_present(before.sent@, mid.sent@, before.clients@, pid, ServerMessage::RoomEvent(RoomEvent::Kicked))
            &&& broadcast_done(mid, after, ServerMessage::PeerLeft { peer_id: pid })
        },
        RoomControl::Ban(pid) => exists|mid: Room| {
            &&& #[trigger] alike(before, mid)
            &&& mid.clients@ == before.clients@.remove(pid)
            &&& mid.pending == before.pending
            &&& mid.host_peer_id == before.host_peer_id
            &&& mid.settings == before.settings
            &&& mid.banned@ == if before.clients@.contains_key(pid) {
                ban_list_with(before.banned@, before.clients@[pid].client_hash)
            } else {
                before.banned@
            }
            &&& told_if_present(before.sent@, mid.sent@, before.clients@, pid, ServerMessage::RoomEvent(RoomEvent::Banned))
            &&& broadcast_done(mid, after, ServerMessage::PeerLeft { peer_id: pid })
        },
        RoomControl::TransferHost(pid) => if before.clients@.contains_key(pid) {
            exists|mid: Room| {
                &&& #[trigger] alike(before, mid)
                &&& mid.clients == before.clients
                &&& mid.pending == before.pending
                &&& mid.host_peer_id == pid
                &&& mid.settings == before.settings
                &&& mid.banned == before.banned
                &&& mid.sent == before.sent
                &&& broadcast_done(mid, after, ServerMessage::RoomEvent(RoomEvent::HostTransferred(pid)))
            }
        } else {
            unchanged_room(before, after) && after.next_peer_id == before.next_peer_id
        },
        _ => unchanged_room(before, after) && after.next_peer_id == before.next_peer_id,
    }
}

/// What answering a RoomControl request does.
pub open spec fn control_done(
    before: AppRegistry,
    after: AppRegistry,
    session_before: Option<Session>,
    session_after: Option<Session>,
    rc: RoomControl,
    out: Seq<ServerMessage>,
) -> bool {
    match session_before {
        None => is_error_reply(out, "not in a room"@) && after == before && session_after is None,
        Some(s) => match rc {
            RoomControl::Leave => {
                &&& out.len() == 0
                &&& session_after is None
                &&& left_room(before, after, s.app_key@, s.room_code.key(), s.peer_id)
            },
            RoomControl::CreateRoom { .. } => {
                &&& is_error_reply(out, "already in a room"@)
                &&& after == before
                &&& session_after == session_before
            },
            _ => session_after == session_before && match session_room(before, s) {
                None => out.len() == 0 && after == before,
                Some(room) => if room.host_peer_id != s.peer_id {
                    is_error_reply(out, "forbidden or invalid"@) && after == before
                } else {
                    &&& out.len() == 0
                    &&& exists|fin: Room| #[trigger] control_applied(room, fin, rc)
                        && before.with_room(after, s.app_key@, s.room_code.key(), fin)
                },
            },
        },
    }
}

/// The change a host's request makes to its room.
fn apply_control(room: &mut Room, rc: RoomControl)
    requires
        old(room).wf(),
        !(rc is Leave),
        !(rc is CreateRoom),
    ensures
        final(room).wf(),
        control_applied(*old(room), *final(room), rc),
{
    match rc {
        RoomControl::UpdateSettings(new_settings) => {
            let mut safe_settings = new_settings.clone();
            safe_settings.password = None;
            room.settings = new_settings;
            let ghost mid = *room;
            broadcast_and_prune(room, &ServerMessage::RoomEvent(RoomEvent::SettingsChanged(safe_settings)));
            assert(settings_set(*old(room), mid, mid.settings));
            assert(control_applied(*old(room), *room, rc));
        },
        RoomControl::SetPublic(b) => {
            room.settings.is_public = b;
            assert(control_applied(*old(room), *room, rc));
        },
        RoomControl::AcceptPeer(pid) => {
            if let Some(info) = room.pending.remove(&pid) {
                let client_hash = info.client_hash.0.clone();
                let display_name = copy_opt_string(&info.display_name);
                room.clients.insert(pid, info);
                let ghost mid = *room;
                broadcast_and_prune(room, &ServerMessage::PeerJoined { peer_id: pid, client_hash, display_name });
                assert(alike(*old(room), mid));
                assert(control_applied(*old(room), *room, rc));
            } else {
                assert(room.pending@ =~= old(room).pending@);
                assert(unchanged_room(*old(room), *room));
                assert(control_applied(*old(room), *room, rc));
            }
        },
        RoomControl::DenyPeer(pid) => {
            if let Some(info) = room.pending.remove(&pid) {
                let _ = offer(&mut room.sent, pid, &info.tx, ServerMessage::RoomEvent(RoomEvent::Kicked));
                proof {
                    assert(room.sent@.drop_last() =~= old(room).sent@);
                }
            }
            proof {
                if !old(room).pending@.contains_key(pid) {
                    assert(old(room).pending@.remove(pid) =~= old(room).pending@);
                }
            }
            assert(control_applied(*old(room), *room, rc));
        },
        RoomControl::Kick(pid) => {
            if let Some(info) = room.clients.remove(&pid) {
                let _ = offer(&mut room.sent, pid, &info.tx, ServerMessage::RoomEvent(RoomEvent::Kicked));
                proof {
                    assert(room.sent@.drop_last() =~= old(room).sent@);
                }
            }
            proof {
                if !old(room).clients@.contains_key(pid) {
                    assert(old(room).clients@.remove(pid) =~= old(room).clients@);
                }
            }
            let ghost mid = *room;
            broadcast_and_prune(room, &ServerMessage::PeerLeft { peer_id: pid });
            assert(alike(*old(room), mid));
            assert(control_applied(*old(room), *room, rc));
        },
        RoomControl::Ban(pid) => {
            if let Some(info) = room.clients.remove(&pid) {
                if !room.is_banned(&info.client_hash) {
                    room.banned.push(info.client_hash.clone());
                }
                let _ = offer(&mut room.sent, pid, &info.tx, ServerMessage::RoomEvent(RoomEvent::Banned));
                proof {
                    assert(room.sent@.drop_last() =~= old(room).sent@);
                }
            }
            proof {
                if !old(room).clients@.contains_key(pid) {
                    assert(old(room).clients@.remove(pid) =~= old(room).clients@);
                }
            }
            let ghost mid = *room;
            broadcast_and_prune(room, &ServerMessage::PeerLeft { peer_id: pid });
            assert(alike(*old(room), mid));
            assert(mid.banned@ == if old(room).clients@.contains_key(pid) {
                ban_list_with(old(room).banned@, old(room).clients@[pid].client_hash)
            } else {
                old(room).banned@
            });
            assert(control_applied(*old(room), *room, rc));
        },
        RoomControl::TransferHost(pid) => {
            if room.clients.contains_key(&pid) {
                room.host_peer_id = pid;
                let ghost mid = *room;
                broadcast_and_prune(room, &ServerMessage::RoomEvent(RoomEvent::HostTransferred(pid)));
                assert(alike(*old(room), mid));
                assert(control_applied(*old(room), *room, rc));
            } else {
                assert(control_applied(*old(room), *room, rc));
            }
        },
        _ => {},
    }
}

/// The logs of two steps, one after the other, add what each step added.
proof fn lemma_added_steps(a: Seq<(PeerId, ServerMessage, bool)>, b: Seq<(PeerId, ServerMessage, bool)>, c: Seq<(PeerId, ServerMessage, bool)>)
    requires
        crate::room::extends(a, b),
        crate::room::extends(b, c),
    ensures
        crate::room::extends(a, c),
        added(a, c) == added(a, b) + added(b, c),
        closed_set(added(a, c)) == closed_set(added(a, b)) + closed_set(added(b, c)),
{
    assert(c.take(a.len() as int) =~= b.take(a.len() as int));
    assert(added(a, c) =~= added(a, b) + added(b, c));
    lemma_closed_set_concat(added(a, b), added(b, c));
}

/// A peer taken out of the accepted clients (and told so, if it was one),
/// then a broadcast: the accepted clients left are those of the start but
/// that peer, less the peers whose channels reported closed meanwhile.
proof fn lemma_removal_broadcast(r0: Room, mid: Room, fin: Room, pid: PeerId, m: ServerMessage, msg: ServerMessage)
    requires
        r0.wf(),
        mid.clients@ == r0.clients@.remove(pid),
        mid.pending == r0.pending,
        told_if_present(r0.sent@, mid.sent@, r0.clients@, pid, m),
        broadcast_done(mid, fin, msg),
    ensures
        crate::room::extends(r0.sent@, fin.sent@),
        fin.clients@ == r0.clients@.remove(pid).remove_keys(closed_set(added(r0.sent@, fin.sent@))),
        r0.clients@.contains_key(pid) ==> offered(added(r0.sent@, fin.sent@), pid, m),
        forall|q: PeerId| #[trigger] r0.clients@.contains_key(q) && q != pid ==>
            exists|x: ServerMessage| #[trigger] offered(added(r0.sent@, fin.sent@), q, x) && same_message(msg, x),
{
    let a = added(r0.sent@, mid.sent@);
    let b = added(mid.sent@, fin.sent@);
    if r0.clients@.contains_key(pid) {
        assert(mid.sent@.take(r0.sent@.len() as int) =~= mid.sent@.drop_last());
    } else {
        assert(mid.sent@.take(r0.sent@.len() as int) =~= r0.sent@);
    }
    lemma_added_steps(r0.sent@, mid.sent@, fin.sent@);
    let gone = closed_set(added(r0.sent@, fin.sent@));
    assert(closed_set(a).subset_of(set![pid])) by {
        assert forall|q: PeerId| closed_set(a).contains(q) implies q == pid by {
            let k = choose|k: int| 0 <= k < a.len() && (#[trigger] a[k]).0 == q && a[k].2;
            assert(a[k] == mid.sent@[r0.sent@.len() + k]);
        }
    }
    assert(fin.clients@ =~= r0.clients@.remove(pid).remove_keys(gone)) by {
        assert forall|q: PeerId| #[trigger] fin.clients@.contains_key(q) implies
            r0.clients@.remove(pid).remove_keys(gone).contains_key(q) by {
            assert(!crate::room::removed_ids(mid, fin).contains(q));
        }
        assert forall|q: PeerId| #[trigger] r0.clients@.remove(pid).remove_keys(gone).contains_key(q) implies
            fin.clients@.contains_key(q) by {
            assert(!closed_set(b).contains(q));
            assert(!fin.pending@.contains_key(q));
            assert(!crate::room::removed_ids(mid, fin).contains(q));
        }
    }
    if r0.clients@.contains_key(pid) {
        assert((a + b)[0] == a[0]);
        assert(offered(a + b, pid, m));
    }
    assert forall|q: PeerId| #[trigger] r0.clients@.contains_key(q) && q != pid implies
        exists|x: ServerMessage| #[trigger] offered(added(r0.sent@, fin.sent@), q, x) && same_message(msg, x) by {
        assert(mid.clients@.dom().contains(q));
        crate::registry::lemma_begins_offers_some(b, mid.clients@.dom(), |y: ServerMessage| same_message(msg, y), q);
        let x = choose|x: ServerMessage| #[trigger] offered(b, q, x) && same_message(msg, x);
        let k = choose|k: int| 0 <= k < b.len() && (#[trigger] b[k]).0 == q && b[k].1 == x;
        assert((a + b)[a.len() + k] == b[k]);
        assert(offered(a + b, q, x));
    }
}

/// A broadcast reaches each accepted client of the room it started from.
proof fn lemma_broadcast_reaches(mid: Room, fin: Room, msg: ServerMessage, q: PeerId)
    requires
        broadcast_done(mid, fin, msg),
        mid.clients@.contains_key(q),
    ensures
        exists|x: ServerMessage| #[trigger] offered(added(mid.sent@, fin.sent@), q, x) && same_message(msg, x),
{
    assert(mid.clients@.dom().contains(q));
    crate::registry::lemma_begins_offers_some(added(mid.sent@, fin.sent@), mid.clients@.dom(),
        |y: ServerMessage| same_message(msg, y), q);
}

/// A host's room control (other than leaving or creating a room) leaves the
/// room in place, changed as the request says.
proof fn lemma_host_control(
    before: AppRegistry,
    after: AppRegistry,
    s: Session,
    s2: Option<Session>,
    rc: RoomControl,
    out: Seq<ServerMessage>,
)
    requires
        before.wf(),
        after.wf(),
        control_done(before, after, Some(s), s2, rc, out),
        before.has_room(s.app_key@, s.room_code.key()),
        before.room_of(s.app_key@, s.room_code.key()).host_peer_id == s.peer_id,
        !(rc is Leave),
        !(rc is CreateRoom),
    ensures
        after.has_room(s.app_key@, s.room_code.key()),
        before.room_of(s.app_key@, s.room_code.key()).wf(),
        control_applied(before.room_of(s.app_key@, s.room_code.key()), after.room_of(s.app_key@, s.room_code.key()), rc),
{
    let app = s.app_key@;
    let key = s.room_code.key();
    let r0 = before.room_of(app, key);
    assert(session_room(before, s) == Some(r0));
    let fin = choose|fin: Room| #[trigger] control_applied(r0, fin, rc) && before.with_room(after, app, key, fin);
    let i = before.pool_pos(app);
    let j = before.room_pos(app, key);
    assert(before.pools@[i].wf());
    assert(after.pools@[i].rooms@[j] == fin);
    assert(after.pools@[i].wf());
    assert(fin.wf());
    assert(fin.code.key() == key) by {
        assert(after.pools@[i].rooms@[j].code.key() == before.pools@[i].rooms@[j].code.key()) by {
            match rc {
                RoomControl::SetPublic(_) => {},
                RoomControl::DenyPeer(_) => {},
                _ => {},
            }
        }
    }
    before.lemma_with_room(after, app, key, fin);
}

/// A kick takes the player out of the room: after the host's Kick(pid) the
/// room's accepted clients are exactly those it had before but pid, less the
/// peers whose channels reported closed while the news went out; the
/// pending clients and the settings stay as they were. pid, if it was an
/// accepted client, is told Kicked, and every other client accepted before
/// is told PeerLeft.
pub proof fn lemma_kick_removes_player(
    before: AppRegistry,
    after: AppRegistry,
    s: Session,
    s2: Option<Session>,
    pid: PeerId,
    out: Seq<ServerMessage>,
)
    requires
        before.wf(),
        control_done(before, after, Some(s), s2, RoomControl::Kick(pid), out),
        before.has_room(s.app_key@, s.room_code.key()),
        before.room_of(s.app_key@, s.room_code.key()).host_peer_id == s.peer_id,
    ensures
        after.has_room(s.app_key@, s.room_code.key()),
        !after.room_of(s.app_key@, s.room_code.key()).clients@.contains_key(pid),
        after.room_of(s.app_key@, s.room_code.key()).clients@
            == before.room_of(s.app_key@, s.room_code.key()).clients@.remove(pid).remove_keys(
                closed_set(added(before.room_of(s.app_key@, s.room_code.key()).sent@,
                    after.room_of(s.app_key@, s.room_code.key()).sent@))),
        after.room_of(s.app_key@, s.room_code.key()).pending@ == before.room_of(s.app_key@, s.room_code.key()).pending@,
        after.room_of(s.app_key@, s.room_code.key()).settings == before.room_of(s.app_key@, s.room_code.key()).settings,
        before.room_of(s.app_key@, s.room_code.key()).clients@.contains_key(pid) ==> offered(
            added(before.room_of(s.app_key@, s.room_code.key()).sent@, after.room_of(s.app_key@, s.room_code.key()).sent@),
            pid, ServerMessage::RoomEvent(RoomEvent::Kicked)),
        forall|q: PeerId| #[trigger] before.room_of(s.app_key@, s.room_code.key()).clients@.contains_key(q) && q != pid ==>
            offered(added(before.room_of(s.app_key@, s.room_code.key()).sent@, after.room_of(s.app_key@, s.room_code.key()).sent@),
                q, ServerMessage::PeerLeft { peer_id: pid }),
{
    let app = s.app_key@;
    let key = s.room_code.key();
    let r0 = before.room_of(app, key);
    assert(session_room(before, s) == Some(r0));
    let fin = choose|fin: Room| #[trigger] control_applied(r0, fin, RoomControl::Kick(pid))
        && before.with_room(after, app, key, fin);
    let i = before.pool_pos(app);
    assert(before.pools@[i].wf());
    assert(r0.wf());
    let mid = choose|mid: Room| {
        &&& #[trigger] alike(r0, mid)
        &&& mid.clients@ == r0.clients@.remove(pid)
        &&& mid.pending == r0.pending
        &&& mid.host_peer_id == r0.host_peer_id
        &&& mid.settings == r0.settings
        &&& mid.banned == r0.banned
        &&& told_if_present(r0.sent@, mid.sent@, r0.clients@, pid, ServerMessage::RoomEvent(RoomEvent::Kicked))
        &&& broadcast_done(mid, fin, ServerMessage::PeerLeft { peer_id: pid })
    };
    assert(mid.wf());
    assert(fin.wf()) by {
        assert(fin.clients@.dom().subset_of(mid.clients@.dom()));
    }
    assert(fin.code.key() == key);
    before.lemma_with_room(after, app, key, fin);
    lemma_removal_broadcast(r0, mid, fin, pid, ServerMessage::RoomEvent(RoomEvent::Kicked),
        ServerMessage::PeerLeft { peer_id: pid });
}

/// New settings are kept as the host sent them: after the host's
/// UpdateSettings(ns) the room's settings are ns, password included (only
/// the copy announced to the players has its password cleared: each client
/// accepted before is handed SettingsChanged with ns and no password); no
/// player is added.
pub proof fn lemma_settings_kept_as_sent(
    before: AppRegistry,
    after: AppRegistry,
    s: Session,
    s2: Option<Session>,
    ns: RoomSettings,
    out: Seq<ServerMessage>,
)
    requires
        before.wf(),
        control_done(before, after, Some(s), s2, RoomControl::UpdateSettings(ns), out),
        before.has_room(s.app_key@, s.room_code.key()),
        before.room_of(s.app_key@, s.room_code.key()).host_peer_id == s.peer_id,
    ensures
        after.has_room(s.app_key@, s.room_code.key()),
        after.room_of(s.app_key@, s.room_code.key()).settings == ns,
        after.room_of(s.app_key@, s.room_code.key()).settings.password == ns.password,
        after.room_of(s.app_key@, s.room_code.key()).clients@.dom().subset_of(
            before.room_of(s.app_key@, s.room_code.key()).clients@.dom()),
        after.room_of(s.app_key@, s.room_code.key()).pending@ == before.room_of(s.app_key@, s.room_code.key()).pending@,
        forall|q: PeerId| #[trigger] before.room_of(s.app_key@, s.room_code.key()).clients@.contains_key(q) ==>
            offered(added(before.room_of(s.app_key@, s.room_code.key()).sent@, after.room_of(s.app_key@, s.room_code.key()).sent@),
                q, ServerMessage::RoomEvent(RoomEvent::SettingsChanged(RoomSettings { password: None, ..ns }))),
{
    let app = s.app_key@;
    let key = s.room_code.key();
    let r0 = before.room_of(app, key);
    assert(session_room(before, s) == Some(r0));
    let fin = choose|fin: Room| #[trigger] control_applied(r0, fin, RoomControl::UpdateSettings(ns))
        && before.with_room(after, app, key, fin);
    let i = before.pool_pos(app);
    assert(before.pools@[i].wf());
    assert(r0.wf());
    let mid = choose|mid: Room| #[trigger] settings_set(r0, mid, ns)
        && broadcast_done(mid, fin, ServerMessage::RoomEvent(RoomEvent::SettingsChanged(ns.without_password())));
    assert(mid.wf());
    assert(fin.wf()) by {
        assert(fin.clients@.dom().subset_of(mid.clients@.dom()));
    }
    assert(fin.code.key() == key);
    before.lemma_with_room(after, app, key, fin);
    let msg = ServerMessage::RoomEvent(RoomEvent::SettingsChanged(ns.without_password()));
    assert forall|q: PeerId| #[trigger] r0.clients@.contains_key(q) implies
        offered(added(r0.sent@, fin.sent@), q, msg) by {
        lemma_broadcast_reaches(mid, fin, msg, q);
    }
}

/// A ban takes the player out of the room and keeps it out: after the
/// host's Ban(pid) of an accepted client, the room's accepted clients are
/// those it had but pid, less the peers whose channels reported closed
/// meanwhile, and the room bans pid's client hash; pid is told Banned and
/// every other client accepted before is told PeerLeft.
pub proof fn lemma_ban_removes_and_bars(
    before: AppRegistry,
    after: AppRegistry,
    s: Session,
    s2: Option<Session>,
    pid: PeerId,
    out: Seq<ServerMessage>,
)
    requires
        before.wf(),
        after.wf(),
        control_done(before, after, Some(s), s2, RoomControl::Ban(pid), out),
        before.has_room(s.app_key@, s.room_code.key()),
        before.room_of(s.app_key@, s.room_code.key()).host_peer_id == s.peer_id,
        before.room_of(s.app_key@, s.room_code.key()).clients@.contains_key(pid),
    ensures
        after.has_room(s.app_key@, s.room_code.key()),
        !after.room_of(s.app_key@, s.room_code.key()).clients@.contains_key(pid),
        after.room_of(s.app_key@, s.room_code.key()).clients@
            == before.room_of(s.app_key@, s.room_code.key()).clients@.remove(pid).remove_keys(
                closed_set(added(before.room_of(s.app_key@, s.room_code.key()).sent@,
                    after.room_of(s.app_key@, s.room_code.key()).sent@))),
        after.room_of(s.app_key@, s.room_code.key()).bans(
            before.room_of(s.app_key@, s.room_code.key()).clients@[pid].client_hash.0@),
        after.room_of(s.app_key@, s.room_code.key()).pending@ == before.room_of(s.app_key@, s.room_code.key()).pending@,
        offered(added(before.room_of(s.app_key@, s.room_code.key()).sent@, after.room_of(s.app_key@, s.room_code.key()).sent@),
            pid, ServerMessage::RoomEvent(RoomEvent::Banned)),
        forall|q: PeerId| #[trigger] before.room_of(s.app_key@, s.room_code.key()).clients@.contains_key(q) && q != pid ==>
            offered(added(before.room_of(s.app_key@, s.room_code.key()).sent@, after.room_of(s.app_key@, s.room_code.key()).sent@),
                q, ServerMessage::PeerLeft { peer_id: pid }),
{
    lemma_host_control(before, after, s, s2, RoomControl::Ban(pid), out);
    let r0 = before.room_of(s.app_key@, s.room_code.key());
    let fin = after.room_of(s.app_key@, s.room_code.key());
    let hash = r0.clients@[pid].client_hash;
    let mid = choose|mid: Room| {
        &&& #[trigger] alike(r0, mid)
        &&& mid.clients@ == r0.clients@.remove(pid)
        &&& mid.pending == r0.pending
        &&& mid.host_peer_id == r0.host_peer_id
        &&& mid.settings == r0.settings
        &&& mid.banned@ == ban_list_with(r0.banned@, hash)
        &&& told_if_present(r0.sent@, mid.sent@, r0.clients@, pid, ServerMessage::RoomEvent(RoomEvent::Banned))
        &&& broadcast_done(mid, fin, ServerMessage::PeerLeft { peer_id: pid })
    };
    lemma_removal_broadcast(r0, mid, fin, pid, ServerMessage::RoomEvent(RoomEvent::Banned),
        ServerMessage::PeerLeft { peer_id: pid });
    if !(exists|k: int| 0 <= k < r0.banned@.len() && #[trigger] r0.banned@[k].0@ == hash.0@) {
        let n = r0.banned@.len() as int;
        assert(fin.banned@[n].0@ == hash.0@);
    }
}

/// Accepting a waiting newcomer makes it a player: after the host's
/// AcceptPeer(pid) of a pending client, pid is pending no more, and the
/// accepted clients are those of before with pid added (with the record it
/// had while waiting), less the peers whose channels reported closed while
/// its arrival was announced: PeerJoined with its id, hash and name, handed
/// to it and to each client accepted before.
pub proof fn lemma_accept_admits(
    before: AppRegistry,
    after: AppRegistry,
    s: Session,
    s2: Option<Session>,
    pid: PeerId,
    out: Seq<ServerMessage>,
)
    requires
        before.wf(),
        after.wf(),
        control_done(before, after, Some(s), s2, RoomControl::AcceptPeer(pid), out),
        before.has_room(s.app_key@, s.room_code.key()),
        before.room_of(s.app_key@, s.room_code.key()).host_peer_id == s.peer_id,
        before.room_of(s.app_key@, s.room_code.key()).pending@.contains_key(pid),
    ensures
        after.has_room(s.app_key@, s.room_code.key()),
        after.room_of(s.app_key@, s.room_code.key()).pending@ == before.room_of(s.app_key@, s.room_code.key()).pending@.remove(pid),
        after.room_of(s.app_key@, s.room_code.key()).clients@
            == before.room_of(s.app_key@, s.room_code.key()).clients@.insert(pid,
                before.room_of(s.app_key@, s.room_code.key()).pending@[pid]).remove_keys(
                closed_set(added(before.room_of(s.app_key@, s.room_code.key()).sent@,
                    after.room_of(s.app_key@, s.room_code.key()).sent@))),
        forall|q: PeerId| #[trigger] before.room_of(s.app_key@, s.room_code.key()).clients@.contains_key(q) || q == pid ==>
            offered(added(before.room_of(s.app_key@, s.room_code.key()).sent@, after.room_of(s.app_key@, s.room_code.key()).sent@),
                q, ServerMessage::PeerJoined {
                    peer_id: pid,
                    client_hash: before.room_of(s.app_key@, s.room_code.key()).pending@[pid].client_hash.0,
                    display_name: before.room_of(s.app_key@, s.room_code.key()).pending@[pid].display_name,
                }),
{
    lemma_host_control(before, after, s, s2, RoomControl::AcceptPeer(pid), out);
    let r0 = before.room_of(s.app_key@, s.room_code.key());
    let fin = after.room_of(s.app_key@, s.room_code.key());
    let mid = choose|mid: Room| {
        &&& #[trigger] alike(r0, mid)
        &&& mid.pending@ == r0.pending@.remove(pid)
        &&& mid.clients@ == r0.clients@.insert(pid, r0.pending@[pid])
        &&& mid.host_peer_id == r0.host_peer_id
        &&& mid.settings == r0.settings
        &&& mid.banned == r0.banned
        &&& mid.sent == r0.sent
        &&& broadcast_done(mid, fin, ServerMessage::PeerJoined {
            peer_id: pid,
            client_hash: r0.pending@[pid].client_hash.0,
            display_name: r0.pending@[pid].display_name,
        })
    };
    let gone = closed_set(added(r0.sent@, fin.sent@));
    assert(fin.clients@ =~= mid.clients@.remove_keys(gone)) by {
        assert forall|q: PeerId| #[trigger] fin.clients@.contains_key(q) implies
            mid.clients@.remove_keys(gone).contains_key(q) by {
            assert(!crate::room::removed_ids(mid, fin).contains(q));
        }
        assert forall|q: PeerId| #[trigger] mid.clients@.remove_keys(gone).contains_key(q) implies
            fin.clients@.contains_key(q) by {
            assert(!fin.pending@.contains_key(q));
            assert(!crate::room::removed_ids(mid, fin).contains(q));
        }
    }
    let msg = ServerMessage::PeerJoined {
        peer_id: pid,
        client_hash: r0.pending@[pid].client_hash.0,
        display_name: r0.pending@[pid].display_name,
    };
    assert forall|q: PeerId| #[trigger] r0.clients@.contains_key(q) || q == pid implies
        offered(added(r0.sent@, fin.sent@), q, msg) by {
        lemma_broadcast_reaches(mid, fin, msg, q);
    }
}

/// Denying a waiting newcomer turns it away: after the host's DenyPeer(pid)
/// the pending clients are those of before but pid; the accepted clients,
/// the host and the settings stay as they were.
pub proof fn lemma_deny_turns_away(
    before: AppRegistry,
    after: AppRegistry,
    s: Session,
    s2: Option<Session>,
    pid: PeerId,
    out: Seq<ServerMessage>,
)
    requires
        before.wf(),
        after.wf(),
        control_done(before, after, Some(s), s2, RoomControl::DenyPeer(pid), out),
        before.has_room(s.app_key@, s.room_code.key()),
        before.room_of(s.app_key@, s.room_code.key()).host_peer_id == s.peer_id,
    ensures
        after.has_room(s.app_key@, s.room_code.key()),
        after.room_of(s.app_key@, s.room_code.key()).pending@ == before.room_of(s.app_key@, s.room_code.key()).pending@.remove(pid),
        after.room_of(s.app_key@, s.room_code.key()).clients@ == before.room_of(s.app_key@, s.room_code.key()).clients@,
        after.room_of(s.app_key@, s.room_code.key()).host_peer_id == before.room_of(s.app_key@, s.room_code.key()).host_peer_id,
        after.room_of(s.app_key@, s.room_code.key()).settings == before.room_of(s.app_key@, s.room_code.key()).settings,
{
    lemma_host_control(before, after, s, s2, RoomControl::DenyPeer(pid), out);
}

/// Handing over the host role: after the host's TransferHost(pid) to an
/// accepted client whose channel did not report closed meanwhile, pid is the
/// room's host; each client accepted before is told HostTransferred(pid).
pub proof fn lemma_transfer_makes_host(
    before: AppRegistry,
    after: AppRegistry,
    s: Session,
    s2: Option<Session>,
    pid: PeerId,
    out: Seq<ServerMessage>,
)
    requires
        before.wf(),
        after.wf(),
        control_done(before, after, Some(s), s2, RoomControl::TransferHost(pid), out),
        before.has_room(s.app_key@, s.room_code.key()),
        before.room_of(s.app_key@, s.room_code.key()).host_peer_id == s.peer_id,
        before.room_of(s.app_key@, s.room_code.key()).clients@.contains_key(pid),
        !closed_set(added(before.room_of(s.app_key@, s.room_code.key()).sent@,
            after.room_of(s.app_key@, s.room_code.key()).sent@)).contains(pid),
    ensures
        after.has_room(s.app_key@, s.room_code.key()),
        after.room_of(s.app_key@, s.room_code.key()).host_peer_id == pid,
        after.room_of(s.app_key@, s.room_code.key()).clients@.contains_key(pid),
        forall|q: PeerId| #[trigger] before.room_of(s.app_key@, s.room_code.key()).clients@.contains_key(q) ==>
            offered(added(before.room_of(s.app_key@, s.room_code.key()).sent@, after.room_of(s.app_key@, s.room_code.key()).sent@),
                q, ServerMessage::RoomEvent(RoomEvent::HostTransferred(pid))),
{
    lemma_host_control(before, after, s, s2, RoomControl::TransferHost(pid), out);
    let r0 = before.room_of(s.app_key@, s.room_code.key());
    let fin = after.room_of(s.app_key@, s.room_code.key());
    let mid = choose|mid: Room| {
        &&& #[trigger] alike(r0, mid)
        &&& mid.clients == r0.clients
        &&& mid.pending == r0.pending
        &&& mid.host_peer_id == pid
        &&& mid.settings == r0.settings
        &&& mid.banned == r0.banned
        &&& mid.sent == r0.sent
        &&& broadcast_done(mid, fin, ServerMessage::RoomEvent(RoomEvent::HostTransferred(pid)))
    };
    assert(!crate::room::removed_ids(mid, fin).contains(pid));
    let msg = ServerMessage::RoomEvent(RoomEvent::HostTransferred(pid));
    assert forall|q: PeerId| #[trigger] r0.clients@.contains_key(q) implies
        offered(added(r0.sent@, fin.sent@), q, msg) by {
        lemma_broadcast_reaches(mid, fin, msg, q);
    }
}

/// Making a room public or private changes that alone: after the host's
/// SetPublic(b) the room's settings are those of before with is_public = b,
/// and its players and host stay as they were.
pub proof fn lemma_set_public_only(
    before: AppRegistry,
    after: AppRegistry,
    s: Session,
    s2: Option<Session>,
    b: bool,
    out: Seq<ServerMessage>,
)
    requires
        before.wf(),
        after.wf(),
        control_done(before, after, Some(s), s2, RoomControl::SetPublic(b), out),
        before.has_room(s.app_key@, s.room_code.key()),
        before.room_of(s.app_key@, s.room_code.key()).host_peer_id == s.peer_id,
    ensures
        after.has_room(s.app_key@, s.room_code.key()),
        after.room_of(s.app_key@, s.room_code.key()).settings
            == (RoomSettings { is_public: b, ..before.room_of(s.app_key@, s.room_code.key()).settings }),
        after.room_of(s.app_key@, s.room_code.key()).clients@ == before.room_of(s.app_key@, s.room_code.key()).clients@,
        after.room_of(s.app_key@, s.room_code.key()).pending@ == before.room_of(s.app_key@, s.room_code.key()).pending@,
        after.room_of(s.app_key@, s.room_code.key()).host_peer_id == before.room_of(s.app_key@, s.room_code.key()).host_peer_id,
{
    lemma_host_control(before, after, s, s2, RoomControl::SetPublic(b), out);
}

/// Only the host controls the room: a room-control request other than
/// leaving or creating a room, from a peer that is not the room's host, is
/// answered "forbidden or invalid" and changes nothing.
pub proof fn lemma_only_host_controls(
    before: AppRegistry,
    after: AppRegistry,
    s: Session,
    s2: Option<Session>,
    rc: RoomControl,
    out: Seq<ServerMessage>,
)
    requires
        control_done(before, after, Some(s), s2, rc, out),
        !(rc is Leave),
        !(rc is CreateRoom),
        before.has_room(s.app_key@, s.room_code.key()),
        before.room_of(s.app_key@, s.room_code.key()).host_peer_id != s.peer_id,
    ensures
        is_error_reply(out, "forbidden or invalid"@),
        after == before,
        s2 == Some(s),
{
    assert(session_room(before, s) == Some(before.room_of(s.app_key@, s.room_code.key())));
}

/// Answers a RoomControl request. Leaving needs no other right; the other
/// requests are for the host of the room only.
pub fn handle_room_control(registry: &mut AppRegistry, session: &mut Option<Session>, rc: RoomControl) -> (out: Vec<ServerMessage>)
    requires
        old(registry).wf(),
    ensures
        final(registry).wf(),
        control_done(*old(registry), *final(registry), *old(session), *final(session), rc, out@),
{
    let mut to_send: Vec<ServerMessage> = Vec::new();
    let (app_key, room_code, peer_id) = match session {
        Some(s) => (s.app_key.clone(), s.room_code.clone(), s.peer_id),
        None => {
            to_send.push(ServerMessage::Error { message: "not in a room".to_owned() });
            return to_send;
        },
    };
    match &rc {
        RoomControl::Leave => {
            *session = None;
            leave_room(registry, app_key.as_str(), &room_code, peer_id);
            return to_send;
        },
        RoomControl::CreateRoom { .. } => {
            to_send.push(ServerMessage::Error { message: "already in a room".to_owned() });
            return to_send;
        },
        _ => {},
    }
    let (i, j) = match registry.locate(app_key.as_str(), &room_code) {
        Some(loc) => loc,
        None => return to_send,
    };
    let ghost app = app_key@;
    let ghost key = room_code.key();
    let ghost room0 = registry.room_of(app, key);
    assert(room0 == registry.pools@[i as int].rooms@[j as int]);
    assert(room0.wf());
    if registry.pools[i].rooms[j].host_peer_id != peer_id {
        to_send.push(ServerMessage::Error { message: "forbidden or invalid".to_owned() });
        return to_send;
    }
    apply_control(&mut registry.pools[i].rooms[j], rc);
    let ghost fin = registry.pools@[i as int].rooms@[j as int];
    proof {
        assert(old(registry).with_room(*registry, app, key, fin));
        old(registry).lemma_with_room(*registry, app, key, fin);
    }
    to_send
}

} // verus!
