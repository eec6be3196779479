//! Room: host, clients, pending (accept-required), state blob, kick/ban.

use vstd::prelude::*;
use std::collections::HashMap;
use vstd::std_specs::iter::IteratorSpec;
use crate::code::RoomCode;
use crate::identity::ClientHash;
use crate::outside::{bytes_content, bytes_new, try_send_reports_closed};
use vstd::set_lib::FiniteRange;
use crate::protocol::{same_message, ServerMessage};
use crate::settings::RoomSettings;

verus! {

broadcast use vstd::std_specs::hash::group_hash_axioms;

/// Server-assigned peer id for a connected client in a room.
pub type PeerId = u32;

/// Per-client info in a room (accepted or pending).
pub struct ClientInfo {
    pub client_hash: ClientHash,
    pub display_name: Option<String>,
    /// Where messages for this client are queued.
    pub tx: tokio::sync::mpsc::Sender<ServerMessage>,
    /// Assigned paddle/slot. Agnostic to host/guest; first available side when joining.
    pub side: u8,
}

/// A single game room: host, accepted/pending clients, state, settings.
pub struct Room {
    pub app_key: String,
    pub code: RoomCode,
    pub host_peer_id: PeerId,
    /// Accepted clients (and host).
    pub clients: HashMap<PeerId, ClientInfo>,
    /// Waiting for the host to accept (accept_required).
    pub pending: HashMap<PeerId, ClientInfo>,
    /// Authoritative game state blob.
    pub state: bytes::Bytes,
    pub settings: RoomSettings,
    pub banned: Vec<ClientHash>,
    /// The counter from which the next peer id is taken.
    pub next_peer_id: PeerId,
    /// The messages handed to the peers' channels so far, in order, each
    /// with the peer whose channel it was handed to and whether that
    /// channel reported closed.
    pub sent: Ghost<Seq<(PeerId, ServerMessage, bool)>>,
}

/// Whether `p` is the id of an accepted or a pending client.
pub open spec fn id_in_use(clients: Map<PeerId, ClientInfo>, pending: Map<PeerId, ClientInfo>, p: PeerId) -> bool {
    clients.contains_key(p) || pending.contains_key(p)
}

/// Whether some accepted or pending client sits at `side`.
pub open spec fn side_taken(clients: Map<PeerId, ClientInfo>, pending: Map<PeerId, ClientInfo>, side: u8) -> bool {
    (exists|p: PeerId| clients.contains_key(p) && #[trigger] clients[p].side == side)
        || (exists|p: PeerId| pending.contains_key(p) && #[trigger] pending[p].side == side)
}

/// The highest side number a room hands out.
pub open spec fn max_side(settings: RoomSettings) -> u8 {
    if settings.max_players == 0 {
        255
    } else if settings.max_players > 255 {
        255
    } else {
        settings.max_players as u8
    }
}

/// Whether `q` comes before `c` when ids are tried from `start` upward and
/// then from 1 (`start` is at least 1).
pub open spec fn tried_before(start: PeerId, q: PeerId, c: PeerId) -> bool {
    if start <= c {
        start <= q < c
    } else {
        start <= q || (1 <= q < c)
    }
}

/// How the host follows when the peers in `removed` leave and `after` are
/// the remaining accepted clients: a removed host is replaced by a remaining
/// accepted client, or by 0 when none remains; otherwise the host stays.
pub open spec fn host_follows(old_host: PeerId, removed: Set<PeerId>, after: Map<PeerId, ClientInfo>, new_host: PeerId) -> bool {
    if removed.contains(old_host) {
        after.contains_key(new_host) || (after.dom().is_empty() && new_host == 0)
    } else {
        new_host == old_host
    }
}

/// What a broadcast reports as the new host: the host that replaced a
/// removed one, when some accepted client remains.
pub open spec fn reported_host(old_host: PeerId, removed: Set<PeerId>, after: Map<PeerId, ClientInfo>, new_host: PeerId) -> Option<PeerId> {
    if removed.contains(old_host) && !after.dom().is_empty() {
        Some(new_host)
    } else {
        None
    }
}

/// The ids of the peers (accepted or pending) that `before` has and `after` has not.
pub open spec fn removed_ids(before: Room, after: Room) -> Set<PeerId> {
    (before.clients@.dom() + before.pending@.dom()).difference(after.clients@.dom() + after.pending@.dom())
}

/// `after` is `before` with some peers gone, the host aside.
pub open spec fn thinned(before: Room, after: Room) -> bool {
    &&& after.clients@.dom().subset_of(before.clients@.dom())
    &&& forall|p: PeerId| #[trigger] after.clients@.contains_key(p) ==> after.clients@[p] == before.clients@[p]
    &&& after.pending@.dom().subset_of(before.pending@.dom())
    &&& forall|p: PeerId| #[trigger] after.pending@.contains_key(p) ==> after.pending@[p] == before.pending@[p]
    &&& after.state == before.state
    &&& after.settings == before.settings
    &&& after.banned == before.banned
    &&& after.code == before.code
    &&& after.app_key == before.app_key
    &&& after.next_peer_id == before.next_peer_id
}

/// Thinning twice is thinning.
pub proof fn lemma_thinned_trans(a: Room, b: Room, c: Room)
    requires
        thinned(a, b),
        thinned(b, c),
    ensures
        thinned(a, c),
{
}

/// `after` is `before` with some peers gone (their channels were closed) and
/// the host fixed if it was one of them; nothing else differs.
pub open spec fn pruned(before: Room, after: Room) -> bool {
    &&& after.clients@.dom().subset_of(before.clients@.dom())
    &&& forall|p: PeerId| #[trigger] after.clients@.contains_key(p) ==> after.clients@[p] == before.clients@[p]
    &&& after.pending@.dom().subset_of(before.pending@.dom())
    &&& forall|p: PeerId| #[trigger] after.pending@.contains_key(p) ==> after.pending@[p] == before.pending@[p]
    &&& after.state == before.state
    &&& after.settings == before.settings
    &&& after.banned == before.banned
    &&& after.code == before.code
    &&& after.app_key == before.app_key
    &&& after.next_peer_id == before.next_peer_id
    &&& host_follows(before.host_peer_id, removed_ids(before, after), after.clients@, after.host_peer_id)
}

/// A room is pruned from itself.
pub proof fn lemma_pruned_refl(a: Room)
    ensures
        pruned(a, a),
{
    assert(removed_ids(a, a) =~= Set::<PeerId>::empty());
}

/// Pruning twice is pruning.
pub proof fn lemma_pruned_trans(a: Room, b: Room, c: Room)
    requires
        a.wf(),
        b.wf(),
        pruned(a, b),
        pruned(b, c),
    ensures
        pruned(a, c),
{
    let r1 = removed_ids(a, b);
    let r2 = removed_ids(b, c);
    let r = removed_ids(a, c);
    assert(r =~= r1 + r2);
    assert(!r2.contains(0));
    if r.contains(a.host_peer_id) {
        if r1.contains(a.host_peer_id) {
            if r2.contains(b.host_peer_id) {
            } else if b.host_peer_id == 0 {
                assert(b.clients@.dom().is_empty());
                assert(c.clients@.dom() =~= Set::<PeerId>::empty());
            }
        }
    }
}

/// Whether an accepted or pending client sits at side `s`.
pub open spec fn side_held(clients: Map<PeerId, ClientInfo>, pending: Map<PeerId, ClientInfo>, s: int) -> bool {
    (exists|p: PeerId| clients.contains_key(p) && #[trigger] clients[p].side == s)
        || (exists|p: PeerId| pending.contains_key(p) && #[trigger] pending[p].side == s)
}

/// A newcomer gets the lowest free side: when some side from 0 up to the
/// room's highest (its maximum player count, capped at 255; 255 when
/// unlimited) is held by no accepted or pending client, the side chosen is
/// such a side, and every lower side is held; when all are held it is 0.
pub proof fn lemma_lowest_free_side(clients: Map<PeerId, ClientInfo>, pending: Map<PeerId, ClientInfo>, settings: RoomSettings, r: u8)
    requires
        side_choice(clients, pending, settings, r),
    ensures
        ({
            let top: int = if settings.max_players == 0 || settings.max_players > 255 { 255 } else { settings.max_players as int };
            &&& (exists|s: int| 0 <= s <= top && !#[trigger] side_held(clients, pending, s)) ==> {
                &&& r <= top
                &&& !side_held(clients, pending, r as int)
                &&& forall|s: int| 0 <= s < r ==> #[trigger] side_held(clients, pending, s)
            }
            &&& (forall|s: int| 0 <= s <= top ==> #[trigger] side_held(clients, pending, s)) ==> r == 0
        }),
{
    let top: int = if settings.max_players == 0 || settings.max_players > 255 { 255 } else { settings.max_players as int };
    assert(max_side(settings) as int == top);
    assert forall|s: u8| #[trigger] side_taken(clients, pending, s) == side_held(clients, pending, s as int) by {
        if side_held(clients, pending, s as int) {
            if exists|p: PeerId| clients.contains_key(p) && #[trigger] clients[p].side == s as int {
                let p = choose|p: PeerId| clients.contains_key(p) && #[trigger] clients[p].side == s as int;
                assert(clients[p].side == s);
            } else {
                let p = choose|p: PeerId| pending.contains_key(p) && #[trigger] pending[p].side == s as int;
                assert(pending[p].side == s);
            }
        }
    }
    if exists|s: int| 0 <= s <= top && !#[trigger] side_held(clients, pending, s) {
        let s0 = choose|s: int| 0 <= s <= top && !#[trigger] side_held(clients, pending, s);
        assert(!side_taken(clients, pending, s0 as u8));
        assert forall|s: int| 0 <= s < r implies #[trigger] side_held(clients, pending, s) by {
            assert(side_taken(clients, pending, s as u8));
        }
        assert(!side_taken(clients, pending, r));
    } else {
        assert forall|s: u8| s <= max_side(settings) implies side_taken(clients, pending, s) by {
            assert(side_held(clients, pending, s as int));
        }
    }
}

/// Removing a set of peers gives a pruned room when the host follows.
pub proof fn lemma_removal_pruned(before: Room, after: Room, gone: Set<PeerId>)
    requires
        before.wf(),
        gone.subset_of(before.clients@.dom() + before.pending@.dom()),
        after.clients@ == before.clients@.remove_keys(gone),
        after.pending@ == before.pending@.remove_keys(gone),
        after.state == before.state,
        after.settings == before.settings,
        after.banned == before.banned,
        after.code == before.code,
        after.app_key == before.app_key,
        after.next_peer_id == before.next_peer_id,
        host_follows(before.host_peer_id, gone, after.clients@, after.host_peer_id),
    ensures
        pruned(before, after),
        removed_ids(before, after) == gone,
{
    assert(removed_ids(before, after) =~= gone);
}

/// The peers with disjoint ids from 1 upward number at most `u32::MAX`.
pub proof fn lemma_player_total_bound(clients: Map<PeerId, ClientInfo>, pending: Map<PeerId, ClientInfo>)
    requires
        clients.dom().disjoint(pending.dom()),
        !clients.contains_key(0),
        !pending.contains_key(0),
    ensures
        clients.len() + pending.len() <= PeerId::MAX,
{
    let ids = <PeerId as FiniteRange>::range_set(1, PeerId::MAX).insert(PeerId::MAX);
    <PeerId as FiniteRange>::range_properties(1, PeerId::MAX);
    assert(ids.len() == PeerId::MAX);
    let both = clients.dom() + pending.dom();
    assert(both.subset_of(ids));
    vstd::set_lib::lemma_set_subset_finite(ids, both);
    vstd::set_lib::lemma_len_subset(both, ids);
    vstd::set_lib::lemma_set_subset_finite(both, clients.dom());
    vstd::set_lib::lemma_set_subset_finite(both, pending.dom());
    vstd::set_lib::lemma_set_disjoint_lens(clients.dom(), pending.dom());
}

/// `after` is `before` with more entries at its end.
pub open spec fn extends<A>(before: Seq<A>, after: Seq<A>) -> bool {
    before.len() <= after.len() && after.take(before.len() as int) == before
}

/// The entries that `after` has beyond `before`.
pub open spec fn added<A>(before: Seq<A>, after: Seq<A>) -> Seq<A> {
    after.skip(before.len() as int)
}

/// Whether `m` was handed to the channel of `p` in `log`.
pub open spec fn offered(log: Seq<(PeerId, ServerMessage, bool)>, p: PeerId, m: ServerMessage) -> bool {
    exists|k: int| 0 <= k < log.len() && (#[trigger] log[k]).0 == p && log[k].1 == m
}

/// The peers whose channel reported closed in `log`, in order.
pub open spec fn closed_in(log: Seq<(PeerId, ServerMessage, bool)>) -> Seq<PeerId>
    decreases log.len(),
{
    if log.len() == 0 {
        Seq::empty()
    } else if log.last().2 {
        closed_in(log.drop_last()).push(log.last().0)
    } else {
        closed_in(log.drop_last())
    }
}

/// The peers whose channel reported closed at least once in `log`.
pub open spec fn closed_set(log: Seq<(PeerId, ServerMessage, bool)>) -> Set<PeerId> {
    Set::new(|p: PeerId| exists|k: int| 0 <= k < log.len() && (#[trigger] log[k]).0 == p && log[k].2)
}

/// The closed reports of two logs one after the other.
pub proof fn lemma_closed_in_concat(a: Seq<(PeerId, ServerMessage, bool)>, b: Seq<(PeerId, ServerMessage, bool)>)
    ensures
        closed_in(a + b) == closed_in(a) + closed_in(b),
    decreases b.len(),
{
    if b.len() == 0 {
        assert(a + b =~= a);
        assert(closed_in(a) + closed_in(b) =~= closed_in(a));
    } else {
        assert((a + b).drop_last() =~= a + b.drop_last());
        lemma_closed_in_concat(a, b.drop_last());
        if b.last().2 {
            assert(closed_in(a) + closed_in(b.drop_last()).push(b.last().0) =~= (closed_in(a) + closed_in(b.drop_last())).push(b.last().0));
        }
    }
}

/// The closed reports listed in order are those of the set.
pub proof fn lemma_closed_in_set(log: Seq<(PeerId, ServerMessage, bool)>)
    ensures
        closed_in(log).to_set() == closed_set(log),
    decreases log.len(),
{
    if log.len() == 0 {
        assert(closed_in(log).to_set() =~= closed_set(log));
    } else {
        let l = log.drop_last();
        lemma_closed_in_set(l);
        assert forall|p: PeerId| closed_set(log).contains(p) == closed_in(log).to_set().contains(p) by {
            if closed_set(log).contains(p) {
                let k = choose|k: int| 0 <= k < log.len() && (#[trigger] log[k]).0 == p && log[k].2;
                if k < l.len() {
                    assert(l[k] == log[k]);
                    assert(closed_set(l).contains(p));
                    assert(closed_in(l).contains(p));
                    if log.last().2 {
                        let j = choose|j: int| 0 <= j < closed_in(l).len() && closed_in(l)[j] == p;
                        assert(closed_in(log)[j] == p);
                    }
                } else {
                    assert(closed_in(log).last() == p);
                }
            }
            if closed_in(log).to_set().contains(p) {
                let j = choose|j: int| 0 <= j < closed_in(log).len() && closed_in(log)[j] == p;
                if log.last().2 && j == closed_in(log).len() - 1 {
                    assert(log[log.len() - 1].0 == p);
                } else {
                    assert(closed_in(l)[j] == p);
                    assert(closed_in(l).to_set().contains(p));
                    let k = choose|k: int| 0 <= k < l.len() && (#[trigger] l[k]).0 == p && l[k].2;
                    assert(log[k] == l[k]);
                }
            }
        }
        assert(closed_in(log).to_set() =~= closed_set(log));
    }
}

/// The peers that reported closed in two logs one after the other.
pub proof fn lemma_closed_set_concat(a: Seq<(PeerId, ServerMessage, bool)>, b: Seq<(PeerId, ServerMessage, bool)>)
    ensures
        closed_set(a + b) == closed_set(a) + closed_set(b),
{
    lemma_closed_in_concat(a, b);
    lemma_closed_in_set(a);
    lemma_closed_in_set(b);
    lemma_closed_in_set(a + b);
    assert((closed_in(a) + closed_in(b)).to_set() =~= closed_in(a).to_set() + closed_in(b).to_set()) by {
        assert forall|p: PeerId| (closed_in(a) + closed_in(b)).to_set().contains(p) implies
            (closed_in(a).to_set() + closed_in(b).to_set()).contains(p) by {
            let j = choose|j: int| 0 <= j < (closed_in(a) + closed_in(b)).len() && (closed_in(a) + closed_in(b))[j] == p;
            if j < closed_in(a).len() {
                assert(closed_in(a)[j] == p);
            } else {
                assert(closed_in(b)[j - closed_in(a).len()] == p);
            }
        }
        assert forall|p: PeerId| (closed_in(a).to_set() + closed_in(b).to_set()).contains(p) implies
            (closed_in(a) + closed_in(b)).to_set().contains(p) by {
            if closed_in(a).to_set().contains(p) {
                let j = choose|j: int| 0 <= j < closed_in(a).len() && closed_in(a)[j] == p;
                assert((closed_in(a) + closed_in(b))[j] == p);
            } else {
                let j = choose|j: int| 0 <= j < closed_in(b).len() && closed_in(b)[j] == p;
                assert((closed_in(a) + closed_in(b))[j + closed_in(a).len()] == p);
            }
        }
    }
}

/// `after` is `before` with one more entry: `msg` handed to `pid`'s channel.
pub open spec fn told(before: Seq<(PeerId, ServerMessage, bool)>, after: Seq<(PeerId, ServerMessage, bool)>, pid: PeerId, msg: ServerMessage) -> bool {
    &&& after.len() == before.len() + 1
    &&& after.drop_last() == before
    &&& after.last().0 == pid
    &&& after.last().1 == msg
}

/// `log` hands one message to each peer of `peers`, once each, and to no
/// one else; each message handed satisfies `ok`.
pub open spec fn offered_each(log: Seq<(PeerId, ServerMessage, bool)>, peers: Set<PeerId>, ok: spec_fn(ServerMessage) -> bool) -> bool {
    &&& forall|a: int, b: int| 0 <= a < b < log.len() ==> (#[trigger] log[a]).0 != (#[trigger] log[b]).0
    &&& forall|k: int| 0 <= k < log.len() ==> peers.contains((#[trigger] log[k]).0) && ok(log[k].1)
    &&& forall|p: PeerId| #[trigger] peers.contains(p) ==> exists|k: int| 0 <= k < log.len() && (#[trigger] log[k]).0 == p
}

/// Two such logs for disjoint sets of peers, one after the other, hand one
/// message to each peer of both.
pub proof fn lemma_offered_each_concat(l1: Seq<(PeerId, ServerMessage, bool)>, s1: Set<PeerId>, l2: Seq<(PeerId, ServerMessage, bool)>, s2: Set<PeerId>, ok: spec_fn(ServerMessage) -> bool)
    requires
        offered_each(l1, s1, ok),
        offered_each(l2, s2, ok),
        s1.disjoint(s2),
    ensures
        offered_each(l1 + l2, s1 + s2, ok),
{
    let l = l1 + l2;
    assert forall|a: int, b: int| 0 <= a < b < l.len() implies (#[trigger] l[a]).0 != (#[trigger] l[b]).0 by {
        if b < l1.len() {
            assert(l[a] == l1[a] && l[b] == l1[b]);
        } else if a >= l1.len() {
            assert(l[a] == l2[a - l1.len()] && l[b] == l2[b - l1.len()]);
        } else {
            assert(l[a] == l1[a] && l[b] == l2[b - l1.len()]);
            assert(s1.contains(l1[a].0) && s2.contains(l2[b - l1.len()].0));
        }
    }
    assert forall|k: int| 0 <= k < l.len() implies (s1 + s2).contains((#[trigger] l[k]).0) && ok(l[k].1) by {
        if k < l1.len() {
            assert(l[k] == l1[k]);
        } else {
            assert(l[k] == l2[k - l1.len()]);
        }
    }
    assert forall|p: PeerId| #[trigger] (s1 + s2).contains(p) implies exists|k: int| 0 <= k < l.len() && (#[trigger] l[k]).0 == p by {
        if s1.contains(p) {
            let k = choose|k: int| 0 <= k < l1.len() && (#[trigger] l1[k]).0 == p;
            assert(l[k] == l1[k]);
        } else {
            let k = choose|k: int| 0 <= k < l2.len() && (#[trigger] l2[k]).0 == p;
            assert(l[k + l1.len()] == l2[k]);
        }
    }
}

/// A log that hands one message to each peer of a finite set, once each, is
/// as long as the set is large.
pub proof fn lemma_offered_each_len(log: Seq<(PeerId, ServerMessage, bool)>, peers: Set<PeerId>, ok: spec_fn(ServerMessage) -> bool)
    requires
        offered_each(log, peers, ok),
    ensures
        log.len() == peers.len(),
{
    let keys = log.map_values(|e: (PeerId, ServerMessage, bool)| e.0);
    assert(keys.no_duplicates()) by {
        assert forall|a: int, b: int| 0 <= a < keys.len() && 0 <= b < keys.len() && a != b implies keys[a] != keys[b] by {
            if a < b {
                assert(log[a].0 != log[b].0);
            } else {
                assert(log[b].0 != log[a].0);
            }
        }
    }
    assert(keys.to_set() =~= peers) by {
        assert forall|p: PeerId| keys.to_set().contains(p) implies peers.contains(p) by {
            let k = choose|k: int| 0 <= k < keys.len() && keys[k] == p;
            assert(peers.contains(log[k].0));
        }
        assert forall|p: PeerId| peers.contains(p) implies keys.to_set().contains(p) by {
            let k = choose|k: int| 0 <= k < log.len() && (#[trigger] log[k]).0 == p;
            assert(keys[k] == p);
        }
    }
    keys.unique_seq_to_set();
}

/// A log that hands each peer a message satisfying `ok1` hands each a
/// message satisfying any weaker `ok2`.
pub proof fn lemma_offered_each_weaken(log: Seq<(PeerId, ServerMessage, bool)>, peers: Set<PeerId>, ok1: spec_fn(ServerMessage) -> bool, ok2: spec_fn(ServerMessage) -> bool)
    requires
        offered_each(log, peers, ok1),
        forall|m: ServerMessage| #[trigger] ok1(m) ==> ok2(m),
    ensures
        offered_each(log, peers, ok2),
{
    assert forall|k: int| 0 <= k < log.len() implies peers.contains((#[trigger] log[k]).0) && ok2(log[k].1) by {
        assert(ok1(log[k].1));
    }
}

/// Hands `msg` to the channel `tx` of peer `to`, recording it with what the
/// channel reported; returns whether the channel reported closed.
pub(crate) fn offer(log: &mut Ghost<Seq<(PeerId, ServerMessage, bool)>>, to: PeerId, tx: &tokio::sync::mpsc::Sender<ServerMessage>, msg: ServerMessage) -> (closed: bool)
    ensures
        final(log)@ == old(log)@.push((to, msg, closed)),
{
    let ghost m = msg;
    let closed = try_send_reports_closed(tx, msg);
    *log = Ghost(log@.push((to, m, closed)));
    closed
}

/// Whether `p` is the key of one of the first `n` entries of an iteration.
pub open spec fn seen_before(v: Seq<(&PeerId, &ClientInfo)>, n: int, p: PeerId) -> bool {
    exists|j: int| 0 <= j < n && *v[j].0 == p
}

/// Some key of the map, if it has one.
pub fn any_peer(m: &HashMap<PeerId, ClientInfo>) -> (r: Option<PeerId>)
    ensures
        match r {
            Some(k) => m@.contains_key(k),
            None => m@.dom().is_empty(),
        },
{
    for k in it: m.keys()
        invariant
            it.seq() == m.keys().remaining(),
            it.index() == 0,
    {
        proof {
            assert(it.seq()[0] == k);
            assert(it.seq().unref().to_set().contains(*k));
        }
        return Some(*k);
    }
    proof {
        assert(m@.dom() =~= Set::<PeerId>::empty()) by {
            assert forall|k: PeerId| m@.dom().contains(k) implies false by {
                assert(m.keys().remaining().unref().to_set().contains(k));
            }
        }
    }
    None
}

/// How a room hands out a peer id: the counter's id when it is free (the
/// counter then moves past it); otherwise the first free id tried from the
/// one after the counter up to `u32::MAX` and then from 1 (the counter then
/// moves past the id found), or none when every id is taken.
pub open spec fn allocation(before: Room, new_cursor: PeerId, r: Option<PeerId>) -> bool {
    &&& !before.in_use(before.id_cursor()) ==> r == Some(before.id_cursor())
        && new_cursor == before.id_cursor().saturating_add(1)
    &&& before.in_use(before.id_cursor()) ==> ({
        let start = if before.id_cursor() == PeerId::MAX { PeerId::MAX } else { (before.id_cursor() + 1) as PeerId };
        match r {
            Some(c) => c >= 1 && !before.in_use(c)
                && new_cursor == c.saturating_add(1)
                && forall|q: PeerId| #[trigger] tried_before(start, q, c) ==> before.in_use(q),
            None => new_cursor == before.id_cursor().saturating_add(1)
                && forall|q: PeerId| 1 <= q ==> #[trigger] before.in_use(q),
        }
    })
}

/// The side a joining client gets: the first side up to the room's highest
/// that no one holds, or 0 when all are held.
pub open spec fn side_choice(clients: Map<PeerId, ClientInfo>, pending: Map<PeerId, ClientInfo>, settings: RoomSettings, r: u8) -> bool {
    &&& (exists|s: u8| s <= max_side(settings) && !side_taken(clients, pending, s)) ==> {
        &&& r <= max_side(settings)
        &&& !side_taken(clients, pending, r)
        &&& forall|s: u8| s < r ==> side_taken(clients, pending, s)
    }
    &&& (forall|s: u8| s <= max_side(settings) ==> side_taken(clients, pending, s)) ==> r == 0
}

impl Room {
    /// The counter from which the next peer id is taken.
    pub open spec fn id_cursor(self) -> PeerId {
        self.next_peer_id
    }

    /// Number of accepted and pending clients.
    pub open spec fn player_total(self) -> nat {
        self.clients@.len() + self.pending@.len()
    }

    /// The room's own consistency: a peer is accepted or pending, not both;
    /// peer ids start at 1; the peer counter is at least 1; no hash is on the
    /// ban list twice.
    pub open spec fn wf(self) -> bool {
        &&& self.clients@.dom().disjoint(self.pending@.dom())
        &&& !self.clients@.contains_key(0)
        &&& !self.pending@.contains_key(0)
        &&& self.id_cursor() >= 1
        &&& forall|i: int, j: int| 0 <= i < j < self.banned@.len() ==>
            (#[trigger] self.banned@[i]).0@ != (#[trigger] self.banned@[j]).0@
    }

    pub open spec fn in_use(self, p: PeerId) -> bool {
        id_in_use(self.clients@, self.pending@, p)
    }

    /// Whether a hash is on the room's ban list.
    pub open spec fn bans(self, hash: Seq<char>) -> bool {
        exists|i: int| 0 <= i < self.banned@.len() && #[trigger] self.banned@[i].0@ == hash
    }

    /// Whether the room holds as many players as it allows (0 = unlimited).
    pub open spec fn spec_is_full(self) -> bool {
        self.settings.max_players != 0 && self.player_total() >= self.settings.max_players
    }

    pub fn new(app_key: String, code: RoomCode, settings: RoomSettings) -> (r: Room)
        ensures
            r.wf(),
            r.app_key@ == app_key@,
            r.code == code,
            r.host_peer_id == 0,
            r.clients@ == Map::<PeerId, ClientInfo>::empty(),
            r.pending@ == Map::<PeerId, ClientInfo>::empty(),
            bytes_content(r.state) == Seq::<u8>::empty(),
            r.settings == settings,
            r.banned@ == Seq::<ClientHash>::empty(),
            r.id_cursor() == 1,
            r.sent@.len() == 0,
    {
        Room {
            app_key,
            code,
            host_peer_id: 0,
            clients: HashMap::new(),
            pending: HashMap::new(),
            state: bytes_new(),
            settings,
            banned: Vec::new(),
            next_peer_id: 1,
            sent: Ghost(Seq::empty()),
        }
    }

    fn id_used(&self, p: PeerId) -> (r: bool)
        ensures
            r == self.in_use(p),
    {
        self.clients.contains_key(&p) || self.pending.contains_key(&p)
    }

    /// Allocates the next peer id in this room. Returns `None` if every id
    /// from 1 to `u32::MAX` is taken.
    pub fn next_peer_id(&mut self) -> (r: Option<PeerId>)
        requires
            old(self).wf(),
        ensures
            final(self).wf(),
            final(self).clients == old(self).clients,
            final(self).pending == old(self).pending,
            final(self).host_peer_id == old(self).host_peer_id,
            final(self).state == old(self).state,
            final(self).settings == old(self).settings,
            final(self).banned == old(self).banned,
            final(self).code == old(self).code,
            final(self).app_key == old(self).app_key,
            final(self).sent == old(self).sent,
            allocation(*old(self), final(self).id_cursor(), r),
    {
        let id = self.next_peer_id;
        self.next_peer_id = self.next_peer_id.saturating_add(1);
        if self.id_used(id) {
            let start: PeerId = if self.next_peer_id > 1 { self.next_peer_id } else { 1 };
            let found = self.first_free_id_from(start);
            assert(start == if old(self).id_cursor() == PeerId::MAX { PeerId::MAX } else { (old(self).id_cursor() + 1) as PeerId });
            if let Some(c) = found {
                self.next_peer_id = c.saturating_add(1);
                assert(forall|q: PeerId| #[trigger] tried_before(start, q, c) ==> old(self).in_use(q));
            } else {
                assert forall|q: PeerId| 1 <= q implies #[trigger] old(self).in_use(q) by {
                    assert(self.in_use(q));
                }
            }
            return found;
        }
        Some(id)
    }

    /// The first id that is not in use, trying `start..=u32::MAX` and then `1..start`.
    fn first_free_id_from(&self, start: PeerId) -> (r: Option<PeerId>)
        requires
            start >= 1,
        ensures
            match r {
                Some(c) => c >= 1 && !self.in_use(c) && forall|q: PeerId| #[trigger] tried_before(start, q, c) ==> self.in_use(q),
                None => forall|q: PeerId| 1 <= q ==> #[trigger] self.in_use(q),
            },
    {
        let mut candidate: u64 = start as u64;
        while candidate <= PeerId::MAX as u64
            invariant
                start <= candidate <= PeerId::MAX as u64 + 1,
                start >= 1,
                forall|q: PeerId| start <= q < candidate ==> #[trigger] self.in_use(q),
            decreases PeerId::MAX as u64 + 1 - candidate,
        {
            let c = candidate as PeerId;
            if !self.id_used(c) {
                return Some(c);
            }
            candidate = candidate + 1;
        }
        let mut c: PeerId = 1;
        while c < start
            invariant
                1 <= c <= start,
                forall|q: PeerId| start <= q ==> #[trigger] self.in_use(q),
                forall|q: PeerId| 1 <= q < c ==> #[trigger] self.in_use(q),
            decreases start - c,
        {
            if !self.id_used(c) {
                return Some(c);
            }
            c = c + 1;
        }
        None
    }

    /// First available paddle/slot in `0..=max_side` (0 when all are taken).
    pub fn next_available_side(&self) -> (r: u8)
        ensures
            side_choice(self.clients@, self.pending@, self.settings, r),
    {
        let mut used: Vec<bool> = vec![false; 256];
        for (pid, info) in it: self.clients.iter()
            invariant
                used@.len() == 256,
                it.seq() == self.clients.iter().remaining(),
                forall|s: int| 0 <= s < 256 && #[trigger] used@[s] ==> side_taken(self.clients@, self.pending@, s as u8),
                forall|j: int| 0 <= j < it.index() ==> #[trigger] used@[it.seq()[j].1.side as int],
        {
            proof {
                let k = it.index();
                assert(*it.seq()[k].0 == *pid && *it.seq()[k].1 == *info);
                assert(self.clients@.contains_key(*it.seq()[k].0));
                assert(self.clients@[*pid].side == info.side);
            }
            used.set(info.side as usize, true);
        }
        proof {
            let v = self.clients.iter().remaining();
            assert forall|p: PeerId| self.clients@.contains_key(p) implies #[trigger] used@[self.clients@[p].side as int] by {
                assert(v.contains((&p, &self.clients@[p])));
                let j = choose|j: int| 0 <= j < v.len() && v[j] == (&p, &self.clients@[p]);
                assert(used@[v[j].1.side as int]);
            }
        }
        for (pid, info) in it: self.pending.iter()
            invariant
                used@.len() == 256,
                it.seq() == self.pending.iter().remaining(),
                forall|s: int| 0 <= s < 256 && #[trigger] used@[s] ==> side_taken(self.clients@, self.pending@, s as u8),
                forall|p: PeerId| self.clients@.contains_key(p) ==> #[trigger] used@[self.clients@[p].side as int],
                forall|j: int| 0 <= j < it.index() ==> #[trigger] used@[it.seq()[j].1.side as int],
        {
            proof {
                let k = it.index();
                assert(*it.seq()[k].0 == *pid && *it.seq()[k].1 == *info);
                assert(self.pending@.contains_key(*it.seq()[k].0));
                assert(self.pending@[*pid].side == info.side);
            }
            used.set(info.side as usize, true);
        }
        proof {
            let v = self.pending.iter().remaining();
            assert forall|p: PeerId| self.pending@.contains_key(p) implies #[trigger] used@[self.pending@[p].side as int] by {
                assert(v.contains((&p, &self.pending@[p])));
                let j = choose|j: int| 0 <= j < v.len() && v[j] == (&p, &self.pending@[p]);
                assert(used@[v[j].1.side as int]);
            }
            assert forall|s: int| 0 <= s < 256 && side_taken(self.clients@, self.pending@, s as u8) implies #[trigger] used@[s] by {
                if exists|p: PeerId| self.clients@.contains_key(p) && #[trigger] self.clients@[p].side == s as u8 {
                    let p = choose|p: PeerId| self.clients@.contains_key(p) && #[trigger] self.clients@[p].side == s as u8;
                    assert(used@[self.clients@[p].side as int]);
                } else {
                    let p = choose|p: PeerId| self.pending@.contains_key(p) && #[trigger] self.pending@[p].side == s as u8;
                    assert(used@[self.pending@[p].side as int]);
                }
            }
        }
        let top: u8 = if self.settings.max_players == 0 {
            255u8
        } else if self.settings.max_players > 255 {
            255u8
        } else {
            self.settings.max_players as u8
        };
        let mut side: u32 = 0;
        while side <= top as u32
            invariant
                side <= top as u32 + 1,
                top == max_side(self.settings),
                used@.len() == 256,
                forall|s: int| 0 <= s < 256 && #[trigger] used@[s] ==> side_taken(self.clients@, self.pending@, s as u8),
                forall|s: int| 0 <= s < 256 && side_taken(self.clients@, self.pending@, s as u8) ==> #[trigger] used@[s],
                forall|s: u8| s < side ==> side_taken(self.clients@, self.pending@, s),
            decreases top as u32 + 1 - side,
        {
            if !used[side as usize] {
                return side as u8;
            }
            side = side + 1;
        }
        0
    }

    pub fn is_full(&self) -> (r: bool)
        requires
            self.wf(),
        ensures
            r == self.spec_is_full(),
    {
        let max = self.settings.max_players;
        if max == 0 {
            return false;
        }
        proof {
            lemma_player_total_bound(self.clients@, self.pending@);
        }
        ((self.clients.len() + self.pending.len()) as u32) >= max
    }

    pub fn is_banned(&self, hash: &ClientHash) -> (r: bool)
        ensures
            r == self.bans(hash.0@),
    {
        let mut i: usize = 0;
        while i < self.banned.len()
            invariant
                i <= self.banned@.len(),
                forall|j: int| 0 <= j < i ==> #[trigger] self.banned@[j].0@ != hash.0@,
            decreases self.banned@.len() - i,
        {
            if self.banned[i].0 == hash.0 {
                return true;
            }
            i = i + 1;
        }
        false
    }

    /// Removes the given peers (from the accepted clients, and from the
    /// pending ones too when `also_pending`) and fixes the host if it was one
    /// of them. Returns the new host when one was chosen.
    pub fn drop_peers(&mut self, dead: &Vec<PeerId>, also_pending: bool) -> (new_host: Option<PeerId>)
        requires
            old(self).wf(),
            forall|k: int| 0 <= k < dead@.len() ==> #[trigger] dead@[k] != 0,
        ensures
            final(self).wf(),
            final(self).clients@ == old(self).clients@.remove_keys(dead@.to_set()),
            also_pending ==> final(self).pending@ == old(self).pending@.remove_keys(dead@.to_set()),
            !also_pending ==> final(self).pending == old(self).pending,
            final(self).state == old(self).state,
            final(self).settings == old(self).settings,
            final(self).banned == old(self).banned,
            final(self).code == old(self).code,
            final(self).app_key == old(self).app_key,
            final(self).next_peer_id == old(self).next_peer_id,
            final(self).sent == old(self).sent,
            host_follows(old(self).host_peer_id, dead@.to_set(), final(self).clients@, final(self).host_peer_id),
            new_host == reported_host(old(self).host_peer_id, dead@.to_set(), final(self).clients@, final(self).host_peer_id),
    {
        let ghost before = self.clients@;
        let ghost before_pending = self.pending@;
        let ghost old_host = self.host_peer_id;
        let mut new_host: Option<PeerId> = None;
        let mut i: usize = 0;
        while i < dead.len()
            invariant
                i <= dead@.len(),
                forall|k: int| 0 <= k < dead@.len() ==> #[trigger] dead@[k] != 0,
                self.clients@ == before.remove_keys(dead@.take(i as int).to_set()),
                also_pending ==> self.pending@ == before_pending.remove_keys(dead@.take(i as int).to_set()),
                !also_pending ==> self.pending == old(self).pending,
                self.state == old(self).state,
                self.settings == old(self).settings,
                self.banned == old(self).banned,
                self.code == old(self).code,
                self.app_key == old(self).app_key,
                self.next_peer_id == old(self).next_peer_id,
                self.sent == old(self).sent,
                before == old(self).clients@,
                before_pending == old(self).pending@,
                old_host == old(self).host_peer_id,
                old(self).wf(),
                dead@.take(i as int).contains(old_host) ==> {
                    ||| new_host == Some(self.host_peer_id) && self.clients@.contains_key(self.host_peer_id)
                    ||| new_host is None && self.host_peer_id == 0 && self.clients@.dom().is_empty()
                },
                !dead@.take(i as int).contains(old_host) ==> self.host_peer_id == old_host && new_host is None,
            decreases dead@.len() - i,
        {
            let pid = dead[i];
            proof {
                assert(dead@.take(i as int + 1) == dead@.take(i as int).push(pid));
                dead@.take(i as int).lemma_push_to_set_commute(pid);
                assert(dead@.take(i as int + 1)[i as int] == pid);
                assert(before.remove_keys(dead@.take(i as int).to_set().insert(pid)) =~= before.remove_keys(dead@.take(i as int).to_set()).remove(pid));
                assert(before_pending.remove_keys(dead@.take(i as int).to_set().insert(pid)) =~= before_pending.remove_keys(dead@.take(i as int).to_set()).remove(pid));
            }
            self.clients.remove(&pid);
            if also_pending {
                self.pending.remove(&pid);
            }
            if self.host_peer_id == pid {
                new_host = any_peer(&self.clients);
                self.host_peer_id = match new_host {
                    Some(h) => h,
                    None => 0,
                };
            }
            i = i + 1;
        }
        proof {
            assert(dead@.take(dead@.len() as int) == dead@);
            assert(dead@.contains(old_host) <==> dead@.to_set().contains(old_host));
        }
        new_host
    }

    /// Hands a copy of `msg` to the channel of every peer of `m`, once each,
    /// recording each in `log`; returns, without repeats, the peers whose
    /// channel reported closed.
    fn closed_peers(m: &HashMap<PeerId, ClientInfo>, msg: &ServerMessage, log: &mut Ghost<Seq<(PeerId, ServerMessage, bool)>>) -> (dead: Vec<PeerId>)
        ensures
            dead@.no_duplicates(),
            forall|k: int| 0 <= k < dead@.len() ==> m@.contains_key(#[trigger] dead@[k]),
            extends(old(log)@, final(log)@),
            offered_each(added(old(log)@, final(log)@), m@.dom(), |x: ServerMessage| same_message(*msg, x)),
            dead@ == closed_in(added(old(log)@, final(log)@)),
    {
        let ghost log0 = log@;
        let mut dead: Vec<PeerId> = Vec::new();
        for (pid, info) in it: m.iter()
            invariant
                it.seq() == m.iter().remaining(),
                it.seq().no_duplicates(),
                dead@.no_duplicates(),
                forall|k: int| 0 <= k < dead@.len() ==> m@.contains_key(#[trigger] dead@[k]),
                forall|k: int| 0 <= k < dead@.len() ==> seen_before(it.seq(), it.index() as int, #[trigger] dead@[k]),
                log@.len() == log0.len() + it.index(),
                log@.take(log0.len() as int) == log0,
                forall|j: int| 0 <= j < it.index() ==> (#[trigger] log@[log0.len() + j]).0 == *it.seq()[j].0
                    && same_message(*msg, log@[log0.len() + j].1),
                dead@ == closed_in(added(log0, log@)),
        {
            proof {
                let k = it.index();
                assert(*it.seq()[k].0 == *pid && *it.seq()[k].1 == *info);
                assert(m@.contains_key(*it.seq()[k].0));
            }
            let ghost before = log@;
            let copy = msg.clone();
            let closed = offer(log, *pid, &info.tx, copy);
            proof {
                assert(added(log0, log@) =~= added(log0, before).push(log@.last()));
                assert(added(log0, log@).drop_last() =~= added(log0, before));
                assert(log@.take(log0.len() as int) =~= before.take(log0.len() as int));
                assert forall|j: int| 0 <= j < it.index() + 1 implies (#[trigger] log@[log0.len() + j]).0 == *it.seq()[j].0
                    && same_message(*msg, log@[log0.len() + j].1) by {
                    if j < it.index() {
                        assert(log@[log0.len() + j] == before[log0.len() + j]);
                    }
                }
            }
            if closed {
                proof {
                    let v = it.seq();
                    let k = it.index();
                    assert forall|n: int| 0 <= n < dead@.len() implies dead@[n] != *pid by {
                        assert(seen_before(v, k as int, dead@[n]));
                        let j = choose|j: int| 0 <= j < k && *v[j].0 == dead@[n];
                        assert(m@.contains_key(*v[j].0));
                        if *v[j].0 == *v[k].0 {
                            assert(v[j] == v[k]);
                        }
                    }
                    assert(seen_before(v, k + 1, *pid));
                    assert forall|n: int| 0 <= n < dead@.len() implies seen_before(v, k + 1, #[trigger] dead@[n]) by {
                        assert(seen_before(v, k as int, dead@[n]));
                    }
                }
                dead.push(*pid);
            }
        }
        proof {
            let v = m.iter().remaining();
            let l = added(log0, log@);
            assert(l.len() == v.len());
            assert forall|j: int| 0 <= j < l.len() implies l[j].0 == *v[j].0 && same_message(*msg, l[j].1) by {
                assert(l[j] == log@[log0.len() + j]);
            }
            assert forall|a: int, b: int| 0 <= a < b < l.len() implies (#[trigger] l[a]).0 != (#[trigger] l[b]).0 by {
                assert(l[a].0 == *v[a].0 && l[b].0 == *v[b].0);
                assert(m@.contains_key(*v[a].0));
                assert(m@.contains_key(*v[b].0));
                if *v[a].0 == *v[b].0 {
                    assert(v[a] == v[b]);
                }
            }
            assert forall|k: int| 0 <= k < l.len() implies m@.dom().contains((#[trigger] l[k]).0) && same_message(*msg, l[k].1) by {
                assert(l[k].0 == *v[k].0);
                assert(m@.contains_key(*v[k].0));
            }
            assert forall|p: PeerId| #[trigger] m@.dom().contains(p) implies exists|k: int| 0 <= k < l.len() && (#[trigger] l[k]).0 == p by {
                assert(v.contains((&p, &m@[p])));
                let j = choose|j: int| 0 <= j < v.len() && v[j] == (&p, &m@[p]);
                assert(l[j].0 == *v[j].0);
            }
        }
        dead
    }

    /// Hands a copy of `msg` to the channel of every peer of `m` but `skip`,
    /// once each, recording each in `log`.
    pub(crate) fn tell_others(m: &HashMap<PeerId, ClientInfo>, skip: PeerId, msg: &ServerMessage, log: &mut Ghost<Seq<(PeerId, ServerMessage, bool)>>)
        ensures
            extends(old(log)@, final(log)@),
            offered_each(added(old(log)@, final(log)@), m@.dom().remove(skip), |x: ServerMessage| same_message(*msg, x)),
    {
        let ghost log0 = log@;
        for (pid, info) in it: m.iter()
            invariant
                it.seq() == m.iter().remaining(),
                it.seq().no_duplicates(),
                log@.len() >= log0.len(),
                log@.take(log0.len() as int) == log0,
                forall|a: int, b: int| log0.len() <= a < b < log@.len() ==> (#[trigger] log@[a]).0 != (#[trigger] log@[b]).0,
                forall|k: int| log0.len() <= k < log@.len() ==> same_message(*msg, (#[trigger] log@[k]).1)
                    && log@[k].0 != skip && seen_before(it.seq(), it.index() as int, log@[k].0),
                forall|j: int| 0 <= j < it.index() && *it.seq()[j].0 != skip ==>
                    exists|k: int| log0.len() <= k < log@.len() && (#[trigger] log@[k]).0 == *it.seq()[j].0,
        {
            let ghost v = it.seq();
            let ghost n = it.index();
            proof {
                assert(*v[n as int].0 == *pid && *v[n as int].1 == *info);
                assert(m@.contains_key(*v[n as int].0));
            }
            if *pid != skip {
                let ghost before = log@;
                let copy = msg.clone();
                let _ = offer(log, *pid, &info.tx, copy);
                proof {
                    assert(log@.take(log0.len() as int) =~= before.take(log0.len() as int));
                    assert forall|k: int| log0.len() <= k < before.len() implies (#[trigger] log@[k]).0 != *pid by {
                        assert(log@[k] == before[k]);
                        assert(seen_before(v, n as int, before[k].0));
                        let j = choose|j: int| 0 <= j < n && *v[j].0 == before[k].0;
                        assert(m@.contains_key(*v[j].0));
                        if *v[j].0 == *v[n as int].0 {
                            assert(v[j] == v[n as int]);
                        }
                    }
                    assert forall|a: int, b: int| log0.len() <= a < b < log@.len() implies (#[trigger] log@[a]).0 != (#[trigger] log@[b]).0 by {
                        if b < before.len() {
                            assert(log@[a] == before[a] && log@[b] == before[b]);
                        } else {
                            assert(log@[a].0 != *pid);
                        }
                    }
                    assert forall|k: int| log0.len() <= k < log@.len() implies same_message(*msg, (#[trigger] log@[k]).1)
                        && log@[k].0 != skip && seen_before(v, n + 1, log@[k].0) by {
                        if k < before.len() {
                            assert(log@[k] == before[k]);
                            assert(seen_before(v, n as int, before[k].0));
                        } else {
                            assert(*v[n as int].0 == log@[k].0);
                        }
                    }
                    assert forall|j: int| 0 <= j < n + 1 && *v[j].0 != skip implies
                        exists|k: int| log0.len() <= k < log@.len() && (#[trigger] log@[k]).0 == *v[j].0 by {
                        if j < n {
                            let k = choose|k: int| log0.len() <= k < before.len() && (#[trigger] before[k]).0 == *v[j].0;
                            assert(log@[k] == before[k]);
                        } else {
                            assert(log@[before.len() as int].0 == *v[j].0);
                        }
                    }
                }
            } else {
                proof {
                    assert forall|k: int| log0.len() <= k < log@.len() implies same_message(*msg, (#[trigger] log@[k]).1)
                        && log@[k].0 != skip && seen_before(v, n + 1, log@[k].0) by {
                        assert(seen_before(v, n as int, log@[k].0));
                    }
                }
            }
        }
        proof {
            let v = m.iter().remaining();
            let l = added(log0, log@);
            assert forall|a: int, b: int| 0 <= a < b < l.len() implies (#[trigger] l[a]).0 != (#[trigger] l[b]).0 by {
                assert(l[a] == log@[log0.len() + a] && l[b] == log@[log0.len() + b]);
            }
            assert forall|k: int| 0 <= k < l.len() implies m@.dom().remove(skip).contains((#[trigger] l[k]).0)
                && same_message(*msg, l[k].1) by {
                assert(l[k] == log@[log0.len() + k]);
                assert(seen_before(v, v.len() as int, l[k].0));
                let j = choose|j: int| 0 <= j < v.len() && *v[j].0 == l[k].0;
                assert(m@.contains_key(*v[j].0));
            }
            assert forall|p: PeerId| #[trigger] m@.dom().remove(skip).contains(p) implies
                exists|k: int| 0 <= k < l.len() && (#[trigger] l[k]).0 == p by {
                assert(v.contains((&p, &m@[p])));
                let j = choose|j: int| 0 <= j < v.len() && v[j] == (&p, &m@[p]);
                let k = choose|k: int| log0.len() <= k < log@.len() && (#[trigger] log@[k]).0 == *v[j].0;
                assert(l[k - log0.len()] == log@[k]);
            }
        }
    }

    /// Broadcasts to accepted clients; removes those whose channel is closed
    /// and fixes the host if it was removed. Returns (removed peer ids, new
    /// host if the current host was removed).
    pub fn broadcast_retain_connected(&mut self, msg: &ServerMessage) -> (r: (Vec<PeerId>, Option<PeerId>))
        requires
            old(self).wf(),
        ensures
            final(self).wf(),
            r.0@.no_duplicates(),
            forall|k: int| 0 <= k < r.0@.len() ==> old(self).clients@.contains_key(#[trigger] r.0@[k]),
            final(self).clients@ == old(self).clients@.remove_keys(r.0@.to_set()),
            final(self).pending == old(self).pending,
            final(self).state == old(self).state,
            final(self).settings == old(self).settings,
            final(self).banned == old(self).banned,
            final(self).code == old(self).code,
            final(self).app_key == old(self).app_key,
            final(self).next_peer_id == old(self).next_peer_id,
            host_follows(old(self).host_peer_id, r.0@.to_set(), final(self).clients@, final(self).host_peer_id),
            r.1 == reported_host(old(self).host_peer_id, r.0@.to_set(), final(self).clients@, final(self).host_peer_id),
            pruned(*old(self), *final(self)),
            extends(old(self).sent@, final(self).sent@),
            offered_each(added(old(self).sent@, final(self).sent@), old(self).clients@.dom(), |x: ServerMessage| same_message(*msg, x)),
            r.0@ == closed_in(added(old(self).sent@, final(self).sent@)),
    {
        let dead = Self::closed_peers(&self.clients, msg, &mut self.sent);
        let new_host = self.drop_peers(&dead, false);
        proof {
            assert(old(self).pending@.remove_keys(dead@.to_set()) =~= old(self).pending@) by {
                assert forall|p: PeerId| dead@.to_set().contains(p) implies !old(self).pending@.contains_key(p) by {
                    let k = choose|k: int| 0 <= k < dead@.len() && dead@[k] == p;
                    assert(old(self).clients@.contains_key(dead@[k]));
                }
            }
            lemma_removal_pruned(*old(self), *self, dead@.to_set());
        }
        (dead, new_host)
    }

    /// Broadcasts the current state to all accepted and pending clients;
    /// removes those whose channel is closed and fixes the host if it was
    /// removed. Returns (removed peer ids, new host if the host was removed).
    pub fn broadcast_state_update_retain_connected(&mut self) -> (r: (Vec<PeerId>, Option<PeerId>))
        requires
            old(self).wf(),
        ensures
            final(self).wf(),
            r.0@.no_duplicates(),
            forall|k: int| 0 <= k < r.0@.len() ==> old(self).in_use(#[trigger] r.0@[k]),
            final(self).clients@ == old(self).clients@.remove_keys(r.0@.to_set()),
            final(self).pending@ == old(self).pending@.remove_keys(r.0@.to_set()),
            final(self).state == old(self).state,
            final(self).settings == old(self).settings,
            final(self).banned == old(self).banned,
            final(self).code == old(self).code,
            final(self).app_key == old(self).app_key,
            final(self).next_peer_id == old(self).next_peer_id,
            host_follows(old(self).host_peer_id, r.0@.to_set(), final(self).clients@, final(self).host_peer_id),
            r.1 == reported_host(old(self).host_peer_id, r.0@.to_set(), final(self).clients@, final(self).host_peer_id),
            pruned(*old(self), *final(self)),
            extends(old(self).sent@, final(self).sent@),
            offered_each(added(old(self).sent@, final(self).sent@), old(self).clients@.dom() + old(self).pending@.dom(),
                |x: ServerMessage| same_message(ServerMessage::StateUpdate(old(self).state), x)),
            r.0@ == closed_in(added(old(self).sent@, final(self).sent@)),
    {
        let msg = ServerMessage::StateUpdate(self.state.clone());
        let ghost s0 = self.sent@;
        let mut dead = Self::closed_peers(&self.clients, &msg, &mut self.sent);
        let ghost s1 = self.sent@;
        let dead_pending = Self::closed_peers(&self.pending, &msg, &mut self.sent);
        proof {
            let ok = |x: ServerMessage| same_message(ServerMessage::StateUpdate(old(self).state), x);
            let l1 = added(s0, s1);
            let l2 = added(s1, self.sent@);
            lemma_offered_each_weaken(l1, old(self).clients@.dom(), |x: ServerMessage| same_message(msg, x), ok);
            lemma_offered_each_weaken(l2, old(self).pending@.dom(), |x: ServerMessage| same_message(msg, x), ok);
            lemma_offered_each_concat(l1, old(self).clients@.dom(), l2, old(self).pending@.dom(), ok);
            assert(added(s0, self.sent@) =~= l1 + l2);
            assert(self.sent@.take(s0.len() as int) =~= s1.take(s0.len() as int));
            lemma_closed_in_concat(l1, l2);
        }
        let ghost d1 = dead@;
        let mut i: usize = 0;
        while i < dead_pending.len()
            invariant
                i <= dead_pending@.len(),
                dead@ == d1 + dead_pending@.take(i as int),
                d1.no_duplicates(),
                dead_pending@.no_duplicates(),
                forall|k: int| 0 <= k < d1.len() ==> self.clients@.contains_key(#[trigger] d1[k]),
                forall|k: int| 0 <= k < dead_pending@.len() ==> self.pending@.contains_key(#[trigger] dead_pending@[k]),
                self.wf(),
            decreases dead_pending@.len() - i,
        {
            dead.push(dead_pending[i]);
            proof {
                assert(dead_pending@.take(i as int + 1) == dead_pending@.take(i as int).push(dead_pending@[i as int]));
            }
            i = i + 1;
        }
        proof {
            assert(dead_pending@.take(dead_pending@.len() as int) == dead_pending@);
            assert forall|a: int, b: int| 0 <= a < b < dead@.len() implies dead@[a] != dead@[b] by {
                if b < d1.len() {
                } else if a >= d1.len() {
                    assert(dead@[a] == dead_pending@[a - d1.len()]);
                    assert(dead@[b] == dead_pending@[b - d1.len()]);
                } else {
                    assert(self.clients@.contains_key(dead@[a]));
                    assert(self.pending@.contains_key(dead@[b]));
                }
            }
            assert forall|k: int| 0 <= k < dead@.len() implies #[trigger] dead@[k] != 0 && self.in_use(dead@[k]) by {
                if k < d1.len() {
                    assert(self.clients@.contains_key(dead@[k]));
                } else {
                    assert(self.pending@.contains_key(dead@[k]));
                }
            }
        }
        let new_host = self.drop_peers(&dead, true);
        proof {
            assert forall|p: PeerId| dead@.to_set().contains(p) implies (old(self).clients@.dom() + old(self).pending@.dom()).contains(p) by {
                let k = choose|k: int| 0 <= k < dead@.len() && dead@[k] == p;
                assert(old(self).in_use(dead@[k]));
            }
            lemma_removal_pruned(*old(self), *self, dead@.to_set());
        }
        (dead, new_host)
    }

    /// Sends to one peer (accepted or pending). Removes the peer if its
    /// channel is closed. Returns false if the peer was removed.
    pub fn send_to_retain_connected(&mut self, peer_id: PeerId, msg: &ServerMessage) -> (r: bool)
        requires
            old(self).wf(),
        ensures
            final(self).wf(),
            final(self).state == old(self).state,
            final(self).settings == old(self).settings,
            final(self).banned == old(self).banned,
            final(self).code == old(self).code,
            final(self).app_key == old(self).app_key,
            final(self).next_peer_id == old(self).next_peer_id,
            !old(self).in_use(peer_id) ==> r,
            pruned(*old(self), *final(self)),
            r ==> final(self).clients == old(self).clients && final(self).pending == old(self).pending
                && final(self).host_peer_id == old(self).host_peer_id,
            !r ==> {
                &&& old(self).in_use(peer_id)
                &&& final(self).clients@ == old(self).clients@.remove(peer_id)
                &&& final(self).pending@ == old(self).pending@.remove(peer_id)
                &&& host_follows(old(self).host_peer_id, set![peer_id], final(self).clients@, final(self).host_peer_id)
            },
            !old(self).in_use(peer_id) ==> final(self).sent == old(self).sent,
            old(self).in_use(peer_id) ==> {
                &&& final(self).sent@.len() == old(self).sent@.len() + 1
                &&& final(self).sent@.drop_last() == old(self).sent@
                &&& final(self).sent@.last().0 == peer_id
                &&& same_message(*msg, final(self).sent@.last().1)
                &&& r == !final(self).sent@.last().2
            },
    {
        proof {
            lemma_pruned_refl(*self);
        }
        let dead = if let Some(info) = self.clients.get(&peer_id) {
            offer(&mut self.sent, peer_id, &info.tx, msg.clone())
        } else if let Some(info) = self.pending.get(&peer_id) {
            offer(&mut self.sent, peer_id, &info.tx, msg.clone())
        } else {
            return true;
        };
        proof {
            assert(self.sent@.drop_last() =~= old(self).sent@);
        }
        if dead {
            let mut gone: Vec<PeerId> = Vec::new();
            gone.push(peer_id);
            proof {
                assert(gone@ == Seq::<PeerId>::empty().push(peer_id));
                Seq::<PeerId>::empty().lemma_push_to_set_commute(peer_id);
                assert(Seq::<PeerId>::empty().to_set() =~= Set::<PeerId>::empty());
                assert(gone@.to_set() =~= set![peer_id]);
                assert(old(self).clients@.remove_keys(set![peer_id]) =~= old(self).clients@.remove(peer_id));
                assert(old(self).pending@.remove_keys(set![peer_id]) =~= old(self).pending@.remove(peer_id));
            }
            let _ = self.drop_peers(&gone, true);
            proof {
                lemma_removal_pruned(*old(self), *self, set![peer_id]);
            }
            return false;
        }
        proof {
            lemma_pruned_refl(*self);
        }
        true
    }
}

} // verus!
