//! The registry of apps (app key -> RoomPool), and the operations on a room
//! that several requests share: broadcasting with pruning, and leaving.

use vstd::prelude::*;
use crate::code::RoomCode;
use crate::pool::RoomPool;
use crate::protocol::{RoomEvent, ServerMessage};
use crate::room::{added, any_peer, closed_set, lemma_offered_each_len, lemma_closed_in_set, lemma_closed_set_concat, extends, host_follows, lemma_pruned_refl, lemma_pruned_trans, lemma_thinned_trans, offered, offered_each, pruned, reported_host, thinned, removed_ids, PeerId, Room};
use crate::protocol::same_message;
use crate::text::same_text;

verus! {

broadcast use vstd::std_specs::hash::group_hash_axioms;

/// A set that is a proper subset of a finite set is smaller.
proof fn lemma_strict_subset_len<A>(a: Set<A>, b: Set<A>, x: A)
    requires
        a.subset_of(b),
        b.finite(),
        b.contains(x),
        !a.contains(x),
    ensures
        a.len() < b.len(),
{
    vstd::set_lib::lemma_len_subset(a, b.remove(x));
}

/// Every peer that left between `base` and `mid` was announced (PeerLeft)
/// in `log` to every accepted client that `fin` still has.
pub open spec fn departures_announced(base: Room, mid: Room, fin: Room, log: Seq<(PeerId, ServerMessage, bool)>) -> bool {
    forall|d: PeerId, p: PeerId| removed_ids(base, mid).contains(d) && fin.clients@.contains_key(p)
        ==> #[trigger] offered(log, p, ServerMessage::PeerLeft { peer_id: d })
}

/// When the host of `base` was replaced by the time of `mid` and accepted
/// clients remain, the new host was announced (HostTransferred) in `log` to
/// each of them.
pub open spec fn host_announced(base: Room, mid: Room, log: Seq<(PeerId, ServerMessage, bool)>) -> bool {
    (mid.host_peer_id != base.host_peer_id && !mid.clients@.dom().is_empty()) ==>
        forall|p: PeerId| #[trigger] mid.clients@.contains_key(p)
            ==> offered(log, p, ServerMessage::RoomEvent(RoomEvent::HostTransferred(mid.host_peer_id)))
}

/// What the announcements after a broadcast to `base` achieve, ending in
/// `fin`: up to a last room `mid` (before the host is announced, which may
/// remove more peers without a further notice), every peer that left was
/// announced to every remaining client, and a new host was announced.
pub open spec fn cascade_announced(base: Room, fin: Room, log: Seq<(PeerId, ServerMessage, bool)>) -> bool {
    exists|mid: Room| {
        &&& #[trigger] pruned(mid, fin)
        &&& pruned(base, mid)
        &&& departures_announced(base, mid, fin, log)
        &&& host_announced(base, mid, log)
    }
}

/// `d`'s leaving was announced in `log` to every accepted client of `room`.
spec fn announced(d: PeerId, room: Room, log: Seq<(PeerId, ServerMessage, bool)>) -> bool {
    forall|p: PeerId| #[trigger] room.clients@.contains_key(p) ==> offered(log, p, ServerMessage::PeerLeft { peer_id: d })
}

/// What was handed out before stays handed out as the log grows.
proof fn lemma_offered_grows(o: Seq<(PeerId, ServerMessage, bool)>, s1: Seq<(PeerId, ServerMessage, bool)>, s2: Seq<(PeerId, ServerMessage, bool)>, p: PeerId, m: ServerMessage)
    requires
        extends(o, s1),
        extends(s1, s2),
        offered(added(o, s1), p, m),
    ensures
        offered(added(o, s2), p, m),
{
    let k = choose|k: int| 0 <= k < added(o, s1).len() && (#[trigger] added(o, s1)[k]).0 == p && added(o, s1)[k].1 == m;
    assert(s2.take(s1.len() as int) == s1);
    assert(added(o, s2)[k] == s2[o.len() + k]);
    assert(s2[o.len() + k] == s1[o.len() + k]);
}

/// Growing a log twice is growing it.
proof fn lemma_extends_trans(a: Seq<(PeerId, ServerMessage, bool)>, b: Seq<(PeerId, ServerMessage, bool)>, c: Seq<(PeerId, ServerMessage, bool)>)
    requires
        extends(a, b),
        extends(b, c),
    ensures
        extends(a, c),
{
    assert(c.take(a.len() as int) =~= b.take(a.len() as int));
}

/// A log extends itself.
proof fn lemma_extends_refl(a: Seq<(PeerId, ServerMessage, bool)>)
    ensures
        extends(a, a),
{
    assert(a.take(a.len() as int) =~= a);
}

/// A broadcast whose copies all equal the message hands it to each peer.
proof fn lemma_broadcast_offers(o: Seq<(PeerId, ServerMessage, bool)>, s1: Seq<(PeerId, ServerMessage, bool)>, s2: Seq<(PeerId, ServerMessage, bool)>, peers: Set<PeerId>, ok: spec_fn(ServerMessage) -> bool, m: ServerMessage, p: PeerId)
    requires
        extends(o, s1),
        extends(s1, s2),
        offered_each(added(s1, s2), peers, ok),
        forall|x: ServerMessage| #[trigger] ok(x) ==> x == m,
        peers.contains(p),
    ensures
        offered(added(o, s2), p, m),
{
    let l = added(s1, s2);
    let k = choose|k: int| 0 <= k < l.len() && (#[trigger] l[k]).0 == p;
    assert(ok(l[k].1));
    assert(s2.take(s1.len() as int) == s1);
    let n = s1.len() - o.len();
    assert(added(o, s2)[n + k] == l[k]);
}

/// The peers gone from `a` to `c` are those gone from `a` to `b` and from `b` to `c`.
proof fn lemma_removed_union(a: Room, b: Room, c: Room)
    requires
        pruned(a, b),
        pruned(b, c),
    ensures
        removed_ids(a, c) == removed_ids(a, b) + removed_ids(b, c),
{
    assert(removed_ids(a, c) =~= removed_ids(a, b) + removed_ids(b, c));
}

/// `log` begins with one message to each peer of `peers`, each satisfying `ok`.
pub open spec fn begins_with_offers(log: Seq<(PeerId, ServerMessage, bool)>, peers: Set<PeerId>, ok: spec_fn(ServerMessage) -> bool) -> bool {
    exists|n: int| 0 <= n <= log.len() && #[trigger] offered_each(log.take(n), peers, ok)
}

/// A log that grows on from a broadcast still begins with it.
proof fn lemma_begins_with(o: Seq<(PeerId, ServerMessage, bool)>, s1: Seq<(PeerId, ServerMessage, bool)>, s2: Seq<(PeerId, ServerMessage, bool)>, peers: Set<PeerId>, ok: spec_fn(ServerMessage) -> bool)
    requires
        extends(o, s1),
        extends(s1, s2),
        offered_each(added(o, s1), peers, ok),
    ensures
        extends(o, s2),
        begins_with_offers(added(o, s2), peers, ok),
{
    assert(s2.take(o.len() as int) =~= s1.take(o.len() as int));
    let n = s1.len() - o.len();
    assert(added(o, s2).take(n) =~= added(o, s1));
}

/// The peers a broadcast to accepted clients reports are exactly those gone.
proof fn removed_after_broadcast(before: Room, after: Room, dead: Seq<PeerId>)
    requires
        before.wf(),
        forall|k: int| 0 <= k < dead.len() ==> before.clients@.contains_key(#[trigger] dead[k]),
        after.clients@ == before.clients@.remove_keys(dead.to_set()),
        after.pending == before.pending,
    ensures
        removed_ids(before, after) == dead.to_set(),
{
    assert forall|p: PeerId| dead.to_set().contains(p) implies !before.pending@.contains_key(p) by {
        let j = choose|j: int| 0 <= j < dead.len() && dead[j] == p;
        assert(before.clients@.contains_key(dead[j]));
    }
    assert(removed_ids(before, after) =~= dead.to_set());
}

/// Removals that match the closed reports step by step match them overall.
proof fn lemma_closed_step(base: Room, before: Room, after: Room)
    requires
        pruned(base, before),
        pruned(before, after),
        extends(base.sent@, before.sent@),
        extends(before.sent@, after.sent@),
        removed_ids(base, before) == closed_set(added(base.sent@, before.sent@)),
        removed_ids(before, after) == closed_set(added(before.sent@, after.sent@)),
    ensures
        extends(base.sent@, after.sent@),
        removed_ids(base, after) == closed_set(added(base.sent@, after.sent@)),
{
    lemma_extends_trans(base.sent@, before.sent@, after.sent@);
    lemma_removed_union(base, before, after);
    assert(after.sent@.take(before.sent@.len() as int) == before.sent@);
    assert(added(base.sent@, after.sent@) =~= added(base.sent@, before.sent@) + added(before.sent@, after.sent@));
    lemma_closed_set_concat(added(base.sent@, before.sent@), added(before.sent@, after.sent@));
}

/// The peers gone from `base` are finite in number, at most as many as it had.
proof fn lemma_removed_finite(base: Room, room: Room)
    ensures
        removed_ids(base, room).finite(),
        removed_ids(base, room).len() <= base.clients@.len() + base.pending@.len(),
{
    let all = base.clients@.dom() + base.pending@.dom();
    assert(base.clients@.dom().finite());
    assert(base.pending@.dom().finite());
    assert(removed_ids(base, room).subset_of(all));
    vstd::set_lib::lemma_set_subset_finite(all, removed_ids(base, room));
    vstd::set_lib::lemma_len_subset(removed_ids(base, room), all);
    vstd::set_lib::lemma_len_union(base.clients@.dom(), base.pending@.dom());
}

/// One broadcast to the accepted clients of a room pruned from `base` hands
/// at most as many messages as `base` has accepted clients.
proof fn lemma_broadcast_len(base: Room, before: Room, log: Seq<(PeerId, ServerMessage, bool)>, ok: spec_fn(ServerMessage) -> bool)
    requires
        pruned(base, before),
        offered_each(log, before.clients@.dom(), ok),
    ensures
        log.len() <= base.clients@.len(),
{
    lemma_offered_each_len(log, before.clients@.dom(), ok);
    assert(base.clients@.dom().finite());
    vstd::set_lib::lemma_len_subset(before.clients@.dom(), base.clients@.dom());
}

/// Tells the remaining accepted clients that each of `dead` left
/// (PeerLeft), removing whoever turns out to be gone in turn, and then
/// announces the new host (HostTransferred) if one was chosen. `base` is
/// the room before the broadcast that found `dead` and `new_host`.
fn announce_departures(room: &mut Room, dead: Vec<PeerId>, new_host: Option<PeerId>, Ghost(base): Ghost<Room>)
    requires
        old(room).wf(),
        base.wf(),
        pruned(base, *old(room)),
        removed_ids(base, *old(room)) == dead@.to_set(),
        new_host == reported_host(base.host_peer_id, dead@.to_set(), old(room).clients@, old(room).host_peer_id),
        host_follows(base.host_peer_id, dead@.to_set(), old(room).clients@, old(room).host_peer_id),
        extends(base.sent@, old(room).sent@),
        removed_ids(base, *old(room)) == closed_set(added(base.sent@, old(room).sent@)),
        dead@.no_duplicates(),
    ensures
        final(room).wf(),
        pruned(*old(room), *final(room)),
        final(room).pending == old(room).pending,
        extends(old(room).sent@, final(room).sent@),
        cascade_announced(base, *final(room), added(base.sent@, final(room).sent@)),
        removed_ids(base, *final(room)) == closed_set(added(base.sent@, final(room).sent@)),
        added(old(room).sent@, final(room).sent@).len() <= (removed_ids(base, *final(room)).len() + 1) * base.clients@.len(),
{
    let mut dead = dead;
    let mut new_host = new_host;
    let ghost s0 = base.sent@;
    let ghost n = base.clients@.len();
    proof {
        lemma_pruned_refl(*room);
        lemma_extends_refl(room.sent@);
        dead@.unique_seq_to_set();
        assert(added(old(room).sent@, room.sent@).len() == 0);
    }
    while dead.len() > 0
        invariant
            room.wf(),
            old(room).wf(),
            base.wf(),
            pruned(*old(room), *room),
            pruned(base, *room),
            room.pending == old(room).pending,
            s0 == base.sent@,
            extends(s0, room.sent@),
            extends(old(room).sent@, room.sent@),
            removed_ids(base, *room) == closed_set(added(s0, room.sent@)),
            forall|d: PeerId| #[trigger] removed_ids(base, *room).contains(d) ==>
                dead@.contains(d) || announced(d, *room, added(s0, room.sent@)),
            n == base.clients@.len(),
            dead@.no_duplicates(),
            forall|k: int| 0 <= k < dead@.len() ==> removed_ids(base, *room).contains(#[trigger] dead@[k]),
            added(old(room).sent@, room.sent@).len() <= (removed_ids(base, *room).len() - dead@.len()) * n,
            new_host matches Some(h) ==> (!room.clients@.dom().is_empty() ==> h == room.host_peer_id),
            room.host_peer_id != base.host_peer_id && !room.clients@.dom().is_empty() ==> new_host is Some,
        decreases 2 * room.clients@.len() + if dead@.len() > 0 { 1int } else { 0int },
    {
        let ghost start = *room;
        proof {
            lemma_extends_refl(room.sent@);
            assert(Seq::<PeerId>::empty().to_set() =~= Set::<PeerId>::empty());
            assert(removed_ids(base, *room) + Set::<PeerId>::empty() =~= removed_ids(base, *room));
        }
        let mut next_dead: Vec<PeerId> = Vec::new();
        let mut i: usize = 0;
        while i < dead.len()
            invariant
                room.wf(),
                old(room).wf(),
                start.wf(),
                base.wf(),
                pruned(*old(room), start),
                pruned(start, *room),
                pruned(base, start),
                room.pending == old(room).pending,
                next_dead@.len() > 0 ==> room.clients@.len() < start.clients@.len(),
                s0 == base.sent@,
                extends(old(room).sent@, start.sent@),
                extends(s0, start.sent@),
                extends(start.sent@, room.sent@),
                extends(s0, room.sent@),
                removed_ids(base, *room) == closed_set(added(s0, room.sent@)),
                forall|d: PeerId| #[trigger] removed_ids(base, *room).contains(d) ==>
                    (exists|j: int| i <= j < dead@.len() && dead@[j] == d) || next_dead@.contains(d)
                    || announced(d, *room, added(s0, room.sent@)),
                n == base.clients@.len(),
                i <= dead@.len(),
                dead@.no_duplicates(),
                forall|k: int| 0 <= k < dead@.len() ==> removed_ids(base, start).contains(#[trigger] dead@[k]),
                next_dead@.no_duplicates(),
                forall|k: int| 0 <= k < next_dead@.len() ==> !removed_ids(base, start).contains(#[trigger] next_dead@[k]),
                removed_ids(base, *room) == removed_ids(base, start) + next_dead@.to_set(),
                added(old(room).sent@, room.sent@).len() <= (removed_ids(base, start).len() - dead@.len() + i) * n,
                new_host matches Some(h) ==> (!room.clients@.dom().is_empty() ==> h == room.host_peer_id),
                room.host_peer_id != base.host_peer_id && !room.clients@.dom().is_empty() ==> new_host is Some,
            decreases dead@.len() - i,
        {
            let pid = dead[i];
            let ghost before = *room;
            let ghost nd0 = next_dead@;
            let (d, h) = room.broadcast_retain_connected(&ServerMessage::PeerLeft { peer_id: pid });
            proof {
                lemma_pruned_trans(start, before, *room);
                lemma_pruned_trans(base, start, before);
                lemma_pruned_trans(base, before, *room);
                if d@.len() > 0 {
                    assert(before.clients@.contains_key(d@[0]));
                    assert(d@.to_set().contains(d@[0]));
                    lemma_strict_subset_len(room.clients@.dom(), before.clients@.dom(), d@[0]);
                }
                vstd::set_lib::lemma_len_subset(room.clients@.dom(), before.clients@.dom());
                vstd::set_lib::lemma_len_subset(before.clients@.dom(), start.clients@.dom());
            }
            let mut k: usize = 0;
            while k < d.len()
                invariant
                    k <= d@.len(),
                    next_dead@ == nd0 + d@.take(k as int),
                    (next_dead@.len() > 0 || d@.len() > 0) ==> room.clients@.len() < start.clients@.len(),
                decreases d@.len() - k,
            {
                next_dead.push(d[k]);
                proof {
                    assert(d@.take(k as int + 1) == d@.take(k as int).push(d@[k as int]));
                }
                k = k + 1;
            }
            proof {
                assert(d@.take(d@.len() as int) == d@);
                let log1 = added(s0, before.sent@);
                let log2 = added(s0, room.sent@);
                assert(extends(s0, room.sent@)) by {
                    assert(room.sent@.take(s0.len() as int) =~= before.sent@.take(s0.len() as int));
                }
                assert(extends(start.sent@, room.sent@)) by {
                    assert(room.sent@.take(start.sent@.len() as int) =~= before.sent@.take(start.sent@.len() as int));
                }
                assert(removed_ids(before, *room) =~= d@.to_set()) by {
                    assert forall|p: PeerId| d@.to_set().contains(p) implies !before.pending@.contains_key(p) by {
                        let j = choose|j: int| 0 <= j < d@.len() && d@[j] == p;
                        assert(before.clients@.contains_key(d@[j]));
                    }
                }
                lemma_removed_union(base, before, *room);
                lemma_closed_in_set(added(before.sent@, room.sent@));
                lemma_closed_step(base, before, *room);
                // counting: this broadcast hands at most n messages, and the
                // peers it removed are new and distinct
                lemma_broadcast_len(base, before, added(before.sent@, room.sent@),
                    |y: ServerMessage| same_message(ServerMessage::PeerLeft { peer_id: pid }, y));
                assert(room.sent@.take(before.sent@.len() as int) == before.sent@);
                assert(added(old(room).sent@, room.sent@).len()
                    == added(old(room).sent@, before.sent@).len() + added(before.sent@, room.sent@).len());
                let c = removed_ids(base, start).len() - dead@.len() + i;
                assert(c * n + n == (c + 1) * n) by (nonlinear_arith);
                assert(next_dead@ == nd0 + d@);
                assert forall|k: int| 0 <= k < d@.len() implies !removed_ids(base, before).contains(#[trigger] d@[k]) by {
                    assert(before.clients@.contains_key(d@[k]));
                }
                assert forall|k: int| 0 <= k < next_dead@.len() implies !removed_ids(base, start).contains(#[trigger] next_dead@[k]) by {
                    if k >= nd0.len() {
                        assert(next_dead@[k] == d@[k - nd0.len()]);
                        assert(!removed_ids(base, before).contains(d@[k - nd0.len()]));
                        lemma_removed_union(base, start, before);
                    }
                }
                assert(next_dead@.no_duplicates()) by {
                    assert forall|a: int, b: int| 0 <= a < next_dead@.len() && 0 <= b < next_dead@.len() && a != b
                        implies next_dead@[a] != next_dead@[b] by {
                        if a < nd0.len() && b < nd0.len() {
                        } else if a >= nd0.len() && b >= nd0.len() {
                            assert(next_dead@[a] == d@[a - nd0.len()] && next_dead@[b] == d@[b - nd0.len()]);
                        } else if a < nd0.len() {
                            assert(removed_ids(base, before).contains(nd0[a]));
                            assert(next_dead@[b] == d@[b - nd0.len()]);
                            assert(!removed_ids(base, before).contains(d@[b - nd0.len()]));
                        } else {
                            assert(removed_ids(base, before).contains(nd0[b]));
                            assert(next_dead@[a] == d@[a - nd0.len()]);
                            assert(!removed_ids(base, before).contains(d@[a - nd0.len()]));
                        }
                    }
                }
                assert(removed_ids(base, *room) =~= removed_ids(base, start) + next_dead@.to_set()) by {
                    assert forall|x: PeerId| #[trigger] next_dead@.to_set().contains(x) == (nd0.to_set().contains(x) || d@.to_set().contains(x)) by {
                        if next_dead@.to_set().contains(x) {
                            let k = choose|k: int| 0 <= k < next_dead@.len() && next_dead@[k] == x;
                            if k < nd0.len() { assert(nd0[k] == x); } else { assert(d@[k - nd0.len()] == x); }
                        }
                        if nd0.to_set().contains(x) {
                            let k = choose|k: int| 0 <= k < nd0.len() && nd0[k] == x;
                            assert(next_dead@[k] == x);
                        }
                        if d@.to_set().contains(x) {
                            let k = choose|k: int| 0 <= k < d@.len() && d@[k] == x;
                            assert(next_dead@[nd0.len() + k] == x);
                        }
                    }
                }
                assert forall|x: PeerId| #[trigger] removed_ids(base, *room).contains(x) implies
                    (exists|j: int| i + 1 <= j < dead@.len() && dead@[j] == x) || next_dead@.contains(x)
                    || announced(x, *room, log2) by {
                    if d@.to_set().contains(x) {
                        assert(next_dead@ == nd0 + d@);
                        let j = choose|j: int| 0 <= j < d@.len() && d@[j] == x;
                        assert(next_dead@[nd0.len() + j] == x);
                    } else if x == pid {
                        assert forall|p: PeerId| #[trigger] room.clients@.contains_key(p) implies
                            offered(log2, p, ServerMessage::PeerLeft { peer_id: x }) by {
                            lemma_broadcast_offers(s0, before.sent@, room.sent@, before.clients@.dom(), |y: ServerMessage| same_message(ServerMessage::PeerLeft { peer_id: pid }, y), ServerMessage::PeerLeft { peer_id: pid }, p);
                        }
                    } else {
                        assert(removed_ids(base, before).contains(x));
                        if exists|j: int| i <= j < dead@.len() && dead@[j] == x {
                            let j = choose|j: int| i <= j < dead@.len() && dead@[j] == x;
                            assert(j != i);
                        } else if nd0.contains(x) {
                            let j = choose|j: int| 0 <= j < nd0.len() && nd0[j] == x;
                            assert(next_dead@[j] == x);
                        } else {
                            assert(announced(x, before, log1));
                            assert forall|p: PeerId| #[trigger] room.clients@.contains_key(p) implies
                                offered(log2, p, ServerMessage::PeerLeft { peer_id: x }) by {
                                assert(before.clients@.contains_key(p));
                                lemma_offered_grows(s0, before.sent@, room.sent@, p, ServerMessage::PeerLeft { peer_id: x });
                            }
                        }
                    }
                }
            }
            if h.is_some() {
                new_host = h;
            }
            i = i + 1;
        }
        proof {
            lemma_pruned_trans(*old(room), start, *room);
            lemma_pruned_trans(base, start, *room);
            lemma_extends_trans(old(room).sent@, start.sent@, room.sent@);
            vstd::set_lib::lemma_len_subset(room.clients@.dom(), start.clients@.dom());
            lemma_removed_finite(base, start);
            next_dead@.unique_seq_to_set();
            assert(removed_ids(base, start).disjoint(next_dead@.to_set())) by {
                assert forall|x: PeerId| next_dead@.to_set().contains(x) implies !removed_ids(base, start).contains(x) by {
                    let k = choose|k: int| 0 <= k < next_dead@.len() && next_dead@[k] == x;
                }
            }
            vstd::set_lib::lemma_set_disjoint_lens(removed_ids(base, start), next_dead@.to_set());
            assert forall|k: int| 0 <= k < next_dead@.len() implies removed_ids(base, *room).contains(#[trigger] next_dead@[k]) by {
                assert(next_dead@.to_set().contains(next_dead@[k]));
            }
        }
        dead = next_dead;
    }
    let ghost mid = *room;
    proof {
        lemma_pruned_refl(mid);
        let r = removed_ids(base, mid).len();
        assert(r * n <= (r + 1) * n) by (nonlinear_arith);
    }
    if let Some(nh) = new_host {
        let ghost before = *room;
        let (d, _) = room.broadcast_retain_connected(&ServerMessage::RoomEvent(RoomEvent::HostTransferred(nh)));
        proof {
            lemma_broadcast_len(base, before, added(before.sent@, room.sent@),
                |y: ServerMessage| same_message(ServerMessage::RoomEvent(RoomEvent::HostTransferred(nh)), y));
            assert(room.sent@.take(before.sent@.len() as int) == before.sent@);
            assert(added(old(room).sent@, room.sent@).len()
                == added(old(room).sent@, before.sent@).len() + added(before.sent@, room.sent@).len());
            lemma_pruned_trans(base, before, *room);
            lemma_removed_union(base, before, *room);
            lemma_removed_finite(base, *room);
            vstd::set_lib::lemma_len_subset(removed_ids(base, before), removed_ids(base, *room));
            let r0 = removed_ids(base, before).len();
            let r1 = removed_ids(base, *room).len();
            assert(r0 * n + n <= (r1 + 1) * n) by (nonlinear_arith)
                requires r0 <= r1;
            lemma_pruned_trans(*old(room), before, *room);
            lemma_pruned_trans(base, before, *room);
            removed_after_broadcast(before, *room, d@);
            lemma_closed_in_set(added(before.sent@, room.sent@));
            lemma_closed_step(base, before, *room);
            lemma_extends_trans(old(room).sent@, before.sent@, room.sent@);
            assert(extends(s0, room.sent@)) by {
                assert(room.sent@.take(s0.len() as int) =~= before.sent@.take(s0.len() as int));
            }
            assert forall|x: PeerId, p: PeerId| removed_ids(base, mid).contains(x) && room.clients@.contains_key(p)
                implies #[trigger] offered(added(s0, room.sent@), p, ServerMessage::PeerLeft { peer_id: x }) by {
                assert(announced(x, mid, added(s0, mid.sent@)));
                assert(mid.clients@.contains_key(p));
                lemma_offered_grows(s0, mid.sent@, room.sent@, p, ServerMessage::PeerLeft { peer_id: x });
            }
            if mid.host_peer_id != base.host_peer_id && !mid.clients@.dom().is_empty() {
                assert forall|p: PeerId| #[trigger] mid.clients@.contains_key(p) implies
                    offered(added(s0, room.sent@), p, ServerMessage::RoomEvent(RoomEvent::HostTransferred(mid.host_peer_id))) by {
                    lemma_broadcast_offers(s0, mid.sent@, room.sent@, mid.clients@.dom(), |y: ServerMessage| same_message(ServerMessage::RoomEvent(RoomEvent::HostTransferred(nh)), y), ServerMessage::RoomEvent(RoomEvent::HostTransferred(nh)), p);
                }
            }
            assert(departures_announced(base, mid, *room, added(s0, room.sent@)));
            assert(host_announced(base, mid, added(s0, room.sent@)));
        }
    } else {
        proof {
            assert forall|x: PeerId, p: PeerId| removed_ids(base, mid).contains(x) && room.clients@.contains_key(p)
                implies #[trigger] offered(added(s0, room.sent@), p, ServerMessage::PeerLeft { peer_id: x }) by {
                assert(announced(x, mid, added(s0, mid.sent@)));
            }
            assert(departures_announced(base, mid, *room, added(s0, room.sent@)));
        }
    }
}

/// `after` is `before` once `msg` was broadcast to its accepted clients:
/// the message handed to each of them, exactly the peers whose channels
/// reported closed removed and their leaving announced, pending clients
/// untouched.
pub open spec fn broadcast_done(before: Room, after: Room, msg: ServerMessage) -> bool {
    &&& pruned(before, after)
    &&& after.pending == before.pending
    &&& extends(before.sent@, after.sent@)
    &&& begins_with_offers(added(before.sent@, after.sent@), before.clients@.dom(), |x: ServerMessage| same_message(msg, x))
    &&& cascade_announced(before, after, added(before.sent@, after.sent@))
    &&& removed_ids(before, after) == closed_set(added(before.sent@, after.sent@))
}

/// Broadcasts to the room, removes dead channels, and propagates PeerLeft
/// and HostTransferred as needed. It broadcasts at most (clients + 2) times
/// (once, once per removed client, once for a new host), so it hands out at
/// most (clients + 2) * clients messages.
pub fn broadcast_and_prune(room: &mut Room, msg: &ServerMessage)
    requires
        old(room).wf(),
    ensures
        final(room).wf(),
        pruned(*old(room), *final(room)),
        final(room).pending == old(room).pending,
        extends(old(room).sent@, final(room).sent@),
        begins_with_offers(added(old(room).sent@, final(room).sent@), old(room).clients@.dom(),
            |x: ServerMessage| same_message(*msg, x)),
        cascade_announced(*old(room), *final(room), added(old(room).sent@, final(room).sent@)),
        broadcast_done(*old(room), *final(room), *msg),
        removed_ids(*old(room), *final(room)) == closed_set(added(old(room).sent@, final(room).sent@)),
        added(old(room).sent@, final(room).sent@).len() <= (old(room).clients@.len() + 2) * old(room).clients@.len(),
{
    let (dead, new_host) = room.broadcast_retain_connected(msg);
    let ghost mid = *room;
    proof {
        removed_after_broadcast(*old(room), mid, dead@);
        lemma_closed_in_set(added(old(room).sent@, mid.sent@));
    }
    announce_departures(room, dead, new_host, Ghost(*old(room)));
    proof {
        let n = old(room).clients@.len();
        lemma_offered_each_len(added(old(room).sent@, mid.sent@), old(room).clients@.dom(), |x: ServerMessage| same_message(*msg, x));
        assert(room.sent@.take(mid.sent@.len() as int) == mid.sent@);
        assert(added(old(room).sent@, room.sent@).len()
            == added(old(room).sent@, mid.sent@).len() + added(mid.sent@, room.sent@).len());
        lemma_pruned_trans(*old(room), mid, *room);
        assert(removed_ids(*old(room), *room).subset_of(old(room).clients@.dom()));
        assert(old(room).clients@.dom().finite());
        vstd::set_lib::lemma_len_subset(removed_ids(*old(room), *room), old(room).clients@.dom());
        let r = removed_ids(*old(room), *room).len();
        assert(n + (r + 1) * n <= (n + 2) * n) by (nonlinear_arith)
            requires r <= n;
    }
    proof {
        lemma_pruned_trans(*old(room), mid, *room);
        lemma_begins_with(old(room).sent@, mid.sent@, room.sent@, old(room).clients@.dom(), |x: ServerMessage| same_message(*msg, x));
    }
}

/// Broadcasts the room's current state to everyone (accepted and pending),
/// removes dead channels, and propagates PeerLeft and HostTransferred.
pub fn broadcast_state_update_and_prune(room: &mut Room)
    requires
        old(room).wf(),
    ensures
        final(room).wf(),
        pruned(*old(room), *final(room)),
        extends(old(room).sent@, final(room).sent@),
        begins_with_offers(added(old(room).sent@, final(room).sent@), old(room).clients@.dom() + old(room).pending@.dom(),
            |x: ServerMessage| same_message(ServerMessage::StateUpdate(old(room).state), x)),
        cascade_announced(*old(room), *final(room), added(old(room).sent@, final(room).sent@)),
        removed_ids(*old(room), *final(room)) == closed_set(added(old(room).sent@, final(room).sent@)),
        added(old(room).sent@, final(room).sent@).len()
            <= (old(room).clients@.len() + old(room).pending@.len()) + (old(room).clients@.len() + old(room).pending@.len() + 1) * old(room).clients@.len(),
{
    let (dead, new_host) = room.broadcast_state_update_retain_connected();
    let ghost mid = *room;
    proof {
        assert forall|p: PeerId| dead@.to_set().contains(p) implies (old(room).clients@.dom() + old(room).pending@.dom()).contains(p) by {
            let k = choose|k: int| 0 <= k < dead@.len() && dead@[k] == p;
            assert(old(room).in_use(dead@[k]));
        }
        crate::room::lemma_removal_pruned(*old(room), mid, dead@.to_set());
        lemma_closed_in_set(added(old(room).sent@, mid.sent@));
    }
    announce_departures(room, dead, new_host, Ghost(*old(room)));
    proof {
        let n = old(room).clients@.len();
        let p = old(room).pending@.len();
        lemma_offered_each_len(added(old(room).sent@, mid.sent@), old(room).clients@.dom() + old(room).pending@.dom(),
            |x: ServerMessage| same_message(ServerMessage::StateUpdate(old(room).state), x));
        assert(old(room).clients@.dom().finite() && old(room).pending@.dom().finite());
        vstd::set_lib::lemma_set_disjoint_lens(old(room).clients@.dom(), old(room).pending@.dom());
        assert(room.sent@.take(mid.sent@.len() as int) == mid.sent@);
        assert(added(old(room).sent@, room.sent@).len()
            == added(old(room).sent@, mid.sent@).len() + added(mid.sent@, room.sent@).len());
        lemma_removed_finite(*old(room), *room);
        let r = removed_ids(*old(room), *room).len();
        assert((r + 1) * n <= (n + p + 1) * n) by (nonlinear_arith)
            requires r <= n + p;
    }
    proof {
        lemma_pruned_trans(*old(room), mid, *room);
        lemma_begins_with(old(room).sent@, mid.sent@, room.sent@, old(room).clients@.dom() + old(room).pending@.dom(),
            |x: ServerMessage| same_message(ServerMessage::StateUpdate(old(room).state), x));
    }
}

/// Shared app registry: app key -> RoomPool.
pub struct AppRegistry {
    pub pools: Vec<RoomPool>,
}

impl AppRegistry {
    /// Every pool is consistent; no app key occurs twice.
    pub open spec fn wf(self) -> bool {
        &&& forall|i: int| 0 <= i < self.pools@.len() ==> (#[trigger] self.pools@[i]).wf()
        &&& forall|i: int, j: int| 0 <= i < j < self.pools@.len() ==>
            (#[trigger] self.pools@[i]).app_key@ != (#[trigger] self.pools@[j]).app_key@
    }

    pub open spec fn has_pool(self, app: Seq<char>) -> bool {
        exists|i: int| 0 <= i < self.pools@.len() && (#[trigger] self.pools@[i]).app_key@ == app
    }

    /// The position of the app's pool.
    pub open spec fn pool_pos(self, app: Seq<char>) -> int {
        choose|i: int| 0 <= i < self.pools@.len() && (#[trigger] self.pools@[i]).app_key@ == app
    }

    pub open spec fn pool_of(self, app: Seq<char>) -> RoomPool {
        self.pools@[self.pool_pos(app)]
    }

    /// Whether the app has a room under this key.
    pub open spec fn has_room(self, app: Seq<char>, key: Seq<char>) -> bool {
        self.has_pool(app) && self.pool_of(app).has_key(key)
    }

    /// The position of that room within its pool.
    pub open spec fn room_pos(self, app: Seq<char>, key: Seq<char>) -> int {
        choose|j: int| 0 <= j < self.pool_of(app).rooms@.len() && (#[trigger] self.pool_of(app).rooms@[j]).code.key() == key
    }

    pub open spec fn room_of(self, app: Seq<char>, key: Seq<char>) -> Room {
        self.pool_of(app).rooms@[self.room_pos(app, key)]
    }

    /// `after` is this registry with the room (app, key) replaced by `room`.
    pub open spec fn with_room(self, after: AppRegistry, app: Seq<char>, key: Seq<char>, room: Room) -> bool {
        let i = self.pool_pos(app);
        &&& after.pools@.len() == self.pools@.len()
        &&& forall|k: int| 0 <= k < self.pools@.len() && k != i ==> after.pools@[k] == #[trigger] self.pools@[k]
        &&& after.pools@[i].app_key == self.pools@[i].app_key
        &&& after.pools@[i].fallback_serial == self.pools@[i].fallback_serial
        &&& after.pools@[i].rooms@ == self.pools@[i].rooms@.update(self.room_pos(app, key), room)
    }

    /// `after` is this registry without the room (app, key).
    pub open spec fn without_room(self, after: AppRegistry, app: Seq<char>, key: Seq<char>) -> bool {
        let i = self.pool_pos(app);
        &&& after.pools@.len() == self.pools@.len()
        &&& forall|k: int| 0 <= k < self.pools@.len() && k != i ==> after.pools@[k] == #[trigger] self.pools@[k]
        &&& after.pools@[i].app_key == self.pools@[i].app_key
        &&& after.pools@[i].fallback_serial == self.pools@[i].fallback_serial
        &&& after.pools@[i].rooms@ == self.pools@[i].rooms@.remove(self.room_pos(app, key))
    }

    pub fn new() -> (r: AppRegistry)
        ensures
            r.wf(),
            r.pools@.len() == 0,
    {
        AppRegistry { pools: Vec::new() }
    }

    /// The position of the app's pool, if it has one.
    pub fn pool_index(&self, app_key: &str) -> (r: Option<usize>)
        requires
            self.wf(),
        ensures
            match r {
                Some(i) => self.has_pool(app_key@) && i == self.pool_pos(app_key@),
                None => !self.has_pool(app_key@),
            },
    {
        let mut i: usize = 0;
        while i < self.pools.len()
            invariant
                i <= self.pools@.len(),
                self.wf(),
                forall|j: int| 0 <= j < i ==> (#[trigger] self.pools@[j]).app_key@ != app_key@,
            decreases self.pools@.len() - i,
        {
            if same_text(self.pools[i].app_key.as_str(), app_key) {
                proof {
                    assert(self.pools@[i as int].app_key@ == app_key@);
                    let k = self.pool_pos(app_key@);
                    if k != i {
                        if k > i {
                            assert(self.pools@[i as int].app_key@ != self.pools@[k].app_key@);
                        }
                    }
                }
                return Some(i);
            }
            i = i + 1;
        }
        None
    }

    /// Looks up the room (app, code).
    pub fn lookup_room(&self, app_key: &str, room_code: &RoomCode) -> (r: Option<&Room>)
        requires
            self.wf(),
        ensures
            match r {
                Some(room) => self.has_room(app_key@, room_code.key()) && *room == self.room_of(app_key@, room_code.key()),
                None => !self.has_room(app_key@, room_code.key()),
            },
    {
        match self.locate(app_key, room_code) {
            Some((i, j)) => Some(&self.pools[i].rooms[j]),
            None => None,
        }
    }

    /// Where the room (app, code) is: its pool's position and its position
    /// in the pool.
    pub fn locate(&self, app_key: &str, code: &RoomCode) -> (r: Option<(usize, usize)>)
        requires
            self.wf(),
        ensures
            match r {
                Some((i, j)) => self.has_room(app_key@, code.key()) && i == self.pool_pos(app_key@)
                    && j == self.room_pos(app_key@, code.key()),
                None => !self.has_room(app_key@, code.key()),
            },
    {
        let i = match self.pool_index(app_key) {
            Some(i) => i,
            None => return None,
        };
        let pool = &self.pools[i];
        match pool.room_index(code) {
            Some(j) => {
                proof {
                    let k = self.room_pos(app_key@, code.key());
                    if k != j {
                        if k > j {
                            assert(pool.rooms@[j as int].code.key() != pool.rooms@[k].code.key());
                        }
                    }
                }
                Some((i, j))
            },
            None => None,
        }
    }
}

impl AppRegistry {
    /// `after` is this registry with a pool for `app`: the same when it had
    /// one, or with a new empty pool at the end.
    pub open spec fn pool_ensured(self, after: AppRegistry, app: Seq<char>) -> bool {
        if self.has_pool(app) {
            after == self
        } else {
            &&& after.pools@.len() == self.pools@.len() + 1
            &&& after.pools@.drop_last() == self.pools@
            &&& after.pools@.last().app_key@ == app
            &&& after.pools@.last().rooms@.len() == 0
            &&& after.pools@.last().fallback_serial == 0
        }
    }

    /// Makes sure the app has a pool; returns its position.
    pub fn ensure_pool(&mut self, app_key: &str) -> (i: usize)
        requires
            old(self).wf(),
        ensures
            final(self).wf(),
            old(self).pool_ensured(*final(self), app_key@),
            final(self).has_pool(app_key@),
            i == final(self).pool_pos(app_key@),
    {
        match self.pool_index(app_key) {
            Some(i) => i,
            None => {
                self.pools.push(RoomPool::new(app_key.to_owned()));
                let i = self.pools.len() - 1;
                proof {
                    assert(self.pools@.drop_last() == old(self).pools@);
                    assert forall|a: int, b: int| 0 <= a < b < self.pools@.len() implies
                        (#[trigger] self.pools@[a]).app_key@ != (#[trigger] self.pools@[b]).app_key@ by {
                        if b == i {
                            assert(self.pools@[a] == old(self).pools@[a]);
                        }
                    }
                    assert(self.pools@[i as int].app_key@ == app_key@);
                    let k = self.pool_pos(app_key@);
                    if k != i {
                        assert(self.pools@[k] == old(self).pools@[k]);
                    }
                }
                i
            },
        }
    }
}

/// `after` is `before` once `peer` has left: the peer is gone, and so are
/// exactly those peers whose channels reported closed; the host follows. A host that
/// left is replaced by a remaining accepted client when there is one; with
/// none left the host id stays as it was (or is 0). The remaining clients
/// were told that `peer` left and, when the host left, which client was
/// chosen as host (who is host still, unless it was gone in turn).
pub open spec fn departed(before: Room, after: Room, peer: PeerId) -> bool {
    &&& !after.in_use(peer)
    &&& after.pending@ == before.pending@.remove(peer)
    &&& thinned(before, after)
    &&& before.host_peer_id != peer ==> pruned(before, after)
    &&& before.host_peer_id == peer ==> {
        ||| after.clients@.contains_key(after.host_peer_id)
        ||| after.clients@.dom().is_empty() && (after.host_peer_id == peer || after.host_peer_id == 0)
    }
    &&& extends(before.sent@, after.sent@)
    &&& removed_ids(before, after) == closed_set(added(before.sent@, after.sent@)).insert(peer).intersect(
        before.clients@.dom() + before.pending@.dom())
    &&& forall|p: PeerId| #[trigger] after.clients@.contains_key(p)
        ==> offered(added(before.sent@, after.sent@), p, ServerMessage::PeerLeft { peer_id: peer })
    &&& (before.host_peer_id == peer && !after.clients@.dom().is_empty()) ==> exists|h: PeerId| {
        &&& #[trigger] before.clients@.contains_key(h)
        &&& h != peer
        &&& (after.clients@.contains_key(h) ==> after.host_peer_id == h)
        &&& forall|p: PeerId| #[trigger] after.clients@.contains_key(p)
            ==> offered(added(before.sent@, after.sent@), p, ServerMessage::RoomEvent(RoomEvent::HostTransferred(h)))
    }
}

/// A log that begins with a broadcast to `peers` hands each of them some
/// message satisfying `ok`.
pub proof fn lemma_begins_offers_some(log: Seq<(PeerId, ServerMessage, bool)>, peers: Set<PeerId>, ok: spec_fn(ServerMessage) -> bool, p: PeerId)
    requires
        begins_with_offers(log, peers, ok),
        peers.contains(p),
    ensures
        exists|m: ServerMessage| #[trigger] offered(log, p, m) && ok(m),
{
    let n = choose|n: int| 0 <= n <= log.len() && #[trigger] offered_each(log.take(n), peers, ok);
    let l = log.take(n);
    let k = choose|k: int| 0 <= k < l.len() && (#[trigger] l[k]).0 == p;
    assert(log[k] == l[k]);
    assert(offered(log, p, l[k].1));
}

/// A log that begins with a broadcast whose copies all equal `m` hands `m`
/// to each peer of the broadcast.
proof fn lemma_begins_offers(log: Seq<(PeerId, ServerMessage, bool)>, peers: Set<PeerId>, ok: spec_fn(ServerMessage) -> bool, m: ServerMessage, p: PeerId)
    requires
        begins_with_offers(log, peers, ok),
        forall|x: ServerMessage| #[trigger] ok(x) ==> x == m,
        peers.contains(p),
    ensures
        offered(log, p, m),
{
    let n = choose|n: int| 0 <= n <= log.len() && #[trigger] offered_each(log.take(n), peers, ok);
    let l = log.take(n);
    let k = choose|k: int| 0 <= k < l.len() && (#[trigger] l[k]).0 == p;
    assert(ok(l[k].1));
    assert(log[k] == l[k]);
}

impl AppRegistry {
    /// Replacing a room by one with the same code and app keeps the registry
    /// consistent and the room where it was.
    pub proof fn lemma_with_room(self, after: AppRegistry, app: Seq<char>, key: Seq<char>, room: Room)
        requires
            self.wf(),
            self.has_room(app, key),
            self.with_room(after, app, key, room),
            room.wf(),
            room.code.key() == key,
            room.app_key@ == app,
        ensures
            after.wf(),
            after.has_room(app, key),
            after.pool_pos(app) == self.pool_pos(app),
            after.room_pos(app, key) == self.room_pos(app, key),
            after.room_of(app, key) == room,
            forall|a: Seq<char>| #[trigger] after.has_pool(a) == self.has_pool(a),
    {
        let i = self.pool_pos(app);
        let j = self.room_pos(app, key);
        let p = after.pools@[i];
        assert(p.wf()) by {
            assert forall|a: int, b: int| 0 <= a < b < p.rooms@.len() implies
                (#[trigger] p.rooms@[a]).code.key() != (#[trigger] p.rooms@[b]).code.key() by {
                assert(self.pools@[i].rooms@[a].code.key() != self.pools@[i].rooms@[b].code.key());
            }
        }
        assert(after.pools@[i].app_key@ == app);
        assert forall|k: int| 0 <= k < after.pools@.len() implies (#[trigger] after.pools@[k]).wf() by {
            if k != i {
                assert(after.pools@[k] == self.pools@[k]);
            }
        }
        assert forall|a: int, b: int| 0 <= a < b < after.pools@.len() implies
            (#[trigger] after.pools@[a]).app_key@ != (#[trigger] after.pools@[b]).app_key@ by {
            assert(self.pools@[a].app_key@ != self.pools@[b].app_key@);
        }
        assert forall|a: Seq<char>| #[trigger] after.has_pool(a) == self.has_pool(a) by {
            if self.has_pool(a) {
                let k = choose|k: int| 0 <= k < self.pools@.len() && (#[trigger] self.pools@[k]).app_key@ == a;
                assert(after.pools@[k].app_key@ == a);
            }
            if after.has_pool(a) {
                let k = choose|k: int| 0 <= k < after.pools@.len() && (#[trigger] after.pools@[k]).app_key@ == a;
                assert(self.pools@[k].app_key@ == a);
            }
        }
        assert(after.pools@[i].rooms@[j].code.key() == key);
        let i2 = after.pool_pos(app);
        if i2 != i {
            if i2 < i {
                assert(after.pools@[i2].app_key@ != after.pools@[i].app_key@);
            } else {
                assert(after.pools@[i].app_key@ != after.pools@[i2].app_key@);
            }
        }
        let j2 = after.room_pos(app, key);
        if j2 != j {
            if j2 < j {
                assert(p.rooms@[j2].code.key() != p.rooms@[j].code.key());
            } else {
                assert(p.rooms@[j].code.key() != p.rooms@[j2].code.key());
            }
        }
    }

    /// Removing a room keeps the registry consistent.
    pub proof fn lemma_without_room(self, after: AppRegistry, app: Seq<char>, key: Seq<char>)
        requires
            self.wf(),
            self.has_room(app, key),
            self.without_room(after, app, key),
        ensures
            after.wf(),
            forall|a: Seq<char>| #[trigger] after.has_pool(a) == self.has_pool(a),
    {
        let i = self.pool_pos(app);
        let j = self.room_pos(app, key);
        let p = after.pools@[i];
        let q = self.pools@[i];
        assert(p.wf()) by {
            assert forall|a: int, b: int| 0 <= a < b < p.rooms@.len() implies
                (#[trigger] p.rooms@[a]).code.key() != (#[trigger] p.rooms@[b]).code.key() by {
                let a0 = if a < j { a } else { a + 1 };
                let b0 = if b < j { b } else { b + 1 };
                assert(p.rooms@[a] == q.rooms@[a0]);
                assert(p.rooms@[b] == q.rooms@[b0]);
            }
            assert forall|a: int| 0 <= a < p.rooms@.len() implies (#[trigger] p.rooms@[a]).wf() && p.rooms@[a].app_key@ == p.app_key@ by {
                let a0 = if a < j { a } else { a + 1 };
                assert(p.rooms@[a] == q.rooms@[a0]);
            }
        }
        assert forall|k: int| 0 <= k < after.pools@.len() implies (#[trigger] after.pools@[k]).wf() by {
            if k != i {
                assert(after.pools@[k] == self.pools@[k]);
            }
        }
        assert forall|a: int, b: int| 0 <= a < b < after.pools@.len() implies
            (#[trigger] after.pools@[a]).app_key@ != (#[trigger] after.pools@[b]).app_key@ by {
            assert(self.pools@[a].app_key@ != self.pools@[b].app_key@);
        }
        assert forall|a: Seq<char>| #[trigger] after.has_pool(a) == self.has_pool(a) by {
            if self.has_pool(a) {
                let k = choose|k: int| 0 <= k < self.pools@.len() && (#[trigger] self.pools@[k]).app_key@ == a;
                assert(after.pools@[k].app_key@ == a);
            }
            if after.has_pool(a) {
                let k = choose|k: int| 0 <= k < after.pools@.len() && (#[trigger] after.pools@[k]).app_key@ == a;
                assert(self.pools@[k].app_key@ == a);
            }
        }
    }
}

/// `after` is the registry once `peer` left the room (app, key): with the
/// room gone when no one is left in it.
pub open spec fn left_room(before: AppRegistry, after: AppRegistry, app: Seq<char>, key: Seq<char>, peer: PeerId) -> bool {
    &&& !before.has_room(app, key) ==> after.pools == before.pools
    &&& before.has_room(app, key) ==> exists|room: Room| {
        &&& #[trigger] departed(before.room_of(app, key), room, peer)
        &&& room.player_total() == 0 ==> before.without_room(after, app, key)
        &&& room.player_total() != 0 ==> before.with_room(after, app, key, room)
    }
}

/// Leaving takes the peer out, and an empty room goes: once `peer` left the
/// room (app, key), the room, if it is still there, holds neither `peer` nor
/// anyone it did not hold before, and holds at least one player; each of
/// its accepted clients was told PeerLeft; a host that left is replaced by
/// an accepted client, and any other host stays unless its own channel
/// reported closed. When `peer` was the only one in it, the room is gone.
pub proof fn lemma_leave_removes_peer(before: AppRegistry, after: AppRegistry, app: Seq<char>, key: Seq<char>, peer: PeerId)
    requires
        before.wf(),
        before.has_room(app, key),
        left_room(before, after, app, key, peer),
    ensures
        after.has_room(app, key) ==> {
            &&& !after.room_of(app, key).clients@.contains_key(peer)
            &&& !after.room_of(app, key).pending@.contains_key(peer)
            &&& after.room_of(app, key).clients@.dom().subset_of(before.room_of(app, key).clients@.dom())
            &&& after.room_of(app, key).pending@.dom().subset_of(before.room_of(app, key).pending@.dom())
            &&& after.room_of(app, key).clients@.len() + after.room_of(app, key).pending@.len() > 0
            &&& forall|q: PeerId| #[trigger] after.room_of(app, key).clients@.contains_key(q) ==>
                offered(added(before.room_of(app, key).sent@, after.room_of(app, key).sent@), q,
                    ServerMessage::PeerLeft { peer_id: peer })
            &&& (before.room_of(app, key).host_peer_id == peer && !after.room_of(app, key).clients@.dom().is_empty())
                ==> after.room_of(app, key).clients@.contains_key(after.room_of(app, key).host_peer_id)
            &&& (before.room_of(app, key).host_peer_id != peer && !closed_set(added(before.room_of(app, key).sent@,
                after.room_of(app, key).sent@)).contains(before.room_of(app, key).host_peer_id))
                ==> after.room_of(app, key).host_peer_id == before.room_of(app, key).host_peer_id
        },
        (before.room_of(app, key).clients@.dom() + before.room_of(app, key).pending@.dom()).subset_of(set![peer])
            ==> !after.has_room(app, key),
{
    let r0 = before.room_of(app, key);
    let room = choose|room: Room| {
        &&& #[trigger] departed(r0, room, peer)
        &&& room.player_total() == 0 ==> before.without_room(after, app, key)
        &&& room.player_total() != 0 ==> before.with_room(after, app, key, room)
    };
    let i = before.pool_pos(app);
    let j = before.room_pos(app, key);
    assert(before.pools@[i].wf());
    assert(r0.wf());
    assert(room.wf()) by {
        assert(room.clients@.dom().subset_of(r0.clients@.dom()));
    }
    if room.player_total() != 0 {
        assert(room.code.key() == key);
        before.lemma_with_room(after, app, key, room);
        if r0.host_peer_id != peer && !closed_set(added(r0.sent@, room.sent@)).contains(r0.host_peer_id) {
            assert(!removed_ids(r0, room).contains(r0.host_peer_id));
        }
        if (r0.clients@.dom() + r0.pending@.dom()).subset_of(set![peer]) {
            assert(room.clients@.dom().subset_of(set![peer]));
            assert(room.pending@.dom().subset_of(set![peer]));
            assert(room.clients@.dom() =~= Set::<PeerId>::empty()) by {
                assert forall|q: PeerId| !room.clients@.dom().contains(q) by {
                    if q == peer {
                        assert(!room.in_use(peer));
                    }
                }
            }
            assert(room.pending@.dom() =~= Set::<PeerId>::empty()) by {
                assert forall|q: PeerId| !room.pending@.dom().contains(q) by {
                    if q == peer {
                        assert(!room.in_use(peer));
                    }
                }
            }
        }
    } else {
        before.lemma_without_room(after, app, key);
        if after.has_room(app, key) {
            let i2 = after.pool_pos(app);
            assert(after.has_pool(app));
            assert(i2 == i) by {
                if i2 != i {
                    if i2 < i {
                        assert(after.pools@[i2].app_key@ != after.pools@[i].app_key@);
                    } else {
                        assert(after.pools@[i].app_key@ != after.pools@[i2].app_key@);
                    }
                }
            }
            let q = before.pools@[i];
            let pl = after.pools@[i];
            let k = choose|k: int| 0 <= k < pl.rooms@.len() && (#[trigger] pl.rooms@[k]).code.key() == key;
            let k0 = if k < j { k } else { k + 1 };
            assert(pl.rooms@[k] == q.rooms@[k0]);
            assert(q.rooms@[j].code.key() == key);
            if k0 < j {
                assert(q.rooms@[k0].code.key() != q.rooms@[j].code.key());
            } else {
                assert(q.rooms@[j].code.key() != q.rooms@[k0].code.key());
            }
        }
    }
}

/// The room part of leaving: the peer is removed, the others are told, and a
/// new host is chosen if the host left.
fn leave_in_room(room: &mut Room, peer_id: PeerId)
    requires
        old(room).wf(),
    ensures
        final(room).wf(),
        departed(*old(room), *final(room), peer_id),
{
    room.clients.remove(&peer_id);
    room.pending.remove(&peer_id);
    let ghost r1 = *room;
    proof {
        if old(room).host_peer_id != peer_id {
            assert(removed_ids(*old(room), r1).subset_of(set![peer_id]));
            lemma_pruned_refl(r1);
        }
    }
    broadcast_and_prune(room, &ServerMessage::PeerLeft { peer_id });
    let ghost r2 = *room;
    let ghost s0 = old(room).sent@;
    proof {
        lemma_thinned_trans(*old(room), r1, r2);
        if old(room).host_peer_id != peer_id {
            lemma_pruned_trans(*old(room), r1, r2);
        }
        lemma_extends_refl(s0);
        assert forall|p: PeerId| #[trigger] r2.clients@.contains_key(p)
            implies offered(added(s0, r2.sent@), p, ServerMessage::PeerLeft { peer_id }) by {
            lemma_begins_offers(added(s0, r2.sent@), r1.clients@.dom(),
                |x: ServerMessage| same_message(ServerMessage::PeerLeft { peer_id }, x), ServerMessage::PeerLeft { peer_id }, p);
        }
        if old(room).host_peer_id == peer_id {
            assert(!removed_ids(r1, r2).contains(peer_id));
        }
        let d = old(room).clients@.dom() + old(room).pending@.dom();
        assert(added(r1.sent@, r2.sent@) == added(s0, r2.sent@));
        assert(removed_ids(*old(room), r2) =~= closed_set(added(s0, r2.sent@)).insert(peer_id).intersect(d));
    }
    if room.host_peer_id == peer_id {
        if let Some(new_host) = any_peer(&room.clients) {
            room.host_peer_id = new_host;
            let ghost r3 = *room;
            broadcast_and_prune(room, &ServerMessage::RoomEvent(RoomEvent::HostTransferred(new_host)));
            proof {
                lemma_thinned_trans(r2, r3, *room);
                lemma_thinned_trans(*old(room), r2, *room);
                if removed_ids(r3, *room).contains(new_host) {
                } else {
                    assert(room.clients@.contains_key(new_host) || room.pending@.contains_key(new_host));
                    assert(!r3.pending@.contains_key(new_host));
                }
                lemma_extends_trans(s0, r3.sent@, room.sent@);
                assert forall|p: PeerId| #[trigger] room.clients@.contains_key(p)
                    implies offered(added(s0, room.sent@), p, ServerMessage::PeerLeft { peer_id }) by {
                    lemma_offered_grows(s0, r3.sent@, room.sent@, p, ServerMessage::PeerLeft { peer_id });
                }
                let hm = ServerMessage::RoomEvent(RoomEvent::HostTransferred(new_host));
                assert forall|p: PeerId| #[trigger] room.clients@.contains_key(p)
                    implies offered(added(s0, room.sent@), p, hm) by {
                    lemma_begins_offers(added(r3.sent@, room.sent@), r3.clients@.dom(),
                        |x: ServerMessage| same_message(hm, x), hm, p);
                    let k = choose|k: int| 0 <= k < added(r3.sent@, room.sent@).len() && (#[trigger] added(r3.sent@, room.sent@)[k]).0 == p && added(r3.sent@, room.sent@)[k].1 == hm;
                    assert(room.sent@.take(r3.sent@.len() as int) == r3.sent@);
                    assert(added(s0, room.sent@)[(r3.sent@.len() - s0.len()) + k] == added(r3.sent@, room.sent@)[k]);
                }
                assert(old(room).clients@.contains_key(new_host));
                let d = old(room).clients@.dom() + old(room).pending@.dom();
                assert(room.sent@.take(r3.sent@.len() as int) == r3.sent@);
                assert(added(s0, room.sent@) =~= added(s0, r3.sent@) + added(r3.sent@, room.sent@));
                lemma_closed_set_concat(added(s0, r3.sent@), added(r3.sent@, room.sent@));
                assert(removed_ids(r3, *room) == closed_set(added(r3.sent@, room.sent@)));
                assert(removed_ids(*old(room), *room) =~= closed_set(added(s0, room.sent@)).insert(peer_id).intersect(d));
            }
        }
    }
}

/// Removes a peer from its room; the room is dropped once no one is left in it.
pub fn leave_room(registry: &mut AppRegistry, app_key: &str, room_code: &RoomCode, peer_id: PeerId)
    requires
        old(registry).wf(),
    ensures
        final(registry).wf(),
        forall|a: Seq<char>| #[trigger] final(registry).has_pool(a) == old(registry).has_pool(a),
        !old(registry).has_room(app_key@, room_code.key()) ==> final(registry).pools == old(registry).pools,
        left_room(*old(registry), *final(registry), app_key@, room_code.key(), peer_id),
{
    let (i, j) = match registry.locate(app_key, room_code) {
        Some(loc) => loc,
        None => return,
    };
    let ghost app = app_key@;
    let ghost key = room_code.key();
    let ghost before = registry.room_of(app, key);
    assert(registry.pools@[i as int].rooms@[j as int].wf());
    leave_in_room(&mut registry.pools[i].rooms[j], peer_id);
    let ghost after = registry.pools@[i as int].rooms@[j as int];
    let ghost mid = *registry;
    proof {
        assert(old(registry).with_room(mid, app, key, after));
        old(registry).lemma_with_room(mid, app, key, after);
    }
    let is_empty = registry.pools[i].rooms[j].clients.is_empty() && registry.pools[i].rooms[j].pending.is_empty();
    if is_empty {
        let removed = registry.pools[i].remove_if_empty(room_code);
        proof {
            assert(removed);
            let k = choose|k: int| 0 <= k < mid.pools@[i as int].rooms@.len()
                && (#[trigger] mid.pools@[i as int].rooms@[k]).code.key() == key
                && registry.pools@[i as int].rooms@ == mid.pools@[i as int].rooms@.remove(k);
            if k != j {
                if k < j {
                    assert(mid.pools@[i as int].rooms@[k].code.key() != mid.pools@[i as int].rooms@[j as int].code.key());
                } else {
                    assert(mid.pools@[i as int].rooms@[j as int].code.key() != mid.pools@[i as int].rooms@[k].code.key());
                }
            }
            assert(mid.pools@[i as int].rooms@.update(j as int, after).remove(j as int) =~= old(registry).pools@[i as int].rooms@.remove(j as int));
            assert(registry.pools@[i as int].rooms@ =~= old(registry).pools@[i as int].rooms@.remove(j as int));
            assert(registry.pools@.len() == old(registry).pools@.len());
            assert(forall|k: int| 0 <= k < old(registry).pools@.len() && k != i ==> registry.pools@[k] == #[trigger] old(registry).pools@[k]);
            assert(old(registry).without_room(*registry, app, key));
            old(registry).lemma_without_room(*registry, app, key);
            assert(after.clients@.dom() =~= Set::<PeerId>::empty());
            assert(after.pending@.dom() =~= Set::<PeerId>::empty());
        }
    } else {
        proof {
            assert(after.player_total() != 0) by {
                if after.clients@.len() == 0 {
                    assert(after.clients@.dom().len() == 0);
                }
            }
        }
    }
}

/// Anonymized per-game stats for the public endpoint.
#[derive(Debug)]
pub struct GameStats {
    pub id: String,
    pub rooms: u32,
    pub players: u32,
}

/// The number of players of a pool, capped at `usize::MAX`.
pub open spec fn capped_players(pool: RoomPool) -> nat {
    if RoomPool::players_in(pool.rooms@) > usize::MAX {
        usize::MAX as nat
    } else {
        RoomPool::players_in(pool.rooms@)
    }
}

/// Per app, in registry order: its key, its number of rooms and of players
/// (accepted and pending), each truncated to 32 bits.
pub fn collect_stats(registry: &AppRegistry) -> (r: Vec<GameStats>)
    requires
        registry.wf(),
    ensures
        r@.len() == registry.pools@.len(),
        forall|k: int| 0 <= k < r@.len() ==> {
            &&& (#[trigger] r@[k]).id@ == registry.pools@[k].app_key@
            &&& r@[k].rooms == registry.pools@[k].rooms@.len() as u32
            &&& r@[k].players == capped_players(registry.pools@[k]) as u32
        },
{
    let mut games: Vec<GameStats> = Vec::new();
    let mut k: usize = 0;
    while k < registry.pools.len()
        invariant
            k <= registry.pools@.len(),
            registry.wf(),
            games@.len() == k,
            forall|m: int| 0 <= m < k ==> {
                &&& (#[trigger] games@[m]).id@ == registry.pools@[m].app_key@
                &&& games@[m].rooms == registry.pools@[m].rooms@.len() as u32
                &&& games@[m].players == capped_players(registry.pools@[m]) as u32
            },
        decreases registry.pools@.len() - k,
    {
        let pool = &registry.pools[k];
        let (rooms, players) = pool.room_and_player_counts();
        games.push(GameStats { id: pool.app_key.clone(), rooms: rooms as u32, players: players as u32 });
        k = k + 1;
    }
    games
}

} // verus!
