//! RoomPool: the rooms of one app (room code -> Room); generates unique room codes.

use vstd::prelude::*;
use crate::code::RoomCode;
use crate::outside::{bytes_content, random_below, string_push};
use crate::code::{all_ascii, code_key};
use crate::outside::ascii_lowercase;
use crate::protocol::RoomListEntry;
use crate::room::{lemma_player_total_bound, PeerId, Room, ClientInfo};
use crate::settings::RoomSettings;

verus! {

/// Length of a generated room code.
pub const ROOM_CODE_LEN: usize = 6;

/// The characters of generated room codes: no I, O, 0 or 1.
pub const ROOM_CODE_CHARS: &'static str = "ABCDEFGHJKLMNPQRSTUVWXYZ23456789";

/// How many random codes are tried before the numbered fallback.
pub const ROOM_CODE_GEN_RETRIES: u32 = 20;

/// The decimal digit for `d` (0 to 9).
pub open spec fn digit_char(d: nat) -> char {
    if d == 0 { '0' }
    else if d == 1 { '1' }
    else if d == 2 { '2' }
    else if d == 3 { '3' }
    else if d == 4 { '4' }
    else if d == 5 { '5' }
    else if d == 6 { '6' }
    else if d == 7 { '7' }
    else if d == 8 { '8' }
    else { '9' }
}

/// The decimal notation of `n`, without leading zeros.
pub open spec fn decimal(n: nat) -> Seq<char>
    decreases n,
{
    if n < 10 {
        seq![digit_char(n)]
    } else {
        decimal(n / 10).push(digit_char(n % 10))
    }
}

/// The code of the numbered fallback room `n`: "R" followed by `n` in decimal.
pub open spec fn fallback_code(n: u64) -> Seq<char> {
    seq!['R'] + decimal(n as nat)
}

/// Whether `s` could be a generated random code.
pub open spec fn is_random_code(s: Seq<char>) -> bool {
    &&& s.len() == ROOM_CODE_LEN
    &&& forall|i: int| 0 <= i < s.len() ==> ROOM_CODE_CHARS@.contains(#[trigger] s[i])
}

/// The fallback number `j` places after `s`, counting on from `u64::MAX` to 0.
pub open spec fn serial_after(s: u64, j: nat) -> u64 {
    ((s as nat + j) % (u64::MAX as nat + 1)) as u64
}

/// Every decimal notation has at least one character, and all are digits.
proof fn lemma_decimal_digits(n: nat)
    ensures
        decimal(n).len() >= 1,
        forall|i: int| 0 <= i < decimal(n).len() ==> '0' <= #[trigger] decimal(n)[i] && decimal(n)[i] <= '9',
    decreases n,
{
    if n >= 10 {
        lemma_decimal_digits(n / 10);
    }
}

/// Different numbers have different decimal notations.
proof fn lemma_decimal_injective(a: nat, b: nat)
    requires
        decimal(a) == decimal(b),
    ensures
        a == b,
    decreases a,
{
    lemma_decimal_digits(a);
    lemma_decimal_digits(b);
    if a >= 10 && b >= 10 {
        assert(decimal(a).drop_last() =~= decimal(a / 10));
        assert(decimal(b).drop_last() =~= decimal(b / 10));
        lemma_decimal_injective(a / 10, b / 10);
        assert(decimal(a).last() == digit_char(a % 10));
        assert(decimal(b).last() == digit_char(b % 10));
    } else if a >= 10 {
        lemma_decimal_digits(a / 10);
        assert(decimal(a).len() >= 2);
    } else if b >= 10 {
        lemma_decimal_digits(b / 10);
        assert(decimal(b).len() >= 2);
    } else {
        assert(decimal(a)[0] == digit_char(a));
        assert(decimal(b)[0] == digit_char(b));
    }
}

/// The key of the fallback code `n`: "r" followed by `n` in decimal.
proof fn lemma_fallback_key(n: u64)
    ensures
        code_key(fallback_code(n)) == seq!['r'] + decimal(n as nat),
{
    lemma_decimal_digits(n as nat);
    let s = fallback_code(n);
    assert(all_ascii(s)) by {
        assert forall|i: int| 0 <= i < s.len() implies (#[trigger] s[i] as u32) < 128 by {
            if i > 0 {
                assert(s[i] == decimal(n as nat)[i - 1]);
            }
        }
    }
    assert(ascii_lowercase(s) =~= seq!['r'] + decimal(n as nat)) by {
        assert forall|i: int| 0 <= i < s.len() implies #[trigger] ascii_lowercase(s)[i] == (seq!['r'] + decimal(n as nat))[i] by {
            if i > 0 {
                assert(s[i] == decimal(n as nat)[i - 1]);
            }
        }
    }
}

/// Fallback codes fewer than 2^64 places apart have different keys.
proof fn lemma_fallback_keys_differ(s0: u64, i: nat, j: nat)
    requires
        i < j,
        j <= u64::MAX as nat,
    ensures
        code_key(fallback_code(serial_after(s0, i))) != code_key(fallback_code(serial_after(s0, j))),
{
    let a = serial_after(s0, i);
    let b = serial_after(s0, j);
    lemma_fallback_key(a);
    lemma_fallback_key(b);
    if code_key(fallback_code(a)) == code_key(fallback_code(b)) {
        assert(decimal(a as nat) =~= (seq!['r'] + decimal(a as nat)).skip(1));
        assert(decimal(b as nat) =~= (seq!['r'] + decimal(b as nat)).skip(1));
        lemma_decimal_injective(a as nat, b as nat);
        let m = u64::MAX as nat + 1;
        assert((s0 as nat + i) % m == (s0 as nat + j) % m);
        assert(false) by (nonlinear_arith)
            requires
                (s0 as nat + i) % m == (s0 as nat + j) % m,
                i < j,
                j < m,
                m > 0,
        {
            vstd::arithmetic::div_mod::lemma_fundamental_div_mod((s0 as nat + i) as int, m as int);
            vstd::arithmetic::div_mod::lemma_fundamental_div_mod((s0 as nat + j) as int, m as int);
        }
    }
}

/// Each code of `tried` could be a random code, and a room of the pool
/// already has it.
pub open spec fn random_codes_taken(pool: RoomPool, tried: Seq<Seq<char>>) -> bool {
    forall|i: int| 0 <= i < tried.len() ==> is_random_code(#[trigger] tried[i]) && pool.has_key(code_key(tried[i]))
}

/// The first `k` fallback codes from the pool's counter on are all taken.
pub open spec fn fallback_taken(pool: RoomPool, k: nat) -> bool {
    forall|j: nat| j < k ==> #[trigger] pool.has_key(code_key(fallback_code(serial_after(pool.fallback_serial, j))))
}

/// A pool cannot have more fallback codes taken in a row than it has rooms.
proof fn lemma_taken_fit(pool: RoomPool, k: nat)
    requires
        fallback_taken(pool, k),
        k <= u64::MAX as nat + 1,
    ensures
        k <= pool.rooms@.len(),
{
    let s0 = pool.fallback_serial;
    let f = |j: int| code_key(fallback_code(serial_after(s0, j as nat)));
    let x = vstd::set_lib::set_int_range(0, k as int);
    vstd::set_lib::lemma_int_range(0, k as int);
    let t = x.map(f);
    assert(vstd::relations::injective_on(f, x)) by {
        assert forall|a: int, b: int| x.contains(a) && x.contains(b) && #[trigger] f(a) == #[trigger] f(b) implies a == b by {
            if a < b {
                lemma_fallback_keys_differ(s0, a as nat, b as nat);
            } else if b < a {
                lemma_fallback_keys_differ(s0, b as nat, a as nat);
            }
        }
    }
    vstd::set_lib::lemma_map_size(x, t, f);
    let n = pool.rooms@.len();
    let g = |i: int| pool.rooms@[i].code.key();
    let y = vstd::set_lib::set_int_range(0, n as int);
    vstd::set_lib::lemma_int_range(0, n as int);
    let r = y.map(g);
    vstd::set_lib::lemma_map_size_bound(y, r, g);
    assert(t.subset_of(r)) by {
        assert forall|key: Seq<char>| t.contains(key) implies r.contains(key) by {
            let j = choose|j: int| x.contains(j) && f(j) == key;
            assert(pool.has_key(code_key(fallback_code(serial_after(s0, j as nat)))));
            let i = choose|i: int| 0 <= i < pool.rooms@.len() && (#[trigger] pool.rooms@[i]).code.key() == key;
            assert(y.contains(i));
        }
    }
    vstd::set_lib::lemma_len_subset(t, r);
}

/// Appends the decimal notation of `n`.
pub fn push_decimal(s: &mut String, n: u64)
    ensures
        final(s)@ == old(s)@ + decimal(n as nat),
    decreases n,
{
    if n >= 10 {
        push_decimal(s, n / 10);
    }
    let d = n % 10;
    let c = if d == 0 { '0' }
        else if d == 1 { '1' }
        else if d == 2 { '2' }
        else if d == 3 { '3' }
        else if d == 4 { '4' }
        else if d == 5 { '5' }
        else if d == 6 { '6' }
        else if d == 7 { '7' }
        else if d == 8 { '8' }
        else { '9' };
    proof {
        if n >= 10 {
            assert(decimal(n as nat) == decimal((n / 10) as nat).push(digit_char((n % 10) as nat)));
        } else {
            assert(decimal(n as nat) == seq![digit_char(n as nat)]);
        }
    }
    string_push(s, c);
}

/// A random code of `ROOM_CODE_LEN` characters drawn from `ROOM_CODE_CHARS`.
fn random_code_text() -> (r: String)
    ensures
        is_random_code(r@),
{
    proof {
        reveal_strlit("ABCDEFGHJKLMNPQRSTUVWXYZ23456789");
    }
    let mut out = String::new();
    let mut k: usize = 0;
    while k < ROOM_CODE_LEN
        invariant
            k <= ROOM_CODE_LEN,
            out@.len() == k,
            ROOM_CODE_CHARS@.len() == 32,
            forall|i: int| 0 <= i < k ==> ROOM_CODE_CHARS@.contains(#[trigger] out@[i]),
        decreases ROOM_CODE_LEN - k,
    {
        let i = random_below(32);
        let c = ROOM_CODE_CHARS.get_char(i);
        proof {
            assert(ROOM_CODE_CHARS@[i as int] == c);
        }
        string_push(&mut out, c);
        k = k + 1;
    }
    out
}

impl Room {
    /// A room as `Room::new` makes it: no one in it, host 0, empty state.
    pub open spec fn is_fresh(self, app_key: Seq<char>, code: Seq<char>, settings: RoomSettings) -> bool {
        &&& self.wf()
        &&& self.app_key@ == app_key
        &&& self.code.text() == code
        &&& self.host_peer_id == 0
        &&& self.clients@ == Map::<PeerId, ClientInfo>::empty()
        &&& self.pending@ == Map::<PeerId, ClientInfo>::empty()
        &&& bytes_content(self.state) == Seq::<u8>::empty()
        &&& self.settings == settings
        &&& self.banned@.len() == 0
        &&& self.id_cursor() == 1
    }

    /// Whether the room shows in the public list.
    pub open spec fn is_listed(self) -> bool {
        self.settings.is_public && !self.spec_is_full()
    }
}

/// Whether an entry of the public list describes `room`.
pub open spec fn describes(e: RoomListEntry, room: Room) -> bool {
    &&& e.room_code.text() == room.code.text()
    &&& e.player_count == room.player_total()
    &&& e.settings == room.settings.without_password()
}

/// One app's set of rooms (room code -> Room).
pub struct RoomPool {
    pub app_key: String,
    pub rooms: Vec<Room>,
    /// Numbers the fallback codes used when random codes keep colliding.
    pub fallback_serial: u64,
}

impl RoomPool {
    /// Every room is consistent, belongs to this app and has a code that is
    /// not empty; no two rooms have the same code.
    pub open spec fn wf(self) -> bool {
        &&& forall|i: int| 0 <= i < self.rooms@.len() ==> (#[trigger] self.rooms@[i]).wf()
        &&& forall|i: int| 0 <= i < self.rooms@.len() ==> (#[trigger] self.rooms@[i]).code.key().len() > 0
        &&& forall|i: int| 0 <= i < self.rooms@.len() ==> (#[trigger] self.rooms@[i]).app_key@ == self.app_key@
        &&& forall|i: int, j: int| 0 <= i < j < self.rooms@.len() ==>
            (#[trigger] self.rooms@[i]).code.key() != (#[trigger] self.rooms@[j]).code.key()
    }

    /// Whether some room is known under this key.
    pub open spec fn has_key(self, key: Seq<char>) -> bool {
        exists|i: int| 0 <= i < self.rooms@.len() && (#[trigger] self.rooms@[i]).code.key() == key
    }

    /// Number of players (accepted and pending) over all rooms.
    pub open spec fn players_in(rooms: Seq<Room>) -> nat
        decreases rooms.len(),
    {
        if rooms.len() == 0 {
            0
        } else {
            Self::players_in(rooms.drop_last()) + rooms.last().player_total()
        }
    }

    pub fn new(app_key: String) -> (r: RoomPool)
        ensures
            r.wf(),
            r.app_key@ == app_key@,
            r.rooms@.len() == 0,
            r.fallback_serial == 0,
    {
        RoomPool { app_key, rooms: Vec::new(), fallback_serial: 0 }
    }

    /// The position of the room with the same code, if any.
    pub fn room_index(&self, code: &RoomCode) -> (r: Option<usize>)
        requires
            self.wf(),
        ensures
            match r {
                Some(i) => i < self.rooms@.len() && self.rooms@[i as int].code.key() == code.key(),
                None => !self.has_key(code.key()),
            },
    {
        let mut i: usize = 0;
        while i < self.rooms.len()
            invariant
                i <= self.rooms@.len(),
                forall|j: int| 0 <= j < i ==> (#[trigger] self.rooms@[j]).code.key() != code.key(),
            decreases self.rooms@.len() - i,
        {
            if self.rooms[i].code.same_room(code) {
                return Some(i);
            }
            i = i + 1;
        }
        None
    }

    /// Looks up a room by code.
    pub fn get_room(&self, code: &RoomCode) -> (r: Option<&Room>)
        requires
            self.wf(),
        ensures
            match r {
                Some(room) => room.code.key() == code.key() && exists|i: int|
                    0 <= i < self.rooms@.len() && self.rooms@[i] == *room,
                None => !self.has_key(code.key()),
            },
    {
        match self.room_index(code) {
            Some(i) => Some(&self.rooms[i]),
            None => None,
        }
    }

    /// Inserts a new room only if the code is not already taken.
    fn try_insert_new_room(&mut self, code: RoomCode, settings: RoomSettings) -> (r: Option<RoomCode>)
        requires
            old(self).wf(),
            code.key().len() > 0,
        ensures
            final(self).wf(),
            final(self).app_key == old(self).app_key,
            final(self).fallback_serial == old(self).fallback_serial,
            old(self).has_key(code.key()) <==> r is None,
            r is None ==> final(self).rooms == old(self).rooms,
            r matches Some(c) ==> {
                &&& c.text() == code.text()
                &&& final(self).rooms@.len() == old(self).rooms@.len() + 1
                &&& final(self).rooms@.drop_last() == old(self).rooms@
                &&& final(self).rooms@.last().is_fresh(old(self).app_key@, code.text(), settings)
            },
    {
        if self.room_index(&code).is_some() {
            return None;
        }
        let copy = code.clone();
        let room = Room::new(self.app_key.clone(), code, settings);
        self.rooms.push(room);
        proof {
            assert(self.rooms@.drop_last() == old(self).rooms@);
            assert forall|i: int, j: int| 0 <= i < j < self.rooms@.len() implies
                (#[trigger] self.rooms@[i]).code.key() != (#[trigger] self.rooms@[j]).code.key() by {
                if j == self.rooms@.len() - 1 {
                    assert(self.rooms@[i] == old(self).rooms@[i]);
                }
            }
        }
        Some(copy)
    }

    /// Creates a new room with an atomic check-and-insert. With a requested
    /// code, fails exactly when a room with that code exists; without one,
    /// tries random codes, then the numbered fallback codes in turn, and
    /// always succeeds: `None` comes only from a requested code that collides.
    pub fn create_room(&mut self, settings: RoomSettings, requested_code: &str) -> (r: Option<RoomCode>)
        requires
            old(self).wf(),
        ensures
            final(self).wf(),
            final(self).app_key == old(self).app_key,
            r is None ==> final(self).rooms == old(self).rooms,
            r matches Some(c) ==> {
                &&& !old(self).has_key(c.key())
                &&& final(self).rooms@.len() == old(self).rooms@.len() + 1
                &&& final(self).rooms@.drop_last() == old(self).rooms@
                &&& final(self).rooms@.last().is_fresh(old(self).app_key@, c.text(), settings)
            },
            requested_code@.len() != 0 ==> {
                &&& (r is None <==> old(self).has_key(code_key(requested_code@)))
                &&& (r matches Some(c) ==> c.text() == requested_code@)
                &&& final(self).fallback_serial == old(self).fallback_serial
            },
            requested_code@.len() == 0 ==> (r matches Some(c) && {
                ||| final(self).fallback_serial == old(self).fallback_serial && is_random_code(c.text())
                ||| exists|k: nat, tried: Seq<Seq<char>>| {
                    &&& #[trigger] fallback_taken(*old(self), k)
                    &&& tried.len() == ROOM_CODE_GEN_RETRIES
                    &&& #[trigger] random_codes_taken(*old(self), tried)
                    &&& c.text() == fallback_code(serial_after(old(self).fallback_serial, k))
                    &&& final(self).fallback_serial == serial_after(old(self).fallback_serial, k + 1)
                }
            }),
    {
        if !requested_code.is_empty() {
            let code = RoomCode::new(requested_code.to_owned());
            return self.try_insert_new_room(code, settings);
        }
        let mut attempt: u32 = 0;
        let ghost mut tried: Seq<Seq<char>> = Seq::empty();
        while attempt < ROOM_CODE_GEN_RETRIES
            invariant
                self.rooms == old(self).rooms,
                self.app_key == old(self).app_key,
                self.fallback_serial == old(self).fallback_serial,
                old(self).wf(),
                requested_code@.len() == 0,
                attempt <= ROOM_CODE_GEN_RETRIES,
                tried.len() == attempt,
                random_codes_taken(*old(self), tried),
            decreases ROOM_CODE_GEN_RETRIES - attempt,
        {
            let text = random_code_text();
            let code = RoomCode::new(text);
            let ghost t = code.text();
            if let Some(c) = self.try_insert_new_room(code, settings.clone()) {
                return Some(c);
            }
            proof {
                tried = tried.push(t);
            }
            attempt = attempt + 1;
        }
        assert(tried.len() == ROOM_CODE_GEN_RETRIES);
        let ghost s0 = self.fallback_serial;
        let total = self.rooms.len();
        proof {
            vstd::arithmetic::div_mod::lemma_small_mod(s0 as nat, u64::MAX as nat + 1);
        }
        let mut taken: usize = 0;
        loop
            invariant
                total == old(self).rooms@.len(),
                self.rooms == old(self).rooms,
                self.app_key == old(self).app_key,
                old(self).wf(),
                old(self).fallback_serial == s0,
                requested_code@.len() == 0,
                taken <= old(self).rooms@.len(),
                self.fallback_serial == serial_after(s0, taken as nat),
                fallback_taken(*old(self), taken as nat),
                tried.len() == ROOM_CODE_GEN_RETRIES,
                random_codes_taken(*old(self), tried),
            decreases old(self).rooms@.len() - taken,
        {
            let n = self.fallback_serial;
            self.fallback_serial = self.fallback_serial.wrapping_add(1);
            proof {
                let m = u64::MAX as nat + 1;
                vstd::arithmetic::div_mod::lemma_add_mod_noop((s0 as nat + taken) as int, 1, m as int);
                assert(self.fallback_serial == serial_after(s0, taken as nat + 1));
            }
            let mut text = String::new();
            string_push(&mut text, 'R');
            push_decimal(&mut text, n);
            proof {
                assert(text@ == fallback_code(n));
            }
            let code = RoomCode::new(text);
            let ghost key = code.key();
            if let Some(c) = self.try_insert_new_room(code, settings.clone()) {
                return Some(c);
            }
            proof {
                assert(old(self).has_key(key));
                assert(fallback_taken(*old(self), taken as nat + 1)) by {
                    assert forall|j: nat| j < taken as nat + 1 implies #[trigger] old(self).has_key(code_key(fallback_code(serial_after(s0, j)))) by {
                        if j < taken as nat {
                            assert(fallback_taken(*old(self), taken as nat));
                        }
                    }
                }
                lemma_taken_fit(*old(self), taken as nat + 1);
            }
            taken = taken + 1;
        }
    }

    /// Removes a room only if no one is in it (accepted or pending).
    /// Returns whether a room was removed.
    pub fn remove_if_empty(&mut self, code: &RoomCode) -> (r: bool)
        requires
            old(self).wf(),
        ensures
            final(self).wf(),
            final(self).app_key == old(self).app_key,
            final(self).fallback_serial == old(self).fallback_serial,
            r <==> exists|i: int| 0 <= i < old(self).rooms@.len()
                && (#[trigger] old(self).rooms@[i]).code.key() == code.key()
                && old(self).rooms@[i].player_total() == 0,
            r ==> exists|i: int| 0 <= i < old(self).rooms@.len()
                && (#[trigger] old(self).rooms@[i]).code.key() == code.key()
                && final(self).rooms@ == old(self).rooms@.remove(i),
            !r ==> final(self).rooms == old(self).rooms,
    {
        match self.room_index(code) {
            Some(i) => {
                if self.rooms[i].clients.is_empty() && self.rooms[i].pending.is_empty() {
                    let _ = self.rooms.remove(i);
                    proof {
                        assert forall|a: int, b: int| 0 <= a < b < self.rooms@.len() implies
                            (#[trigger] self.rooms@[a]).code.key() != (#[trigger] self.rooms@[b]).code.key() by {
                            let a0 = if a < i { a } else { a + 1 };
                            let b0 = if b < i { b } else { b + 1 };
                            assert(self.rooms@[a] == old(self).rooms@[a0]);
                            assert(self.rooms@[b] == old(self).rooms@[b0]);
                        }
                    }
                    true
                } else {
                    proof {
                        assert forall|j: int| 0 <= j < old(self).rooms@.len()
                            && (#[trigger] old(self).rooms@[j]).code.key() == code.key()
                            implies old(self).rooms@[j].player_total() != 0 by {
                            if j != i {
                                if j < i {
                                    assert(old(self).rooms@[j].code.key() != old(self).rooms@[i as int].code.key());
                                } else {
                                    assert(old(self).rooms@[i as int].code.key() != old(self).rooms@[j].code.key());
                                }
                            }
                        }
                    }
                    false
                }
            },
            None => false,
        }
    }

    /// Number of rooms, and number of players (accepted and pending) over
    /// all rooms (at most `usize::MAX`).
    pub fn room_and_player_counts(&self) -> (r: (usize, usize))
        requires
            self.wf(),
        ensures
            r.0 == self.rooms@.len(),
            r.1 == if Self::players_in(self.rooms@) > usize::MAX { usize::MAX as nat } else { Self::players_in(self.rooms@) },
    {
        let mut players: usize = 0;
        let mut i: usize = 0;
        while i < self.rooms.len()
            invariant
                i <= self.rooms@.len(),
                self.wf(),
                players == if Self::players_in(self.rooms@.take(i as int)) > usize::MAX { usize::MAX as nat } else { Self::players_in(self.rooms@.take(i as int)) },
            decreases self.rooms@.len() - i,
        {
            let room = &self.rooms[i];
            proof {
                lemma_player_total_bound(room.clients@, room.pending@);
                assert(self.rooms@.take(i as int + 1).drop_last() == self.rooms@.take(i as int));
            }
            players = players.saturating_add(room.clients.len() + room.pending.len());
            i = i + 1;
        }
        proof {
            assert(self.rooms@.take(self.rooms@.len() as int) == self.rooms@);
        }
        (self.rooms.len(), players)
    }

    /// Lists public, non-full rooms, in pool order: room code, player count
    /// and settings with the password cleared.
    pub fn list_public_rooms(&self) -> (r: Vec<RoomListEntry>)
        requires
            self.wf(),
        ensures
            r@.len() == self.rooms@.filter(|rm: Room| rm.is_listed()).len(),
            forall|k: int| 0 <= k < r@.len() ==> describes(#[trigger] r@[k], self.rooms@.filter(|rm: Room| rm.is_listed())[k]),
    {
        let mut out: Vec<RoomListEntry> = Vec::new();
        let mut i: usize = 0;
        while i < self.rooms.len()
            invariant
                i <= self.rooms@.len(),
                self.wf(),
                out@.len() == self.rooms@.take(i as int).filter(|rm: Room| rm.is_listed()).len(),
                forall|k: int| 0 <= k < out@.len() ==> describes(#[trigger] out@[k], self.rooms@.take(i as int).filter(|rm: Room| rm.is_listed())[k]),
            decreases self.rooms@.len() - i,
        {
            let room = &self.rooms[i];
            proof {
                assert(self.rooms@.take(i as int + 1) == self.rooms@.take(i as int).push(self.rooms@[i as int]));
                self.rooms@.take(i as int).lemma_filter_push(self.rooms@[i as int], |rm: Room| rm.is_listed());
                assert(room.wf());
            }
            if room.settings.is_public && !room.is_full() {
                proof {
                    lemma_player_total_bound(room.clients@, room.pending@);
                }
                let player_count = (room.clients.len() + room.pending.len()) as u32;
                let mut settings = room.settings.clone();
                settings.password = None;
                out.push(RoomListEntry { room_code: room.code.clone(), player_count, settings });
            }
            i = i + 1;
        }
        proof {
            assert(self.rooms@.take(self.rooms@.len() as int) == self.rooms@);
        }
        out
    }
}

/// The public list counts every player of a room: the entry in each place of
/// the list gives the number of accepted plus pending players of the listed
/// room in that place, its code, and its settings with the password cleared;
/// the rooms listed are public and not full.
pub proof fn lemma_listed_player_count(pool: RoomPool, r: Seq<RoomListEntry>)
    requires
        r.len() == pool.rooms@.filter(|rm: Room| rm.is_listed()).len(),
        forall|k: int| 0 <= k < r.len() ==> describes(#[trigger] r[k], pool.rooms@.filter(|rm: Room| rm.is_listed())[k]),
    ensures
        forall|k: int| 0 <= k < r.len() ==> {
            let room = pool.rooms@.filter(|rm: Room| rm.is_listed())[k];
            &&& (#[trigger] r[k]).player_count == room.clients@.len() + room.pending@.len()
            &&& r[k].room_code.text() == room.code.text()
            &&& r[k].settings == RoomSettings { password: None, ..room.settings }
            &&& room.settings.is_public
            &&& (room.settings.max_players == 0 || room.clients@.len() + room.pending@.len() < room.settings.max_players)
        },
{
    assert forall|k: int| 0 <= k < r.len() implies {
        let room = pool.rooms@.filter(|rm: Room| rm.is_listed())[k];
        &&& (#[trigger] r[k]).player_count == room.clients@.len() + room.pending@.len()
        &&& r[k].room_code.text() == room.code.text()
        &&& r[k].settings == RoomSettings { password: None, ..room.settings }
        &&& room.settings.is_public
        &&& (room.settings.max_players == 0 || room.clients@.len() + room.pending@.len() < room.settings.max_players)
    } by {
        pool.rooms@.lemma_filter_pred(|rm: Room| rm.is_listed(), k);
        assert(describes(r[k], pool.rooms@.filter(|rm: Room| rm.is_listed())[k]));
    }
}

/// Generated room codes are easy to read out: six characters, each an
/// upper-case letter or a digit from 2 to 9, never I, O, 0 or 1.
pub proof fn lemma_random_code_readable(s: Seq<char>)
    requires
        is_random_code(s),
    ensures
        s.len() == 6,
        forall|i: int| 0 <= i < s.len() ==> {
            &&& ('A' <= #[trigger] s[i] <= 'Z' || '2' <= s[i] <= '9')
            &&& s[i] != 'I' && s[i] != 'O'
        },
{
    reveal_strlit("ABCDEFGHJKLMNPQRSTUVWXYZ23456789");
    assert forall|i: int| 0 <= i < s.len() implies {
        &&& ('A' <= #[trigger] s[i] <= 'Z' || '2' <= s[i] <= '9')
        &&& s[i] != 'I' && s[i] != 'O'
    } by {
        assert(ROOM_CODE_CHARS@.contains(s[i]));
        let k = choose|k: int| 0 <= k < ROOM_CODE_CHARS@.len() && ROOM_CODE_CHARS@[k] == s[i];
    }
}

/// The player count of a pool counts every accepted and every pending
/// client of each room: none for no rooms, and one more room adds its
/// accepted and pending clients.
pub proof fn lemma_players_counted(rooms: Seq<Room>, room: Room)
    ensures
        RoomPool::players_in(Seq::<Room>::empty()) == 0,
        RoomPool::players_in(rooms.push(room)) == RoomPool::players_in(rooms) + room.clients@.len() + room.pending@.len(),
{
    assert(rooms.push(room).drop_last() =~= rooms);
}

/// A room added to a pool under a code is found under that code (and under
/// any code with the same case folding).
pub proof fn lemma_added_room_found(before: RoomPool, after: RoomPool, code: RoomCode, settings: RoomSettings)
    requires
        after.rooms@.len() == before.rooms@.len() + 1,
        after.rooms@.drop_last() == before.rooms@,
        after.rooms@.last().is_fresh(before.app_key@, code.text(), settings),
    ensures
        after.has_key(code.key()),
        forall|k: Seq<char>| before.has_key(k) ==> #[trigger] after.has_key(k),
{
    let n = after.rooms@.len() - 1;
    assert(after.rooms@[n].code.key() == code.key());
    assert forall|k: Seq<char>| before.has_key(k) implies #[trigger] after.has_key(k) by {
        let i = choose|i: int| 0 <= i < before.rooms@.len() && (#[trigger] before.rooms@[i]).code.key() == k;
        assert(after.rooms@[i] == before.rooms@[i]);
    }
}

} // verus!
