//! Message types for client <-> server, and the wire framing.

use vstd::prelude::*;
use crate::code::RoomCode;
use crate::room::PeerId;
use crate::settings::RoomSettings;
use crate::outside::bytes_content;

verus! {

// ---------- Client -> Server ----------

#[derive(Debug)]
pub enum ClientMessage {
    Hello {
        app_key: String,
        room_code: RoomCode,
        client_hash: String,
        display_name: Option<String>,
        /// Required when the server has an app secret.
        auth_token: Option<String>,
        /// Required when joining a room that has a password set.
        password: Option<String>,
    },
    Move(Vec<u8>),
    /// Input blob (e.g. paddle position); forwarded to the host only, as PeerInput.
    Input(Vec<u8>),
    RoomControl(RoomControl),
    RequestState,
    Ping,
    /// List public, non-full rooms for an app (no session required).
    ListRooms { app_key: String },
}

#[derive(Debug)]
pub enum RoomControl {
    CreateRoom { settings: RoomSettings },
    UpdateSettings(RoomSettings),
    SetPublic(bool),
    AcceptPeer(PeerId),
    DenyPeer(PeerId),
    Kick(PeerId),
    Ban(PeerId),
    TransferHost(PeerId),
    Leave,
}

// ---------- Server -> Client ----------

/// One entry in the public room list (no password; safe to send to browsers).
#[derive(Debug)]
pub struct RoomListEntry {
    pub room_code: RoomCode,
    pub player_count: u32,
    pub settings: RoomSettings,
}

#[derive(Debug)]
pub enum ServerMessage {
    Joined {
        room_code: RoomCode,
        peer_id: PeerId,
        host_peer_id: PeerId,
        /// Assigned paddle/slot; the first available when joining.
        side: u8,
        settings: RoomSettings,
        initial_state: Option<bytes::Bytes>,
    },
    /// Response to ListRooms: public, non-full rooms for the app.
    RoomList { rooms: Vec<RoomListEntry> },
    PeerJoined { peer_id: PeerId, client_hash: String, display_name: Option<String> },
    PeerLeft { peer_id: PeerId },
    /// Input from a peer; sent to the host only so the host can fold it into the state.
    PeerInput { peer_id: PeerId, blob: Vec<u8> },
    StateUpdate(bytes::Bytes),
    MoveAccepted,
    MoveRejected { reason: String },
    RoomEvent(RoomEvent),
    Pong,
    Error { message: String },
}

#[derive(Debug)]
pub enum RoomEvent {
    HostTransferred(PeerId),
    Kicked,
    Banned,
    SettingsChanged(RoomSettings),
}

impl Clone for RoomListEntry {
    fn clone(&self) -> (r: RoomListEntry)
        ensures
            r == *self,
    {
        RoomListEntry {
            room_code: self.room_code.clone(),
            player_count: self.player_count,
            settings: self.settings.clone(),
        }
    }
}

impl Clone for RoomEvent {
    fn clone(&self) -> (r: RoomEvent)
        ensures
            r == *self,
    {
        match self {
            RoomEvent::HostTransferred(p) => RoomEvent::HostTransferred(*p),
            RoomEvent::Kicked => RoomEvent::Kicked,
            RoomEvent::Banned => RoomEvent::Banned,
            RoomEvent::SettingsChanged(s) => RoomEvent::SettingsChanged(s.clone()),
        }
    }
}

/// A copy of a byte vector.
fn copy_bytes(v: &Vec<u8>) -> (r: Vec<u8>)
    ensures
        r@ == v@,
{
    let mut out: Vec<u8> = Vec::new();
    let mut k: usize = 0;
    while k < v.len()
        invariant
            k <= v@.len(),
            out@ == v@.take(k as int),
        decreases v@.len() - k,
    {
        out.push(v[k]);
        proof {
            assert(v@.take(k as int + 1) == v@.take(k as int).push(v@[k as int]));
        }
        k = k + 1;
    }
    proof {
        assert(v@.take(v@.len() as int) == v@);
    }
    out
}

/// A copy of a room list.
fn copy_entries(v: &Vec<RoomListEntry>) -> (r: Vec<RoomListEntry>)
    ensures
        r@ == v@,
{
    let mut out: Vec<RoomListEntry> = Vec::new();
    let mut k: usize = 0;
    while k < v.len()
        invariant
            k <= v@.len(),
            out@ == v@.take(k as int),
        decreases v@.len() - k,
    {
        out.push(v[k].clone());
        proof {
            assert(v@.take(k as int + 1) == v@.take(k as int).push(v@[k as int]));
        }
        k = k + 1;
    }
    proof {
        assert(v@.take(v@.len() as int) == v@);
    }
    out
}

/// Whether `b` is a copy of `a`: the same message, byte buffers compared by
/// the bytes they hold.
pub open spec fn same_message(a: ServerMessage, b: ServerMessage) -> bool {
    match (a, b) {
        (ServerMessage::Joined { room_code: c1, peer_id: p1, host_peer_id: h1, side: s1, settings: t1, initial_state: i1 },
         ServerMessage::Joined { room_code: c2, peer_id: p2, host_peer_id: h2, side: s2, settings: t2, initial_state: i2 }) => {
            &&& c1 == c2 && p1 == p2 && h1 == h2 && s1 == s2 && t1 == t2
            &&& match (i1, i2) {
                (Some(x), Some(y)) => bytes_content(x) == bytes_content(y),
                (None, None) => true,
                _ => false,
            }
        },
        (ServerMessage::StateUpdate(x), ServerMessage::StateUpdate(y)) => bytes_content(x) == bytes_content(y),
        (ServerMessage::RoomList { rooms: x }, ServerMessage::RoomList { rooms: y }) => x@ == y@,
        (ServerMessage::PeerInput { peer_id: p1, blob: x }, ServerMessage::PeerInput { peer_id: p2, blob: y }) =>
            p1 == p2 && x@ == y@,
        (ServerMessage::Joined { .. }, _) => false,
        (ServerMessage::StateUpdate(_), _) => false,
        (ServerMessage::RoomList { .. }, _) => false,
        (ServerMessage::PeerInput { .. }, _) => false,
        _ => a == b,
    }
}

impl Clone for ServerMessage {
    fn clone(&self) -> (r: ServerMessage)
        ensures
            same_message(*self, r),
    {
        match self {
            ServerMessage::Joined { room_code, peer_id, host_peer_id, side, settings, initial_state } => {
                let initial_state = match initial_state {
                    Some(b) => Some(b.clone()),
                    None => None,
                };
                ServerMessage::Joined {
                    room_code: room_code.clone(),
                    peer_id: *peer_id,
                    host_peer_id: *host_peer_id,
                    side: *side,
                    settings: settings.clone(),
                    initial_state,
                }
            },
            ServerMessage::RoomList { rooms } => ServerMessage::RoomList { rooms: copy_entries(rooms) },
            ServerMessage::PeerJoined { peer_id, client_hash, display_name } => {
                let display_name = match display_name {
                    Some(d) => Some(d.clone()),
                    None => None,
                };
                ServerMessage::PeerJoined { peer_id: *peer_id, client_hash: client_hash.clone(), display_name }
            },
            ServerMessage::PeerLeft { peer_id } => ServerMessage::PeerLeft { peer_id: *peer_id },
            ServerMessage::PeerInput { peer_id, blob } => ServerMessage::PeerInput { peer_id: *peer_id, blob: copy_bytes(blob) },
            ServerMessage::StateUpdate(b) => ServerMessage::StateUpdate(b.clone()),
            ServerMessage::MoveAccepted => ServerMessage::MoveAccepted,
            ServerMessage::MoveRejected { reason } => ServerMessage::MoveRejected { reason: reason.clone() },
            ServerMessage::RoomEvent(e) => ServerMessage::RoomEvent(e.clone()),
            ServerMessage::Pong => ServerMessage::Pong,
            ServerMessage::Error { message } => ServerMessage::Error { message: message.clone() },
        }
    }
}

// ---------- Framing ----------

/// Maximum allowed frame body length (64 KiB); enough for game state and input blobs.
pub const MAX_FRAME_LEN: usize = 65536;

/// Per-connection rate limit: most messages admitted in one window of one second.
pub const RATE_LIMIT_MAX: u32 = 200;

/// Most connections open at once; a further one is closed at once.
pub const MAX_CONNECTIONS: usize = 110000;

/// Whether a new connection is kept, given how many were open before it.
pub fn connection_admitted(open_before: usize) -> (r: bool)
    ensures
        r == (open_before < MAX_CONNECTIONS),
{
    open_before < MAX_CONNECTIONS
}

/// Why a frame received as one WebSocket message is refused.
#[derive(Debug, PartialEq, Eq, Structural)]
pub enum FrameError {
    /// Fewer than the 4 bytes of the length prefix.
    TooShort,
    /// The prefix gives a length over the limit, or not the payload's length.
    InvalidLength,
}

impl FrameError {
    /// The text sent back to the client.
    pub fn message(&self) -> (r: String)
        ensures
            *self == FrameError::TooShort ==> r@ == "frame too short"@,
            *self == FrameError::InvalidLength ==> r@ == "invalid frame length"@,
    {
        match self {
            FrameError::TooShort => "frame too short".to_owned(),
            FrameError::InvalidLength => "invalid frame length".to_owned(),
        }
    }
}

/// The number that four bytes give in little-endian order.
pub open spec fn le_u32(b0: u8, b1: u8, b2: u8, b3: u8) -> nat {
    (b0 as nat) + (b1 as nat) * 256 + (b2 as nat) * 65536 + (b3 as nat) * 16777216
}

/// The four little-endian bytes of `n`.
pub open spec fn le_bytes(n: u32) -> Seq<u8> {
    seq![(n % 256) as u8, ((n / 256) % 256) as u8, ((n / 65536) % 256) as u8, (n / 16777216) as u8]
}

/// What a WebSocket message holding one frame (4-byte little-endian length,
/// then the payload) carries: the payload, or why the frame is refused.
pub open spec fn frame_payload(msg: Seq<u8>) -> Result<Seq<u8>, FrameError> {
    if msg.len() < 4 {
        Err(FrameError::TooShort)
    } else {
        let len = le_u32(msg[0], msg[1], msg[2], msg[3]);
        if len > MAX_FRAME_LEN || msg.len() != 4 + len {
            Err(FrameError::InvalidLength)
        } else {
            Ok(msg.skip(4))
        }
    }
}

/// The frame that carries `payload`: its length as 4 little-endian bytes
/// (truncated to 32 bits), then the payload.
pub open spec fn framed(payload: Seq<u8>) -> Seq<u8> {
    le_bytes(payload.len() as u32) + payload
}

/// Checks one frame received as a WebSocket message and returns its payload.
pub fn decode_ws_frame(msg: &[u8]) -> (r: Result<Vec<u8>, FrameError>)
    ensures
        match frame_payload(msg@) {
            Ok(p) => r matches Ok(v) && v@ == p,
            Err(e) => r == Err::<Vec<u8>, FrameError>(e),
        },
{
    if msg.len() < 4 {
        return Err(FrameError::TooShort);
    }
    let len: u32 = msg[0] as u32 + (msg[1] as u32) * 256 + (msg[2] as u32) * 65536 + (msg[3] as u32) * 16777216;
    let len = len as usize;
    if len > MAX_FRAME_LEN || msg.len() != 4 + len {
        return Err(FrameError::InvalidLength);
    }
    let mut payload: Vec<u8> = Vec::new();
    let mut k: usize = 4;
    while k < msg.len()
        invariant
            4 <= k <= msg@.len(),
            payload@ == msg@.subrange(4, k as int),
        decreases msg@.len() - k,
    {
        payload.push(msg[k]);
        proof {
            assert(msg@.subrange(4, k as int + 1) == msg@.subrange(4, k as int).push(msg@[k as int]));
        }
        k = k + 1;
    }
    proof {
        assert(msg@.subrange(4, msg@.len() as int) == msg@.skip(4));
    }
    Ok(payload)
}

/// Builds the frame for a payload: 4-byte little-endian length, then the payload.
pub fn encode_frame(payload: &[u8]) -> (r: Vec<u8>)
    ensures
        r@ == framed(payload@),
{
    let n = payload.len() as u32;
    let mut out: Vec<u8> = Vec::new();
    out.push((n % 256) as u8);
    out.push(((n / 256) % 256) as u8);
    out.push(((n / 65536) % 256) as u8);
    out.push((n / 16777216) as u8);
    let mut k: usize = 0;
    while k < payload.len()
        invariant
            k <= payload@.len(),
            n == payload@.len() as u32,
            out@ == le_bytes(n) + payload@.take(k as int),
        decreases payload@.len() - k,
    {
        out.push(payload[k]);
        proof {
            assert(payload@.take(k as int + 1) == payload@.take(k as int).push(payload@[k as int]));
        }
        k = k + 1;
    }
    proof {
        assert(payload@.take(payload@.len() as int) == payload@);
    }
    out
}

/// A frame is read exactly when it has its 4-byte little-endian length
/// prefix, the prefix gives at most 64 KiB, and exactly that many bytes
/// follow; the payload read is what follows the prefix.
pub proof fn lemma_frame_accepted(msg: Seq<u8>)
    ensures
        frame_payload(msg) is Ok <==> {
            &&& msg.len() >= 4
            &&& msg[0] + msg[1] * 256 + msg[2] * 65536 + msg[3] * 16777216 <= 64 * 1024
            &&& msg.len() == 4 + msg[0] + msg[1] * 256 + msg[2] * 65536 + msg[3] * 16777216
        },
        frame_payload(msg) is Ok ==> frame_payload(msg) == Ok::<Seq<u8>, FrameError>(msg.subrange(4, msg.len() as int)),
{
}

/// A frame built for a payload within the limit is read back as that payload.
pub proof fn lemma_frame_round_trip(payload: Seq<u8>)
    requires
        payload.len() <= MAX_FRAME_LEN,
    ensures
        frame_payload(framed(payload)) == Ok::<Seq<u8>, FrameError>(payload),
{
    let n = payload.len() as u32;
    let f = framed(payload);
    assert(f[0] == (n % 256) as u8);
    assert(f[1] == ((n / 256) % 256) as u8);
    assert(f[2] == ((n / 65536) % 256) as u8);
    assert(f[3] == (n / 16777216) as u8);
    assert((n % 256) as u8 as nat + ((n / 256) % 256) as u8 as nat * 256 + ((n / 65536) % 256) as u8 as nat * 65536
        + (n / 16777216) as u8 as nat * 16777216 == n as nat) by (bit_vector);
    assert(f.skip(4) =~= payload);
}

/// A window admits 200 messages: a message is admitted exactly when it
/// opens a new window or fewer than 200 came before it in the current one.
pub proof fn lemma_rate_limit_window(count: u32, window_over: bool, r: (u32, bool, bool))
    requires
        count <= RATE_LIMIT_MAX,
        r.0 == (if window_over { 0 } else { count }) + 1,
        r.1 == window_over,
        r.2 == (r.0 <= RATE_LIMIT_MAX),
    ensures
        r.2 <==> (window_over || count < 200),
{
}

/// The rate limiter's step for one received message. `count` is how many
/// messages the current window has seen; `window_over` is whether the
/// window (one second) has ended. Returns the new count, whether a new
/// window starts now, and whether the message is admitted (over the limit,
/// the connection is closed).
pub fn rate_limit_step(count: u32, window_over: bool) -> (r: (u32, bool, bool))
    requires
        count <= RATE_LIMIT_MAX,
    ensures
        r.0 == (if window_over { 0 } else { count }) + 1,
        r.1 == window_over,
        r.2 == (r.0 <= RATE_LIMIT_MAX),
{
    let base: u32 = if window_over { 0 } else { count };
    let next = base + 1;
    (next, window_over, next <= RATE_LIMIT_MAX)
}

} // verus!
