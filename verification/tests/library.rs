use roomie::code::{normalize_room_code, RoomCode};
use roomie::config::{
    app_fallback, default_room_settings_for_app, is_builtin_app, is_registered_app, settings_from_defaults,
    AppCatalog, AppRoomDefaults,
};
use roomie::dispatch::{config_file_wanted, dispatch, Session};
use roomie::identity::ClientHash;
use roomie::pool::{push_decimal, RoomPool};
use roomie::protocol::{
    connection_admitted, decode_ws_frame, encode_frame, rate_limit_step, ClientMessage, FrameError, RoomControl, RoomEvent,
    ServerMessage, MAX_FRAME_LEN,
};
use roomie::registry::{collect_stats, AppRegistry};
use roomie::room::{ClientInfo, Room};
use roomie::settings::RoomSettings;
use roomie::validation::validate_hello;
use tokio::sync::mpsc;

fn hello(app: &str, code: &str, hash: &str) -> ClientMessage {
    ClientMessage::Hello {
        app_key: app.to_string(),
        room_code: RoomCode::new(code.to_string()),
        client_hash: hash.to_string(),
        display_name: Some(format!("{}-name", hash)),
        auth_token: None,
        password: None,
    }
}

fn error_text(out: &[ServerMessage]) -> String {
    assert_eq!(out.len(), 1);
    match &out[0] {
        ServerMessage::Error { message } => message.clone(),
        other => panic!("expected an error, got {:?}", other),
    }
}

struct Client {
    tx: mpsc::Sender<ServerMessage>,
    rx: mpsc::Receiver<ServerMessage>,
    session: Option<Session>,
}

fn client() -> Client {
    let (tx, rx) = mpsc::channel(64);
    Client { tx, rx, session: None }
}

fn send(reg: &mut AppRegistry, cat: &mut AppCatalog, c: &mut Client, msg: ClientMessage) -> Vec<ServerMessage> {
    dispatch(reg, cat, None, None, &mut c.session, &c.tx, msg)
}

fn joined_code(out: &[ServerMessage]) -> (String, u32, u32, u8) {
    assert_eq!(out.len(), 1);
    match &out[0] {
        ServerMessage::Joined { room_code, peer_id, host_peer_id, side, .. } => {
            (room_code.as_str().to_string(), *peer_id, *host_peer_id, *side)
        },
        other => panic!("expected Joined, got {:?}", other),
    }
}

fn info(hash: &str, side: u8) -> (ClientInfo, mpsc::Receiver<ServerMessage>) {
    let (tx, rx) = mpsc::channel(8);
    (ClientInfo { client_hash: ClientHash(hash.to_string()), display_name: None, tx, side }, rx)
}

// ---------- validation ----------

#[test]
fn validate_hello_accepts_a_good_hello() {
    assert_eq!(validate_hello("pong", 6, "hash", Some("me"), None, None), Ok(()));
}

#[test]
fn validate_hello_reports_each_problem() {
    let long = "x".repeat(300);
    assert_eq!(validate_hello("", 0, "h", None, None, None), Err("app_key is required".to_string()));
    assert_eq!(validate_hello(&long, 0, "h", None, None, None), Err("app_key too long".to_string()));
    assert_eq!(validate_hello("a", 33, "h", None, None, None), Err("room_code too long".to_string()));
    assert_eq!(validate_hello("a", 32, "", None, None, None), Err("client_hash is required".to_string()));
    assert_eq!(validate_hello("a", 0, &long, None, None, None), Err("client_hash too long".to_string()));
    assert_eq!(validate_hello("a", 0, "h", Some(&"d".repeat(65)), None, None), Err("display_name too long".to_string()));
    assert_eq!(validate_hello("a", 0, "h", None, Some(&"t".repeat(257)), None), Err("auth_token too long".to_string()));
    assert_eq!(validate_hello("a", 0, "h", None, None, Some(&"p".repeat(129))), Err("password too long".to_string()));
}

#[test]
fn validate_hello_counts_bytes_not_characters() {
    // 64 two-byte characters are 128 bytes: too long for a display name.
    let name = "é".repeat(64);
    assert_eq!(validate_hello("a", 0, "h", Some(&name), None, None), Err("display_name too long".to_string()));
    assert_eq!(validate_hello("a", 0, "h", Some(&"é".repeat(32)), None, None), Ok(()));
}

// ---------- framing and rate limit ----------

#[test]
fn frame_round_trip() {
    let payload = vec![1u8, 2, 3, 250];
    let frame = encode_frame(&payload);
    assert_eq!(frame, vec![4, 0, 0, 0, 1, 2, 3, 250]);
    assert_eq!(decode_ws_frame(&frame), Ok(payload));
}

#[test]
fn frame_length_is_little_endian() {
    let payload = vec![7u8; 300];
    let frame = encode_frame(&payload);
    assert_eq!(&frame[0..4], &[44, 1, 0, 0]);
    assert_eq!(decode_ws_frame(&frame), Ok(payload));
}

#[test]
fn frame_errors() {
    assert_eq!(decode_ws_frame(&[1, 0, 0]), Err(FrameError::TooShort));
    assert_eq!(decode_ws_frame(&[2, 0, 0, 0, 9]), Err(FrameError::InvalidLength));
    let mut big = vec![0u8; 4];
    let n = (MAX_FRAME_LEN + 1) as u32;
    big[0..4].copy_from_slice(&n.to_le_bytes());
    big.extend(std::iter::repeat(0u8).take(MAX_FRAME_LEN + 1));
    assert_eq!(decode_ws_frame(&big), Err(FrameError::InvalidLength));
    assert_eq!(FrameError::TooShort.message(), "frame too short");
    assert_eq!(FrameError::InvalidLength.message(), "invalid frame length");
    assert_eq!(decode_ws_frame(&[0, 0, 0, 0]), Ok(vec![]));
}

#[test]
fn rate_limit_admits_two_hundred_per_window() {
    let mut count = 0u32;
    for i in 0..200 {
        let (next, restart, allowed) = rate_limit_step(count, false);
        assert!(allowed, "message {} should pass", i);
        assert!(!restart);
        count = next;
    }
    let (next, _, allowed) = rate_limit_step(count, false);
    assert_eq!(next, 201);
    assert!(!allowed);
    let (next, restart, allowed) = rate_limit_step(200, true);
    assert_eq!(next, 1);
    assert!(restart);
    assert!(allowed);
}

// ---------- room codes ----------

#[test]
fn room_codes_ignore_case() {
    let a = RoomCode::new("AbC2".to_string());
    let b = RoomCode::new("abc2".to_string());
    let c = RoomCode::new("abd2".to_string());
    assert!(a.same_room(&b));
    assert_eq!(a, b);
    assert!(!a.same_room(&c));
    assert_eq!(a.as_str(), "AbC2");
    // Unicode folding: the Kelvin sign folds to k.
    assert!(RoomCode::new("\u{212A}EY".to_string()).same_room(&RoomCode::new("key".to_string())));
}

#[test]
fn normalize_keeps_ascii_letters_and_digits() {
    assert_eq!(normalize_room_code("  ab-C 9!é ").as_str(), "abC9");
    assert_eq!(normalize_room_code("").as_str(), "");
}

// ---------- app config ----------

#[test]
fn builtin_app_and_fallbacks() {
    assert!(is_builtin_app("pong"));
    assert!(!is_builtin_app("Pong"));
    let s = app_fallback("pong");
    assert_eq!((s.min_players, s.max_players), (2, 2));
    let s = app_fallback("chess");
    assert_eq!((s.min_players, s.max_players), (0, 0));
    assert!(s.password.is_none() && !s.is_public && !s.accept_required);
    let s = settings_from_defaults(&AppRoomDefaults { min_players: 3, max_players: 0 });
    assert_eq!((s.min_players, s.max_players), (3, 0));
}

#[test]
fn registration_is_remembered() {
    let mut cat = AppCatalog::new();
    assert!(!is_registered_app(&mut cat, "chess", None));
    assert!(cat.needs_config_file("chess"));
    let d = AppRoomDefaults { min_players: 2, max_players: 8 };
    assert!(is_registered_app(&mut cat, "chess", Some(d)));
    assert!(!cat.needs_config_file("chess"));
    // Known now: the file is no longer consulted.
    assert!(is_registered_app(&mut cat, "chess", None));
    let s = default_room_settings_for_app(&mut cat, "chess", None);
    assert_eq!((s.min_players, s.max_players), (2, 8));
    assert!(!cat.needs_config_file("pong"));
    assert!(is_registered_app(&mut cat, "pong", None));
    assert!(!cat.needs_config_file("chess") && !cat.needs_config_file("pong"));
    assert!(cat.needs_config_file("go"));
}

#[test]
fn unknown_app_gets_fallback_without_being_kept() {
    let mut cat = AppCatalog::new();
    let s = default_room_settings_for_app(&mut cat, "nothing", None);
    assert_eq!((s.min_players, s.max_players), (0, 0));
    assert!(cat.needs_config_file("nothing"));
}

// ---------- rooms ----------

#[test]
fn peer_ids_skip_ids_in_use() {
    let mut room = Room::new("pong".to_string(), RoomCode::new("A".to_string()), RoomSettings::default());
    assert_eq!(room.next_peer_id(), Some(1));
    assert_eq!(room.next_peer_id(), Some(2));
    let (i3, _r3) = info("h3", 0);
    room.clients.insert(3, i3);
    let (i4, _r4) = info("h4", 1);
    room.pending.insert(4, i4);
    assert_eq!(room.next_peer_id(), Some(5));
    room.next_peer_id = u32::MAX;
    assert_eq!(room.next_peer_id(), Some(u32::MAX));
    // Not taken yet: handed out again.
    assert_eq!(room.next_peer_id(), Some(u32::MAX));
    let (imax, _rmax) = info("hmax", 2);
    room.clients.insert(u32::MAX, imax);
    // Saturated and taken: wraps to the lowest free id.
    assert_eq!(room.next_peer_id(), Some(1));
}

#[test]
fn sides_are_first_free() {
    let mut settings = RoomSettings::default();
    settings.max_players = 2;
    let mut room = Room::new("pong".to_string(), RoomCode::new("A".to_string()), settings);
    assert_eq!(room.next_available_side(), 0);
    let (a, _ra) = info("a", 0);
    room.clients.insert(1, a);
    assert_eq!(room.next_available_side(), 1);
    let (b, _rb) = info("b", 1);
    room.pending.insert(2, b);
    assert_eq!(room.next_available_side(), 2);
    let (c, _rc) = info("c", 2);
    room.clients.insert(3, c);
    // Sides 0..=2 are held: 0.
    assert_eq!(room.next_available_side(), 0);
}

#[test]
fn full_and_banned() {
    let mut settings = RoomSettings::default();
    settings.max_players = 2;
    let mut room = Room::new("pong".to_string(), RoomCode::new("A".to_string()), settings);
    assert!(!room.is_full());
    let (a, _ra) = info("a", 0);
    room.clients.insert(1, a);
    let (b, _rb) = info("b", 1);
    room.pending.insert(2, b);
    assert!(room.is_full());
    room.settings.max_players = 0;
    assert!(!room.is_full());
    assert!(!room.is_banned(&ClientHash("x".to_string())));
    room.banned.push(ClientHash("x".to_string()));
    assert!(room.is_banned(&ClientHash("x".to_string())));
}

#[test]
fn broadcast_removes_closed_channels_and_fixes_host() {
    let mut room = Room::new("pong".to_string(), RoomCode::new("A".to_string()), RoomSettings::default());
    let (a, ra) = info("a", 0);
    let (b, mut rb) = info("b", 1);
    room.clients.insert(1, a);
    room.clients.insert(2, b);
    room.host_peer_id = 1;
    drop(ra);
    let (dead, new_host) = room.broadcast_retain_connected(&ServerMessage::Pong);
    assert_eq!(dead, vec![1]);
    assert_eq!(new_host, Some(2));
    assert_eq!(room.host_peer_id, 2);
    assert!(matches!(rb.try_recv(), Ok(ServerMessage::Pong)));
    assert!(room.send_to_retain_connected(2, &ServerMessage::Pong));
    assert!(room.send_to_retain_connected(99, &ServerMessage::Pong));
    drop(rb);
    assert!(!room.send_to_retain_connected(2, &ServerMessage::Pong));
    assert!(room.clients.is_empty());
    assert_eq!(room.host_peer_id, 0);
}

#[test]
fn dropping_peers_moves_the_host_to_a_remaining_client() {
    let mut room = Room::new("pong".to_string(), RoomCode::new("A".to_string()), RoomSettings::default());
    let (a, _ra) = info("a", 0);
    let (b, _rb) = info("b", 1);
    let (c, _rc) = info("c", 2);
    let (d, _rd) = info("d", 3);
    room.clients.insert(1, a);
    room.clients.insert(2, b);
    room.clients.insert(3, c);
    room.pending.insert(4, d);
    room.host_peer_id = 1;
    // Only accepted clients are dropped here; the pending one stays.
    let new_host = room.drop_peers(&vec![1, 2, 4], false);
    assert_eq!(new_host, Some(3));
    assert_eq!(room.host_peer_id, 3);
    assert_eq!(room.clients.len(), 1);
    assert!(room.pending.contains_key(&4));
    // Dropping the last accepted client leaves host 0.
    let new_host = room.drop_peers(&vec![3, 4], true);
    assert_eq!(new_host, None);
    assert_eq!(room.host_peer_id, 0);
    assert!(room.clients.is_empty() && room.pending.is_empty());
    // Dropping someone other than the host keeps the host.
    let (e, _re) = info("e", 0);
    let (f, _rf) = info("f", 1);
    room.clients.insert(5, e);
    room.clients.insert(6, f);
    room.host_peer_id = 5;
    assert_eq!(room.drop_peers(&vec![6], true), None);
    assert_eq!(room.host_peer_id, 5);
}

#[test]
fn state_broadcast_reaches_pending_too() {
    let mut room = Room::new("pong".to_string(), RoomCode::new("A".to_string()), RoomSettings::default());
    let (a, mut ra) = info("a", 0);
    let (b, rb) = info("b", 1);
    room.clients.insert(1, a);
    room.pending.insert(2, b);
    room.host_peer_id = 1;
    room.state = bytes::Bytes::from(vec![9u8, 9]);
    drop(rb);
    let (dead, new_host) = room.broadcast_state_update_retain_connected();
    assert_eq!(dead, vec![2]);
    assert_eq!(new_host, None);
    assert!(room.pending.is_empty());
    match ra.try_recv() {
        Ok(ServerMessage::StateUpdate(b)) => assert_eq!(&b[..], &[9, 9]),
        other => panic!("expected a state update, got {:?}", other),
    }
}

// ---------- pools ----------

#[test]
fn pool_creates_finds_and_removes_rooms() {
    let mut pool = RoomPool::new("pong".to_string());
    let c = pool.create_room(RoomSettings::default(), "Lobby").unwrap();
    assert_eq!(c.as_str(), "Lobby");
    assert!(pool.create_room(RoomSettings::default(), "LOBBY").is_none());
    assert!(pool.get_room(&RoomCode::new("lobby".to_string())).is_some());
    let r = pool.create_room(RoomSettings::default(), "").unwrap();
    assert_eq!(r.as_str().len(), 6);
    assert!(r.as_str().chars().all(|ch| "ABCDEFGHJKLMNPQRSTUVWXYZ23456789".contains(ch)));
    assert_eq!(pool.room_and_player_counts(), (2, 0));
    assert!(pool.remove_if_empty(&RoomCode::new("LOBBY".to_string())));
    assert!(pool.get_room(&c).is_none());
    assert!(!pool.remove_if_empty(&c));
    assert_eq!(pool.room_and_player_counts(), (1, 0));
}

#[test]
fn pool_keeps_rooms_with_players() {
    let mut pool = RoomPool::new("pong".to_string());
    let c = pool.create_room(RoomSettings::default(), "busy").unwrap();
    let (a, _ra) = info("a", 0);
    pool.rooms[0].pending.insert(1, a);
    assert!(!pool.remove_if_empty(&c));
    assert_eq!(pool.room_and_player_counts(), (1, 1));
}

#[test]
fn fallback_codes_are_numbered() {
    let mut pool = RoomPool::new("pong".to_string());
    pool.fallback_serial = 7;
    // A random code is almost surely free here, so the counter stays; if not,
    // the free fallback code "R7" is used and the counter moves past it.
    let c = pool.create_room(RoomSettings::default(), "").unwrap();
    assert!(pool.fallback_serial == 7 || (pool.fallback_serial == 8 && c.as_str() == "R7"));
    let mut s = "R".to_string();
    push_decimal(&mut s, 0);
    assert_eq!(s, "R0");
    let mut s = "R".to_string();
    push_decimal(&mut s, 1207);
    assert_eq!(s, "R1207");
    let mut s = String::new();
    push_decimal(&mut s, u64::MAX);
    assert_eq!(s, "18446744073709551615");
}

#[test]
fn public_list_hides_passwords_and_full_rooms() {
    let mut pool = RoomPool::new("pong".to_string());
    let mut open = RoomSettings::default();
    open.is_public = true;
    open.password = Some("pw".to_string());
    open.max_players = 2;
    pool.create_room(open.clone(), "open").unwrap();
    pool.create_room(RoomSettings::default(), "private").unwrap();
    pool.create_room(open, "full").unwrap();
    let (a, _ra) = info("a", 0);
    let (b, _rb) = info("b", 1);
    pool.rooms[2].clients.insert(1, a);
    pool.rooms[2].clients.insert(2, b);
    let (c, _rc) = info("c", 0);
    pool.rooms[0].clients.insert(1, c);
    let list = pool.list_public_rooms();
    assert_eq!(list.len(), 1);
    assert_eq!(list[0].room_code.as_str(), "open");
    assert_eq!(list[0].player_count, 1);
    assert!(list[0].settings.password.is_none());
    assert!(list[0].settings.is_public);
}

// ---------- dispatch ----------

#[test]
fn ping_gets_pong() {
    let mut reg = AppRegistry::new();
    let mut cat = AppCatalog::new();
    let mut c = client();
    let out = send(&mut reg, &mut cat, &mut c, ClientMessage::Ping);
    assert!(matches!(out.as_slice(), [ServerMessage::Pong]));
}

#[test]
fn hello_without_code_creates_a_room_and_makes_host() {
    let mut reg = AppRegistry::new();
    let mut cat = AppCatalog::new();
    let mut host = client();
    let out = send(&mut reg, &mut cat, &mut host, hello("pong", "", "h1"));
    let (code, peer, host_id, side) = joined_code(&out);
    assert_eq!((peer, host_id, side), (1, 1, 0));
    assert_eq!(code.len(), 6);
    assert_eq!(host.session.as_ref().unwrap().peer_id, 1);
    assert_eq!(reg.pools.len(), 1);
    assert_eq!(reg.pools[0].rooms.len(), 1);

    let mut guest = client();
    let out = send(&mut reg, &mut cat, &mut guest, hello("pong", &code.to_lowercase(), "h2"));
    let (code2, peer, host_id, side) = joined_code(&out);
    assert_eq!(code2, code.to_lowercase());
    assert_eq!((peer, host_id, side), (2, 1, 1));
    // The host hears about the newcomer.
    match host.rx.try_recv() {
        Ok(ServerMessage::PeerJoined { peer_id, client_hash, display_name }) => {
            assert_eq!(peer_id, 2);
            assert_eq!(client_hash, "h2");
            assert_eq!(display_name.as_deref(), Some("h2-name"));
        },
        other => panic!("expected PeerJoined, got {:?}", other),
    }
    // Pong allows two players: a third is refused.
    let mut third = client();
    let out = send(&mut reg, &mut cat, &mut third, hello("pong", &code, "h3"));
    assert_eq!(error_text(&out), "room full");
    assert!(third.session.is_none());
}

#[test]
fn hello_errors() {
    let mut reg = AppRegistry::new();
    let mut cat = AppCatalog::new();
    let mut c = client();
    assert_eq!(error_text(&send(&mut reg, &mut cat, &mut c, hello("", "", "h"))), "app_key is required");
    assert_eq!(error_text(&send(&mut reg, &mut cat, &mut c, hello("chess", "", "h"))), "unregistered game type");
    assert_eq!(error_text(&send(&mut reg, &mut cat, &mut c, hello("pong", "NOPE", "h"))), "room not found");
    let out = dispatch(&mut reg, &mut cat, Some("s3cret"), None, &mut c.session, &c.tx, hello("pong", "", "h"));
    assert_eq!(error_text(&out), "authentication required");
    let mut msg = hello("pong", "", "h");
    if let ClientMessage::Hello { auth_token, .. } = &mut msg {
        *auth_token = Some("s3cret".to_string());
    }
    let out = dispatch(&mut reg, &mut cat, Some("s3cret"), None, &mut c.session, &c.tx, msg);
    joined_code(&out);
    // An empty secret asks for nothing.
    let mut other = client();
    let out = dispatch(&mut reg, &mut cat, Some(""), None, &mut other.session, &other.tx, hello("pong", "", "h9"));
    joined_code(&out);
}

#[test]
fn config_file_is_asked_for_only_when_needed() {
    let cat = AppCatalog::new();
    assert_eq!(config_file_wanted(&cat, None, &hello("chess", "", "h")), Some("chess".to_string()));
    assert_eq!(config_file_wanted(&cat, None, &hello("pong", "", "h")), None);
    assert_eq!(config_file_wanted(&cat, None, &hello("", "", "h")), None);
    assert_eq!(config_file_wanted(&cat, Some("k"), &hello("chess", "", "h")), None);
    assert_eq!(config_file_wanted(&cat, None, &ClientMessage::ListRooms { app_key: "chess".to_string() }), Some("chess".to_string()));
    assert_eq!(config_file_wanted(&cat, None, &ClientMessage::Ping), None);
}

#[test]
fn app_with_config_file_can_host() {
    let mut reg = AppRegistry::new();
    let mut cat = AppCatalog::new();
    let mut c = client();
    let d = AppRoomDefaults { min_players: 1, max_players: 4 };
    let out = dispatch(&mut reg, &mut cat, None, Some(d), &mut c.session, &c.tx, hello("chess", "", "h"));
    joined_code(&out);
    assert_eq!(reg.pools[0].rooms[0].settings.max_players, 4);
}

#[test]
fn password_is_checked() {
    let mut reg = AppRegistry::new();
    let mut cat = AppCatalog::new();
    let mut host = client();
    let out = send(&mut reg, &mut cat, &mut host, hello("pong", "", "h1"));
    let (code, ..) = joined_code(&out);
    reg.pools[0].rooms[0].settings.password = Some("pw".to_string());
    let mut g = client();
    assert_eq!(error_text(&send(&mut reg, &mut cat, &mut g, hello("pong", &code, "h2"))), "invalid or missing room password");
    let mut msg = hello("pong", &code, "h2");
    if let ClientMessage::Hello { password, .. } = &mut msg {
        *password = Some("pw".to_string());
    }
    let out = send(&mut reg, &mut cat, &mut g, msg);
    match &out[0] {
        ServerMessage::Joined { settings, .. } => assert!(settings.password.is_none()),
        other => panic!("expected Joined, got {:?}", other),
    }
}

#[test]
fn moves_need_the_host_and_enough_players() {
    let mut reg = AppRegistry::new();
    let mut cat = AppCatalog::new();
    let mut host = client();
    let mut guest = client();
    assert_eq!(error_text(&send(&mut reg, &mut cat, &mut host, ClientMessage::Move(vec![1]))), "not in a room");
    let (code, ..) = joined_code(&send(&mut reg, &mut cat, &mut host, hello("pong", "", "h1")));
    let out = send(&mut reg, &mut cat, &mut host, ClientMessage::Move(vec![1]));
    match &out[0] {
        ServerMessage::MoveRejected { reason } => assert_eq!(reason, "minimum 2 players required to start"),
        other => panic!("expected MoveRejected, got {:?}", other),
    }
    joined_code(&send(&mut reg, &mut cat, &mut guest, hello("pong", &code, "h2")));
    let _ = host.rx.try_recv();
    let out = send(&mut reg, &mut cat, &mut guest, ClientMessage::Move(vec![1]));
    match &out[0] {
        ServerMessage::MoveRejected { reason } => assert_eq!(reason, "only host can send moves"),
        other => panic!("expected MoveRejected, got {:?}", other),
    }
    let out = send(&mut reg, &mut cat, &mut host, ClientMessage::Move(vec![5, 6]));
    assert!(matches!(out.as_slice(), [ServerMessage::MoveAccepted]));
    match guest.rx.try_recv() {
        Ok(ServerMessage::StateUpdate(b)) => assert_eq!(&b[..], &[5, 6]),
        other => panic!("expected StateUpdate, got {:?}", other),
    }
    let out = send(&mut reg, &mut cat, &mut guest, ClientMessage::RequestState);
    match &out[0] {
        ServerMessage::StateUpdate(b) => assert_eq!(&b[..], &[5, 6]),
        other => panic!("expected StateUpdate, got {:?}", other),
    }
    // Input goes to the host only.
    let out = send(&mut reg, &mut cat, &mut guest, ClientMessage::Input(vec![3]));
    assert!(out.is_empty());
    let mut got_input = false;
    while let Ok(m) = host.rx.try_recv() {
        if let ServerMessage::PeerInput { peer_id, blob } = m {
            assert_eq!((peer_id, blob), (2, vec![3]));
            got_input = true;
        }
    }
    assert!(got_input);
}

#[test]
fn request_state_is_silent_without_state() {
    let mut reg = AppRegistry::new();
    let mut cat = AppCatalog::new();
    let mut c = client();
    assert!(send(&mut reg, &mut cat, &mut c, ClientMessage::RequestState).is_empty());
    joined_code(&send(&mut reg, &mut cat, &mut c, hello("pong", "", "h1")));
    assert!(send(&mut reg, &mut cat, &mut c, ClientMessage::RequestState).is_empty());
}

#[test]
fn late_joiner_gets_the_state() {
    let mut reg = AppRegistry::new();
    let mut cat = AppCatalog::new();
    let mut host = client();
    let (code, ..) = joined_code(&send(&mut reg, &mut cat, &mut host, hello("pong", "", "h1")));
    reg.pools[0].rooms[0].settings.min_players = 0;
    reg.pools[0].rooms[0].settings.max_players = 0;
    assert!(matches!(send(&mut reg, &mut cat, &mut host, ClientMessage::Move(vec![4])).as_slice(), [ServerMessage::MoveAccepted]));
    let mut g = client();
    let out = send(&mut reg, &mut cat, &mut g, hello("pong", &code, "h2"));
    match &out[0] {
        ServerMessage::Joined { initial_state: Some(b), .. } => assert_eq!(&b[..], &[4]),
        other => panic!("expected Joined with state, got {:?}", other),
    }
}

#[test]
fn room_control_by_host_and_others() {
    let mut reg = AppRegistry::new();
    let mut cat = AppCatalog::new();
    let mut host = client();
    let mut guest = client();
    assert_eq!(error_text(&send(&mut reg, &mut cat, &mut host, ClientMessage::RoomControl(RoomControl::Leave))), "not in a room");
    let (code, ..) = joined_code(&send(&mut reg, &mut cat, &mut host, hello("pong", "", "h1")));
    joined_code(&send(&mut reg, &mut cat, &mut guest, hello("pong", &code, "h2")));
    let out = send(&mut reg, &mut cat, &mut guest, ClientMessage::RoomControl(RoomControl::SetPublic(true)));
    assert_eq!(error_text(&out), "forbidden or invalid");
    let out = send(&mut reg, &mut cat, &mut host, ClientMessage::RoomControl(RoomControl::CreateRoom { settings: RoomSettings::default() }));
    assert_eq!(error_text(&out), "already in a room");
    assert!(send(&mut reg, &mut cat, &mut host, ClientMessage::RoomControl(RoomControl::SetPublic(true))).is_empty());
    assert!(reg.pools[0].rooms[0].settings.is_public);
    assert!(send(&mut reg, &mut cat, &mut host, ClientMessage::RoomControl(RoomControl::TransferHost(2))).is_empty());
    assert_eq!(reg.pools[0].rooms[0].host_peer_id, 2);
    let mut saw = false;
    while let Ok(m) = host.rx.try_recv() {
        if let ServerMessage::RoomEvent(RoomEvent::HostTransferred(2)) = m {
            saw = true;
        }
    }
    assert!(saw);
    // The old host is no longer allowed.
    assert_eq!(error_text(&send(&mut reg, &mut cat, &mut host, ClientMessage::RoomControl(RoomControl::Kick(2)))), "forbidden or invalid");
    // The new host bans the old one.
    assert!(send(&mut reg, &mut cat, &mut guest, ClientMessage::RoomControl(RoomControl::Ban(1))).is_empty());
    assert!(reg.pools[0].rooms[0].banned.iter().any(|h| h.as_str() == "h1"));
    let mut banned_event = false;
    while let Ok(m) = host.rx.try_recv() {
        if let ServerMessage::RoomEvent(RoomEvent::Banned) = m {
            banned_event = true;
        }
    }
    assert!(banned_event);
    let mut again = client();
    assert_eq!(error_text(&send(&mut reg, &mut cat, &mut again, hello("pong", &code, "h1"))), "banned from this room");
}

#[test]
fn accept_required_rooms_hold_newcomers() {
    let mut reg = AppRegistry::new();
    let mut cat = AppCatalog::new();
    let mut host = client();
    let (code, ..) = joined_code(&send(&mut reg, &mut cat, &mut host, hello("pong", "", "h1")));
    let mut s = RoomSettings::default();
    s.accept_required = true;
    s.password = Some("x".to_string());
    assert!(send(&mut reg, &mut cat, &mut host, ClientMessage::RoomControl(RoomControl::UpdateSettings(s))).is_empty());
    let mut changed = false;
    while let Ok(m) = host.rx.try_recv() {
        if let ServerMessage::RoomEvent(RoomEvent::SettingsChanged(st)) = m {
            assert!(st.password.is_none());
            changed = true;
        }
    }
    assert!(changed);
    reg.pools[0].rooms[0].settings.password = None;
    let mut g = client();
    let (_, peer, host_id, _) = joined_code(&send(&mut reg, &mut cat, &mut g, hello("pong", &code, "h2")));
    assert_eq!((peer, host_id), (2, 1));
    assert!(reg.pools[0].rooms[0].pending.contains_key(&2));
    assert!(host.rx.try_recv().is_err());
    assert!(send(&mut reg, &mut cat, &mut host, ClientMessage::RoomControl(RoomControl::AcceptPeer(2))).is_empty());
    assert!(reg.pools[0].rooms[0].clients.contains_key(&2));
    assert!(!reg.pools[0].rooms[0].pending.contains_key(&2));
    let mut h = client();
    joined_code(&send(&mut reg, &mut cat, &mut h, hello("pong", &code, "h3")));
    assert!(send(&mut reg, &mut cat, &mut host, ClientMessage::RoomControl(RoomControl::DenyPeer(3))).is_empty());
    assert!(!reg.pools[0].rooms[0].pending.contains_key(&3));
    assert!(matches!(h.rx.try_recv(), Ok(ServerMessage::RoomEvent(RoomEvent::Kicked))));
}

#[test]
fn leaving_passes_host_and_drops_empty_rooms() {
    let mut reg = AppRegistry::new();
    let mut cat = AppCatalog::new();
    let mut host = client();
    let mut guest = client();
    let (code, ..) = joined_code(&send(&mut reg, &mut cat, &mut host, hello("pong", "", "h1")));
    joined_code(&send(&mut reg, &mut cat, &mut guest, hello("pong", &code, "h2")));
    assert!(send(&mut reg, &mut cat, &mut host, ClientMessage::RoomControl(RoomControl::Leave)).is_empty());
    assert!(host.session.is_none());
    assert_eq!(reg.pools[0].rooms[0].host_peer_id, 2);
    let mut left = false;
    while let Ok(m) = guest.rx.try_recv() {
        if let ServerMessage::PeerLeft { peer_id: 1 } = m {
            left = true;
        }
    }
    assert!(left);
    // A second hello leaves the current room first.
    let out = send(&mut reg, &mut cat, &mut guest, hello("pong", "", "h2"));
    joined_code(&out);
    assert_eq!(reg.pools[0].rooms.len(), 1);
    assert_ne!(reg.pools[0].rooms[0].code.as_str(), code.as_str());
}

#[test]
fn list_rooms_and_stats() {
    let mut reg = AppRegistry::new();
    let mut cat = AppCatalog::new();
    let mut c = client();
    let out = send(&mut reg, &mut cat, &mut c, ClientMessage::ListRooms { app_key: "chess".to_string() });
    assert_eq!(error_text(&out), "unregistered game type");
    let out = send(&mut reg, &mut cat, &mut c, ClientMessage::ListRooms { app_key: "pong".to_string() });
    assert!(matches!(out.as_slice(), [ServerMessage::RoomList { rooms }] if rooms.is_empty()));
    let (code, ..) = joined_code(&send(&mut reg, &mut cat, &mut c, hello("pong", "", "h1")));
    assert!(send(&mut reg, &mut cat, &mut c, ClientMessage::RoomControl(RoomControl::SetPublic(true))).is_empty());
    let mut other = client();
    let out = send(&mut reg, &mut cat, &mut other, ClientMessage::ListRooms { app_key: "pong".to_string() });
    match &out[0] {
        ServerMessage::RoomList { rooms } => {
            assert_eq!(rooms.len(), 1);
            assert_eq!(rooms[0].room_code.as_str(), code);
            assert_eq!(rooms[0].player_count, 1);
        },
        other => panic!("expected RoomList, got {:?}", other),
    }
    let stats = collect_stats(&reg);
    assert_eq!(stats.len(), 1);
    assert_eq!((stats[0].id.as_str(), stats[0].rooms, stats[0].players), ("pong", 1, 1));
}

#[test]
fn settings_copies_keep_game_options() {
    let mut s = RoomSettings::default();
    s.custom = Some(serde_json::from_str::<serde_json::Value>("{\"map\": \"arena\", \"rounds\": 3}").unwrap());
    s.password = Some("pw".to_string());
    s.is_public = true;
    let t = s.clone();
    assert_eq!(t.custom, s.custom);
    assert_eq!(t.password, s.password);
    let mut pool = RoomPool::new("pong".to_string());
    pool.create_room(s, "game").unwrap();
    let list = pool.list_public_rooms();
    assert_eq!(list[0].settings.custom.as_ref().unwrap()["map"], "arena");
    assert!(list[0].settings.password.is_none());
}

#[test]
fn banning_the_same_hash_twice_keeps_one_entry() {
    let mut reg = AppRegistry::new();
    let mut cat = AppCatalog::new();
    let mut host = client();
    let mut a = client();
    let mut b = client();
    let d = AppRoomDefaults { min_players: 0, max_players: 8 };
    let out = dispatch(&mut reg, &mut cat, None, Some(d), &mut host.session, &host.tx, hello("chess", "", "h0"));
    let (code, ..) = joined_code(&out);
    let (_, pa, ..) = joined_code(&send(&mut reg, &mut cat, &mut a, hello("chess", &code, "same")));
    let (_, pb, ..) = joined_code(&send(&mut reg, &mut cat, &mut b, hello("chess", &code, "same")));
    assert!(send(&mut reg, &mut cat, &mut host, ClientMessage::RoomControl(RoomControl::Ban(pa))).is_empty());
    assert!(send(&mut reg, &mut cat, &mut host, ClientMessage::RoomControl(RoomControl::Ban(pb))).is_empty());
    let room = &reg.pools[0].rooms[0];
    assert_eq!(room.banned.len(), 1);
    assert_eq!(room.banned[0].as_str(), "same");
    assert_eq!(room.clients.len(), 1);
}

#[test]
fn connections_are_capped() {
    assert!(connection_admitted(0));
    assert!(connection_admitted(109_999));
    assert!(!connection_admitted(110_000));
    assert!(!connection_admitted(200_000));
}
