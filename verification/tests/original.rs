use std::time::Instant;

use roomie::config::{default_room_settings_for_app, AppCatalog};
use roomie::dispatch::dispatch;
use roomie::pool::RoomPool;
use roomie::protocol::{ClientMessage, ServerMessage};
use roomie::registry::AppRegistry;
use roomie::settings::RoomSettings;

#[test]
fn bench_load_settings() {
    let app_key = "pong";
    let iterations = 1000;
    let mut catalog = AppCatalog::new();
    let start = Instant::now();
    for _ in 0..iterations {
        let settings = default_room_settings_for_app(&mut catalog, app_key, None);
        assert_eq!(settings.min_players, 2);
    }
    let duration = start.elapsed();
    println!("\nBENCHMARK: Took {:?} for {} iterations ({:?} per call)",
        duration, iterations, duration / iterations);
}

#[test]
fn test_password_leak_in_joined() {
    let mut registry = AppRegistry::new();
    let app_key = "pong".to_string();

    // Set up the room pool and put it in the registry.
    let pool = RoomPool::new(app_key.clone());
    registry.pools.push(pool);

    // Create a room with a password.
    let mut settings = RoomSettings::default();
    settings.password = Some("supersecret".to_string());
    settings.max_players = 4;

    let code = registry.pools[0].create_room(settings, "ROOM1").unwrap();

    let (tx, _rx) = tokio::sync::mpsc::channel(10);
    let mut session = None;
    let mut catalog = AppCatalog::new();

    let msg = ClientMessage::Hello {
        app_key: app_key.clone(),
        room_code: code.clone(),
        client_hash: "hash1".to_string(),
        display_name: Some("user1".to_string()),
        auth_token: None,
        password: Some("supersecret".to_string()),
    };

    let result = dispatch(&mut registry, &mut catalog, None, None, &mut session, &tx, msg);

    match &result[0] {
        ServerMessage::Joined { settings, .. } => {
            assert!(settings.password.is_none(), "Password leaked in Joined message! Got: {:?}", settings.password);
        },
        _ => panic!("Expected Joined message"),
    }
}
