//! Roomie: a relay server for multiplayer games. One player hosts and sends the
//! game state; the others send input; the server keeps rooms and relays both.
//!
//! This crate holds the server's rules: validation of a client's hello, the
//! per-app room defaults, rooms and their membership, the pool of rooms of
//! one app, the registry of apps, message dispatch and the wire framing.

pub mod validation;
pub mod outside;
pub mod identity;
pub mod code;
pub mod settings;
pub mod room;
pub mod protocol;
pub mod pool;
pub mod text;
pub mod config;
pub mod registry;
pub mod dispatch;
pub mod control;
pub mod hello;
