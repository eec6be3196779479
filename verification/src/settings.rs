//! Room settings: size limits, visibility, password, accept-required, game options.

use vstd::prelude::*;
use crate::outside::json_value_clone;

verus! {

/// Room settings (max players, min players to start, visibility, password, accept-required).
#[derive(Debug)]
pub struct RoomSettings {
    /// Maximum players (accepted and pending); 0 means no limit.
    pub max_players: u32,
    /// Minimum accepted players required before the host's moves are accepted (0 = no minimum).
    pub min_players: u32,
    pub is_public: bool,
    pub password: Option<String>,
    pub accept_required: bool,
    /// Game-specific options (e.g. map name, mode). Opaque to the server.
    pub custom: Option<serde_json::Value>,
}

impl RoomSettings {
    /// The same settings without the password (what may be shown to other clients).
    pub open spec fn without_password(self) -> RoomSettings {
        RoomSettings { password: None, ..self }
    }

    /// The settings with every field at its default: no limits, private, no
    /// password, no accept step, no game options.
    pub open spec fn spec_default() -> RoomSettings {
        RoomSettings {
            max_players: 0,
            min_players: 0,
            is_public: false,
            password: None,
            accept_required: false,
            custom: None,
        }
    }
}

impl Default for RoomSettings {
    fn default() -> (r: RoomSettings)
        ensures
            r == RoomSettings::spec_default(),
    {
        RoomSettings {
            max_players: 0,
            min_players: 0,
            is_public: false,
            password: None,
            accept_required: false,
            custom: None,
        }
    }
}

impl Clone for RoomSettings {
    fn clone(&self) -> (r: RoomSettings)
        ensures
            r == *self,
    {
        let password = match &self.password {
            Some(p) => Some(p.clone()),
            None => None,
        };
        let custom = match &self.custom {
            Some(v) => Some(json_value_clone(v)),
            None => None,
        };
        RoomSettings {
            max_players: self.max_players,
            min_players: self.min_players,
            is_public: self.is_public,
            password,
            accept_required: self.accept_required,
            custom,
        }
    }
}

} // verus!
