//! Per-app room defaults (min_players, max_players) and the set of registered apps.
//!
//! An app is registered when it is built in ("pong") or has a config file
//! `apps/{app_key}.json`; the values read from such a file are handed in as
//! `AppRoomDefaults`. What was learned about an app is kept in an `AppCatalog`.

use vstd::prelude::*;
use crate::settings::RoomSettings;
use crate::text::same_text;
use crate::outside::{limits_held, limits_map_contains_key, limits_map_get, limits_map_insert, limits_map_new, LimitsMap};

verus! {

/// The fragment of an app config file that room defaults come from
/// (both fields default to 0 when absent).
#[derive(Debug, Clone, Copy)]
pub struct AppRoomDefaults {
    pub min_players: u32,
    pub max_players: u32,
}

/// Whether the app is built into the server.
pub open spec fn spec_is_builtin_app(app_key: Seq<char>) -> bool {
    app_key == "pong"@
}

/// The settings with the given player limits (minimum, maximum), all else at
/// its default.
pub open spec fn limits_settings(limits: (u32, u32)) -> RoomSettings {
    RoomSettings { min_players: limits.0, max_players: limits.1, ..RoomSettings::spec_default() }
}

/// The player limits an app gets when it has no config file: the built-in
/// app needs exactly two players; any other app has no limits.
pub open spec fn fallback_limits(app_key: Seq<char>) -> (u32, u32) {
    if spec_is_builtin_app(app_key) {
        (2, 2)
    } else {
        (0, 0)
    }
}

/// The settings an app gets when it has no config file.
pub open spec fn fallback_settings(app_key: Seq<char>) -> RoomSettings {
    limits_settings(fallback_limits(app_key))
}

/// The player limits an app config file gives.
pub open spec fn limits_of(d: AppRoomDefaults) -> (u32, u32) {
    (d.min_players, if d.max_players > 0 { d.max_players } else { RoomSettings::spec_default().max_players })
}

/// The settings described by an app config file.
pub open spec fn settings_of(d: AppRoomDefaults) -> RoomSettings {
    limits_settings(limits_of(d))
}

/// Without a config file, the built-in app "pong" needs exactly two players
/// and any other app has no player limits; the rest of the settings are the
/// defaults.
pub proof fn lemma_fallback_limits(app_key: Seq<char>)
    ensures
        app_key == "pong"@ ==> fallback_settings(app_key).min_players == 2 && fallback_settings(app_key).max_players == 2,
        app_key != "pong"@ ==> fallback_settings(app_key).min_players == 0 && fallback_settings(app_key).max_players == 0,
        fallback_settings(app_key).is_public == RoomSettings::spec_default().is_public,
        fallback_settings(app_key).password == RoomSettings::spec_default().password,
        fallback_settings(app_key).accept_required == RoomSettings::spec_default().accept_required,
{
}

pub fn is_builtin_app(app_key: &str) -> (r: bool)
    ensures
        r == spec_is_builtin_app(app_key@),
{
    same_text(app_key, "pong")
}

/// Fallback when an app config file is not found; the built-in app gets its
/// player limits so that the minimum is enforced.
pub fn app_fallback(app_key: &str) -> (r: RoomSettings)
    ensures
        r == fallback_settings(app_key@),
{
    let (min_players, max_players): (u32, u32) = if is_builtin_app(app_key) {
        (2, 2)
    } else {
        (0, 0)
    };
    let defaults = RoomSettings::default();
    RoomSettings {
        min_players,
        max_players: if max_players > 0 { max_players } else { 0 },
        ..defaults
    }
}

/// The room settings for an app whose config file holds `defaults`.
pub fn settings_from_defaults(defaults: &AppRoomDefaults) -> (r: RoomSettings)
    ensures
        r == settings_of(*defaults),
{
    let base = RoomSettings::default();
    RoomSettings {
        min_players: defaults.min_players,
        max_players: if defaults.max_players > 0 { defaults.max_players } else { base.max_players },
        ..base
    }
}

/// The room settings with the given player limits.
fn settings_from_limits(limits: (u32, u32)) -> (r: RoomSettings)
    ensures
        r == limits_settings(limits),
{
    let base = RoomSettings::default();
    RoomSettings { min_players: limits.0, max_players: limits.1, ..base }
}

/// What is known of registered apps: each app key with the player limits
/// its rooms get by default (the rest of their settings is the default).
pub struct AppCatalog {
    limits: LimitsMap,
}

impl AppCatalog {
    /// The apps known, each with its player limits.
    pub closed spec fn held(self) -> Map<Seq<char>, (u32, u32)> {
        limits_held(self.limits)
    }

    pub open spec fn knows(self, app_key: Seq<char>) -> bool {
        self.held().contains_key(app_key)
    }

    /// The player limits that registering `app_key` would keep, given what
    /// its config file holds (`None`: no readable file); `None` when the app
    /// is not registered.
    pub open spec fn resolve_limits(self, app_key: Seq<char>, on_disk: Option<AppRoomDefaults>) -> Option<(u32, u32)> {
        if self.knows(app_key) {
            Some(self.held()[app_key])
        } else if spec_is_builtin_app(app_key) {
            Some(fallback_limits(app_key))
        } else {
            match on_disk {
                Some(d) => Some(limits_of(d)),
                None => None,
            }
        }
    }

    /// The default room settings of `app_key` once it is registered; `None`
    /// when it is not registered.
    pub open spec fn resolve(self, app_key: Seq<char>, on_disk: Option<AppRoomDefaults>) -> Option<RoomSettings> {
        match self.resolve_limits(app_key, on_disk) {
            Some(limits) => Some(limits_settings(limits)),
            None => None,
        }
    }

    /// The catalog after `app_key` was looked up: an app newly found to be
    /// registered is added.
    pub open spec fn learned(self, after: AppCatalog, app_key: Seq<char>, on_disk: Option<AppRoomDefaults>) -> bool {
        if !self.knows(app_key) && self.resolve_limits(app_key, on_disk) is Some {
            after.held() == self.held().insert(app_key, self.resolve_limits(app_key, on_disk).unwrap())
        } else {
            after.held() == self.held()
        }
    }

    pub fn new() -> (r: AppCatalog)
        ensures
            r.held().dom() == Set::<Seq<char>>::empty(),
    {
        AppCatalog { limits: limits_map_new() }
    }

    /// Whether looking up this app needs its config file: it is neither
    /// known nor built in.
    pub fn needs_config_file(&self, app_key: &str) -> (r: bool)
        ensures
            r == (!self.knows(app_key@) && !spec_is_builtin_app(app_key@)),
    {
        !limits_map_contains_key(&self.limits, app_key) && !is_builtin_app(app_key)
    }

    /// Keeps the player limits of `settings` for a newly registered app.
    fn add(&mut self, app_key: &str, settings: &RoomSettings)
        ensures
            final(self).held() == old(self).held().insert(app_key@, (settings.min_players, settings.max_players)),
    {
        let _ = limits_map_insert(&mut self.limits, app_key.to_owned(), (settings.min_players, settings.max_players));
    }
}

impl AppCatalog {
    /// Once an app is found registered, the catalog knows it, with the
    /// settings it was registered with, and it still knows every app it knew.
    pub proof fn lemma_learned_knows(self, after: AppCatalog, app_key: Seq<char>, on_disk: Option<AppRoomDefaults>)
        requires
            self.learned(after, app_key, on_disk),
            self.resolve(app_key, on_disk) is Some,
        ensures
            after.knows(app_key),
            after.resolve(app_key, on_disk) == self.resolve(app_key, on_disk),
            forall|a: Seq<char>| self.knows(a) ==> #[trigger] after.knows(a) && after.held()[a] == self.held()[a],
    {
    }

    /// Who may play: an app is registered exactly when it is already known,
    /// is the built-in app "pong", or has a config file.
    pub proof fn lemma_registered_apps(self, app_key: Seq<char>, on_disk: Option<AppRoomDefaults>)
        ensures
            self.resolve(app_key, on_disk) is Some <==> (self.knows(app_key) || app_key == "pong"@ || on_disk is Some),
    {
    }

    /// Settings stick once found: after an app was looked up and found
    /// registered, later lookups give the settings it was registered with,
    /// whatever its config file holds by then.
    pub proof fn lemma_registered_settings_stick(
        self,
        after: AppCatalog,
        app_key: Seq<char>,
        on_disk: Option<AppRoomDefaults>,
        later: Option<AppRoomDefaults>,
    )
        requires
            self.learned(after, app_key, on_disk),
            self.resolve(app_key, on_disk) is Some,
        ensures
            after.resolve(app_key, later) == self.resolve(app_key, on_disk),
    {
    }
}

/// Returns the default room settings for the given app: those kept in the
/// catalog, or for a built-in app its fallback, or those of its config file
/// (`on_disk`), and otherwise the fallback. A built-in app and one with a
/// config file are added to the catalog.
pub fn default_room_settings_for_app(
    catalog: &mut AppCatalog,
    app_key: &str,
    on_disk: Option<AppRoomDefaults>,
) -> (r: RoomSettings)
    ensures
        old(catalog).learned(*final(catalog), app_key@, on_disk),
        r == match old(catalog).resolve(app_key@, on_disk) {
            Some(s) => s,
            None => fallback_settings(app_key@),
        },
{
    if let Some(limits) = limits_map_get(&catalog.limits, app_key) {
        return settings_from_limits(limits);
    }
    if is_builtin_app(app_key) {
        let settings = app_fallback(app_key);
        catalog.add(app_key, &settings);
        return settings;
    }
    if let Some(d) = on_disk {
        let settings = settings_from_defaults(&d);
        catalog.add(app_key, &settings);
        return settings;
    }
    app_fallback(app_key)
}

/// Whether the app is a registered game type (built in, or with a config
/// file). Only registered apps can create or join rooms. An app found to be
/// registered is added to the catalog.
pub fn is_registered_app(catalog: &mut AppCatalog, app_key: &str, on_disk: Option<AppRoomDefaults>) -> (r: bool)
    ensures
        old(catalog).learned(*final(catalog), app_key@, on_disk),
        r == old(catalog).resolve(app_key@, on_disk) is Some,
{
    if limits_map_contains_key(&catalog.limits, app_key) {
        return true;
    }
    if is_builtin_app(app_key) {
        let settings = app_fallback(app_key);
        catalog.add(app_key, &settings);
        return true;
    }
    if let Some(d) = on_disk {
        let settings = settings_from_defaults(&d);
        catalog.add(app_key, &settings);
        return true;
    }
    false
}

} // verus!
