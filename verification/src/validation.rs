//! Input validation for client-supplied strings. Rejects oversized or invalid data.

use vstd::prelude::*;

verus! {

pub const MAX_APP_KEY_LEN: usize = 256;

pub const MAX_ROOM_CODE_LEN: usize = 32;

pub const MAX_CLIENT_HASH_LEN: usize = 256;

pub const MAX_DISPLAY_NAME_LEN: usize = 64;

pub const MAX_AUTH_TOKEN_LEN: usize = 256;

pub const MAX_PASSWORD_LEN: usize = 128;

/// Length of a string in UTF-8 bytes.
pub open spec fn utf8_len(s: Seq<char>) -> nat {
    vstd::utf8::encode_utf8(s).len()
}

/// The characters of an optional string.
pub open spec fn opt_chars(s: Option<&str>) -> Option<Seq<char>> {
    match s {
        Some(t) => Some(t@),
        None => None,
    }
}

/// Whether an optional field is longer than `max` bytes.
pub open spec fn opt_too_long(s: Option<Seq<char>>, max: usize) -> bool {
    match s {
        Some(t) => utf8_len(t) > max,
        None => false,
    }
}

/// The first problem with a hello, in the order the checks are made, as the
/// message that is sent back; `None` when the hello is acceptable.
pub open spec fn hello_problem(
    app_key: Seq<char>,
    room_code_len: nat,
    client_hash: Seq<char>,
    display_name: Option<Seq<char>>,
    auth_token: Option<Seq<char>>,
    password: Option<Seq<char>>,
) -> Option<Seq<char>> {
    if app_key.len() == 0 {
        Some("app_key is required"@)
    } else if utf8_len(app_key) > MAX_APP_KEY_LEN {
        Some("app_key too long"@)
    } else if room_code_len > MAX_ROOM_CODE_LEN {
        Some("room_code too long"@)
    } else if client_hash.len() == 0 {
        Some("client_hash is required"@)
    } else if utf8_len(client_hash) > MAX_CLIENT_HASH_LEN {
        Some("client_hash too long"@)
    } else if opt_too_long(display_name, MAX_DISPLAY_NAME_LEN) {
        Some("display_name too long"@)
    } else if opt_too_long(auth_token, MAX_AUTH_TOKEN_LEN) {
        Some("auth_token too long"@)
    } else if opt_too_long(password, MAX_PASSWORD_LEN) {
        Some("password too long"@)
    } else {
        None
    }
}

/// A hello is acceptable exactly when every field is within its limit: an
/// app key of 1 to 256 bytes, a room code of at most 32 bytes, a client hash
/// of 1 to 256 bytes, and, where given, a display name of at most 64 bytes,
/// an auth token of at most 256 bytes and a password of at most 128 bytes.
pub proof fn lemma_hello_limits(
    app_key: Seq<char>,
    room_code_len: nat,
    client_hash: Seq<char>,
    display_name: Option<Seq<char>>,
    auth_token: Option<Seq<char>>,
    password: Option<Seq<char>>,
)
    ensures
        hello_problem(app_key, room_code_len, client_hash, display_name, auth_token, password) is None <==> {
            &&& 1 <= app_key.len() && utf8_len(app_key) <= 256
            &&& room_code_len <= 32
            &&& 1 <= client_hash.len() && utf8_len(client_hash) <= 256
            &&& (display_name matches Some(d) ==> utf8_len(d) <= 64)
            &&& (auth_token matches Some(t) ==> utf8_len(t) <= 256)
            &&& (password matches Some(p) ==> utf8_len(p) <= 128)
        },
{
}

/// Length of a string in UTF-8 bytes, as `str::len` gives it.
fn byte_len(s: &str) -> (r: usize)
    ensures
        r == utf8_len(s@),
{
    s.as_bytes().len()
}

/// Validates a Hello payload; returns the error message if it is invalid.
pub fn validate_hello(
    app_key: &str,
    room_code_len: usize,
    client_hash: &str,
    display_name: Option<&str>,
    auth_token: Option<&str>,
    password: Option<&str>,
) -> (r: Result<(), String>)
    ensures
        r is Ok <==> hello_problem(
            app_key@,
            room_code_len as nat,
            client_hash@,
            opt_chars(display_name),
            opt_chars(auth_token),
            opt_chars(password),
        ) is None,
        r matches Err(m) ==> Some(m@) == hello_problem(
            app_key@,
            room_code_len as nat,
            client_hash@,
            opt_chars(display_name),
            opt_chars(auth_token),
            opt_chars(password),
        ),
{
    if app_key.is_empty() {
        return Err("app_key is required".to_owned());
    }
    if byte_len(app_key) > MAX_APP_KEY_LEN {
        return Err("app_key too long".to_owned());
    }
    if room_code_len > MAX_ROOM_CODE_LEN {
        return Err("room_code too long".to_owned());
    }
    if client_hash.is_empty() {
        return Err("client_hash is required".to_owned());
    }
    if byte_len(client_hash) > MAX_CLIENT_HASH_LEN {
        return Err("client_hash too long".to_owned());
    }
    if let Some(d) = display_name {
        if byte_len(d) > MAX_DISPLAY_NAME_LEN {
            return Err("display_name too long".to_owned());
        }
    }
    if let Some(t) = auth_token {
        if byte_len(t) > MAX_AUTH_TOKEN_LEN {
            return Err("auth_token too long".to_owned());
        }
    }
    if let Some(p) = password {
        if byte_len(p) > MAX_PASSWORD_LEN {
            return Err("password too long".to_owned());
        }
    }
    Ok(())
}

} // verus!
