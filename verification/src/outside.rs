//! The calls this crate makes into outside crates and into parts of std that
//! vstd leaves unspecified. Each item states what it relies on; nothing here
//! is proved.

use vstd::prelude::*;
use rand::Rng;

verus! {

/// `bytes::Bytes`: an immutable, cheaply cloned byte buffer.
#[verifier::external_type_specification]
#[verifier::external_body]
pub struct ExBytes(bytes::Bytes);

/// `serde_json::Value`: a JSON document carried through untouched.
#[verifier::external_type_specification]
#[verifier::external_body]
pub struct ExJsonValue(serde_json::Value);

/// `tokio::sync::mpsc::Sender`: the sending half of a bounded channel.
#[verifier::external_type_specification]
#[verifier::external_body]
#[verifier::reject_recursive_types(T)]
pub struct ExSender<T>(tokio::sync::mpsc::Sender<T>);

/// `dashmap::DashMap`: a concurrent hash map (sharded, each shard behind a lock).
#[verifier::external_type_specification]
#[verifier::external_body]
#[verifier::reject_recursive_types(K)]
#[verifier::reject_recursive_types(V)]
#[verifier::reject_recursive_types(S)]
pub struct ExDashMap<K, V, S>(dashmap::DashMap<K, V, S>);

/// A concurrent map from app keys to a pair of player limits.
pub type LimitsMap = dashmap::DashMap<String, (u32, u32)>;

/// What a map from app keys to player limits holds: each key's characters
/// with the value stored under it.
pub uninterp spec fn limits_held(m: LimitsMap) -> Map<Seq<char>, (u32, u32)>;

/// The bytes that a `bytes::Bytes` holds, in order.
pub uninterp spec fn bytes_content(b: bytes::Bytes) -> Seq<u8>;

/// Unicode case folding of a string as the `unicase` crate performs it.
pub uninterp spec fn unicase_fold(s: Seq<char>) -> Seq<char>;

/// ASCII lowercasing of one character.
pub open spec fn ascii_lower_char(c: char) -> char {
    if 'A' <= c && c <= 'Z' {
        ((c as u32) + 32) as char
    } else {
        c
    }
}

/// ASCII lowercasing of a string: `A`..`Z` become `a`..`z`, all else stays.
pub open spec fn ascii_lowercase(s: Seq<char>) -> Seq<char> {
    s.map_values(|c: char| ascii_lower_char(c))
}

/// `bytes::Bytes::new`: an empty buffer.
#[verifier::external_body]
pub(crate) fn bytes_new() -> (r: bytes::Bytes)
    ensures
        bytes_content(r) == Seq::<u8>::empty(),
{
    bytes::Bytes::new()
}

/// `bytes::Bytes::from(Vec<u8>)`: takes over the vector; the buffer holds its bytes.
#[verifier::external_body]
pub(crate) fn bytes_from_vec(v: Vec<u8>) -> (r: bytes::Bytes)
    ensures
        bytes_content(r) == v@,
{
    bytes::Bytes::from(v)
}

/// `Clone` of `bytes::Bytes`: a second handle on the same bytes.
pub assume_specification[ <bytes::Bytes as Clone>::clone ](b: &bytes::Bytes) -> (r: bytes::Bytes)
    ensures
        bytes_content(r) == bytes_content(*b),
;

/// `bytes::Bytes::is_empty`: whether the buffer holds no byte.
#[verifier::external_body]
pub(crate) fn bytes_is_empty(b: &bytes::Bytes) -> (r: bool)
    ensures
        r == (bytes_content(*b).len() == 0),
{
    b.is_empty()
}

/// `Clone` of `serde_json::Value` (a derived, structural clone): the same JSON value.
#[verifier::external_body]
pub(crate) fn json_value_clone(v: &serde_json::Value) -> (r: serde_json::Value)
    ensures
        r == *v,
{
    v.clone()
}

/// `Sender::try_send` of tokio: queues `msg` without waiting. The result is
/// whether the channel reported `Closed` (the receiver is gone); a full queue
/// drops the message and is not reported. Which outcome occurs depends on the
/// receiving task, so nothing is stated of it.
#[verifier::external_body]
pub(crate) fn try_send_reports_closed<T>(tx: &tokio::sync::mpsc::Sender<T>, msg: T) -> (closed: bool) {
    match tx.try_send(msg) {
        Err(tokio::sync::mpsc::error::TrySendError::Closed(_)) => true,
        _ => false,
    }
}

/// `Clone` of tokio's `Sender`: another handle on the same channel.
#[verifier::external_body]
pub(crate) fn sender_clone<T>(tx: &tokio::sync::mpsc::Sender<T>) -> (r: tokio::sync::mpsc::Sender<T>) {
    tx.clone()
}

/// `unicase::UniCase::new(s).to_folded_case()`: the string under which the
/// `unicase` crate compares `s`. Two `UniCase` strings are equal exactly when
/// these foldings are equal (ASCII strings compare by `eq_ignore_ascii_case`,
/// others by the folded characters, and the Unicode folding of an ASCII
/// character is its ASCII lowercase). For an ASCII string the folding is
/// its ASCII lowercase; every character folds to one, two or three
/// characters (the lookup never folds one to none), so the folding is at
/// least as long as the string.
#[verifier::external_body]
pub(crate) fn unicase_folded(s: &str) -> (r: String)
    ensures
        r@ == unicase_fold(s@),
        s@.all(|c: char| (c as u32) < 128) ==> r@ == ascii_lowercase(s@),
        r@.len() >= s@.len(),
{
    unicase::UniCase::new(s).to_folded_case()
}

/// `rand::thread_rng().gen_range(0..bound)`: a random index below `bound`
/// (the range may not be empty). Only the bound is stated: the value is chance.
#[verifier::external_body]
pub(crate) fn random_below(bound: usize) -> (r: usize)
    requires
        bound > 0,
    ensures
        r < bound,
{
    rand::thread_rng().gen_range(0..bound)
}

/// `String::push` of std: appends one character.
#[verifier::external_body]
pub(crate) fn string_push(s: &mut String, c: char)
    ensures
        final(s)@ == old(s)@.push(c),
{
    s.push(c)
}

/// `dashmap::DashMap::new`: an empty map.
#[verifier::external_body]
pub(crate) fn limits_map_new() -> (r: LimitsMap)
    ensures
        limits_held(r).dom() == Set::<Seq<char>>::empty(),
{
    dashmap::DashMap::new()
}

/// `dashmap::DashMap::get`, the value copied out of the guard it returns:
/// the value stored under a key equal to `key`, if any.
#[verifier::external_body]
pub(crate) fn limits_map_get(m: &LimitsMap, key: &str) -> (r: Option<(u32, u32)>)
    ensures
        limits_held(*m).contains_key(key@) ==> r == Some(limits_held(*m)[key@]),
        !limits_held(*m).contains_key(key@) ==> r is None,
{
    match m.get(key) {
        Some(entry) => Some(*entry.value()),
        None => None,
    }
}

/// `dashmap::DashMap::contains_key`: whether a value is stored under a key equal to `key`.
#[verifier::external_body]
pub(crate) fn limits_map_contains_key(m: &LimitsMap, key: &str) -> (r: bool)
    ensures
        r == limits_held(*m).contains_key(key@),
{
    m.contains_key(key)
}

/// `dashmap::DashMap::insert`: stores `value` under `key`, replacing what was
/// stored there, and returns the value it replaced. The map is taken by
/// `&mut` here (the method needs only `&self`), so nothing else sees it change.
#[verifier::external_body]
pub(crate) fn limits_map_insert(m: &mut LimitsMap, key: String, value: (u32, u32)) -> (r: Option<(u32, u32)>)
    ensures
        limits_held(*final(m)) == limits_held(*old(m)).insert(key@, value),
        limits_held(*old(m)).contains_key(key@) ==> r == Some(limits_held(*old(m))[key@]),
        !limits_held(*old(m)).contains_key(key@) ==> r is None,
{
    m.insert(key, value)
}

} // verus!
