//! Room codes: unique within an app, compared without regard to case.

use vstd::prelude::*;
use crate::outside::{ascii_lowercase, unicase_fold, unicase_folded, string_push};

verus! {

/// Whether every character is ASCII.
pub open spec fn all_ascii(s: Seq<char>) -> bool {
    s.all(|c: char| (c as u32) < 128)
}

/// What a code is compared by: its Unicode case folding as the `unicase`
/// crate does it, which for an ASCII code is its ASCII lowercase.
pub open spec fn code_key(s: Seq<char>) -> Seq<char> {
    if all_ascii(s) {
        ascii_lowercase(s)
    } else {
        unicase_fold(s)
    }
}

/// Two ASCII codes name the same room exactly when they are equal but for
/// the case of their letters.
pub proof fn lemma_ascii_codes_ignore_case(a: Seq<char>, b: Seq<char>)
    requires
        all_ascii(a),
        all_ascii(b),
    ensures
        (code_key(a) == code_key(b)) == (ascii_lowercase(a) == ascii_lowercase(b)),
{
}

/// Unique room code within an app (e.g. 6–8 alphanumeric). Comparison is
/// case-insensitive: two codes are the same room when their Unicode case
/// foldings agree, as the `unicase` crate decides it.
#[derive(Debug)]
pub struct RoomCode {
    text: String,
    folded: String,
}

impl RoomCode {
    #[verifier::type_invariant]
    spec fn folded_matches_text(self) -> bool {
        self.folded@ == code_key(self.text@)
    }

    /// The code as it was given.
    pub closed spec fn text(self) -> Seq<char> {
        self.text@
    }

    /// What the code is compared by.
    pub open spec fn key(self) -> Seq<char> {
        code_key(self.text())
    }

    pub fn new(s: String) -> (r: RoomCode)
        ensures
            r.text() == s@,
            r.key().len() >= s@.len(),
    {
        let folded = unicase_folded(s.as_str());
        RoomCode { text: s, folded }
    }

    pub fn as_str(&self) -> (r: &str)
        ensures
            r@ == self.text(),
    {
        self.text.as_str()
    }

    /// Whether two codes name the same room.
    pub fn same_room(&self, other: &RoomCode) -> (r: bool)
        ensures
            r == (self.key() == other.key()),
    {
        proof {
            use_type_invariant(self);
            use_type_invariant(other);
        }
        self.folded == other.folded
    }

}

impl Clone for RoomCode {
    fn clone(&self) -> (r: RoomCode)
        ensures
            r == *self,
    {
        proof {
            use_type_invariant(self);
        }
        RoomCode { text: self.text.clone(), folded: self.folded.clone() }
    }
}

impl PartialEq for RoomCode {
    fn eq(&self, other: &RoomCode) -> (r: bool) {
        proof {
            use_type_invariant(self);
            use_type_invariant(other);
        }
        self.folded == other.folded
    }
}

impl vstd::std_specs::cmp::PartialEqSpecImpl for RoomCode {
    open spec fn obeys_eq_spec() -> bool {
        true
    }

    open spec fn eq_spec(&self, other: &RoomCode) -> bool {
        self.key() == other.key()
    }
}

/// Whether a character is kept in a room code sent by a client.
pub open spec fn is_code_char(c: char) -> bool {
    ('0' <= c && c <= '9') || ('A' <= c && c <= 'Z') || ('a' <= c && c <= 'z')
}

/// The room code a client's text stands for: its ASCII letters and digits, in order.
pub open spec fn normalized_code(s: Seq<char>) -> Seq<char> {
    s.filter(|c: char| is_code_char(c))
}

/// Normalizing keeps exactly the ASCII letters and digits: what comes out
/// holds nothing else, and a text made only of them comes out as it went in.
pub proof fn lemma_normalized_code_keeps_alnum(s: Seq<char>)
    ensures
        forall|i: int| 0 <= i < normalized_code(s).len() ==>
            ('0' <= #[trigger] normalized_code(s)[i] <= '9' || 'A' <= normalized_code(s)[i] <= 'Z'
                || 'a' <= normalized_code(s)[i] <= 'z'),
        (forall|i: int| 0 <= i < s.len() ==> ('0' <= #[trigger] s[i] <= '9' || 'A' <= s[i] <= 'Z' || 'a' <= s[i] <= 'z'))
            ==> normalized_code(s) == s,
    decreases s.len(),
{
    broadcast use vstd::seq_lib::group_filter_ensures;
    reveal_with_fuel(Seq::filter, 1);
    if s.len() > 0 {
        lemma_normalized_code_keeps_alnum(s.drop_last());
        if forall|i: int| 0 <= i < s.len() ==> ('0' <= #[trigger] s[i] <= '9' || 'A' <= s[i] <= 'Z' || 'a' <= s[i] <= 'z') {
            assert forall|i: int| 0 <= i < s.drop_last().len() implies ('0' <= #[trigger] s.drop_last()[i] <= '9'
                || 'A' <= s.drop_last()[i] <= 'Z' || 'a' <= s.drop_last()[i] <= 'z') by {
                assert(s.drop_last()[i] == s[i]);
            }
            assert(is_code_char(s.last()));
            assert(normalized_code(s) =~= s.drop_last().push(s.last()));
        }
    }
}

/// Normalizes a client-supplied room code: surrounding whitespace and every
/// character that is not an ASCII letter or digit are dropped.
pub fn normalize_room_code(s: &str) -> (r: RoomCode)
    ensures
        r.text() == normalized_code(s@),
{
    let mut out = String::new();
    let n = s.unicode_len();
    let mut i: usize = 0;
    while i < n
        invariant
            n == s@.len(),
            i <= n,
            out@ == s@.take(i as int).filter(|c: char| is_code_char(c)),
        decreases n - i,
    {
        let c = s.get_char(i);
        proof {
            reveal_with_fuel(Seq::filter, 1);
            assert(s@.take(i as int + 1).drop_last() == s@.take(i as int));
        }
        if ('0' <= c && c <= '9') || ('A' <= c && c <= 'Z') || ('a' <= c && c <= 'z') {
            string_push(&mut out, c);
        }
        i = i + 1;
    }
    proof {
        assert(s@.take(n as int) == s@);
    }
    RoomCode::new(out)
}

} // verus!
