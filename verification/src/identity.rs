//! Client identity: the machine-derived hash a client sends in its hello.

use vstd::prelude::*;

verus! {

/// Opaque client identity from a machine-derived hash (sent by the client in Hello).
#[derive(Debug)]
pub struct ClientHash(pub String);

impl ClientHash {
    pub fn as_str(&self) -> (r: &str)
        ensures
            r@ == self.0@,
    {
        self.0.as_str()
    }
}

impl Clone for ClientHash {
    fn clone(&self) -> (r: ClientHash)
        ensures
            r == *self,
    {
        ClientHash(self.0.clone())
    }
}

impl PartialEq for ClientHash {
    fn eq(&self, other: &ClientHash) -> (r: bool) {
        self.0 == other.0
    }
}

impl vstd::std_specs::cmp::PartialEqSpecImpl for ClientHash {
    open spec fn obeys_eq_spec() -> bool {
        true
    }

    open spec fn eq_spec(&self, other: &ClientHash) -> bool {
        self.0@ == other.0@
    }
}

} // verus!
