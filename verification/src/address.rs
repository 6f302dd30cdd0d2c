//! Account identifiers.

use vstd::prelude::*;
use vstd::slice::slice_to_vec;
use vstd::utf8::encode_utf8;

verus! {

/// Text form of the reserved account that accumulates every collected fee.
pub const SYSTEM_ADDRESS_STR: &'static str = "System";

/// An account identifier: an opaque byte sequence, compared by value.
#[derive(Debug, Hash)]
pub struct Address(Vec<u8>);

impl View for Address {
    type V = Seq<u8>;

    closed spec fn view(&self) -> Seq<u8> {
        self.0@
    }
}

/// The bytes that identify the system account.
pub open spec fn system_key() -> Seq<u8> {
    encode_utf8(SYSTEM_ADDRESS_STR@)
}

/// The message with which an empty address is refused.
pub open spec fn empty_address_message() -> Seq<char> {
    "address cannot be empty"@
}

impl Address {
    /// Builds an address from its text; the empty text is refused.
    pub fn from_string(s: String) -> (r: Result<Self, String>)
        ensures
            s@.len() == 0 <==> r is Err,
            r matches Ok(a) ==> a@ == encode_utf8(s@),
            r matches Err(e) ==> e@ == empty_address_message(),
    {
        if s.as_str().is_empty() {
            return Err("address cannot be empty".to_string());
        }
        Ok(Address(slice_to_vec(s.as_str().as_bytes())))
    }

    /// Wraps raw bytes without any check; the result may be empty.
    pub fn from_bytes(bytes: Vec<u8>) -> (r: Self)
        ensures
            r@ == bytes@,
    {
        Address(bytes)
    }

    /// The bytes of the identifier.
    pub fn as_bytes(&self) -> (r: &Vec<u8>)
        ensures
            r@ == self@,
    {
        &self.0
    }

    /// Whether the identifier has no bytes at all.
    pub fn is_empty(&self) -> (r: bool)
        ensures
            r == (self@.len() == 0),
    {
        self.0.len() == 0
    }

    /// Whether this is the reserved system account.
    pub fn is_system(&self) -> (r: bool)
        ensures
            r == (self@ == system_key()),
    {
        let name = SYSTEM_ADDRESS_STR.as_bytes();
        if self.0.len() != name.len() {
            return false;
        }
        let mut i: usize = 0;
        while i < name.len()
            invariant
                i <= name.len(),
                self.0.len() == name.len(),
                name@ == system_key(),
                forall|k: int| 0 <= k < i ==> self.0@[k] == name@[k],
            decreases name.len() - i,
        {
            if self.0[i] != name[i] {
                return false;
            }
            i += 1;
        }
        assert(self.0@ =~= name@);
        true
    }
}

impl Clone for Address {
    fn clone(&self) -> (r: Self)
        ensures
            r@ == self@,
    {
        Address(self.0.clone())
    }
}

impl PartialEq for Address {
    fn eq(&self, other: &Self) -> (r: bool) {
        if self.0.len() != other.0.len() {
            return false;
        }
        let mut i: usize = 0;
        while i < self.0.len()
            invariant
                i <= self.0.len(),
                self.0.len() == other.0.len(),
                forall|k: int| 0 <= k < i ==> self.0@[k] == other.0@[k],
            decreases self.0.len() - i,
        {
            if self.0[i] != other.0[i] {
                return false;
            }
            i += 1;
        }
        assert(self.0@ =~= other.0@);
        true
    }
}

impl Eq for Address {}

impl vstd::std_specs::cmp::PartialEqSpecImpl for Address {
    open spec fn obeys_eq_spec() -> bool {
        true
    }

    open spec fn eq_spec(&self, other: &Self) -> bool {
        self@ == other@
    }
}

/// The reserved system account.
pub fn system_address() -> (r: Address)
    ensures
        r@ == system_key(),
{
    Address(slice_to_vec(SYSTEM_ADDRESS_STR.as_bytes()))
}

} // verus!
