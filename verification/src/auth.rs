//! The claims carried by a bearer credential, and the parsing of the
//! `Authorization` header that precedes verification. Cryptographic
//! verification of the credential itself happens outside the library; the
//! library defines what the header must look like and what a verified
//! payload holds.

use vstd::prelude::*;

verus! {

/// The payload of a verified bearer credential: the caller's permissions.
pub struct AuthPayload {
    permissions: Vec<String>,
}

impl AuthPayload {
    /// The permission list.
    pub closed spec fn permissions_spec(&self) -> Seq<String> {
        self.permissions@
    }

    /// A payload with the given permissions.
    pub fn new(permissions: Vec<String>) -> (r: Self)
        ensures
            r.permissions_spec() == permissions@,
    {
        AuthPayload { permissions }
    }

    /// The permissions granted to the caller.
    pub fn permissions(&self) -> (r: &[String])
        ensures
            r@ == self.permissions_spec(),
    {
        self.permissions.as_slice()
    }
}

/// The text `Bearer ` that must open an authorization header.
pub open spec fn bearer_prefix() -> Seq<u8> {
    seq![66u8, 101u8, 97u8, 114u8, 101u8, 114u8, 32u8]
}

/// The credential carried by an authorization header: the text after
/// `Bearer `, or nothing when the header is not a bearer header.
pub fn bearer_token(header: &[u8]) -> (r: Option<Vec<u8>>)
    ensures
        header@.len() >= 7 && header@.subrange(0, 7) == bearer_prefix() ==> (r matches Some(t)
            && t@ == header@.skip(7)),
        !(header@.len() >= 7 && header@.subrange(0, 7) == bearer_prefix()) ==> r is None,
{
    if header.len() < 7 {
        return None;
    }
    if header[0] == 66 && header[1] == 101 && header[2] == 97 && header[3] == 114 && header[4]
        == 101 && header[5] == 114 && header[6] == 32 {
        proof {
            assert(header@.subrange(0, 7) =~= bearer_prefix());
        }
        let t = vstd::slice::slice_to_vec(&header[7..header.len()]);
        proof {
            assert(t@ =~= header@.skip(7));
        }
        Some(t)
    } else {
        proof {
            if header@.subrange(0, 7) == bearer_prefix() {
                assert(header@[0] == header@.subrange(0, 7)[0]);
                assert(header@[1] == header@.subrange(0, 7)[1]);
                assert(header@[2] == header@.subrange(0, 7)[2]);
                assert(header@[3] == header@.subrange(0, 7)[3]);
                assert(header@[4] == header@.subrange(0, 7)[4]);
                assert(header@[5] == header@.subrange(0, 7)[5]);
                assert(header@[6] == header@.subrange(0, 7)[6]);
                assert(false);
            }
        }
        None
    }
}

} // verus!
