//! Fresh identities.

use vstd::prelude::*;

verus! {

/// `uuid::Uuid::new_v4`: the sixteen bytes of a random UUID, whose version bits say 4 and
/// whose variant bits say RFC 4122. The other bits are left to chance.
#[verifier::external_body]
pub(crate) fn fresh_uuid() -> (r: [u8; 16])
    ensures
        r[6] & 0xf0 == 0x40,
        r[8] & 0xc0 == 0x80,
{
    *uuid::Uuid::new_v4().as_bytes()
}

} // verus!
