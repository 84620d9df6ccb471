//! The two key schemes, and which of them a curve belongs to.

use vstd::prelude::*;

verus! {

/// The bit layout and signature convention of a product key.
#[derive(Clone, Copy, Debug, PartialEq, Eq, Structural)]
pub enum Scheme {
    /// The older layout: upgrade flag, channel id, sequence, hash, signature.
    Bink1998,
    /// The later layout: upgrade flag, channel id, hash, signature, auth info.
    Bink2002,
}

/// The first BINK id that belongs to the later scheme.
pub const FIRST_BINK2002_ID: u8 = 0x40;

/// The scheme of a curve: ids below `0x40` are of the older scheme, all
/// others of the later one.
pub open spec fn spec_scheme_for(bink_id: u8) -> Scheme {
    if bink_id < 0x40 {
        Scheme::Bink1998
    } else {
        Scheme::Bink2002
    }
}

/// The scheme under which keys of the curve `bink_id` are signed and read.
#[verifier::when_used_as_spec(spec_scheme_for)]
pub fn scheme_for(bink_id: u8) -> (scheme: Scheme)
    ensures
        scheme == spec_scheme_for(bink_id),
{
    if bink_id < FIRST_BINK2002_ID {
        Scheme::Bink1998
    } else {
        Scheme::Bink2002
    }
}

} // verus!
