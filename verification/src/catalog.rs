use vstd::prelude::*;

verus! {

/// The metering profile a hello falls back to when it names none.
pub const DEFAULT_PROFILE: u16 = 0x1001;

/// Profiles the decoder knows by name.
pub open spec fn spec_known_profile(code: u16) -> bool {
    code == DEFAULT_PROFILE
}

/// Whether the profile code names a profile the decoder knows.
pub fn is_known_profile(code: u16) -> (b: bool)
    ensures
        b == spec_known_profile(code),
{
    code == DEFAULT_PROFILE
}

} // verus!
