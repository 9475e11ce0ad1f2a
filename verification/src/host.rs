//! The host check: the driver is meant for one family of hosts, told by a
//! marker in the host's description of itself.

use vstd::prelude::*;
use crate::text::{contains, occurs};

verus! {

/// Whether a host that describes itself as `description` is one the driver
/// is meant for: the description names `Android` somewhere.
pub open spec fn is_android_text(description: Seq<char>) -> bool {
    occurs(description, "Android"@)
}

/// Tells whether the host's description names the expected family.
pub fn is_android(description: &str) -> (b: bool)
    ensures
        b == is_android_text(description@),
{
    contains(description, "Android")
}

} // verus!
