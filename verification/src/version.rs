//! The version of the library.
use vstd::prelude::*;

verus! {

/// The version that written files carry.
pub const VERSION: &'static str = "0.1.0";

/// Who holds the rights.
pub const COPYRIGHT: &'static str = "© 2026 Vyges. All Rights Reserved.  https://vyges.com";

} // verus!
