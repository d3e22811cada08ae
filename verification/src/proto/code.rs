//! Stable failure codes. A client treats an unknown one as fatal for the
//! request it names and for nothing else.

use vstd::prelude::*;

verus! {

pub const BAD_FRAME: &'static str = "bad-frame";

pub const BAD_VERSION: &'static str = "bad-version";

pub const NO_SUCH_ENTRY: &'static str = "no-such-entry";

pub const NO_SUCH_MIME: &'static str = "no-such-mime";

pub const NO_SUCH_DRAFT: &'static str = "no-such-draft";

pub const TOO_LARGE: &'static str = "too-large";

pub const STORAGE: &'static str = "storage";

} // verus!
