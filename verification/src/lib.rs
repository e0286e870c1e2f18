//! What diskwatch works out from what it reads: which process is behind a hot
//! file, what a drive is, and what each tab puts on the screen.
use vstd::prelude::*;

pub mod binary64;
pub mod collect;
pub mod fixed;
pub mod laws;
pub mod layout;
pub mod paths;
pub mod tabs;
pub mod text;
pub mod ui;

verus! {

} // verus!
