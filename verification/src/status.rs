//! Status codes shared with the UI.
//!
//! Prose lives in the UI definition so its translation machinery can reach
//! it; the library hands over a code plus numbers and the UI does the wording.

use vstd::prelude::*;

verus! {

pub const NONE: i32 = 0;

pub const READY: i32 = 1;

pub const READY_SKIPPING: i32 = 2;

pub const NONE_SENDABLE: i32 = 3;

pub const READING_FILES: i32 = 4;

pub const LOOKING_FOR_DEVICE: i32 = 5;

pub const SENDING: i32 = 6;

pub const SENT: i32 = 7;

pub const CANCELLED: i32 = 8;

pub const DELETING: i32 = 9;

pub const DELETED_MANY: i32 = 10;

pub const TRACKS_ON_DEVICE: i32 = 12;

pub const NO_DEVICE_CONNECTED: i32 = 13;

} // verus!
