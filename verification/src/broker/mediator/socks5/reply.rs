//! Reply codes.

use vstd::prelude::*;

verus! {

pub const SUCCEEDED: u8 = 0;

pub const GENERAL_FAILURE: u8 = 1;

pub const NOT_ALLOWED: u8 = 2;

pub const NETWORK_UNREACHABLE: u8 = 3;

pub const HOST_UNREACHABLE: u8 = 4;

pub const CONNECTION_REFUSED: u8 = 5;

pub const COMMAND_NOT_SUPPORTED: u8 = 7;

} // verus!
