//! Outcome encoding of the binary format.

use vstd::prelude::*;

verus! {

pub const WIN: u8 = 0;

pub const DRAW: u8 = 1;

pub const LOSS: u8 = 2;

pub const UNKNOWN: u8 = 255;

} // verus!
