//! Special token IDs, shared across all games.

use vstd::prelude::*;

verus! {

pub const PAD: u16 = 0;

pub const BOS: u16 = 1;

pub const EOS: u16 = 2;

pub const WIN: u16 = 3;

pub const DRAW: u16 = 4;

pub const LOSS: u16 = 5;

/// First ID available to action tokens.
pub const OFFSET: u16 = 6;

} // verus!
