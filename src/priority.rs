//! Node priorities, kept as integers whose order is that of the
//! floating-point values they were taken from.

use vstd::prelude::*;

verus! {

/// Bit pattern of the single-precision value 1.0.
pub const ONE_BITS: u32 = 0x3F80_0000;

/// Bit pattern of the single-precision value -1.0.
pub const MINUS_ONE_BITS: u32 = 0xBF80_0000;

/// Maps a single-precision bit pattern to an unsigned key with the same order
/// as the value: negatives below positives, larger magnitudes further out,
/// and both zeros to the same key.
pub open spec fn ordered_key(bits: u32) -> u32 {
    if bits == 0x8000_0000u32 {
        0x8000_0000u32
    } else if bits & 0x8000_0000u32 != 0 {
        !bits
    } else {
        bits | 0x8000_0000u32
    }
}

/// The priority of -1.0.
pub open spec fn spec_none() -> Priority {
    Priority { key: ordered_key(MINUS_ONE_BITS) }
}

/// The priority of 1.0.
pub open spec fn spec_cutoff() -> Priority {
    Priority { key: ordered_key(ONE_BITS) }
}

/// How important a node is for the current frame; compared by `key`.
#[derive(Clone, Copy, Debug, PartialEq, Eq, Structural)]
pub struct Priority {
    pub key: u32,
}

impl Priority {
    /// The priority of a finite single-precision value given by its bits.
    pub fn from_bits(bits: u32) -> (r: Priority)
        ensures
            r.key == ordered_key(bits),
    {
        if bits == 0x8000_0000u32 {
            Priority { key: 0x8000_0000u32 }
        } else if bits & 0x8000_0000u32 != 0 {
            Priority { key: !bits }
        } else {
            Priority { key: bits | 0x8000_0000u32 }
        }
    }

    /// The least priority that makes a node worth holding: that of 1.0.
    pub fn cutoff() -> (r: Priority)
        ensures
            r == spec_cutoff(),
    {
        Priority::from_bits(ONE_BITS)
    }

    /// The priority of a node that matters not at all: that of -1.0.
    pub fn none() -> (r: Priority)
        ensures
            r == spec_none(),
    {
        Priority::from_bits(MINUS_ONE_BITS)
    }
}

} // verus!
