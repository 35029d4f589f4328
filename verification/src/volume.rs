//! The shared volume state: a last-value cell for the loudness reading.
//!
//! The capture loop publishes each computed loudness value here and command
//! handlers read the latest one. The value is carried as the bit pattern of
//! the loudness number, so a read returns exactly what was last written,
//! never a rounded or partial value. The surrounding application wraps the
//! cell in its mutual-exclusion primitive; this module holds the value logic.

use vstd::prelude::*;

verus! {

/// A last-value cell. It holds the bit pattern of the most recently written
/// loudness value, or the initial default (the bit pattern of zero) if no
/// write has occurred yet.
pub struct VolumeCell {
    bits: u32,
}

impl VolumeCell {
    /// The stored bit pattern.
    pub closed spec fn spec_bits(self) -> u32 {
        self.bits
    }

    /// A fresh cell holds the default value: all-zero bits, the bit pattern
    /// of a loudness of zero.
    pub fn new() -> (c: VolumeCell)
        ensures
            c.spec_bits() == 0u32,
    {
        VolumeCell { bits: 0 }
    }

    /// Unconditionally replaces the stored value.
    pub fn write(&mut self, bits: u32)
        ensures
            final(self).spec_bits() == bits,
    {
        self.bits = bits;
    }

    /// Returns the most recently written value (or the default).
    pub fn read(&self) -> (bits: u32)
        ensures
            bits == self.spec_bits(),
    {
        self.bits
    }
}

} // verus!
