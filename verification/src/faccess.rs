//! The request of an accessibility check of a file: which permissions to
//! test, and for which user.

use vstd::prelude::*;

verus! {

/// The values that the platform gives to the access modes.
#[derive(Clone, Copy, Debug, PartialEq, Eq)]
pub struct ModeBits {
    pub exists: i32,
    pub read: i32,
    pub write: i32,
    pub execute: i32,
}

/// What to check: read, write and execute permission, each on request, and
/// whether for the real user rather than the effective one.
#[derive(Clone, Copy, Debug, PartialEq, Eq, Default)]
pub struct Access {
    pub r_ok: bool,
    pub w_ok: bool,
    pub x_ok: bool,
    pub real: bool,
}

impl Access {
    /// The mode to test: existence, with each requested permission added.
    pub fn mode(&self, bits: ModeBits) -> (r: i32)
        ensures
            r == (bits.exists | (if self.r_ok { bits.read } else { 0 }) | (if self.w_ok {
                bits.write
            } else {
                0
            }) | (if self.x_ok { bits.execute } else { 0 })),
    {
        let mut mode = bits.exists;
        let read = if self.r_ok {
            bits.read
        } else {
            0
        };
        let write = if self.w_ok {
            bits.write
        } else {
            0
        };
        let execute = if self.x_ok {
            bits.execute
        } else {
            0
        };
        mode = mode | read;
        mode = mode | write;
        mode = mode | execute;
        mode
    }

    /// The flag of the check: none for the real user, `effective` (the
    /// platform's flag for the effective user) otherwise.
    pub fn flag(&self, effective: i32) -> (r: i32)
        ensures
            r == if self.real { 0 } else { effective },
    {
        if self.real {
            0
        } else {
            effective
        }
    }
}

} // verus!
