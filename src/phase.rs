//! The integer side of the oscillators' phase: the phase is kept in units of
//! table samples, its truncation to an integer picks the table entry, and at
//! the end of a chunk it is wrapped back into one table period by masking
//! off the low bits of that integer.

use vstd::prelude::*;

verus! {

/// The number of samples in one period of an oscillator table.
pub const N_TABLE: usize = 1024;

/// The table entry for the truncated phase `phaseint`.
pub fn table_index(phaseint: i32) -> (r: usize)
    requires
        phaseint >= 0,
    ensures
        r == phaseint as int % N_TABLE as int,
        r < N_TABLE,
{
    (phaseint as usize) % N_TABLE
}

/// The whole periods in the truncated phase `phaseint`, in table samples:
/// subtracting it wraps the phase into the first period.
pub fn wrap_base(phaseint: i32) -> (r: i32)
    requires
        phaseint >= 0,
    ensures
        r as int == phaseint as int - phaseint as int % N_TABLE as int,
        r as int % N_TABLE as int == 0,
        0 <= r <= phaseint,
{
    let u = phaseint as u32;
    let m = u & 0xffff_fc00u32;
    assert(m == u - u % 1024) by (bit_vector)
        requires
            m == u & 0xffff_fc00u32,
    ;
    assert(u < 0x8000_0000u32);
    m as i32
}

} // verus!
