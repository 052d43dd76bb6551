//! The register file: 32 integer registers and 16 architectural
//! floating-point registers.  Floating-point contents are carried as raw
//! 64-bit words (IEEE 754 bit patterns); the engine never interprets them.

use vstd::prelude::*;

verus! {

/// The bit pattern of the double-precision value one, the preset contents of
/// every floating-point register and memory cell.
pub const FP_ONE_BITS: u64 = 0x3FF0000000000000;

/// Integer registers `R0..R31` and floating-point registers `F0, F2, ... F30`
/// (16 architectural registers, indexed by half the numeral).
pub struct RegisterFile {
    /// Floating-point registers as 64-bit words, indexed 0..16.
    pub fp: Vec<u64>,
    /// Integer registers, indexed 0..32.
    pub int: Vec<i32>,
}

/// The preset register file: every floating register holds the bit pattern
/// of 1.0, every integer register holds 0 except `R1`, preset as a base
/// pointer to 16.
pub open spec fn spec_default_registers(r: RegisterFile) -> bool {
    &&& r.fp@.len() == 16
    &&& forall|i: int| 0 <= i < 16 ==> r.fp@[i] == FP_ONE_BITS
    &&& r.int@.len() == 32
    &&& r.int@[1] == 16
    &&& forall|i: int| 0 <= i < 32 && i != 1 ==> r.int@[i] == 0
}

impl RegisterFile {
    /// The preset register file described by [`spec_default_registers`].
    pub fn new() -> (r: RegisterFile)
        ensures
            spec_default_registers(r),
    {
        let mut fp: Vec<u64> = Vec::new();
        let mut i: usize = 0;
        while i < 16
            invariant
                i <= 16,
                fp@.len() == i,
                forall|j: int| 0 <= j < i ==> fp@[j] == FP_ONE_BITS,
            decreases 16 - i,
        {
            fp.push(FP_ONE_BITS);
            i = i + 1;
        }
        let mut ints: Vec<i32> = Vec::new();
        let mut k: usize = 0;
        while k < 32
            invariant
                k <= 32,
                ints@.len() == k,
                forall|j: int| 0 <= j < k ==> ints@[j] == 0,
            decreases 32 - k,
        {
            ints.push(0);
            k = k + 1;
        }
        ints.set(1, 16);
        RegisterFile { fp, int: ints }
    }
}

} // verus!
