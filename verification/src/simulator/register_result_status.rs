//! The register-result (renaming) table: for each architectural
//! floating-point register, the slot that will produce its next value, or
//! empty when the register file already holds the current value.

use vstd::prelude::*;
use crate::simulator::tag::Tag;

verus! {

/// The renaming table, one entry per architectural floating-point register
/// (indexed 0..16).  An entry names the pending producer recorded at issue;
/// it is cleared at broadcast time, but only if the broadcasting slot is
/// still the recorded producer.
pub struct RegisterResultStatus {
    pub table: Vec<Option<Tag>>,
}

impl RegisterResultStatus {
    /// An empty table: no register has a pending producer.
    pub fn new() -> (r: RegisterResultStatus)
        ensures
            r.table@.len() == 16,
            forall|i: int| 0 <= i < 16 ==> r.table@[i] is None,
    {
        let mut table: Vec<Option<Tag>> = Vec::new();
        let mut i: usize = 0;
        while i < 16
            invariant
                i <= 16,
                table@.len() == i,
                forall|j: int| 0 <= j < i ==> table@[j] is None,
            decreases 16 - i,
        {
            table.push(None);
            i = i + 1;
        }
        RegisterResultStatus { table }
    }

    /// The pending producer of register `fp_idx`, if any.
    pub fn get(&self, fp_idx: usize) -> (r: Option<Tag>)
        requires
            self.table@.len() == 16,
            fp_idx < 16,
        ensures
            r == self.table@[fp_idx as int],
    {
        self.table[fp_idx]
    }

    /// Record `station` as the new pending producer of register `fp_idx`,
    /// unconditionally overwriting any prior entry (last-issued-writer-wins).
    pub fn set(&mut self, fp_idx: usize, station: Tag)
        requires
            old(self).table@.len() == 16,
            fp_idx < 16,
        ensures
            final(self).table@ == old(self).table@.update(fp_idx as int, Some(station)),
    {
        self.table.set(fp_idx, Some(station));
    }

    /// Forget the pending producer of register `fp_idx`: the register file
    /// holds the current value again.
    pub fn clear(&mut self, fp_idx: usize)
        requires
            old(self).table@.len() == 16,
            fp_idx < 16,
        ensures
            final(self).table@ == old(self).table@.update(fp_idx as int, None),
    {
        self.table.set(fp_idx, None);
    }
}

} // verus!
