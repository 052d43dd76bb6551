//! Small helpers for querying pipeline slots uniformly.

use vstd::prelude::*;
use crate::simulator::instruction::{Instruction, InstructionType};
use crate::simulator::load_store::{LoadBuffer, StoreBuffer};
use crate::simulator::reservation_station::ReservationStation;
use crate::simulator::types::Cycle;

verus! {

/// A uniform way for the simulator to query any slot in the pipeline for
/// its busy status and instruction index.  Every slot kind of the engine
/// implements it below.
pub trait ExecUnitSlot {
    /// The busy flag this slot reports.
    spec fn spec_busy(&self) -> bool;

    /// The owning instruction index this slot reports.
    spec fn spec_inst_index(&self) -> Option<usize>;

    /// Is the slot busy?
    fn is_busy(&self) -> (b: bool)
        ensures
            b == self.spec_busy(),
    ;

    /// The index of the owning instruction, if any.
    fn inst_index(&self) -> (r: Option<usize>)
        ensures
            r == self.spec_inst_index(),
    ;
}

impl ExecUnitSlot for ReservationStation {
    open spec fn spec_busy(&self) -> bool {
        self.busy
    }

    open spec fn spec_inst_index(&self) -> Option<usize> {
        self.inst_idx
    }

    fn is_busy(&self) -> (b: bool) {
        self.busy
    }

    fn inst_index(&self) -> (r: Option<usize>) {
        self.inst_idx
    }
}

impl ExecUnitSlot for LoadBuffer {
    open spec fn spec_busy(&self) -> bool {
        self.busy
    }

    open spec fn spec_inst_index(&self) -> Option<usize> {
        self.inst_idx
    }

    fn is_busy(&self) -> (b: bool) {
        self.busy
    }

    fn inst_index(&self) -> (r: Option<usize>) {
        self.inst_idx
    }
}

impl ExecUnitSlot for StoreBuffer {
    open spec fn spec_busy(&self) -> bool {
        self.busy
    }

    open spec fn spec_inst_index(&self) -> Option<usize> {
        self.inst_idx
    }

    fn is_busy(&self) -> (b: bool) {
        self.busy
    }

    fn inst_index(&self) -> (r: Option<usize>) {
        self.inst_idx
    }
}

/// Whether a slot with the given busy flag and owner is ready for
/// write-back: it must be busy, own an instruction, and that instruction
/// must have completed strictly before the current cycle without having
/// written back yet.
pub open spec fn spec_ready_for_writeback(
    unit_busy: bool,
    maybe_idx: Option<usize>,
    instrs: Seq<Instruction>,
    cur_cycle: Cycle,
) -> Option<usize> {
    if !unit_busy {
        None
    } else {
        match maybe_idx {
            None => None,
            Some(idx) => if idx < instrs.len() {
                let t = instrs[idx as int].time;
                if t.write_back is Some {
                    None
                } else if t.completion matches Some(cc) && cc.0 < cur_cycle.0 {
                    Some(idx)
                } else {
                    None
                }
            } else {
                None
            },
        }
    }
}

/// The readiness of one slot, read through the flags it reports.
pub open spec fn spec_unit_ready<U: ExecUnitSlot>(
    u: U,
    instrs: Seq<Instruction>,
    now: Cycle,
) -> Option<usize> {
    spec_ready_for_writeback(u.spec_busy(), u.spec_inst_index(), instrs, now)
}

/// The index of the slot's instruction, when the slot is ready for
/// write-back this cycle.
pub fn is_ready_for_writeback(
    unit_busy: bool,
    maybe_idx: Option<usize>,
    instrs: &Vec<Instruction>,
    cur_cycle: Cycle,
) -> (r: Option<usize>)
    ensures
        r == spec_ready_for_writeback(unit_busy, maybe_idx, instrs@, cur_cycle),
{
    if !unit_busy {
        return None;
    }
    match maybe_idx {
        None => None,
        Some(idx) => {
            if idx >= instrs.len() {
                return None;
            }
            let t = instrs[idx].time;
            if t.write_back.is_some() {
                return None;
            }
            match t.completion {
                Some(cc) => {
                    if cc.value() < cur_cycle.value() {
                        Some(idx)
                    } else {
                        None
                    }
                },
                None => None,
            }
        },
    }
}

/// One slot found ready for write-back: the instruction's operation kind,
/// the slot's position in its pool, and the instruction's index.
pub struct WritebackCandidate {
    pub itype: InstructionType,
    pub unit_idx: usize,
    pub inst_idx: usize,
}

/// The candidate recorded for the slot at pool position `i` owning
/// instruction `idx`.
pub open spec fn spec_candidate_entry(
    instrs: Seq<Instruction>,
    i: int,
    idx: usize,
) -> WritebackCandidate {
    WritebackCandidate { itype: instrs[idx as int].meta.inst_type, unit_idx: i as usize, inst_idx: idx }
}

/// The exact sequence gathered from the units at or after position `i`,
/// given the filter's decisions `keep`: one entry, in pool order, per ready
/// unit the filter accepted.
pub open spec fn spec_collect_from<U: ExecUnitSlot>(
    units: Seq<U>,
    instrs: Seq<Instruction>,
    now: Cycle,
    keep: Seq<bool>,
    i: int,
) -> Seq<WritebackCandidate>
    decreases units.len() - i,
{
    if i < 0 || i >= units.len() {
        Seq::empty()
    } else {
        let tail = spec_collect_from(units, instrs, now, keep, i + 1);
        if i < keep.len() && keep[i] && spec_unit_ready(units[i], instrs, now) is Some {
            seq![spec_candidate_entry(instrs, i, spec_unit_ready(units[i], instrs, now)->0)] + tail
        } else {
            tail
        }
    }
}

/// Positions at or past the end of the decision sequence contribute
/// nothing.
proof fn lemma_collect_none<U: ExecUnitSlot>(
    units: Seq<U>,
    instrs: Seq<Instruction>,
    now: Cycle,
    keep: Seq<bool>,
    j: int,
)
    requires
        j >= keep.len(),
    ensures
        spec_collect_from(units, instrs, now, keep, j) == Seq::<WritebackCandidate>::empty(),
    decreases units.len() - j,
{
    if 0 <= j < units.len() {
        lemma_collect_none(units, instrs, now, keep, j + 1);
    }
}

/// Appending one more decision gathers exactly one more entry, at the
/// position the decision is for.
proof fn lemma_collect_push<U: ExecUnitSlot>(
    units: Seq<U>,
    instrs: Seq<Instruction>,
    now: Cycle,
    keep: Seq<bool>,
    b: bool,
    j: int,
)
    requires
        0 <= j <= keep.len(),
        keep.len() < units.len(),
    ensures
        spec_collect_from(units, instrs, now, keep.push(b), j)
            == spec_collect_from(units, instrs, now, keep, j)
                + (if b && spec_unit_ready(units[keep.len() as int], instrs, now) is Some {
                    seq![spec_candidate_entry(
                        instrs,
                        keep.len() as int,
                        spec_unit_ready(units[keep.len() as int], instrs, now)->0,
                    )]
                } else {
                    Seq::empty()
                }),
    decreases keep.len() - j,
{
    let p = keep.len() as int;
    if j == p {
        lemma_collect_none(units, instrs, now, keep, j);
        lemma_collect_none(units, instrs, now, keep.push(b), j + 1);
        assert(spec_collect_from(units, instrs, now, keep.push(b), j)
            =~= (if b && spec_unit_ready(units[p], instrs, now) is Some {
                seq![spec_candidate_entry(instrs, p, spec_unit_ready(units[p], instrs, now)->0)]
            } else {
                Seq::<WritebackCandidate>::empty()
            }));
    } else {
        lemma_collect_push(units, instrs, now, keep, b, j + 1);
        assert(keep.push(b)[j] == keep[j]);
        assert(spec_collect_from(units, instrs, now, keep.push(b), j)
            =~= spec_collect_from(units, instrs, now, keep, j)
                + (if b && spec_unit_ready(units[p], instrs, now) is Some {
                    seq![spec_candidate_entry(instrs, p, spec_unit_ready(units[p], instrs, now)->0)]
                } else {
                    Seq::<WritebackCandidate>::empty()
                }));
    }
}

/// Gather every slot of a pool that is ready for write-back and accepted by
/// the extra filter, in pool order.  The result is exact: there is a
/// decision sequence, agreeing with what the filter returned on each ready
/// unit, under which the appended entries are precisely
/// [`spec_collect_from`] of the pool.
pub fn collect_ready_units<U: ExecUnitSlot, F: Fn(&U) -> bool>(
    out: &mut Vec<WritebackCandidate>,
    units: &Vec<U>,
    instrs: &Vec<Instruction>,
    current_cycle: Cycle,
    extra_ok: &F,
)
    requires
        forall|u: &U| #[trigger] extra_ok.requires((u,)),
    ensures
        exists|keep: Seq<bool>| {
            &&& keep.len() == units@.len()
            &&& final(out)@ == old(out)@
                + #[trigger] spec_collect_from(units@, instrs@, current_cycle, keep, 0)
            &&& forall|m: int| 0 <= m < keep.len() && #[trigger] keep[m]
                    ==> spec_unit_ready(units@[m], instrs@, current_cycle) is Some
                        && call_ensures(*extra_ok, (&units@[m],), true)
            &&& forall|m: int| 0 <= m < keep.len() && !(#[trigger] keep[m])
                    && spec_unit_ready(units@[m], instrs@, current_cycle) is Some
                    ==> call_ensures(*extra_ok, (&units@[m],), false)
        },
{
    let ghost prior = out@;
    let ghost mut keep: Seq<bool> = Seq::empty();
    proof {
        lemma_collect_none(units@, instrs@, current_cycle, keep, 0);
        assert(out@ =~= prior + spec_collect_from(units@, instrs@, current_cycle, keep, 0));
    }
    let mut i: usize = 0;
    while i < units.len()
        invariant
            i <= units@.len(),
            keep.len() == i,
            forall|u: &U| #[trigger] extra_ok.requires((u,)),
            out@ == prior + spec_collect_from(units@, instrs@, current_cycle, keep, 0),
            forall|m: int| 0 <= m < keep.len() && #[trigger] keep[m]
                ==> spec_unit_ready(units@[m], instrs@, current_cycle) is Some
                    && call_ensures(*extra_ok, (&units@[m],), true),
            forall|m: int| 0 <= m < keep.len() && !(#[trigger] keep[m])
                && spec_unit_ready(units@[m], instrs@, current_cycle) is Some
                ==> call_ensures(*extra_ok, (&units@[m],), false),
        decreases units@.len() - i,
    {
        let u = &units[i];
        let ghost pre_keep = keep;
        let ready = is_ready_for_writeback(u.is_busy(), u.inst_index(), instrs, current_cycle);
        proof {
            assert(ready == spec_unit_ready(units@[i as int], instrs@, current_cycle));
        }
        match ready {
            Some(inst_idx) => {
                if extra_ok(u) {
                    let real_type = instrs[inst_idx].meta.inst_type;
                    out.push(WritebackCandidate { itype: real_type, unit_idx: i, inst_idx });
                    proof {
                        keep = keep.push(true);
                        lemma_collect_push(units@, instrs@, current_cycle, pre_keep, true, 0);
                    }
                } else {
                    proof {
                        keep = keep.push(false);
                        lemma_collect_push(units@, instrs@, current_cycle, pre_keep, false, 0);
                    }
                }
            },
            None => {
                proof {
                    keep = keep.push(false);
                    lemma_collect_push(units@, instrs@, current_cycle, pre_keep, false, 0);
                }
            },
        }
        i = i + 1;
        proof {
            assert(out@ =~= prior + spec_collect_from(units@, instrs@, current_cycle, keep, 0));
        }
    }
}

} // verus!
