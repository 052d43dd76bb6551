//! The simulation engine proper: the exclusively-owned aggregate of pools,
//! register file, memory, renaming table and clock, together with the
//! per-cycle stage pipeline.
//!
//! Every stage is verified against the transition functions of
//! [`crate::simulator::model`], so a whole run is a pure function of the
//! decoded program, the preset state, and the arithmetic results delivered
//! by the caller's [`FpUnit`].

use vstd::prelude::*;
use crate::simulator::instruction::{meta_wf, Instruction, InstructionType};
use crate::simulator::load_store::{LoadBuffer, StoreBuffer, StoreData};
use crate::simulator::model::{
    first_free_load, first_free_station, first_free_store, inv, paced, spec_all_done,
    spec_apply_bcast, spec_apply_bcasts, spec_candidate, spec_initial, spec_input_ok, spec_issue,
    spec_issue_arith, spec_issue_load, spec_issue_store, spec_mark_issued, spec_operand,
    spec_rearm, spec_release, spec_releases, spec_req_one, spec_resolve_station,
    spec_resolve_store, spec_wb_arith, spec_wb_load, spec_wb_requests, spec_wb_scan,
    spec_wb_store, spec_writeback, station_ok, load_ok, store_ok, meta_ok,
    scan_rel, lemma_scan_step_arith, lemma_scan_step_load, lemma_scan_step_store,
    lemma_scan_unreached, lemma_writeback_inv, lemma_clock_advance, lemma_bcasts_rel,
    lemma_run_from_snoc, lemma_issue_preserves_times, lemma_execute_preserves_times,
    tags_ok, lemma_initial_tags, lemma_issue_tags, lemma_execute_tags, lemma_writeback_tags,
    lemma_writeback_preserves_times, spec_advance_clock, spec_run_from, spec_unfinished,
    time_preserved,
    AluRequest, Broadcast, State, WbScan,
};
use crate::simulator::register::{RegisterFile, FP_ONE_BITS};
use crate::simulator::register_result_status::RegisterResultStatus;
use crate::simulator::reservation_station::ReservationStation;
use crate::simulator::tag::Tag;
use crate::simulator::types::Cycle;

pub use crate::simulator::model::MAX_CYCLES;

verus! {

/// The functional unit that carries out floating-point arithmetic on 64-bit
/// words.  The engine asks it for one result per arithmetic write-back
/// candidate; the scheduling logic never depends on the values it returns.
pub trait FpUnit {
    fn apply(&mut self, op: InstructionType, a: u64, b: u64) -> u64;
}

/// How a run ended: either every instruction wrote back, or the safety cap
/// was reached and `blocked` lists the indices of the instructions still
/// lacking write-back, in ascending order.
#[derive(Debug)]
pub struct RunOutcome {
    pub completed: bool,
    pub blocked: Vec<usize>,
}

/// The simulation engine.
pub struct Tomasulo {
    /// The decoded program, with the timestamps filled in so far.
    pub instructions: Vec<Instruction>,
    /// Add/subtract stations (capacity 3).
    pub add_stations: Vec<ReservationStation>,
    /// Multiply/divide stations (capacity 2).
    pub mul_stations: Vec<ReservationStation>,
    /// Load buffers (capacity 2).
    pub load_buffers: Vec<LoadBuffer>,
    /// Store buffers (capacity 2).
    pub store_buffers: Vec<StoreBuffer>,
    pub registers: RegisterFile,
    pub f_register_status: RegisterResultStatus,
    /// Eight double-precision cells, as 64-bit words.
    pub memory: Vec<u64>,
    pub current_cycle: Cycle,
    /// How many instructions have issued; in-order issue makes this the
    /// index of the next instruction to consider.
    pub issued: usize,
}

impl View for Tomasulo {
    type V = State;

    open spec fn view(&self) -> State {
        State {
            instructions: self.instructions@,
            add_stations: self.add_stations@,
            mul_stations: self.mul_stations@,
            load_buffers: self.load_buffers@,
            store_buffers: self.store_buffers@,
            fp: self.registers.fp@,
            int: self.registers.int@,
            table: self.f_register_status.table@,
            memory: self.memory@,
            cycle: self.current_cycle,
            issued: self.issued,
        }
    }
}

impl Tomasulo {
    /// A fresh engine over the given program: empty pools, preset registers
    /// and memory, clock at zero.
    pub fn new(instructions: Vec<Instruction>) -> (r: Tomasulo)
        requires
            spec_input_ok(instructions@),
        ensures
            r@ == spec_initial(instructions@),
            inv(r@),
            tags_ok(r@),
            paced(r@, 0),
    {
        let mut add_stations: Vec<ReservationStation> = Vec::new();
        add_stations.push(ReservationStation::new(Tag::AddStation(0)));
        add_stations.push(ReservationStation::new(Tag::AddStation(1)));
        add_stations.push(ReservationStation::new(Tag::AddStation(2)));

        let mut mul_stations: Vec<ReservationStation> = Vec::new();
        mul_stations.push(ReservationStation::new(Tag::MulStation(0)));
        mul_stations.push(ReservationStation::new(Tag::MulStation(1)));

        let mut load_buffers: Vec<LoadBuffer> = Vec::new();
        load_buffers.push(LoadBuffer::new(Tag::LoadBuffer(0)));
        load_buffers.push(LoadBuffer::new(Tag::LoadBuffer(1)));

        let mut store_buffers: Vec<StoreBuffer> = Vec::new();
        store_buffers.push(StoreBuffer::new(Tag::StoreBuffer(0)));
        store_buffers.push(StoreBuffer::new(Tag::StoreBuffer(1)));

        let mut memory: Vec<u64> = Vec::new();
        let mut i: usize = 0;
        while i < 8
            invariant
                i <= 8,
                memory@.len() == i,
                forall|j: int| 0 <= j < i ==> memory@[j] == FP_ONE_BITS,
            decreases 8 - i,
        {
            memory.push(FP_ONE_BITS);
            i = i + 1;
        }

        let n = instructions.len();
        let r = Tomasulo {
            instructions,
            add_stations,
            mul_stations,
            load_buffers,
            store_buffers,
            registers: RegisterFile::new(),
            f_register_status: RegisterResultStatus::new(),
            memory,
            current_cycle: Cycle::new(0),
            issued: 0,
        };
        proof {
            assert(r.instructions@.len() == n);
            assert(r@ =~= spec_initial(r.instructions@));
            crate::simulator::model::lemma_initial_inv(r.instructions@);
            lemma_initial_tags(r.instructions@);
        }
        r
    }

    /// Does this program meet the engine's input contract
    /// ([`spec_input_ok`])?  Callers that cannot discharge the contract
    /// statically (the decoder does not bound memory operands) check here
    /// and refuse the program instead of constructing the engine.
    pub fn input_ok(instructions: &Vec<Instruction>) -> (r: bool)
        ensures
            r == spec_input_ok(instructions@),
    {
        let mut i: usize = 0;
        while i < instructions.len()
            invariant
                i <= instructions@.len(),
                forall|j: int| 0 <= j < i ==> {
                    let inst = #[trigger] instructions@[j];
                    &&& inst.time.issue is None
                    &&& inst.time.exec_start is None
                    &&& inst.time.completion is None
                    &&& inst.time.write_back is None
                    &&& meta_wf(inst.meta)
                    &&& ((inst.meta.inst_type == InstructionType::LD
                            || inst.meta.inst_type == InstructionType::SD)
                        ==> 0 <= crate::simulator::model::spec_default_int(inst.meta.base->0 as int)
                            + inst.meta.offset->0 < 64)
                },
            decreases instructions@.len() - i,
        {
            let inst = instructions[i];
            if inst.time.issue.is_some() || inst.time.exec_start.is_some()
                || inst.time.completion.is_some() || inst.time.write_back.is_some() {
                return false;
            }
            let m = inst.meta;
            match m.inst_type {
                InstructionType::LD | InstructionType::SD => {
                    let reg = if matches!(m.inst_type, InstructionType::LD) { m.rd } else { m.rs };
                    match (reg, m.base, m.offset) {
                        (Some(r), Some(b), Some(off)) => {
                            if r >= 16 || b >= 32 {
                                return false;
                            }
                            if matches!(m.inst_type, InstructionType::LD) && m.rd.is_none() {
                                return false;
                            }
                            let base_val: i64 = if b == 1 { 16 } else { 0 };
                            let sum = base_val + off as i64;
                            if !(0 <= sum && sum < 64) {
                                return false;
                            }
                        },
                        _ => {
                            return false;
                        },
                    }
                },
                _ => {
                    match (m.rd, m.rs, m.rt) {
                        (Some(d), Some(s1), Some(s2)) => {
                            if d >= 16 || s1 >= 16 || s2 >= 16 {
                                return false;
                            }
                        },
                        _ => {
                            return false;
                        },
                    }
                },
            }
            i = i + 1;
        }
        true
    }

    /// The simulation is complete when every instruction has a write-back
    /// timestamp.
    pub fn all_instructions_done(&self) -> (r: bool)
        ensures
            r == spec_all_done(self@),
    {
        let mut i: usize = 0;
        while i < self.instructions.len()
            invariant
                i <= self.instructions@.len(),
                forall|j: int| 0 <= j < i
                    ==> (#[trigger] self.instructions@[j]).time.write_back is Some,
            decreases self.instructions@.len() - i,
        {
            if self.instructions[i].time.write_back.is_none() {
                return false;
            }
            i = i + 1;
        }
        true
    }

    /// The lowest-numbered free station of an arithmetic pool.
    fn find_free_station(pool: &Vec<ReservationStation>) -> (r: Option<usize>)
        ensures
            match r {
                Some(i) => i < pool@.len() && first_free_station(pool@, 0) == Some(i as int),
                None => first_free_station(pool@, 0) is None,
            },
    {
        let mut i: usize = 0;
        while i < pool.len()
            invariant
                i <= pool@.len(),
                first_free_station(pool@, 0) == first_free_station(pool@, i as int),
            decreases pool@.len() - i,
        {
            if !pool[i].busy {
                return Some(i);
            }
            i = i + 1;
        }
        None
    }

    /// The lowest-numbered free load buffer.
    fn find_free_load(pool: &Vec<LoadBuffer>) -> (r: Option<usize>)
        ensures
            match r {
                Some(i) => i < pool@.len() && first_free_load(pool@, 0) == Some(i as int),
                None => first_free_load(pool@, 0) is None,
            },
    {
        let mut i: usize = 0;
        while i < pool.len()
            invariant
                i <= pool@.len(),
                first_free_load(pool@, 0) == first_free_load(pool@, i as int),
            decreases pool@.len() - i,
        {
            if !pool[i].busy {
                return Some(i);
            }
            i = i + 1;
        }
        None
    }

    /// The lowest-numbered free store buffer.
    fn find_free_store(pool: &Vec<StoreBuffer>) -> (r: Option<usize>)
        ensures
            match r {
                Some(i) => i < pool@.len() && first_free_store(pool@, 0) == Some(i as int),
                None => first_free_store(pool@, 0) is None,
            },
    {
        let mut i: usize = 0;
        while i < pool.len()
            invariant
                i <= pool@.len(),
                first_free_store(pool@, 0) == first_free_store(pool@, i as int),
            decreases pool@.len() - i,
        {
            if !pool[i].busy {
                return Some(i);
            }
            i = i + 1;
        }
        None
    }

    /// Stamp the next instruction as issued this cycle and advance the issue
    /// counter.
    fn mark_issued(&mut self)
        requires
            old(self).issued < old(self).instructions@.len(),
        ensures
            final(self)@ == spec_mark_issued(old(self)@),
    {
        let idx = self.issued;
        let n = self.instructions.len();
        let now = self.current_cycle;
        let inst = &mut self.instructions[idx];
        inst.time.issue = Some(now);
        proof {
            assert(idx < n);
        }
        self.issued = idx + 1;
        proof {
            assert(self@ =~= spec_mark_issued(old(self)@));
        }
    }

    /// The issue stage: consider only the earliest not-yet-issued
    /// instruction; claim a free slot of the matching pool, record ready
    /// operand values or pending-producer tags (the renaming check), claim
    /// the destination register, and stamp the issue cycle.  With no free
    /// slot the stage stalls.
    pub fn issue_stage(&mut self)
        requires
            inv(old(self)@),
            tags_ok(old(self)@),
        ensures
            final(self)@ == spec_issue(old(self)@),
            inv(final(self)@),
            tags_ok(final(self)@),
            final(self).current_cycle == old(self).current_cycle,
            final(self).instructions@.len() == old(self).instructions@.len(),
            forall|i: int| 0 <= i < old(self).instructions@.len()
                ==> time_preserved(
                    old(self).instructions@[i].time,
                    (#[trigger] final(self).instructions@[i]).time,
                ),
            paced(old(self)@, 0) ==> paced(final(self)@, 0),
            paced(old(self)@, 1) ==> paced(final(self)@, 1),
    {
        proof {
            crate::simulator::model::lemma_issue_inv(old(self)@);
            lemma_issue_tags(old(self)@);
            assert forall|i: int| 0 <= i < old(self).instructions@.len() implies
                time_preserved(
                    old(self).instructions@[i].time,
                    (#[trigger] spec_issue(old(self)@).instructions[i]).time,
                ) by {
                lemma_issue_preserves_times(old(self)@, i);
            }
            if old(self).instructions@.len() > 0 {
                lemma_issue_preserves_times(old(self)@, 0);
            }
        }
        if self.issued >= self.instructions.len() {
            return;
        }
        let meta = self.instructions[self.issued].meta;
        proof {
            assert(crate::simulator::model::meta_ok(old(self)@, meta));
        }
        match meta.inst_type {
            InstructionType::LD => {
                match Self::find_free_load(&self.load_buffers) {
                    None => {},
                    Some(i) => {
                        let rd = meta.rd.unwrap();
                        let offset = meta.offset.unwrap();
                        let base = meta.base.unwrap();
                        let name = self.load_buffers[i].name;
                        let idx = self.issued;
                        let lb = &mut self.load_buffers[i];
                        lb.busy = true;
                        lb.dest = Some(rd as usize);
                        lb.offset = Some(offset);
                        lb.base = Some(base as usize);
                        lb.remaining_cycles = Some(Cycle::new(meta.inst_type.exec_cycles()));
                        lb.inst_idx = Some(idx);
                        self.f_register_status.set(rd as usize, name);
                        proof {
                            assert(self@ =~= (State {
                                load_buffers: old(self)@.load_buffers.update(
                                    i as int,
                                    self@.load_buffers[i as int],
                                ),
                                table: old(self)@.table.update(rd as int, Some(name)),
                                ..old(self)@
                            }));
                        }
                        self.mark_issued();
                        proof {
                            assert(self@ =~= spec_issue_load(old(self)@, i as int));
                        }
                    },
                }
            },
            InstructionType::SD => {
                match Self::find_free_store(&self.store_buffers) {
                    None => {},
                    Some(i) => {
                        let rs = meta.rs.unwrap();
                        let base = meta.base.unwrap();
                        let offset = meta.offset.unwrap();
                        let idx = self.issued;
                        let data = match self.f_register_status.get(rs as usize) {
                            Some(t) => StoreData::Waiting(t),
                            None => StoreData::Ready(self.registers.fp[rs as usize]),
                        };
                        let sb = &mut self.store_buffers[i];
                        sb.busy = true;
                        sb.data = Some(data);
                        sb.offset = Some(offset);
                        sb.base = Some(base as usize);
                        sb.remaining_cycles = Some(Cycle::new(meta.inst_type.exec_cycles()));
                        sb.inst_idx = Some(idx);
                        self.mark_issued();
                        proof {
                            assert(self@ =~= spec_issue_store(old(self)@, i as int));
                        }
                    },
                }
            },
            InstructionType::ADDD | InstructionType::SUBD => {
                match Self::find_free_station(&self.add_stations) {
                    None => {},
                    Some(i) => {
                        self.issue_arith(true, i);
                    },
                }
            },
            InstructionType::MULTD | InstructionType::DIVD => {
                match Self::find_free_station(&self.mul_stations) {
                    None => {},
                    Some(i) => {
                        self.issue_arith(false, i);
                    },
                }
            },
        }
    }

    /// Advance one executing slot: record the start on the first eligible
    /// cycle (strictly after issue), count a cycle of work off, and record
    /// completion when the countdown reaches zero.
    fn advance_one(inst: Instruction, rc: Cycle, now: Cycle) -> (r: (Instruction, Cycle))
        requires
            rc.0 > 0,
        ensures
            r == crate::simulator::model::spec_advance(inst, rc, now),
    {
        if inst.time.exec_start.is_none() {
            match inst.time.issue {
                Some(ic) => {
                    if ic.value() < now.value() {
                        let rc2 = Cycle::new(rc.value() - 1);
                        let mut t = inst.time;
                        t.exec_start = Some(now);
                        if rc2.value() == 0 {
                            t.completion = Some(now);
                        }
                        (Instruction { meta: inst.meta, time: t }, rc2)
                    } else {
                        (inst, rc)
                    }
                },
                None => (inst, rc),
            }
        } else {
            let rc2 = Cycle::new(rc.value() - 1);
            let mut t = inst.time;
            if rc2.value() == 0 {
                t.completion = Some(now);
            }
            (Instruction { meta: inst.meta, time: t }, rc2)
        }
    }

    /// Execute-stage step for one arithmetic station.
    fn exec_tick_arith(&mut self, is_add: bool, i: usize)
        requires
            i < (if is_add { old(self).add_stations@ } else { old(self).mul_stations@ }).len(),
        ensures
            final(self)@ == crate::simulator::model::spec_exec_arith(old(self)@, is_add, i as int),
    {
        let st = if is_add { self.add_stations[i] } else { self.mul_stations[i] };
        if st.busy && st.op.is_some() && st.qj.is_none() && st.qk.is_none() {
            if let Some(rc) = st.remaining_cycles {
                if rc.value() > 0 {
                    if let Some(idx) = st.inst_idx {
                        if idx < self.instructions.len() {
                            let now = self.current_cycle;
                            let inst = self.instructions[idx];
                            let (inst2, rc2) = Self::advance_one(inst, rc, now);
                            self.instructions.set(idx, inst2);
                            {
                                let stm = if is_add {
                                    &mut self.add_stations[i]
                                } else {
                                    &mut self.mul_stations[i]
                                };
                                stm.remaining_cycles = Some(rc2);
                            }
                        }
                    }
                }
            }
        }
        proof {
            assert(self@ =~= crate::simulator::model::spec_exec_arith(old(self)@, is_add, i as int));
        }
    }

    /// Execute-stage step for one load buffer.
    fn exec_tick_load(&mut self, i: usize)
        requires
            i < old(self).load_buffers@.len(),
        ensures
            final(self)@ == crate::simulator::model::spec_exec_load(old(self)@, i as int),
    {
        let lb = self.load_buffers[i];
        if let Some(rc) = lb.remaining_cycles {
            if rc.value() > 0 {
                if let Some(idx) = lb.inst_idx {
                    if idx < self.instructions.len() {
                        let now = self.current_cycle;
                        let inst = self.instructions[idx];
                        let (inst2, rc2) = Self::advance_one(inst, rc, now);
                        self.instructions.set(idx, inst2);
                        self.load_buffers[i].remaining_cycles = Some(rc2);
                    }
                }
            }
        }
        proof {
            assert(self@ =~= crate::simulator::model::spec_exec_load(old(self)@, i as int));
        }
    }

    /// Execute-stage step for one store buffer.
    fn exec_tick_store(&mut self, i: usize)
        requires
            i < old(self).store_buffers@.len(),
        ensures
            final(self)@ == crate::simulator::model::spec_exec_store(old(self)@, i as int),
    {
        let sb = self.store_buffers[i];
        if sb.busy {
            if let Some(rc) = sb.remaining_cycles {
                if rc.value() > 0 {
                    if let Some(idx) = sb.inst_idx {
                        if idx < self.instructions.len() {
                            let now = self.current_cycle;
                            let inst = self.instructions[idx];
                            let (inst2, rc2) = Self::advance_one(inst, rc, now);
                            self.instructions.set(idx, inst2);
                            self.store_buffers[i].remaining_cycles = Some(rc2);
                        }
                    }
                }
            }
        }
        proof {
            assert(self@ =~= crate::simulator::model::spec_exec_store(old(self)@, i as int));
        }
    }

    /// The execute stage: every busy slot whose operands are fully ready
    /// advances; store buffers need only their address operands, which are
    /// ready from issue onward.
    pub fn execute_stage(&mut self)
        requires
            inv(old(self)@),
            tags_ok(old(self)@),
            paced(old(self)@, 1),
        ensures
            final(self)@ == crate::simulator::model::spec_execute(old(self)@),
            inv(final(self)@),
            tags_ok(final(self)@),
            final(self).current_cycle == old(self).current_cycle,
            final(self).instructions@.len() == old(self).instructions@.len(),
            forall|i: int| 0 <= i < old(self).instructions@.len()
                ==> time_preserved(
                    old(self).instructions@[i].time,
                    (#[trigger] final(self).instructions@[i]).time,
                ),
            paced(final(self)@, 0),
    {
        proof {
            crate::simulator::model::lemma_execute_inv(old(self)@);
            lemma_execute_tags(old(self)@);
            assert forall|i: int| 0 <= i < old(self).instructions@.len() implies
                time_preserved(
                    old(self).instructions@[i].time,
                    (#[trigger] crate::simulator::model::spec_execute(old(self)@).instructions[i]).time,
                ) by {
                lemma_execute_preserves_times(old(self)@, i);
            }
            if old(self).instructions@.len() > 0 {
                lemma_execute_preserves_times(old(self)@, 0);
            }
        }
        self.exec_tick_arith(true, 0);
        self.exec_tick_arith(true, 1);
        self.exec_tick_arith(true, 2);
        self.exec_tick_arith(false, 0);
        self.exec_tick_arith(false, 1);
        self.exec_tick_load(0);
        self.exec_tick_load(1);
        self.exec_tick_store(0);
        self.exec_tick_store(1);
    }

    /// Is the slot with the given flags a write-back candidate this cycle?
    fn is_candidate(&self, busy: bool, inst_idx: Option<usize>) -> (r: bool)
        ensures
            r == spec_candidate(self@, busy, inst_idx),
    {
        if !busy {
            return false;
        }
        match inst_idx {
            None => false,
            Some(idx) => {
                if idx >= self.instructions.len() {
                    return false;
                }
                let t = self.instructions[idx].time;
                match t.completion {
                    None => false,
                    Some(cc) => cc.value() < self.current_cycle.value() && t.write_back.is_none(),
                }
            },
        }
    }

    /// Append the request of one arithmetic station, if it is a candidate.
    fn push_req(&self, reqs: &mut Vec<AluRequest>, is_add: bool, i: usize)
        requires
            inv(self@),
            i < (if is_add { self.add_stations@ } else { self.mul_stations@ }).len(),
        ensures
            final(reqs)@ == old(reqs)@ + spec_req_one(self@, is_add, i as int),
    {
        let st = if is_add { self.add_stations[i] } else { self.mul_stations[i] };
        if self.is_candidate(st.busy, st.inst_idx) {
            proof {
                assert(station_ok(self@, is_add, i as int));
            }
            let a = match st.vj {
                Some(v) => v,
                None => 0,
            };
            let b = match st.vk {
                Some(v) => v,
                None => 0,
            };
            reqs.push(AluRequest { op: st.op.unwrap(), a, b });
            proof {
                assert(reqs@ =~= old(reqs)@ + spec_req_one(self@, is_add, i as int));
            }
        } else {
            proof {
                assert(reqs@ =~= old(reqs)@ + spec_req_one(self@, is_add, i as int));
            }
        }
    }

    /// The arithmetic operations whose results this cycle's write-back will
    /// consume, in fixed scan order.  The caller computes each result and
    /// hands the words back to [`Tomasulo::writeback_stage`].
    pub fn alu_requests(&self) -> (r: Vec<AluRequest>)
        requires
            inv(self@),
        ensures
            r@ == spec_wb_requests(self@),
    {
        let mut reqs: Vec<AluRequest> = Vec::new();
        self.push_req(&mut reqs, true, 0);
        self.push_req(&mut reqs, true, 1);
        self.push_req(&mut reqs, true, 2);
        self.push_req(&mut reqs, false, 0);
        self.push_req(&mut reqs, false, 1);
        proof {
            assert(reqs@ =~= spec_wb_requests(self@));
        }
        reqs
    }

    /// Write-back scan step for one arithmetic station.
    fn wb_scan_arith(
        &mut self,
        is_add: bool,
        i: usize,
        results: &Vec<u64>,
        k: &mut usize,
        bl: &mut Vec<Broadcast>,
        rel: &mut Vec<Tag>,
    )
        requires
            i < (if is_add { old(self).add_stations@ } else { old(self).mul_stations@ }).len(),
            *old(k) < usize::MAX,
            ({
                let st = (if is_add { old(self).add_stations@ } else { old(self).mul_stations@ })[i as int];
                spec_candidate(old(self)@, st.busy, st.inst_idx)
                    ==> old(self).instructions@[st.inst_idx->0 as int].meta.rd is Some
            }),
        ensures
            ({
                let acc = WbScan {
                    s: old(self)@,
                    bl: old(bl)@,
                    rel: old(rel)@,
                    k: *old(k) as int,
                };
                let acc2 = spec_wb_arith(acc, results@, is_add, i as int);
                &&& final(self)@ == acc2.s
                &&& final(bl)@ == acc2.bl
                &&& final(rel)@ == acc2.rel
                &&& *final(k) as int == acc2.k
            }),
            *final(k) <= *old(k) + 1,
    {
        let st = if is_add { self.add_stations[i] } else { self.mul_stations[i] };
        if self.is_candidate(st.busy, st.inst_idx) {
            let idx = st.inst_idx.unwrap();
            let inst = self.instructions[idx];
            let val = if *k < results.len() { results[*k] } else { 0 };
            let dest = inst.meta.rd.unwrap() as usize;
            let now = self.current_cycle;
            let mut t = inst.time;
            t.write_back = Some(now);
            self.instructions.set(idx, Instruction { meta: inst.meta, time: t });
            {
                let stm = if is_add { &mut self.add_stations[i] } else { &mut self.mul_stations[i] };
                stm.remaining_cycles = None;
            }
            bl.push(Broadcast { tag: st.name, val, dest });
            rel.push(st.name);
            *k = *k + 1;
            proof {
                let acc = WbScan {
                    s: old(self)@,
                    bl: old(bl)@,
                    rel: old(rel)@,
                    k: *old(k) as int,
                };
                let acc2 = spec_wb_arith(acc, results@, is_add, i as int);
                assert(self@ =~= acc2.s);
            }
        }
    }

    /// Write-back scan step for one load buffer.
    fn wb_scan_load(&mut self, i: usize, bl: &mut Vec<Broadcast>, rel: &mut Vec<Tag>)
        requires
            i < old(self).load_buffers@.len(),
            ({
                let lb = old(self).load_buffers@[i as int];
                spec_candidate(old(self)@, lb.busy, lb.inst_idx) ==> {
                    &&& lb.dest is Some
                    &&& lb.base matches Some(b) && b < old(self).registers.int@.len()
                    &&& lb.offset is Some
                    &&& 0 <= old(self).registers.int@[lb.base->0 as int] + lb.offset->0
                        <= i32::MAX
                }
            }),
        ensures
            ({
                let acc = WbScan { s: old(self)@, bl: old(bl)@, rel: old(rel)@, k: 0 };
                let acc2 = spec_wb_load(acc, i as int);
                &&& final(self)@ == acc2.s
                &&& final(bl)@ == acc2.bl
                &&& final(rel)@ == acc2.rel
            }),
    {
        let lb = self.load_buffers[i];
        if self.is_candidate(lb.busy, lb.inst_idx) {
            let idx = lb.inst_idx.unwrap();
            let inst = self.instructions[idx];
            let base = lb.base.unwrap();
            let offset = lb.offset.unwrap();
            let sum = self.registers.int[base] + offset;
            let addr = (sum as usize) / 8;
            let val = if addr < self.memory.len() { self.memory[addr] } else { 0 };
            let dest = lb.dest.unwrap();
            let now = self.current_cycle;
            let mut t = inst.time;
            t.write_back = Some(now);
            self.instructions.set(idx, Instruction { meta: inst.meta, time: t });
            self.load_buffers[i].remaining_cycles = None;
            bl.push(Broadcast { tag: lb.name, val, dest });
            rel.push(lb.name);
            proof {
                let acc = WbScan { s: old(self)@, bl: old(bl)@, rel: old(rel)@, k: 0 };
                let acc2 = spec_wb_load(acc, i as int);
                assert(self@ =~= acc2.s);
                assert(bl@ =~= acc2.bl);
            }
        }
    }

    /// Write-back scan step for one store buffer: a store whose datum is
    /// still pending is skipped and retried next cycle.
    fn wb_scan_store(&mut self, i: usize, rel: &mut Vec<Tag>)
        requires
            i < old(self).store_buffers@.len(),
            ({
                let sb = old(self).store_buffers@[i as int];
                spec_candidate(old(self)@, sb.busy, sb.inst_idx)
                    && (sb.data matches Some(StoreData::Ready(_))) ==> {
                    &&& sb.base matches Some(b) && b < old(self).registers.int@.len()
                    &&& sb.offset is Some
                    &&& 0 <= old(self).registers.int@[sb.base->0 as int] + sb.offset->0
                        <= i32::MAX
                }
            }),
        ensures
            ({
                let acc = WbScan { s: old(self)@, bl: Seq::empty(), rel: old(rel)@, k: 0 };
                let acc2 = spec_wb_store(acc, i as int);
                &&& final(self)@ == acc2.s
                &&& final(rel)@ == acc2.rel
            }),
    {
        let sb = self.store_buffers[i];
        if self.is_candidate(sb.busy, sb.inst_idx) {
            match sb.data {
                Some(StoreData::Ready(v)) => {
                    let idx = sb.inst_idx.unwrap();
                    let inst = self.instructions[idx];
                    let base = sb.base.unwrap();
                    let offset = sb.offset.unwrap();
                    let sum = self.registers.int[base] + offset;
                    let addr = (sum as usize) / 8;
                    if addr < self.memory.len() {
                        self.memory.set(addr, v);
                    }
                    let now = self.current_cycle;
                    let mut t = inst.time;
                    t.write_back = Some(now);
                    self.instructions.set(idx, Instruction { meta: inst.meta, time: t });
                    self.store_buffers[i].remaining_cycles = None;
                    rel.push(sb.name);
                    proof {
                        let acc = WbScan { s: old(self)@, bl: Seq::empty(), rel: old(rel)@, k: 0 };
                        let acc2 = spec_wb_store(acc, i as int);
                        assert(self@ =~= acc2.s);
                    }
                },
                _ => {},
            }
        }
    }

    /// Resolve one station's pending tags against a broadcast.
    fn resolve_station_one(st: ReservationStation, b: Broadcast) -> (r: ReservationStation)
        ensures
            r == spec_resolve_station(st, b),
    {
        let mut s2 = st;
        let qj_hit = match s2.qj {
            Some(t) => t == b.tag,
            None => false,
        };
        if qj_hit {
            s2.qj = None;
            s2.vj = Some(b.val);
        }
        let qk_hit = match s2.qk {
            Some(t) => t == b.tag,
            None => false,
        };
        if qk_hit {
            s2.qk = None;
            s2.vk = Some(b.val);
        }
        s2
    }

    /// Resolve one store buffer's pending datum against a broadcast.
    fn resolve_store_one(sb: StoreBuffer, b: Broadcast) -> (r: StoreBuffer)
        ensures
            r == spec_resolve_store(sb, b),
    {
        let mut s2 = sb;
        let hit = match s2.data {
            Some(StoreData::Waiting(t)) => t == b.tag,
            _ => false,
        };
        if hit {
            s2.data = Some(StoreData::Ready(b.val));
        }
        s2
    }

    /// Apply one broadcast: update the architectural register only if the
    /// renaming table still names this producer, and deliver the value to
    /// every waiting consumer.
    fn apply_one_broadcast(&mut self, b: Broadcast)
        ensures
            final(self)@ == spec_apply_bcast(old(self)@, b),
    {
        if b.dest < self.f_register_status.table.len() && b.dest < self.registers.fp.len() {
            let hit = match self.f_register_status.table[b.dest] {
                Some(t) => t == b.tag,
                None => false,
            };
            if hit {
                self.registers.fp.set(b.dest, b.val);
                self.f_register_status.table.set(b.dest, None);
            }
        }
        let mut i: usize = 0;
        while i < self.add_stations.len()
            invariant
                i <= self.add_stations@.len(),
                self.add_stations@.len() == old(self).add_stations@.len(),
                forall|j: int| 0 <= j < i ==> #[trigger] self.add_stations@[j]
                    == spec_resolve_station(old(self).add_stations@[j], b),
                forall|j: int| i <= j < self.add_stations@.len()
                    ==> #[trigger] self.add_stations@[j] == old(self).add_stations@[j],
                self.instructions@ == old(self).instructions@,
                self.mul_stations@ == old(self).mul_stations@,
                self.load_buffers@ == old(self).load_buffers@,
                self.store_buffers@ == old(self).store_buffers@,
                self.registers.fp@ == spec_apply_bcast(old(self)@, b).fp,
                self.registers.int@ == old(self).registers.int@,
                self.f_register_status.table@ == spec_apply_bcast(old(self)@, b).table,
                self.memory@ == old(self).memory@,
                self.current_cycle == old(self).current_cycle,
                self.issued == old(self).issued,
            decreases self.add_stations@.len() - i,
        {
            let st = self.add_stations[i];
            let st2 = Self::resolve_station_one(st, b);
            self.add_stations.set(i, st2);
            i = i + 1;
        }
        let mut i2: usize = 0;
        while i2 < self.mul_stations.len()
            invariant
                i2 <= self.mul_stations@.len(),
                self.mul_stations@.len() == old(self).mul_stations@.len(),
                forall|j: int| 0 <= j < i2 ==> #[trigger] self.mul_stations@[j]
                    == spec_resolve_station(old(self).mul_stations@[j], b),
                forall|j: int| i2 <= j < self.mul_stations@.len()
                    ==> #[trigger] self.mul_stations@[j] == old(self).mul_stations@[j],
                self.instructions@ == old(self).instructions@,
                self.add_stations@ == spec_apply_bcast(old(self)@, b).add_stations,
                self.load_buffers@ == old(self).load_buffers@,
                self.store_buffers@ == old(self).store_buffers@,
                self.registers.fp@ == spec_apply_bcast(old(self)@, b).fp,
                self.registers.int@ == old(self).registers.int@,
                self.f_register_status.table@ == spec_apply_bcast(old(self)@, b).table,
                self.memory@ == old(self).memory@,
                self.current_cycle == old(self).current_cycle,
                self.issued == old(self).issued,
            decreases self.mul_stations@.len() - i2,
        {
            let st = self.mul_stations[i2];
            let st2 = Self::resolve_station_one(st, b);
            self.mul_stations.set(i2, st2);
            i2 = i2 + 1;
        }
        let mut i3: usize = 0;
        while i3 < self.store_buffers.len()
            invariant
                i3 <= self.store_buffers@.len(),
                self.store_buffers@.len() == old(self).store_buffers@.len(),
                forall|j: int| 0 <= j < i3 ==> #[trigger] self.store_buffers@[j]
                    == spec_resolve_store(old(self).store_buffers@[j], b),
                forall|j: int| i3 <= j < self.store_buffers@.len()
                    ==> #[trigger] self.store_buffers@[j] == old(self).store_buffers@[j],
                self.instructions@ == old(self).instructions@,
                self.add_stations@ == spec_apply_bcast(old(self)@, b).add_stations,
                self.mul_stations@ == spec_apply_bcast(old(self)@, b).mul_stations,
                self.load_buffers@ == old(self).load_buffers@,
                self.registers.fp@ == spec_apply_bcast(old(self)@, b).fp,
                self.registers.int@ == old(self).registers.int@,
                self.f_register_status.table@ == spec_apply_bcast(old(self)@, b).table,
                self.memory@ == old(self).memory@,
                self.current_cycle == old(self).current_cycle,
                self.issued == old(self).issued,
            decreases self.store_buffers@.len() - i3,
        {
            let sb = self.store_buffers[i3];
            let sb2 = Self::resolve_store_one(sb, b);
            self.store_buffers.set(i3, sb2);
            i3 = i3 + 1;
        }
        proof {
            assert(self.add_stations@
                =~= old(self).add_stations@.map_values(
                    |st: ReservationStation| spec_resolve_station(st, b),
                ));
            assert(self.mul_stations@
                =~= old(self).mul_stations@.map_values(
                    |st: ReservationStation| spec_resolve_station(st, b),
                ));
            assert(self.store_buffers@
                =~= old(self).store_buffers@.map_values(
                    |sb: StoreBuffer| spec_resolve_store(sb, b),
                ));
            assert(self@ =~= spec_apply_bcast(old(self)@, b));
        }
    }

    /// Start the countdown of one arithmetic station whose operands have
    /// just become ready.
    fn rearm_one(&mut self, is_add: bool, i: usize)
        requires
            i < (if is_add { old(self).add_stations@ } else { old(self).mul_stations@ }).len(),
        ensures
            final(self)@ == spec_rearm(old(self)@, is_add, i as int),
    {
        let st = if is_add { self.add_stations[i] } else { self.mul_stations[i] };
        if st.busy && st.op.is_some() && st.qj.is_none() && st.qk.is_none()
            && st.remaining_cycles.is_none() {
            if let Some(idx) = st.inst_idx {
                if idx < self.instructions.len() {
                    let lat = self.instructions[idx].meta.inst_type.exec_cycles();
                    let stm = if is_add { &mut self.add_stations[i] } else { &mut self.mul_stations[i] };
                    stm.remaining_cycles = Some(Cycle::new(lat));
                }
            }
        }
        proof {
            assert(self@ =~= spec_rearm(old(self)@, is_add, i as int));
        }
    }

    /// Release the slot carrying the given name: reset it to empty, making
    /// it available for future issue.
    pub fn release_station(&mut self, station_name: Tag)
        ensures
            final(self)@ == spec_release(old(self)@, station_name),
    {
        if self.add_stations.len() > 0 && self.add_stations[0].name == station_name {
            self.add_stations[0].clear();
        } else if self.add_stations.len() > 1 && self.add_stations[1].name == station_name {
            self.add_stations[1].clear();
        } else if self.add_stations.len() > 2 && self.add_stations[2].name == station_name {
            self.add_stations[2].clear();
        } else if self.mul_stations.len() > 0 && self.mul_stations[0].name == station_name {
            self.mul_stations[0].clear();
        } else if self.mul_stations.len() > 1 && self.mul_stations[1].name == station_name {
            self.mul_stations[1].clear();
        } else if self.load_buffers.len() > 0 && self.load_buffers[0].name == station_name {
            self.load_buffers[0].clear();
        } else if self.load_buffers.len() > 1 && self.load_buffers[1].name == station_name {
            self.load_buffers[1].clear();
        } else if self.store_buffers.len() > 0 && self.store_buffers[0].name == station_name {
            self.store_buffers[0].clear();
        } else if self.store_buffers.len() > 1 && self.store_buffers[1].name == station_name {
            self.store_buffers[1].clear();
        }
        proof {
            assert(self@ =~= spec_release(old(self)@, station_name));
        }
    }

    /// The arithmetic half of the write-back scan.
    #[verifier::rlimit(60)]
    #[verifier::spinoff_prover]
    fn wb_scan_arith_all(&mut self, results: &Vec<u64>, bl: &mut Vec<Broadcast>, rel: &mut Vec<Tag>)
        requires
            inv(old(self)@),
            old(bl)@.len() == 0,
            old(rel)@.len() == 0,
        ensures
            ({
                let a = crate::simulator::model::spec_wb_scan_arith(old(self)@, results@);
                &&& final(self)@ == a.s
                &&& final(bl)@ == a.bl
                &&& final(rel)@ == a.rel
                &&& scan_rel(old(self)@, a, 5)
            }),
    {
        let ghost s0 = old(self)@;
        let mut k: usize = 0;
        let ghost a0 = WbScan { s: s0, bl: Seq::empty(), rel: Seq::empty(), k: 0 };
        proof {
            assert(old(bl)@ =~= a0.bl);
            assert(old(rel)@ =~= a0.rel);
            assert forall|j: int| 0 <= j < s0.instructions.len() implies
                #[trigger] a0.s.instructions[j] == (
                    if crate::simulator::model::owned_released(s0, j, 0) {
                        crate::simulator::model::spec_stamped(s0, j)
                    } else {
                        s0.instructions[j]
                    }
                ) by {
                assert(!crate::simulator::model::owned_released(s0, j, 0));
            }
            assert(scan_rel(s0, a0, 0));
        }
        let ghost mut acc = a0;
        proof {
            self.wb_arith_pre(s0, acc, true, 0);
        }
        self.wb_scan_arith(true, 0, results, &mut k, bl, rel);
        proof {
            lemma_scan_step_arith(s0, acc, results@, true, 0);
            acc = crate::simulator::model::spec_wb_arith(acc, results@, true, 0);
            self.wb_arith_pre(s0, acc, true, 1);
        }
        self.wb_scan_arith(true, 1, results, &mut k, bl, rel);
        proof {
            lemma_scan_step_arith(s0, acc, results@, true, 1);
            acc = crate::simulator::model::spec_wb_arith(acc, results@, true, 1);
            self.wb_arith_pre(s0, acc, true, 2);
        }
        self.wb_scan_arith(true, 2, results, &mut k, bl, rel);
        proof {
            lemma_scan_step_arith(s0, acc, results@, true, 2);
            acc = crate::simulator::model::spec_wb_arith(acc, results@, true, 2);
            self.wb_arith_pre(s0, acc, false, 0);
        }
        self.wb_scan_arith(false, 0, results, &mut k, bl, rel);
        proof {
            lemma_scan_step_arith(s0, acc, results@, false, 0);
            acc = crate::simulator::model::spec_wb_arith(acc, results@, false, 0);
            self.wb_arith_pre(s0, acc, false, 1);
        }
        self.wb_scan_arith(false, 1, results, &mut k, bl, rel);
        proof {
            lemma_scan_step_arith(s0, acc, results@, false, 1);
        }
    }

    /// The memory half of the write-back scan: the load buffers, then the
    /// store buffers.
    #[verifier::rlimit(60)]
    #[verifier::spinoff_prover]
    fn wb_scan_mem_all(
        &mut self,
        Ghost(s0): Ghost<State>,
        Ghost(acc): Ghost<WbScan>,
        bl: &mut Vec<Broadcast>,
        rel: &mut Vec<Tag>,
    )
        requires
            inv(s0),
            scan_rel(s0, acc, 5),
            acc.s == old(self)@,
            acc.bl == old(bl)@,
            acc.rel == old(rel)@,
        ensures
            ({
                let a6 = spec_wb_load(acc, 0);
                let a7 = spec_wb_load(a6, 1);
                let a8 = spec_wb_store(a7, 0);
                let a9 = spec_wb_store(a8, 1);
                &&& final(self)@ == a9.s
                &&& final(bl)@ == a9.bl
                &&& final(rel)@ == a9.rel
            }),
    {
        let ghost mut a = acc;
        proof {
            self.wb_load_pre(s0, a, 0);
        }
        self.wb_scan_load(0, bl, rel);
        proof {
            lemma_scan_step_load(s0, a, 0);
            a = spec_wb_load(a, 0);
            self.wb_load_pre(s0, a, 1);
        }
        self.wb_scan_load(1, bl, rel);
        proof {
            lemma_scan_step_load(s0, a, 1);
            a = spec_wb_load(a, 1);
            self.wb_store_pre(s0, a, 0);
        }
        self.wb_scan_store(0, rel);
        proof {
            lemma_scan_step_store(s0, a, 0);
            a = spec_wb_store(a, 0);
            self.wb_store_pre(s0, a, 1);
        }
        self.wb_scan_store(1, rel);
    }

    /// Apply a whole cycle's broadcasts as one batch, in queue order.
    fn apply_broadcasts_exec(&mut self, bl: &Vec<Broadcast>)
        ensures
            final(self)@ == spec_apply_bcasts(old(self)@, bl@),
    {
        let ghost s_scan = self@;
        let ghost blv = bl@;
        let mut bi: usize = 0;
        proof {
            assert(blv.skip(0) =~= blv);
        }
        while bi < bl.len()
            invariant
                bi <= blv.len(),
                bl@ == blv,
                spec_apply_bcasts(s_scan, blv) == spec_apply_bcasts(self@, blv.skip(bi as int)),
            decreases blv.len() - bi,
        {
            let b = bl[bi];
            proof {
                assert(blv.skip(bi as int)[0] == b);
                assert(blv.skip(bi as int).drop_first() =~= blv.skip(bi as int + 1));
            }
            self.apply_one_broadcast(b);
            bi = bi + 1;
        }
        proof {
            assert(blv.skip(blv.len() as int) =~= Seq::<Broadcast>::empty());
        }
    }

    /// Release every slot in the batch, in queue order.
    fn release_all_exec(&mut self, rel: &Vec<Tag>)
        ensures
            final(self)@ == spec_releases(old(self)@, rel@),
    {
        let ghost s_c = self@;
        let ghost relv = rel@;
        let mut ri: usize = 0;
        proof {
            assert(relv.skip(0) =~= relv);
        }
        while ri < rel.len()
            invariant
                ri <= relv.len(),
                rel@ == relv,
                spec_releases(s_c, relv) == spec_releases(self@, relv.skip(ri as int)),
            decreases relv.len() - ri,
        {
            let t = rel[ri];
            proof {
                assert(relv.skip(ri as int)[0] == t);
                assert(relv.skip(ri as int).drop_first() =~= relv.skip(ri as int + 1));
            }
            self.release_station(t);
            ri = ri + 1;
        }
        proof {
            assert(relv.skip(relv.len() as int) =~= Seq::<Tag>::empty());
        }
    }

    /// The write-back stage.  `results` holds one 64-bit word for each
    /// request reported by [`Tomasulo::alu_requests`] on the same state, in
    /// order.  Candidates are evaluated against a consistent pre-broadcast
    /// snapshot, all broadcasts are applied as one batch, countdowns that
    /// became ready are started, and only then are the finished slots
    /// released.
    pub fn writeback_stage(&mut self, results: &Vec<u64>)
        requires
            inv(old(self)@),
            tags_ok(old(self)@),
            results@.len() == spec_wb_requests(old(self)@).len(),
        ensures
            final(self)@ == spec_writeback(old(self)@, results@),
            inv(final(self)@),
            tags_ok(final(self)@),
            final(self).current_cycle == old(self).current_cycle,
            final(self).instructions@.len() == old(self).instructions@.len(),
            forall|i: int| 0 <= i < old(self).instructions@.len()
                ==> time_preserved(
                    old(self).instructions@[i].time,
                    (#[trigger] final(self).instructions@[i]).time,
                ),
            paced(old(self)@, 0) ==> paced(final(self)@, 0),
            paced(old(self)@, 1) ==> paced(final(self)@, 1),
    {
        let ghost s0 = old(self)@;
        proof {
            lemma_writeback_inv(s0, results@);
            lemma_writeback_tags(s0, results@);
            assert forall|i: int| 0 <= i < s0.instructions.len() implies
                time_preserved(
                    s0.instructions[i].time,
                    (#[trigger] spec_writeback(s0, results@).instructions[i]).time,
                ) by {
                lemma_writeback_preserves_times(s0, results@, i);
            }
            if s0.instructions.len() > 0 {
                lemma_writeback_preserves_times(s0, results@, 0);
            }
        }
        let mut bl: Vec<Broadcast> = Vec::new();
        let mut rel: Vec<Tag> = Vec::new();
        self.wb_scan_arith_all(results, &mut bl, &mut rel);
        let ghost a5 = crate::simulator::model::spec_wb_scan_arith(s0, results@);
        self.wb_scan_mem_all(Ghost(s0), Ghost(a5), &mut bl, &mut rel);
        proof {
            let a = spec_wb_scan(s0, results@);
            assert(self@ == a.s && bl@ == a.bl && rel@ == a.rel);
            crate::simulator::model::lemma_scan_rel(s0, results@);
            lemma_bcasts_rel(a.s, a.bl);
        }
        self.apply_broadcasts_exec(&bl);
        self.rearm_one(true, 0);
        self.rearm_one(true, 1);
        self.rearm_one(true, 2);
        self.rearm_one(false, 0);
        self.rearm_one(false, 1);
        proof {
            let a = spec_wb_scan(s0, results@);
            assert(self@ == crate::simulator::model::spec_rearm_all(
                spec_apply_bcasts(a.s, a.bl),
            ));
        }
        self.release_all_exec(&rel);
    }

    /// Derive the scan-step precondition for an arithmetic station from the
    /// starting invariant.
    proof fn wb_arith_pre(&self, s0: State, acc: WbScan, is_add: bool, i: int)
        requires
            inv(s0),
            scan_rel(s0, acc, if is_add { i } else { 3 + i }),
            0 <= i < (if is_add { s0.add_stations } else { s0.mul_stations }).len(),
            self@ == acc.s,
        ensures
            ({
                let st = (if is_add { self.add_stations@ } else { self.mul_stations@ })[i];
                spec_candidate(self@, st.busy, st.inst_idx)
                    ==> self.instructions@[st.inst_idx->0 as int].meta.rd is Some
            }),
    {
        let u = if is_add { i } else { 3 + i };
        lemma_scan_unreached(s0, acc, u);
        let st = (if is_add { s0.add_stations } else { s0.mul_stations })[i];
        assert((if is_add { self.add_stations@ } else { self.mul_stations@ })[i] == st);
        if spec_candidate(self@, st.busy, st.inst_idx) {
            assert(spec_candidate(s0, st.busy, st.inst_idx));
            assert(station_ok(s0, is_add, i));
            let idx = st.inst_idx->0 as int;
            assert(meta_ok(s0, s0.instructions[idx].meta));
            assert(self@.instructions[idx].meta == s0.instructions[idx].meta);
        }
    }

    /// Derive the scan-step precondition for a load buffer from the starting
    /// invariant.
    proof fn wb_load_pre(&self, s0: State, acc: WbScan, i: int)
        requires
            inv(s0),
            scan_rel(s0, acc, 5 + i),
            0 <= i < s0.load_buffers.len(),
            self@ == acc.s,
        ensures
            ({
                let lb = self.load_buffers@[i];
                spec_candidate(self@, lb.busy, lb.inst_idx) ==> {
                    &&& lb.dest is Some
                    &&& lb.base matches Some(b) && b < self.registers.int@.len()
                    &&& lb.offset is Some
                    &&& 0 <= self.registers.int@[lb.base->0 as int] + lb.offset->0 <= i32::MAX
                }
            }),
    {
        let u = 5 + i;
        lemma_scan_unreached(s0, acc, u);
        let lb = s0.load_buffers[i];
        assert(self.load_buffers@[i] == lb);
        if spec_candidate(self@, lb.busy, lb.inst_idx) {
            assert(spec_candidate(s0, lb.busy, lb.inst_idx));
            assert(load_ok(s0, i));
            let idx = lb.inst_idx->0 as int;
            assert(meta_ok(s0, s0.instructions[idx].meta));
        }
    }

    /// Derive the scan-step precondition for a store buffer from the
    /// starting invariant.
    proof fn wb_store_pre(&self, s0: State, acc: WbScan, i: int)
        requires
            inv(s0),
            scan_rel(s0, acc, 7 + i),
            0 <= i < s0.store_buffers.len(),
            self@ == acc.s,
        ensures
            ({
                let sb = self.store_buffers@[i];
                spec_candidate(self@, sb.busy, sb.inst_idx)
                    && (sb.data matches Some(StoreData::Ready(_))) ==> {
                    &&& sb.base matches Some(b) && b < self.registers.int@.len()
                    &&& sb.offset is Some
                    &&& 0 <= self.registers.int@[sb.base->0 as int] + sb.offset->0 <= i32::MAX
                }
            }),
    {
        let u = 7 + i;
        lemma_scan_unreached(s0, acc, u);
        let sb = s0.store_buffers[i];
        assert(self.store_buffers@[i] == sb);
        if spec_candidate(self@, sb.busy, sb.inst_idx) {
            assert(spec_candidate(s0, sb.busy, sb.inst_idx));
            assert(store_ok(s0, i));
            let idx = sb.inst_idx->0 as int;
            assert(meta_ok(s0, s0.instructions[idx].meta));
        }
    }

    /// The indices of the instructions still lacking write-back, ascending.
    pub fn unfinished(&self) -> (r: Vec<usize>)
        ensures
            r@ == spec_unfinished(self.instructions@),
    {
        let mut r: Vec<usize> = Vec::new();
        let mut i: usize = 0;
        while i < self.instructions.len()
            invariant
                i <= self.instructions@.len(),
                r@ == spec_unfinished(self.instructions@.subrange(0, i as int)),
            decreases self.instructions@.len() - i,
        {
            let ghost pre = self.instructions@.subrange(0, i as int);
            if self.instructions[i].time.write_back.is_none() {
                r.push(i);
            }
            i = i + 1;
            proof {
                let cur = self.instructions@.subrange(0, i as int);
                assert(cur.drop_last() =~= pre);
                assert(cur.last() == self.instructions@[i - 1]);
            }
        }
        proof {
            assert(self.instructions@.subrange(0, self.instructions@.len() as int)
                =~= self.instructions@);
        }
        r
    }

    /// Run the simulation to completion or to the safety cap: each cycle
    /// advances the clock, then runs issue, execute, and write-back in that
    /// fixed order, asking `fp_unit` for the arithmetic results the
    /// write-back needs.  The final state is exactly a fold of those
    /// per-cycle transitions over the delivered result words
    /// ([`spec_run_from`]); together with the completion and cap clauses
    /// this pins the run down to the simulation itself.  On a cap halt the
    /// outcome names every instruction still lacking write-back.
    pub fn run<F: FpUnit>(&mut self, fp_unit: &mut F) -> (r: RunOutcome)
        requires
            inv(old(self)@),
            tags_ok(old(self)@),
            paced(old(self)@, 0),
            old(self).current_cycle.0 <= MAX_CYCLES,
        ensures
            inv(final(self)@),
            tags_ok(final(self)@),
            exists|rss: Seq<Seq<u64>>|
                final(self)@ == #[trigger] spec_run_from(old(self)@, rss),
            final(self).instructions@.len() == old(self).instructions@.len(),
            forall|i: int| 0 <= i < old(self).instructions@.len()
                ==> time_preserved(
                    old(self).instructions@[i].time,
                    (#[trigger] final(self).instructions@[i]).time,
                ),
            r.completed == spec_all_done(final(self)@),
            r.completed ==> r.blocked@.len() == 0,
            !r.completed ==> final(self).current_cycle.0 > MAX_CYCLES
                && r.blocked@ == spec_unfinished(final(self).instructions@),
    {
        let ghost s0 = old(self)@;
        let ghost mut rss: Seq<Seq<u64>> = Seq::empty();
        proof {
            assert(spec_run_from(s0, rss) == s0);
        }
        loop
            invariant
                inv(self@),
                tags_ok(self@),
                paced(self@, 0),
                self.current_cycle.0 <= MAX_CYCLES,
                s0 == old(self)@,
                self@ == spec_run_from(s0, rss),
                self.instructions@.len() == s0.instructions.len(),
                forall|i: int| 0 <= i < s0.instructions.len()
                    ==> time_preserved(
                        s0.instructions[i].time,
                        (#[trigger] self.instructions@[i]).time,
                    ),
            decreases MAX_CYCLES + 1 - self.current_cycle.0,
        {
            if self.all_instructions_done() {
                return RunOutcome { completed: true, blocked: Vec::new() };
            }
            let ghost t = self@;
            proof {
                lemma_clock_advance(self@);
            }
            self.current_cycle = self.current_cycle.next();
            proof {
                assert(self@ =~= spec_advance_clock(t));
            }
            if self.current_cycle.value() > MAX_CYCLES {
                proof {
                    lemma_run_from_snoc(s0, rss, Seq::empty());
                    rss = rss.push(Seq::empty());
                    assert(self@ == spec_run_from(s0, rss));
                }
                let blocked = self.unfinished();
                return RunOutcome { completed: false, blocked };
            }
            self.issue_stage();
            self.execute_stage();
            let reqs = self.alu_requests();
            let mut results: Vec<u64> = Vec::new();
            let mut ri: usize = 0;
            while ri < reqs.len()
                invariant
                    ri <= reqs@.len(),
                    results@.len() == ri,
                decreases reqs@.len() - ri,
            {
                let q = reqs[ri];
                let v = fp_unit.apply(q.op, q.a, q.b);
                results.push(v);
                ri = ri + 1;
            }
            self.writeback_stage(&results);
            proof {
                lemma_run_from_snoc(s0, rss, results@);
                rss = rss.push(results@);
                assert(self@ == spec_run_from(s0, rss));
                assert forall|i: int| 0 <= i < s0.instructions.len() implies
                    time_preserved(
                        s0.instructions[i].time,
                        (#[trigger] self.instructions@[i]).time,
                    ) by {
                    assert(time_preserved(s0.instructions[i].time, t.instructions[i].time));
                }
            }
        }
    }

    /// Issue the next instruction (arithmetic) into free station `i` of the
    /// chosen pool.
    fn issue_arith(&mut self, is_add: bool, i: usize)
        requires
            inv(old(self)@),
            old(self).issued < old(self).instructions@.len(),
            meta_wf(old(self).instructions@[old(self).issued as int].meta),
            !(old(self).instructions@[old(self).issued as int].meta.inst_type
                == InstructionType::LD),
            !(old(self).instructions@[old(self).issued as int].meta.inst_type
                == InstructionType::SD),
            i < (if is_add { old(self).add_stations@ } else { old(self).mul_stations@ }).len(),
        ensures
            final(self)@ == spec_issue_arith(old(self)@, is_add, i as int),
    {
        let meta = self.instructions[self.issued].meta;
        let rs1 = meta.rs.unwrap();
        let rs2 = meta.rt.unwrap();
        let rd = meta.rd.unwrap();
        let idx = self.issued;
        let (vj, qj) = match self.f_register_status.get(rs1 as usize) {
            Some(t) => (None, Some(t)),
            None => (Some(self.registers.fp[rs1 as usize]), None),
        };
        let (vk, qk) = match self.f_register_status.get(rs2 as usize) {
            Some(t) => (None, Some(t)),
            None => (Some(self.registers.fp[rs2 as usize]), None),
        };
        proof {
            assert((vj, qj) == spec_operand(old(self)@, rs1 as int));
            assert((vk, qk) == spec_operand(old(self)@, rs2 as int));
        }
        let name = if is_add { self.add_stations[i].name } else { self.mul_stations[i].name };
        {
            let st = if is_add { &mut self.add_stations[i] } else { &mut self.mul_stations[i] };
            st.busy = true;
            st.op = Some(meta.inst_type);
            st.vj = vj;
            st.vk = vk;
            st.qj = qj;
            st.qk = qk;
            st.remaining_cycles = None;
            st.inst_idx = Some(idx);
        }
        self.f_register_status.set(rd as usize, name);
        self.mark_issued();
        proof {
            assert(self@ =~= spec_issue_arith(old(self)@, is_add, i as int));
        }
    }
}

} // verus!
