//! The mathematical model of the engine: an abstract state, the per-cycle
//! transition functions, and the well-formedness invariant.
//!
//! Every stage method of [`crate::simulator::tomasulo::Tomasulo`] is verified
//! against the transition function defined here, so the whole pipeline is a
//! pure function of the starting state and the delivered arithmetic results.

use vstd::prelude::*;
use crate::simulator::instruction::{
    meta_wf, spec_exec_cycles, Instruction, InstructionTime, InstructionType,
};
use crate::simulator::load_store::{
    spec_empty_load, spec_empty_store, LoadBuffer, StoreBuffer, StoreData,
};
use crate::simulator::reservation_station::{spec_empty_station, ReservationStation};
use crate::simulator::tag::Tag;
use crate::simulator::types::Cycle;

verus! {

/// A request for one floating-point computation: the operation together with
/// the two ready operands, as 64-bit words.  The engine emits one request per
/// arithmetic write-back candidate and expects one result word back.
#[derive(Debug, Clone, Copy, PartialEq, Eq, Structural)]
pub struct AluRequest {
    pub op: InstructionType,
    pub a: u64,
    pub b: u64,
}

/// One entry of the common data bus: the producing slot, the finished value,
/// and the destination floating register.
#[derive(Debug, Clone, Copy, PartialEq, Eq, Structural)]
pub struct Broadcast {
    pub tag: Tag,
    pub val: u64,
    pub dest: usize,
}

/// The abstract state of the engine: the views of every pool, the register
/// file, memory, the renaming table, the clock, and how many instructions
/// have issued.
#[verifier::ext_equal]
pub struct State {
    pub instructions: Seq<Instruction>,
    pub add_stations: Seq<ReservationStation>,
    pub mul_stations: Seq<ReservationStation>,
    pub load_buffers: Seq<LoadBuffer>,
    pub store_buffers: Seq<StoreBuffer>,
    pub fp: Seq<u64>,
    pub int: Seq<i32>,
    pub table: Seq<Option<Tag>>,
    pub memory: Seq<u64>,
    pub cycle: Cycle,
    pub issued: usize,
}

// ---------------------------------------------------------------------------
// Issue stage
// ---------------------------------------------------------------------------

/// The lowest-numbered free station of an arithmetic pool, if any.
pub open spec fn first_free_station(pool: Seq<ReservationStation>, i: int) -> Option<int>
    decreases pool.len() - i,
{
    if i < 0 || i >= pool.len() {
        None
    } else if !pool[i].busy {
        Some(i)
    } else {
        first_free_station(pool, i + 1)
    }
}

/// The lowest-numbered free load buffer, if any.
pub open spec fn first_free_load(pool: Seq<LoadBuffer>, i: int) -> Option<int>
    decreases pool.len() - i,
{
    if i < 0 || i >= pool.len() {
        None
    } else if !pool[i].busy {
        Some(i)
    } else {
        first_free_load(pool, i + 1)
    }
}

/// The lowest-numbered free store buffer, if any.
pub open spec fn first_free_store(pool: Seq<StoreBuffer>, i: int) -> Option<int>
    decreases pool.len() - i,
{
    if i < 0 || i >= pool.len() {
        None
    } else if !pool[i].busy {
        Some(i)
    } else {
        first_free_store(pool, i + 1)
    }
}

/// Stamp the next instruction as issued at the current cycle and step the
/// issue counter.
pub open spec fn spec_mark_issued(s: State) -> State {
    let inst = s.instructions[s.issued as int];
    let inst2 = Instruction {
        time: InstructionTime { issue: Some(s.cycle), ..inst.time },
        ..inst
    };
    State {
        instructions: s.instructions.update(s.issued as int, inst2),
        issued: (s.issued + 1) as usize,
        ..s
    }
}

/// Issue the next instruction (a load) into free load buffer `i`.
pub open spec fn spec_issue_load(s: State, i: int) -> State {
    let m = s.instructions[s.issued as int].meta;
    let lb = s.load_buffers[i];
    let lb2 = LoadBuffer {
        busy: true,
        dest: Some(m.rd->0 as usize),
        offset: m.offset,
        base: Some(m.base->0 as usize),
        remaining_cycles: Some(Cycle(spec_exec_cycles(m.inst_type))),
        inst_idx: Some(s.issued),
        ..lb
    };
    let s2 = State {
        load_buffers: s.load_buffers.update(i, lb2),
        table: s.table.update(m.rd->0 as int, Some(lb.name)),
        ..s
    };
    spec_mark_issued(s2)
}

/// Issue the next instruction (a store) into free store buffer `i`.  The
/// datum is read from the register file now if no producer is pending,
/// otherwise the producer's tag is recorded.
pub open spec fn spec_issue_store(s: State, i: int) -> State {
    let m = s.instructions[s.issued as int].meta;
    let sb = s.store_buffers[i];
    let rs = m.rs->0 as int;
    let data = match s.table[rs] {
        Some(t) => StoreData::Waiting(t),
        None => StoreData::Ready(s.fp[rs]),
    };
    let sb2 = StoreBuffer {
        busy: true,
        data: Some(data),
        offset: m.offset,
        base: Some(m.base->0 as usize),
        remaining_cycles: Some(Cycle(spec_exec_cycles(m.inst_type))),
        inst_idx: Some(s.issued),
        ..sb
    };
    let s2 = State { store_buffers: s.store_buffers.update(i, sb2), ..s };
    spec_mark_issued(s2)
}

/// One source operand at issue time: the live register value when no producer
/// is pending, otherwise the producer's tag (the renaming check).
pub open spec fn spec_operand(s: State, r: int) -> (Option<u64>, Option<Tag>) {
    match s.table[r] {
        Some(t) => (None, Some(t)),
        None => (Some(s.fp[r]), None),
    }
}

/// Issue the next instruction (arithmetic) into free station `i` of the add
/// pool (`is_add`) or the multiply pool.  The destination register's renaming
/// entry is overwritten unconditionally: last-issued-writer-wins.
pub open spec fn spec_issue_arith(s: State, is_add: bool, i: int) -> State {
    let m = s.instructions[s.issued as int].meta;
    let pool = if is_add { s.add_stations } else { s.mul_stations };
    let st = pool[i];
    let (vj, qj) = spec_operand(s, m.rs->0 as int);
    let (vk, qk) = spec_operand(s, m.rt->0 as int);
    let st2 = ReservationStation {
        busy: true,
        op: Some(m.inst_type),
        vj,
        vk,
        qj,
        qk,
        remaining_cycles: None,
        inst_idx: Some(s.issued),
        ..st
    };
    let s2 = State {
        add_stations: if is_add { s.add_stations.update(i, st2) } else { s.add_stations },
        mul_stations: if is_add { s.mul_stations } else { s.mul_stations.update(i, st2) },
        table: s.table.update(m.rd->0 as int, Some(st.name)),
        ..s
    };
    spec_mark_issued(s2)
}

/// The issue stage: strictly in order, at most one instruction per cycle.
/// When the required pool has no free slot the stage stalls (a structural
/// hazard) and the state is unchanged.
pub open spec fn spec_issue(s: State) -> State {
    if s.issued >= s.instructions.len() {
        s
    } else {
        let m = s.instructions[s.issued as int].meta;
        match m.inst_type {
            InstructionType::LD => match first_free_load(s.load_buffers, 0) {
                Some(i) => spec_issue_load(s, i),
                None => s,
            },
            InstructionType::SD => match first_free_store(s.store_buffers, 0) {
                Some(i) => spec_issue_store(s, i),
                None => s,
            },
            InstructionType::ADDD | InstructionType::SUBD => {
                match first_free_station(s.add_stations, 0) {
                    Some(i) => spec_issue_arith(s, true, i),
                    None => s,
                }
            },
            InstructionType::MULTD | InstructionType::DIVD => {
                match first_free_station(s.mul_stations, 0) {
                    Some(i) => spec_issue_arith(s, false, i),
                    None => s,
                }
            },
        }
    }
}

// ---------------------------------------------------------------------------
// Execute stage
// ---------------------------------------------------------------------------

/// Advance one executing slot: on its first eligible cycle (strictly after
/// issue) record the execution start, then count the cycle off; when the
/// countdown reaches zero record completion at the current cycle.
pub open spec fn spec_advance(inst: Instruction, rc: Cycle, now: Cycle) -> (Instruction, Cycle) {
    if inst.time.exec_start is None {
        if inst.time.issue matches Some(ic) && ic.0 < now.0 {
            let rc2 = Cycle((rc.0 - 1) as u32);
            let t1 = InstructionTime { exec_start: Some(now), ..inst.time };
            let t2 = if rc2.0 == 0 {
                InstructionTime { completion: Some(now), ..t1 }
            } else {
                t1
            };
            (Instruction { time: t2, ..inst }, rc2)
        } else {
            (inst, rc)
        }
    } else {
        let rc2 = Cycle((rc.0 - 1) as u32);
        let t2 = if rc2.0 == 0 {
            InstructionTime { completion: Some(now), ..inst.time }
        } else {
            inst.time
        };
        (Instruction { time: t2, ..inst }, rc2)
    }
}

/// Execute-stage step for station `i` of an arithmetic pool: eligible only
/// while busy with both operands ready and work remaining.
pub open spec fn spec_exec_arith(s: State, is_add: bool, i: int) -> State {
    let pool = if is_add { s.add_stations } else { s.mul_stations };
    let st = pool[i];
    if st.busy && st.op is Some && st.qj is None && st.qk is None
        && st.remaining_cycles is Some && (st.remaining_cycles->0).0 > 0
        && st.inst_idx is Some && st.inst_idx->0 < s.instructions.len() {
        let rc = st.remaining_cycles->0;
        let idx = st.inst_idx->0 as int;
        let (inst2, rc2) = spec_advance(s.instructions[idx], rc, s.cycle);
        let st2 = ReservationStation { remaining_cycles: Some(rc2), ..st };
        State {
            instructions: s.instructions.update(idx, inst2),
            add_stations: if is_add { s.add_stations.update(i, st2) } else { s.add_stations },
            mul_stations: if is_add { s.mul_stations } else { s.mul_stations.update(i, st2) },
            ..s
        }
    } else {
        s
    }
}

/// Execute-stage step for load buffer `i`: a claimed buffer's address
/// operands are ready from issue onward, so it only needs work remaining.
pub open spec fn spec_exec_load(s: State, i: int) -> State {
    let lb = s.load_buffers[i];
    if lb.remaining_cycles is Some && (lb.remaining_cycles->0).0 > 0
        && lb.inst_idx is Some && lb.inst_idx->0 < s.instructions.len() {
        let rc = lb.remaining_cycles->0;
        let idx = lb.inst_idx->0 as int;
        let (inst2, rc2) = spec_advance(s.instructions[idx], rc, s.cycle);
        let lb2 = LoadBuffer { remaining_cycles: Some(rc2), ..lb };
        State {
            instructions: s.instructions.update(idx, inst2),
            load_buffers: s.load_buffers.update(i, lb2),
            ..s
        }
    } else {
        s
    }
}

/// Execute-stage step for store buffer `i`: the countdown runs on the address
/// operands alone, independent of whether the datum is ready.
pub open spec fn spec_exec_store(s: State, i: int) -> State {
    let sb = s.store_buffers[i];
    if sb.busy && sb.remaining_cycles is Some && (sb.remaining_cycles->0).0 > 0
        && sb.inst_idx is Some && sb.inst_idx->0 < s.instructions.len() {
        let rc = sb.remaining_cycles->0;
        let idx = sb.inst_idx->0 as int;
        let (inst2, rc2) = spec_advance(s.instructions[idx], rc, s.cycle);
        let sb2 = StoreBuffer { remaining_cycles: Some(rc2), ..sb };
        State {
            instructions: s.instructions.update(idx, inst2),
            store_buffers: s.store_buffers.update(i, sb2),
            ..s
        }
    } else {
        s
    }
}

/// The execute stage: every busy slot whose operands are ready advances, in
/// fixed pool order.
pub open spec fn spec_execute(s: State) -> State {
    let s1 = spec_exec_arith(s, true, 0);
    let s2 = spec_exec_arith(s1, true, 1);
    let s3 = spec_exec_arith(s2, true, 2);
    let s4 = spec_exec_arith(s3, false, 0);
    let s5 = spec_exec_arith(s4, false, 1);
    let s6 = spec_exec_load(s5, 0);
    let s7 = spec_exec_load(s6, 1);
    let s8 = spec_exec_store(s7, 0);
    spec_exec_store(s8, 1)
}

// ---------------------------------------------------------------------------
// Write-back stage
// ---------------------------------------------------------------------------

/// A slot is a write-back candidate when it is busy, its instruction
/// completed strictly before the current cycle, and write-back has not yet
/// been recorded.
pub open spec fn spec_candidate(s: State, busy: bool, inst_idx: Option<usize>) -> bool {
    &&& busy
    &&& inst_idx matches Some(idx)
    &&& idx < s.instructions.len()
    &&& s.instructions[idx as int].time.completion matches Some(cc) && cc.0 < s.cycle.0
    &&& s.instructions[idx as int].time.write_back is None
}

/// The arithmetic operations whose results this cycle's write-back will
/// consume, in fixed scan order: add stations first, then multiply stations.
pub open spec fn spec_wb_requests(s: State) -> Seq<AluRequest> {
    spec_req_one(s, true, 0) + spec_req_one(s, true, 1) + spec_req_one(s, true, 2)
        + spec_req_one(s, false, 0) + spec_req_one(s, false, 1)
}

/// The request emitted by one arithmetic station, empty when it is not a
/// write-back candidate.
pub open spec fn spec_req_one(s: State, is_add: bool, i: int) -> Seq<AluRequest> {
    let pool = if is_add { s.add_stations } else { s.mul_stations };
    let st = pool[i];
    if spec_candidate(s, st.busy, st.inst_idx) {
        seq![AluRequest {
            op: st.op->0,
            a: match st.vj { Some(v) => v, None => 0 },
            b: match st.vk { Some(v) => v, None => 0 },
        }]
    } else {
        Seq::empty()
    }
}

/// The accumulator threaded through the write-back scan: the evolving state,
/// the broadcasts queued so far, the slots to release afterwards, and how
/// many arithmetic results have been consumed.
#[verifier::ext_equal]
pub struct WbScan {
    pub s: State,
    pub bl: Seq<Broadcast>,
    pub rel: Seq<Tag>,
    pub k: int,
}

/// The effective word address of a memory operand: `(R[base] + offset) / 8`.
pub open spec fn spec_addr(s: State, base: int, offset: int) -> int {
    (s.int[base] + offset) / 8
}

/// Write-back scan step for one arithmetic station: stamp the instruction,
/// queue a broadcast carrying the next delivered result, and mark the slot
/// for release.
pub open spec fn spec_wb_arith(acc: WbScan, results: Seq<u64>, is_add: bool, i: int) -> WbScan {
    let s = acc.s;
    let pool = if is_add { s.add_stations } else { s.mul_stations };
    let st = pool[i];
    if spec_candidate(s, st.busy, st.inst_idx) {
        let idx = st.inst_idx->0 as int;
        let inst = s.instructions[idx];
        let val = if 0 <= acc.k < results.len() { results[acc.k] } else { 0u64 };
        let dest = inst.meta.rd->0 as usize;
        let inst2 = Instruction {
            time: InstructionTime { write_back: Some(s.cycle), ..inst.time },
            ..inst
        };
        let st2 = ReservationStation { remaining_cycles: None, ..st };
        let s2 = State {
            instructions: s.instructions.update(idx, inst2),
            add_stations: if is_add { s.add_stations.update(i, st2) } else { s.add_stations },
            mul_stations: if is_add { s.mul_stations } else { s.mul_stations.update(i, st2) },
            ..s
        };
        WbScan {
            s: s2,
            bl: acc.bl.push(Broadcast { tag: st.name, val, dest }),
            rel: acc.rel.push(st.name),
            k: acc.k + 1,
        }
    } else {
        acc
    }
}

/// Write-back scan step for one load buffer: the value comes straight from
/// memory at the effective address.
pub open spec fn spec_wb_load(acc: WbScan, i: int) -> WbScan {
    let s = acc.s;
    let lb = s.load_buffers[i];
    if spec_candidate(s, lb.busy, lb.inst_idx) {
        let idx = lb.inst_idx->0 as int;
        let inst = s.instructions[idx];
        let addr = spec_addr(s, lb.base->0 as int, lb.offset->0 as int);
        let val = if 0 <= addr < s.memory.len() { s.memory[addr] } else { 0u64 };
        let inst2 = Instruction {
            time: InstructionTime { write_back: Some(s.cycle), ..inst.time },
            ..inst
        };
        let lb2 = LoadBuffer { remaining_cycles: None, ..lb };
        let s2 = State {
            instructions: s.instructions.update(idx, inst2),
            load_buffers: s.load_buffers.update(i, lb2),
            ..s
        };
        WbScan {
            s: s2,
            bl: acc.bl.push(Broadcast { tag: lb.name, val, dest: lb.dest->0 }),
            rel: acc.rel.push(lb.name),
            k: acc.k,
        }
    } else {
        acc
    }
}

/// Write-back scan step for one store buffer: only a store whose datum is
/// ready writes memory; one still waiting on a producer is skipped and
/// retried next cycle.  Stores broadcast nothing.
pub open spec fn spec_wb_store(acc: WbScan, i: int) -> WbScan {
    let s = acc.s;
    let sb = s.store_buffers[i];
    if spec_candidate(s, sb.busy, sb.inst_idx) {
        match sb.data {
            Some(StoreData::Ready(v)) => {
                let idx = sb.inst_idx->0 as int;
                let inst = s.instructions[idx];
                let addr = spec_addr(s, sb.base->0 as int, sb.offset->0 as int);
                let inst2 = Instruction {
                    time: InstructionTime { write_back: Some(s.cycle), ..inst.time },
                    ..inst
                };
                let sb2 = StoreBuffer { remaining_cycles: None, ..sb };
                let s2 = State {
                    instructions: s.instructions.update(idx, inst2),
                    store_buffers: s.store_buffers.update(i, sb2),
                    memory: if 0 <= addr < s.memory.len() {
                        s.memory.update(addr, v)
                    } else {
                        s.memory
                    },
                    ..s
                };
                WbScan { s: s2, bl: acc.bl, rel: acc.rel.push(sb.name), k: acc.k }
            },
            _ => acc,
        }
    } else {
        acc
    }
}

/// The whole write-back scan, in fixed order: add stations, multiply
/// stations, load buffers, store buffers.
pub open spec fn spec_wb_scan(s: State, results: Seq<u64>) -> WbScan {
    let a5 = spec_wb_scan_arith(s, results);
    let a6 = spec_wb_load(a5, 0);
    let a7 = spec_wb_load(a6, 1);
    let a8 = spec_wb_store(a7, 0);
    spec_wb_store(a8, 1)
}

/// The arithmetic half of the write-back scan: the add stations, then the
/// multiply stations.
pub open spec fn spec_wb_scan_arith(s: State, results: Seq<u64>) -> WbScan {
    let a0 = WbScan { s, bl: Seq::empty(), rel: Seq::empty(), k: 0 };
    let a1 = spec_wb_arith(a0, results, true, 0);
    let a2 = spec_wb_arith(a1, results, true, 1);
    let a3 = spec_wb_arith(a2, results, true, 2);
    let a4 = spec_wb_arith(a3, results, false, 0);
    spec_wb_arith(a4, results, false, 1)
}

/// Resolve one station's pending tags against a broadcast: a matching tag is
/// replaced by the delivered value.
pub open spec fn spec_resolve_station(st: ReservationStation, b: Broadcast) -> ReservationStation {
    let st1 = if st.qj == Some(b.tag) {
        ReservationStation { qj: None, vj: Some(b.val), ..st }
    } else {
        st
    };
    if st1.qk == Some(b.tag) {
        ReservationStation { qk: None, vk: Some(b.val), ..st1 }
    } else {
        st1
    }
}

/// Resolve one store buffer's pending datum against a broadcast.
pub open spec fn spec_resolve_store(sb: StoreBuffer, b: Broadcast) -> StoreBuffer {
    if sb.data == Some(StoreData::Waiting(b.tag)) {
        StoreBuffer { data: Some(StoreData::Ready(b.val)), ..sb }
    } else {
        sb
    }
}

/// Apply one broadcast: update the architectural register only if the
/// renaming table still names this producer (it may have been superseded by
/// a later issue), clear the matching table entry, and deliver the value to
/// every waiting consumer.
pub open spec fn spec_apply_bcast(s: State, b: Broadcast) -> State {
    let r = b.dest as int;
    let hit = 0 <= r < s.table.len() && r < s.fp.len() && s.table[r] == Some(b.tag);
    State {
        fp: if hit { s.fp.update(r, b.val) } else { s.fp },
        table: if hit { s.table.update(r, None) } else { s.table },
        add_stations: s.add_stations.map_values(|st: ReservationStation| spec_resolve_station(st, b)),
        mul_stations: s.mul_stations.map_values(|st: ReservationStation| spec_resolve_station(st, b)),
        store_buffers: s.store_buffers.map_values(|sb: StoreBuffer| spec_resolve_store(sb, b)),
        ..s
    }
}

/// Apply a whole cycle's broadcasts as one batch, in queue order.
pub open spec fn spec_apply_bcasts(s: State, bl: Seq<Broadcast>) -> State
    decreases bl.len(),
{
    if bl.len() == 0 {
        s
    } else {
        spec_apply_bcasts(spec_apply_bcast(s, bl[0]), bl.drop_first())
    }
}

/// Start the countdown of one arithmetic station whose operands have just
/// become ready (deferred from issue: the countdown begins only once no tag
/// is pending).
pub open spec fn spec_rearm(s: State, is_add: bool, i: int) -> State {
    let pool = if is_add { s.add_stations } else { s.mul_stations };
    let st = pool[i];
    if st.busy && st.op is Some && st.qj is None && st.qk is None
        && st.remaining_cycles is None
        && st.inst_idx is Some && st.inst_idx->0 < s.instructions.len() {
        let idx = st.inst_idx->0 as int;
        let st2 = ReservationStation {
            remaining_cycles: Some(Cycle(spec_exec_cycles(s.instructions[idx].meta.inst_type))),
            ..st
        };
        State {
            add_stations: if is_add { s.add_stations.update(i, st2) } else { s.add_stations },
            mul_stations: if is_add { s.mul_stations } else { s.mul_stations.update(i, st2) },
            ..s
        }
    } else {
        s
    }
}

/// Arm every arithmetic station whose operands became ready this cycle.
pub open spec fn spec_rearm_all(s: State) -> State {
    let s1 = spec_rearm(s, true, 0);
    let s2 = spec_rearm(s1, true, 1);
    let s3 = spec_rearm(s2, true, 2);
    let s4 = spec_rearm(s3, false, 0);
    spec_rearm(s4, false, 1)
}

/// Release the slot named `t`: reset it to empty, making it available for
/// future issue.
pub open spec fn spec_release(s: State, t: Tag) -> State {
    if 0 < s.add_stations.len() && s.add_stations[0].name == t {
        State { add_stations: s.add_stations.update(0, spec_empty_station(t)), ..s }
    } else if 1 < s.add_stations.len() && s.add_stations[1].name == t {
        State { add_stations: s.add_stations.update(1, spec_empty_station(t)), ..s }
    } else if 2 < s.add_stations.len() && s.add_stations[2].name == t {
        State { add_stations: s.add_stations.update(2, spec_empty_station(t)), ..s }
    } else if 0 < s.mul_stations.len() && s.mul_stations[0].name == t {
        State { mul_stations: s.mul_stations.update(0, spec_empty_station(t)), ..s }
    } else if 1 < s.mul_stations.len() && s.mul_stations[1].name == t {
        State { mul_stations: s.mul_stations.update(1, spec_empty_station(t)), ..s }
    } else if 0 < s.load_buffers.len() && s.load_buffers[0].name == t {
        State { load_buffers: s.load_buffers.update(0, spec_empty_load(t)), ..s }
    } else if 1 < s.load_buffers.len() && s.load_buffers[1].name == t {
        State { load_buffers: s.load_buffers.update(1, spec_empty_load(t)), ..s }
    } else if 0 < s.store_buffers.len() && s.store_buffers[0].name == t {
        State { store_buffers: s.store_buffers.update(0, spec_empty_store(t)), ..s }
    } else if 1 < s.store_buffers.len() && s.store_buffers[1].name == t {
        State { store_buffers: s.store_buffers.update(1, spec_empty_store(t)), ..s }
    } else {
        s
    }
}

/// Release every slot that completed write-back this cycle, in queue order.
pub open spec fn spec_releases(s: State, ts: Seq<Tag>) -> State
    decreases ts.len(),
{
    if ts.len() == 0 {
        s
    } else {
        spec_releases(spec_release(s, ts[0]), ts.drop_first())
    }
}

/// The write-back stage: evaluate every candidate against a consistent
/// pre-broadcast snapshot, apply all broadcasts as a batch, start countdowns
/// that became ready, and only then release the finished slots.
pub open spec fn spec_writeback(s: State, results: Seq<u64>) -> State {
    let a = spec_wb_scan(s, results);
    let sb = spec_apply_bcasts(a.s, a.bl);
    let sc = spec_rearm_all(sb);
    spec_releases(sc, a.rel)
}

// ---------------------------------------------------------------------------
// Termination
// ---------------------------------------------------------------------------

/// The simulation is complete when every instruction has a write-back
/// timestamp.
pub open spec fn spec_all_done(s: State) -> bool {
    forall|i: int| 0 <= i < s.instructions.len() ==> s.instructions[i].time.write_back is Some
}

/// The indices of the instructions still lacking write-back, ascending.
pub open spec fn spec_unfinished(insts: Seq<Instruction>) -> Seq<usize>
    decreases insts.len(),
{
    if insts.len() == 0 {
        Seq::empty()
    } else {
        let prefix = spec_unfinished(insts.drop_last());
        if insts.last().time.write_back is None {
            prefix.push((insts.len() - 1) as usize)
        } else {
            prefix
        }
    }
}

// ---------------------------------------------------------------------------
// Well-formedness
// ---------------------------------------------------------------------------

/// The fixed pool capacities and array sizes: 3 add stations, 2 multiply
/// stations, 2 load buffers, 2 store buffers, 16 floating registers, 32
/// integer registers, 16 renaming entries, 8 memory cells.
pub open spec fn wf_lens(s: State) -> bool {
    &&& s.add_stations.len() == 3
    &&& s.mul_stations.len() == 2
    &&& s.load_buffers.len() == 2
    &&& s.store_buffers.len() == 2
    &&& s.fp.len() == 16
    &&& s.int.len() == 32
    &&& s.table.len() == 16
    &&& s.memory.len() == 8
    &&& s.instructions.len() <= usize::MAX
    &&& s.issued <= s.instructions.len()
}

/// Every slot's name agrees with its position: names are stable identities.
pub open spec fn wf_names(s: State) -> bool {
    &&& forall|i: int| 0 <= i < s.add_stations.len()
        ==> (#[trigger] s.add_stations[i]).name == Tag::AddStation(i as usize)
    &&& forall|i: int| 0 <= i < s.mul_stations.len()
        ==> (#[trigger] s.mul_stations[i]).name == Tag::MulStation(i as usize)
    &&& forall|i: int| 0 <= i < s.load_buffers.len()
        ==> (#[trigger] s.load_buffers[i]).name == Tag::LoadBuffer(i as usize)
    &&& forall|i: int| 0 <= i < s.store_buffers.len()
        ==> (#[trigger] s.store_buffers[i]).name == Tag::StoreBuffer(i as usize)
}

/// What the engine assumes of one decoded record: the operands its kind
/// requires are present, and a memory operand's effective byte address lies
/// inside the eight-cell memory.  Integer registers are never written during
/// a run, so the address bound is stable.
pub open spec fn meta_ok(s: State, m: crate::simulator::instruction::InstructionMeta) -> bool {
    &&& meta_wf(m)
    &&& (m.inst_type == InstructionType::LD || m.inst_type == InstructionType::SD)
        ==> 0 <= s.int[m.base->0 as int] + m.offset->0 < 64
}

/// Every instruction handed to the engine is well formed.
pub open spec fn prog_ok(s: State) -> bool {
    forall|i: int| 0 <= i < s.instructions.len() ==> meta_ok(s, (#[trigger] s.instructions[i]).meta)
}

/// A busy arithmetic station is consistent: it owns an issued, not yet
/// written-back instruction of its pool's kind, each operand is exactly one
/// of a ready value or a pending tag, a pending tag names a live producer,
/// and the countdown agrees with the instruction's progress.
pub open spec fn station_ok(s: State, is_add: bool, i: int) -> bool {
    let st = (if is_add { s.add_stations } else { s.mul_stations })[i];
    if !st.busy {
        st == spec_empty_station(st.name)
    } else {
        &&& st.inst_idx matches Some(idx) && idx < s.issued && idx < s.instructions.len()
        &&& {
            let inst = s.instructions[st.inst_idx->0 as int];
            let lat = spec_exec_cycles(inst.meta.inst_type);
            &&& st.op == Some(inst.meta.inst_type)
            &&& (if is_add {
                    inst.meta.inst_type == InstructionType::ADDD
                        || inst.meta.inst_type == InstructionType::SUBD
                } else {
                    inst.meta.inst_type == InstructionType::MULTD
                        || inst.meta.inst_type == InstructionType::DIVD
                })
            &&& inst.time.write_back is None
            &&& (st.vj is Some <==> st.qj is None)
            &&& (st.vk is Some <==> st.qk is None)
            &&& (inst.time.exec_start is Some ==> st.qj is None && st.qk is None
                    && st.remaining_cycles is Some)
            &&& (st.remaining_cycles matches Some(rc) ==> rc.0 <= lat)
            &&& (st.remaining_cycles matches Some(rc)
                    ==> (inst.time.exec_start is None ==> rc.0 == lat))
            &&& (inst.time.completion is Some ==> st.remaining_cycles == Some(Cycle(0)))
            &&& (inst.time.exec_start is Some && inst.time.completion is None
                    ==> (st.remaining_cycles matches Some(rc) && rc.0 >= 1))
        }
    }
}

/// A busy load buffer is consistent with its owning load instruction.
pub open spec fn load_ok(s: State, i: int) -> bool {
    let lb = s.load_buffers[i];
    if !lb.busy {
        lb == spec_empty_load(lb.name)
    } else {
        &&& lb.inst_idx matches Some(idx) && idx < s.issued && idx < s.instructions.len()
        &&& {
            let inst = s.instructions[lb.inst_idx->0 as int];
            let lat = spec_exec_cycles(inst.meta.inst_type);
            &&& inst.meta.inst_type == InstructionType::LD
            &&& lb.dest == Some(inst.meta.rd->0 as usize)
            &&& lb.base == Some(inst.meta.base->0 as usize)
            &&& lb.offset == inst.meta.offset
            &&& inst.time.write_back is None
            &&& lb.remaining_cycles matches Some(rc) && rc.0 <= lat
            &&& (inst.time.exec_start is None ==> (lb.remaining_cycles->0).0 == lat)
            &&& (inst.time.completion is Some ==> lb.remaining_cycles == Some(Cycle(0)))
            &&& (inst.time.exec_start is Some && inst.time.completion is None
                    ==> (lb.remaining_cycles->0).0 >= 1)
        }
    }
}

/// A busy store buffer is consistent with its owning store instruction; a
/// datum still pending names a live producer.
pub open spec fn store_ok(s: State, i: int) -> bool {
    let sb = s.store_buffers[i];
    if !sb.busy {
        sb == spec_empty_store(sb.name)
    } else {
        &&& sb.inst_idx matches Some(idx) && idx < s.issued && idx < s.instructions.len()
        &&& {
            let inst = s.instructions[sb.inst_idx->0 as int];
            let lat = spec_exec_cycles(inst.meta.inst_type);
            &&& inst.meta.inst_type == InstructionType::SD
            &&& sb.base == Some(inst.meta.base->0 as usize)
            &&& sb.offset == inst.meta.offset
            &&& inst.time.write_back is None
            &&& sb.data is Some
            &&& sb.remaining_cycles matches Some(rc) && rc.0 <= lat
            &&& (inst.time.exec_start is None ==> (sb.remaining_cycles->0).0 == lat)
            &&& (inst.time.completion is Some ==> sb.remaining_cycles == Some(Cycle(0)))
            &&& (inst.time.exec_start is Some && inst.time.completion is None
                    ==> (sb.remaining_cycles->0).0 >= 1)
        }
    }
}

/// The timestamps of instruction `i` are consistent: unset beyond the issue
/// frontier, set and ordered below it, never ahead of the clock, and a
/// completed instruction's completion lies exactly latency minus one cycles
/// after its execution start.
pub open spec fn inst_times_ok(s: State, i: int) -> bool {
    let inst = s.instructions[i];
    let t = inst.time;
    let lat = spec_exec_cycles(inst.meta.inst_type);
    &&& (i >= s.issued ==> t.issue is None && t.exec_start is None && t.completion is None
            && t.write_back is None)
    &&& (i < s.issued ==> (t.issue matches Some(ic) && ic.0 <= s.cycle.0))
    &&& (t.exec_start matches Some(es) ==> t.issue matches Some(ic) && ic.0 < es.0
            && es.0 <= s.cycle.0)
    &&& (t.completion matches Some(cc) ==> t.exec_start matches Some(es)
            && cc.0 == es.0 + lat - 1 && cc.0 <= s.cycle.0)
    &&& (t.write_back matches Some(wb) ==> t.completion matches Some(cc) && cc.0 < wb.0
            && wb.0 <= s.cycle.0)
}

/// All timestamps are consistent, and issue order follows program order.
pub open spec fn times_ok(s: State) -> bool {
    &&& forall|i: int| 0 <= i < s.instructions.len() ==> inst_times_ok(s, i)
    &&& forall|i: int, j: int|
        #![trigger s.instructions[i].time.issue, s.instructions[j].time.issue]
        0 <= i < j < s.issued && j < s.instructions.len()
            ==> (s.instructions[i].time.issue->0).0 <= (s.instructions[j].time.issue->0).0
}

/// The slot named `t` is busy and owns instruction `idx`.
pub open spec fn occupies(s: State, t: Tag, idx: usize) -> bool {
    match t {
        Tag::AddStation(i) => i < s.add_stations.len() && s.add_stations[i as int].busy
            && s.add_stations[i as int].inst_idx == Some(idx),
        Tag::MulStation(i) => i < s.mul_stations.len() && s.mul_stations[i as int].busy
            && s.mul_stations[i as int].inst_idx == Some(idx),
        Tag::LoadBuffer(i) => i < s.load_buffers.len() && s.load_buffers[i as int].busy
            && s.load_buffers[i as int].inst_idx == Some(idx),
        Tag::StoreBuffer(i) => i < s.store_buffers.len() && s.store_buffers[i as int].busy
            && s.store_buffers[i as int].inst_idx == Some(idx),
    }
}

/// Every issued instruction occupies at most one slot: two busy slots never
/// own the same instruction.
pub open spec fn distinct_owners(s: State) -> bool {
    forall|t1: Tag, t2: Tag, idx: usize|
        occupies(s, t1, idx) && occupies(s, t2, idx) ==> t1 == t2
}

/// The engine invariant: constructors establish it and every stage preserves
/// it.
pub open spec fn inv(s: State) -> bool {
    &&& wf_lens(s)
    &&& wf_names(s)
    &&& prog_ok(s)
    &&& forall|i: int| 0 <= i < s.add_stations.len() ==> #[trigger] station_ok(s, true, i)
    &&& forall|i: int| 0 <= i < s.mul_stations.len() ==> #[trigger] station_ok(s, false, i)
    &&& forall|i: int| 0 <= i < s.load_buffers.len() ==> #[trigger] load_ok(s, i)
    &&& forall|i: int| 0 <= i < s.store_buffers.len() ==> #[trigger] store_ok(s, i)
    &&& times_ok(s)
    &&& distinct_owners(s)
}

// ---------------------------------------------------------------------------
// Pacing: how countdowns relate to the clock between stages
// ---------------------------------------------------------------------------

/// For one slot: if its instruction has started but not completed, the clock
/// stands exactly `gap` cycles past the start cycle plus the ticks already
/// consumed.  `gap` is 0 right after the execute stage and 1 once the clock
/// has advanced for the next cycle.
pub open spec fn pace_ok(s: State, busy: bool, rco: Option<Cycle>, idxo: Option<usize>, gap: int) -> bool {
    if busy && idxo is Some && idxo->0 < s.instructions.len() {
        let inst = s.instructions[idxo->0 as int];
        let lat = spec_exec_cycles(inst.meta.inst_type);
        if inst.time.exec_start is Some && inst.time.completion is None {
            let es = inst.time.exec_start->0;
            rco is Some && s.cycle.0 == es.0 + (lat - 1 - (rco->0).0) + gap
        } else {
            true
        }
    } else {
        true
    }
}

/// The busy flag of the slot with ordinal `u`, in the fixed execute order:
/// add stations 0..3, multiply stations 3..5, load buffers 5..7, store
/// buffers 7..9.
pub open spec fn ord_busy(s: State, u: int) -> bool {
    if u < 3 {
        s.add_stations[u].busy
    } else if u < 5 {
        s.mul_stations[u - 3].busy
    } else if u < 7 {
        s.load_buffers[u - 5].busy
    } else {
        s.store_buffers[u - 7].busy
    }
}

/// The countdown of the slot with ordinal `u`.
pub open spec fn ord_rem(s: State, u: int) -> Option<Cycle> {
    if u < 3 {
        s.add_stations[u].remaining_cycles
    } else if u < 5 {
        s.mul_stations[u - 3].remaining_cycles
    } else if u < 7 {
        s.load_buffers[u - 5].remaining_cycles
    } else {
        s.store_buffers[u - 7].remaining_cycles
    }
}

/// The owning instruction of the slot with ordinal `u`.
pub open spec fn ord_idx(s: State, u: int) -> Option<usize> {
    if u < 3 {
        s.add_stations[u].inst_idx
    } else if u < 5 {
        s.mul_stations[u - 3].inst_idx
    } else if u < 7 {
        s.load_buffers[u - 5].inst_idx
    } else {
        s.store_buffers[u - 7].inst_idx
    }
}

/// The name of the slot with ordinal `u`.
pub open spec fn ord_tag(u: int) -> Tag {
    if u < 3 {
        Tag::AddStation(u as usize)
    } else if u < 5 {
        Tag::MulStation((u - 3) as usize)
    } else if u < 7 {
        Tag::LoadBuffer((u - 5) as usize)
    } else {
        Tag::StoreBuffer((u - 7) as usize)
    }
}

/// The pacing relation for the slot with ordinal `u`.
pub open spec fn pace_slot(s: State, u: int, gap: int) -> bool {
    pace_ok(s, ord_busy(s, u), ord_rem(s, u), ord_idx(s, u), gap)
}

/// A busy slot occupies its owned instruction under its own name.
pub proof fn lemma_ord_occupies(s: State, u: int)
    requires
        wf_lens(s),
        wf_names(s),
        0 <= u < 9,
        ord_busy(s, u),
        ord_idx(s, u) is Some,
    ensures
        occupies(s, ord_tag(u), ord_idx(s, u)->0),
{
}

/// The pacing relation over every slot.
pub open spec fn paced(s: State, gap: int) -> bool {
    forall|u: int| 0 <= u < 9 ==> #[trigger] pace_slot(s, u, gap)
}

/// Gap 0 for slots already processed by the execute stage, gap 1 for the
/// rest.
pub open spec fn spec_mix_gap(u: int, k: int) -> int {
    if u < k { 0 } else { 1 }
}

/// The pacing relation halfway through the execute stage: slots already
/// processed this cycle stand at gap 0, the rest still at gap 1.
pub open spec fn paced_mixed(s: State, k: int) -> bool {
    forall|u: int| 0 <= u < 9 ==> #[trigger] pace_slot(s, u, spec_mix_gap(u, k))
}

// ---------------------------------------------------------------------------
// The initial state
// ---------------------------------------------------------------------------

/// The preset integer-register contents: `R1` is a base pointer holding 16,
/// every other register holds 0.
pub open spec fn spec_default_int(b: int) -> int {
    if b == 1 { 16 } else { 0 }
}

/// What the engine requires of its input program: fresh timestamps,
/// well-formed records, and memory operands whose effective address lies in
/// memory under the preset integer registers.
pub open spec fn spec_input_ok(insts: Seq<Instruction>) -> bool {
    forall|i: int| 0 <= i < insts.len() ==> {
        let inst = #[trigger] insts[i];
        &&& inst.time.issue is None
        &&& inst.time.exec_start is None
        &&& inst.time.completion is None
        &&& inst.time.write_back is None
        &&& meta_wf(inst.meta)
        &&& ((inst.meta.inst_type == InstructionType::LD
                || inst.meta.inst_type == InstructionType::SD)
            ==> 0 <= spec_default_int(inst.meta.base->0 as int) + inst.meta.offset->0 < 64)
    }
}

/// The engine's starting state over a program: empty pools, preset registers
/// (all floating registers hold the bits of 1.0, `R1` holds 16), memory
/// preset to 1.0 everywhere, clock at zero, nothing issued.
pub open spec fn spec_initial(insts: Seq<Instruction>) -> State {
    State {
        instructions: insts,
        add_stations: Seq::new(3, |i: int| spec_empty_station(Tag::AddStation(i as usize))),
        mul_stations: Seq::new(2, |i: int| spec_empty_station(Tag::MulStation(i as usize))),
        load_buffers: Seq::new(2, |i: int| spec_empty_load(Tag::LoadBuffer(i as usize))),
        store_buffers: Seq::new(2, |i: int| spec_empty_store(Tag::StoreBuffer(i as usize))),
        fp: Seq::new(16, |i: int| crate::simulator::register::FP_ONE_BITS),
        int: Seq::new(32, |i: int| if i == 1 { 16 } else { 0 }),
        table: Seq::new(16, |i: int| None),
        memory: Seq::new(8, |i: int| crate::simulator::register::FP_ONE_BITS),
        cycle: Cycle(0),
        issued: 0,
    }
}

/// A fresh engine satisfies the invariant and the pacing relation.
pub proof fn lemma_initial_inv(insts: Seq<Instruction>)
    requires
        spec_input_ok(insts),
        insts.len() <= usize::MAX,
    ensures
        inv(spec_initial(insts)),
        paced(spec_initial(insts), 0),
        paced(spec_initial(insts), 1),
{
    let s = spec_initial(insts);
    assert forall|t1: Tag, t2: Tag, idx: usize|
        occupies(s, t1, idx) && occupies(s, t2, idx) implies t1 == t2 by {
        assert(!occupies(s, t1, idx));
    }
    assert(inv(s));
}

// ---------------------------------------------------------------------------
// Properties of the free-slot scans
// ---------------------------------------------------------------------------

/// A hit of the free-station scan is in range and names a free station.
pub proof fn lemma_first_free_station(pool: Seq<ReservationStation>, j: int)
    ensures
        first_free_station(pool, j) matches Some(i)
            ==> j <= i < pool.len() && !pool[i].busy,
    decreases pool.len() - j,
{
    if 0 <= j < pool.len() && pool[j].busy {
        lemma_first_free_station(pool, j + 1);
    }
}

/// A hit of the free-load-buffer scan is in range and names a free buffer.
pub proof fn lemma_first_free_load(pool: Seq<LoadBuffer>, j: int)
    ensures
        first_free_load(pool, j) matches Some(i)
            ==> j <= i < pool.len() && !pool[i].busy,
    decreases pool.len() - j,
{
    if 0 <= j < pool.len() && pool[j].busy {
        lemma_first_free_load(pool, j + 1);
    }
}

/// A hit of the free-store-buffer scan is in range and names a free buffer.
pub proof fn lemma_first_free_store(pool: Seq<StoreBuffer>, j: int)
    ensures
        first_free_store(pool, j) matches Some(i)
            ==> j <= i < pool.len() && !pool[i].busy,
    decreases pool.len() - j,
{
    if 0 <= j < pool.len() && pool[j].busy {
        lemma_first_free_store(pool, j + 1);
    }
}

// ---------------------------------------------------------------------------
// The issue stage preserves the invariant
// ---------------------------------------------------------------------------

/// No busy slot owns an instruction at or beyond the issue frontier.
pub proof fn lemma_no_owner_beyond_frontier(s: State, t: Tag, idx: usize)
    requires
        inv(s),
        idx >= s.issued,
    ensures
        !occupies(s, t, idx),
{
    match t {
        Tag::AddStation(i) => {
            if i < s.add_stations.len() {
                assert(station_ok(s, true, i as int));
            }
        },
        Tag::MulStation(i) => {
            if i < s.mul_stations.len() {
                assert(station_ok(s, false, i as int));
            }
        },
        Tag::LoadBuffer(i) => {
            if i < s.load_buffers.len() {
                assert(load_ok(s, i as int));
            }
        },
        Tag::StoreBuffer(i) => {
            if i < s.store_buffers.len() {
                assert(store_ok(s, i as int));
            }
        },
    }
}

/// Issuing a load preserves the invariant and the pacing relation.
pub proof fn lemma_issue_load_inv(s: State, i: int, g: int)
    requires
        inv(s),
        s.issued < s.instructions.len(),
        s.instructions[s.issued as int].meta.inst_type == InstructionType::LD,
        0 <= i < s.load_buffers.len(),
        !s.load_buffers[i].busy,
    ensures
        inv(spec_issue_load(s, i)),
        paced(s, g) ==> paced(spec_issue_load(s, i), g),
{
    let s2 = spec_issue_load(s, i);
    let m = s.instructions[s.issued as int].meta;
    let rd = m.rd->0 as int;
    assert(meta_ok(s, m));
    assert(inst_times_ok(s, s.issued as int));
    assert(load_ok(s, i));

    assert forall|j: int| 0 <= j < s2.instructions.len() implies
        meta_ok(s2, (#[trigger] s2.instructions[j]).meta) by {
        assert(meta_ok(s, s.instructions[j].meta));
        assert(s2.instructions[j].meta == s.instructions[j].meta);
    }
    assert forall|j: int| 0 <= j < s2.add_stations.len() implies #[trigger] station_ok(s2, true, j) by {
        assert(station_ok(s, true, j));
        let st = s.add_stations[j];
        assert(s2.add_stations[j] == st);
        if st.busy {
            let idx = st.inst_idx->0 as int;
            assert(idx < s.issued);
            assert(s2.instructions[idx] == s.instructions[idx]);
        }
    }
    assert forall|j: int| 0 <= j < s2.mul_stations.len() implies #[trigger] station_ok(s2, false, j) by {
        assert(station_ok(s, false, j));
        let st = s.mul_stations[j];
        assert(s2.mul_stations[j] == st);
        if st.busy {
            let idx = st.inst_idx->0 as int;
            assert(idx < s.issued);
            assert(s2.instructions[idx] == s.instructions[idx]);
        }
    }
    assert forall|j: int| 0 <= j < s2.load_buffers.len() implies #[trigger] load_ok(s2, j) by {
        assert(load_ok(s, j));
        if j != i && s.load_buffers[j].busy {
            let idx = s.load_buffers[j].inst_idx->0 as int;
            assert(s2.instructions[idx] == s.instructions[idx]);
        }
    }
    assert forall|j: int| 0 <= j < s2.store_buffers.len() implies #[trigger] store_ok(s2, j) by {
        assert(store_ok(s, j));
        if s.store_buffers[j].busy {
            let idx = s.store_buffers[j].inst_idx->0 as int;
            assert(s2.instructions[idx] == s.instructions[idx]);
        }
    }
    assert forall|j: int| 0 <= j < s2.instructions.len() implies inst_times_ok(s2, j) by {
        assert(inst_times_ok(s, j));
    }
    assert forall|t1: Tag, t2: Tag, idx: usize|
        occupies(s2, t1, idx) && occupies(s2, t2, idx) implies t1 == t2 by {
        if t1 != t2 {
            if occupies(s2, t1, idx) && occupies(s2, t2, idx) {
                let name = s.load_buffers[i].name;
                if t1 == name || t2 == name {
                    let other = if t1 == name { t2 } else { t1 };
                    assert(occupies(s2, other, idx));
                    assert(idx == s.issued);
                    assert(occupies(s, other, idx));
                    lemma_no_owner_beyond_frontier(s, other, idx);
                    assert(false);
                } else {
                    assert(occupies(s, t1, idx) && occupies(s, t2, idx));
                }
            }
        }
    }
    assert forall|a: int, b: int|
        #![trigger s2.instructions[a].time.issue, s2.instructions[b].time.issue]
        0 <= a < b < s2.issued && b < s2.instructions.len() implies
        (s2.instructions[a].time.issue->0).0 <= (s2.instructions[b].time.issue->0).0 by {
        assert(inst_times_ok(s, a));
        assert(inst_times_ok(s, b));
        if b < s.issued {
            assert((s.instructions[a].time.issue->0).0 <= (s.instructions[b].time.issue->0).0);
        }
    }
    assert(inv(s2));
    if paced(s, g) {
        assert forall|u: int| 0 <= u < 9 implies #[trigger] pace_slot(s2, u, g) by {
            assert(pace_slot(s, u, g));
        }
    }
}

/// Issuing a store preserves the invariant and the pacing relation.
pub proof fn lemma_issue_store_inv(s: State, i: int, g: int)
    requires
        inv(s),
        s.issued < s.instructions.len(),
        s.instructions[s.issued as int].meta.inst_type == InstructionType::SD,
        0 <= i < s.store_buffers.len(),
        !s.store_buffers[i].busy,
    ensures
        inv(spec_issue_store(s, i)),
        paced(s, g) ==> paced(spec_issue_store(s, i), g),
{
    let s2 = spec_issue_store(s, i);
    let m = s.instructions[s.issued as int].meta;
    let rs = m.rs->0 as int;
    assert(meta_ok(s, m));
    assert(inst_times_ok(s, s.issued as int));
    assert(store_ok(s, i));

    assert forall|j: int| 0 <= j < s2.instructions.len() implies
        meta_ok(s2, (#[trigger] s2.instructions[j]).meta) by {
        assert(meta_ok(s, s.instructions[j].meta));
        assert(s2.instructions[j].meta == s.instructions[j].meta);
    }
    assert forall|j: int| 0 <= j < s2.add_stations.len() implies #[trigger] station_ok(s2, true, j) by {
        assert(station_ok(s, true, j));
    }
    assert forall|j: int| 0 <= j < s2.mul_stations.len() implies #[trigger] station_ok(s2, false, j) by {
        assert(station_ok(s, false, j));
    }
    assert forall|j: int| 0 <= j < s2.load_buffers.len() implies #[trigger] load_ok(s2, j) by {
        assert(load_ok(s, j));
    }
    assert forall|j: int| 0 <= j < s2.store_buffers.len() implies #[trigger] store_ok(s2, j) by {
        assert(store_ok(s, j));
        if j == i {
        }
    }
    assert forall|j: int| 0 <= j < s2.instructions.len() implies inst_times_ok(s2, j) by {
        assert(inst_times_ok(s, j));
    }
    assert forall|t1: Tag, t2: Tag, idx: usize|
        occupies(s2, t1, idx) && occupies(s2, t2, idx) implies t1 == t2 by {
        if t1 != t2 {
            if occupies(s2, t1, idx) && occupies(s2, t2, idx) {
                let name = s.store_buffers[i].name;
                if t1 == name || t2 == name {
                    let other = if t1 == name { t2 } else { t1 };
                    assert(occupies(s2, other, idx));
                    assert(idx == s.issued);
                    assert(occupies(s, other, idx));
                    lemma_no_owner_beyond_frontier(s, other, idx);
                    assert(false);
                } else {
                    assert(occupies(s, t1, idx) && occupies(s, t2, idx));
                }
            }
        }
    }
    assert forall|a: int, b: int|
        #![trigger s2.instructions[a].time.issue, s2.instructions[b].time.issue]
        0 <= a < b < s2.issued && b < s2.instructions.len() implies
        (s2.instructions[a].time.issue->0).0 <= (s2.instructions[b].time.issue->0).0 by {
        assert(inst_times_ok(s, a));
        assert(inst_times_ok(s, b));
        if b < s.issued {
            assert((s.instructions[a].time.issue->0).0 <= (s.instructions[b].time.issue->0).0);
        }
    }
    assert(inv(s2));
    if paced(s, g) {
        assert forall|u: int| 0 <= u < 9 implies #[trigger] pace_slot(s2, u, g) by {
            assert(pace_slot(s, u, g));
        }
    }
}

/// Issuing an arithmetic instruction preserves the invariant and the pacing
/// relation.
pub proof fn lemma_issue_arith_inv(s: State, is_add: bool, i: int, g: int)
    requires
        inv(s),
        s.issued < s.instructions.len(),
        (if is_add {
            s.instructions[s.issued as int].meta.inst_type == InstructionType::ADDD
                || s.instructions[s.issued as int].meta.inst_type == InstructionType::SUBD
        } else {
            s.instructions[s.issued as int].meta.inst_type == InstructionType::MULTD
                || s.instructions[s.issued as int].meta.inst_type == InstructionType::DIVD
        }),
        0 <= i < (if is_add { s.add_stations } else { s.mul_stations }).len(),
        !(if is_add { s.add_stations } else { s.mul_stations })[i].busy,
    ensures
        inv(spec_issue_arith(s, is_add, i)),
        paced(s, g) ==> paced(spec_issue_arith(s, is_add, i), g),
{
    let s2 = spec_issue_arith(s, is_add, i);
    let m = s.instructions[s.issued as int].meta;
    let rd = m.rd->0 as int;
    assert(meta_ok(s, m));
    assert(inst_times_ok(s, s.issued as int));
    if is_add {
        assert(station_ok(s, true, i));
    } else {
        assert(station_ok(s, false, i));
    }

    assert forall|j: int| 0 <= j < s2.instructions.len() implies
        meta_ok(s2, (#[trigger] s2.instructions[j]).meta) by {
        assert(meta_ok(s, s.instructions[j].meta));
        assert(s2.instructions[j].meta == s.instructions[j].meta);
    }
    assert forall|j: int| 0 <= j < s2.add_stations.len() implies #[trigger] station_ok(s2, true, j) by {
        assert(station_ok(s, true, j));
    }
    assert forall|j: int| 0 <= j < s2.mul_stations.len() implies #[trigger] station_ok(s2, false, j) by {
        assert(station_ok(s, false, j));
    }
    assert forall|j: int| 0 <= j < s2.load_buffers.len() implies #[trigger] load_ok(s2, j) by {
        assert(load_ok(s, j));
    }
    assert forall|j: int| 0 <= j < s2.store_buffers.len() implies #[trigger] store_ok(s2, j) by {
        assert(store_ok(s, j));
    }
    assert forall|j: int| 0 <= j < s2.instructions.len() implies inst_times_ok(s2, j) by {
        assert(inst_times_ok(s, j));
    }
    assert forall|t1: Tag, t2: Tag, idx: usize|
        occupies(s2, t1, idx) && occupies(s2, t2, idx) implies t1 == t2 by {
        if t1 != t2 {
            if occupies(s2, t1, idx) && occupies(s2, t2, idx) {
                let name = (if is_add { s.add_stations } else { s.mul_stations })[i].name;
                if t1 == name || t2 == name {
                    let other = if t1 == name { t2 } else { t1 };
                    assert(occupies(s2, other, idx));
                    assert(idx == s.issued);
                    assert(occupies(s, other, idx));
                    lemma_no_owner_beyond_frontier(s, other, idx);
                    assert(false);
                } else {
                    assert(occupies(s, t1, idx) && occupies(s, t2, idx));
                }
            }
        }
    }
    assert forall|a: int, b: int|
        #![trigger s2.instructions[a].time.issue, s2.instructions[b].time.issue]
        0 <= a < b < s2.issued && b < s2.instructions.len() implies
        (s2.instructions[a].time.issue->0).0 <= (s2.instructions[b].time.issue->0).0 by {
        assert(inst_times_ok(s, a));
        assert(inst_times_ok(s, b));
        if b < s.issued {
            assert((s.instructions[a].time.issue->0).0 <= (s.instructions[b].time.issue->0).0);
        }
    }
    assert(inv(s2));
    if paced(s, g) {
        assert forall|u: int| 0 <= u < 9 implies #[trigger] pace_slot(s2, u, g) by {
            assert(pace_slot(s, u, g));
        }
    }
}

/// The issue stage preserves the invariant and the pacing relation.
pub proof fn lemma_issue_inv(s: State)
    requires
        inv(s),
    ensures
        inv(spec_issue(s)),
        forall|g: int| paced(s, g) ==> #[trigger] paced(spec_issue(s), g),
{
    if s.issued < s.instructions.len() {
        let m = s.instructions[s.issued as int].meta;
        assert forall|g: int| paced(s, g) implies #[trigger] paced(spec_issue(s), g) by {
            lemma_issue_inv_one(s, g);
        }
        lemma_issue_inv_one(s, 0);
    }
}

/// Helper: the issue-stage case split for one pacing gap.
proof fn lemma_issue_inv_one(s: State, g: int)
    requires
        inv(s),
        s.issued < s.instructions.len(),
    ensures
        inv(spec_issue(s)),
        paced(s, g) ==> paced(spec_issue(s), g),
{
    let m = s.instructions[s.issued as int].meta;
    match m.inst_type {
        InstructionType::LD => {
            lemma_first_free_load(s.load_buffers, 0);
            match first_free_load(s.load_buffers, 0) {
                Some(i) => {
                    lemma_issue_load_inv(s, i, g);
                },
                None => {},
            }
        },
        InstructionType::SD => {
            lemma_first_free_store(s.store_buffers, 0);
            match first_free_store(s.store_buffers, 0) {
                Some(i) => {
                    lemma_issue_store_inv(s, i, g);
                },
                None => {},
            }
        },
        InstructionType::ADDD | InstructionType::SUBD => {
            lemma_first_free_station(s.add_stations, 0);
            match first_free_station(s.add_stations, 0) {
                Some(i) => {
                    lemma_issue_arith_inv(s, true, i, g);
                },
                None => {},
            }
        },
        InstructionType::MULTD | InstructionType::DIVD => {
            lemma_first_free_station(s.mul_stations, 0);
            match first_free_station(s.mul_stations, 0) {
                Some(i) => {
                    lemma_issue_arith_inv(s, false, i, g);
                },
                None => {},
            }
        },
    }
}


// ---------------------------------------------------------------------------
// The execute stage preserves the invariant
// ---------------------------------------------------------------------------

/// No two distinct busy slots own the same instruction, stated over slot
/// ordinals.
proof fn lemma_ord_distinct(s: State, v: int, u: int)
    requires
        inv(s),
        0 <= v < 9,
        0 <= u < 9,
        v != u,
        ord_busy(s, v),
        ord_busy(s, u),
        ord_idx(s, v) is Some,
        ord_idx(s, u) is Some,
    ensures
        ord_idx(s, v)->0 != ord_idx(s, u)->0,
{
    lemma_ord_occupies(s, v);
    lemma_ord_occupies(s, u);
    if ord_idx(s, v)->0 == ord_idx(s, u)->0 {
        assert(ord_tag(v) == ord_tag(u));
        assert(false);
    }
}

/// The shared body of the execute-step proofs: a state that differs from `s`
/// only in one ticked slot's countdown and its owning instruction's advance
/// keeps the invariant, and the ticked slot reaches gap 0.
///
/// The slot is given by its ordinal `u`; `idx` is the owning instruction.
proof fn lemma_tick_inv_core(s: State, s2: State, u: int, idx: int)
    requires
        inv(s),
        paced_mixed(s, u),
        0 <= u < 9,
        ord_busy(s, u),
        ord_idx(s, u) is Some,
        idx == ord_idx(s, u)->0,
        idx < s.instructions.len(),
        ord_rem(s, u) is Some,
        (ord_rem(s, u)->0).0 > 0,
        // the ticked slot's advance
        ({
            let inst = s.instructions[idx];
            let rc = ord_rem(s, u)->0;
            let (inst2, rc2) = spec_advance(inst, rc, s.cycle);
            &&& s2.instructions == s.instructions.update(idx, inst2)
            &&& ord_rem(s2, u) == Some(rc2)
        }),
        ord_busy(s2, u) == ord_busy(s, u),
        ord_idx(s2, u) == ord_idx(s, u),
        // everything else is unchanged
        forall|v: int| 0 <= v < 9 && v != u ==> #[trigger] ord_busy(s2, v) == ord_busy(s, v)
            && ord_rem(s2, v) == ord_rem(s, v) && ord_idx(s2, v) == ord_idx(s, v),
        s2.cycle == s.cycle,
        s2.issued == s.issued,
        // countdown start rule, from the family invariant of the ticked slot
        ({
            let inst = s.instructions[idx];
            let lat = spec_exec_cycles(inst.meta.inst_type);
            &&& (ord_rem(s, u)->0).0 <= lat
            &&& (inst.time.exec_start is None ==> (ord_rem(s, u)->0).0 == lat)
            &&& (inst.time.completion is Some ==> ord_rem(s, u) == Some(Cycle(0)))
            &&& inst.time.write_back is None
        }),
    ensures
        forall|j: int| 0 <= j < s2.instructions.len() ==> #[trigger] inst_times_ok(s2, j),
        forall|v: int| 0 <= v < 9 ==> #[trigger] pace_slot(s2, v, spec_mix_gap(v, u + 1)),
        s2.instructions[idx].meta == s.instructions[idx].meta,
        s2.instructions[idx].time.issue == s.instructions[idx].time.issue,
        s2.instructions[idx].time.write_back == s.instructions[idx].time.write_back,
        ({
            let inst2 = s2.instructions[idx];
            let lat = spec_exec_cycles(inst2.meta.inst_type);
            let rc2 = ord_rem(s2, u)->0;
            &&& ord_rem(s2, u) is Some
            &&& rc2.0 <= lat
            &&& (inst2.time.exec_start is None ==> rc2.0 == lat)
            &&& (inst2.time.completion is Some ==> rc2 == Cycle(0))
            &&& (inst2.time.exec_start is Some && inst2.time.completion is None ==> rc2.0 >= 1)
        }),
{
    let inst = s.instructions[idx];
    let rc = ord_rem(s, u)->0;
    let lat = spec_exec_cycles(inst.meta.inst_type);
    let (inst2, rc2) = spec_advance(inst, rc, s.cycle);
    assert(inst_times_ok(s, idx));
    assert(pace_slot(s, u, spec_mix_gap(u, u)));

    assert forall|j: int| 0 <= j < s2.instructions.len() implies #[trigger] inst_times_ok(s2, j) by {
        assert(inst_times_ok(s, j));
        if j == idx {
            if inst.time.exec_start is None {
                if inst.time.issue matches Some(ic) && ic.0 < s.cycle.0 {
                    assert(rc.0 == lat);
                    assert(inst2.time.exec_start == Some(s.cycle));
                    if rc2.0 == 0 {
                        assert(inst2.time.completion == Some(s.cycle));
                        assert(lat == 1);
                    }
                }
            } else {
                let es = inst.time.exec_start->0;
                if inst.time.completion is None {
                    assert(s.cycle.0 == es.0 + (lat - 1 - rc.0) + 1);
                    if rc2.0 == 0 {
                        assert(rc.0 == 1);
                        assert(inst2.time.completion == Some(s.cycle));
                        assert(s.cycle.0 == es.0 + lat - 1);
                    }
                } else {
                    assert(rc == Cycle(0));
                    assert(false);
                }
            }
        }
    }
    assert forall|v: int| 0 <= v < 9 implies
        #[trigger] pace_slot(s2, v, spec_mix_gap(v, u + 1)) by {
        if v != u {
            assert(pace_slot(s, v, spec_mix_gap(v, u)));
            if ord_busy(s, v) && ord_idx(s, v) is Some && ord_idx(s, v)->0 < s.instructions.len() {
                lemma_ord_distinct(s, v, u);
                assert(s2.instructions[ord_idx(s, v)->0 as int]
                    == s.instructions[ord_idx(s, v)->0 as int]);
            }
        } else {
            if inst.time.exec_start is None {
                if inst.time.issue matches Some(ic) && ic.0 < s.cycle.0 {
                    assert(rc.0 == lat);
                } else {
                    assert(inst2 == inst);
                }
            } else {
                let es = inst.time.exec_start->0;
                if inst.time.completion is None {
                    assert(s.cycle.0 == es.0 + (lat - 1 - rc.0) + 1);
                } else {
                    assert(rc == Cycle(0));
                    assert(false);
                }
            }
        }
    }
}

/// Ticking one arithmetic station preserves the invariant and moves its
/// pacing from gap 1 to gap 0.
pub proof fn lemma_exec_arith_step(s: State, is_add: bool, i: int, u: int)
    requires
        inv(s),
        paced_mixed(s, u),
        0 <= i < (if is_add { s.add_stations } else { s.mul_stations }).len(),
        u == (if is_add { i } else { 3 + i }),
    ensures
        inv(spec_exec_arith(s, is_add, i)),
        paced_mixed(spec_exec_arith(s, is_add, i), u + 1),
        spec_exec_arith(s, is_add, i).cycle == s.cycle,
        spec_exec_arith(s, is_add, i).issued == s.issued,
{
    let s2 = spec_exec_arith(s, is_add, i);
    let pool = if is_add { s.add_stations } else { s.mul_stations };
    let st = pool[i];
    assert(station_ok(s, is_add, i));
    assert(pace_slot(s, u, spec_mix_gap(u, u)));
    let ticked = st.busy && st.op is Some && st.qj is None && st.qk is None
        && st.remaining_cycles is Some && (st.remaining_cycles->0).0 > 0
        && st.inst_idx is Some && st.inst_idx->0 < s.instructions.len();
    if ticked {
        let idx = st.inst_idx->0 as int;
        let inst = s.instructions[idx];
        let rc = st.remaining_cycles->0;
        assert(inst_times_ok(s, idx));
        lemma_tick_common(s, s2, is_add, i, u, idx);
    } else {
        assert(s2 == s);
        assert forall|v: int| 0 <= v < 9 implies
            #[trigger] pace_slot(s2, v, spec_mix_gap(v, u + 1)) by {
            assert(pace_slot(s, v, spec_mix_gap(v, u)));
            if v == u {
                lemma_pace_slot_untouched(s, is_add, i, u);
            }
        }
    }
}

/// A slot whose guard failed is vacuously paced at either gap: it is free,
/// not started, or already completed.
proof fn lemma_pace_slot_untouched(s: State, is_add: bool, i: int, u: int)
    requires
        inv(s),
        0 <= i < (if is_add { s.add_stations } else { s.mul_stations }).len(),
        u == (if is_add { i } else { 3 + i }),
        !((if is_add { s.add_stations } else { s.mul_stations })[i].busy
            && (if is_add { s.add_stations } else { s.mul_stations })[i].op is Some
            && (if is_add { s.add_stations } else { s.mul_stations })[i].qj is None
            && (if is_add { s.add_stations } else { s.mul_stations })[i].qk is None
            && (if is_add { s.add_stations } else { s.mul_stations })[i].remaining_cycles is Some
            && ((if is_add { s.add_stations } else { s.mul_stations })[i].remaining_cycles->0).0 > 0
            && (if is_add { s.add_stations } else { s.mul_stations })[i].inst_idx is Some
            && (if is_add { s.add_stations } else { s.mul_stations })[i].inst_idx->0 < s.instructions.len()),
    ensures
        pace_slot(s, u, 0),
        pace_slot(s, u, 1),
{
    assert(station_ok(s, is_add, i));
    let st = (if is_add { s.add_stations } else { s.mul_stations })[i];
    if st.busy {
        let idx = st.inst_idx->0 as int;
        let inst = s.instructions[idx];
        if inst.time.exec_start is Some && inst.time.completion is None {
            assert(st.qj is None && st.qk is None && st.remaining_cycles is Some);
            assert((st.remaining_cycles->0).0 >= 1);
            assert(false);
        }
    }
}

/// Ticking one load buffer preserves the invariant and moves its pacing from
/// gap 1 to gap 0.
pub proof fn lemma_exec_load_step(s: State, i: int)
    requires
        inv(s),
        paced_mixed(s, 5 + i),
        0 <= i < s.load_buffers.len(),
    ensures
        inv(spec_exec_load(s, i)),
        paced_mixed(spec_exec_load(s, i), 5 + i + 1),
        spec_exec_load(s, i).cycle == s.cycle,
        spec_exec_load(s, i).issued == s.issued,
{
    let u = 5 + i;
    let s2 = spec_exec_load(s, i);
    let lb = s.load_buffers[i];
    assert(load_ok(s, i));
    assert(pace_slot(s, u, spec_mix_gap(u, u)));
    let ticked = lb.remaining_cycles is Some && (lb.remaining_cycles->0).0 > 0
        && lb.inst_idx is Some && lb.inst_idx->0 < s.instructions.len();
    if ticked && !lb.busy {
        assert(lb == spec_empty_load(lb.name));
        assert(false);
    }
    if ticked {
        let idx = lb.inst_idx->0 as int;
        assert(inst_times_ok(s, idx));
        lemma_tick_common_load(s, s2, i, idx);
    } else {
        assert(s2 == s);
        assert forall|v: int| 0 <= v < 9 implies
            #[trigger] pace_slot(s2, v, spec_mix_gap(v, u + 1)) by {
            assert(pace_slot(s, v, spec_mix_gap(v, u)));
            if v == u {
                if lb.busy {
                    let idx = lb.inst_idx->0 as int;
                    let inst = s.instructions[idx];
                    if inst.time.exec_start is Some && inst.time.completion is None {
                        assert((lb.remaining_cycles->0).0 >= 1);
                        assert(false);
                    }
                }
            }
        }
    }
}

/// Ticking one store buffer preserves the invariant and moves its pacing
/// from gap 1 to gap 0.
pub proof fn lemma_exec_store_step(s: State, i: int)
    requires
        inv(s),
        paced_mixed(s, 7 + i),
        0 <= i < s.store_buffers.len(),
    ensures
        inv(spec_exec_store(s, i)),
        paced_mixed(spec_exec_store(s, i), 7 + i + 1),
        spec_exec_store(s, i).cycle == s.cycle,
        spec_exec_store(s, i).issued == s.issued,
{
    let u = 7 + i;
    let s2 = spec_exec_store(s, i);
    let sb = s.store_buffers[i];
    assert(store_ok(s, i));
    assert(pace_slot(s, u, spec_mix_gap(u, u)));
    let ticked = sb.busy && sb.remaining_cycles is Some && (sb.remaining_cycles->0).0 > 0
        && sb.inst_idx is Some && sb.inst_idx->0 < s.instructions.len();
    if ticked {
        let idx = sb.inst_idx->0 as int;
        assert(inst_times_ok(s, idx));
        lemma_tick_common_store(s, s2, i, idx);
    } else {
        assert(s2 == s);
        assert forall|v: int| 0 <= v < 9 implies
            #[trigger] pace_slot(s2, v, spec_mix_gap(v, u + 1)) by {
            assert(pace_slot(s, v, spec_mix_gap(v, u)));
            if v == u {
                if sb.busy {
                    let idx = sb.inst_idx->0 as int;
                    let inst = s.instructions[idx];
                    if inst.time.exec_start is Some && inst.time.completion is None {
                        assert((sb.remaining_cycles->0).0 >= 1);
                        assert(false);
                    }
                }
            }
        }
    }
}

/// The execute step for a busy arithmetic station whose guard holds.
proof fn lemma_tick_common(s: State, s2: State, is_add: bool, i: int, u: int, idx: int)
    requires
        inv(s),
        paced_mixed(s, u),
        0 <= i < (if is_add { s.add_stations } else { s.mul_stations }).len(),
        u == (if is_add { i } else { 3 + i }),
        ({
            let st = (if is_add { s.add_stations } else { s.mul_stations })[i];
            &&& st.busy
            &&& st.op is Some
            &&& st.qj is None
            &&& st.qk is None
            &&& st.remaining_cycles is Some
            &&& (st.remaining_cycles->0).0 > 0
            &&& st.inst_idx is Some
            &&& idx == st.inst_idx->0
            &&& idx < s.instructions.len()
        }),
        s2 == spec_exec_arith(s, is_add, i),
    ensures
        inv(s2),
        paced_mixed(s2, u + 1),
{
    let st = (if is_add { s.add_stations } else { s.mul_stations })[i];
    assert(station_ok(s, is_add, i));
    assert forall|v: int| 0 <= v < 9 && v != u implies #[trigger] ord_busy(s2, v) == ord_busy(s, v)
        && ord_rem(s2, v) == ord_rem(s, v) && ord_idx(s2, v) == ord_idx(s, v) by {}
    lemma_tick_inv_core(s, s2, u, idx);

    assert forall|j: int| 0 <= j < s2.instructions.len() implies
        meta_ok(s2, (#[trigger] s2.instructions[j]).meta) by {
        assert(meta_ok(s, s.instructions[j].meta));
        assert(s2.instructions[j].meta == s.instructions[j].meta);
    }
    assert forall|j: int| 0 <= j < s2.add_stations.len() implies #[trigger] station_ok(s2, true, j) by {
        assert(station_ok(s, true, j));
        if !(is_add && j == i) {
            if s.add_stations[j].busy {
                lemma_ord_distinct(s, j, u);
                assert(s2.instructions[s.add_stations[j].inst_idx->0 as int]
                    == s.instructions[s.add_stations[j].inst_idx->0 as int]);
            }
        }
    }
    assert forall|j: int| 0 <= j < s2.mul_stations.len() implies #[trigger] station_ok(s2, false, j) by {
        assert(station_ok(s, false, j));
        if !(!is_add && j == i) {
            if s.mul_stations[j].busy {
                lemma_ord_distinct(s, 3 + j, u);
                assert(s2.instructions[s.mul_stations[j].inst_idx->0 as int]
                    == s.instructions[s.mul_stations[j].inst_idx->0 as int]);
            }
        }
    }
    assert forall|j: int| 0 <= j < s2.load_buffers.len() implies #[trigger] load_ok(s2, j) by {
        assert(load_ok(s, j));
        if !(false) {
            if s.load_buffers[j].busy {
                lemma_ord_distinct(s, 5 + j, u);
                assert(s2.instructions[s.load_buffers[j].inst_idx->0 as int]
                    == s.instructions[s.load_buffers[j].inst_idx->0 as int]);
            }
        }
    }
    assert forall|j: int| 0 <= j < s2.store_buffers.len() implies #[trigger] store_ok(s2, j) by {
        assert(store_ok(s, j));
        if !(false) {
            if s.store_buffers[j].busy {
                lemma_ord_distinct(s, 7 + j, u);
                assert(s2.instructions[s.store_buffers[j].inst_idx->0 as int]
                    == s.instructions[s.store_buffers[j].inst_idx->0 as int]);
            }
        }
    }
    assert forall|a: int, b: int|
        #![trigger s2.instructions[a].time.issue, s2.instructions[b].time.issue]
        0 <= a < b < s2.issued && b < s2.instructions.len() implies
        (s2.instructions[a].time.issue->0).0 <= (s2.instructions[b].time.issue->0).0 by {
        assert((s.instructions[a].time.issue->0).0 <= (s.instructions[b].time.issue->0).0);
        assert(s2.instructions[a].time.issue == s.instructions[a].time.issue);
        assert(s2.instructions[b].time.issue == s.instructions[b].time.issue);
    }
    assert forall|t1: Tag, t2: Tag, k: usize|
        occupies(s2, t1, k) && occupies(s2, t2, k) implies t1 == t2 by {
        if occupies(s2, t1, k) && occupies(s2, t2, k) {
            assert(occupies(s, t1, k));
            assert(occupies(s, t2, k));
        }
    }
    assert(inv(s2));
}

/// The execute step for a busy load buffer whose guard holds.
proof fn lemma_tick_common_load(s: State, s2: State, i: int, idx: int)
    requires
        inv(s),
        paced_mixed(s, 5 + i),
        0 <= i < s.load_buffers.len(),
        ({
            let lb = s.load_buffers[i];
            &&& lb.busy
            &&& lb.remaining_cycles is Some
            &&& (lb.remaining_cycles->0).0 > 0
            &&& lb.inst_idx is Some
            &&& idx == lb.inst_idx->0
            &&& idx < s.instructions.len()
        }),
        s2 == spec_exec_load(s, i),
    ensures
        inv(s2),
        paced_mixed(s2, 5 + i + 1),
{
    let u = 5 + i;
    let lb = s.load_buffers[i];
    assert(load_ok(s, i));
    assert forall|v: int| 0 <= v < 9 && v != u implies #[trigger] ord_busy(s2, v) == ord_busy(s, v)
        && ord_rem(s2, v) == ord_rem(s, v) && ord_idx(s2, v) == ord_idx(s, v) by {}
    lemma_tick_inv_core(s, s2, u, idx);

    assert forall|j: int| 0 <= j < s2.instructions.len() implies
        meta_ok(s2, (#[trigger] s2.instructions[j]).meta) by {
        assert(meta_ok(s, s.instructions[j].meta));
        assert(s2.instructions[j].meta == s.instructions[j].meta);
    }
    assert forall|j: int| 0 <= j < s2.add_stations.len() implies #[trigger] station_ok(s2, true, j) by {
        assert(station_ok(s, true, j));
        if !(false) {
            if s.add_stations[j].busy {
                lemma_ord_distinct(s, j, u);
                assert(s2.instructions[s.add_stations[j].inst_idx->0 as int]
                    == s.instructions[s.add_stations[j].inst_idx->0 as int]);
            }
        }
    }
    assert forall|j: int| 0 <= j < s2.mul_stations.len() implies #[trigger] station_ok(s2, false, j) by {
        assert(station_ok(s, false, j));
        if !(false) {
            if s.mul_stations[j].busy {
                lemma_ord_distinct(s, 3 + j, u);
                assert(s2.instructions[s.mul_stations[j].inst_idx->0 as int]
                    == s.instructions[s.mul_stations[j].inst_idx->0 as int]);
            }
        }
    }
    assert forall|j: int| 0 <= j < s2.load_buffers.len() implies #[trigger] load_ok(s2, j) by {
        assert(load_ok(s, j));
        if !(j == i) {
            if s.load_buffers[j].busy {
                lemma_ord_distinct(s, 5 + j, u);
                assert(s2.instructions[s.load_buffers[j].inst_idx->0 as int]
                    == s.instructions[s.load_buffers[j].inst_idx->0 as int]);
            }
        }
    }
    assert forall|j: int| 0 <= j < s2.store_buffers.len() implies #[trigger] store_ok(s2, j) by {
        assert(store_ok(s, j));
        if !(false) {
            if s.store_buffers[j].busy {
                lemma_ord_distinct(s, 7 + j, u);
                assert(s2.instructions[s.store_buffers[j].inst_idx->0 as int]
                    == s.instructions[s.store_buffers[j].inst_idx->0 as int]);
            }
        }
    }
    assert forall|a: int, b: int|
        #![trigger s2.instructions[a].time.issue, s2.instructions[b].time.issue]
        0 <= a < b < s2.issued && b < s2.instructions.len() implies
        (s2.instructions[a].time.issue->0).0 <= (s2.instructions[b].time.issue->0).0 by {
        assert((s.instructions[a].time.issue->0).0 <= (s.instructions[b].time.issue->0).0);
        assert(s2.instructions[a].time.issue == s.instructions[a].time.issue);
        assert(s2.instructions[b].time.issue == s.instructions[b].time.issue);
    }
    assert forall|t1: Tag, t2: Tag, k: usize|
        occupies(s2, t1, k) && occupies(s2, t2, k) implies t1 == t2 by {
        if occupies(s2, t1, k) && occupies(s2, t2, k) {
            assert(occupies(s, t1, k));
            assert(occupies(s, t2, k));
        }
    }
    assert(inv(s2));
}

/// The execute step for a busy store buffer whose guard holds.
proof fn lemma_tick_common_store(s: State, s2: State, i: int, idx: int)
    requires
        inv(s),
        paced_mixed(s, 7 + i),
        0 <= i < s.store_buffers.len(),
        ({
            let sb = s.store_buffers[i];
            &&& sb.busy
            &&& sb.remaining_cycles is Some
            &&& (sb.remaining_cycles->0).0 > 0
            &&& sb.inst_idx is Some
            &&& idx == sb.inst_idx->0
            &&& idx < s.instructions.len()
        }),
        s2 == spec_exec_store(s, i),
    ensures
        inv(s2),
        paced_mixed(s2, 7 + i + 1),
{
    let u = 7 + i;
    let sb = s.store_buffers[i];
    assert(store_ok(s, i));
    assert forall|v: int| 0 <= v < 9 && v != u implies #[trigger] ord_busy(s2, v) == ord_busy(s, v)
        && ord_rem(s2, v) == ord_rem(s, v) && ord_idx(s2, v) == ord_idx(s, v) by {}
    lemma_tick_inv_core(s, s2, u, idx);

    assert forall|j: int| 0 <= j < s2.instructions.len() implies
        meta_ok(s2, (#[trigger] s2.instructions[j]).meta) by {
        assert(meta_ok(s, s.instructions[j].meta));
        assert(s2.instructions[j].meta == s.instructions[j].meta);
    }
    assert forall|j: int| 0 <= j < s2.add_stations.len() implies #[trigger] station_ok(s2, true, j) by {
        assert(station_ok(s, true, j));
        if !(false) {
            if s.add_stations[j].busy {
                lemma_ord_distinct(s, j, u);
                assert(s2.instructions[s.add_stations[j].inst_idx->0 as int]
                    == s.instructions[s.add_stations[j].inst_idx->0 as int]);
            }
        }
    }
    assert forall|j: int| 0 <= j < s2.mul_stations.len() implies #[trigger] station_ok(s2, false, j) by {
        assert(station_ok(s, false, j));
        if !(false) {
            if s.mul_stations[j].busy {
                lemma_ord_distinct(s, 3 + j, u);
                assert(s2.instructions[s.mul_stations[j].inst_idx->0 as int]
                    == s.instructions[s.mul_stations[j].inst_idx->0 as int]);
            }
        }
    }
    assert forall|j: int| 0 <= j < s2.load_buffers.len() implies #[trigger] load_ok(s2, j) by {
        assert(load_ok(s, j));
        if !(false) {
            if s.load_buffers[j].busy {
                lemma_ord_distinct(s, 5 + j, u);
                assert(s2.instructions[s.load_buffers[j].inst_idx->0 as int]
                    == s.instructions[s.load_buffers[j].inst_idx->0 as int]);
            }
        }
    }
    assert forall|j: int| 0 <= j < s2.store_buffers.len() implies #[trigger] store_ok(s2, j) by {
        assert(store_ok(s, j));
        if !(j == i) {
            if s.store_buffers[j].busy {
                lemma_ord_distinct(s, 7 + j, u);
                assert(s2.instructions[s.store_buffers[j].inst_idx->0 as int]
                    == s.instructions[s.store_buffers[j].inst_idx->0 as int]);
            }
        }
    }
    assert forall|a: int, b: int|
        #![trigger s2.instructions[a].time.issue, s2.instructions[b].time.issue]
        0 <= a < b < s2.issued && b < s2.instructions.len() implies
        (s2.instructions[a].time.issue->0).0 <= (s2.instructions[b].time.issue->0).0 by {
        assert((s.instructions[a].time.issue->0).0 <= (s.instructions[b].time.issue->0).0);
        assert(s2.instructions[a].time.issue == s.instructions[a].time.issue);
        assert(s2.instructions[b].time.issue == s.instructions[b].time.issue);
    }
    assert forall|t1: Tag, t2: Tag, k: usize|
        occupies(s2, t1, k) && occupies(s2, t2, k) implies t1 == t2 by {
        if occupies(s2, t1, k) && occupies(s2, t2, k) {
            assert(occupies(s, t1, k));
            assert(occupies(s, t2, k));
        }
    }
    assert(inv(s2));
}

/// The execute stage preserves the invariant and brings every slot from gap
/// 1 to gap 0.
pub proof fn lemma_execute_inv(s: State)
    requires
        inv(s),
        paced(s, 1),
    ensures
        inv(spec_execute(s)),
        paced(spec_execute(s), 0),
        spec_execute(s).cycle == s.cycle,
        spec_execute(s).issued == s.issued,
{
    assert forall|u: int| 0 <= u < 9 implies #[trigger] pace_slot(s, u, spec_mix_gap(u, 0)) by {
        assert(pace_slot(s, u, 1));
    }
    let s1 = spec_exec_arith(s, true, 0);
    lemma_exec_arith_step(s, true, 0, 0);
    let s2 = spec_exec_arith(s1, true, 1);
    lemma_exec_arith_step(s1, true, 1, 1);
    let s3 = spec_exec_arith(s2, true, 2);
    lemma_exec_arith_step(s2, true, 2, 2);
    let s4 = spec_exec_arith(s3, false, 0);
    lemma_exec_arith_step(s3, false, 0, 3);
    let s5 = spec_exec_arith(s4, false, 1);
    lemma_exec_arith_step(s4, false, 1, 4);
    let s6 = spec_exec_load(s5, 0);
    lemma_exec_load_step(s5, 0);
    let s7 = spec_exec_load(s6, 1);
    lemma_exec_load_step(s6, 1);
    let s8 = spec_exec_store(s7, 0);
    lemma_exec_store_step(s7, 0);
    let s9 = spec_exec_store(s8, 1);
    lemma_exec_store_step(s8, 1);
    assert forall|u: int| 0 <= u < 9 implies #[trigger] pace_slot(s9, u, 0) by {
        assert(pace_slot(s9, u, spec_mix_gap(u, 9)));
    }
}

// ---------------------------------------------------------------------------
// The write-back stage preserves the invariant
// ---------------------------------------------------------------------------

/// The slot with ordinal `u` writes back (and is released) this cycle: it is
/// a candidate, and a store buffer additionally holds a ready datum.
pub open spec fn wb_released(s: State, u: int) -> bool {
    &&& spec_candidate(s, ord_busy(s, u), ord_idx(s, u))
    &&& (u >= 7 ==> s.store_buffers[u - 7].data matches Some(StoreData::Ready(_)))
}

/// Instruction `j` with its write-back stamped at the current cycle.
pub open spec fn spec_stamped(s: State, j: int) -> Instruction {
    let inst = s.instructions[j];
    Instruction {
        time: InstructionTime { write_back: Some(s.cycle), ..inst.time },
        ..inst
    }
}

/// Instruction `j` is owned by a slot of ordinal below `k` that writes back
/// this cycle.
pub open spec fn owned_released(s: State, j: int, k: int) -> bool {
    exists|u: int| 0 <= u < k && #[trigger] wb_released(s, u) && ord_idx(s, u) == Some(j as usize)
}

/// The tag belongs to a slot of ordinal below `k` that writes back this
/// cycle.
pub open spec fn rel_tag_ok(s: State, t: Tag, k: int) -> bool {
    exists|u: int| 0 <= u < k && #[trigger] wb_released(s, u) && ord_tag(u) == t
}

/// How the write-back scan's accumulator relates to the starting state after
/// the slots of ordinal below `k` have been scanned.
pub open spec fn scan_rel(s: State, a: WbScan, k: int) -> bool {
    &&& a.s.cycle == s.cycle
    &&& a.s.issued == s.issued
    &&& a.s.int == s.int
    &&& a.s.fp == s.fp
    &&& a.s.table == s.table
    &&& a.s.memory.len() == s.memory.len()
    &&& a.s.instructions.len() == s.instructions.len()
    &&& a.s.add_stations.len() == s.add_stations.len()
    &&& a.s.mul_stations.len() == s.mul_stations.len()
    &&& a.s.load_buffers.len() == s.load_buffers.len()
    &&& a.s.store_buffers.len() == s.store_buffers.len()
    &&& forall|j: int| 0 <= j < s.add_stations.len() ==> #[trigger] a.s.add_stations[j]
        == (if j < k && wb_released(s, j) {
                ReservationStation { remaining_cycles: None, ..s.add_stations[j] }
            } else {
                s.add_stations[j]
            })
    &&& forall|j: int| 0 <= j < s.mul_stations.len() ==> #[trigger] a.s.mul_stations[j]
        == (if 3 + j < k && wb_released(s, 3 + j) {
                ReservationStation { remaining_cycles: None, ..s.mul_stations[j] }
            } else {
                s.mul_stations[j]
            })
    &&& forall|j: int| 0 <= j < s.load_buffers.len() ==> #[trigger] a.s.load_buffers[j]
        == (if 5 + j < k && wb_released(s, 5 + j) {
                LoadBuffer { remaining_cycles: None, ..s.load_buffers[j] }
            } else {
                s.load_buffers[j]
            })
    &&& forall|j: int| 0 <= j < s.store_buffers.len() ==> #[trigger] a.s.store_buffers[j]
        == (if 7 + j < k && wb_released(s, 7 + j) {
                StoreBuffer { remaining_cycles: None, ..s.store_buffers[j] }
            } else {
                s.store_buffers[j]
            })
    &&& forall|j: int| 0 <= j < s.instructions.len() ==> #[trigger] a.s.instructions[j]
        == (if owned_released(s, j, k) { spec_stamped(s, j) } else { s.instructions[j] })
    &&& forall|m: int| 0 <= m < a.rel.len() ==> rel_tag_ok(s, #[trigger] a.rel[m], k)
    &&& forall|u: int| 0 <= u < k && #[trigger] wb_released(s, u) ==> a.rel.contains(ord_tag(u))
    &&& forall|u: int| 0 <= u < k && u < 7 && #[trigger] wb_released(s, u)
        ==> exists|m: int| 0 <= m < a.bl.len() && (#[trigger] a.bl[m]).tag == ord_tag(u)
            && a.bl[m].dest == spec_dest_of(s, u)
}

/// During the scan, a slot not yet reached looks exactly as it did at the
/// start of the stage, and so does its candidacy.
pub proof fn lemma_scan_unreached(s: State, a: WbScan, u: int)
    requires
        inv(s),
        scan_rel(s, a, u),
        0 <= u < 9,
    ensures
        ord_busy(a.s, u) == ord_busy(s, u),
        ord_idx(a.s, u) == ord_idx(s, u),
        ord_busy(s, u) && ord_idx(s, u) is Some && ord_idx(s, u)->0 < s.instructions.len()
            ==> a.s.instructions[ord_idx(s, u)->0 as int] == s.instructions[ord_idx(s, u)->0 as int],
        spec_candidate(a.s, ord_busy(a.s, u), ord_idx(a.s, u))
            == spec_candidate(s, ord_busy(s, u), ord_idx(s, u)),
{
    if ord_busy(s, u) && ord_idx(s, u) is Some && ord_idx(s, u)->0 < s.instructions.len() {
        let idx = ord_idx(s, u)->0 as int;
        if owned_released(s, idx, u) {
            let v = choose|v: int| 0 <= v < u && #[trigger] wb_released(s, v)
                && ord_idx(s, v) == Some(idx as usize);
            lemma_ord_distinct(s, v, u);
            assert(false);
        }
        assert(a.s.instructions[idx] == s.instructions[idx]);
    }
}

/// One arithmetic scan step maintains the scan relation.
pub proof fn lemma_scan_step_arith(s: State, a: WbScan, results: Seq<u64>, is_add: bool, i: int)
    requires
        inv(s),
        0 <= i < (if is_add { s.add_stations } else { s.mul_stations }).len(),
        scan_rel(s, a, if is_add { i } else { 3 + i }),
    ensures
        scan_rel(s, spec_wb_arith(a, results, is_add, i), 1 + if is_add { i } else { 3 + i }),
{
    let u = if is_add { i } else { 3 + i };
    let a2 = spec_wb_arith(a, results, is_add, i);
    lemma_scan_unreached(s, a, u);
    let st = (if is_add { s.add_stations } else { s.mul_stations })[i];
    assert(station_ok(s, is_add, i));
    if spec_candidate(s, st.busy, st.inst_idx) {
        let idx = st.inst_idx->0 as int;
        assert(wb_released(s, u));
        assert(ord_tag(u) == st.name);
        assert forall|j: int| 0 <= j < s.instructions.len() implies #[trigger] a2.s.instructions[j]
            == (if owned_released(s, j, u + 1) { spec_stamped(s, j) } else { s.instructions[j] }) by {
            if j == idx {
                assert(wb_released(s, u) && ord_idx(s, u) == Some(j as usize));
                assert(owned_released(s, j, u + 1));
                assert(a2.s.instructions[j] == spec_stamped(s, j));
            } else {
                if owned_released(s, j, u + 1) {
                    let v = choose|v: int| 0 <= v < u + 1 && #[trigger] wb_released(s, v)
                        && ord_idx(s, v) == Some(j as usize);
                    assert(v != u);
                    assert(owned_released(s, j, u));
                } else {
                    assert(!owned_released(s, j, u));
                }
            }
        }
        assert forall|m: int| 0 <= m < a2.rel.len() implies rel_tag_ok(s, #[trigger] a2.rel[m], u + 1) by {
            if m < a.rel.len() {
                assert(rel_tag_ok(s, a.rel[m], u));
            } else {
                assert(a2.rel[m] == st.name);
                assert(wb_released(s, u) && ord_tag(u) == st.name);
            }
        }
        assert forall|v: int| 0 <= v < u + 1 && #[trigger] wb_released(s, v) implies
            a2.rel.contains(ord_tag(v)) by {
            if v < u {
                let m = choose|m: int| 0 <= m < a.rel.len() && a.rel[m] == ord_tag(v);
                assert(a2.rel[m] == ord_tag(v));
            } else {
                assert(a2.rel[a.rel.len() as int] == st.name);
            }
        }
        assert forall|v: int| 0 <= v < u + 1 && v < 7 && #[trigger] wb_released(s, v) implies
            exists|m: int| 0 <= m < a2.bl.len() && (#[trigger] a2.bl[m]).tag == ord_tag(v)
                && a2.bl[m].dest == spec_dest_of(s, v) by {
            if v < u {
                let m = choose|m: int| 0 <= m < a.bl.len() && (#[trigger] a.bl[m]).tag == ord_tag(v)
                    && a.bl[m].dest == spec_dest_of(s, v);
                assert(a2.bl[m] == a.bl[m]);
            } else {
                assert(a.s.instructions[idx].meta == s.instructions[idx].meta);
                assert((#[trigger] a2.bl[a.bl.len() as int]).tag == ord_tag(u));
                assert(a2.bl[a.bl.len() as int].dest == spec_dest_of(s, u));
            }
        }
        assert(scan_rel(s, a2, u + 1));
    } else {
        assert(!wb_released(s, u));
        assert(a2 == a);
        assert forall|j: int| 0 <= j < s.instructions.len() implies #[trigger] a2.s.instructions[j]
            == (if owned_released(s, j, u + 1) { spec_stamped(s, j) } else { s.instructions[j] }) by {
            if owned_released(s, j, u + 1) {
                let v = choose|v: int| 0 <= v < u + 1 && #[trigger] wb_released(s, v)
                    && ord_idx(s, v) == Some(j as usize);
                assert(v != u);
                assert(owned_released(s, j, u));
            } else {
                assert(!owned_released(s, j, u));
            }
        }
        assert forall|m: int| 0 <= m < a2.rel.len() implies rel_tag_ok(s, #[trigger] a2.rel[m], u + 1) by {
            assert(rel_tag_ok(s, a.rel[m], u));
        }
        assert(scan_rel(s, a2, u + 1));
    }
}

/// One load-buffer scan step maintains the scan relation.
pub proof fn lemma_scan_step_load(s: State, a: WbScan, i: int)
    requires
        inv(s),
        0 <= i < s.load_buffers.len(),
        scan_rel(s, a, 5 + i),
    ensures
        scan_rel(s, spec_wb_load(a, i), 5 + i + 1),
{
    let u = 5 + i;
    let a2 = spec_wb_load(a, i);
    lemma_scan_unreached(s, a, u);
    let lb = s.load_buffers[i];
    assert(load_ok(s, i));
    if spec_candidate(s, lb.busy, lb.inst_idx) {
        let idx = lb.inst_idx->0 as int;
        assert(wb_released(s, u));
        assert(ord_tag(u) == lb.name);
        assert forall|j: int| 0 <= j < s.instructions.len() implies #[trigger] a2.s.instructions[j]
            == (if owned_released(s, j, u + 1) { spec_stamped(s, j) } else { s.instructions[j] }) by {
            if j == idx {
                assert(wb_released(s, u) && ord_idx(s, u) == Some(j as usize));
                assert(owned_released(s, j, u + 1));
                assert(a2.s.instructions[j] == spec_stamped(s, j));
            } else {
                if owned_released(s, j, u + 1) {
                    let v = choose|v: int| 0 <= v < u + 1 && #[trigger] wb_released(s, v)
                        && ord_idx(s, v) == Some(j as usize);
                    assert(v != u);
                    assert(owned_released(s, j, u));
                } else {
                    assert(!owned_released(s, j, u));
                }
            }
        }
        assert forall|m: int| 0 <= m < a2.rel.len() implies rel_tag_ok(s, #[trigger] a2.rel[m], u + 1) by {
            if m < a.rel.len() {
                assert(rel_tag_ok(s, a.rel[m], u));
            } else {
                assert(a2.rel[m] == lb.name);
                assert(wb_released(s, u) && ord_tag(u) == lb.name);
            }
        }
        assert forall|v: int| 0 <= v < u + 1 && #[trigger] wb_released(s, v) implies
            a2.rel.contains(ord_tag(v)) by {
            if v < u {
                let m = choose|m: int| 0 <= m < a.rel.len() && a.rel[m] == ord_tag(v);
                assert(a2.rel[m] == ord_tag(v));
            } else {
                assert(a2.rel[a.rel.len() as int] == lb.name);
            }
        }
        assert forall|v: int| 0 <= v < u + 1 && v < 7 && #[trigger] wb_released(s, v) implies
            exists|m: int| 0 <= m < a2.bl.len() && (#[trigger] a2.bl[m]).tag == ord_tag(v)
                && a2.bl[m].dest == spec_dest_of(s, v) by {
            if v < u {
                let m = choose|m: int| 0 <= m < a.bl.len() && (#[trigger] a.bl[m]).tag == ord_tag(v)
                    && a.bl[m].dest == spec_dest_of(s, v);
                assert(a2.bl[m] == a.bl[m]);
            } else {
                assert((#[trigger] a2.bl[a.bl.len() as int]).tag == ord_tag(u));
                assert(a2.bl[a.bl.len() as int].dest == spec_dest_of(s, u));
            }
        }
        assert(scan_rel(s, a2, u + 1));
    } else {
        assert(!wb_released(s, u));
        assert(a2 == a);
        assert forall|j: int| 0 <= j < s.instructions.len() implies #[trigger] a2.s.instructions[j]
            == (if owned_released(s, j, u + 1) { spec_stamped(s, j) } else { s.instructions[j] }) by {
            if owned_released(s, j, u + 1) {
                let v = choose|v: int| 0 <= v < u + 1 && #[trigger] wb_released(s, v)
                    && ord_idx(s, v) == Some(j as usize);
                assert(v != u);
                assert(owned_released(s, j, u));
            } else {
                assert(!owned_released(s, j, u));
            }
        }
        assert forall|m: int| 0 <= m < a2.rel.len() implies rel_tag_ok(s, #[trigger] a2.rel[m], u + 1) by {
            assert(rel_tag_ok(s, a.rel[m], u));
        }
        assert(scan_rel(s, a2, u + 1));
    }
}

/// One store-buffer scan step maintains the scan relation.
pub proof fn lemma_scan_step_store(s: State, a: WbScan, i: int)
    requires
        inv(s),
        0 <= i < s.store_buffers.len(),
        scan_rel(s, a, 7 + i),
    ensures
        scan_rel(s, spec_wb_store(a, i), 7 + i + 1),
{
    let u = 7 + i;
    let a2 = spec_wb_store(a, i);
    lemma_scan_unreached(s, a, u);
    let sb = s.store_buffers[i];
    assert(store_ok(s, i));
    if spec_candidate(s, sb.busy, sb.inst_idx) && (sb.data matches Some(StoreData::Ready(_))) {
        let idx = sb.inst_idx->0 as int;
        assert(wb_released(s, u));
        assert(ord_tag(u) == sb.name);
        assert forall|j: int| 0 <= j < s.instructions.len() implies #[trigger] a2.s.instructions[j]
            == (if owned_released(s, j, u + 1) { spec_stamped(s, j) } else { s.instructions[j] }) by {
            if j == idx {
                assert(wb_released(s, u) && ord_idx(s, u) == Some(j as usize));
                assert(owned_released(s, j, u + 1));
                assert(a2.s.instructions[j] == spec_stamped(s, j));
            } else {
                if owned_released(s, j, u + 1) {
                    let v = choose|v: int| 0 <= v < u + 1 && #[trigger] wb_released(s, v)
                        && ord_idx(s, v) == Some(j as usize);
                    assert(v != u);
                    assert(owned_released(s, j, u));
                } else {
                    assert(!owned_released(s, j, u));
                }
            }
        }
        assert forall|m: int| 0 <= m < a2.rel.len() implies rel_tag_ok(s, #[trigger] a2.rel[m], u + 1) by {
            if m < a.rel.len() {
                assert(rel_tag_ok(s, a.rel[m], u));
            } else {
                assert(a2.rel[m] == sb.name);
                assert(wb_released(s, u) && ord_tag(u) == sb.name);
            }
        }
        assert forall|v: int| 0 <= v < u + 1 && #[trigger] wb_released(s, v) implies
            a2.rel.contains(ord_tag(v)) by {
            if v < u {
                let m = choose|m: int| 0 <= m < a.rel.len() && a.rel[m] == ord_tag(v);
                assert(a2.rel[m] == ord_tag(v));
            } else {
                assert(a2.rel[a.rel.len() as int] == sb.name);
            }
        }
        assert forall|v: int| 0 <= v < u + 1 && v < 7 && #[trigger] wb_released(s, v) implies
            exists|m: int| 0 <= m < a2.bl.len() && (#[trigger] a2.bl[m]).tag == ord_tag(v)
                && a2.bl[m].dest == spec_dest_of(s, v) by {
            let m = choose|m: int| 0 <= m < a.bl.len() && (#[trigger] a.bl[m]).tag == ord_tag(v)
                && a.bl[m].dest == spec_dest_of(s, v);
            assert(a2.bl[m] == a.bl[m]);
        }
        assert(scan_rel(s, a2, u + 1));
    } else {
        assert(!wb_released(s, u));
        assert(a2 == a);
        assert forall|j: int| 0 <= j < s.instructions.len() implies #[trigger] a2.s.instructions[j]
            == (if owned_released(s, j, u + 1) { spec_stamped(s, j) } else { s.instructions[j] }) by {
            if owned_released(s, j, u + 1) {
                let v = choose|v: int| 0 <= v < u + 1 && #[trigger] wb_released(s, v)
                    && ord_idx(s, v) == Some(j as usize);
                assert(v != u);
                assert(owned_released(s, j, u));
            } else {
                assert(!owned_released(s, j, u));
            }
        }
        assert forall|m: int| 0 <= m < a2.rel.len() implies rel_tag_ok(s, #[trigger] a2.rel[m], u + 1) by {
            assert(rel_tag_ok(s, a.rel[m], u));
        }
        assert(scan_rel(s, a2, u + 1));
    }
}

/// The whole scan satisfies the scan relation.
pub proof fn lemma_scan_rel(s: State, results: Seq<u64>)
    requires
        inv(s),
    ensures
        scan_rel(s, spec_wb_scan(s, results), 9),
{
    let a0 = WbScan { s, bl: Seq::empty(), rel: Seq::empty(), k: 0 };
    assert forall|j: int| 0 <= j < s.instructions.len() implies #[trigger] a0.s.instructions[j]
        == (if owned_released(s, j, 0) { spec_stamped(s, j) } else { s.instructions[j] }) by {
        assert(!owned_released(s, j, 0));
    }
    assert(scan_rel(s, a0, 0));
    let a1 = spec_wb_arith(a0, results, true, 0);
    lemma_scan_step_arith(s, a0, results, true, 0);
    let a2 = spec_wb_arith(a1, results, true, 1);
    lemma_scan_step_arith(s, a1, results, true, 1);
    let a3 = spec_wb_arith(a2, results, true, 2);
    lemma_scan_step_arith(s, a2, results, true, 2);
    let a4 = spec_wb_arith(a3, results, false, 0);
    lemma_scan_step_arith(s, a3, results, false, 0);
    let a5 = spec_wb_arith(a4, results, false, 1);
    lemma_scan_step_arith(s, a4, results, false, 1);
    let a6 = spec_wb_load(a5, 0);
    lemma_scan_step_load(s, a5, 0);
    let a7 = spec_wb_load(a6, 1);
    lemma_scan_step_load(s, a6, 1);
    let a8 = spec_wb_store(a7, 0);
    lemma_scan_step_store(s, a7, 0);
    lemma_scan_step_store(s, a8, 1);
}

/// How a broadcast batch may change one station: nothing but resolving a
/// pending tag into a ready value.
pub open spec fn resolve_rel_station(st: ReservationStation, st2: ReservationStation) -> bool {
    &&& st2.name == st.name
    &&& st2.busy == st.busy
    &&& st2.op == st.op
    &&& st2.inst_idx == st.inst_idx
    &&& st2.remaining_cycles == st.remaining_cycles
    &&& ((st2.qj == st.qj && st2.vj == st.vj)
        || (st.qj is Some && st2.qj is None && st2.vj is Some))
    &&& ((st2.qk == st.qk && st2.vk == st.vk)
        || (st.qk is Some && st2.qk is None && st2.vk is Some))
}

/// How a broadcast batch may change one store buffer: nothing but marking a
/// pending datum ready.
pub open spec fn resolve_rel_store(sb: StoreBuffer, sb2: StoreBuffer) -> bool {
    &&& sb2.name == sb.name
    &&& sb2.busy == sb.busy
    &&& sb2.base == sb.base
    &&& sb2.offset == sb.offset
    &&& sb2.inst_idx == sb.inst_idx
    &&& sb2.remaining_cycles == sb.remaining_cycles
    &&& (sb2.data == sb.data
        || ((sb.data matches Some(StoreData::Waiting(_)))
            && (sb2.data matches Some(StoreData::Ready(_)))))
}

/// Applying a broadcast batch only resolves pending operands, updates
/// registers and the renaming table, and touches nothing else.
pub proof fn lemma_bcasts_rel(s: State, bl: Seq<Broadcast>)
    ensures
        ({
            let s2 = spec_apply_bcasts(s, bl);
            &&& s2.instructions == s.instructions
            &&& s2.cycle == s.cycle
            &&& s2.issued == s.issued
            &&& s2.int == s.int
            &&& s2.memory == s.memory
            &&& s2.fp.len() == s.fp.len()
            &&& s2.table.len() == s.table.len()
            &&& s2.add_stations.len() == s.add_stations.len()
            &&& s2.mul_stations.len() == s.mul_stations.len()
            &&& s2.load_buffers == s.load_buffers
            &&& s2.store_buffers.len() == s.store_buffers.len()
            &&& forall|j: int| 0 <= j < s.add_stations.len()
                ==> resolve_rel_station(s.add_stations[j], #[trigger] s2.add_stations[j])
            &&& forall|j: int| 0 <= j < s.mul_stations.len()
                ==> resolve_rel_station(s.mul_stations[j], #[trigger] s2.mul_stations[j])
            &&& forall|j: int| 0 <= j < s.store_buffers.len()
                ==> resolve_rel_store(s.store_buffers[j], #[trigger] s2.store_buffers[j])
        }),
    decreases bl.len(),
{
    if bl.len() == 0 {
    } else {
        let s1 = spec_apply_bcast(s, bl[0]);
        assert forall|j: int| 0 <= j < s.add_stations.len() implies
            resolve_rel_station(s.add_stations[j], #[trigger] s1.add_stations[j]) by {}
        assert forall|j: int| 0 <= j < s.mul_stations.len() implies
            resolve_rel_station(s.mul_stations[j], #[trigger] s1.mul_stations[j]) by {}
        assert forall|j: int| 0 <= j < s.store_buffers.len() implies
            resolve_rel_store(s.store_buffers[j], #[trigger] s1.store_buffers[j]) by {}
        lemma_bcasts_rel(s1, bl.drop_first());
    }
}

/// The countdown-start pass only arms stations whose operands are ready and
/// whose countdown has not begun, and touches nothing else.
pub proof fn lemma_rearm_rel(s: State)
    requires
        s.add_stations.len() == 3,
        s.mul_stations.len() == 2,
    ensures
        ({
            let s2 = spec_rearm_all(s);
            &&& s2.instructions == s.instructions
            &&& s2.cycle == s.cycle
            &&& s2.issued == s.issued
            &&& s2.int == s.int
            &&& s2.fp == s.fp
            &&& s2.table == s.table
            &&& s2.memory == s.memory
            &&& s2.load_buffers == s.load_buffers
            &&& s2.store_buffers == s.store_buffers
            &&& s2.add_stations.len() == 3
            &&& s2.mul_stations.len() == 2
            &&& forall|j: int| 0 <= j < 3 ==> #[trigger] s2.add_stations[j]
                == spec_rearmed(s, s.add_stations[j])
            &&& forall|j: int| 0 <= j < 2 ==> #[trigger] s2.mul_stations[j]
                == spec_rearmed(s, s.mul_stations[j])
        }),
{
    let s1 = spec_rearm(s, true, 0);
    let s2 = spec_rearm(s1, true, 1);
    let s3 = spec_rearm(s2, true, 2);
    let s4 = spec_rearm(s3, false, 0);
    let s5 = spec_rearm(s4, false, 1);
    assert(s5 == spec_rearm_all(s));
    assert forall|j: int| 0 <= j < 3 implies #[trigger] s5.add_stations[j]
        == spec_rearmed(s, s.add_stations[j]) by {}
    assert forall|j: int| 0 <= j < 2 implies #[trigger] s5.mul_stations[j]
        == spec_rearmed(s, s.mul_stations[j]) by {}
}

/// What the countdown-start pass does to one station.
pub open spec fn spec_rearmed(s: State, st: ReservationStation) -> ReservationStation {
    if st.busy && st.op is Some && st.qj is None && st.qk is None
        && st.remaining_cycles is None
        && st.inst_idx is Some && st.inst_idx->0 < s.instructions.len() {
        ReservationStation {
            remaining_cycles: Some(Cycle(spec_exec_cycles(
                s.instructions[st.inst_idx->0 as int].meta.inst_type,
            ))),
            ..st
        }
    } else {
        st
    }
}

/// Releasing a batch of slots clears exactly the slots whose names are in
/// the batch, and touches nothing else.
pub proof fn lemma_releases_rel(s: State, ts: Seq<Tag>)
    requires
        wf_lens(s),
        wf_names(s),
    ensures
        ({
            let s2 = spec_releases(s, ts);
            &&& s2.instructions == s.instructions
            &&& s2.cycle == s.cycle
            &&& s2.issued == s.issued
            &&& s2.int == s.int
            &&& s2.fp == s.fp
            &&& s2.table == s.table
            &&& s2.memory == s.memory
            &&& s2.add_stations.len() == s.add_stations.len()
            &&& s2.mul_stations.len() == s.mul_stations.len()
            &&& s2.load_buffers.len() == s.load_buffers.len()
            &&& s2.store_buffers.len() == s.store_buffers.len()
            &&& forall|j: int| 0 <= j < s.add_stations.len() ==> #[trigger] s2.add_stations[j]
                == (if ts.contains(s.add_stations[j].name) {
                        spec_empty_station(s.add_stations[j].name)
                    } else {
                        s.add_stations[j]
                    })
            &&& forall|j: int| 0 <= j < s.mul_stations.len() ==> #[trigger] s2.mul_stations[j]
                == (if ts.contains(s.mul_stations[j].name) {
                        spec_empty_station(s.mul_stations[j].name)
                    } else {
                        s.mul_stations[j]
                    })
            &&& forall|j: int| 0 <= j < s.load_buffers.len() ==> #[trigger] s2.load_buffers[j]
                == (if ts.contains(s.load_buffers[j].name) {
                        spec_empty_load(s.load_buffers[j].name)
                    } else {
                        s.load_buffers[j]
                    })
            &&& forall|j: int| 0 <= j < s.store_buffers.len() ==> #[trigger] s2.store_buffers[j]
                == (if ts.contains(s.store_buffers[j].name) {
                        spec_empty_store(s.store_buffers[j].name)
                    } else {
                        s.store_buffers[j]
                    })
        }),
    decreases ts.len(),
{
    if ts.len() == 0 {
    } else {
        let t = ts[0];
        let s1 = spec_release(s, t);
        assert(wf_names(s1));
        lemma_releases_rel(s1, ts.drop_first());
        let s2 = spec_releases(s1, ts.drop_first());
        assert forall|x: Tag| true implies
            (#[trigger] ts.contains(x) == (x == t || ts.drop_first().contains(x))) by {
            if ts.contains(x) {
                let m = choose|m: int| 0 <= m < ts.len() && ts[m] == x;
                if m > 0 {
                    assert(ts.drop_first()[m - 1] == x);
                    assert(ts.drop_first().contains(x));
                }
            }
            if ts.drop_first().contains(x) {
                let m = choose|m: int| 0 <= m < ts.drop_first().len() && ts.drop_first()[m] == x;
                assert(ts[m + 1] == x);
            }
            if x == t {
                assert(ts[0] == x);
            }
        }
    }
}

/// The lengths and slot names survive the scan, broadcast, and
/// countdown-start phases.
proof fn lemma_sc_names(s: State, a: WbScan, sb: State, sc: State)
    requires
        inv(s),
        scan_rel(s, a, 9),
        sb == spec_apply_bcasts(a.s, a.bl),
        sc == spec_rearm_all(sb),
    ensures
        wf_lens(sc),
        wf_names(sc),
{
    lemma_bcasts_rel(a.s, a.bl);
    lemma_rearm_rel(sb);
    assert forall|j: int| 0 <= j < sc.add_stations.len() implies
        (#[trigger] sc.add_stations[j]).name == Tag::AddStation(j as usize) by {
        assert(a.s.add_stations[j].name == s.add_stations[j].name);
    }
    assert forall|j: int| 0 <= j < sc.mul_stations.len() implies
        (#[trigger] sc.mul_stations[j]).name == Tag::MulStation(j as usize) by {
        assert(a.s.mul_stations[j].name == s.mul_stations[j].name);
    }
    assert forall|j: int| 0 <= j < sc.load_buffers.len() implies
        (#[trigger] sc.load_buffers[j]).name == Tag::LoadBuffer(j as usize) by {
        assert(a.s.load_buffers[j].name == s.load_buffers[j].name);
    }
    assert forall|j: int| 0 <= j < sc.store_buffers.len() implies
        (#[trigger] sc.store_buffers[j]).name == Tag::StoreBuffer(j as usize) by {
        assert(a.s.store_buffers[j].name == s.store_buffers[j].name);
    }
}

/// A slot is cleared by the write-back stage exactly when it writes back.
proof fn lemma_rel_contains(s: State, a: WbScan, u: int)
    requires
        inv(s),
        scan_rel(s, a, 9),
        0 <= u < 9,
    ensures
        a.rel.contains(ord_tag(u)) <==> wb_released(s, u),
{
    if a.rel.contains(ord_tag(u)) {
        let m = choose|m: int| 0 <= m < a.rel.len() && a.rel[m] == ord_tag(u);
        assert(rel_tag_ok(s, a.rel[m], 9));
        let v = choose|v: int| 0 <= v < 9 && #[trigger] wb_released(s, v)
            && ord_tag(v) == a.rel[m];
        assert(ord_tag(v) == ord_tag(u));
        assert(v == u);
    }
}

/// A busy slot's owner index is set, below the issue frontier, and in range.
proof fn lemma_ord_owner_bounds(s: State, u: int)
    requires
        inv(s),
        0 <= u < 9,
        ord_busy(s, u),
    ensures
        ord_idx(s, u) is Some,
        ord_idx(s, u)->0 < s.issued,
        ord_idx(s, u)->0 < s.instructions.len(),
{
    if u < 3 {
        assert(station_ok(s, true, u));
    } else if u < 5 {
        assert(station_ok(s, false, u - 3));
    } else if u < 7 {
        assert(load_ok(s, u - 5));
    } else {
        assert(store_ok(s, u - 7));
    }
}

/// The preconditions shared by the per-family write-back lemmas: the four
/// phase characterizations, chained.
pub open spec fn wb_chain(s: State, results: Seq<u64>, a: WbScan, sb: State, sc: State, sd: State) -> bool {
    &&& a == spec_wb_scan(s, results)
    &&& sb == spec_apply_bcasts(a.s, a.bl)
    &&& sc == spec_rearm_all(sb)
    &&& sd == spec_releases(sc, a.rel)
}

/// After write-back, every instruction's timestamps are consistent and its
/// record is otherwise untouched.
#[verifier::rlimit(100)]
#[verifier::spinoff_prover]
proof fn lemma_wb_times(s: State, results: Seq<u64>, a: WbScan, sb: State, sc: State, sd: State)
    requires
        inv(s),
        scan_rel(s, a, 9),
        wb_chain(s, results, a, sb, sc, sd),
    ensures
        forall|j: int| 0 <= j < s.instructions.len() ==> #[trigger] inst_times_ok(sd, j)
            && sd.instructions[j].meta == s.instructions[j].meta
            && sd.instructions[j].time.issue == s.instructions[j].time.issue,
        sd.instructions.len() == s.instructions.len(),
        sd.cycle == s.cycle,
        sd.issued == s.issued,
        sd.int == s.int,
{
    lemma_bcasts_rel(a.s, a.bl);
    lemma_rearm_rel(sb);
    lemma_sc_names(s, a, sb, sc);
    lemma_releases_rel(sc, a.rel);
    assert forall|j: int| 0 <= j < s.instructions.len() implies #[trigger] inst_times_ok(sd, j)
        && sd.instructions[j].meta == s.instructions[j].meta
        && sd.instructions[j].time.issue == s.instructions[j].time.issue by {
        assert(inst_times_ok(s, j));
        if owned_released(s, j, 9) {
            let u = choose|u: int| 0 <= u < 9 && #[trigger] wb_released(s, u)
                && ord_idx(s, u) == Some(j as usize);
            lemma_ord_owner_bounds(s, u);
            assert(sd.instructions[j] == spec_stamped(s, j));
        } else {
            assert(sd.instructions[j] == s.instructions[j]);
        }
    }
}

/// After write-back, every arithmetic station is consistent.
#[verifier::rlimit(100)]
#[verifier::spinoff_prover]
proof fn lemma_wb_stations(s: State, results: Seq<u64>, a: WbScan, sb: State, sc: State, sd: State)
    requires
        inv(s),
        scan_rel(s, a, 9),
        wb_chain(s, results, a, sb, sc, sd),
    ensures
        forall|j: int| 0 <= j < sd.add_stations.len() ==> #[trigger] station_ok(sd, true, j),
        forall|j: int| 0 <= j < sd.mul_stations.len() ==> #[trigger] station_ok(sd, false, j),
{
    lemma_bcasts_rel(a.s, a.bl);
    lemma_rearm_rel(sb);
    lemma_sc_names(s, a, sb, sc);
    lemma_releases_rel(sc, a.rel);
    lemma_wb_times(s, results, a, sb, sc, sd);
    assert forall|j: int| 0 <= j < sd.add_stations.len() implies
        #[trigger] station_ok(sd, true, j) by {
        assert(station_ok(s, true, j));
        let name = s.add_stations[j].name;
        assert(name == Tag::AddStation(j as usize));
        assert(ord_tag(j) == name);
        lemma_rel_contains(s, a, j);
        if a.rel.contains(name) {
            assert(sd.add_stations[j] == spec_empty_station(name));
        } else {
            assert(!wb_released(s, j));
            assert(a.s.add_stations[j] == s.add_stations[j]);
            let stb = sb.add_stations[j];
            assert(resolve_rel_station(s.add_stations[j], stb));
            assert(sc.add_stations[j] == spec_rearmed(sb, stb));
            assert(sd.add_stations[j] == sc.add_stations[j]);
            let st_s = s.add_stations[j];
            if !st_s.busy {
                assert(st_s == spec_empty_station(name));
                assert(stb == st_s);
                assert(sd.add_stations[j] == st_s);
            } else {
                let idx = st_s.inst_idx->0 as int;
                if owned_released(s, idx, 9) {
                    let u = choose|u: int| 0 <= u < 9 && #[trigger] wb_released(s, u)
                        && ord_idx(s, u) == Some(idx as usize);
                    if u != j {
                        lemma_ord_distinct(s, u, j);
                        assert(false);
                    }
                    assert(false);
                }
                assert(sd.instructions[idx] == s.instructions[idx]);
                assert(sb.instructions[idx] == s.instructions[idx]);
            }
        }
    }
    assert forall|j: int| 0 <= j < sd.mul_stations.len() implies
        #[trigger] station_ok(sd, false, j) by {
        assert(station_ok(s, false, j));
        let name = s.mul_stations[j].name;
        assert(name == Tag::MulStation(j as usize));
        assert(ord_tag(3 + j) == name);
        lemma_rel_contains(s, a, 3 + j);
        if a.rel.contains(name) {
            assert(sd.mul_stations[j] == spec_empty_station(name));
        } else {
            assert(!wb_released(s, 3 + j));
            assert(a.s.mul_stations[j] == s.mul_stations[j]);
            let stb = sb.mul_stations[j];
            assert(resolve_rel_station(s.mul_stations[j], stb));
            assert(sc.mul_stations[j] == spec_rearmed(sb, stb));
            assert(sd.mul_stations[j] == sc.mul_stations[j]);
            let st_s = s.mul_stations[j];
            if !st_s.busy {
                assert(st_s == spec_empty_station(name));
                assert(stb == st_s);
                assert(sd.mul_stations[j] == st_s);
            } else {
                let idx = st_s.inst_idx->0 as int;
                if owned_released(s, idx, 9) {
                    let u = choose|u: int| 0 <= u < 9 && #[trigger] wb_released(s, u)
                        && ord_idx(s, u) == Some(idx as usize);
                    if u != 3 + j {
                        lemma_ord_distinct(s, u, 3 + j);
                        assert(false);
                    }
                    assert(false);
                }
                assert(sd.instructions[idx] == s.instructions[idx]);
                assert(sb.instructions[idx] == s.instructions[idx]);
            }
        }
    }
}

/// After write-back, every load and store buffer is consistent.
#[verifier::rlimit(100)]
#[verifier::spinoff_prover]
proof fn lemma_wb_buffers(s: State, results: Seq<u64>, a: WbScan, sb: State, sc: State, sd: State)
    requires
        inv(s),
        scan_rel(s, a, 9),
        wb_chain(s, results, a, sb, sc, sd),
    ensures
        forall|j: int| 0 <= j < sd.load_buffers.len() ==> #[trigger] load_ok(sd, j),
        forall|j: int| 0 <= j < sd.store_buffers.len() ==> #[trigger] store_ok(sd, j),
{
    lemma_bcasts_rel(a.s, a.bl);
    lemma_rearm_rel(sb);
    lemma_sc_names(s, a, sb, sc);
    lemma_releases_rel(sc, a.rel);
    lemma_wb_times(s, results, a, sb, sc, sd);
    assert forall|j: int| 0 <= j < sd.load_buffers.len() implies #[trigger] load_ok(sd, j) by {
        assert(load_ok(s, j));
        let name = s.load_buffers[j].name;
        assert(name == Tag::LoadBuffer(j as usize));
        assert(ord_tag(5 + j) == name);
        lemma_rel_contains(s, a, 5 + j);
        if a.rel.contains(name) {
            assert(sd.load_buffers[j] == spec_empty_load(name));
        } else {
            assert(!wb_released(s, 5 + j));
            assert(a.s.load_buffers[j] == s.load_buffers[j]);
            assert(sd.load_buffers[j] == s.load_buffers[j]);
            let lb = s.load_buffers[j];
            if lb.busy {
                let idx = lb.inst_idx->0 as int;
                if owned_released(s, idx, 9) {
                    let u = choose|u: int| 0 <= u < 9 && #[trigger] wb_released(s, u)
                        && ord_idx(s, u) == Some(idx as usize);
                    if u != 5 + j {
                        lemma_ord_distinct(s, u, 5 + j);
                        assert(false);
                    }
                    assert(false);
                }
                assert(sd.instructions[idx] == s.instructions[idx]);
            }
        }
    }
    assert forall|j: int| 0 <= j < sd.store_buffers.len() implies #[trigger] store_ok(sd, j) by {
        assert(store_ok(s, j));
        let name = s.store_buffers[j].name;
        assert(name == Tag::StoreBuffer(j as usize));
        assert(ord_tag(7 + j) == name);
        lemma_rel_contains(s, a, 7 + j);
        if a.rel.contains(name) {
            assert(sd.store_buffers[j] == spec_empty_store(name));
        } else {
            assert(!wb_released(s, 7 + j));
            assert(a.s.store_buffers[j] == s.store_buffers[j]);
            assert(resolve_rel_store(s.store_buffers[j], sb.store_buffers[j]));
            assert(sd.store_buffers[j] == sb.store_buffers[j]);
            let sb_s = s.store_buffers[j];
            if !sb_s.busy {
                assert(sb_s == spec_empty_store(name));
                assert(sb.store_buffers[j] == sb_s);
            } else {
                let idx = sb_s.inst_idx->0 as int;
                if owned_released(s, idx, 9) {
                    let u = choose|u: int| 0 <= u < 9 && #[trigger] wb_released(s, u)
                        && ord_idx(s, u) == Some(idx as usize);
                    if u != 7 + j {
                        lemma_ord_distinct(s, u, 7 + j);
                        assert(false);
                    }
                    assert(false);
                }
                assert(sd.instructions[idx] == s.instructions[idx]);
            }
        }
    }
}

/// The write-back stage preserves the invariant and the pacing relation.
pub proof fn lemma_writeback_inv(s: State, results: Seq<u64>)
    requires
        inv(s),
    ensures
        inv(spec_writeback(s, results)),
        forall|g: int| paced(s, g) ==> #[trigger] paced(spec_writeback(s, results), g),
        spec_writeback(s, results).cycle == s.cycle,
        spec_writeback(s, results).issued == s.issued,
{
    let a = spec_wb_scan(s, results);
    lemma_scan_rel(s, results);
    let sb = spec_apply_bcasts(a.s, a.bl);
    lemma_bcasts_rel(a.s, a.bl);
    let sc = spec_rearm_all(sb);
    lemma_rearm_rel(sb);
    lemma_sc_names(s, a, sb, sc);
    let sd = spec_releases(sc, a.rel);
    lemma_releases_rel(sc, a.rel);
    assert(sd == spec_writeback(s, results));
    lemma_wb_times(s, results, a, sb, sc, sd);
    lemma_wb_stations(s, results, a, sb, sc, sd);
    lemma_wb_buffers(s, results, a, sb, sc, sd);
    assert forall|j: int| 0 <= j < sd.instructions.len() implies
        meta_ok(sd, (#[trigger] sd.instructions[j]).meta) by {
        assert(meta_ok(s, s.instructions[j].meta));
        assert(sd.instructions[j].meta == s.instructions[j].meta);
    }
    assert forall|a1: int, b1: int|
        #![trigger sd.instructions[a1].time.issue, sd.instructions[b1].time.issue]
        0 <= a1 < b1 < sd.issued && b1 < sd.instructions.len() implies
        (sd.instructions[a1].time.issue->0).0 <= (sd.instructions[b1].time.issue->0).0 by {
        assert((s.instructions[a1].time.issue->0).0 <= (s.instructions[b1].time.issue->0).0);
        assert(sd.instructions[a1].time.issue == s.instructions[a1].time.issue);
        assert(sd.instructions[b1].time.issue == s.instructions[b1].time.issue);
    }
    assert forall|t1: Tag, t2: Tag, k: usize|
        occupies(sd, t1, k) && occupies(sd, t2, k) implies t1 == t2 by {
        if occupies(sd, t1, k) && occupies(sd, t2, k) {
            assert(occupies(s, t1, k)) by { lemma_occupies_back(s, a, sb, sc, sd, t1, k); }
            assert(occupies(s, t2, k)) by { lemma_occupies_back(s, a, sb, sc, sd, t2, k); }
        }
    }
    assert(inv(sd));
    assert forall|g: int| paced(s, g) implies #[trigger] paced(sd, g) by {
        assert forall|v: int| 0 <= v < 9 implies #[trigger] pace_slot(sd, v, g) by {
            assert(pace_slot(s, v, g));
            lemma_pace_back(s, a, sb, sc, sd, v, g);
        }
    }
}

/// A slot busy after the write-back stage was busy with the same owner
/// before it.
proof fn lemma_occupies_back(s: State, a: WbScan, sb: State, sc: State, sd: State, t: Tag, k: usize)
    requires
        inv(s),
        scan_rel(s, a, 9),
        sb == spec_apply_bcasts(a.s, a.bl),
        sc == spec_rearm_all(sb),
        sd == spec_releases(sc, a.rel),
        occupies(sd, t, k),
    ensures
        occupies(s, t, k),
{
    lemma_bcasts_rel(a.s, a.bl);
    lemma_rearm_rel(sb);
    lemma_sc_names(s, a, sb, sc);
    lemma_releases_rel(sc, a.rel);
    match t {
        Tag::AddStation(p) => {
            assert(a.s.add_stations[p as int].busy == s.add_stations[p as int].busy);
        },
        Tag::MulStation(p) => {
            assert(a.s.mul_stations[p as int].busy == s.mul_stations[p as int].busy);
        },
        Tag::LoadBuffer(p) => {
            assert(a.s.load_buffers[p as int].busy == s.load_buffers[p as int].busy);
        },
        Tag::StoreBuffer(p) => {
            assert(a.s.store_buffers[p as int].busy == s.store_buffers[p as int].busy);
        },
    }
}

/// A surviving slot keeps its pace through the write-back stage.
proof fn lemma_pace_back(s: State, a: WbScan, sb: State, sc: State, sd: State, v: int, g: int)
    requires
        inv(s),
        scan_rel(s, a, 9),
        sb == spec_apply_bcasts(a.s, a.bl),
        sc == spec_rearm_all(sb),
        sd == spec_releases(sc, a.rel),
        0 <= v < 9,
        pace_slot(s, v, g),
    ensures
        pace_slot(sd, v, g),
{
    lemma_bcasts_rel(a.s, a.bl);
    lemma_rearm_rel(sb);
    lemma_sc_names(s, a, sb, sc);
    lemma_releases_rel(sc, a.rel);
    if ord_busy(sd, v) && ord_idx(sd, v) is Some && ord_idx(sd, v)->0 < sd.instructions.len() {
        let idx = ord_idx(sd, v)->0 as int;
        let inst2 = sd.instructions[idx];
        if inst2.time.exec_start is Some && inst2.time.completion is None {
            // the slot survived: it is not released, so its fields and its
            // instruction's progress are unchanged
            assert(ord_busy(s, v));
            assert(ord_idx(s, v) == ord_idx(sd, v));
            if owned_released(s, idx, 9) {
                let u = choose|u: int| 0 <= u < 9 && #[trigger] wb_released(s, u)
                    && ord_idx(s, u) == Some(idx as usize);
                if u != v {
                    lemma_ord_distinct(s, u, v);
                    assert(false);
                }
                assert(a.rel.contains(ord_tag(v)));
                assert(false);
            }
            assert(sd.instructions[idx] == s.instructions[idx]);
            assert(ord_rem(sd, v) == ord_rem(s, v));
        }
    }
}

/// Advancing the clock one cycle keeps the invariant and turns the
/// post-write-back pacing into the pre-execute pacing of the next cycle.
pub proof fn lemma_clock_advance(s: State)
    requires
        inv(s),
        paced(s, 0),
        s.cycle.0 < u32::MAX,
    ensures
        inv(State { cycle: Cycle((s.cycle.0 + 1) as u32), ..s }),
        paced(State { cycle: Cycle((s.cycle.0 + 1) as u32), ..s }, 1),
{
    let s2 = State { cycle: Cycle((s.cycle.0 + 1) as u32), ..s };
    assert forall|j: int| 0 <= j < s2.instructions.len() implies #[trigger] inst_times_ok(s2, j) by {
        assert(inst_times_ok(s, j));
    }
    assert forall|j: int| 0 <= j < s2.add_stations.len() implies #[trigger] station_ok(s2, true, j) by {
        assert(station_ok(s, true, j));
    }
    assert forall|j: int| 0 <= j < s2.mul_stations.len() implies #[trigger] station_ok(s2, false, j) by {
        assert(station_ok(s, false, j));
    }
    assert forall|j: int| 0 <= j < s2.load_buffers.len() implies #[trigger] load_ok(s2, j) by {
        assert(load_ok(s, j));
    }
    assert forall|j: int| 0 <= j < s2.store_buffers.len() implies #[trigger] store_ok(s2, j) by {
        assert(store_ok(s, j));
    }
    assert forall|j: int| 0 <= j < s2.instructions.len() implies
        meta_ok(s2, (#[trigger] s2.instructions[j]).meta) by {
        assert(meta_ok(s, s.instructions[j].meta));
    }
    assert forall|t1: Tag, t2: Tag, k: usize|
        occupies(s2, t1, k) && occupies(s2, t2, k) implies t1 == t2 by {
        if occupies(s2, t1, k) && occupies(s2, t2, k) {
            assert(occupies(s, t1, k));
            assert(occupies(s, t2, k));
        }
    }
    assert(inv(s2));
    assert forall|v: int| 0 <= v < 9 implies #[trigger] pace_slot(s2, v, 1) by {
        assert(pace_slot(s, v, 0));
    }
}

// ---------------------------------------------------------------------------
// The run driver as a function
// ---------------------------------------------------------------------------

/// The fixed iteration cap guarding against unresolvable stalls.
pub const MAX_CYCLES: u32 = 2000;

/// Advance the clock one cycle.
pub open spec fn spec_advance_clock(s: State) -> State {
    State { cycle: Cycle((s.cycle.0 + 1) as u32), ..s }
}

/// The whole run as a function of the starting state and the arithmetic
/// result words delivered each cycle (`rss[k]` feeds cycle `k`'s
/// write-back).  Each step advances the clock and runs issue, execute, and
/// write-back in that fixed order; the run stops as soon as every
/// instruction has written back, when the clock passes the safety cap, or
/// when the delivered words run out.
pub open spec fn spec_run_from(s: State, rss: Seq<Seq<u64>>) -> State
    decreases rss.len(),
{
    if spec_all_done(s) || rss.len() == 0 {
        s
    } else {
        let s1 = spec_advance_clock(s);
        if s1.cycle.0 > MAX_CYCLES {
            s1
        } else {
            spec_run_from(spec_writeback(spec_execute(spec_issue(s1)), rss[0]), rss.drop_first())
        }
    }
}

/// Unrolling [`spec_run_from`] at the end: as long as the run so far has
/// neither finished nor passed the cap, delivering one more cycle's words
/// appends exactly one more simulated cycle.
pub proof fn lemma_run_from_snoc(s: State, rss: Seq<Seq<u64>>, r: Seq<u64>)
    requires
        spec_run_from(s, rss).cycle.0 <= MAX_CYCLES,
    ensures
        ({
            let t = spec_run_from(s, rss);
            spec_run_from(s, rss.push(r)) == (
                if spec_all_done(t) {
                    t
                } else {
                    let t1 = spec_advance_clock(t);
                    if t1.cycle.0 > MAX_CYCLES {
                        t1
                    } else {
                        spec_writeback(spec_execute(spec_issue(t1)), r)
                    }
                })
        }),
    decreases rss.len(),
{
    assert(rss.push(r).len() == rss.len() + 1);
    if spec_all_done(s) {
        assert(spec_run_from(s, rss) == s);
        assert(spec_run_from(s, rss.push(r)) == s);
    } else if rss.len() == 0 {
        assert(rss.push(r)[0] == r);
        assert(rss.push(r).drop_first() =~= Seq::<Seq<u64>>::empty());
        let t = spec_run_from(s, rss);
        assert(t == s);
        let s1 = spec_advance_clock(s);
        if s1.cycle.0 > MAX_CYCLES {
            assert(spec_run_from(s, rss.push(r)) == s1);
        } else {
            let nxt = spec_writeback(spec_execute(spec_issue(s1)), r);
            assert(spec_run_from(nxt, rss.push(r).drop_first()) == nxt);
            assert(spec_run_from(s, rss.push(r)) == nxt);
        }
    } else {
        assert(rss.push(r)[0] == rss[0]);
        assert(rss.push(r).drop_first() =~= rss.drop_first().push(r));
        let s1 = spec_advance_clock(s);
        if s1.cycle.0 > MAX_CYCLES {
            assert(spec_run_from(s, rss) == s1);
            assert(false);
        } else {
            lemma_run_from_snoc(spec_writeback(spec_execute(spec_issue(s1)), rss[0]),
                rss.drop_first(), r);
        }
    }
}

// ---------------------------------------------------------------------------
// Timestamps are written at most once
// ---------------------------------------------------------------------------

/// Timestamps already recorded in `t1` persist unchanged in `t2`.
pub open spec fn time_preserved(t1: InstructionTime, t2: InstructionTime) -> bool {
    &&& (t1.issue is Some ==> t2.issue == t1.issue)
    &&& (t1.exec_start is Some ==> t2.exec_start == t1.exec_start)
    &&& (t1.completion is Some ==> t2.completion == t1.completion)
    &&& (t1.write_back is Some ==> t2.write_back == t1.write_back)
}

/// The issue stage writes only the next instruction's issue stamp, which
/// was still unset.
pub proof fn lemma_issue_preserves_times(s: State, j: int)
    requires
        inv(s),
        0 <= j < s.instructions.len(),
    ensures
        spec_issue(s).instructions.len() == s.instructions.len(),
        time_preserved(s.instructions[j].time, spec_issue(s).instructions[j].time),
{
    assert(inst_times_ok(s, j));
    if s.issued < s.instructions.len() {
        let m = s.instructions[s.issued as int].meta;
        assert(inst_times_ok(s, s.issued as int));
        match m.inst_type {
            InstructionType::LD => {
                lemma_first_free_load(s.load_buffers, 0);
            },
            InstructionType::SD => {
                lemma_first_free_store(s.store_buffers, 0);
            },
            InstructionType::ADDD | InstructionType::SUBD => {
                lemma_first_free_station(s.add_stations, 0);
            },
            InstructionType::MULTD | InstructionType::DIVD => {
                lemma_first_free_station(s.mul_stations, 0);
            },
        }
    }
}

/// One arithmetic execute step touches only its slot's instruction, and
/// there only stamps that were still unset.
proof fn lemma_exec_arith_tick_times(s: State, is_add: bool, i: int, j: int)
    requires
        inv(s),
        0 <= i < (if is_add { s.add_stations } else { s.mul_stations }).len(),
        0 <= j < s.instructions.len(),
    ensures
        spec_exec_arith(s, is_add, i).instructions.len() == s.instructions.len(),
        time_preserved(s.instructions[j].time, spec_exec_arith(s, is_add, i).instructions[j].time),
{
    assert(station_ok(s, is_add, i));
    assert(inst_times_ok(s, j));
}

/// One load-buffer execute step touches only its slot's instruction, and
/// there only stamps that were still unset.
proof fn lemma_exec_load_tick_times(s: State, i: int, j: int)
    requires
        inv(s),
        0 <= i < s.load_buffers.len(),
        0 <= j < s.instructions.len(),
    ensures
        spec_exec_load(s, i).instructions.len() == s.instructions.len(),
        time_preserved(s.instructions[j].time, spec_exec_load(s, i).instructions[j].time),
{
    assert(load_ok(s, i));
    assert(inst_times_ok(s, j));
}

/// One store-buffer execute step touches only its slot's instruction, and
/// there only stamps that were still unset.
proof fn lemma_exec_store_tick_times(s: State, i: int, j: int)
    requires
        inv(s),
        0 <= i < s.store_buffers.len(),
        0 <= j < s.instructions.len(),
    ensures
        spec_exec_store(s, i).instructions.len() == s.instructions.len(),
        time_preserved(s.instructions[j].time, spec_exec_store(s, i).instructions[j].time),
{
    assert(store_ok(s, i));
    assert(inst_times_ok(s, j));
}

/// The execute stage only sets execution-start and completion stamps that
/// were still unset: everything already recorded survives.
pub proof fn lemma_execute_preserves_times(s: State, j: int)
    requires
        inv(s),
        paced(s, 1),
        0 <= j < s.instructions.len(),
    ensures
        spec_execute(s).instructions.len() == s.instructions.len(),
        time_preserved(s.instructions[j].time, spec_execute(s).instructions[j].time),
{
    assert forall|u: int| 0 <= u < 9 implies #[trigger] pace_slot(s, u, spec_mix_gap(u, 0)) by {
        assert(pace_slot(s, u, 1));
    }
    let s1 = spec_exec_arith(s, true, 0);
    lemma_exec_arith_tick_times(s, true, 0, j);
    lemma_exec_arith_step(s, true, 0, 0);
    let s2 = spec_exec_arith(s1, true, 1);
    lemma_exec_arith_tick_times(s1, true, 1, j);
    lemma_exec_arith_step(s1, true, 1, 1);
    let s3 = spec_exec_arith(s2, true, 2);
    lemma_exec_arith_tick_times(s2, true, 2, j);
    lemma_exec_arith_step(s2, true, 2, 2);
    let s4 = spec_exec_arith(s3, false, 0);
    lemma_exec_arith_tick_times(s3, false, 0, j);
    lemma_exec_arith_step(s3, false, 0, 3);
    let s5 = spec_exec_arith(s4, false, 1);
    lemma_exec_arith_tick_times(s4, false, 1, j);
    lemma_exec_arith_step(s4, false, 1, 4);
    let s6 = spec_exec_load(s5, 0);
    lemma_exec_load_tick_times(s5, 0, j);
    lemma_exec_load_step(s5, 0);
    let s7 = spec_exec_load(s6, 1);
    lemma_exec_load_tick_times(s6, 1, j);
    lemma_exec_load_step(s6, 1);
    let s8 = spec_exec_store(s7, 0);
    lemma_exec_store_tick_times(s7, 0, j);
    lemma_exec_store_step(s7, 0);
    let s9 = spec_exec_store(s8, 1);
    lemma_exec_store_tick_times(s8, 1, j);
}

/// The write-back stage only stamps write-backs that were still unset:
/// everything already recorded survives.
pub proof fn lemma_writeback_preserves_times(s: State, results: Seq<u64>, j: int)
    requires
        inv(s),
        0 <= j < s.instructions.len(),
    ensures
        spec_writeback(s, results).instructions.len() == s.instructions.len(),
        time_preserved(s.instructions[j].time, spec_writeback(s, results).instructions[j].time),
{
    let a = spec_wb_scan(s, results);
    lemma_scan_rel(s, results);
    let sb = spec_apply_bcasts(a.s, a.bl);
    lemma_bcasts_rel(a.s, a.bl);
    let sc = spec_rearm_all(sb);
    lemma_rearm_rel(sb);
    lemma_sc_names(s, a, sb, sc);
    let sd = spec_releases(sc, a.rel);
    lemma_releases_rel(sc, a.rel);
    assert(sd == spec_writeback(s, results));
    if owned_released(s, j, 9) {
        let u = choose|u: int| 0 <= u < 9 && #[trigger] wb_released(s, u)
            && ord_idx(s, u) == Some(j as usize);
        assert(sd.instructions[j] == spec_stamped(s, j));
    } else {
        assert(sd.instructions[j] == s.instructions[j]);
    }
}

// ---------------------------------------------------------------------------
// Pending tags never dangle
// ---------------------------------------------------------------------------

/// A pending-producer tag always names a currently busy slot that can
/// broadcast: an add station, a multiply station, or a load buffer.
pub open spec fn producer_ok(s: State, t: Tag) -> bool {
    match t {
        Tag::AddStation(i) => i < s.add_stations.len() && s.add_stations[i as int].busy,
        Tag::MulStation(i) => i < s.mul_stations.len() && s.mul_stations[i as int].busy,
        Tag::LoadBuffer(i) => i < s.load_buffers.len() && s.load_buffers[i as int].busy,
        Tag::StoreBuffer(_) => false,
    }
}

/// The destination register the broadcasting slot of ordinal `u` will write.
pub open spec fn spec_dest_of(s: State, u: int) -> usize {
    if u < 3 {
        s.instructions[s.add_stations[u].inst_idx->0 as int].meta.rd->0 as usize
    } else if u < 5 {
        s.instructions[s.mul_stations[u - 3].inst_idx->0 as int].meta.rd->0 as usize
    } else {
        s.load_buffers[u - 5].dest->0
    }
}

/// The slot named `t` produces register `r`.
pub open spec fn produces(s: State, t: Tag, r: int) -> bool {
    match t {
        Tag::AddStation(i) => i < s.add_stations.len() && spec_dest_of(s, i as int) == r,
        Tag::MulStation(i) => i < s.mul_stations.len() && spec_dest_of(s, 3 + i as int) == r,
        Tag::LoadBuffer(i) => i < s.load_buffers.len() && spec_dest_of(s, 5 + i as int) == r,
        Tag::StoreBuffer(_) => false,
    }
}

/// No pending reference dangles: every operand tag and every pending store
/// datum names a live producer, and every renaming-table entry names a live
/// producer whose destination is exactly that register.
pub open spec fn tags_ok(s: State) -> bool {
    &&& forall|j: int| 0 <= j < s.add_stations.len() ==> {
        let st = #[trigger] s.add_stations[j];
        &&& (st.qj matches Some(t) ==> producer_ok(s, t))
        &&& (st.qk matches Some(t) ==> producer_ok(s, t))
    }
    &&& forall|j: int| 0 <= j < s.mul_stations.len() ==> {
        let st = #[trigger] s.mul_stations[j];
        &&& (st.qj matches Some(t) ==> producer_ok(s, t))
        &&& (st.qk matches Some(t) ==> producer_ok(s, t))
    }
    &&& forall|j: int| 0 <= j < s.store_buffers.len()
        ==> ((#[trigger] s.store_buffers[j]).data matches Some(StoreData::Waiting(t))
            ==> producer_ok(s, t))
    &&& forall|r: int| 0 <= r < s.table.len()
        ==> ((#[trigger] s.table[r]) matches Some(t) ==> producer_ok(s, t) && produces(s, t, r))
}

/// A fresh engine has no pending references at all.
pub proof fn lemma_initial_tags(insts: Seq<Instruction>)
    ensures
        tags_ok(spec_initial(insts)),
{
}

/// Issuing preserves the no-dangling-tag invariant: the operand tags and
/// any overwritten table entry of the new slot are read from the table,
/// whose entries named live producers already, and busy flags only grow.
pub proof fn lemma_issue_tags(s: State)
    requires
        inv(s),
        tags_ok(s),
    ensures
        tags_ok(spec_issue(s)),
{
    if s.issued < s.instructions.len() {
        let m = s.instructions[s.issued as int].meta;
        let s2 = spec_issue(s);
        match m.inst_type {
            InstructionType::LD => {
                lemma_first_free_load(s.load_buffers, 0);
                match first_free_load(s.load_buffers, 0) {
                    Some(i) => {
                        lemma_issue_claims_tags(s, s2);
                        assert forall|r: int| 0 <= r < s2.table.len() implies
                            ((#[trigger] s2.table[r]) matches Some(t)
                                ==> producer_ok(s2, t) && produces(s2, t, r)) by {
                            match s2.table[r] {
                                Some(t) => {
                                    if r == m.rd->0 as int {
                                        assert(t == s.load_buffers[i].name);
                                        assert(t == Tag::LoadBuffer(i as usize));
                                        assert(produces(s2, t, r));
                                    } else {
                                        assert(s.table[r] == s2.table[r]);
                                        lemma_produces_stable(s, s2, t, r);
                                    }
                                },
                                None => {},
                            }
                        }
                    },
                    None => {},
                }
            },
            InstructionType::SD => {
                lemma_first_free_store(s.store_buffers, 0);
                match first_free_store(s.store_buffers, 0) {
                    Some(i) => {
                        lemma_issue_claims_tags(s, s2);
                        assert forall|r: int| 0 <= r < s2.table.len() implies
                            ((#[trigger] s2.table[r]) matches Some(t)
                                ==> producer_ok(s2, t) && produces(s2, t, r)) by {
                            match s2.table[r] {
                                Some(t) => {
                                    assert(s.table[r] == s2.table[r]);
                                    lemma_produces_stable(s, s2, t, r);
                                },
                                None => {},
                            }
                        }
                    },
                    None => {},
                }
            },
            InstructionType::ADDD | InstructionType::SUBD => {
                lemma_first_free_station(s.add_stations, 0);
                match first_free_station(s.add_stations, 0) {
                    Some(i) => {
                        lemma_issue_claims_tags(s, s2);
                        assert forall|r: int| 0 <= r < s2.table.len() implies
                            ((#[trigger] s2.table[r]) matches Some(t)
                                ==> producer_ok(s2, t) && produces(s2, t, r)) by {
                            match s2.table[r] {
                                Some(t) => {
                                    if r == m.rd->0 as int {
                                        assert(t == s.add_stations[i].name);
                                        assert(t == Tag::AddStation(i as usize));
                                        assert(produces(s2, t, r));
                                    } else {
                                        assert(s.table[r] == s2.table[r]);
                                        lemma_produces_stable(s, s2, t, r);
                                    }
                                },
                                None => {},
                            }
                        }
                    },
                    None => {},
                }
            },
            InstructionType::MULTD | InstructionType::DIVD => {
                lemma_first_free_station(s.mul_stations, 0);
                match first_free_station(s.mul_stations, 0) {
                    Some(i) => {
                        lemma_issue_claims_tags(s, s2);
                        assert forall|r: int| 0 <= r < s2.table.len() implies
                            ((#[trigger] s2.table[r]) matches Some(t)
                                ==> producer_ok(s2, t) && produces(s2, t, r)) by {
                            match s2.table[r] {
                                Some(t) => {
                                    if r == m.rd->0 as int {
                                        assert(t == s.mul_stations[i].name);
                                        assert(t == Tag::MulStation(i as usize));
                                        assert(produces(s2, t, r));
                                    } else {
                                        assert(s.table[r] == s2.table[r]);
                                        lemma_produces_stable(s, s2, t, r);
                                    }
                                },
                                None => {},
                            }
                        }
                    },
                    None => {},
                }
            },
        }
    }
}

/// Shared pieces of the issue-tags proof: the operand and store-datum tags
/// of the issued state still name live producers.
proof fn lemma_issue_claims_tags(s: State, s2: State)
    requires
        inv(s),
        tags_ok(s),
        s.issued < s.instructions.len(),
        s2 == spec_issue(s),
    ensures
        forall|j: int| 0 <= j < s2.add_stations.len() ==> {
            let st = #[trigger] s2.add_stations[j];
            &&& (st.qj matches Some(t) ==> producer_ok(s2, t))
            &&& (st.qk matches Some(t) ==> producer_ok(s2, t))
        },
        forall|j: int| 0 <= j < s2.mul_stations.len() ==> {
            let st = #[trigger] s2.mul_stations[j];
            &&& (st.qj matches Some(t) ==> producer_ok(s2, t))
            &&& (st.qk matches Some(t) ==> producer_ok(s2, t))
        },
        forall|j: int| 0 <= j < s2.store_buffers.len()
            ==> ((#[trigger] s2.store_buffers[j]).data matches Some(StoreData::Waiting(t))
                ==> producer_ok(s2, t)),
{
    let m = s.instructions[s.issued as int].meta;
    lemma_first_free_load(s.load_buffers, 0);
    lemma_first_free_store(s.store_buffers, 0);
    lemma_first_free_station(s.add_stations, 0);
    lemma_first_free_station(s.mul_stations, 0);
    assert forall|j: int| 0 <= j < s2.add_stations.len() implies {
        let st = #[trigger] s2.add_stations[j];
        &&& (st.qj matches Some(t) ==> producer_ok(s2, t))
        &&& (st.qk matches Some(t) ==> producer_ok(s2, t))
    } by {
        assert(0 <= j < s.add_stations.len());
        let old_st = s.add_stations[j];
        match s2.add_stations[j].qj {
            Some(t) => {
                if s2.add_stations[j] == old_st {
                    assert(producer_ok(s, t));
                } else {
                    match s.table[m.rs->0 as int] {
                        Some(t0) => {
                            assert(producer_ok(s, t0));
                        },
                        None => {},
                    }
                }
                assert(producer_ok(s2, t));
            },
            None => {},
        }
        match s2.add_stations[j].qk {
            Some(t) => {
                if s2.add_stations[j] == old_st {
                    assert(producer_ok(s, t));
                } else {
                    match s.table[m.rt->0 as int] {
                        Some(t0) => {
                            assert(producer_ok(s, t0));
                        },
                        None => {},
                    }
                }
                assert(producer_ok(s2, t));
            },
            None => {},
        }
    }
    assert forall|j: int| 0 <= j < s2.mul_stations.len() implies {
        let st = #[trigger] s2.mul_stations[j];
        &&& (st.qj matches Some(t) ==> producer_ok(s2, t))
        &&& (st.qk matches Some(t) ==> producer_ok(s2, t))
    } by {
        assert(0 <= j < s.mul_stations.len());
        let old_st = s.mul_stations[j];
        match s2.mul_stations[j].qj {
            Some(t) => {
                if s2.mul_stations[j] == old_st {
                    assert(producer_ok(s, t));
                } else {
                    match s.table[m.rs->0 as int] {
                        Some(t0) => {
                            assert(producer_ok(s, t0));
                        },
                        None => {},
                    }
                }
                assert(producer_ok(s2, t));
            },
            None => {},
        }
        match s2.mul_stations[j].qk {
            Some(t) => {
                if s2.mul_stations[j] == old_st {
                    assert(producer_ok(s, t));
                } else {
                    match s.table[m.rt->0 as int] {
                        Some(t0) => {
                            assert(producer_ok(s, t0));
                        },
                        None => {},
                    }
                }
                assert(producer_ok(s2, t));
            },
            None => {},
        }
    }
    assert forall|j: int| 0 <= j < s2.store_buffers.len() implies
        ((#[trigger] s2.store_buffers[j]).data matches Some(StoreData::Waiting(t))
            ==> producer_ok(s2, t)) by {
        assert(0 <= j < s.store_buffers.len());
        let old_sb = s.store_buffers[j];
        match s2.store_buffers[j].data {
            Some(StoreData::Waiting(t)) => {
                if s2.store_buffers[j] == old_sb {
                    assert(producer_ok(s, t));
                } else {
                    match s.table[m.rs->0 as int] {
                        Some(t0) => {
                            assert(producer_ok(s, t0));
                        },
                        None => {},
                    }
                }
                assert(producer_ok(s2, t));
            },
            _ => {},
        }
    }
}

/// What a slot produces is stable while its owner and destination fields
/// are untouched and the instruction record keeps its operands.
proof fn lemma_produces_stable(s: State, s2: State, t: Tag, r: int)
    requires
        inv(s),
        producer_ok(s, t),
        produces(s, t, r),
        s2 == spec_issue(s),
        s.issued < s.instructions.len(),
    ensures
        producer_ok(s2, t),
        produces(s2, t, r),
{
    lemma_first_free_load(s.load_buffers, 0);
    lemma_first_free_store(s.store_buffers, 0);
    lemma_first_free_station(s.add_stations, 0);
    lemma_first_free_station(s.mul_stations, 0);
    match t {
        Tag::AddStation(p) => {
            assert(station_ok(s, true, p as int));
            assert(s2.instructions[s.add_stations[p as int].inst_idx->0 as int].meta
                == s.instructions[s.add_stations[p as int].inst_idx->0 as int].meta);
        },
        Tag::MulStation(p) => {
            assert(station_ok(s, false, p as int));
            assert(s2.instructions[s.mul_stations[p as int].inst_idx->0 as int].meta
                == s.instructions[s.mul_stations[p as int].inst_idx->0 as int].meta);
        },
        Tag::LoadBuffer(p) => {
            assert(load_ok(s, p as int));
        },
        Tag::StoreBuffer(_) => {},
    }
}

/// One execute step changes only a countdown and its instruction's stamps:
/// every pending reference survives untouched.
proof fn lemma_exec_arith_tags(s: State, is_add: bool, i: int)
    requires
        inv(s),
        tags_ok(s),
        0 <= i < (if is_add { s.add_stations } else { s.mul_stations }).len(),
    ensures
        tags_ok(spec_exec_arith(s, is_add, i)),
        spec_exec_arith(s, is_add, i).add_stations.len() == s.add_stations.len(),
        spec_exec_arith(s, is_add, i).mul_stations.len() == s.mul_stations.len(),
        spec_exec_arith(s, is_add, i).load_buffers == s.load_buffers,
        spec_exec_arith(s, is_add, i).store_buffers == s.store_buffers,
{
    let s2 = spec_exec_arith(s, is_add, i);
    assert forall|k: int| 0 <= k < s2.instructions.len() implies
        (#[trigger] s2.instructions[k]).meta == s.instructions[k].meta by {}
    assert forall|r: int| 0 <= r < s2.table.len() implies
        ((#[trigger] s2.table[r]) matches Some(t) ==> producer_ok(s2, t) && produces(s2, t, r)) by {
        match s2.table[r] {
            Some(t) => {
                assert(producer_ok(s, t) && produces(s, t, r));
                match t {
                    Tag::AddStation(p) => {
                        assert(station_ok(s, true, p as int));
                        assert(s2.instructions[s.add_stations[p as int].inst_idx->0 as int].meta
                            == s.instructions[s.add_stations[p as int].inst_idx->0 as int].meta);
                    },
                    Tag::MulStation(p) => {
                        assert(station_ok(s, false, p as int));
                        assert(s2.instructions[s.mul_stations[p as int].inst_idx->0 as int].meta
                            == s.instructions[s.mul_stations[p as int].inst_idx->0 as int].meta);
                    },
                    _ => {},
                }
            },
            None => {},
        }
    }
}

/// One load-buffer execute step leaves every pending reference untouched.
proof fn lemma_exec_load_tags(s: State, i: int)
    requires
        inv(s),
        tags_ok(s),
        0 <= i < s.load_buffers.len(),
    ensures
        tags_ok(spec_exec_load(s, i)),
        spec_exec_load(s, i).add_stations == s.add_stations,
        spec_exec_load(s, i).mul_stations == s.mul_stations,
        spec_exec_load(s, i).load_buffers.len() == s.load_buffers.len(),
        spec_exec_load(s, i).store_buffers == s.store_buffers,
{
    let s2 = spec_exec_load(s, i);
    assert forall|k: int| 0 <= k < s2.instructions.len() implies
        (#[trigger] s2.instructions[k]).meta == s.instructions[k].meta by {}
    assert forall|r: int| 0 <= r < s2.table.len() implies
        ((#[trigger] s2.table[r]) matches Some(t) ==> producer_ok(s2, t) && produces(s2, t, r)) by {
        match s2.table[r] {
            Some(t) => {
                assert(producer_ok(s, t) && produces(s, t, r));
                match t {
                    Tag::AddStation(p) => {
                        assert(station_ok(s, true, p as int));
                        assert(s2.instructions[s.add_stations[p as int].inst_idx->0 as int].meta
                            == s.instructions[s.add_stations[p as int].inst_idx->0 as int].meta);
                    },
                    Tag::MulStation(p) => {
                        assert(station_ok(s, false, p as int));
                        assert(s2.instructions[s.mul_stations[p as int].inst_idx->0 as int].meta
                            == s.instructions[s.mul_stations[p as int].inst_idx->0 as int].meta);
                    },
                    _ => {},
                }
            },
            None => {},
        }
    }
}

/// One store-buffer execute step leaves every pending reference untouched.
proof fn lemma_exec_store_tags(s: State, i: int)
    requires
        inv(s),
        tags_ok(s),
        0 <= i < s.store_buffers.len(),
    ensures
        tags_ok(spec_exec_store(s, i)),
        spec_exec_store(s, i).add_stations == s.add_stations,
        spec_exec_store(s, i).mul_stations == s.mul_stations,
        spec_exec_store(s, i).load_buffers == s.load_buffers,
        spec_exec_store(s, i).store_buffers.len() == s.store_buffers.len(),
{
    let s2 = spec_exec_store(s, i);
    assert forall|k: int| 0 <= k < s2.instructions.len() implies
        (#[trigger] s2.instructions[k]).meta == s.instructions[k].meta by {}
    assert forall|j: int| 0 <= j < s2.store_buffers.len() implies
        ((#[trigger] s2.store_buffers[j]).data matches Some(StoreData::Waiting(t))
            ==> producer_ok(s2, t)) by {
        match s2.store_buffers[j].data {
            Some(StoreData::Waiting(t)) => {
                assert(s2.store_buffers[j].data == s.store_buffers[j].data);
                assert(producer_ok(s, t));
            },
            _ => {},
        }
    }
    assert forall|r: int| 0 <= r < s2.table.len() implies
        ((#[trigger] s2.table[r]) matches Some(t) ==> producer_ok(s2, t) && produces(s2, t, r)) by {
        match s2.table[r] {
            Some(t) => {
                assert(producer_ok(s, t) && produces(s, t, r));
                match t {
                    Tag::AddStation(p) => {
                        assert(station_ok(s, true, p as int));
                        assert(s2.instructions[s.add_stations[p as int].inst_idx->0 as int].meta
                            == s.instructions[s.add_stations[p as int].inst_idx->0 as int].meta);
                    },
                    Tag::MulStation(p) => {
                        assert(station_ok(s, false, p as int));
                        assert(s2.instructions[s.mul_stations[p as int].inst_idx->0 as int].meta
                            == s.instructions[s.mul_stations[p as int].inst_idx->0 as int].meta);
                    },
                    _ => {},
                }
            },
            None => {},
        }
    }
}

/// The execute stage preserves the no-dangling-tag invariant.
pub proof fn lemma_execute_tags(s: State)
    requires
        inv(s),
        paced(s, 1),
        tags_ok(s),
    ensures
        tags_ok(spec_execute(s)),
{
    assert forall|u: int| 0 <= u < 9 implies #[trigger] pace_slot(s, u, spec_mix_gap(u, 0)) by {
        assert(pace_slot(s, u, 1));
    }
    let s1 = spec_exec_arith(s, true, 0);
    lemma_exec_arith_tags(s, true, 0);
    lemma_exec_arith_step(s, true, 0, 0);
    let s2 = spec_exec_arith(s1, true, 1);
    lemma_exec_arith_tags(s1, true, 1);
    lemma_exec_arith_step(s1, true, 1, 1);
    let s3 = spec_exec_arith(s2, true, 2);
    lemma_exec_arith_tags(s2, true, 2);
    lemma_exec_arith_step(s2, true, 2, 2);
    let s4 = spec_exec_arith(s3, false, 0);
    lemma_exec_arith_tags(s3, false, 0);
    lemma_exec_arith_step(s3, false, 0, 3);
    let s5 = spec_exec_arith(s4, false, 1);
    lemma_exec_arith_tags(s4, false, 1);
    lemma_exec_arith_step(s4, false, 1, 4);
    let s6 = spec_exec_load(s5, 0);
    lemma_exec_load_tags(s5, 0);
    lemma_exec_load_step(s5, 0);
    let s7 = spec_exec_load(s6, 1);
    lemma_exec_load_tags(s6, 1);
    lemma_exec_load_step(s6, 1);
    let s8 = spec_exec_store(s7, 0);
    lemma_exec_store_tags(s7, 0);
    lemma_exec_store_step(s7, 0);
    lemma_exec_store_tags(s8, 1);
}

/// Whether any station operand or pending store datum references tag `t`,
/// or the table entry at `r` names it.
pub open spec fn no_refs(s: State, t: Tag, r: int) -> bool {
    &&& forall|j: int| 0 <= j < s.add_stations.len()
        ==> (#[trigger] s.add_stations[j]).qj != Some(t) && s.add_stations[j].qk != Some(t)
    &&& forall|j: int| 0 <= j < s.mul_stations.len()
        ==> (#[trigger] s.mul_stations[j]).qj != Some(t) && s.mul_stations[j].qk != Some(t)
    &&& forall|j: int| 0 <= j < s.store_buffers.len()
        ==> (#[trigger] s.store_buffers[j]).data != Some(StoreData::Waiting(t))
    &&& (0 <= r < s.table.len() ==> s.table[r] != Some(t))
}

/// Applying a broadcast never introduces a reference: tags are only
/// resolved, table entries only cleared.
proof fn lemma_bcast_no_new_refs(s: State, b: Broadcast, t: Tag, r: int)
    requires
        no_refs(s, t, r),
    ensures
        no_refs(spec_apply_bcast(s, b), t, r),
{
    let s2 = spec_apply_bcast(s, b);
    assert forall|j: int| 0 <= j < s2.add_stations.len() implies
        (#[trigger] s2.add_stations[j]).qj != Some(t) && s2.add_stations[j].qk != Some(t) by {
        assert(s.add_stations[j].qj != Some(t) && s.add_stations[j].qk != Some(t));
    }
    assert forall|j: int| 0 <= j < s2.mul_stations.len() implies
        (#[trigger] s2.mul_stations[j]).qj != Some(t) && s2.mul_stations[j].qk != Some(t) by {
        assert(s.mul_stations[j].qj != Some(t) && s.mul_stations[j].qk != Some(t));
    }
    assert forall|j: int| 0 <= j < s2.store_buffers.len() implies
        (#[trigger] s2.store_buffers[j]).data != Some(StoreData::Waiting(t)) by {
        assert(s.store_buffers[j].data != Some(StoreData::Waiting(t)));
    }
}

/// A whole batch never introduces a reference either.
proof fn lemma_bcasts_no_new_refs(s: State, bl: Seq<Broadcast>, t: Tag, r: int)
    requires
        no_refs(s, t, r),
    ensures
        no_refs(spec_apply_bcasts(s, bl), t, r),
    decreases bl.len(),
{
    if bl.len() > 0 {
        lemma_bcast_no_new_refs(s, bl[0], t, r);
        lemma_bcasts_no_new_refs(spec_apply_bcast(s, bl[0]), bl.drop_first(), t, r);
    }
}

/// Applying one broadcast removes every reference to its own tag, and
/// clears the table entry at its destination if it named that tag.
proof fn lemma_bcast_clears(s: State, b: Broadcast)
    requires
        0 <= b.dest < s.table.len(),
        b.dest < s.fp.len(),
    ensures
        no_refs(spec_apply_bcast(s, b), b.tag, b.dest as int),
{
    let s2 = spec_apply_bcast(s, b);
    assert forall|j: int| 0 <= j < s2.add_stations.len() implies
        (#[trigger] s2.add_stations[j]).qj != Some(b.tag)
            && s2.add_stations[j].qk != Some(b.tag) by {
        assert(s2.add_stations[j] == spec_resolve_station(s.add_stations[j], b));
    }
    assert forall|j: int| 0 <= j < s2.mul_stations.len() implies
        (#[trigger] s2.mul_stations[j]).qj != Some(b.tag)
            && s2.mul_stations[j].qk != Some(b.tag) by {
        assert(s2.mul_stations[j] == spec_resolve_station(s.mul_stations[j], b));
    }
    assert forall|j: int| 0 <= j < s2.store_buffers.len() implies
        (#[trigger] s2.store_buffers[j]).data != Some(StoreData::Waiting(b.tag)) by {
        assert(s2.store_buffers[j] == spec_resolve_store(s.store_buffers[j], b));
    }
}

/// After applying a batch that contains a broadcast from tag `t` to
/// destination `r`, nothing references `t` any more and the table no longer
/// names it at `r`.
proof fn lemma_bcasts_tag_cleared(s: State, bl: Seq<Broadcast>, m: int)
    requires
        0 <= m < bl.len(),
        0 <= bl[m].dest < s.table.len(),
        bl[m].dest < s.fp.len(),
    ensures
        no_refs(spec_apply_bcasts(s, bl), bl[m].tag, bl[m].dest as int),
    decreases bl.len(),
{
    let s1 = spec_apply_bcast(s, bl[0]);
    lemma_bcasts_rel(s, bl);
    if m == 0 {
        lemma_bcast_clears(s, bl[0]);
        lemma_bcasts_no_new_refs(s1, bl.drop_first(), bl[0].tag, bl[0].dest as int);
    } else {
        assert(bl.drop_first()[m - 1] == bl[m]);
        assert(s1.table.len() == s.table.len() && s1.fp.len() == s.fp.len()) by {
            lemma_bcasts_rel(s, seq![bl[0]]);
            assert(seq![bl[0]][0] == bl[0]);
            assert(seq![bl[0]].drop_first() =~= Seq::<Broadcast>::empty());
        }
        lemma_bcasts_tag_cleared(s1, bl.drop_first(), m - 1);
    }
}

/// A batch only ever clears table entries, never writes one.
proof fn lemma_bcasts_table_monotone(s: State, bl: Seq<Broadcast>, r: int)
    requires
        0 <= r < s.table.len(),
    ensures
        spec_apply_bcasts(s, bl).table[r] == s.table[r]
            || spec_apply_bcasts(s, bl).table[r] is None,
    decreases bl.len(),
{
    if bl.len() > 0 {
        let s1 = spec_apply_bcast(s, bl[0]);
        assert(s1.table.len() == s.table.len());
        lemma_bcasts_table_monotone(s1, bl.drop_first(), r);
    }
}

/// The ordinal of the slot a tag names.
pub open spec fn tag_ord(t: Tag) -> int {
    match t {
        Tag::AddStation(i) => i as int,
        Tag::MulStation(i) => 3 + i as int,
        Tag::LoadBuffer(i) => 5 + i as int,
        Tag::StoreBuffer(i) => 7 + i as int,
    }
}

/// A live producer's destination register is in range.
proof fn lemma_dest_bounds(s: State, t: Tag)
    requires
        inv(s),
        producer_ok(s, t),
    ensures
        0 <= tag_ord(t) < 7,
        ord_busy(s, tag_ord(t)),
        ord_tag(tag_ord(t)) == t,
        spec_dest_of(s, tag_ord(t)) < 16,
{
    match t {
        Tag::AddStation(p) => {
            assert(station_ok(s, true, p as int));
            let idx = s.add_stations[p as int].inst_idx->0 as int;
            assert(meta_ok(s, s.instructions[idx].meta));
        },
        Tag::MulStation(p) => {
            assert(station_ok(s, false, p as int));
            let idx = s.mul_stations[p as int].inst_idx->0 as int;
            assert(meta_ok(s, s.instructions[idx].meta));
        },
        Tag::LoadBuffer(p) => {
            assert(load_ok(s, p as int));
            let idx = s.load_buffers[p as int].inst_idx->0 as int;
            assert(meta_ok(s, s.instructions[idx].meta));
        },
        Tag::StoreBuffer(_) => {},
    }
}

/// A producer still referenced after the broadcast batch was not released
/// this cycle, and is still busy once the released slots are cleared.
proof fn lemma_survivor_producer(s: State, a: WbScan, sb: State, sc: State, sd: State, t: Tag)
    requires
        inv(s),
        scan_rel(s, a, 9),
        sb == spec_apply_bcasts(a.s, a.bl),
        sc == spec_rearm_all(sb),
        sd == spec_releases(sc, a.rel),
        producer_ok(s, t),
        !no_refs(sb, t, spec_dest_of(s, tag_ord(t)) as int),
    ensures
        !wb_released(s, tag_ord(t)),
        !a.rel.contains(t),
        producer_ok(sd, t),
{
    lemma_bcasts_rel(a.s, a.bl);
    lemma_rearm_rel(sb);
    lemma_sc_names(s, a, sb, sc);
    lemma_releases_rel(sc, a.rel);
    lemma_dest_bounds(s, t);
    let u = tag_ord(t);
    if wb_released(s, u) {
        let m = choose|m: int| 0 <= m < a.bl.len() && (#[trigger] a.bl[m]).tag == ord_tag(u)
            && a.bl[m].dest == spec_dest_of(s, u);
        lemma_bcasts_tag_cleared(a.s, a.bl, m);
        assert(no_refs(sb, t, spec_dest_of(s, u) as int));
        assert(false);
    }
    lemma_rel_contains(s, a, u);
    assert(!a.rel.contains(ord_tag(u)));
    match t {
        Tag::AddStation(p) => {
            assert(a.s.add_stations[p as int] == s.add_stations[p as int]);
            assert(sd.add_stations[p as int].busy);
        },
        Tag::MulStation(p) => {
            assert(a.s.mul_stations[p as int] == s.mul_stations[p as int]);
            assert(sd.mul_stations[p as int].busy);
        },
        Tag::LoadBuffer(p) => {
            assert(a.s.load_buffers[p as int] == s.load_buffers[p as int]);
            assert(sd.load_buffers[p as int].busy);
        },
        Tag::StoreBuffer(_) => {},
    }
}

/// A surviving producer still produces the same register afterwards.
proof fn lemma_survivor_produces(s: State, a: WbScan, sb: State, sc: State, sd: State, t: Tag, r: int)
    requires
        inv(s),
        scan_rel(s, a, 9),
        sb == spec_apply_bcasts(a.s, a.bl),
        sc == spec_rearm_all(sb),
        sd == spec_releases(sc, a.rel),
        producer_ok(s, t),
        produces(s, t, r),
        !wb_released(s, tag_ord(t)),
        !a.rel.contains(t),
    ensures
        produces(sd, t, r),
{
    lemma_bcasts_rel(a.s, a.bl);
    lemma_rearm_rel(sb);
    lemma_sc_names(s, a, sb, sc);
    lemma_releases_rel(sc, a.rel);
    lemma_dest_bounds(s, t);
    let u = tag_ord(t);
    assert(sd.instructions == a.s.instructions);
    match t {
        Tag::AddStation(p) => {
            assert(station_ok(s, true, p as int));
            assert(a.s.add_stations[p as int] == s.add_stations[p as int]);
            let stb = sb.add_stations[p as int];
            assert(resolve_rel_station(s.add_stations[p as int], stb));
            assert(sd.add_stations[p as int] == spec_rearmed(sb, stb));
            assert(sd.add_stations[p as int].inst_idx == s.add_stations[p as int].inst_idx);
            let idx = s.add_stations[p as int].inst_idx->0 as int;
            assert(sd.instructions[idx].meta == s.instructions[idx].meta);
        },
        Tag::MulStation(p) => {
            assert(station_ok(s, false, p as int));
            assert(a.s.mul_stations[p as int] == s.mul_stations[p as int]);
            let stb = sb.mul_stations[p as int];
            assert(resolve_rel_station(s.mul_stations[p as int], stb));
            assert(sd.mul_stations[p as int] == spec_rearmed(sb, stb));
            assert(sd.mul_stations[p as int].inst_idx == s.mul_stations[p as int].inst_idx);
            let idx = s.mul_stations[p as int].inst_idx->0 as int;
            assert(sd.instructions[idx].meta == s.instructions[idx].meta);
        },
        Tag::LoadBuffer(p) => {
            assert(load_ok(s, p as int));
            assert(a.s.load_buffers[p as int] == s.load_buffers[p as int]);
            assert(sd.load_buffers[p as int] == s.load_buffers[p as int]);
        },
        Tag::StoreBuffer(_) => {},
    }
}

/// The write-back stage preserves the no-dangling-tag invariant: a released
/// slot's broadcast resolves every reference to it before the slot is
/// cleared, and the renaming table only ever loses entries.
pub proof fn lemma_writeback_tags(s: State, results: Seq<u64>)
    requires
        inv(s),
        tags_ok(s),
    ensures
        tags_ok(spec_writeback(s, results)),
{
    let a = spec_wb_scan(s, results);
    lemma_scan_rel(s, results);
    let sb = spec_apply_bcasts(a.s, a.bl);
    lemma_bcasts_rel(a.s, a.bl);
    let sc = spec_rearm_all(sb);
    lemma_rearm_rel(sb);
    lemma_sc_names(s, a, sb, sc);
    let sd = spec_releases(sc, a.rel);
    lemma_releases_rel(sc, a.rel);
    assert(sd == spec_writeback(s, results));

    assert forall|j: int| 0 <= j < sd.add_stations.len() implies ({
        let st = #[trigger] sd.add_stations[j];
        &&& (st.qj matches Some(t) ==> producer_ok(sd, t))
        &&& (st.qk matches Some(t) ==> producer_ok(sd, t))
    }) by {
        let name = s.add_stations[j].name;
        if a.rel.contains(name) {
            assert(sd.add_stations[j] == spec_empty_station(name));
        } else {
            lemma_rel_contains(s, a, j);
            assert(a.s.add_stations[j] == s.add_stations[j]);
            let stb = sb.add_stations[j];
            assert(resolve_rel_station(s.add_stations[j], stb));
            assert(sd.add_stations[j] == spec_rearmed(sb, stb));
            match sd.add_stations[j].qj {
                Some(t) => {
                    assert(stb.qj == Some(t));
                    assert(s.add_stations[j].qj == Some(t));
                    assert(producer_ok(s, t));
                    lemma_dest_bounds(s, t);
                    lemma_survivor_producer(s, a, sb, sc, sd, t);
                },
                None => {},
            }
            match sd.add_stations[j].qk {
                Some(t) => {
                    assert(stb.qk == Some(t));
                    assert(s.add_stations[j].qk == Some(t));
                    assert(producer_ok(s, t));
                    lemma_dest_bounds(s, t);
                    lemma_survivor_producer(s, a, sb, sc, sd, t);
                },
                None => {},
            }
        }
    }
    assert forall|j: int| 0 <= j < sd.mul_stations.len() implies ({
        let st = #[trigger] sd.mul_stations[j];
        &&& (st.qj matches Some(t) ==> producer_ok(sd, t))
        &&& (st.qk matches Some(t) ==> producer_ok(sd, t))
    }) by {
        let name = s.mul_stations[j].name;
        if a.rel.contains(name) {
            assert(sd.mul_stations[j] == spec_empty_station(name));
        } else {
            lemma_rel_contains(s, a, 3 + j);
            assert(a.s.mul_stations[j] == s.mul_stations[j]);
            let stb = sb.mul_stations[j];
            assert(resolve_rel_station(s.mul_stations[j], stb));
            assert(sd.mul_stations[j] == spec_rearmed(sb, stb));
            match sd.mul_stations[j].qj {
                Some(t) => {
                    assert(stb.qj == Some(t));
                    assert(s.mul_stations[j].qj == Some(t));
                    assert(producer_ok(s, t));
                    lemma_dest_bounds(s, t);
                    lemma_survivor_producer(s, a, sb, sc, sd, t);
                },
                None => {},
            }
            match sd.mul_stations[j].qk {
                Some(t) => {
                    assert(stb.qk == Some(t));
                    assert(s.mul_stations[j].qk == Some(t));
                    assert(producer_ok(s, t));
                    lemma_dest_bounds(s, t);
                    lemma_survivor_producer(s, a, sb, sc, sd, t);
                },
                None => {},
            }
        }
    }
    assert forall|j: int| 0 <= j < sd.store_buffers.len() implies
        ((#[trigger] sd.store_buffers[j]).data matches Some(StoreData::Waiting(t))
            ==> producer_ok(sd, t)) by {
        let name = s.store_buffers[j].name;
        if a.rel.contains(name) {
            assert(sd.store_buffers[j] == spec_empty_store(name));
        } else {
            lemma_rel_contains(s, a, 7 + j);
            assert(a.s.store_buffers[j] == s.store_buffers[j]);
            assert(resolve_rel_store(s.store_buffers[j], sb.store_buffers[j]));
            assert(sd.store_buffers[j] == sb.store_buffers[j]);
            match sd.store_buffers[j].data {
                Some(StoreData::Waiting(t)) => {
                    assert(s.store_buffers[j].data == Some(StoreData::Waiting(t)));
                    assert(producer_ok(s, t));
                    lemma_dest_bounds(s, t);
                    lemma_survivor_producer(s, a, sb, sc, sd, t);
                },
                _ => {},
            }
        }
    }
    assert forall|r: int| 0 <= r < sd.table.len() implies
        ((#[trigger] sd.table[r]) matches Some(t) ==> producer_ok(sd, t) && produces(sd, t, r)) by {
        match sd.table[r] {
            Some(t) => {
                assert(sd.table == sb.table);
                lemma_bcasts_table_monotone(a.s, a.bl, r);
                assert(s.table[r] == Some(t));
                assert(producer_ok(s, t) && produces(s, t, r));
                lemma_dest_bounds(s, t);
                assert(spec_dest_of(s, tag_ord(t)) == r);
                assert(!no_refs(sb, t, r));
                lemma_survivor_producer(s, a, sb, sc, sd, t);
                lemma_survivor_produces(s, a, sb, sc, sd, t, r);
            },
            None => {},
        }
    }
}

} // verus!
