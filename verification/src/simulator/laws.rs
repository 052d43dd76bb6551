//! The engine's laws, proved once and for all over the transition functions
//! and the invariant of [`crate::simulator::model`].

use vstd::prelude::*;
use crate::simulator::instruction::{spec_exec_cycles, InstructionType};
use crate::simulator::model::{
    first_free_load, first_free_station, inst_times_ok, inv, lemma_first_free_load,
    lemma_first_free_station, spec_apply_bcast, spec_exec_arith, spec_exec_load, spec_exec_store,
    spec_execute, spec_issue, spec_issue_arith, spec_issue_load, spec_run_from, spec_writeback,
    Broadcast, State,
};
use crate::simulator::tag::Tag;

verus! {

/// Program order: instructions issue strictly in order, so whenever a later
/// instruction has an issue timestamp, every earlier one has an issue
/// timestamp no later than it.
pub proof fn lemma_program_order(s: State, i: int, j: int)
    requires
        inv(s),
        0 <= i < j < s.instructions.len(),
        s.instructions[j].time.issue is Some,
    ensures
        s.instructions[i].time.issue is Some,
        (s.instructions[i].time.issue->0).0 <= (s.instructions[j].time.issue->0).0,
{
    assert(inst_times_ok(s, i));
    assert(inst_times_ok(s, j));
}

/// Capacity bound: at every reachable state there are at most 3 busy add
/// stations, 2 busy multiply stations, 2 busy load buffers, and 2 busy store
/// buffers, because each pool's size is fixed and occupancy never exceeds
/// the pool.
pub proof fn lemma_capacity(s: State)
    requires
        inv(s),
    ensures
        s.add_stations.filter(|st: crate::simulator::reservation_station::ReservationStation| st.busy).len() <= 3,
        s.mul_stations.filter(|st: crate::simulator::reservation_station::ReservationStation| st.busy).len() <= 2,
        s.load_buffers.filter(|lb: crate::simulator::load_store::LoadBuffer| lb.busy).len() <= 2,
        s.store_buffers.filter(|sb: crate::simulator::load_store::StoreBuffer| sb.busy).len() <= 2,
{
    broadcast use vstd::seq_lib::group_filter_ensures;

}

/// Renaming, first half: when an arithmetic instruction with a destination
/// register issues, the renaming table afterwards names the newly claimed
/// station, unconditionally overwriting any earlier producer
/// (last-issued-writer-wins).
pub proof fn lemma_rename_last_writer_arith(s: State, is_add: bool, i: int)
    requires
        inv(s),
        s.issued < s.instructions.len(),
        (if is_add {
            s.instructions[s.issued as int].meta.inst_type == InstructionType::ADDD
                || s.instructions[s.issued as int].meta.inst_type == InstructionType::SUBD
        } else {
            s.instructions[s.issued as int].meta.inst_type == InstructionType::MULTD
                || s.instructions[s.issued as int].meta.inst_type == InstructionType::DIVD
        }),
        first_free_station(if is_add { s.add_stations } else { s.mul_stations }, 0) == Some(i),
    ensures
        spec_issue(s) == spec_issue_arith(s, is_add, i),
        0 <= s.instructions[s.issued as int].meta.rd->0 < 16 ==> spec_issue(s).table[
            s.instructions[s.issued as int].meta.rd->0 as int
        ] == Some((if is_add { s.add_stations } else { s.mul_stations })[i].name),
{
    lemma_first_free_station(if is_add { s.add_stations } else { s.mul_stations }, 0);
}

/// Renaming, for loads: an issuing load claims its destination register in
/// the renaming table the same way.
pub proof fn lemma_rename_last_writer_load(s: State, i: int)
    requires
        inv(s),
        s.issued < s.instructions.len(),
        s.instructions[s.issued as int].meta.inst_type == InstructionType::LD,
        first_free_load(s.load_buffers, 0) == Some(i),
    ensures
        spec_issue(s) == spec_issue_load(s, i),
        0 <= s.instructions[s.issued as int].meta.rd->0 < 16 ==> spec_issue(s).table[
            s.instructions[s.issued as int].meta.rd->0 as int
        ] == Some(s.load_buffers[i].name),
{
    lemma_first_free_load(s.load_buffers, 0);
}

/// Renaming, second half: a broadcast from a producer the table no longer
/// names must not overwrite the architectural register file.
pub proof fn lemma_superseded_broadcast(s: State, b: Broadcast)
    requires
        0 <= b.dest < s.table.len() ==> s.table[b.dest as int] != Some(b.tag),
    ensures
        spec_apply_bcast(s, b).fp == s.fp,
{
}

/// The matching broadcast: when the table still names the producer, exactly
/// that register is updated and the table entry is cleared.
pub proof fn lemma_matching_broadcast(s: State, b: Broadcast)
    requires
        0 <= b.dest < s.table.len(),
        b.dest < s.fp.len(),
        s.table[b.dest as int] == Some(b.tag),
    ensures
        spec_apply_bcast(s, b).fp == s.fp.update(b.dest as int, b.val),
        spec_apply_bcast(s, b).table == s.table.update(b.dest as int, None),
{
}

/// Tag resolution, first half: an arithmetic instruction whose source
/// register has a pending producer at issue records that producer's tag in
/// place of a value; the register file is not read for that operand.
pub proof fn lemma_pending_source_records_tag(s: State, is_add: bool, i: int, t: Tag)
    requires
        inv(s),
        s.issued < s.instructions.len(),
        0 <= i < (if is_add { s.add_stations } else { s.mul_stations }).len(),
        0 <= s.instructions[s.issued as int].meta.rs->0 < s.table.len(),
        s.table[s.instructions[s.issued as int].meta.rs->0 as int] == Some(t),
    ensures
        ({
            let st = (if is_add {
                spec_issue_arith(s, is_add, i).add_stations
            } else {
                spec_issue_arith(s, is_add, i).mul_stations
            })[i];
            st.qj == Some(t) && st.vj is None
        }),
{
}

/// Tag resolution, second half: a broadcast carrying a pending producer's
/// tag is the only mechanism that turns the tag into an operand value, and
/// it delivers exactly the broadcast value.
pub proof fn lemma_broadcast_resolves(s: State, b: Broadcast, is_add: bool, i: int)
    requires
        0 <= i < (if is_add { s.add_stations } else { s.mul_stations }).len(),
        (if is_add { s.add_stations } else { s.mul_stations })[i].qj == Some(b.tag),
    ensures
        ({
            let st = (if is_add {
                spec_apply_bcast(s, b).add_stations
            } else {
                spec_apply_bcast(s, b).mul_stations
            })[i];
            st.qj is None && st.vj == Some(b.val)
        }),
{
}

/// The operand fields of one station agree between two states.
pub open spec fn operands_eq(sa: State, sb: State, is_add: bool, i: int) -> bool {
    let pa = if is_add { sa.add_stations } else { sa.mul_stations };
    let pb = if is_add { sb.add_stations } else { sb.mul_stations };
    &&& pb.len() == pa.len()
    &&& (0 <= i < pa.len() ==> pb[i].qj == pa[i].qj && pb[i].vj == pa[i].vj
            && pb[i].qk == pa[i].qk && pb[i].vk == pa[i].vk)
}

/// Tag resolution, frame half: the execute stage never touches operands, so
/// a pending operand can change only through a broadcast.
pub proof fn lemma_execute_preserves_operands(s: State, is_add: bool, i: int)
    requires
        crate::simulator::model::wf_lens(s),
        0 <= i < (if is_add { s.add_stations } else { s.mul_stations }).len(),
    ensures
        operands_eq(s, spec_execute(s), is_add, i),
{
    let s1 = spec_exec_arith(s, true, 0);
    let s2 = spec_exec_arith(s1, true, 1);
    let s3 = spec_exec_arith(s2, true, 2);
    let s4 = spec_exec_arith(s3, false, 0);
    let s5 = spec_exec_arith(s4, false, 1);
    let s6 = spec_exec_load(s5, 0);
    let s7 = spec_exec_load(s6, 1);
    let s8 = spec_exec_store(s7, 0);
    let s9 = spec_exec_store(s8, 1);
    assert(operands_eq(s, s1, is_add, i));
    assert(operands_eq(s1, s2, is_add, i));
    assert(operands_eq(s2, s3, is_add, i));
    assert(operands_eq(s3, s4, is_add, i));
    assert(operands_eq(s4, s5, is_add, i));
    assert(operands_eq(s5, s6, is_add, i));
    assert(operands_eq(s6, s7, is_add, i));
    assert(operands_eq(s7, s8, is_add, i));
    assert(operands_eq(s8, s9, is_add, i));
    assert(s9 == spec_execute(s));
}

/// Latency conformance: once an instruction has both timestamps, its
/// completion lies exactly its operation's latency minus one cycles after
/// its execution start (the countdown consumes a tick on the start cycle).
pub proof fn lemma_latency(s: State, i: int)
    requires
        inv(s),
        0 <= i < s.instructions.len(),
        s.instructions[i].time.exec_start is Some,
        s.instructions[i].time.completion is Some,
    ensures
        (s.instructions[i].time.completion->0).0
            == (s.instructions[i].time.exec_start->0).0
                + spec_exec_cycles(s.instructions[i].meta.inst_type) - 1,
{
    assert(inst_times_ok(s, i));
}

/// Determinism: every stage is a pure function of the state and, for
/// write-back, of the delivered arithmetic results.  Two runs over the same
/// instruction sequence from the same initial register and memory state,
/// fed the same result words, therefore produce bit-identical timestamp
/// tables, registers, and memory.
pub proof fn lemma_determinism(s1: State, s2: State, r1: Seq<u64>, r2: Seq<u64>)
    requires
        s1 == s2,
        r1 == r2,
    ensures
        spec_issue(s1) == spec_issue(s2),
        spec_execute(s1) == spec_execute(s2),
        spec_writeback(s1, r1) == spec_writeback(s2, r2),
{
}

/// Determinism over whole runs: the driver itself is a pure function of the
/// starting state and the per-cycle result words ([`spec_run_from`]), which
/// is what `Tomasulo::run` ensures its final state to be.
pub proof fn lemma_run_determinism(s1: State, s2: State, rss1: Seq<Seq<u64>>, rss2: Seq<Seq<u64>>)
    requires
        s1 == s2,
        rss1 == rss2,
    ensures
        spec_run_from(s1, rss1) == spec_run_from(s2, rss2),
{
}

/// Tag resolution, issue half of the frame: issuing an instruction claims a
/// free slot and never touches another station's operands.
pub proof fn lemma_issue_preserves_operands(s: State, is_add: bool, i: int)
    requires
        inv(s),
        0 <= i < (if is_add { s.add_stations } else { s.mul_stations }).len(),
        (if is_add { s.add_stations } else { s.mul_stations })[i].busy,
    ensures
        operands_eq(s, spec_issue(s), is_add, i),
{
    if s.issued < s.instructions.len() {
        let m = s.instructions[s.issued as int].meta;
        match m.inst_type {
            InstructionType::ADDD | InstructionType::SUBD => {
                lemma_first_free_station(s.add_stations, 0);
            },
            InstructionType::MULTD | InstructionType::DIVD => {
                lemma_first_free_station(s.mul_stations, 0);
            },
            InstructionType::LD => {
                lemma_first_free_load(s.load_buffers, 0);
            },
            InstructionType::SD => {
                crate::simulator::model::lemma_first_free_store(s.store_buffers, 0);
            },
        }
    }
}

/// Timestamp order: for every instruction, the recorded timestamps respect
/// the stage order.  Issue strictly precedes execution start; completion
/// lies latency-minus-one cycles after the start (so a one-cycle store
/// completes on its start cycle); write-back strictly follows completion.
pub proof fn lemma_timestamp_order(s: State, i: int)
    requires
        inv(s),
        0 <= i < s.instructions.len(),
    ensures
        ({
            let t = s.instructions[i].time;
            &&& (t.exec_start matches Some(es)
                    ==> (t.issue matches Some(ic) && ic.0 < es.0))
            &&& (t.completion matches Some(cc)
                    ==> (t.exec_start matches Some(es) && es.0 <= cc.0))
            &&& (t.write_back matches Some(wb)
                    ==> (t.completion matches Some(cc) && cc.0 < wb.0))
        }),
{
    assert(inst_times_ok(s, i));
}

} // verus!
