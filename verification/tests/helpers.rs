use tomasulo::simulator::instruction::{Instruction, InstructionType};
use tomasulo::simulator::reservation_station::ReservationStation;
use tomasulo::simulator::tag::Tag;
use tomasulo::simulator::types::Cycle;
use tomasulo::utils::helper::{
    collect_ready_units, is_ready_for_writeback, ExecUnitSlot, WritebackCandidate,
};
use tomasulo::utils::parser::Parser;

fn inst_with_times(line: &str, completion: Option<u32>, write_back: Option<u32>) -> Instruction {
    let meta = Parser::parse_line(line).expect("line should decode");
    let mut inst = Instruction::new(meta);
    inst.time.completion = completion.map(Cycle::new);
    inst.time.write_back = write_back.map(Cycle::new);
    inst
}

fn busy_station(pool_pos: usize, inst_idx: usize) -> ReservationStation {
    let mut st = ReservationStation::new(Tag::AddStation(pool_pos));
    st.busy = true;
    st.inst_idx = Some(inst_idx);
    st
}

#[test]
fn readiness_for_writeback() {
    let instrs = vec![
        inst_with_times("ADD.D F0,F2,F4", Some(3), None),
        inst_with_times("ADD.D F6,F2,F4", Some(4), None),
        inst_with_times("ADD.D F8,F2,F4", Some(2), Some(3)),
        inst_with_times("ADD.D F10,F2,F4", None, None),
    ];
    let now = Cycle::new(4);
    // completed strictly before the current cycle, not yet written back
    assert_eq!(is_ready_for_writeback(true, Some(0), &instrs, now), Some(0));
    // completed only this cycle
    assert_eq!(is_ready_for_writeback(true, Some(1), &instrs, now), None);
    // already written back
    assert_eq!(is_ready_for_writeback(true, Some(2), &instrs, now), None);
    // not completed at all
    assert_eq!(is_ready_for_writeback(true, Some(3), &instrs, now), None);
    // free slot, or no owner, or owner out of range
    assert_eq!(is_ready_for_writeback(false, Some(0), &instrs, now), None);
    assert_eq!(is_ready_for_writeback(true, None, &instrs, now), None);
    assert_eq!(is_ready_for_writeback(true, Some(9), &instrs, now), None);
}

#[test]
fn slot_queries_report_the_fields() {
    let st = busy_station(1, 7);
    assert!(st.is_busy());
    assert_eq!(st.inst_index(), Some(7));
    let free = ReservationStation::new(Tag::AddStation(2));
    assert!(!free.is_busy());
    assert_eq!(free.inst_index(), None);
}

#[test]
fn collecting_ready_units() {
    let instrs = vec![
        inst_with_times("ADD.D F0,F2,F4", Some(3), None),
        inst_with_times("MUL.D F6,F2,F4", Some(2), None),
        inst_with_times("DIV.D F8,F2,F4", Some(3), None),
    ];
    let units = vec![
        busy_station(0, 0),
        busy_station(1, 1),
        ReservationStation::new(Tag::AddStation(2)),
        busy_station(3, 2),
    ];
    let mut out: Vec<WritebackCandidate> = Vec::new();
    // the extra filter turns away the unit owning instruction 1
    let accept = |u: &ReservationStation| u.inst_idx != Some(1);
    collect_ready_units(&mut out, &units, &instrs, Cycle::new(4), &accept);
    assert_eq!(out.len(), 2);
    assert_eq!(out[0].unit_idx, 0);
    assert_eq!(out[0].inst_idx, 0);
    assert!(matches!(out[0].itype, InstructionType::ADDD));
    assert_eq!(out[1].unit_idx, 3);
    assert_eq!(out[1].inst_idx, 2);
    assert!(matches!(out[1].itype, InstructionType::DIVD));
}
