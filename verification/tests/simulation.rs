use tomasulo::simulator::instruction::{Instruction, InstructionType};
use tomasulo::simulator::tomasulo::{FpUnit, Tomasulo, MAX_CYCLES};
use tomasulo::utils::parser::Parser;

/// The arithmetic unit used by the tests: IEEE double precision on the raw
/// 64-bit words the engine carries.
struct DoubleAlu;

impl FpUnit for DoubleAlu {
    fn apply(&mut self, op: InstructionType, a: u64, b: u64) -> u64 {
        let x = f64::from_bits(a);
        let y = f64::from_bits(b);
        let r = match op {
            InstructionType::ADDD => x + y,
            InstructionType::SUBD => x - y,
            InstructionType::MULTD => x * y,
            InstructionType::DIVD => x / y,
            _ => 0.0,
        };
        r.to_bits()
    }
}

fn engine_for(source: &str) -> Tomasulo {
    let metas = Parser::parse_file(source);
    let mut instructions = Vec::new();
    for m in metas {
        instructions.push(Instruction::new(m));
    }
    Tomasulo::new(instructions)
}

fn times_of(sim: &Tomasulo, i: usize) -> (Option<u32>, Option<u32>, Option<u32>, Option<u32>) {
    let t = sim.instructions[i].time;
    (
        t.issue.map(|c| c.value()),
        t.exec_start.map(|c| c.value()),
        t.completion.map(|c| c.value()),
        t.write_back.map(|c| c.value()),
    )
}

/// Run one full cycle by hand: advance the clock, then issue, execute, and
/// write-back in the fixed stage order.
fn step(sim: &mut Tomasulo, alu: &mut DoubleAlu) {
    sim.current_cycle = sim.current_cycle.next();
    sim.issue_stage();
    sim.execute_stage();
    let reqs = sim.alu_requests();
    let mut results = Vec::new();
    for q in &reqs {
        results.push(alu.apply(q.op, q.a, q.b));
    }
    sim.writeback_stage(&results);
}

#[test]
fn scenario_load_then_multiply() {
    // default state: R2 = 0, all floating registers 1.0, memory preset to 1.0
    let mut sim = engine_for("L.D F6,32(R2)\nMUL.D F0,F2,F4\n");
    let out = sim.run(&mut DoubleAlu);
    assert!(out.completed);
    assert!(out.blocked.is_empty());

    // F6 holds the value loaded from memory[(R2 + 32) / 8] = memory[4] = 1.0
    assert_eq!(sim.registers.fp[3], 1.0f64.to_bits());

    // the load: issue 1, start 2, completion 3, write-back 4
    assert_eq!(times_of(&sim, 0), (Some(1), Some(2), Some(3), Some(4)));

    // the multiply: both operands ready at issue; execution starts the cycle
    // after issue, completion lies latency-minus-one cycles after the start,
    // and the result is written exactly ten whole cycles after the start
    assert_eq!(times_of(&sim, 1), (Some(2), Some(3), Some(12), Some(13)));
    let (issue, start, comp, wb) = times_of(&sim, 1);
    assert_eq!(start.unwrap(), issue.unwrap() + 1);
    assert_eq!(comp.unwrap(), start.unwrap() + 10 - 1);
    assert_eq!(wb.unwrap(), start.unwrap() + 10);

    // the multiply result itself: 1.0 * 1.0
    assert_eq!(sim.registers.fp[0], 1.0f64.to_bits());
}

#[test]
fn latency_per_operation_kind() {
    // one instruction of each arithmetic latency, on independent registers
    let mut sim = engine_for("ADD.D F0,F2,F4\nMUL.D F6,F8,F10\nDIV.D F12,F14,F16\n");
    let out = sim.run(&mut DoubleAlu);
    assert!(out.completed);
    for (i, lat) in [(0usize, 2u32), (1, 10), (2, 40)] {
        let (_, start, comp, _) = times_of(&sim, i);
        assert_eq!(comp.unwrap(), start.unwrap() + lat - 1);
    }
}

#[test]
fn renaming_last_writer_wins() {
    // both instructions target F0; the divide broadcasts long after the add
    // has already written F0, and must not overwrite it
    let mut sim = engine_for("DIV.D F0,F2,F4\nADD.D F0,F2,F4\n");
    let out = sim.run(&mut DoubleAlu);
    assert!(out.completed);
    // the add (the last writer in program order) wins: 1.0 + 1.0
    assert_eq!(sim.registers.fp[0], 2.0f64.to_bits());
    // the divide still wrote back, later than the add
    let (_, _, _, add_wb) = times_of(&sim, 1);
    let (_, _, _, div_wb) = times_of(&sim, 0);
    assert_eq!(add_wb, Some(5));
    assert_eq!(div_wb, Some(42));
}

#[test]
fn pending_operand_arrives_by_broadcast() {
    // the add depends on the load through F6 and must wait for its broadcast
    let mut sim = engine_for("L.D F6,32(R2)\nADD.D F8,F6,F6\n");
    sim.memory[4] = 2.5f64.to_bits();
    let out = sim.run(&mut DoubleAlu);
    assert!(out.completed);
    assert_eq!(sim.registers.fp[3], 2.5f64.to_bits());
    assert_eq!(sim.registers.fp[4], 5.0f64.to_bits());
    // the load writes back at cycle 4; only then can the add's countdown
    // start, so its execution begins at cycle 5
    assert_eq!(times_of(&sim, 0), (Some(1), Some(2), Some(3), Some(4)));
    assert_eq!(times_of(&sim, 1), (Some(2), Some(5), Some(6), Some(7)));
}

#[test]
fn store_waits_for_its_datum() {
    // the store's address operands are ready at issue, but its datum comes
    // from the load's broadcast, so the store retries its write-back
    let mut sim = engine_for("L.D F6,32(R2)\nS.D F6,0(R2)\n");
    sim.memory[4] = 2.5f64.to_bits();
    let out = sim.run(&mut DoubleAlu);
    assert!(out.completed);
    assert_eq!(sim.memory[0], 2.5f64.to_bits());
    assert_eq!(times_of(&sim, 0), (Some(1), Some(2), Some(3), Some(4)));
    // the store completed at cycle 3 but could only write at cycle 5, the
    // cycle after the broadcast marked its datum ready
    assert_eq!(times_of(&sim, 1), (Some(2), Some(3), Some(3), Some(5)));
}

#[test]
fn store_with_ready_datum() {
    // R1 is preset to 16, so the effective address is (16 + 8) / 8 = 3
    let mut sim = engine_for("S.D F4,8(R1)\n");
    let out = sim.run(&mut DoubleAlu);
    assert!(out.completed);
    assert_eq!(sim.memory[3], 1.0f64.to_bits());
    assert_eq!(times_of(&sim, 0), (Some(1), Some(2), Some(2), Some(3)));
}

#[test]
fn program_order_and_capacity_under_structural_hazard() {
    // four adds compete for three add stations: the fourth must stall
    let mut sim = engine_for("ADD.D F0,F2,F4\nADD.D F6,F2,F4\nADD.D F8,F2,F4\nADD.D F10,F2,F4\n");
    let mut alu = DoubleAlu;
    let mut issues = Vec::new();
    for _ in 0..20 {
        step(&mut sim, &mut alu);
        // capacity bound, observed at every cycle
        assert!(sim.add_stations.iter().filter(|st| st.busy).count() <= 3);
        assert!(sim.mul_stations.iter().filter(|st| st.busy).count() <= 2);
        assert!(sim.load_buffers.iter().filter(|lb| lb.busy).count() <= 2);
        assert!(sim.store_buffers.iter().filter(|sb| sb.busy).count() <= 2);
        if sim.all_instructions_done() {
            break;
        }
    }
    assert!(sim.all_instructions_done());
    for i in 0..4 {
        issues.push(times_of(&sim, i).0.unwrap());
    }
    // program order: issue timestamps never decrease
    for w in issues.windows(2) {
        assert!(w[0] <= w[1]);
    }
    // the fourth add could only issue once the first station was released
    assert_eq!(issues, vec![1, 2, 3, 5]);
}

#[test]
fn safety_cap_halt_lists_unfinished_instructions() {
    // far more divides than the two multiply/divide stations can drain
    // within the cycle cap
    let mut source = String::new();
    for _ in 0..120 {
        source.push_str("DIV.D F0,F2,F4\n");
    }
    let mut sim = engine_for(&source);
    let out = sim.run(&mut DoubleAlu);
    assert!(!out.completed);
    assert!(sim.current_cycle.value() > MAX_CYCLES);
    assert!(!out.blocked.is_empty());
    // the halt lists exactly the instructions still lacking write-back,
    // in ascending order
    let expected: Vec<usize> = (0..sim.instructions.len())
        .filter(|&i| sim.instructions[i].time.write_back.is_none())
        .collect();
    assert_eq!(out.blocked, expected);
    for w in out.blocked.windows(2) {
        assert!(w[0] < w[1]);
    }
    // the very last divide can never have finished
    assert!(out.blocked.contains(&119));
}

#[test]
fn identical_runs_are_bit_identical() {
    let source = "L.D F6,32(R2)\nMUL.D F0,F2,F4\nADD.D F8,F6,F6\nS.D F8,0(R2)\n";
    let mut a = engine_for(source);
    let mut b = engine_for(source);
    let ra = a.run(&mut DoubleAlu);
    let rb = b.run(&mut DoubleAlu);
    assert_eq!(ra.completed, rb.completed);
    assert_eq!(a.instructions.len(), b.instructions.len());
    for i in 0..a.instructions.len() {
        assert_eq!(times_of(&a, i), times_of(&b, i));
    }
    assert_eq!(a.registers.fp, b.registers.fp);
    assert_eq!(a.memory, b.memory);
    assert_eq!(a.current_cycle.value(), b.current_cycle.value());
}

#[test]
fn issue_stalls_do_not_reorder() {
    // two loads fill both load buffers; the third load stalls until one
    // frees, and the multiply behind it must not issue ahead of it
    let mut sim = engine_for("L.D F2,0(R2)\nL.D F4,8(R2)\nL.D F6,16(R2)\nMUL.D F0,F2,F4\n");
    let out = sim.run(&mut DoubleAlu);
    assert!(out.completed);
    let i2 = times_of(&sim, 2).0.unwrap();
    let i3 = times_of(&sim, 3).0.unwrap();
    assert!(i2 < i3);
}

#[test]
fn engine_rejects_out_of_range_memory_operands() {
    // well-formed for the decoder, but the effective byte address 200 lies
    // outside the eight-cell memory under the preset registers
    let metas = Parser::parse_file("L.D F6,200(R2)\nADD.D F0,F2,F4\n");
    let mut instructions = Vec::new();
    for m in metas {
        instructions.push(Instruction::new(m));
    }
    assert!(!Tomasulo::input_ok(&instructions));

    let good = Parser::parse_file("L.D F6,32(R2)\nS.D F4,8(R1)\nADD.D F0,F2,F4\n");
    let mut instructions = Vec::new();
    for m in good {
        instructions.push(Instruction::new(m));
    }
    assert!(Tomasulo::input_ok(&instructions));
}
