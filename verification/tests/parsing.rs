use tomasulo::simulator::instruction::InstructionType;
use tomasulo::utils::parser::Parser;

#[test]
fn parse_load_line() {
    let m = Parser::parse_line("L.D F6,32(R2)").expect("load line should decode");
    assert!(matches!(m.inst_type, InstructionType::LD));
    assert_eq!(m.rd, Some(3)); // F6 is architectural index 3
    assert_eq!(m.rs, None);
    assert_eq!(m.rt, None);
    assert_eq!(m.base, Some(2));
    assert_eq!(m.offset, Some(32));
}

#[test]
fn parse_store_line() {
    let m = Parser::parse_line("S.D F4, -8(R1)").expect("store line should decode");
    assert!(matches!(m.inst_type, InstructionType::SD));
    assert_eq!(m.rd, None);
    assert_eq!(m.rs, Some(2)); // F4 is architectural index 2
    assert_eq!(m.base, Some(1));
    assert_eq!(m.offset, Some(-8));
}

#[test]
fn parse_arithmetic_lines() {
    let m = Parser::parse_line("ADD.D F0,F2,F4").expect("add line should decode");
    assert!(matches!(m.inst_type, InstructionType::ADDD));
    assert_eq!((m.rd, m.rs, m.rt), (Some(0), Some(1), Some(2)));

    let m = Parser::parse_line("SUB.D F0,F2,F4").expect("sub line should decode");
    assert!(matches!(m.inst_type, InstructionType::SUBD));

    let m = Parser::parse_line("MUL.D F0,F2,F4").expect("mul line should decode");
    assert!(matches!(m.inst_type, InstructionType::MULTD));

    let m = Parser::parse_line("DIV.D F0,F2,F4").expect("div line should decode");
    assert!(matches!(m.inst_type, InstructionType::DIVD));
}

#[test]
fn parse_is_case_insensitive_and_tolerates_spacing() {
    let m = Parser::parse_line("  mul.d  F0 , F2,F4  ").expect("lower case should decode");
    assert!(matches!(m.inst_type, InstructionType::MULTD));
    assert_eq!((m.rd, m.rs, m.rt), (Some(0), Some(1), Some(2)));
}

#[test]
fn malformed_lines_are_dropped() {
    // unknown mnemonic
    assert!(Parser::parse_line("NOP").is_none());
    // wrong arity
    assert!(Parser::parse_line("L.D F6 32 R2").is_none());
    assert!(Parser::parse_line("ADD.D F0,F2").is_none());
    // odd floating register
    assert!(Parser::parse_line("ADD.D F1,F2,F4").is_none());
    // floating register out of range
    assert!(Parser::parse_line("ADD.D F32,F2,F4").is_none());
    // integer register out of range
    assert!(Parser::parse_line("L.D F6,32(R33)").is_none());
    // empty line
    assert!(Parser::parse_line("").is_none());
}

#[test]
fn trailing_text_after_memory_operand_is_ignored() {
    let m = Parser::parse_line("L.D F6,32(R2)junk").expect("remainder after ) is discarded");
    assert_eq!(m.base, Some(2));
    assert_eq!(m.offset, Some(32));
}

#[test]
fn parse_registers() {
    assert_eq!(Parser::parse_fp_register("F30"), Some(15));
    assert_eq!(Parser::parse_fp_register("F0"), Some(0));
    assert_eq!(Parser::parse_fp_register("F31"), None);
    assert_eq!(Parser::parse_fp_register("F"), None);
    assert_eq!(Parser::parse_fp_register("G6"), None);
    assert_eq!(Parser::parse_int_register("R31"), Some(31));
    assert_eq!(Parser::parse_int_register("R0"), Some(0));
    assert_eq!(Parser::parse_int_register("R32"), None);
    assert_eq!(Parser::parse_int_register("31"), None);
}

#[test]
fn parse_test() {
    let content = "L.D F6,32(R2)\nMUL.D F0,F2,F4\n\nnot an instruction\nS.D F6,0(R2)\n";
    let metas = Parser::parse_file(content);
    assert!(!metas.is_empty(), "Parser returned 0 instruction");
    assert_eq!(metas.len(), 3);
    assert!(matches!(metas[0].inst_type, InstructionType::LD));
    assert!(matches!(metas[1].inst_type, InstructionType::MULTD));
    assert!(matches!(metas[2].inst_type, InstructionType::SD));
}

#[test]
fn parse_file_handles_crlf_and_missing_final_newline() {
    let metas = Parser::parse_file("ADD.D F0,F2,F4\r\nSUB.D F0,F2,F4");
    assert_eq!(metas.len(), 2);
    assert!(matches!(metas[0].inst_type, InstructionType::ADDD));
    assert!(matches!(metas[1].inst_type, InstructionType::SUBD));
}

#[test]
fn render_assembly_text() {
    let m = Parser::parse_line("L.D F6,32(R2)").unwrap();
    assert_eq!(m.render(), "L.D   F6, 32(R2)");
    let m = Parser::parse_line("MUL.D F0,F2,F4").unwrap();
    assert_eq!(m.render(), "MUL.D F0, F2, F4");
    let m = Parser::parse_line("S.D F4,-8(R1)").unwrap();
    assert_eq!(m.render(), "S.D   F4, -8(R1)");
    let m = Parser::parse_line("L.D F30,0(R31)").unwrap();
    assert_eq!(m.render(), "L.D   F30, 0(R31)");
}
