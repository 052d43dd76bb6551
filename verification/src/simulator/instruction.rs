//! Decoded instructions: operation kind, register operands, and the four
//! cycle timestamps that the pipeline fills in as the instruction advances.

use vstd::prelude::*;
use vstd::string::StringExecFns;
use crate::simulator::types::Cycle;

verus! {

/// An architectural floating-point register, given as the index of one of the
/// 16 even-numbered registers (`F0` is index 0, `F2` index 1, ... `F30` index 15).
pub type FPRegister = u8;

/// An integer register index (`R0` ... `R31`).
pub type IntRegister = u8;

/// The six operation kinds the simulator understands.
#[derive(Debug, Clone, Copy, PartialEq, Eq, Structural)]
pub enum InstructionType {
    /// `L.D`: load a double from memory.
    LD,
    /// `S.D`: store a double to memory.
    SD,
    /// `ADD.D`: floating-point addition.
    ADDD,
    /// `SUB.D`: floating-point subtraction.
    SUBD,
    /// `MUL.D`: floating-point multiplication.
    MULTD,
    /// `DIV.D`: floating-point division.
    DIVD,
}

impl InstructionType {
    /// The fixed execution latency of this operation, in whole cycles.
    pub fn exec_cycles(&self) -> (n: u32)
        ensures
            n == spec_exec_cycles(*self),
    {
        match self {
            InstructionType::LD => 2,
            InstructionType::SD => 1,
            InstructionType::ADDD => 2,
            InstructionType::SUBD => 2,
            InstructionType::MULTD => 10,
            InstructionType::DIVD => 40,
        }
    }
}

/// The fixed per-operation latency: load 2, store 1, add/sub 2, multiply 10,
/// divide 40.
pub open spec fn spec_exec_cycles(t: InstructionType) -> u32 {
    match t {
        InstructionType::LD => 2,
        InstructionType::SD => 1,
        InstructionType::ADDD => 2,
        InstructionType::SUBD => 2,
        InstructionType::MULTD => 10,
        InstructionType::DIVD => 40,
    }
}

/// The immutable part of a decoded instruction.  Which of the optional fields
/// must be present depends on the operation kind; see [`meta_wf`].
#[derive(Debug, Clone, Copy)]
pub struct InstructionMeta {
    pub inst_type: InstructionType,
    /// Destination floating register (loads and arithmetic).
    pub rd: Option<FPRegister>,
    /// First source floating register (stores and arithmetic).
    pub rs: Option<FPRegister>,
    /// Second source floating register (arithmetic only).
    pub rt: Option<FPRegister>,
    /// Base integer register of a memory operand (loads and stores).
    pub base: Option<IntRegister>,
    /// Byte offset of a memory operand (loads and stores).
    pub offset: Option<i32>,
}

/// A well-formed record carries every operand its operation kind requires,
/// with register indices in range.  The decoder only produces such records;
/// handing the engine anything else is a programming-contract violation.
pub open spec fn meta_wf(m: InstructionMeta) -> bool {
    match m.inst_type {
        InstructionType::LD => {
            &&& m.rd matches Some(rd) && rd < 16
            &&& m.base matches Some(b) && b < 32
            &&& m.offset is Some
        },
        InstructionType::SD => {
            &&& m.rs matches Some(rs) && rs < 16
            &&& m.base matches Some(b) && b < 32
            &&& m.offset is Some
        },
        _ => {
            &&& m.rd matches Some(rd) && rd < 16
            &&& m.rs matches Some(rs) && rs < 16
            &&& m.rt matches Some(rt) && rt < 16
        },
    }
}


/// One decimal digit as a character.
pub open spec fn spec_digit(d: int) -> char {
    if d == 0 { '0' } else if d == 1 { '1' } else if d == 2 { '2' } else if d == 3 { '3' }
    else if d == 4 { '4' } else if d == 5 { '5' } else if d == 6 { '6' } else if d == 7 { '7' }
    else if d == 8 { '8' } else { '9' }
}

/// The decimal rendering of a non-negative number, most significant digit
/// first.
pub open spec fn spec_dec(n: int) -> Seq<char>
    decreases n,
{
    if n < 0 {
        Seq::empty()
    } else if n < 10 {
        seq![spec_digit(n)]
    } else {
        spec_dec(n / 10).push(spec_digit(n % 10))
    }
}

/// The decimal rendering of a signed number.
pub open spec fn spec_dec_signed(n: int) -> Seq<char> {
    if n < 0 {
        seq!['-'] + spec_dec(-n)
    } else {
        spec_dec(n)
    }
}

/// The assembly-style rendering of a record, as the reporter shows it.
/// Floating registers appear under their architectural numerals, which are
/// even: twice the stored index (`F6` for index 3).
pub open spec fn spec_render(m: InstructionMeta) -> Seq<char> {
    match m.inst_type {
        InstructionType::LD => "L.D   F"@ + spec_dec(2 * m.rd->0 as int) + ", "@
            + spec_dec_signed(m.offset->0 as int) + "(R"@ + spec_dec(m.base->0 as int) + ")"@,
        InstructionType::SD => "S.D   F"@ + spec_dec(2 * m.rs->0 as int) + ", "@
            + spec_dec_signed(m.offset->0 as int) + "(R"@ + spec_dec(m.base->0 as int) + ")"@,
        InstructionType::ADDD => "ADD.D F"@ + spec_dec(2 * m.rd->0 as int) + ", F"@
            + spec_dec(2 * m.rs->0 as int) + ", F"@ + spec_dec(2 * m.rt->0 as int),
        InstructionType::SUBD => "SUB.D F"@ + spec_dec(2 * m.rd->0 as int) + ", F"@
            + spec_dec(2 * m.rs->0 as int) + ", F"@ + spec_dec(2 * m.rt->0 as int),
        InstructionType::MULTD => "MUL.D F"@ + spec_dec(2 * m.rd->0 as int) + ", F"@
            + spec_dec(2 * m.rs->0 as int) + ", F"@ + spec_dec(2 * m.rt->0 as int),
        InstructionType::DIVD => "DIV.D F"@ + spec_dec(2 * m.rd->0 as int) + ", F"@
            + spec_dec(2 * m.rs->0 as int) + ", F"@ + spec_dec(2 * m.rt->0 as int),
    }
}

/// Append one decimal digit.
fn push_digit(s: &mut String, d: u32)
    requires
        d < 10,
    ensures
        final(s)@ == old(s)@ + seq![spec_digit(d as int)],
{
    if d == 0 {
        s.append("0");
        proof { reveal_strlit("0"); assert(s@ =~= old(s)@ + seq![spec_digit(d as int)]); }
    } else if d == 1 {
        s.append("1");
        proof { reveal_strlit("1"); assert(s@ =~= old(s)@ + seq![spec_digit(d as int)]); }
    } else if d == 2 {
        s.append("2");
        proof { reveal_strlit("2"); assert(s@ =~= old(s)@ + seq![spec_digit(d as int)]); }
    } else if d == 3 {
        s.append("3");
        proof { reveal_strlit("3"); assert(s@ =~= old(s)@ + seq![spec_digit(d as int)]); }
    } else if d == 4 {
        s.append("4");
        proof { reveal_strlit("4"); assert(s@ =~= old(s)@ + seq![spec_digit(d as int)]); }
    } else if d == 5 {
        s.append("5");
        proof { reveal_strlit("5"); assert(s@ =~= old(s)@ + seq![spec_digit(d as int)]); }
    } else if d == 6 {
        s.append("6");
        proof { reveal_strlit("6"); assert(s@ =~= old(s)@ + seq![spec_digit(d as int)]); }
    } else if d == 7 {
        s.append("7");
        proof { reveal_strlit("7"); assert(s@ =~= old(s)@ + seq![spec_digit(d as int)]); }
    } else if d == 8 {
        s.append("8");
        proof { reveal_strlit("8"); assert(s@ =~= old(s)@ + seq![spec_digit(d as int)]); }
    } else {
        s.append("9");
        proof { reveal_strlit("9"); assert(s@ =~= old(s)@ + seq![spec_digit(d as int)]); }
    }
}

/// Append the decimal rendering of a non-negative number.
fn push_dec(s: &mut String, n: u32)
    ensures
        final(s)@ == old(s)@ + spec_dec(n as int),
    decreases n,
{
    if n >= 10 {
        proof {
            assert(n / 10 < n) by (nonlinear_arith)
                requires
                    n >= 10,
            ;
        }
        push_dec(s, n / 10);
        push_digit(s, n % 10);
        proof {
            assert(s@ =~= old(s)@ + spec_dec(n as int));
        }
    } else {
        push_digit(s, n);
    }
}

/// Append the decimal rendering of a signed number.
fn push_dec_signed(s: &mut String, n: i32)
    ensures
        final(s)@ == old(s)@ + spec_dec_signed(n as int),
{
    if n < 0 {
        s.append("-");
        let m = (-(n as i64)) as u32;
        push_dec(s, m);
        proof {
            reveal_strlit("-");
            assert("-"@ =~= seq!['-']);
            assert(s@ =~= old(s)@ + spec_dec_signed(n as int));
        }
    } else {
        push_dec(s, n as u32);
    }
}

/// The four timestamps recorded for an instruction, each unset until the
/// simulation reaches that point.
#[derive(Debug, Clone, Copy, PartialEq, Eq, Structural)]
pub struct InstructionTime {
    pub issue: Option<Cycle>,
    pub exec_start: Option<Cycle>,
    pub completion: Option<Cycle>,
    pub write_back: Option<Cycle>,
}

impl InstructionMeta {
    /// The assembly-style rendering of this record, one instruction per
    /// line, as the reporter lists it.
    pub fn render(&self) -> (r: String)
        requires
            meta_wf(*self),
        ensures
            r@ == spec_render(*self),
    {
        let mut s = String::new();
        match self.inst_type {
            InstructionType::LD | InstructionType::SD => {
                if matches!(self.inst_type, InstructionType::LD) {
                    s.append("L.D   F");
                    push_dec(&mut s, 2 * self.rd.unwrap() as u32);
                } else {
                    s.append("S.D   F");
                    push_dec(&mut s, 2 * self.rs.unwrap() as u32);
                }
                s.append(", ");
                push_dec_signed(&mut s, self.offset.unwrap());
                s.append("(R");
                push_dec(&mut s, self.base.unwrap() as u32);
                s.append(")");
            },
            _ => {
                match self.inst_type {
                    InstructionType::ADDD => s.append("ADD.D F"),
                    InstructionType::SUBD => s.append("SUB.D F"),
                    InstructionType::MULTD => s.append("MUL.D F"),
                    _ => s.append("DIV.D F"),
                }
                push_dec(&mut s, 2 * self.rd.unwrap() as u32);
                s.append(", F");
                push_dec(&mut s, 2 * self.rs.unwrap() as u32);
                s.append(", F");
                push_dec(&mut s, 2 * self.rt.unwrap() as u32);
            },
        }
        proof {
            assert(s@ =~= spec_render(*self));
        }
        s
    }
}


/// A decoded instruction together with its timestamps.
#[derive(Debug, Clone, Copy)]
pub struct Instruction {
    pub meta: InstructionMeta,
    pub time: InstructionTime,
}

impl Instruction {
    /// A fresh instruction with no timestamp recorded yet.
    pub fn new(meta: InstructionMeta) -> (r: Instruction)
        ensures
            r.meta == meta,
            r.time == (InstructionTime {
                issue: None,
                exec_start: None,
                completion: None,
                write_back: None,
            }),
    {
        Instruction {
            meta,
            time: InstructionTime { issue: None, exec_start: None, completion: None, write_back: None },
        }
    }
}

} // verus!
