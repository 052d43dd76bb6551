//! The decoder: line-oriented text in, decoded instruction records out.
//! Malformed or unrecognized lines are silently dropped.

use vstd::prelude::*;
use vstd::std_specs::iter::IteratorSpec;
use crate::simulator::instruction::{InstructionMeta, InstructionType};

verus! {

// ---------------------------------------------------------------------------
// Characters and tokens
// ---------------------------------------------------------------------------

/// Token separators: blanks, tabs, line ends, and commas.  Deliberately
/// only the ASCII whitespace characters: an exotic Unicode space does not
/// separate tokens, it makes its token (and so its line) malformed.
pub open spec fn is_sep(c: char) -> bool {
    c == ' ' || c == '\t' || c == '\n' || c == '\r' || c == ','
}

/// ASCII upper-casing of one character; everything else is unchanged.
pub open spec fn spec_upper(c: char) -> char {
    if 97 <= c as u32 <= 122 {
        ((c as u32 - 32) as u8) as char
    } else {
        c
    }
}

/// A line upper-cased character by character.
pub open spec fn spec_upper_seq(s: Seq<char>) -> Seq<char> {
    s.map_values(|c: char| spec_upper(c))
}

/// A decimal digit.
pub open spec fn is_digit(c: char) -> bool {
    48 <= c as u32 <= 57
}

/// The value of a decimal digit.
pub open spec fn digit_val(c: char) -> int {
    c as u32 - 48
}

/// Splitting into tokens, written as the scan the decoder performs: `cur` is
/// the token being gathered, `acc` the tokens finished so far.
pub open spec fn tok_rec(s: Seq<char>, i: int, cur: Seq<char>, acc: Seq<Seq<char>>) -> Seq<Seq<char>>
    decreases s.len() - i,
{
    if i < 0 || i >= s.len() {
        if cur.len() > 0 {
            acc.push(cur)
        } else {
            acc
        }
    } else if is_sep(s[i]) {
        if cur.len() > 0 {
            tok_rec(s, i + 1, Seq::empty(), acc.push(cur))
        } else {
            tok_rec(s, i + 1, cur, acc)
        }
    } else {
        tok_rec(s, i + 1, cur.push(s[i]), acc)
    }
}

/// The tokens of a line: maximal runs of non-separator characters.
pub open spec fn spec_tokens(s: Seq<char>) -> Seq<Seq<char>> {
    tok_rec(s, 0, Seq::empty(), Seq::empty())
}

/// The character sequences of a vector of character vectors.
pub open spec fn views(ts: Seq<Vec<char>>) -> Seq<Seq<char>> {
    ts.map_values(|t: Vec<char>| t@)
}

// ---------------------------------------------------------------------------
// Numbers
// ---------------------------------------------------------------------------

/// The value of a digit string, most significant digit first.
pub open spec fn digits_val(s: Seq<char>) -> int
    decreases s.len(),
{
    if s.len() == 0 {
        0
    } else {
        digits_val(s.drop_last()) * 10 + digit_val(s.last())
    }
}

/// A non-empty string of decimal digits.
pub open spec fn all_digits(s: Seq<char>) -> bool {
    s.len() > 0 && forall|i: int| 0 <= i < s.len() ==> is_digit(#[trigger] s[i])
}

/// An unsigned decimal numeral with an optional leading `+`.
pub open spec fn spec_parse_unsigned(s: Seq<char>) -> Option<int> {
    let body = if s.len() > 0 && s[0] == '+' { s.drop_first() } else { s };
    if all_digits(body) {
        Some(digits_val(body))
    } else {
        None
    }
}

/// A `u8` numeral: unsigned and within range.
pub open spec fn spec_parse_u8(s: Seq<char>) -> Option<u8> {
    match spec_parse_unsigned(s) {
        Some(v) => if v <= 255 {
            Some(v as u8)
        } else {
            None
        },
        None => None,
    }
}

/// An `i32` numeral with an optional sign.
pub open spec fn spec_parse_i32(s: Seq<char>) -> Option<i32> {
    if s.len() > 0 && s[0] == '-' {
        let body = s.drop_first();
        if all_digits(body) && digits_val(body) <= 0x8000_0000 {
            Some((-digits_val(body)) as i32)
        } else {
            None
        }
    } else {
        match spec_parse_unsigned(s) {
            Some(v) => if v <= 0x7FFF_FFFF {
                Some(v as i32)
            } else {
                None
            },
            None => None,
        }
    }
}

/// The value of a digit string never goes down as digits are appended.
proof fn lemma_digits_val_bounds(s: Seq<char>, k: int)
    requires
        forall|i: int| 0 <= i < s.len() ==> is_digit(#[trigger] s[i]),
        0 <= k <= s.len(),
    ensures
        digits_val(s) >= digits_val(s.subrange(0, k)),
        digits_val(s) >= 0,
    decreases s.len(),
{
    if s.len() == 0 {
        assert(s.subrange(0, k) =~= s);
    } else {
        lemma_digits_val_bounds(s.drop_last(), if k <= s.len() - 1 { k } else { (s.len() - 1) as int });
        if k <= s.len() - 1 {
            assert(s.drop_last().subrange(0, k) =~= s.subrange(0, k));
        } else {
            assert(s.subrange(0, k) =~= s);
        }
    }
}

// ---------------------------------------------------------------------------
// Registers and memory operands
// ---------------------------------------------------------------------------

/// A floating-point register token `F<even numeral 0..=30>`, yielding the
/// architectural index (half the numeral).
pub open spec fn spec_parse_fp_register(s: Seq<char>) -> Option<u8> {
    if s.len() >= 1 && s[0] == 'F' {
        match spec_parse_u8(s.drop_first()) {
            Some(n) => if n % 2 == 0 && n <= 30 {
                Some(n / 2)
            } else {
                None
            },
            None => None,
        }
    } else {
        None
    }
}

/// An integer register token `R<numeral 0..=31>`.
pub open spec fn spec_parse_int_register(s: Seq<char>) -> Option<u8> {
    if s.len() >= 1 && s[0] == 'R' {
        match spec_parse_u8(s.drop_first()) {
            Some(n) => if n <= 31 {
                Some(n)
            } else {
                None
            },
            None => None,
        }
    } else {
        None
    }
}

/// The first occurrence of `c` at or after `from`.
pub open spec fn find_char(s: Seq<char>, c: char, from: int) -> Option<int>
    decreases s.len() - from,
{
    if from < 0 || from >= s.len() {
        None
    } else if s[from] == c {
        Some(from)
    } else {
        find_char(s, c, from + 1)
    }
}

/// A memory operand `<offset>(R<base>)`: the text before the first `(` is
/// the signed byte offset, the text between it and the next `)` the base
/// register; anything after the `)` is ignored.
pub open spec fn spec_parse_memory_address(s: Seq<char>) -> Option<(i32, u8)> {
    match find_char(s, '(', 0) {
        None => None,
        Some(p) => match find_char(s, ')', p + 1) {
            None => None,
            Some(q) => match (spec_parse_i32(s.subrange(0, p)),
                spec_parse_int_register(s.subrange(p + 1, q))) {
                (Some(off), Some(base)) => Some((off, base)),
                _ => None,
            },
        },
    }
}

// ---------------------------------------------------------------------------
// Lines and files
// ---------------------------------------------------------------------------

/// One decoded line.  The mnemonic is case-insensitive; `L.D`/`S.D` take a
/// floating register and a memory operand, the arithmetic mnemonics take
/// three floating registers.  Anything else is no instruction.
pub open spec fn spec_parse_line(line: Seq<char>) -> Option<InstructionMeta> {
    let parts = spec_tokens(line);
    if parts.len() == 0 {
        None
    } else {
        let m = spec_upper_seq(parts[0]);
        if (m == "L.D"@ || m == "S.D"@) && parts.len() == 3 {
            match (spec_parse_fp_register(parts[1]), spec_parse_memory_address(parts[2])) {
                (Some(fp), Some(ob)) => Some(InstructionMeta {
                    inst_type: if m == "L.D"@ { InstructionType::LD } else { InstructionType::SD },
                    rd: if m == "L.D"@ { Some(fp) } else { None },
                    rs: if m == "L.D"@ { None } else { Some(fp) },
                    rt: None,
                    base: Some(ob.1),
                    offset: Some(ob.0),
                }),
                _ => None,
            }
        } else if (m == "ADD.D"@ || m == "SUB.D"@ || m == "MUL.D"@ || m == "DIV.D"@)
            && parts.len() == 4 {
            match (spec_parse_fp_register(parts[1]), spec_parse_fp_register(parts[2]),
                spec_parse_fp_register(parts[3])) {
                (Some(rd), Some(rs), Some(rt)) => Some(InstructionMeta {
                    inst_type: if m == "ADD.D"@ {
                        InstructionType::ADDD
                    } else if m == "SUB.D"@ {
                        InstructionType::SUBD
                    } else if m == "MUL.D"@ {
                        InstructionType::MULTD
                    } else {
                        InstructionType::DIVD
                    },
                    rd: Some(rd),
                    rs: Some(rs),
                    rt: Some(rt),
                    base: None,
                    offset: None,
                }),
                _ => None,
            }
        } else {
            None
        }
    }
}

/// A gathered line with a trailing carriage return removed.
pub open spec fn strip_cr(s: Seq<char>) -> Seq<char> {
    if s.len() > 0 && s.last() == '\r' {
        s.drop_last()
    } else {
        s
    }
}

/// Append the decoding of one line, dropping lines that decode to nothing.
pub open spec fn push_line(acc: Seq<InstructionMeta>, line: Seq<char>) -> Seq<InstructionMeta> {
    match spec_parse_line(line) {
        Some(m) => acc.push(m),
        None => acc,
    }
}

/// Decoding a whole file, written as the scan the decoder performs: lines
/// are separated by `\n`, and a final fragment without a newline still
/// counts as a line.
pub open spec fn pf_rec(s: Seq<char>, i: int, cur: Seq<char>, acc: Seq<InstructionMeta>) -> Seq<InstructionMeta>
    decreases s.len() - i,
{
    if i < 0 || i >= s.len() {
        if cur.len() > 0 {
            push_line(acc, strip_cr(cur))
        } else {
            acc
        }
    } else if s[i] == '\n' {
        pf_rec(s, i + 1, Seq::empty(), push_line(acc, strip_cr(cur)))
    } else {
        pf_rec(s, i + 1, cur.push(s[i]), acc)
    }
}

/// The ordered sequence of instruction records decoded from a file.
pub open spec fn spec_parse_file(s: Seq<char>) -> Seq<InstructionMeta> {
    pf_rec(s, 0, Seq::empty(), Seq::empty())
}

// ---------------------------------------------------------------------------
// The decoder
// ---------------------------------------------------------------------------

/// The decoder.  It consumes line-oriented text, one instruction per line,
/// and returns the well-formed records in order; malformed lines are
/// skipped, not reported.
pub struct Parser;

impl Parser {
    /// The characters of a string slice.
    fn chars_of(s: &str) -> (r: Vec<char>)
        ensures
            r@ == s@,
    {
        broadcast use vstd::string::next_postcondition;
        broadcast use vstd::string::axiom_spec_iter;

        let mut it = s.chars();
        let mut r: Vec<char> = Vec::new();
        loop
            invariant
                it.obeys_prophetic_iter_laws(),
                it.decrease() is Some,
                r@ + it.remaining() == s@,
            ensures
                r@ == s@,
            decreases it.decrease()->0,
        {
            match it.next() {
                Some(c) => {
                    r.push(c);
                },
                None => {
                    break;
                },
            }
        }
        r
    }

    /// Is this character a token separator?
    fn sep(c: char) -> (r: bool)
        ensures
            r == is_sep(c),
    {
        c == ' ' || c == '\t' || c == '\n' || c == '\r' || c == ','
    }

    /// ASCII upper-casing of one character.
    fn upper(c: char) -> (r: char)
        ensures
            r == spec_upper(c),
    {
        let u = c as u32;
        if 97 <= u && u <= 122 {
            ((u - 32) as u8) as char
        } else {
            c
        }
    }

    /// The tokens of a line.
    fn tokenize(v: &Vec<char>) -> (r: Vec<Vec<char>>)
        ensures
            views(r@) == spec_tokens(v@),
    {
        let mut out: Vec<Vec<char>> = Vec::new();
        let mut cur: Vec<char> = Vec::new();
        let mut i: usize = 0;
        proof {
            assert(views(out@) =~= Seq::<Seq<char>>::empty());
        }
        while i < v.len()
            invariant
                i <= v@.len(),
                spec_tokens(v@) == tok_rec(v@, i as int, cur@, views(out@)),
            decreases v@.len() - i,
        {
            let c = v[i];
            let ghost old_out = out@;
            let ghost old_cur = cur@;
            if Self::sep(c) {
                if cur.len() > 0 {
                    out.push(cur);
                    cur = Vec::new();
                    proof {
                        assert(views(out@) =~= views(old_out).push(old_cur));
                        assert(cur@ =~= Seq::<char>::empty());
                    }
                }
            } else {
                cur.push(c);
            }
            i = i + 1;
        }
        if cur.len() > 0 {
            let ghost old_out = out@;
            let ghost old_cur = cur@;
            out.push(cur);
            proof {
                assert(views(out@) =~= views(old_out).push(old_cur));
            }
        }
        out
    }

    /// An unsigned numeral within `v[from..to]`, accepted only up to `cap`.
    fn parse_unsigned_in(v: &Vec<char>, from: usize, to: usize, cap: u64) -> (r: Option<u64>)
        requires
            from <= to <= v@.len(),
            cap <= 0x8000_0000,
        ensures
            r == (match spec_parse_unsigned(v@.subrange(from as int, to as int)) {
                Some(val) => if val <= cap { Some(val as u64) } else { None::<u64> },
                None => None::<u64>,
            }),
            r matches Some(n) ==> n <= cap,
    {
        let ghost s = v@.subrange(from as int, to as int);
        let start: usize = if from < to && v[from] == '+' { from + 1 } else { from };
        let ghost body = if s.len() > 0 && s[0] == '+' { s.drop_first() } else { s };
        proof {
            assert(body =~= v@.subrange(start as int, to as int));
        }
        if start == to {
            return None;
        }
        let mut acc: u64 = 0;
        let mut i: usize = start;
        while i < to
            invariant
                start <= i <= to <= v@.len(),
                start < to,
                s == v@.subrange(from as int, to as int),
                body == (if s.len() > 0 && s[0] == '+' { s.drop_first() } else { s }),
                body == v@.subrange(start as int, to as int),
                forall|j: int| 0 <= j < i - start ==> is_digit(#[trigger] body[j]),
                acc as int == digits_val(body.subrange(0, i - start)),
                acc <= cap,
                cap <= 0x8000_0000,
            decreases to - i,
        {
            let c = v[i];
            let u = c as u32;
            if !(48 <= u && u <= 57) {
                proof {
                    assert(body[i - start] == v@[i as int]);
                    assert(!is_digit(body[i - start]));
                    assert(!all_digits(body));
                    assert(spec_parse_unsigned(s) is None);
                }
                return None;
            }
            let d = (u - 48) as u64;
            let acc2 = acc * 10 + d;
            proof {
                let ghost pre = body.subrange(0, i - start);
                let ghost pre2 = body.subrange(0, i + 1 - start);
                assert(pre2.drop_last() =~= pre);
                assert(pre2.last() == body[i - start]);
            }
            if acc2 > cap {
                proof {
                    let pre2 = body.subrange(0, i + 1 - start);
                    assert(digits_val(pre2) == acc2 as int);
                    if all_digits(body) {
                        lemma_digits_val_bounds(body, i + 1 - start);
                        assert(digits_val(body) >= acc2 as int);
                        assert(spec_parse_unsigned(s) == Some(digits_val(body)));
                    } else {
                        assert(spec_parse_unsigned(s) is None);
                    }
                }
                return None;
            }
            acc = acc2;
            i = i + 1;
        }
        proof {
            assert(body.subrange(0, to - start) =~= body);
            assert(all_digits(body));
        }
        Some(acc)
    }

    /// A `u8` numeral within `v[from..to]`.
    fn parse_u8_in(v: &Vec<char>, from: usize, to: usize) -> (r: Option<u8>)
        requires
            from <= to <= v@.len(),
        ensures
            r == spec_parse_u8(v@.subrange(from as int, to as int)),
    {
        proof {
            let sub = v@.subrange(from as int, to as int);
            let body = if sub.len() > 0 && sub[0] == '+' { sub.drop_first() } else { sub };
            if all_digits(body) {
                lemma_digits_val_bounds(body, 0);
            }
        }
        let r = Self::parse_unsigned_in(v, from, to, 255);
        match r {
            Some(n) => {
                proof {
                    assert(n <= 255);
                }
                Some(n as u8)
            },
            None => None,
        }
    }

    /// An `i32` numeral within `v[from..to]`.
    fn parse_i32_in(v: &Vec<char>, from: usize, to: usize) -> (r: Option<i32>)
        requires
            from <= to <= v@.len(),
        ensures
            r == spec_parse_i32(v@.subrange(from as int, to as int)),
    {
        let ghost s = v@.subrange(from as int, to as int);
        proof {
            let body0 = if s.len() > 0 && s[0] == '+' { s.drop_first() } else { s };
            if all_digits(body0) {
                lemma_digits_val_bounds(body0, 0);
            }
            if s.len() > 0 {
                let body1 = s.drop_first();
                if all_digits(body1) {
                    lemma_digits_val_bounds(body1, 0);
                }
            }
        }
        if from < to && v[from] == '-' {
            proof {
                assert(s.drop_first() =~= v@.subrange(from + 1, to as int));
            }
            if from + 1 < to && v[from + 1] == '+' {
                // a sign after the sign is not a digit
                proof {
                    assert(!is_digit(s.drop_first()[0]));
                    assert(!all_digits(s.drop_first()));
                }
                None
            } else {
                match Self::parse_unsigned_in(v, from + 1, to, 0x8000_0000) {
                    Some(n) => {
                        proof {
                            assert(n <= 0x8000_0000);
                        }
                        Some((-(n as i64)) as i32)
                    },
                    None => None,
                }
            }
        } else {
            match Self::parse_unsigned_in(v, from, to, 0x7FFF_FFFF) {
                Some(n) => Some(n as i32),
                None => None,
            }
        }
    }

    /// A floating-point register token `F<even numeral 0..=30>`, yielding
    /// the architectural index.
    pub fn parse_fp_register(token: &str) -> (r: Option<u8>)
        ensures
            r == spec_parse_fp_register(token@),
    {
        let v = Self::chars_of(token);
        let r = Self::fp_register_in(&v, 0, v.len());
        proof {
            assert(v@.subrange(0, v@.len() as int) =~= token@);
        }
        r
    }

    /// An integer register token `R<numeral 0..=31>`.
    pub fn parse_int_register(token: &str) -> (r: Option<u8>)
        ensures
            r == spec_parse_int_register(token@),
    {
        let v = Self::chars_of(token);
        let r = Self::int_register_in(&v, 0, v.len());
        proof {
            assert(v@.subrange(0, v@.len() as int) =~= token@);
        }
        r
    }

    /// A floating register within `v[from..to]`.
    fn fp_register_in(v: &Vec<char>, from: usize, to: usize) -> (r: Option<u8>)
        requires
            from <= to <= v@.len(),
        ensures
            r == spec_parse_fp_register(v@.subrange(from as int, to as int)),
    {
        let ghost s = v@.subrange(from as int, to as int);
        proof {
            assert(s =~= v@.subrange(from as int, to as int));
        }
        if from < to && v[from] == 'F' {
            proof {
                assert(s.drop_first() =~= v@.subrange(from + 1, to as int));
            }
            match Self::parse_u8_in(v, from + 1, to) {
                Some(n) => {
                    if n % 2 == 0 && n <= 30 {
                        Some(n / 2)
                    } else {
                        None
                    }
                },
                None => None,
            }
        } else {
            None
        }
    }

    /// An integer register within `v[from..to]`.
    fn int_register_in(v: &Vec<char>, from: usize, to: usize) -> (r: Option<u8>)
        requires
            from <= to <= v@.len(),
        ensures
            r == spec_parse_int_register(v@.subrange(from as int, to as int)),
    {
        let ghost s = v@.subrange(from as int, to as int);
        if from < to && v[from] == 'R' {
            proof {
                assert(s.drop_first() =~= v@.subrange(from + 1, to as int));
            }
            match Self::parse_u8_in(v, from + 1, to) {
                Some(n) => {
                    if n <= 31 {
                        Some(n)
                    } else {
                        None
                    }
                },
                None => None,
            }
        } else {
            None
        }
    }

    /// The first occurrence of `c` within `v[from..to]` relative to `base`.
    fn find_in(v: &Vec<char>, base: usize, from: usize, to: usize, c: char) -> (r: Option<usize>)
        requires
            base <= from <= to <= v@.len(),
        ensures
            ({
                let s = v@.subrange(base as int, to as int);
                match r {
                    Some(p) => from <= p < to
                        && find_char(s, c, from - base) == Some(p - base),
                    None => find_char(s, c, from - base) is None,
                }
            }),
        decreases to - from,
    {
        if from >= to {
            None
        } else if v[from] == c {
            Some(from)
        } else {
            Self::find_in(v, base, from + 1, to, c)
        }
    }

    /// A memory operand within `v[from..to]`.
    fn memory_address_in(v: &Vec<char>, from: usize, to: usize) -> (r: Option<(i32, u8)>)
        requires
            from <= to <= v@.len(),
        ensures
            r == spec_parse_memory_address(v@.subrange(from as int, to as int)),
    {
        let ghost s = v@.subrange(from as int, to as int);
        match Self::find_in(v, from, from, to, '(') {
            None => None,
            Some(p) => {
                match Self::find_in(v, from, p + 1, to, ')') {
                    None => None,
                    Some(q) => {
                        proof {
                            assert(s.subrange(0, p - from) =~= v@.subrange(from as int, p as int));
                            assert(s.subrange(p - from + 1, q - from)
                                =~= v@.subrange(p + 1, q as int));
                        }
                        let off = Self::parse_i32_in(v, from, p);
                        let base = Self::int_register_in(v, p + 1, q);
                        match (off, base) {
                            (Some(o), Some(b)) => Some((o, b)),
                            _ => None,
                        }
                    },
                }
            },
        }
    }

    /// Compare a token to a string literal.
    fn tok_eq(t: &Vec<char>, lit: &str) -> (r: bool)
        ensures
            r == (t@ == lit@),
    {
        let l = Self::chars_of(lit);
        if t.len() != l.len() {
            proof {
                assert(t@ != lit@);
            }
            return false;
        }
        let mut i: usize = 0;
        while i < t.len()
            invariant
                i <= t@.len(),
                t@.len() == l@.len(),
                l@ == lit@,
                forall|j: int| 0 <= j < i ==> t@[j] == l@[j],
            decreases t@.len() - i,
        {
            if t[i] != l[i] {
                proof {
                    assert(t@[i as int] != lit@[i as int]);
                }
                return false;
            }
            i = i + 1;
        }
        proof {
            assert(t@ =~= lit@);
        }
        true
    }

    /// Upper-case a whole token.
    fn upper_vec(t: &Vec<char>) -> (r: Vec<char>)
        ensures
            r@ == spec_upper_seq(t@),
    {
        let mut r: Vec<char> = Vec::new();
        let mut i: usize = 0;
        while i < t.len()
            invariant
                i <= t@.len(),
                r@.len() == i,
                forall|j: int| 0 <= j < i ==> r@[j] == spec_upper(t@[j]),
            decreases t@.len() - i,
        {
            r.push(Self::upper(t[i]));
            i = i + 1;
        }
        proof {
            assert(r@ =~= spec_upper_seq(t@));
        }
        r
    }

    /// Decode one line of characters.
    fn parse_line_chars(v: &Vec<char>) -> (r: Option<InstructionMeta>)
        ensures
            r == spec_parse_line(v@),
    {
        let parts = Self::tokenize(v);
        if parts.len() == 0 {
            return None;
        }
        let m = Self::upper_vec(&parts[0]);
        proof {
            assert(views(parts@)[0] == parts@[0]@);
        }
        let is_ld = Self::tok_eq(&m, "L.D");
        let is_sd = Self::tok_eq(&m, "S.D");
        if (is_ld || is_sd) && parts.len() == 3 {
            let t1 = &parts[1];
            let t2 = &parts[2];
            proof {
                assert(views(parts@)[1] == parts@[1]@);
                assert(views(parts@)[2] == parts@[2]@);
                assert(t1@.subrange(0, t1@.len() as int) =~= t1@);
                assert(t2@.subrange(0, t2@.len() as int) =~= t2@);
            }
            let fp = Self::fp_register_in(t1, 0, t1.len());
            let ob = Self::memory_address_in(t2, 0, t2.len());
            match (fp, ob) {
                (Some(f), Some(ob)) => Some(InstructionMeta {
                    inst_type: if is_ld { InstructionType::LD } else { InstructionType::SD },
                    rd: if is_ld { Some(f) } else { None },
                    rs: if is_ld { None } else { Some(f) },
                    rt: None,
                    base: Some(ob.1),
                    offset: Some(ob.0),
                }),
                _ => None,
            }
        } else {
            let is_add = Self::tok_eq(&m, "ADD.D");
            let is_sub = Self::tok_eq(&m, "SUB.D");
            let is_mul = Self::tok_eq(&m, "MUL.D");
            let is_div = Self::tok_eq(&m, "DIV.D");
            if (is_add || is_sub || is_mul || is_div) && parts.len() == 4 {
                let t1 = &parts[1];
                let t2 = &parts[2];
                let t3 = &parts[3];
                proof {
                    assert(views(parts@)[1] == parts@[1]@);
                    assert(views(parts@)[2] == parts@[2]@);
                    assert(views(parts@)[3] == parts@[3]@);
                    assert(t1@.subrange(0, t1@.len() as int) =~= t1@);
                    assert(t2@.subrange(0, t2@.len() as int) =~= t2@);
                    assert(t3@.subrange(0, t3@.len() as int) =~= t3@);
                }
                let rd = Self::fp_register_in(t1, 0, t1.len());
                let rs = Self::fp_register_in(t2, 0, t2.len());
                let rt = Self::fp_register_in(t3, 0, t3.len());
                match (rd, rs, rt) {
                    (Some(d), Some(s1), Some(s2)) => Some(InstructionMeta {
                        inst_type: if is_add {
                            InstructionType::ADDD
                        } else if is_sub {
                            InstructionType::SUBD
                        } else if is_mul {
                            InstructionType::MULTD
                        } else {
                            InstructionType::DIVD
                        },
                        rd: Some(d),
                        rs: Some(s1),
                        rt: Some(s2),
                        base: None,
                        offset: None,
                    }),
                    _ => None,
                }
            } else {
                None
            }
        }
    }

    /// Decode one line of text; a malformed or unrecognized line yields
    /// nothing.
    pub fn parse_line(line: &str) -> (r: Option<InstructionMeta>)
        ensures
            r == spec_parse_line(line@),
    {
        let v = Self::chars_of(line);
        Self::parse_line_chars(&v)
    }

    /// Decode a whole file: one instruction per line, in order, with
    /// malformed lines silently dropped.
    pub fn parse_file(content: &str) -> (r: Vec<InstructionMeta>)
        ensures
            r@ == spec_parse_file(content@),
    {
        let v = Self::chars_of(content);
        let mut out: Vec<InstructionMeta> = Vec::new();
        let mut cur: Vec<char> = Vec::new();
        let mut i: usize = 0;
        while i < v.len()
            invariant
                i <= v@.len(),
                v@ == content@,
                spec_parse_file(content@) == pf_rec(v@, i as int, cur@, out@),
            decreases v@.len() - i,
        {
            let c = v[i];
            if c == '\n' {
                let ghost old_cur = cur@;
                if cur.len() > 0 && cur[cur.len() - 1] == '\r' {
                    cur.pop();
                    proof {
                        assert(cur@ =~= strip_cr(old_cur));
                    }
                }
                match Self::parse_line_chars(&cur) {
                    Some(meta) => {
                        out.push(meta);
                    },
                    None => {},
                }
                cur = Vec::new();
                proof {
                    assert(cur@ =~= Seq::<char>::empty());
                }
            } else {
                cur.push(c);
            }
            i = i + 1;
        }
        if cur.len() > 0 {
            let ghost old_cur = cur@;
            if cur[cur.len() - 1] == '\r' {
                cur.pop();
                proof {
                    assert(cur@ =~= strip_cr(old_cur));
                }
            }
            match Self::parse_line_chars(&cur) {
                Some(meta) => {
                    out.push(meta);
                },
                None => {},
            }
        }
        out
    }
}

} // verus!
