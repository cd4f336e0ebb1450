//! The two-phase assembler: per-line classification (blank, comment, label,
//! instruction), operand and register grammar, and assembly of a program
//! text into an instruction sequence plus a label table.

use vstd::prelude::*;
use vstd::string::StrSliceExecFns;

use crate::cpu::Cpu;
use crate::text::{
    eq_ci, is_digit, is_space, is_space_char, lc, parse_u16, range_eq_ci, split_lines,
    strip_comma, tokens, tokenize, trim_bounds, trim_of, u16_of,
};
use crate::types::{Instruction, Operand, Register};

verus! {

/// The register that a name denotes, after trimming, case-insensitively:
/// the accumulator or one of the nine general-purpose registers. `isp` is
/// not in the assembly grammar.
pub open spec fn register_of(s: Seq<char>) -> Option<Register> {
    let t = trim_of(s);
    if eq_ci(t, "acc"@) {
        Some(Register::Acc)
    } else if eq_ci(t, "r0"@) {
        Some(Register::R0)
    } else if eq_ci(t, "r1"@) {
        Some(Register::R1)
    } else if eq_ci(t, "r2"@) {
        Some(Register::R2)
    } else if eq_ci(t, "r3"@) {
        Some(Register::R3)
    } else if eq_ci(t, "r4"@) {
        Some(Register::R4)
    } else if eq_ci(t, "r5"@) {
        Some(Register::R5)
    } else if eq_ci(t, "r6"@) {
        Some(Register::R6)
    } else if eq_ci(t, "r7"@) {
        Some(Register::R7)
    } else if eq_ci(t, "r8"@) {
        Some(Register::R8)
    } else {
        None
    }
}

/// Parses a register name, as `register_of` says.
pub fn parse_register(reg: &str) -> (r: Option<Register>)
    ensures
        r == register_of(reg@),
{
    let (lo, hi) = trim_bounds(reg);
    if range_eq_ci(reg, lo, hi, "acc") {
        Some(Register::Acc)
    } else if range_eq_ci(reg, lo, hi, "r0") {
        Some(Register::R0)
    } else if range_eq_ci(reg, lo, hi, "r1") {
        Some(Register::R1)
    } else if range_eq_ci(reg, lo, hi, "r2") {
        Some(Register::R2)
    } else if range_eq_ci(reg, lo, hi, "r3") {
        Some(Register::R3)
    } else if range_eq_ci(reg, lo, hi, "r4") {
        Some(Register::R4)
    } else if range_eq_ci(reg, lo, hi, "r5") {
        Some(Register::R5)
    } else if range_eq_ci(reg, lo, hi, "r6") {
        Some(Register::R6)
    } else if range_eq_ci(reg, lo, hi, "r7") {
        Some(Register::R7)
    } else if range_eq_ci(reg, lo, hi, "r8") {
        Some(Register::R8)
    } else {
        None
    }
}

/// The operand that a token denotes. The three shapes are tried in
/// precedence order: a bracketed register name is indirect addressing, a
/// bare register name reads that register, a 16-bit numeral is a literal.
pub open spec fn operand_of(s: Seq<char>) -> Option<Operand> {
    let t = trim_of(s);
    if t.len() >= 2 && t[0] == '[' && t[t.len() - 1] == ']'
        && register_of(t.subrange(1, t.len() - 1)) is Some {
        Some(Operand::Indirect(register_of(t.subrange(1, t.len() - 1)).unwrap()))
    } else if register_of(s) is Some {
        Some(Operand::Register(register_of(s).unwrap()))
    } else if u16_of(s) is Some {
        Some(Operand::Immediate(u16_of(s).unwrap()))
    } else {
        None
    }
}

/// Parses an operand token, as `operand_of` says.
pub fn parse_operand(operand: &str) -> (r: Option<Operand>)
    ensures
        r == operand_of(operand@),
{
    let n = operand.unicode_len();
    let ghost t = trim_of(operand@);
    let (lo, hi) = trim_bounds(operand);
    if hi - lo >= 2 && operand.get_char(lo) == '[' && operand.get_char(hi - 1) == ']' {
        proof {
            assert(t[0] == operand@[lo as int]);
            assert(t[t.len() - 1] == operand@[hi - 1]);
        }
        let inner = operand.substring_char(lo + 1, hi - 1);
        proof {
            assert(inner@ =~= t.subrange(1, t.len() - 1));
        }
        if let Some(register) = parse_register(inner) {
            return Some(Operand::Indirect(register));
        }
    } else {
        proof {
            if t.len() >= 2 {
                assert(t[0] == operand@[lo as int]);
                assert(t[t.len() - 1] == operand@[hi - 1]);
            }
        }
    }
    if let Some(register) = parse_register(operand) {
        return Some(Operand::Register(register));
    }
    proof {
        assert(operand@.subrange(0, n as int) =~= operand@);
    }
    if let Some(value) = parse_u16(operand, 0, n) {
        return Some(Operand::Immediate(value));
    }
    None
}

/// The label that a line declares: its trimmed form, ending in `:`, with no
/// whitespace in the name. The name may be empty.
pub open spec fn label_of(s: Seq<char>) -> Option<Seq<char>> {
    let t = trim_of(s);
    if t.len() > 0 && t[t.len() - 1] == ':'
        && (forall|i: int| 0 <= i < t.len() - 1 ==> !is_space(t[i])) {
        Some(t.subrange(0, t.len() - 1))
    } else {
        None
    }
}

/// Parses a label declaration, as `label_of` says: the returned `String`
/// holds the label's name.
pub fn parse_label(line: &str) -> (r: Option<String>)
    ensures
        (match label_of(line@) {
            Some(name) => r matches Some(rs) && rs@ == name,
            None => r is None,
        }),
{
    let ghost t = trim_of(line@);
    let (lo, hi) = trim_bounds(line);
    if lo == hi {
        return None;
    }
    proof {
        assert(t[t.len() - 1] == line@[hi - 1]);
    }
    if line.get_char(hi - 1) != ':' {
        return None;
    }
    let mut i: usize = lo;
    while i < hi - 1
        invariant
            lo <= i <= hi - 1,
            lo < hi <= line@.len(),
            t == trim_of(line@),
            t == line@.subrange(lo as int, hi as int),
            t[t.len() - 1] == ':',
            forall|j: int| lo <= j < i ==> !is_space(line@[j]),
        decreases hi - i,
    {
        if is_space_char(line.get_char(i)) {
            proof {
                let w: int = i - lo;
                assert(0 <= w < t.len() - 1 && is_space(t[w]));
                assert(exists|j: int| 0 <= j < t.len() - 1 && is_space(#[trigger] t[j]));
                assert(label_of(line@) is None);
            }
            return None;
        }
        i = i + 1;
    }
    proof {
        assert(forall|j: int| 0 <= j < t.len() - 1 ==> !is_space(#[trigger] t[j]));
    }
    let name = line.substring_char(lo, hi - 1);
    proof {
        assert(name@ =~= t.subrange(0, t.len() - 1));
    }
    Some(name.to_owned())
}

/// The words of an instruction line: its whitespace-separated tokens, each
/// with one trailing comma removed.
pub open spec fn words_of(s: Seq<char>) -> Seq<Seq<char>> {
    tokens(s).map_values(|w: Seq<char>| strip_comma(w))
}

/// The instruction that a line denotes: the first word is the mnemonic,
/// case-insensitively; `add` and `sub` take one operand, `mov` takes a
/// source operand and a destination register. Words beyond those needed are
/// ignored.
pub open spec fn instruction_of(s: Seq<char>) -> Option<Instruction> {
    let ws = words_of(s);
    if ws.len() == 0 {
        None
    } else if eq_ci(ws[0], "add"@) {
        if ws.len() >= 2 && operand_of(ws[1]) is Some {
            Some(Instruction::Add(operand_of(ws[1]).unwrap()))
        } else {
            None
        }
    } else if eq_ci(ws[0], "sub"@) {
        if ws.len() >= 2 && operand_of(ws[1]) is Some {
            Some(Instruction::Sub(operand_of(ws[1]).unwrap()))
        } else {
            None
        }
    } else if eq_ci(ws[0], "mov"@) {
        if ws.len() >= 3 && operand_of(ws[1]) is Some && register_of(ws[2]) is Some {
            Some(Instruction::Mov(operand_of(ws[1]).unwrap(), register_of(ws[2]).unwrap()))
        } else {
            None
        }
    } else {
        None
    }
}

/// The bounds of token `k` of `line` with one trailing comma removed.
fn stripped_token(line: &str, toks: &Vec<(usize, usize)>, k: usize) -> (r: (usize, usize))
    requires
        k < toks@.len(),
        toks@.len() == tokens(line@).len(),
        forall|j: int| 0 <= j < toks@.len()
            ==> 0 <= #[trigger] toks@[j].0 <= toks@[j].1 <= line@.len()
                && line@.subrange(toks@[j].0 as int, toks@[j].1 as int) == tokens(line@)[j],
    ensures
        0 <= r.0 <= r.1 <= line@.len(),
        line@.subrange(r.0 as int, r.1 as int) == words_of(line@)[k as int],
{
    let (lo, hi) = toks[k];
    let ghost w = tokens(line@)[k as int];
    proof {
        assert(words_of(line@)[k as int] == strip_comma(w));
    }
    if hi > lo && line.get_char(hi - 1) == ',' {
        proof {
            assert(w[w.len() - 1] == line@[hi - 1]);
            assert(w.subrange(0, w.len() - 1) =~= line@.subrange(lo as int, hi - 1));
        }
        (lo, hi - 1)
    } else {
        proof {
            if w.len() > 0 {
                assert(w[w.len() - 1] == line@[hi - 1]);
            }
        }
        (lo, hi)
    }
}

/// Parses an instruction line, as `instruction_of` says.
pub fn parse_instruction(line: &str) -> (r: Option<Instruction>)
    ensures
        r == instruction_of(line@),
{
    let toks = tokenize(line);
    let ghost ws = words_of(line@);
    if toks.len() == 0 {
        return None;
    }
    let (olo, ohi) = stripped_token(line, &toks, 0);
    let is_add = range_eq_ci(line, olo, ohi, "add");
    let is_sub = if is_add { false } else { range_eq_ci(line, olo, ohi, "sub") };
    let is_mov = if is_add || is_sub { false } else { range_eq_ci(line, olo, ohi, "mov") };
    if is_add || is_sub {
        if toks.len() < 2 {
            return None;
        }
        let (alo, ahi) = stripped_token(line, &toks, 1);
        let op_str = line.substring_char(alo, ahi);
        proof {
            assert(op_str@ == ws[1]);
        }
        match parse_operand(op_str) {
            Some(op) => {
                if is_add {
                    Some(Instruction::Add(op))
                } else {
                    Some(Instruction::Sub(op))
                }
            },
            None => None,
        }
    } else if is_mov {
        if toks.len() < 2 {
            return None;
        }
        let (alo, ahi) = stripped_token(line, &toks, 1);
        let src_str = line.substring_char(alo, ahi);
        proof {
            assert(src_str@ == ws[1]);
        }
        let src = parse_operand(src_str);
        if toks.len() < 3 {
            return None;
        }
        let (blo, bhi) = stripped_token(line, &toks, 2);
        let dst_str = line.substring_char(blo, bhi);
        proof {
            assert(dst_str@ == ws[2]);
        }
        let dst = parse_register(dst_str);
        match (src, dst) {
            (Some(src), Some(dst)) => Some(Instruction::Mov(src, dst)),
            _ => None,
        }
    } else {
        None
    }
}

/// What a source line is, in the parser's precedence order: blank, comment,
/// label declaration, instruction, or a syntax error.
pub enum LineKind {
    Empty,
    Comment,
    Label(Seq<char>),
    Instr(Instruction),
    Bad,
}

/// Classifies one source line. A line is blank when its trimmed form is
/// empty, a comment when that form starts with `//`; otherwise it is tried
/// as a label declaration, then as an instruction, and is a syntax error
/// when neither fits.
pub open spec fn classify(l: Seq<char>) -> LineKind {
    let t = trim_of(l);
    if t.len() == 0 {
        LineKind::Empty
    } else if t.len() >= 2 && t[0] == '/' && t[1] == '/' {
        LineKind::Comment
    } else if label_of(l) is Some {
        LineKind::Label(label_of(l).unwrap())
    } else if instruction_of(l) is Some {
        LineKind::Instr(instruction_of(l).unwrap())
    } else {
        LineKind::Bad
    }
}

/// The instructions that a sequence of lines assembles to, in line order.
pub open spec fn instrs_of(lines: Seq<Seq<char>>) -> Seq<Instruction>
    decreases lines.len(),
{
    if lines.len() == 0 {
        Seq::empty()
    } else {
        let rest = instrs_of(lines.subrange(1, lines.len() as int));
        match classify(lines[0]) {
            LineKind::Instr(i) => seq![i] + rest,
            _ => rest,
        }
    }
}

/// The label bindings that a sequence of lines declares, in line order,
/// each bound to `base` plus the number of instructions on earlier lines —
/// the index that the next instruction will occupy.
pub open spec fn labels_of(lines: Seq<Seq<char>>, base: int) -> Seq<(Seq<char>, int)>
    decreases lines.len(),
{
    if lines.len() == 0 {
        Seq::empty()
    } else {
        let rest = lines.subrange(1, lines.len() as int);
        match classify(lines[0]) {
            LineKind::Label(n) => seq![(n, base)] + labels_of(rest, base),
            LineKind::Instr(_) => labels_of(rest, base + 1),
            _ => labels_of(rest, base),
        }
    }
}

/// A label table's entries with their indices widened to `int`, for
/// comparison against `labels_of`.
pub open spec fn entries_int(entries: Seq<(Seq<char>, usize)>) -> Seq<(Seq<char>, int)> {
    entries.map_values(|e: (Seq<char>, usize)| (e.0, e.1 as int))
}

/// Assembling one more line appends its instruction, or appends its label
/// bound to the index the next instruction would occupy.
proof fn lemma_asm_snoc(lines: Seq<Seq<char>>, l: Seq<char>, base: int)
    ensures
        instrs_of(lines.push(l)) == instrs_of(lines) + (match classify(l) {
            LineKind::Instr(i) => seq![i],
            _ => Seq::<Instruction>::empty(),
        }),
        labels_of(lines.push(l), base) == labels_of(lines, base) + (match classify(l) {
            LineKind::Label(n) => seq![(n, base + instrs_of(lines).len())],
            _ => Seq::<(Seq<char>, int)>::empty(),
        }),
    decreases lines.len(),
{
    let snoc = lines.push(l);
    if lines.len() == 0 {
        assert(snoc.len() == 1 && snoc[0] == l);
        assert(snoc.subrange(1, 1) =~= Seq::<Seq<char>>::empty());
        assert(instrs_of(snoc.subrange(1, 1)) =~= Seq::<Instruction>::empty());
        assert(labels_of(snoc.subrange(1, 1), base) =~= Seq::<(Seq<char>, int)>::empty());
        assert(instrs_of(lines) =~= Seq::<Instruction>::empty());
        assert(labels_of(lines, base) =~= Seq::<(Seq<char>, int)>::empty());
        assert(labels_of(snoc.subrange(1, 1), base + 1) =~= Seq::<(Seq<char>, int)>::empty());
        match classify(l) {
            LineKind::Instr(i) => {
                assert(instrs_of(snoc) =~= instrs_of(lines) + seq![i]);
                assert(labels_of(snoc, base) =~= labels_of(lines, base));
            },
            LineKind::Label(n) => {
                assert(labels_of(snoc, base) =~= labels_of(lines, base) + seq![(n, base)]);
                assert(instrs_of(snoc) =~= instrs_of(lines));
            },
            _ => {
                assert(instrs_of(snoc) =~= instrs_of(lines));
                assert(labels_of(snoc, base) =~= labels_of(lines, base));
            },
        }
    } else {
        let rest = lines.subrange(1, lines.len() as int);
        assert(snoc[0] == lines[0]);
        assert(snoc.subrange(1, snoc.len() as int) =~= rest.push(l));
        match classify(lines[0]) {
            LineKind::Instr(_) => {
                lemma_asm_snoc(rest, l, base + 1);
            },
            _ => {
                lemma_asm_snoc(rest, l, base);
            },
        }
        match classify(l) {
            LineKind::Instr(i) => {
                assert(instrs_of(snoc) =~= instrs_of(lines) + seq![i]);
                assert(labels_of(snoc, base) =~= labels_of(lines, base));
            },
            LineKind::Label(n) => {
                assert(instrs_of(snoc) =~= instrs_of(lines));
                assert(labels_of(snoc, base)
                    =~= labels_of(lines, base) + seq![(n, base + instrs_of(lines).len())]);
            },
            _ => {
                assert(instrs_of(snoc) =~= instrs_of(lines));
                assert(labels_of(snoc, base) =~= labels_of(lines, base));
            },
        }
    }
}

/// One parsed line: the executable counterpart of `classify`.
enum ParsedLine {
    Empty,
    Comment,
    Label(String),
    Instr(Instruction),
    Bad,
}

/// Classifies one line, as `classify` says.
fn parse_line(line: &str) -> (r: ParsedLine)
    ensures
        (match classify(line@) {
            LineKind::Empty => r is Empty,
            LineKind::Comment => r is Comment,
            LineKind::Label(n) => r matches ParsedLine::Label(s) && s@ == n,
            LineKind::Instr(i) => r matches ParsedLine::Instr(j) && j == i,
            LineKind::Bad => r is Bad,
        }),
{
    let ghost t = trim_of(line@);
    let (lo, hi) = trim_bounds(line);
    if lo == hi {
        return ParsedLine::Empty;
    }
    proof {
        assert(t[0] == line@[lo as int]);
        if t.len() >= 2 {
            assert(t[1] == line@[lo + 1]);
        }
    }
    if hi - lo >= 2 && line.get_char(lo) == '/' && line.get_char(lo + 1) == '/' {
        return ParsedLine::Comment;
    }
    if let Some(label) = parse_label(line) {
        return ParsedLine::Label(label);
    }
    if let Some(instruction) = parse_instruction(line) {
        return ParsedLine::Instr(instruction);
    }
    ParsedLine::Bad
}

/// Assembles `code` into `cpu`: each instruction line is appended to the
/// program in order, and each label line binds its name to the index the
/// next instruction will occupy. Blank lines and comments have no effect,
/// and registers, memory and `pc` are untouched. The caller vouches that
/// every line is well formed; `try_parse_code` checks instead.
pub fn parse_code(code: String, cpu: &mut Cpu)
    requires
        forall|k: int| 0 <= k < split_lines(code@).len()
            ==> !(#[trigger] classify(split_lines(code@)[k]) matches LineKind::Bad),
    ensures
        final(cpu).instructions@ == old(cpu).instructions@ + instrs_of(split_lines(code@)),
        entries_int(final(cpu).labels@) == entries_int(old(cpu).labels@)
            + labels_of(split_lines(code@), old(cpu).instructions@.len() as int),
        final(cpu).memory == old(cpu).memory,
        final(cpu).registers == old(cpu).registers,
        final(cpu).pc == old(cpu).pc,
{
    let ghost lines = split_lines(code@);
    let ghost base = old(cpu).instructions@.len() as int;
    let spans = crate::text::line_spans(code.as_str());
    let n = spans.len();
    let mut k: usize = 0;
    proof {
        assert(lines.subrange(0, 0) =~= Seq::<Seq<char>>::empty());
        assert(old(cpu).instructions@ + instrs_of(lines.subrange(0, 0))
            =~= old(cpu).instructions@);
        assert(entries_int(old(cpu).labels@) + labels_of(lines.subrange(0, 0), base)
            =~= entries_int(old(cpu).labels@));
    }
    while k < n
        invariant
            0 <= k <= n == lines.len(),
            lines == split_lines(code@),
            base == old(cpu).instructions@.len(),
            forall|j: int| 0 <= j < lines.len()
                ==> !(#[trigger] classify(lines[j]) matches LineKind::Bad),
            spans@.len() == lines.len(),
            forall|j: int| 0 <= j < spans@.len()
                ==> 0 <= #[trigger] spans@[j].0 <= spans@[j].1 <= code@.len()
                    && code@.subrange(spans@[j].0 as int, spans@[j].1 as int) == lines[j],
            cpu.instructions@ == old(cpu).instructions@ + instrs_of(lines.subrange(0, k as int)),
            entries_int(cpu.labels@) == entries_int(old(cpu).labels@)
                + labels_of(lines.subrange(0, k as int), base),
            cpu.memory == old(cpu).memory,
            cpu.registers == old(cpu).registers,
            cpu.pc == old(cpu).pc,
        decreases n - k,
    {
        let (llo, lhi) = spans[k];
        let line = code.as_str().substring_char(llo, lhi);
        proof {
            assert(line@ == lines[k as int]);
            lemma_asm_snoc(lines.subrange(0, k as int), lines[k as int], base);
            assert(lines.subrange(0, k as int).push(lines[k as int])
                =~= lines.subrange(0, k + 1));
        }
        let ghost prev_instrs = cpu.instructions@;
        let ghost prev_entries = entries_int(cpu.labels@);
        match parse_line(line) {
            ParsedLine::Label(label) => {
                let ghost name = label@;
                let index = cpu.instructions.len();
                cpu.labels.insert(label, index);
                proof {
                    assert(index == base + instrs_of(lines.subrange(0, k as int)).len());
                    assert(entries_int(cpu.labels@)
                        =~= prev_entries + seq![(name, index as int)]);
                }
            },
            ParsedLine::Instr(instruction) => {
                cpu.instructions.push(instruction);
                proof {
                    assert(cpu.instructions@ =~= prev_instrs + seq![instruction]);
                }
            },
            _ => {},
        }
        k = k + 1;
    }
    proof {
        assert(lines.subrange(0, n as int) =~= lines);
    }
}

/// Checks every line of `code` and assembles it into `cpu` as `parse_code`
/// does; a syntax error on any line reports the index of the first bad line
/// and leaves `cpu` untouched — no partial program is produced.
#[verifier::rlimit(50)]
pub fn try_parse_code(code: &str, cpu: &mut Cpu) -> (r: Result<(), usize>)
    ensures
        (match r {
            Ok(()) => (forall|k: int| 0 <= k < split_lines(code@).len()
                ==> !(#[trigger] classify(split_lines(code@)[k]) matches LineKind::Bad))
                && final(cpu).instructions@ == old(cpu).instructions@
                    + instrs_of(split_lines(code@))
                && entries_int(final(cpu).labels@) == entries_int(old(cpu).labels@)
                    + labels_of(split_lines(code@), old(cpu).instructions@.len() as int),
            Err(k) => 0 <= k < split_lines(code@).len()
                && (classify(split_lines(code@)[k as int]) matches LineKind::Bad)
                && (forall|j: int| 0 <= j < k
                    ==> !(#[trigger] classify(split_lines(code@)[j]) matches LineKind::Bad))
                && final(cpu).instructions@ == old(cpu).instructions@
                && final(cpu).labels@ == old(cpu).labels@,
        }),
        final(cpu).memory == old(cpu).memory,
        final(cpu).registers == old(cpu).registers,
        final(cpu).pc == old(cpu).pc,
{
    let ghost lines = split_lines(code@);
    let spans = crate::text::line_spans(code);
    let n = spans.len();
    let mut k: usize = 0;
    while k < n
        invariant
            0 <= k <= n == lines.len(),
            lines == split_lines(code@),
            spans@.len() == lines.len(),
            forall|j: int| 0 <= j < spans@.len()
                ==> 0 <= #[trigger] spans@[j].0 <= spans@[j].1 <= code@.len()
                    && code@.subrange(spans@[j].0 as int, spans@[j].1 as int) == lines[j],
            forall|j: int| 0 <= j < k ==> !(#[trigger] classify(lines[j]) matches LineKind::Bad),
        decreases n - k,
    {
        let (llo, lhi) = spans[k];
        let line = code.substring_char(llo, lhi);
        proof {
            assert(line@ == lines[k as int]);
        }
        if let ParsedLine::Bad = parse_line(line) {
            return Err(k);
        }
        k = k + 1;
    }
    parse_code(code.to_owned(), cpu);
    Ok(())
}

/// Makes the views of the register-name literals available to a proof.
proof fn reveal_register_names()
    ensures
        "acc"@ =~= seq!['a', 'c', 'c'],
        "r0"@ =~= seq!['r', '0'],
        "r1"@ =~= seq!['r', '1'],
        "r2"@ =~= seq!['r', '2'],
        "r3"@ =~= seq!['r', '3'],
        "r4"@ =~= seq!['r', '4'],
        "r5"@ =~= seq!['r', '5'],
        "r6"@ =~= seq!['r', '6'],
        "r7"@ =~= seq!['r', '7'],
        "r8"@ =~= seq!['r', '8'],
{
    reveal_strlit("acc");
    reveal_strlit("r0");
    reveal_strlit("r1");
    reveal_strlit("r2");
    reveal_strlit("r3");
    reveal_strlit("r4");
    reveal_strlit("r5");
    reveal_strlit("r6");
    reveal_strlit("r7");
    reveal_strlit("r8");
}

/// A token that names a register always parses as the register-operand
/// shape: the bracketed shape never captures it, and no fallback changes
/// the recovered register.
pub proof fn lemma_operand_register(s: Seq<char>, r: Register)
    requires
        register_of(s) == Some(r),
    ensures
        operand_of(s) == Some(Operand::Register(r)),
{
    reveal_register_names();
    let t = trim_of(s);
    assert(lc(t[0]) == 'a' || lc(t[0]) == 'r');
    assert(t[0] != '[');
}

/// A trimmed bracketed token whose inside names a register parses as the
/// indirect-operand shape with exactly that register.
pub proof fn lemma_operand_indirect(s: Seq<char>, r: Register)
    requires
        trim_of(s) == s,
        s.len() >= 2,
        s[0] == '[',
        s[s.len() - 1] == ']',
        register_of(s.subrange(1, s.len() - 1)) == Some(r),
    ensures
        operand_of(s) == Some(Operand::Indirect(r)),
{
}

/// A token that is a 16-bit numeral parses as the immediate-operand shape
/// with exactly its value: it can be neither bracketed nor a register name.
pub proof fn lemma_operand_immediate(s: Seq<char>, v: u16)
    requires
        u16_of(s) == Some(v),
    ensures
        operand_of(s) == Some(Operand::Immediate(v)),
{
    reveal_register_names();
    assert(s.len() > 0);
    assert(s[0] == '+' || is_digit(s[0]));
    assert(!is_space(s[0]));
    if s[0] == '+' {
        let d = s.subrange(1, s.len() as int);
        assert(d.len() > 0 && is_digit(d[d.len() - 1]));
        assert(s[s.len() - 1] == d[d.len() - 1]);
    } else {
        assert(is_digit(s[s.len() - 1]));
    }
    assert(!is_space(s[s.len() - 1]));
    crate::text::lemma_no_edge_space_trim(s);
    let t = trim_of(s);
    assert(t == s);
    assert(t[0] != '[');
    assert(lc(s[0]) == s[0]);
    assert(register_of(s) is None);
}

/// A well-formed label line binds its name to the number of instructions
/// on earlier lines plus `base`: the index that the next instruction will
/// occupy. A label on the first line binds to `base` itself.
pub proof fn lemma_label_binds_to_count(lines: Seq<Seq<char>>, base: int, i: int, name: Seq<char>)
    requires
        0 <= i < lines.len(),
        classify(lines[i]) == LineKind::Label(name),
    ensures
        labels_of(lines, base).contains((name, base + instrs_of(lines.take(i)).len())),
    decreases i,
{
    let rest = lines.subrange(1, lines.len() as int);
    if i == 0 {
        assert(lines.take(0) =~= Seq::<Seq<char>>::empty());
        assert(instrs_of(lines.take(0)) =~= Seq::<Instruction>::empty());
        assert(labels_of(lines, base)[0] == (name, base));
    } else {
        assert(lines.take(i).subrange(1, i) =~= rest.take(i - 1));
        assert(rest[i - 1] == lines[i]);
        assert(lines.take(i)[0] == lines[0]);
        match classify(lines[0]) {
            LineKind::Instr(_) => {
                lemma_label_binds_to_count(rest, base + 1, i - 1, name);
                assert(instrs_of(lines.take(i)).len() == 1 + instrs_of(rest.take(i - 1)).len());
                assert(labels_of(lines, base) == labels_of(rest, base + 1));
            },
            LineKind::Label(m) => {
                lemma_label_binds_to_count(rest, base, i - 1, name);
                assert(instrs_of(lines.take(i)) =~= instrs_of(rest.take(i - 1)));
                let e = (name, base + instrs_of(rest.take(i - 1)).len());
                let j = choose|j: int| 0 <= j < labels_of(rest, base).len()
                    && labels_of(rest, base)[j] == e;
                assert(labels_of(lines, base)[j + 1] == e);
            },
            LineKind::Empty => {
                lemma_label_binds_to_count(rest, base, i - 1, name);
                assert(instrs_of(lines.take(i)) =~= instrs_of(rest.take(i - 1)));
                assert(labels_of(lines, base) == labels_of(rest, base));
            },
            LineKind::Comment => {
                lemma_label_binds_to_count(rest, base, i - 1, name);
                assert(instrs_of(lines.take(i)) =~= instrs_of(rest.take(i - 1)));
                assert(labels_of(lines, base) == labels_of(rest, base));
            },
            LineKind::Bad => {
                lemma_label_binds_to_count(rest, base, i - 1, name);
                assert(instrs_of(lines.take(i)) =~= instrs_of(rest.take(i - 1)));
                assert(labels_of(lines, base) == labels_of(rest, base));
            },
        }
    }
}

} // verus!

