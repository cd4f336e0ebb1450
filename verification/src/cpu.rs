//! The execution engine: the register file, the flat memory, the label
//! table, and the fetch/execute loop with its fault policy.

use vstd::prelude::*;

use crate::types::{Instruction, Operand, Register};

verus! {

/// A terminal execution failure. Every fault aborts the remaining program;
/// none is retried.
#[derive(Debug, PartialEq, Eq, Copy, Clone, Structural)]
pub enum Fault {
    /// An indirect operand resolved to an address outside memory bounds;
    /// carries the offending address.
    InvalidAddress(usize),
    /// `Add` overflowed the 16-bit accumulator.
    Overflow,
    /// `Sub` underflowed the 16-bit accumulator.
    Underflow,
    /// The instruction is modeled but not wired into dispatch.
    Unsupported(Instruction),
}

/// The label table: symbolic names bound to program indices, in declaration
/// order. A later declaration of the same name overrides an earlier one.
pub struct LabelTable {
    pub entries: Vec<(String, usize)>,
}

impl View for LabelTable {
    type V = Seq<(Seq<char>, usize)>;

    open spec fn view(&self) -> Seq<(Seq<char>, usize)> {
        self.entries@.map_values(|e: (String, usize)| (e.0@, e.1))
    }
}

/// The mapping that a sequence of label bindings denotes: a later binding of
/// the same name wins.
pub open spec fn label_map(entries: Seq<(Seq<char>, usize)>) -> Map<Seq<char>, usize>
    decreases entries.len(),
{
    if entries.len() == 0 {
        Map::empty()
    } else {
        label_map(entries.subrange(0, entries.len() - 1))
            .insert(entries[entries.len() - 1].0, entries[entries.len() - 1].1)
    }
}

impl LabelTable {
    /// An empty table.
    pub fn new() -> (r: LabelTable)
        ensures
            r@ == Seq::<(Seq<char>, usize)>::empty(),
    {
        let r = LabelTable { entries: Vec::new() };
        proof {
            assert(r@ =~= Seq::<(Seq<char>, usize)>::empty());
        }
        r
    }

    /// Binds `name` to `index`, overriding any earlier binding of `name`.
    pub fn insert(&mut self, name: String, index: usize)
        ensures
            final(self)@ == old(self)@.push((name@, index)),
            label_map(final(self)@) == label_map(old(self)@).insert(name@, index),
    {
        let ghost prev = self@;
        self.entries.push((name, index));
        proof {
            assert(final(self)@ =~= prev.push((name@, index)));
            assert(final(self)@.subrange(0, final(self)@.len() - 1) =~= prev);
        }
    }

    /// The number of bindings recorded, later overrides included.
    pub fn len(&self) -> (r: usize)
        ensures
            r == self@.len(),
    {
        self.entries.len()
    }

    /// Looks a name up, `None` when it was never bound; the latest binding
    /// wins.
    pub fn get(&self, name: &str) -> (r: Option<usize>)
        ensures
            label_map(self@).contains_key(name@) ==> r == Some(label_map(self@)[name@]),
            !label_map(self@).contains_key(name@) ==> r is None,
    {
        let n = self.entries.len();
        let mut i: usize = n;
        while i > 0
            invariant
                0 <= i <= n == self@.len(),
                forall|j: int| i <= j < n ==> self@[j].0 != name@,
            decreases i,
        {
            i = i - 1;
            if crate::text::str_eq(self.entries[i].0.as_str(), name) {
                proof {
                    lemma_label_map_found(self@, i as int, name@);
                }
                return Some(self.entries[i].1);
            }
        }
        proof {
            lemma_label_map_absent(self@, name@);
        }
        None
    }
}

/// When every binding at or after `i` except `entries[i]` names something
/// else, the map binds `entries[i].0` to `entries[i].1`.
proof fn lemma_label_map_found(entries: Seq<(Seq<char>, usize)>, i: int, name: Seq<char>)
    requires
        0 <= i < entries.len(),
        entries[i].0 == name,
        forall|j: int| i < j < entries.len() ==> entries[j].0 != name,
    ensures
        label_map(entries).contains_key(name),
        label_map(entries)[name] == entries[i].1,
    decreases entries.len(),
{
    let last = entries.len() - 1;
    if i == last {
    } else {
        let front = entries.subrange(0, last);
        lemma_label_map_found(front, i, name);
    }
}

/// A name that no binding mentions is absent from the map.
proof fn lemma_label_map_absent(entries: Seq<(Seq<char>, usize)>, name: Seq<char>)
    requires
        forall|j: int| 0 <= j < entries.len() ==> entries[j].0 != name,
    ensures
        !label_map(entries).contains_key(name),
    decreases entries.len(),
{
    if entries.len() > 0 {
        lemma_label_map_absent(entries.subrange(0, entries.len() - 1), name);
    }
}

/// The slot of the register file that `r` names.
pub open spec fn reg_idx(r: Register) -> int {
    match r {
        Register::Acc => 0,
        Register::Isp => 1,
        Register::R0 => 2,
        Register::R1 => 3,
        Register::R2 => 4,
        Register::R3 => 5,
        Register::R4 => 6,
        Register::R5 => 7,
        Register::R6 => 8,
        Register::R7 => 9,
        Register::R8 => 10,
    }
}

/// Executable slot lookup matching `reg_idx`.
fn reg_index(r: Register) -> (i: usize)
    ensures
        i == reg_idx(r),
        i < 11,
{
    match r {
        Register::Acc => 0,
        Register::Isp => 1,
        Register::R0 => 2,
        Register::R1 => 3,
        Register::R2 => 4,
        Register::R3 => 5,
        Register::R4 => 6,
        Register::R5 => 7,
        Register::R6 => 8,
        Register::R7 => 9,
        Register::R8 => 10,
    }
}

/// How an operand resolves against a register file and a memory: a literal
/// is itself, a register operand reads its slot, an indirect operand reads
/// the memory cell addressed by its register's content, faulting when that
/// address is out of bounds.
pub open spec fn operand_value(regs: Seq<u16>, mem: Seq<u16>, op: Operand) -> Result<u16, Fault> {
    match op {
        Operand::Immediate(v) => Ok(v),
        Operand::Register(r) => Ok(regs[reg_idx(r)]),
        Operand::Indirect(r) => {
            let addr = regs[reg_idx(r)] as int;
            if addr < mem.len() {
                Ok(mem[addr])
            } else {
                Err(Fault::InvalidAddress(regs[reg_idx(r)] as usize))
            }
        },
    }
}

/// What one instruction does to the register file, or the fault it raises.
/// A faulting instruction changes nothing. Memory is never written by the
/// wired instructions, and every variant outside `Add`/`Sub`/`Mov` faults as
/// unsupported.
pub open spec fn step(regs: Seq<u16>, mem: Seq<u16>, instr: Instruction) -> Result<
    Seq<u16>,
    Fault,
> {
    match instr {
        Instruction::Add(op) => match operand_value(regs, mem, op) {
            Ok(v) => {
                let sum = regs[reg_idx(Register::Acc)] + v;
                if sum > u16::MAX {
                    Err(Fault::Overflow)
                } else {
                    Ok(regs.update(reg_idx(Register::Acc), sum as u16))
                }
            },
            Err(f) => Err(f),
        },
        Instruction::Sub(op) => match operand_value(regs, mem, op) {
            Ok(v) => {
                if v > regs[reg_idx(Register::Acc)] {
                    Err(Fault::Underflow)
                } else {
                    Ok(regs.update(reg_idx(Register::Acc), (regs[reg_idx(Register::Acc)] - v) as u16))
                }
            },
            Err(f) => Err(f),
        },
        Instruction::Mov(src, dest) => match operand_value(regs, mem, src) {
            Ok(v) => Ok(regs.update(reg_idx(dest), v)),
            Err(f) => Err(f),
        },
        _ => Err(Fault::Unsupported(instr)),
    }
}

/// Whether the engine's dispatch implements `instr`.
pub open spec fn wired(instr: Instruction) -> bool {
    match instr {
        Instruction::Add(_) => true,
        Instruction::Sub(_) => true,
        Instruction::Mov(_, _) => true,
        _ => false,
    }
}

/// Runs `prog` from index `k` to its end or to the first fault: the final
/// register file, and the fault if one occurred. The register file keeps the
/// state left by the last successful instruction.
pub open spec fn run_from(
    regs: Seq<u16>,
    mem: Seq<u16>,
    prog: Seq<Instruction>,
    k: int,
) -> (Seq<u16>, Option<Fault>)
    decreases prog.len() - k,
{
    if k < 0 || k >= prog.len() {
        (regs, None)
    } else {
        match step(regs, mem, prog[k]) {
            Ok(r2) => run_from(r2, mem, prog, k + 1),
            Err(f) => (regs, Some(f)),
        }
    }
}

/// The virtual machine: an assembled program with its label table, and the
/// state it executes against — eleven 16-bit registers and a flat memory of
/// 16-bit cells. `pc` is the index of the next instruction that single-step
/// execution will run.
pub struct Cpu {
    pub instructions: Vec<Instruction>,
    pub labels: LabelTable,
    pub memory: Vec<u16>,
    pub registers: [u16; 11],
    pub pc: usize,
}

impl Cpu {
    /// A fresh machine: no program, no labels, empty memory, zeroed
    /// registers.
    pub fn build() -> (r: Cpu)
        ensures
            r.instructions@ == Seq::<Instruction>::empty(),
            r.labels@ == Seq::<(Seq<char>, usize)>::empty(),
            r.memory@ == Seq::<u16>::empty(),
            r.registers@ == Seq::new(11, |i: int| 0u16),
            r.pc == 0,
    {
        let r = Cpu {
            instructions: Vec::new(),
            labels: LabelTable::new(),
            memory: Vec::new(),
            registers: [0u16; 11],
            pc: 0,
        };
        proof {
            assert(r.instructions@ =~= Seq::<Instruction>::empty());
            assert(r.memory@ =~= Seq::<u16>::empty());
            assert(r.registers@ =~= Seq::new(11, |i: int| 0u16));
        }
        r
    }

    /// Writes `val` into register `reg`.
    pub fn write_reg(&mut self, reg: Register, val: u16)
        ensures
            final(self).registers@ == old(self).registers@.update(reg_idx(reg), val),
            final(self).instructions == old(self).instructions,
            final(self).labels == old(self).labels,
            final(self).memory == old(self).memory,
            final(self).pc == old(self).pc,
    {
        let i = reg_index(reg);
        self.registers[i] = val;
    }

    /// Reads the content of register `reg`.
    pub fn read_reg(&self, reg: Register) -> (r: u16)
        ensures
            r == self.registers@[reg_idx(reg)],
    {
        let i = reg_index(reg);
        self.registers[i]
    }

    /// Resolves an operand against the current state, as `operand_value`
    /// says.
    fn value_from_operand(&self, op: Operand) -> (r: Result<u16, Fault>)
        ensures
            r == operand_value(self.registers@, self.memory@, op),
    {
        match op {
            Operand::Immediate(val) => Ok(val),
            Operand::Register(reg) => Ok(self.read_reg(reg)),
            Operand::Indirect(reg) => {
                let addr = self.read_reg(reg) as usize;
                if addr < self.memory.len() {
                    Ok(self.memory[addr])
                } else {
                    Err(Fault::InvalidAddress(addr))
                }
            },
        }
    }

    /// Adds the resolved operand to the accumulator with checked 16-bit
    /// arithmetic; overflow faults and changes nothing.
    fn add(&mut self, op: Operand) -> (r: Result<(), Fault>)
        ensures
            (match step(old(self).registers@, old(self).memory@, Instruction::Add(op)) {
                Ok(r2) => r == Ok::<(), Fault>(()) && final(self).registers@ == r2,
                Err(f) => r == Err::<(), Fault>(f)
                    && final(self).registers@ == old(self).registers@,
            }),
            final(self).instructions == old(self).instructions,
            final(self).labels == old(self).labels,
            final(self).memory == old(self).memory,
            final(self).pc == old(self).pc,
    {
        let value_to_add = match self.value_from_operand(op) {
            Ok(v) => v,
            Err(f) => {
                return Err(f);
            },
        };
        let acc = self.read_reg(Register::Acc);
        match acc.checked_add(value_to_add) {
            Some(total_value) => {
                self.write_reg(Register::Acc, total_value);
                Ok(())
            },
            None => Err(Fault::Overflow),
        }
    }

    /// Subtracts the resolved operand from the accumulator with checked
    /// 16-bit arithmetic; underflow faults and changes nothing.
    fn sub(&mut self, op: Operand) -> (r: Result<(), Fault>)
        ensures
            (match step(old(self).registers@, old(self).memory@, Instruction::Sub(op)) {
                Ok(r2) => r == Ok::<(), Fault>(()) && final(self).registers@ == r2,
                Err(f) => r == Err::<(), Fault>(f)
                    && final(self).registers@ == old(self).registers@,
            }),
            final(self).instructions == old(self).instructions,
            final(self).labels == old(self).labels,
            final(self).memory == old(self).memory,
            final(self).pc == old(self).pc,
    {
        let value_to_sub = match self.value_from_operand(op) {
            Ok(v) => v,
            Err(f) => {
                return Err(f);
            },
        };
        let acc = self.read_reg(Register::Acc);
        match acc.checked_sub(value_to_sub) {
            Some(total_value) => {
                self.write_reg(Register::Acc, total_value);
                Ok(())
            },
            None => Err(Fault::Underflow),
        }
    }

    /// Writes the resolved source operand into the destination register.
    fn mov(&mut self, src: Operand, dest: Register) -> (r: Result<(), Fault>)
        ensures
            (match step(old(self).registers@, old(self).memory@, Instruction::Mov(src, dest)) {
                Ok(r2) => r == Ok::<(), Fault>(()) && final(self).registers@ == r2,
                Err(f) => r == Err::<(), Fault>(f)
                    && final(self).registers@ == old(self).registers@,
            }),
            final(self).instructions == old(self).instructions,
            final(self).labels == old(self).labels,
            final(self).memory == old(self).memory,
            final(self).pc == old(self).pc,
    {
        let value_to_mov = match self.value_from_operand(src) {
            Ok(v) => v,
            Err(f) => {
                return Err(f);
            },
        };
        self.write_reg(dest, value_to_mov);
        Ok(())
    }

    /// Batch execution: runs the whole program from its start, stopping at
    /// the first fault. The register file ends as `run_from` from index 0
    /// says; a fault is returned and leaves the state of the last successful
    /// instruction.
    pub fn execute(&mut self) -> (r: Result<(), Fault>)
        ensures
            final(self).registers@ == run_from(
                old(self).registers@,
                old(self).memory@,
                old(self).instructions@,
                0,
            ).0,
            r == (match run_from(
                old(self).registers@,
                old(self).memory@,
                old(self).instructions@,
                0,
            ).1 {
                None => Ok::<(), Fault>(()),
                Some(f) => Err::<(), Fault>(f),
            }),
            final(self).instructions == old(self).instructions,
            final(self).labels == old(self).labels,
            final(self).memory == old(self).memory,
            final(self).pc == old(self).pc,
    {
        let n = self.instructions.len();
        let mut i: usize = 0;
        while i < n
            invariant
                0 <= i <= n == self.instructions@.len(),
                run_from(old(self).registers@, old(self).memory@, old(self).instructions@, 0)
                    == run_from(self.registers@, self.memory@, self.instructions@, i as int),
                self.instructions == old(self).instructions,
                self.labels == old(self).labels,
                self.memory == old(self).memory,
                self.pc == old(self).pc,
            decreases n - i,
        {
            let instruction = self.instructions[i];
            let res = match instruction {
                Instruction::Add(op) => self.add(op),
                Instruction::Sub(op) => self.sub(op),
                Instruction::Mov(src, dest) => self.mov(src, dest),
                _ => Err(Fault::Unsupported(instruction)),
            };
            if let Err(f) = res {
                return Err(f);
            }
            i = i + 1;
        }
        Ok(())
    }

    /// Single-step execution: runs the instruction at `pc` and advances `pc`
    /// by one. A fault leaves the whole state, `pc` included, unchanged.
    /// Past the end of the program the call changes nothing and succeeds;
    /// the host tracks completion.
    pub fn execute_one(&mut self) -> (r: Result<(), Fault>)
        ensures
            old(self).pc >= old(self).instructions@.len() ==> r == Ok::<(), Fault>(())
                && final(self).registers@ == old(self).registers@
                && final(self).pc == old(self).pc,
            old(self).pc < old(self).instructions@.len() ==> (match step(
                old(self).registers@,
                old(self).memory@,
                old(self).instructions@[old(self).pc as int],
            ) {
                Ok(r2) => r == Ok::<(), Fault>(()) && final(self).registers@ == r2
                    && final(self).pc == old(self).pc + 1,
                Err(f) => r == Err::<(), Fault>(f)
                    && final(self).registers@ == old(self).registers@
                    && final(self).pc == old(self).pc,
            }),
            final(self).instructions == old(self).instructions,
            final(self).labels == old(self).labels,
            final(self).memory == old(self).memory,
    {
        if self.pc >= self.instructions.len() {
            return Ok(());
        }
        let instruction = self.instructions[self.pc];
        let res = match instruction {
            Instruction::Add(op) => self.add(op),
            Instruction::Sub(op) => self.sub(op),
            Instruction::Mov(src, dest) => self.mov(src, dest),
            _ => Err(Fault::Unsupported(instruction)),
        };
        match res {
            Ok(()) => {
                self.pc = self.pc + 1;
                Ok(())
            },
            Err(f) => Err(f),
        }
    }
}

/// Appending one instruction to a program extends its batch run by exactly
/// one step: if the shorter run ended without fault, the longer run applies
/// `step` once to its final register file; if it faulted, the longer run is
/// the same. With `p = prog.take(pc)` this is the inductive step showing
/// that single-step execution — which advances `pc` by one `step` per call —
/// reaches, once `pc` passes the last instruction, exactly the register
/// file that batch execution of the whole program computes: batch mode and
/// step mode agree whenever no fault occurs.
pub proof fn lemma_batch_is_iterated_steps(
    regs: Seq<u16>,
    mem: Seq<u16>,
    p: Seq<Instruction>,
    x: Instruction,
)
    ensures
        (match run_from(regs, mem, p, 0) {
            (r2, None) => run_from(regs, mem, p.push(x), 0) == (match step(r2, mem, x) {
                Ok(r3) => (r3, None::<Fault>),
                Err(f) => (r2, Some(f)),
            }),
            (r2, Some(f)) => run_from(regs, mem, p.push(x), 0) == (r2, Some(f)),
        }),
    decreases p.len(),
{
    let snoc = p.push(x);
    if p.len() == 0 {
        assert(snoc.len() == 1 && snoc[0] == x);
        assert(run_from(regs, mem, p, 0) == (regs, None::<Fault>));
        match step(regs, mem, x) {
            Ok(r3) => {
                assert(run_from(regs, mem, snoc, 0) == run_from(r3, mem, snoc, 1));
            },
            Err(_) => {},
        }
    } else {
        assert(snoc[0] == p[0]);
        match step(regs, mem, p[0]) {
            Ok(r2) => {
                lemma_run_from_shift(r2, mem, snoc, 1);
                lemma_run_from_shift(r2, mem, p, 1);
                assert(snoc.subrange(1, snoc.len() as int)
                    =~= p.subrange(1, p.len() as int).push(x));
                lemma_batch_is_iterated_steps(r2, mem, p.subrange(1, p.len() as int), x);
            },
            Err(_) => {},
        }
    }
}

/// Running from `k` is running the program's tail from its start.
proof fn lemma_run_from_shift(regs: Seq<u16>, mem: Seq<u16>, prog: Seq<Instruction>, k: int)
    requires
        0 <= k <= prog.len(),
    ensures
        run_from(regs, mem, prog, k) == run_from(regs, mem, prog.subrange(k, prog.len() as int), 0),
    decreases prog.len() - k,
{
    let tail = prog.subrange(k, prog.len() as int);
    if k == prog.len() {
    } else {
        assert(tail[0] == prog[k]);
        match step(regs, mem, prog[k]) {
            Ok(r2) => {
                lemma_run_from_shift(r2, mem, prog, k + 1);
                lemma_run_from_shift(r2, mem, tail, 1);
                assert(prog.subrange(k + 1, prog.len() as int)
                    =~= tail.subrange(1, tail.len() as int));
            },
            Err(_) => {},
        }
    }
}

/// An unsupported instruction faults exactly when it is reached, not
/// before: when the first `k` instructions run without fault and the
/// instruction at `k` is modeled but not wired into dispatch, the whole run
/// keeps the registers that the first `k` instructions produced and reports
/// that instruction as unsupported.
pub proof fn lemma_unsupported_faults_where_reached(
    regs: Seq<u16>,
    mem: Seq<u16>,
    prog: Seq<Instruction>,
    k: int,
)
    requires
        0 <= k < prog.len(),
        !wired(prog[k]),
        run_from(regs, mem, prog.subrange(0, k), 0).1 is None,
    ensures
        run_from(regs, mem, prog, 0) == (
            run_from(regs, mem, prog.subrange(0, k), 0).0,
            Some(Fault::Unsupported(prog[k])),
        ),
    decreases k,
{
    let prefix = prog.subrange(0, k);
    if k == 0 {
        assert(step(regs, mem, prog[0]) == Err::<Seq<u16>, Fault>(Fault::Unsupported(prog[0])));
        assert(run_from(regs, mem, prefix, 0) == (regs, Option::<Fault>::None));
    } else {
        assert(prefix[0] == prog[0]);
        match step(regs, mem, prog[0]) {
            Ok(r2) => {
                let ptail = prog.subrange(1, prog.len() as int);
                lemma_run_from_shift(r2, mem, prog, 1);
                lemma_run_from_shift(r2, mem, prefix, 1);
                assert(prefix.subrange(1, prefix.len() as int)
                    =~= ptail.subrange(0, k - 1));
                assert(ptail[k - 1] == prog[k]);
                lemma_unsupported_faults_where_reached(r2, mem, ptail, k - 1);
            },
            Err(_) => {
                assert(run_from(regs, mem, prefix, 0).1 is Some);
            },
        }
    }
}

} // verus!
