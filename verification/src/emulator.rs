//! The bytecode interpreter: a 32-register CPU with `HI`, `LO` and `PC`, a
//! sparse word-addressed memory, and two memory-mapped I/O ports. One port
//! reads a byte of input, the other writes a byte of output; the machine
//! buffers pending input and collected output as data, so a driver feeds
//! bytes in and drains bytes out around `step`.
//!
//! Each step fetches the word at `PC`, decodes it, advances `PC` by four and
//! executes. A step that needs input which is not buffered yet (and before
//! the end of input was signalled) reports `NeedInput` and leaves the state
//! unchanged; faults (an uninitialized read, an illegal instruction, a
//! division by zero) also leave the state unchanged.

use vstd::prelude::*;
use std::collections::HashMap;
use crate::instruction::Instruction;
use crate::instruction::SpecInstruction;

verus! {

broadcast use vstd::std_specs::hash::group_hash_axioms;

/// The program counter value that means a clean halt: loading puts it into
/// register 31, and a program returns by jumping there.
pub const SENTINEL_PC: u32 = 0x8123456c;

/// Reading this byte address consumes one byte of input (0xFF once input is
/// exhausted).
pub const MMIO_READ_ADDR: u32 = 0xffff0004;

/// Writing this byte address emits the low byte of the value as output.
pub const MMIO_WRITE_ADDR: u32 = 0xffff000c;

/// The initial value of register 30, the stack base.
pub const STACK_BASE: u32 = 0x100000;

/// The value registers 3 through 29 hold under the two-ints convention.
pub const TWOINTS_FILL: u32 = 0xfffffff6;

/// The signed value a 32-bit word represents in two's complement.
pub open spec fn as_signed(x: u32) -> int {
    if x < 0x80000000 {
        x as int
    } else {
        x - 0x100000000
    }
}

/// The magnitude of the signed value of `x`.
pub open spec fn s_abs(x: u32) -> int {
    if x < 0x80000000 {
        x as int
    } else {
        0x100000000 - x
    }
}

/// The 32-bit word representing `v` modulo `2^32`.
pub open spec fn wrap32(v: int) -> u32 {
    (v % 0x100000000) as u32
}

/// A 16-bit immediate sign-extended to 32 bits.
pub open spec fn sign_ext16(imm: u32) -> u32
    recommends
        imm < 0x10000,
{
    if imm < 0x8000 {
        imm
    } else {
        ((imm + 0xffff0000) as u32)
    }
}

/// A fatal condition of the running machine.
#[derive(Debug, Clone, Copy, PartialEq, Eq, Structural)]
pub enum Fault {
    /// A read of a word no one has written (the payload is the byte
    /// address).
    UninitializedRead(u32),
    /// The fetched word decodes to no executable instruction.
    IllegalInstruction(u32),
    /// `div` or `divu` with a zero divisor.
    DivisionByZero,
}

/// What one `step` did.
#[derive(Debug, Clone, Copy, PartialEq, Eq, Structural)]
pub enum StepResult {
    /// The program counter held the sentinel: the program has halted.
    Halted,
    /// One instruction was executed.
    Executed,
    /// The step needs a byte of input that is not buffered yet; the state is
    /// unchanged. Feed a byte or signal the end of input, then step again.
    NeedInput,
    /// A fatal condition; the state is unchanged.
    Fault(Fault),
}

/// What a bounded `run` ended with.
#[derive(Debug, Clone, Copy, PartialEq, Eq, Structural)]
pub enum RunResult {
    Halted,
    NeedInput,
    Fault(Fault),
    OutOfSteps,
}

/// What a memory read yielded.
#[derive(Debug, Clone, Copy, PartialEq, Eq, Structural)]
pub enum ReadOutcome {
    /// The word read (for the input port: the byte, zero-extended).
    Read(u32),
    /// The input port was read with no byte buffered and no end of input
    /// signalled.
    AwaitInput,
    /// The address is neither a port nor initialized memory.
    Failed(Fault),
}

/// The mathematical model of the machine: memory keyed by word address,
/// the register file, the three special registers, the pending input, the
/// end-of-input flag, and the output collected so far.
pub struct EmuView {
    pub memory: Map<u32, u32>,
    pub registers: Seq<u32>,
    pub hi: u32,
    pub lo: u32,
    pub pc: u32,
    pub input: Seq<u8>,
    pub eof: bool,
    pub output: Seq<u8>,
}

impl EmuView {
    /// The register file has exactly 32 registers.
    pub open spec fn wf(self) -> bool {
        self.registers.len() == 32
    }
}

/// The machine after a read at byte address `addr`, and what the read
/// yielded. The input port consumes one buffered byte, or yields 0xFF after
/// the end of input, or asks for input; every other address is served from
/// memory at word granularity.
pub open spec fn spec_read(v: EmuView, addr: u32) -> (EmuView, ReadOutcome) {
    if addr == MMIO_READ_ADDR {
        if v.input.len() > 0 {
            (EmuView { input: v.input.skip(1), ..v }, ReadOutcome::Read(v.input[0] as u32))
        } else if v.eof {
            (v, ReadOutcome::Read(0xff))
        } else {
            (v, ReadOutcome::AwaitInput)
        }
    } else if v.memory.contains_key(addr / 4) {
        (v, ReadOutcome::Read(v.memory[addr / 4]))
    } else {
        (v, ReadOutcome::Failed(Fault::UninitializedRead(addr)))
    }
}

/// The machine after a write of `val` to byte address `addr`. The output
/// port appends the low byte of the value to the output and leaves memory
/// alone; every other address is written at word granularity.
pub open spec fn spec_write(v: EmuView, addr: u32, val: u32) -> EmuView {
    if addr == MMIO_WRITE_ADDR {
        EmuView { output: v.output.push((val % 0x100) as u8), ..v }
    } else {
        EmuView { memory: v.memory.insert(addr / 4, val), ..v }
    }
}

/// The machine with register `d` set to `val`. Register 0 is an ordinary
/// register here: writes to it are honored.
pub open spec fn set_reg(v: EmuView, d: u8, val: u32) -> EmuView
    recommends
        v.wf(),
        d < 32,
{
    EmuView { registers: v.registers.update(d as int, val), ..v }
}

/// The machine after executing decoded instruction `ins` (fetched word
/// `w`), starting from `v` (fetch done, `PC` already advanced). `orig` is
/// the machine before the whole step; it is restored when the step cannot
/// complete.
pub open spec fn spec_execute(orig: EmuView, v: EmuView, ins: SpecInstruction, w: u32) -> (
    EmuView,
    StepResult,
)
    recommends
        v.wf(),
        ins.wf(),
        ins.resolved(),
        ins.imm_masked(),
{
    match ins {
        SpecInstruction::Add { d, s, t } => (
            set_reg(v, d, wrap32(v.registers[s as int] + v.registers[t as int])),
            StepResult::Executed,
        ),
        SpecInstruction::Sub { d, s, t } => (
            set_reg(v, d, wrap32(v.registers[s as int] - v.registers[t as int])),
            StepResult::Executed,
        ),
        SpecInstruction::Slt { d, s, t } => (
            set_reg(
                v,
                d,
                if as_signed(v.registers[s as int]) < as_signed(v.registers[t as int]) {
                    1
                } else {
                    0
                },
            ),
            StepResult::Executed,
        ),
        // `sltu` compares with `<=`, not `<`: kept faithfully from the
        // architecture this machine implements, where the mnemonic belies
        // the comparison.
        SpecInstruction::Sltu { d, s, t } => (
            set_reg(
                v,
                d,
                if v.registers[s as int] <= v.registers[t as int] {
                    1
                } else {
                    0
                },
            ),
            StepResult::Executed,
        ),
        SpecInstruction::Mult { s, t } => {
            let p = as_signed(v.registers[s as int]) * as_signed(v.registers[t as int]);
            let rep = p % 0x10000000000000000;
            (
                EmuView { hi: (rep / 0x100000000) as u32, lo: (rep % 0x100000000) as u32, ..v },
                StepResult::Executed,
            )
        },
        SpecInstruction::Multu { s, t } => {
            let p = v.registers[s as int] * v.registers[t as int];
            (
                EmuView { hi: (p / 0x100000000) as u32, lo: (p % 0x100000000) as u32, ..v },
                StepResult::Executed,
            )
        },
        SpecInstruction::Div { s, t } => {
            let x = v.registers[s as int];
            let y = v.registers[t as int];
            if y == 0 {
                (orig, StepResult::Fault(Fault::DivisionByZero))
            } else {
                let uq = s_abs(x) / s_abs(y);
                let ur = s_abs(x) % s_abs(y);
                let q = if (x >= 0x80000000) != (y >= 0x80000000) {
                    -uq
                } else {
                    uq
                };
                let r = if x >= 0x80000000 {
                    -ur
                } else {
                    ur
                };
                (EmuView { lo: wrap32(q), hi: wrap32(r), ..v }, StepResult::Executed)
            }
        },
        SpecInstruction::Divu { s, t } => {
            let x = v.registers[s as int];
            let y = v.registers[t as int];
            if y == 0 {
                (orig, StepResult::Fault(Fault::DivisionByZero))
            } else {
                (
                    EmuView { lo: ((x as int / y as int) as u32), hi: ((x as int % y as int) as u32), ..v },
                    StepResult::Executed,
                )
            }
        },
        SpecInstruction::Mfhi { d } => (set_reg(v, d, v.hi), StepResult::Executed),
        SpecInstruction::Mflo { d } => (set_reg(v, d, v.lo), StepResult::Executed),
        SpecInstruction::Lis { d } => {
            let (v3, rr) = spec_read(v, v.pc);
            match rr {
                ReadOutcome::Read(x) => (
                    EmuView { pc: wrap32(v3.pc + 4), ..set_reg(v3, d, x) },
                    StepResult::Executed,
                ),
                ReadOutcome::AwaitInput => (orig, StepResult::NeedInput),
                ReadOutcome::Failed(f) => (orig, StepResult::Fault(f)),
            }
        },
        SpecInstruction::Lw { t, i, s } => {
            let a = wrap32(v.registers[s as int] + sign_ext16(i.spec_literal()));
            let (v3, rr) = spec_read(v, a);
            match rr {
                ReadOutcome::Read(x) => (set_reg(v3, t, x), StepResult::Executed),
                ReadOutcome::AwaitInput => (orig, StepResult::NeedInput),
                ReadOutcome::Failed(f) => (orig, StepResult::Fault(f)),
            }
        },
        SpecInstruction::Sw { t, i, s } => {
            let a = wrap32(v.registers[s as int] + sign_ext16(i.spec_literal()));
            (spec_write(v, a, v.registers[t as int]), StepResult::Executed)
        },
        // Branches also take the branch when the two register *indices*
        // coincide, whatever the registers hold: kept faithfully from the
        // architecture this machine implements.
        SpecInstruction::Beq { s, t, i } => {
            if s == t || v.registers[s as int] == v.registers[t as int] {
                (
                    EmuView { pc: wrap32(v.pc + 4 * sign_ext16(i.spec_literal())), ..v },
                    StepResult::Executed,
                )
            } else {
                (v, StepResult::Executed)
            }
        },
        SpecInstruction::Bne { s, t, i } => {
            if s != t && v.registers[s as int] != v.registers[t as int] {
                (
                    EmuView { pc: wrap32(v.pc + 4 * sign_ext16(i.spec_literal())), ..v },
                    StepResult::Executed,
                )
            } else {
                (v, StepResult::Executed)
            }
        },
        SpecInstruction::Jr { s } => (
            EmuView { pc: v.registers[s as int], ..v },
            StepResult::Executed,
        ),
        SpecInstruction::Jalr { s } => {
            let tmp = v.registers[s as int];
            (EmuView { pc: tmp, ..set_reg(v, 31, v.pc) }, StepResult::Executed)
        },
        SpecInstruction::Word { i: _ } => (orig, StepResult::Fault(Fault::IllegalInstruction(w))),
        SpecInstruction::Noop => (orig, StepResult::Fault(Fault::IllegalInstruction(w))),
    }
}

/// One step of the machine: halt when `PC` holds the sentinel, otherwise
/// fetch the word at `PC`, advance `PC` by four, decode and execute. A step
/// that cannot complete (input wanted, or a fault) leaves the machine
/// unchanged.
pub open spec fn spec_step(v: EmuView) -> (EmuView, StepResult)
    recommends
        v.wf(),
{
    if v.pc == SENTINEL_PC {
        (v, StepResult::Halted)
    } else {
        let (v1, fetch) = spec_read(v, v.pc);
        match fetch {
            ReadOutcome::AwaitInput => (v, StepResult::NeedInput),
            ReadOutcome::Failed(f) => (v, StepResult::Fault(f)),
            ReadOutcome::Read(w) => {
                let v2 = EmuView { pc: wrap32(v1.pc + 4), ..v1 };
                spec_execute(v, v2, SpecInstruction::spec_decode(w), w)
            },
        }
    }
}

/// At most `fuel` steps of the machine, stopping early on a halt, a wait
/// for input, or a fault.
pub open spec fn spec_run(v: EmuView, fuel: nat) -> (EmuView, RunResult)
    recommends
        v.wf(),
    decreases fuel,
{
    if fuel == 0 {
        (v, RunResult::OutOfSteps)
    } else {
        let (v1, r) = spec_step(v);
        match r {
            StepResult::Halted => (v1, RunResult::Halted),
            StepResult::NeedInput => (v1, RunResult::NeedInput),
            StepResult::Fault(f) => (v1, RunResult::Fault(f)),
            StepResult::Executed => spec_run(v1, (fuel - 1) as nat),
        }
    }
}

} // verus!

verus! {

/// The machine. Pending input sits in `input` from `input_pos` on; `step`
/// consumes it byte by byte, and a driver appends more with `push_input` or
/// declares the input finished with `set_input_eof`.
pub struct MipsEmulator {
    memory: HashMap<u32, u32>,
    registers: Vec<u32>,
    lo: u32,
    hi: u32,
    pc: u32,
    input: Vec<u8>,
    input_pos: usize,
    eof: bool,
    output: Vec<u8>,
}

impl View for MipsEmulator {
    type V = EmuView;

    closed spec fn view(&self) -> EmuView {
        EmuView {
            memory: self.memory@,
            registers: self.registers@,
            hi: self.hi,
            lo: self.lo,
            pc: self.pc,
            input: self.input@.skip(self.input_pos as int),
            eof: self.eof,
            output: self.output@,
        }
    }
}

/// The memory image of a loaded program: word `k` of the program at word
/// address `k`.
pub open spec fn spec_load(program: Seq<u32>) -> Map<u32, u32> {
    Map::new(|k: u32| (k as int) < program.len(), |k: u32| program[k as int])
}

impl MipsEmulator {
    /// The register file has exactly 32 registers and the input cursor is
    /// in range.
    pub closed spec fn wf(&self) -> bool {
        &&& self.registers@.len() == 32
        &&& self.input_pos <= self.input@.len()
    }

    /// A well-formed machine has a well-formed view.
    pub proof fn lemma_wf_view(&self)
        requires
            self.wf(),
        ensures
            self@.wf(),
    {
    }

    /// A fresh machine: the program loaded from word address 0 on, all
    /// registers zero except the stack base in register 30 and the sentinel
    /// return address in register 31, `PC` at 0, no input buffered, no
    /// output yet.
    pub fn new(program: &[u32]) -> (r: MipsEmulator)
        requires
            program@.len() <= 0x100000000,
        ensures
            r.wf(),
            r@.memory == spec_load(program@),
            r@.registers.len() == 32,
            forall|i: int| 0 <= i < 30 ==> r@.registers[i] == 0,
            r@.registers[30] == STACK_BASE,
            r@.registers[31] == SENTINEL_PC,
            r@.hi == 0,
            r@.lo == 0,
            r@.pc == 0,
            r@.input == Seq::<u8>::empty(),
            r@.eof == false,
            r@.output == Seq::<u8>::empty(),
    {
        let mut memory: HashMap<u32, u32> = HashMap::new();
        let mut idx: usize = 0;
        while idx < program.len()
            invariant
                idx <= program@.len(),
                program@.len() <= 0x100000000,
                memory@ == Map::new(
                    |k: u32| (k as int) < idx as int,
                    |k: u32| program@[k as int],
                ),
            decreases program@.len() - idx,
        {
            let ghost prev = memory@;
            memory.insert(idx as u32, program[idx]);
            idx = idx + 1;
            proof {
                assert(memory@ =~= Map::new(
                    |k: u32| (k as int) < idx as int,
                    |k: u32| program@[k as int],
                ));
            }
        }
        let mut registers: Vec<u32> = Vec::new();
        let mut i: usize = 0;
        while i < 32
            invariant
                i <= 32,
                registers@.len() == i,
                forall|j: int| 0 <= j < i ==> registers@[j] == 0,
            decreases 32 - i,
        {
            registers.push(0);
            i = i + 1;
        }
        registers[30] = STACK_BASE;
        registers[31] = SENTINEL_PC;
        let r = MipsEmulator {
            memory,
            registers,
            lo: 0,
            hi: 0,
            pc: 0,
            input: Vec::new(),
            input_pos: 0,
            eof: false,
            output: Vec::new(),
        };
        proof {
            assert(r@.memory =~= spec_load(program@));
            assert(r@.input =~= Seq::<u8>::empty());
        }
        r
    }

    /// Read the word at byte address `addr`: either a word of memory, a
    /// byte of input through the input port, or a fault.
    pub fn read(&mut self, addr: u32) -> (r: ReadOutcome)
        requires
            old(self).wf(),
        ensures
            final(self).wf(),
            ({
                let (v2, rr) = spec_read(old(self)@, addr);
                final(self)@ == v2 && r == rr
            }),
    {
        self.do_read(addr)
    }

    /// The read itself, with the extra fact (for `step`'s bookkeeping) that
    /// only the input cursor can move: every other field stays as it was.
    fn do_read(&mut self, addr: u32) -> (r: ReadOutcome)
        requires
            old(self).wf(),
        ensures
            final(self).wf(),
            ({
                let (v2, rr) = spec_read(old(self)@, addr);
                final(self)@ == v2 && r == rr
            }),
            final(self).input == old(self).input,
            final(self).memory == old(self).memory,
            final(self).registers == old(self).registers,
            final(self).hi == old(self).hi,
            final(self).lo == old(self).lo,
            final(self).pc == old(self).pc,
            final(self).eof == old(self).eof,
            final(self).output == old(self).output,
            old(self).input_pos <= final(self).input_pos,
    {
        if addr == MMIO_READ_ADDR {
            if self.input_pos < self.input.len() {
                let b = self.input[self.input_pos];
                self.input_pos = self.input_pos + 1;
                proof {
                    assert(self@.input =~= old(self)@.input.skip(1));
                    assert(self@ == spec_read(old(self)@, addr).0);
                }
                return ReadOutcome::Read(b as u32);
            }
            if self.eof {
                return ReadOutcome::Read(0xff);
            }
            return ReadOutcome::AwaitInput;
        }
        match self.memory.get(&(addr / 4)) {
            Some(w) => ReadOutcome::Read(*w),
            None => ReadOutcome::Failed(Fault::UninitializedRead(addr)),
        }
    }

    /// Write `val` to byte address `addr`: the output port gets the low
    /// byte of the value appended to the output and leaves the memory map
    /// untouched; any other address gets the word stored.
    pub fn write(&mut self, addr: u32, val: u32)
        requires
            old(self).wf(),
        ensures
            final(self).wf(),
            final(self)@ == spec_write(old(self)@, addr, val),
            addr == MMIO_WRITE_ADDR ==> final(self)@.memory == old(self)@.memory && final(self)@.output == old(self)@.output.push((val % 0x100) as u8),
            addr != MMIO_WRITE_ADDR ==> final(self)@.output == old(self)@.output,
    {
        if addr == MMIO_WRITE_ADDR {
            self.output.push((val % 0x100) as u8);
        } else {
            self.memory.insert(addr / 4, val);
        }
    }

    /// Append one byte to the pending input.
    pub fn push_input(&mut self, b: u8)
        requires
            old(self).wf(),
        ensures
            final(self).wf(),
            final(self)@ == (EmuView { input: old(self)@.input.push(b), ..old(self)@ }),
    {
        self.input.push(b);
        proof {
            assert(self@.input =~= old(self)@.input.push(b));
        }
    }

    /// Declare the input finished: from now on the input port yields 0xFF
    /// once the buffered bytes run out.
    pub fn set_input_eof(&mut self)
        requires
            old(self).wf(),
        ensures
            final(self).wf(),
            final(self)@ == (EmuView { eof: true, ..old(self)@ }),
    {
        self.eof = true;
    }

    /// The output collected so far.
    pub fn output_bytes(&self) -> (r: &Vec<u8>)
        ensures
            r@ == self@.output,
    {
        &self.output
    }

    /// Set one register.
    pub fn set_register(&mut self, index: u8, value: u32)
        requires
            old(self).wf(),
            index < 32,
        ensures
            final(self).wf(),
            final(self)@ == set_reg(old(self)@, index, value),
    {
        self.registers[index as usize] = value;
    }

    /// One register's value.
    pub fn register(&self, index: u8) -> (r: u32)
        requires
            self.wf(),
            index < 32,
        ensures
            r == self@.registers[index as int],
    {
        self.registers[index as usize]
    }

    /// The `HI` register.
    pub fn hi_value(&self) -> (r: u32)
        ensures
            r == self@.hi,
    {
        self.hi
    }

    /// The `LO` register.
    pub fn lo_value(&self) -> (r: u32)
        ensures
            r == self@.lo,
    {
        self.lo
    }

    /// The program counter.
    pub fn pc_value(&self) -> (r: u32)
        ensures
            r == self@.pc,
    {
        self.pc
    }

    /// Register setup of the two-ints convention: the two prompted values
    /// in registers 1 and 2, registers 3 through 29 filled with
    /// `TWOINTS_FILL`.
    pub fn init_twoints_registers(&mut self, r1: u32, r2: u32)
        requires
            old(self).wf(),
        ensures
            final(self).wf(),
            final(self)@.registers.len() == 32,
            final(self)@.registers[0] == old(self)@.registers[0],
            final(self)@.registers[1] == r1,
            final(self)@.registers[2] == r2,
            forall|i: int| 3 <= i <= 29 ==> final(self)@.registers[i] == TWOINTS_FILL,
            final(self)@.registers[30] == old(self)@.registers[30],
            final(self)@.registers[31] == old(self)@.registers[31],
            final(self)@ == (EmuView { registers: final(self)@.registers, ..old(self)@ }),
    {
        self.registers[1] = r1;
        self.registers[2] = r2;
        let mut i: usize = 3;
        while i <= 29
            invariant
                3 <= i <= 30,
                self.wf(),
                self@.registers.len() == 32,
                self@.registers[0] == old(self)@.registers[0],
                self@.registers[1] == r1,
                self@.registers[2] == r2,
                forall|j: int| 3 <= j < i ==> self@.registers[j] == TWOINTS_FILL,
                self@.registers[30] == old(self)@.registers[30],
                self@.registers[31] == old(self)@.registers[31],
                self@ == (EmuView { registers: self@.registers, ..old(self)@ }),
            decreases 30 - i,
        {
            self.registers[i] = TWOINTS_FILL;
            i = i + 1;
        }
    }
}

} // verus!

use vstd::arithmetic::div_mod::lemma_small_mod;
use vstd::arithmetic::div_mod::lemma_mod_add_multiples_vanish;
use vstd::arithmetic::div_mod::lemma_add_mod_noop_right;
use vstd::arithmetic::div_mod::lemma_sub_mod_noop;
use vstd::arithmetic::mul::lemma_mul_upper_bound;

verus! {

/// A wrapping 32-bit addition is addition modulo `2^32`.
proof fn lemma_wrap_add(a: u32, b: u32)
    ensures
        vstd::wrapping::u32_specs::wrapping_add(a, b) == wrap32(a + b),
{
    if a + b <= u32::MAX {
        lemma_small_mod((a + b) as nat, 0x100000000);
    } else {
        lemma_mod_add_multiples_vanish(a + b - 0x100000000, 0x100000000);
        lemma_small_mod((a + b - 0x100000000) as nat, 0x100000000);
    }
}

/// A wrapping 64-bit subtraction is subtraction modulo `2^64`.
proof fn lemma_wrap_sub64(a: u64, b: u64)
    ensures
        vstd::wrapping::u64_specs::wrapping_sub(a, b) as int == (a - b) % 0x10000000000000000,
{
    if a >= b {
        lemma_small_mod((a - b) as nat, 0x10000000000000000);
    } else {
        lemma_mod_add_multiples_vanish(a - b, 0x10000000000000000);
        lemma_small_mod((a - b + 0x10000000000000000) as nat, 0x10000000000000000);
    }
}

/// Adding a wrapped multiple of four to the program counter is addition of
/// the exact multiple modulo `2^32`.
proof fn lemma_wrap_addmul(pc: u32, off: u32)
    ensures
        vstd::wrapping::u32_specs::wrapping_add(
            pc,
            vstd::wrapping::u32_specs::wrapping_mul(off, 4),
        ) == wrap32(pc + 4 * off),
{
    let m = 0x100000000 as int;
    let off4 = vstd::wrapping::u32_specs::wrapping_mul(off, 4);
    assert(off4 as int == (off as int * 4) % m);
    lemma_wrap_add(pc, off4);
    lemma_add_mod_noop_right(pc as int, off as int * 4, m);
}

/// The two's-complement representation of a signed product, modulo `2^64`,
/// is the unsigned product with a correcting multiple of `2^32` subtracted
/// for each negative factor.
proof fn lemma_signed_product(x: u32, y: u32)
    ensures
        ({
            let t1 = if x >= 0x80000000 {
                (y as int) * 0x100000000
            } else {
                0
            };
            let t2 = if y >= 0x80000000 {
                (x as int) * 0x100000000
            } else {
                0
            };
            (as_signed(x) * as_signed(y)) % 0x10000000000000000 == (x as int * y as int - t1 - t2)
                % 0x10000000000000000
        }),
{
    let m = 0x10000000000000000 as int;
    let k = 0x100000000 as int;
    if x >= 0x80000000 && y >= 0x80000000 {
        assert((x - k) * (y - k) == x as int * y as int - k * y - k * x + k * k)
            by (nonlinear_arith);
        assert(k * (y as int) == (y as int) * k) by (nonlinear_arith);
        assert(k * (x as int) == (x as int) * k) by (nonlinear_arith);
        lemma_mod_add_multiples_vanish(
            x as int * y as int - (y as int) * k - (x as int) * k,
            m,
        );
    } else if x >= 0x80000000 {
        assert((x - k) * (y as int) == x as int * y as int - k * y) by (nonlinear_arith);
        assert(k * (y as int) == (y as int) * k) by (nonlinear_arith);
    } else if y >= 0x80000000 {
        assert((x as int) * (y - k) == x as int * y as int - (x as int) * k) by (nonlinear_arith);
    }
}

/// Sign-extend a 16-bit immediate to 32 bits.
pub fn sext16(imm: u32) -> (r: u32)
    requires
        imm < 0x10000,
    ensures
        r == sign_ext16(imm),
{
    if imm < 0x8000 {
        imm
    } else {
        imm + 0xffff0000
    }
}

/// The 32-bit two's-complement negation.
fn neg32(v: u32) -> (r: u32)
    ensures
        r == wrap32(0 - v),
{
    if v == 0 {
        proof {
            lemma_small_mod(0, 0x100000000);
        }
        0
    } else {
        proof {
            lemma_mod_add_multiples_vanish(0 - v as int, 0x100000000);
            lemma_small_mod((0x100000000 - v as int) as nat, 0x100000000);
        }
        (0xffffffffu32 - v) + 1
    }
}

impl MipsEmulator {
    /// One step of the machine, exactly as `spec_step` describes it. A step
    /// that reports `NeedInput` or a fault leaves the machine unchanged.
    pub fn step(&mut self) -> (r: StepResult)
        requires
            old(self).wf(),
        ensures
            final(self).wf(),
            ({
                let (v2, rr) = spec_step(old(self)@);
                final(self)@ == v2 && r == rr
            }),
    {
        let ghost orig = old(self)@;
        if self.pc == SENTINEL_PC {
            return StepResult::Halted;
        }
        let saved_pos = self.input_pos;
        let pc0 = self.pc;
        let word = match self.do_read(pc0) {
            ReadOutcome::Read(w) => w,
            ReadOutcome::AwaitInput => {
                return StepResult::NeedInput;
            },
            ReadOutcome::Failed(f) => {
                return StepResult::Fault(f);
            },
        };
        proof {
            crate::instruction::lemma_decode_wf(word);
        }
        let ghost v1 = self@;
        let instruction = Instruction::disassemble(word);
        let npc0 = self.pc.wrapping_add(4);
        proof {
            lemma_wrap_add(v1.pc, 4);
        }
        self.pc = npc0;
        let ghost v2 = self@;
        proof {
            assert(v2 == (EmuView { pc: wrap32(v1.pc + 4), ..v1 }));
            assert(instruction@ == SpecInstruction::spec_decode(word));
        }
        match instruction {
            Instruction::Add { d, s, t } => {
                let a = self.registers[s as usize];
                let b = self.registers[t as usize];
                proof {
                    lemma_wrap_add(a, b);
                }
                self.registers[d as usize] = a.wrapping_add(b);
                StepResult::Executed
            },
            Instruction::Sub { d, s, t } => {
                let a = self.registers[s as usize];
                let b = self.registers[t as usize];
                proof {
                    if a >= b {
                        lemma_small_mod((a - b) as nat, 0x100000000);
                    } else {
                        lemma_mod_add_multiples_vanish(a - b, 0x100000000);
                        lemma_small_mod((a as int - b as int + 0x100000000) as nat, 0x100000000);
                    }
                }
                self.registers[d as usize] = a.wrapping_sub(b);
                StepResult::Executed
            },
            Instruction::Slt { d, s, t } => {
                let a = self.registers[s as usize];
                let b = self.registers[t as usize];
                let sa = a >= 0x80000000;
                let sb = b >= 0x80000000;
                let lt = if sa != sb {
                    sa
                } else {
                    a < b
                };
                self.registers[d as usize] = if lt {
                    1
                } else {
                    0
                };
                StepResult::Executed
            },
            Instruction::Sltu { d, s, t } => {
                let a = self.registers[s as usize];
                let b = self.registers[t as usize];
                self.registers[d as usize] = if a <= b {
                    1
                } else {
                    0
                };
                StepResult::Executed
            },
            Instruction::Mult { s, t } => {
                let x = self.registers[s as usize];
                let y = self.registers[t as usize];
                proof {
                    lemma_mul_upper_bound(x as int, 0xffffffff, y as int, 0xffffffff);
                }
                let pu: u64 = (x as u64) * (y as u64);
                let mut rep: u64 = pu;
                let ghost m64 = 0x10000000000000000 as int;
                let ghost t1 = if x >= 0x80000000 {
                    (y as int) * 0x100000000
                } else {
                    0
                };
                let ghost t2 = if y >= 0x80000000 {
                    (x as int) * 0x100000000
                } else {
                    0
                };
                if x >= 0x80000000 {
                    let sub1 = (y as u64) * 0x100000000;
                    proof {
                        lemma_wrap_sub64(rep, sub1);
                    }
                    rep = rep.wrapping_sub(sub1);
                }
                if y >= 0x80000000 {
                    let sub2 = (x as u64) * 0x100000000;
                    proof {
                        lemma_wrap_sub64(rep, sub2);
                    }
                    rep = rep.wrapping_sub(sub2);
                }
                proof {
                    if x < 0x80000000 && y < 0x80000000 {
                        lemma_small_mod(pu as nat, m64 as nat);
                    }
                    if x >= 0x80000000 && y >= 0x80000000 {
                        lemma_small_mod(pu as nat, m64 as nat);
                        lemma_sub_mod_noop(pu as int - t1, t2, m64);
                        lemma_small_mod(t2 as nat, m64 as nat);
                    }
                    assert(rep as int == (pu as int - t1 - t2) % m64);
                    lemma_signed_product(x, y);
                    assert(rep as int == (as_signed(x) * as_signed(y)) % m64);
                }
                self.hi = (rep / 0x100000000) as u32;
                self.lo = (rep % 0x100000000) as u32;
                StepResult::Executed
            },
            Instruction::Multu { s, t } => {
                let x = self.registers[s as usize];
                let y = self.registers[t as usize];
                proof {
                    lemma_mul_upper_bound(x as int, 0xffffffff, y as int, 0xffffffff);
                }
                let pu: u64 = (x as u64) * (y as u64);
                self.hi = (pu / 0x100000000) as u32;
                self.lo = (pu % 0x100000000) as u32;
                StepResult::Executed
            },
            Instruction::Div { s, t } => {
                let x = self.registers[s as usize];
                let y = self.registers[t as usize];
                if y == 0 {
                    self.input_pos = saved_pos;
                    self.pc = pc0;
                    proof {
                        assert(self@ == orig);
                    }
                    return StepResult::Fault(Fault::DivisionByZero);
                }
                let ax = if x >= 0x80000000 {
                    (0xffffffffu32 - x) + 1
                } else {
                    x
                };
                let ay = if y >= 0x80000000 {
                    (0xffffffffu32 - y) + 1
                } else {
                    y
                };
                let uq = ax / ay;
                let ur = ax % ay;
                proof {
                    lemma_small_mod(uq as nat, 0x100000000);
                    lemma_small_mod(ur as nat, 0x100000000);
                }
                self.lo = if (x >= 0x80000000) != (y >= 0x80000000) {
                    neg32(uq)
                } else {
                    uq
                };
                self.hi = if x >= 0x80000000 {
                    neg32(ur)
                } else {
                    ur
                };
                StepResult::Executed
            },
            Instruction::Divu { s, t } => {
                let x = self.registers[s as usize];
                let y = self.registers[t as usize];
                if y == 0 {
                    self.input_pos = saved_pos;
                    self.pc = pc0;
                    proof {
                        assert(self@ == orig);
                    }
                    return StepResult::Fault(Fault::DivisionByZero);
                }
                self.lo = x / y;
                self.hi = x % y;
                StepResult::Executed
            },
            Instruction::Mfhi { d } => {
                let v = self.hi;
                self.registers[d as usize] = v;
                StepResult::Executed
            },
            Instruction::Mflo { d } => {
                let v = self.lo;
                self.registers[d as usize] = v;
                StepResult::Executed
            },
            Instruction::Lis { d } => {
                let pc1 = self.pc;
                match self.do_read(pc1) {
                    ReadOutcome::Read(x) => {
                        self.registers[d as usize] = x;
                        let cur = self.pc;
                        let npc = cur.wrapping_add(4);
                        proof {
                            lemma_wrap_add(cur, 4);
                        }
                        self.pc = npc;
                        StepResult::Executed
                    },
                    ReadOutcome::AwaitInput => {
                        self.input_pos = saved_pos;
                        self.pc = pc0;
                        proof {
                            assert(self@ == orig);
                        }
                        StepResult::NeedInput
                    },
                    ReadOutcome::Failed(f) => {
                        self.input_pos = saved_pos;
                        self.pc = pc0;
                        proof {
                            assert(self@ == orig);
                        }
                        StepResult::Fault(f)
                    },
                }
            },
            Instruction::Lw { t, i, s } => {
                let base = self.registers[s as usize];
                let off = sext16(i.to_u32());
                let a = base.wrapping_add(off);
                proof {
                    lemma_wrap_add(base, off);
                }
                match self.do_read(a) {
                    ReadOutcome::Read(x) => {
                        self.registers[t as usize] = x;
                        StepResult::Executed
                    },
                    ReadOutcome::AwaitInput => {
                        self.input_pos = saved_pos;
                        self.pc = pc0;
                        proof {
                            assert(self@ == orig);
                        }
                        StepResult::NeedInput
                    },
                    ReadOutcome::Failed(f) => {
                        self.input_pos = saved_pos;
                        self.pc = pc0;
                        proof {
                            assert(self@ == orig);
                        }
                        StepResult::Fault(f)
                    },
                }
            },
            Instruction::Sw { t, i, s } => {
                let base = self.registers[s as usize];
                let off = sext16(i.to_u32());
                let a = base.wrapping_add(off);
                proof {
                    lemma_wrap_add(base, off);
                }
                let val = self.registers[t as usize];
                self.write(a, val);
                StepResult::Executed
            },
            Instruction::Beq { s, t, i } => {
                let imm = i.to_u32();
                if s == t || self.registers[s as usize] == self.registers[t as usize] {
                    let off = sext16(imm);
                    let cur = self.pc;
                    let npc = cur.wrapping_add(off.wrapping_mul(4));
                    proof {
                        lemma_wrap_addmul(cur, off);
                    }
                    self.pc = npc;
                }
                StepResult::Executed
            },
            Instruction::Bne { s, t, i } => {
                let imm = i.to_u32();
                if s != t && self.registers[s as usize] != self.registers[t as usize] {
                    let off = sext16(imm);
                    let cur = self.pc;
                    let npc = cur.wrapping_add(off.wrapping_mul(4));
                    proof {
                        lemma_wrap_addmul(cur, off);
                    }
                    self.pc = npc;
                }
                StepResult::Executed
            },
            Instruction::Jr { s } => {
                let target = self.registers[s as usize];
                self.pc = target;
                StepResult::Executed
            },
            Instruction::Jalr { s } => {
                let target = self.registers[s as usize];
                let ret = self.pc;
                self.registers[31] = ret;
                self.pc = target;
                StepResult::Executed
            },
            Instruction::Word { i: _ } => {
                self.input_pos = saved_pos;
                self.pc = pc0;
                proof {
                    assert(self@ == orig);
                }
                StepResult::Fault(Fault::IllegalInstruction(word))
            },
            Instruction::Noop => {
                self.input_pos = saved_pos;
                self.pc = pc0;
                proof {
                    assert(self@ == orig);
                }
                StepResult::Fault(Fault::IllegalInstruction(word))
            },
        }
    }

    /// Run at most `max_steps` steps, stopping early on a halt, a wait for
    /// input, or a fault.
    pub fn run(&mut self, max_steps: u64) -> (r: RunResult)
        requires
            old(self).wf(),
        ensures
            final(self).wf(),
            ({
                let (v2, rr) = spec_run(old(self)@, max_steps as nat);
                final(self)@ == v2 && r == rr
            }),
    {
        let mut fuel = max_steps;
        while fuel > 0
            invariant
                self.wf(),
                spec_run(old(self)@, max_steps as nat) == spec_run(self@, fuel as nat),
            decreases fuel,
        {
            match self.step() {
                StepResult::Halted => {
                    return RunResult::Halted;
                },
                StepResult::NeedInput => {
                    return RunResult::NeedInput;
                },
                StepResult::Fault(f) => {
                    return RunResult::Fault(f);
                },
                StepResult::Executed => {
                    fuel = fuel - 1;
                },
            }
        }
        RunResult::OutOfSteps
    }
}

/// Halting: a machine about to execute a jump through a register holding
/// the sentinel halts in exactly one step. In particular, a program whose
/// first instruction is `jr $31` (encoded `0x03E00008`), run from the
/// initial state (`PC` 0, register 31 holding the sentinel), executes that
/// one instruction, leaves `PC` at the sentinel, and the next step halts.
pub proof fn lemma_jr31_halts(v: EmuView)
    requires
        v.wf(),
        v.pc == 0,
        v.memory.contains_key(0),
        v.memory[0] == 0x03e00008,
        v.registers[31] == SENTINEL_PC,
    ensures
        spec_step(v).1 == StepResult::Executed,
        spec_step(v).0.pc == SENTINEL_PC,
        spec_step(v).0 == (EmuView { pc: SENTINEL_PC, ..v }),
        spec_step(spec_step(v).0).1 == StepResult::Halted,
        spec_step(spec_step(v).0).0 == spec_step(v).0,
{
    assert(SpecInstruction::spec_decode(0x03e00008) == (SpecInstruction::Jr { s: 31 }));
    lemma_small_mod(4, 0x100000000);
}

} // verus!
