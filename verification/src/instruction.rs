//! The instruction model: one tagged variant per supported opcode, the
//! encoder that produces a 32-bit big-endian machine word for each variant,
//! and the decoder that inverts it.
//!
//! Encoding layout (most significant bit first):
//! - register-format words: `000000 sssss ttttt ddddd 00000 ffffff`,
//! - immediate-format words: `oooooo sssss ttttt iiiiiiiiiiiiiiii`.
//!
//! Fields are packed arithmetically: a field shifted left by `k` bits is the
//! field multiplied by `2^k`, and extraction divides and takes remainders,
//! which keeps all reasoning in ordinary integer arithmetic.

use vstd::prelude::*;
use vstd::arithmetic::div_mod::lemma_fundamental_div_mod_converse;
use vstd::arithmetic::div_mod::lemma_basic_div;
use vstd::arithmetic::div_mod::lemma_small_mod;
use crate::value::Value;
use crate::value::SpecValue;

verus! {

/// One instruction of the supported MIPS32 subset. Immediate operands are
/// `Value`s so that a symbolic reference can sit in them until the resolver
/// replaces it by a literal.
#[derive(Debug, Clone, PartialEq, Eq)]
pub enum Instruction {
    Add { d: u8, s: u8, t: u8 },
    Sub { d: u8, s: u8, t: u8 },
    Slt { d: u8, s: u8, t: u8 },
    Sltu { d: u8, s: u8, t: u8 },
    Mult { s: u8, t: u8 },
    Multu { s: u8, t: u8 },
    Div { s: u8, t: u8 },
    Divu { s: u8, t: u8 },
    Mfhi { d: u8 },
    Mflo { d: u8 },
    Lis { d: u8 },
    Lw { t: u8, i: Value, s: u8 },
    Sw { t: u8, i: Value, s: u8 },
    Beq { s: u8, t: u8, i: Value },
    Bne { s: u8, t: u8, i: Value },
    Jr { s: u8 },
    Jalr { s: u8 },
    Word { i: Value },
    Noop,
}

/// The mathematical model of an `Instruction`, with operands modelled as
/// `SpecValue`s.
pub enum SpecInstruction {
    Add { d: u8, s: u8, t: u8 },
    Sub { d: u8, s: u8, t: u8 },
    Slt { d: u8, s: u8, t: u8 },
    Sltu { d: u8, s: u8, t: u8 },
    Mult { s: u8, t: u8 },
    Multu { s: u8, t: u8 },
    Div { s: u8, t: u8 },
    Divu { s: u8, t: u8 },
    Mfhi { d: u8 },
    Mflo { d: u8 },
    Lis { d: u8 },
    Lw { t: u8, i: SpecValue, s: u8 },
    Sw { t: u8, i: SpecValue, s: u8 },
    Beq { s: u8, t: u8, i: SpecValue },
    Bne { s: u8, t: u8, i: SpecValue },
    Jr { s: u8 },
    Jalr { s: u8 },
    Word { i: SpecValue },
    Noop,
}

impl View for Instruction {
    type V = SpecInstruction;

    open spec fn view(&self) -> SpecInstruction {
        match self {
            Instruction::Add { d, s, t } => SpecInstruction::Add { d: *d, s: *s, t: *t },
            Instruction::Sub { d, s, t } => SpecInstruction::Sub { d: *d, s: *s, t: *t },
            Instruction::Slt { d, s, t } => SpecInstruction::Slt { d: *d, s: *s, t: *t },
            Instruction::Sltu { d, s, t } => SpecInstruction::Sltu { d: *d, s: *s, t: *t },
            Instruction::Mult { s, t } => SpecInstruction::Mult { s: *s, t: *t },
            Instruction::Multu { s, t } => SpecInstruction::Multu { s: *s, t: *t },
            Instruction::Div { s, t } => SpecInstruction::Div { s: *s, t: *t },
            Instruction::Divu { s, t } => SpecInstruction::Divu { s: *s, t: *t },
            Instruction::Mfhi { d } => SpecInstruction::Mfhi { d: *d },
            Instruction::Mflo { d } => SpecInstruction::Mflo { d: *d },
            Instruction::Lis { d } => SpecInstruction::Lis { d: *d },
            Instruction::Lw { t, i, s } => SpecInstruction::Lw { t: *t, i: i@, s: *s },
            Instruction::Sw { t, i, s } => SpecInstruction::Sw { t: *t, i: i@, s: *s },
            Instruction::Beq { s, t, i } => SpecInstruction::Beq { s: *s, t: *t, i: i@ },
            Instruction::Bne { s, t, i } => SpecInstruction::Bne { s: *s, t: *t, i: i@ },
            Instruction::Jr { s } => SpecInstruction::Jr { s: *s },
            Instruction::Jalr { s } => SpecInstruction::Jalr { s: *s },
            Instruction::Word { i } => SpecInstruction::Word { i: i@ },
            Instruction::Noop => SpecInstruction::Noop,
        }
    }
}

/// A 16-bit immediate operand is well formed when any literal in it has
/// already been masked to its low 16 bits.
pub open spec fn imm16_ok(v: SpecValue) -> bool {
    match v {
        SpecValue::Literal(n) => n < 0x10000,
        SpecValue::Label(_) => true,
    }
}

impl SpecInstruction {
    /// Well-formedness: register fields name one of the 32 registers. The
    /// parser only builds such values.
    pub open spec fn wf(self) -> bool {
        match self {
            SpecInstruction::Add { d, s, t } => d < 32 && s < 32 && t < 32,
            SpecInstruction::Sub { d, s, t } => d < 32 && s < 32 && t < 32,
            SpecInstruction::Slt { d, s, t } => d < 32 && s < 32 && t < 32,
            SpecInstruction::Sltu { d, s, t } => d < 32 && s < 32 && t < 32,
            SpecInstruction::Mult { s, t } => s < 32 && t < 32,
            SpecInstruction::Multu { s, t } => s < 32 && t < 32,
            SpecInstruction::Div { s, t } => s < 32 && t < 32,
            SpecInstruction::Divu { s, t } => s < 32 && t < 32,
            SpecInstruction::Mfhi { d } => d < 32,
            SpecInstruction::Mflo { d } => d < 32,
            SpecInstruction::Lis { d } => d < 32,
            SpecInstruction::Lw { t, i: _, s } => t < 32 && s < 32,
            SpecInstruction::Sw { t, i: _, s } => t < 32 && s < 32,
            SpecInstruction::Beq { s, t, i: _ } => s < 32 && t < 32,
            SpecInstruction::Bne { s, t, i: _ } => s < 32 && t < 32,
            SpecInstruction::Jr { s } => s < 32,
            SpecInstruction::Jalr { s } => s < 32,
            SpecInstruction::Word { i: _ } => true,
            SpecInstruction::Noop => true,
        }
    }

    /// Whether every 16-bit immediate of the instruction already fits in 16
    /// bits. The parser masks immediates, so parsed instructions satisfy
    /// this; the resolver may put a full absolute address into `lw`/`sw`,
    /// which the encoder then masks.
    pub open spec fn imm_masked(self) -> bool {
        match self {
            SpecInstruction::Lw { t: _, i, s: _ } => imm16_ok(i),
            SpecInstruction::Sw { t: _, i, s: _ } => imm16_ok(i),
            SpecInstruction::Beq { s: _, t: _, i } => imm16_ok(i),
            SpecInstruction::Bne { s: _, t: _, i } => imm16_ok(i),
            _ => true,
        }
    }

    /// An instruction is resolved when no symbolic operand is left in it;
    /// only resolved instructions can be encoded.
    pub open spec fn resolved(self) -> bool {
        match self {
            SpecInstruction::Lw { t: _, i, s: _ } => i.is_literal(),
            SpecInstruction::Sw { t: _, i, s: _ } => i.is_literal(),
            SpecInstruction::Beq { s: _, t: _, i } => i.is_literal(),
            SpecInstruction::Bne { s: _, t: _, i } => i.is_literal(),
            SpecInstruction::Word { i } => i.is_literal(),
            _ => true,
        }
    }

    /// The machine word this instruction encodes to. `Noop` produces no
    /// output word and is never encoded.
    pub open spec fn spec_encode(self) -> u32
        recommends
            self.wf(),
            self.resolved(),
            !(self is Noop),
    {
        match self {
            SpecInstruction::Add { d, s, t } => spec_std_word(s, t, d, 0x20),
            SpecInstruction::Sub { d, s, t } => spec_std_word(s, t, d, 0x22),
            SpecInstruction::Slt { d, s, t } => spec_std_word(s, t, d, 0x2a),
            SpecInstruction::Sltu { d, s, t } => spec_std_word(s, t, d, 0x2b),
            SpecInstruction::Mult { s, t } => spec_std_word(s, t, 0, 0x18),
            SpecInstruction::Multu { s, t } => spec_std_word(s, t, 0, 0x19),
            SpecInstruction::Div { s, t } => spec_std_word(s, t, 0, 0x1a),
            SpecInstruction::Divu { s, t } => spec_std_word(s, t, 0, 0x1b),
            SpecInstruction::Mfhi { d } => spec_std_word(0, 0, d, 0x10),
            SpecInstruction::Mflo { d } => spec_std_word(0, 0, d, 0x12),
            SpecInstruction::Lis { d } => spec_std_word(0, 0, d, 0x14),
            SpecInstruction::Lw { t, i, s } => spec_sti_word(0x23, s, t, i.spec_literal()),
            SpecInstruction::Sw { t, i, s } => spec_sti_word(0x2b, s, t, i.spec_literal()),
            SpecInstruction::Beq { s, t, i } => spec_sti_word(0x04, s, t, i.spec_literal()),
            SpecInstruction::Bne { s, t, i } => spec_sti_word(0x05, s, t, i.spec_literal()),
            SpecInstruction::Jr { s } => spec_sti_word(0x00, s, 0, 0x08),
            SpecInstruction::Jalr { s } => spec_sti_word(0x00, s, 0, 0x09),
            SpecInstruction::Word { i } => i.spec_literal(),
            SpecInstruction::Noop => 0,
        }
    }

    /// The instruction a machine word decodes to. Dispatch is on the top six
    /// bits; when those are zero, on the bottom six. Any unrecognized
    /// pattern becomes a raw `.word`.
    pub open spec fn spec_decode(w: u32) -> SpecInstruction {
        let op = w as int / 0x4000000;
        let func = w as int % 0x40;
        let s = ((w as int / 0x200000) % 0x20) as u8;
        let t = ((w as int / 0x10000) % 0x20) as u8;
        let d = ((w as int / 0x800) % 0x20) as u8;
        let i = SpecValue::Literal((w as int % 0x10000) as u32);
        if op == 0x23 {
            SpecInstruction::Lw { t, i, s }
        } else if op == 0x2b {
            SpecInstruction::Sw { t, i, s }
        } else if op == 0x04 {
            SpecInstruction::Beq { s, t, i }
        } else if op == 0x05 {
            SpecInstruction::Bne { s, t, i }
        } else if op == 0x00 {
            if func == 0x20 {
                SpecInstruction::Add { s, t, d }
            } else if func == 0x22 {
                SpecInstruction::Sub { s, t, d }
            } else if func == 0x18 {
                SpecInstruction::Mult { s, t }
            } else if func == 0x19 {
                SpecInstruction::Multu { s, t }
            } else if func == 0x1a {
                SpecInstruction::Div { s, t }
            } else if func == 0x1b {
                SpecInstruction::Divu { s, t }
            } else if func == 0x10 {
                SpecInstruction::Mfhi { d }
            } else if func == 0x12 {
                SpecInstruction::Mflo { d }
            } else if func == 0x14 {
                SpecInstruction::Lis { d }
            } else if func == 0x2a {
                SpecInstruction::Slt { d, s, t }
            } else if func == 0x2b {
                SpecInstruction::Sltu { d, s, t }
            } else if func == 0x08 {
                SpecInstruction::Jr { s }
            } else if func == 0x09 {
                SpecInstruction::Jalr { s }
            } else {
                SpecInstruction::Word { i: SpecValue::Literal(w) }
            }
        } else {
            SpecInstruction::Word { i: SpecValue::Literal(w) }
        }
    }
}

impl Instruction {
    /// Encode one resolved instruction as its machine word.
    pub fn assemble(&self) -> (w: u32)
        requires
            self@.wf(),
            self@.resolved(),
            !(self@ is Noop),
        ensures
            w == self@.spec_encode(),
    {
        match self {
            Instruction::Add { d, s, t } => std_word(*s, *t, *d, 0x20),
            Instruction::Sub { d, s, t } => std_word(*s, *t, *d, 0x22),
            Instruction::Slt { d, s, t } => std_word(*s, *t, *d, 0x2a),
            Instruction::Sltu { d, s, t } => std_word(*s, *t, *d, 0x2b),
            Instruction::Mult { s, t } => std_word(*s, *t, 0, 0x18),
            Instruction::Multu { s, t } => std_word(*s, *t, 0, 0x19),
            Instruction::Div { s, t } => std_word(*s, *t, 0, 0x1a),
            Instruction::Divu { s, t } => std_word(*s, *t, 0, 0x1b),
            Instruction::Mfhi { d } => std_word(0, 0, *d, 0x10),
            Instruction::Mflo { d } => std_word(0, 0, *d, 0x12),
            Instruction::Lis { d } => std_word(0, 0, *d, 0x14),
            Instruction::Lw { t, i, s } => sti_word(0x23, *s, *t, i.to_u32()),
            Instruction::Sw { t, i, s } => sti_word(0x2b, *s, *t, i.to_u32()),
            Instruction::Beq { s, t, i } => sti_word(0x04, *s, *t, i.to_u32()),
            Instruction::Bne { s, t, i } => sti_word(0x05, *s, *t, i.to_u32()),
            Instruction::Jr { s } => sti_word(0x00, *s, 0, 0x08),
            Instruction::Jalr { s } => sti_word(0x00, *s, 0, 0x09),
            Instruction::Word { i } => i.to_u32(),
            Instruction::Noop => 0,
        }
    }

    /// Decode one machine word back into an instruction.
    pub fn disassemble(word: u32) -> (ins: Instruction)
        ensures
            ins@ == SpecInstruction::spec_decode(word),
    {
        let first_opcode = word / 0x4000000;
        let second_opcode = word % 0x40;
        let s = ((word / 0x200000) % 0x20) as u8;
        let t = ((word / 0x10000) % 0x20) as u8;
        let d = ((word / 0x800) % 0x20) as u8;
        let i = Value::Literal(word % 0x10000);
        if first_opcode == 0x23 {
            Instruction::Lw { t, i, s }
        } else if first_opcode == 0x2b {
            Instruction::Sw { t, i, s }
        } else if first_opcode == 0x04 {
            Instruction::Beq { s, t, i }
        } else if first_opcode == 0x05 {
            Instruction::Bne { s, t, i }
        } else if first_opcode == 0x00 {
            if second_opcode == 0x20 {
                Instruction::Add { s, t, d }
            } else if second_opcode == 0x22 {
                Instruction::Sub { s, t, d }
            } else if second_opcode == 0x18 {
                Instruction::Mult { s, t }
            } else if second_opcode == 0x19 {
                Instruction::Multu { s, t }
            } else if second_opcode == 0x1a {
                Instruction::Div { s, t }
            } else if second_opcode == 0x1b {
                Instruction::Divu { s, t }
            } else if second_opcode == 0x10 {
                Instruction::Mfhi { d }
            } else if second_opcode == 0x12 {
                Instruction::Mflo { d }
            } else if second_opcode == 0x14 {
                Instruction::Lis { d }
            } else if second_opcode == 0x2a {
                Instruction::Slt { d, s, t }
            } else if second_opcode == 0x2b {
                Instruction::Sltu { d, s, t }
            } else if second_opcode == 0x08 {
                Instruction::Jr { s }
            } else if second_opcode == 0x09 {
                Instruction::Jalr { s }
            } else {
                Instruction::Word { i: Value::Literal(word) }
            }
        } else {
            Instruction::Word { i: Value::Literal(word) }
        }
    }

    /// Whether this instruction is the no-output `noop`.
    pub fn is_noop(&self) -> (b: bool)
        ensures
            b == (self@ is Noop),
    {
        match self {
            Instruction::Noop => true,
            _ => false,
        }
    }
}

/// The word value of a register-format instruction: fields packed at bit
/// positions 21, 16 and 11 above a six-bit function code.
pub open spec fn spec_std_word(s: u8, t: u8, d: u8, opcode: u16) -> u32
    recommends
        s < 32,
        t < 32,
        d < 32,
        opcode < 0x800,
{
    (s as int * 0x200000 + t as int * 0x10000 + d as int * 0x800 + opcode as int) as u32
}

/// The word value of an immediate-format instruction: six-bit opcode above
/// two register fields and a 16-bit immediate.
pub open spec fn spec_sti_word(opcode: u8, s: u8, t: u8, i: u32) -> u32
    recommends
        opcode < 0x40,
        s < 32,
        t < 32,
{
    (opcode as int * 0x4000000 + s as int * 0x200000 + t as int * 0x10000 + i as int
        % 0x10000) as u32
}

/// Pack a register-format word.
pub fn std_word(s: u8, t: u8, d: u8, opcode: u16) -> (w: u32)
    requires
        s < 32,
        t < 32,
        d < 32,
        opcode < 0x800,
    ensures
        w == spec_std_word(s, t, d, opcode),
{
    (s as u32) * 0x200000 + (t as u32) * 0x10000 + (d as u32) * 0x800 + (opcode as u32)
}

/// Pack an immediate-format word; the immediate is masked to 16 bits.
pub fn sti_word(opcode: u8, s: u8, t: u8, i: u32) -> (w: u32)
    requires
        opcode < 0x40,
        s < 32,
        t < 32,
    ensures
        w == spec_sti_word(opcode, s, t, i),
{
    (opcode as u32) * 0x4000000 + (s as u32) * 0x200000 + (t as u32) * 0x10000 + i % 0x10000
}

/// Splitting a sum `a * k + b` with `0 <= b < k` recovers `a` by division
/// and `b` as the remainder.
proof fn lemma_split(a: int, b: int, k: int)
    requires
        k > 0,
        0 <= a,
        0 <= b < k,
    ensures
        (a * k + b) / k == a,
        (a * k + b) % k == b,
{
    lemma_fundamental_div_mod_converse(a * k + b, k, a, b);
}

/// Field extraction from a register-format word recovers every field.
proof fn lemma_std_fields(s: u8, t: u8, d: u8, func: u16)
    requires
        s < 32,
        t < 32,
        d < 32,
        func < 0x40,
    ensures
        spec_std_word(s, t, d, func) as int / 0x4000000 == 0,
        spec_std_word(s, t, d, func) as int % 0x40 == func,
        (spec_std_word(s, t, d, func) as int / 0x200000) % 0x20 == s,
        (spec_std_word(s, t, d, func) as int / 0x10000) % 0x20 == t,
        (spec_std_word(s, t, d, func) as int / 0x800) % 0x20 == d,
{
    let w = spec_std_word(s, t, d, func) as int;
    assert(w == s as int * 0x200000 + t as int * 0x10000 + d as int * 0x800 + func as int);
    lemma_basic_div(w, 0x4000000);
    assert(w == (s as int * 0x8000 + t as int * 0x400 + d as int * 0x20) * 0x40 + func as int);
    lemma_split(s as int * 0x8000 + t as int * 0x400 + d as int * 0x20, func as int, 0x40);
    assert(w == s as int * 0x200000 + (t as int * 0x10000 + d as int * 0x800 + func as int));
    lemma_split(s as int, t as int * 0x10000 + d as int * 0x800 + func as int, 0x200000);
    lemma_small_mod(s as nat, 0x20);
    assert(w == (s as int * 0x20 + t as int) * 0x10000 + (d as int * 0x800 + func as int));
    lemma_split(s as int * 0x20 + t as int, d as int * 0x800 + func as int, 0x10000);
    lemma_split(s as int, t as int, 0x20);
    assert(w == (s as int * 0x400 + t as int * 0x20 + d as int) * 0x800 + func as int);
    lemma_split(s as int * 0x400 + t as int * 0x20 + d as int, func as int, 0x800);
    lemma_split(s as int * 0x20 + t as int, d as int, 0x20);
}

/// Field extraction from an immediate-format word recovers every field.
proof fn lemma_sti_fields(opcode: u8, s: u8, t: u8, i: u32)
    requires
        opcode < 0x40,
        s < 32,
        t < 32,
    ensures
        spec_sti_word(opcode, s, t, i) as int / 0x4000000 == opcode,
        (spec_sti_word(opcode, s, t, i) as int / 0x200000) % 0x20 == s,
        (spec_sti_word(opcode, s, t, i) as int / 0x10000) % 0x20 == t,
        spec_sti_word(opcode, s, t, i) as int % 0x10000 == i as int % 0x10000,
{
    let low = i as int % 0x10000;
    lemma_small_mod((i % 0x10000) as nat, 0x10000);
    assert(0 <= low < 0x10000);
    let w = spec_sti_word(opcode, s, t, i) as int;
    assert(w == opcode as int * 0x4000000 + s as int * 0x200000 + t as int * 0x10000 + low);
    lemma_split(opcode as int, s as int * 0x200000 + t as int * 0x10000 + low, 0x4000000);
    assert(w == (opcode as int * 0x20 + s as int) * 0x200000 + (t as int * 0x10000 + low));
    lemma_split(opcode as int * 0x20 + s as int, t as int * 0x10000 + low, 0x200000);
    lemma_split(opcode as int, s as int, 0x20);
    assert(w == (opcode as int * 0x400 + s as int * 0x20 + t as int) * 0x10000 + low);
    lemma_split(opcode as int * 0x400 + s as int * 0x20 + t as int, low, 0x10000);
    lemma_split(opcode as int * 0x20 + s as int, t as int, 0x20);
}

/// Encoding round-trip: decoding the word an instruction encodes to gives
/// back the instruction, for every well-formed resolved instruction other
/// than a raw `.word` (whose bit pattern may coincide with a real opcode)
/// and `noop` (which is never encoded).
pub proof fn lemma_encode_decode_roundtrip(ins: SpecInstruction)
    requires
        ins.wf(),
        ins.imm_masked(),
        ins.resolved(),
        !(ins is Noop),
        !(ins is Word),
    ensures
        SpecInstruction::spec_decode(ins.spec_encode()) == ins,
{
    match ins {
        SpecInstruction::Add { d, s, t } => lemma_std_fields(s, t, d, 0x20),
        SpecInstruction::Sub { d, s, t } => lemma_std_fields(s, t, d, 0x22),
        SpecInstruction::Slt { d, s, t } => lemma_std_fields(s, t, d, 0x2a),
        SpecInstruction::Sltu { d, s, t } => lemma_std_fields(s, t, d, 0x2b),
        SpecInstruction::Mult { s, t } => lemma_std_fields(s, t, 0, 0x18),
        SpecInstruction::Multu { s, t } => lemma_std_fields(s, t, 0, 0x19),
        SpecInstruction::Div { s, t } => lemma_std_fields(s, t, 0, 0x1a),
        SpecInstruction::Divu { s, t } => lemma_std_fields(s, t, 0, 0x1b),
        SpecInstruction::Mfhi { d } => lemma_std_fields(0, 0, d, 0x10),
        SpecInstruction::Mflo { d } => lemma_std_fields(0, 0, d, 0x12),
        SpecInstruction::Lis { d } => lemma_std_fields(0, 0, d, 0x14),
        SpecInstruction::Lw { t, i, s } => {
            lemma_sti_fields(0x23, s, t, i.spec_literal());
            lemma_small_mod(i.spec_literal() as nat, 0x10000);
        },
        SpecInstruction::Sw { t, i, s } => {
            lemma_sti_fields(0x2b, s, t, i.spec_literal());
            lemma_small_mod(i.spec_literal() as nat, 0x10000);
        },
        SpecInstruction::Beq { s, t, i } => {
            lemma_sti_fields(0x04, s, t, i.spec_literal());
            lemma_small_mod(i.spec_literal() as nat, 0x10000);
        },
        SpecInstruction::Bne { s, t, i } => {
            lemma_sti_fields(0x05, s, t, i.spec_literal());
            lemma_small_mod(i.spec_literal() as nat, 0x10000);
        },
        SpecInstruction::Jr { s } => {
            assert(spec_sti_word(0x00, s, 0, 0x08) == spec_std_word(s, 0, 0, 0x08));
            lemma_std_fields(s, 0, 0, 0x08);
        },
        SpecInstruction::Jalr { s } => {
            assert(spec_sti_word(0x00, s, 0, 0x09) == spec_std_word(s, 0, 0, 0x09));
            lemma_std_fields(s, 0, 0, 0x09);
        },
        _ => {},
    }
}

/// Whenever a word decodes to a raw `.word`, the payload is the word
/// itself, so the round-trip holds for `.word` directives exactly on the
/// words that match no real opcode pattern.
pub proof fn lemma_word_roundtrip(n: u32)
    requires
        SpecInstruction::spec_decode(n) is Word,
    ensures
        SpecInstruction::spec_decode(
            (SpecInstruction::Word { i: SpecValue::Literal(n) }).spec_encode(),
        ) == (SpecInstruction::Word { i: SpecValue::Literal(n) }),
{
}

/// Every decoded instruction is well formed, resolved, and not a `noop`.
pub proof fn lemma_decode_wf(w: u32)
    ensures
        SpecInstruction::spec_decode(w).wf(),
        SpecInstruction::spec_decode(w).resolved(),
        !(SpecInstruction::spec_decode(w) is Noop),
{
}

} // verus!
