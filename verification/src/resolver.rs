//! The two-pass symbol resolver. Pass one walks the lines with a running
//! byte address, binding every label to the address of the instruction it
//! prefixes; pass two substitutes the bound addresses for symbolic operands
//! (PC-relative for branches) and drops the `noop` lines.

use vstd::prelude::*;
use crate::error::AsmError;
use crate::error::SpecAsmError;
use crate::parser::Line;
use crate::parser::SpecLine;
use crate::parser::copy_bytes;
use crate::parser::line_views;

verus! {

// ---------------------------------------------------------------------------
// The symbol table: label name -> word-aligned byte address, keys unique.
// ---------------------------------------------------------------------------

/// The map described by an association list, later entries taking
/// precedence (pass one never binds a key twice, so this never matters).
pub open spec fn entries_map(es: Seq<(Vec<u8>, u32)>) -> Map<Seq<u8>, u32>
    decreases es.len(),
{
    if es.len() == 0 {
        Map::empty()
    } else {
        entries_map(es.drop_last()).insert(es.last().0@, es.last().1)
    }
}

/// A key is in the map exactly when some entry holds it.
proof fn lemma_entries_map_contains(es: Seq<(Vec<u8>, u32)>, n: Seq<u8>)
    ensures
        entries_map(es).contains_key(n) <==> exists|i: int| 0 <= i < es.len() && es[i].0@ == n,
    decreases es.len(),
{
    if es.len() > 0 {
        lemma_entries_map_contains(es.drop_last(), n);
        if es.last().0@ == n {
            assert(es[es.len() - 1].0@ == n);
        } else {
            if entries_map(es).contains_key(n) {
                let i = choose|i: int| 0 <= i < es.drop_last().len() && es.drop_last()[i].0@ == n;
                assert(es[i].0@ == n);
            }
            if exists|i: int| 0 <= i < es.len() && es[i].0@ == n {
                let i = choose|i: int| 0 <= i < es.len() && es[i].0@ == n;
                assert(es.drop_last()[i].0@ == n);
            }
        }
    }
}

/// An entry whose key no later entry repeats gives the key's value.
proof fn lemma_entries_map_value(es: Seq<(Vec<u8>, u32)>, i: int)
    requires
        0 <= i < es.len(),
        forall|j: int| i < j < es.len() ==> es[j].0@ != es[i].0@,
    ensures
        entries_map(es).contains_key(es[i].0@),
        entries_map(es)[es[i].0@] == es[i].1,
    decreases es.len(),
{
    if i < es.len() - 1 {
        assert(es.drop_last()[i] == es[i]);
        lemma_entries_map_value(es.drop_last(), i);
    }
}

/// The label-to-address map built by pass one. Keys are unique and every
/// address is word-aligned.
pub struct SymbolTable {
    entries: Vec<(Vec<u8>, u32)>,
}

impl View for SymbolTable {
    type V = Map<Seq<u8>, u32>;

    closed spec fn view(&self) -> Map<Seq<u8>, u32> {
        entries_map(self.entries@)
    }
}

impl SymbolTable {
    /// Keys are unique and every bound address is word-aligned.
    pub closed spec fn wf(&self) -> bool {
        &&& forall|i: int, j: int|
            0 <= i < j < self.entries@.len() ==> self.entries@[i].0@ != self.entries@[j].0@
        &&& forall|i: int|
            0 <= i < self.entries@.len() ==> #[trigger] self.entries@[i].1 % 4 == 0
    }

    /// Every address a well-formed table binds is word-aligned.
    pub proof fn lemma_wf_aligned(&self, n: Seq<u8>)
        requires
            self.wf(),
            self@.contains_key(n),
        ensures
            self@[n] % 4 == 0,
    {
        lemma_entries_map_contains(self.entries@, n);
        let i = choose|i: int| 0 <= i < self.entries@.len() && self.entries@[i].0@ == n;
        lemma_entries_map_value(self.entries@, i);
    }

    /// Whether `name` is bound.
    pub fn contains(&self, name: &Vec<u8>) -> (r: bool)
        ensures
            r == self@.contains_key(name@),
    {
        let mut k: usize = 0;
        while k < self.entries.len()
            invariant
                k <= self.entries@.len(),
                forall|j: int| 0 <= j < k ==> self.entries@[j].0@ != name@,
            decreases self.entries@.len() - k,
        {
            if bytes_eq(&self.entries[k].0, name) {
                proof {
                    lemma_entries_map_contains(self.entries@, name@);
                }
                return true;
            }
            k = k + 1;
        }
        proof {
            lemma_entries_map_contains(self.entries@, name@);
        }
        false
    }

    /// The address bound to `name`, if any.
    pub fn lookup(&self, name: &Vec<u8>) -> (r: Option<u32>)
        requires
            self.wf(),
        ensures
            match r {
                Some(v) => self@.contains_key(name@) && v == self@[name@],
                None => !self@.contains_key(name@),
            },
    {
        let mut k: usize = 0;
        while k < self.entries.len()
            invariant
                self.wf(),
                k <= self.entries@.len(),
                forall|j: int| 0 <= j < k ==> self.entries@[j].0@ != name@,
            decreases self.entries@.len() - k,
        {
            if bytes_eq(&self.entries[k].0, name) {
                proof {
                    lemma_entries_map_value(self.entries@, k as int);
                }
                return Some(self.entries[k].1);
            }
            k = k + 1;
        }
        proof {
            lemma_entries_map_contains(self.entries@, name@);
        }
        None
    }
}

/// Byte-vector equality.
fn bytes_eq(a: &Vec<u8>, b: &Vec<u8>) -> (r: bool)
    ensures
        r == (a@ == b@),
{
    if a.len() != b.len() {
        return false;
    }
    let mut k: usize = 0;
    while k < a.len()
        invariant
            k <= a@.len(),
            a@.len() == b@.len(),
            forall|j: int| 0 <= j < k ==> a@[j] == b@[j],
        decreases a@.len() - k,
    {
        if a[k] != b[k] {
            return false;
        }
        k = k + 1;
    }
    proof {
        assert(a@ =~= b@);
    }
    true
}

// ---------------------------------------------------------------------------
// Pass one: addressing.
// ---------------------------------------------------------------------------

/// How many lines of `lines` produce an output word (are not `noop`).
pub open spec fn count_code(lines: Seq<SpecLine>) -> int
    decreases lines.len(),
{
    if lines.len() == 0 {
        0
    } else {
        count_code(lines.drop_last()) + if lines.last().instruction is Noop {
            0int
        } else {
            1int
        }
    }
}

/// The code count lies between 0 and the number of lines.
pub proof fn lemma_count_code_bounds(lines: Seq<SpecLine>)
    ensures
        0 <= count_code(lines) <= lines.len(),
    decreases lines.len(),
{
    if lines.len() > 0 {
        lemma_count_code_bounds(lines.drop_last());
    }
}

/// Bind every label of one line to the line's address; a label bound twice
/// is fatal.
pub open spec fn spec_bind_labels(
    labels: Seq<Seq<u8>>,
    j: int,
    addr: u32,
    m: Map<Seq<u8>, u32>,
) -> Result<Map<Seq<u8>, u32>, SpecAsmError>
    decreases labels.len() - j,
{
    if j < 0 || j >= labels.len() {
        Ok(m)
    } else if m.contains_key(labels[j]) {
        Err(SpecAsmError::DuplicateLabel(labels[j]))
    } else {
        spec_bind_labels(labels, j + 1, addr, m.insert(labels[j], addr))
    }
}

/// Pass one from line `k` on: every label of a line is bound to the running
/// byte address as it stands at that line; a non-`noop` line then advances
/// the address by four.
pub open spec fn spec_pass1(lines: Seq<SpecLine>, k: int, addr: u32, m: Map<Seq<u8>, u32>) -> Result<
    Map<Seq<u8>, u32>,
    SpecAsmError,
>
    decreases lines.len() - k,
{
    if k < 0 || k >= lines.len() {
        Ok(m)
    } else {
        match spec_bind_labels(lines[k].labels, 0, addr, m) {
            Err(e) => Err(e),
            Ok(m2) => {
                let addr2 = if lines[k].instruction is Noop {
                    addr
                } else {
                    ((addr + 4) as u32)
                };
                spec_pass1(lines, k + 1, addr2, m2)
            },
        }
    }
}

/// Pass one over a whole program. The length bound keeps every byte address
/// within one 32-bit word, as the architecture requires.
pub fn extract_label_locations(lines: &Vec<Line>) -> (r: Result<SymbolTable, AsmError>)
    requires
        lines@.len() <= 0x3FFFFFFF,
    ensures
        ({
            let sr = spec_pass1(line_views(lines@), 0, 0, Map::empty());
            match r {
                Ok(st) => st.wf() && sr == Ok::<Map<Seq<u8>, u32>, SpecAsmError>(st@),
                Err(e) => sr == Err::<Map<Seq<u8>, u32>, SpecAsmError>(e@),
            }
        }),
{
    let ghost ls = line_views(lines@);
    let mut st = SymbolTable { entries: Vec::new() };
    let mut addr: u32 = 0;
    let mut k: usize = 0;
    proof {
        assert(ls.take(0) =~= Seq::<SpecLine>::empty());
    }
    while k < lines.len()
        invariant
            k <= lines@.len(),
            lines@.len() <= 0x3FFFFFFF,
            ls == line_views(lines@),
            st.wf(),
            addr == 4 * count_code(ls.take(k as int)),
            spec_pass1(ls, 0, 0, Map::empty()) == spec_pass1(ls, k as int, addr, st@),
        decreases lines@.len() - k,
    {
        proof {
            lemma_count_code_bounds(ls.take(k as int));
        }
        let line = &lines[k];
        proof {
            assert(ls[k as int] == lines@[k as int]@);
        }
        let ghost m_entry = st@;
        proof {
            vstd::arithmetic::div_mod::lemma_mod_multiples_vanish(
                count_code(ls.take(k as int)),
                0,
                4,
            );
        }
        let mut j: usize = 0;
        while j < line.labels.len()
            invariant
                j <= line.labels@.len(),
                st.wf(),
                addr % 4 == 0,
                k < lines@.len(),
                lines@.len() <= 0x3FFFFFFF,
                ls == line_views(lines@),
                addr == 4 * count_code(ls.take(k as int)),
                ls[k as int].labels == crate::parser::seq_views(line.labels@),
                spec_pass1(ls, 0, 0, Map::empty()) == spec_pass1(ls, k as int, addr, m_entry),
                spec_bind_labels(ls[k as int].labels, 0, addr, m_entry) == spec_bind_labels(
                    ls[k as int].labels,
                    j as int,
                    addr,
                    st@,
                ),
            decreases line.labels@.len() - j,
        {
            let label = &line.labels[j];
            proof {
                assert(ls[k as int].labels[j as int] == label@);
            }
            if st.contains(label) {
                return Err(AsmError::DuplicateLabel(copy_bytes(label)));
            }
            proof {
                lemma_entries_map_contains(st.entries@, label@);
            }
            let ghost prev = st.entries@;
            st.entries.push((copy_bytes(label), addr));
            proof {
                assert(st.entries@.drop_last() =~= prev);
                assert(st@ == entries_map(prev).insert(label@, addr));
                assert forall|a: int, b: int|
                    0 <= a < b < st.entries@.len() implies st.entries@[a].0@
                    != st.entries@[b].0@ by {
                    if b == st.entries@.len() - 1 {
                        lemma_entries_map_contains(prev, st.entries@[a].0@);
                    }
                }
            }
            j = j + 1;
        }
        let ghost m_bound = st@;
        proof {
            assert(spec_bind_labels(ls[k as int].labels, j as int, addr, m_bound) == Ok::<
                Map<Seq<u8>, u32>,
                SpecAsmError,
            >(m_bound));
        }
        if !line.instruction.is_noop() {
            proof {
                lemma_count_code_bounds(ls.take(k as int));
                assert(ls.take(k as int).len() == k as int);
            }
            addr = addr + 4;
        }
        proof {
            assert(ls.take(k as int + 1).drop_last() =~= ls.take(k as int));
            assert(ls.take(k as int + 1).last() == ls[k as int]);
        }
        k = k + 1;
    }
    proof {
        assert(ls.take(k as int) =~= ls);
    }
    Ok(st)
}

} // verus!

use crate::value::Value;
use crate::value::SpecValue;
use crate::instruction::Instruction;
use crate::instruction::SpecInstruction;
use vstd::arithmetic::div_mod::lemma_fundamental_div_mod;
use vstd::arithmetic::div_mod::lemma_fundamental_div_mod_converse;
use vstd::arithmetic::div_mod::lemma_mod_multiples_vanish;

verus! {

// ---------------------------------------------------------------------------
// Pass two: substitution.
// ---------------------------------------------------------------------------

/// The 16-bit PC-relative word offset encoded for a branch: the distance in
/// words from the address just after the branch to the target, reduced
/// modulo `2^16` (two's complement).
pub open spec fn spec_branch_offset(target: u32, addr: u32) -> u32 {
    ((((target - addr) / 4) % 0x10000) as u32)
}

/// One instruction with its symbolic operand (if any) replaced: absolute
/// addresses for `lw`/`sw`/`.word`, a PC-relative word offset for branches,
/// where `addr` is the address just after the instruction.
pub open spec fn spec_resolve_instruction(
    ins: SpecInstruction,
    m: Map<Seq<u8>, u32>,
    addr: u32,
) -> Result<SpecInstruction, SpecAsmError> {
    match ins {
        SpecInstruction::Lw { t, i: SpecValue::Label(l), s } => if m.contains_key(l) {
            Ok(SpecInstruction::Lw { t, i: SpecValue::Literal(m[l]), s })
        } else {
            Err(SpecAsmError::UndefinedLabel(l))
        },
        SpecInstruction::Sw { t, i: SpecValue::Label(l), s } => if m.contains_key(l) {
            Ok(SpecInstruction::Sw { t, i: SpecValue::Literal(m[l]), s })
        } else {
            Err(SpecAsmError::UndefinedLabel(l))
        },
        SpecInstruction::Beq { s, t, i: SpecValue::Label(l) } => if m.contains_key(l) {
            Ok(
                SpecInstruction::Beq {
                    s,
                    t,
                    i: SpecValue::Literal(spec_branch_offset(m[l], addr)),
                },
            )
        } else {
            Err(SpecAsmError::UndefinedLabel(l))
        },
        SpecInstruction::Bne { s, t, i: SpecValue::Label(l) } => if m.contains_key(l) {
            Ok(
                SpecInstruction::Bne {
                    s,
                    t,
                    i: SpecValue::Literal(spec_branch_offset(m[l], addr)),
                },
            )
        } else {
            Err(SpecAsmError::UndefinedLabel(l))
        },
        SpecInstruction::Word { i: SpecValue::Label(l) } => if m.contains_key(l) {
            Ok(SpecInstruction::Word { i: SpecValue::Literal(m[l]) })
        } else {
            Err(SpecAsmError::UndefinedLabel(l))
        },
        other => Ok(other),
    }
}

/// Pass two from line `k` on. The running address is advanced first, so
/// that it holds the address just after the current instruction, then the
/// instruction is resolved; `noop` lines are dropped from the output.
pub open spec fn spec_pass2(
    lines: Seq<SpecLine>,
    k: int,
    addr: u32,
    m: Map<Seq<u8>, u32>,
) -> Result<Seq<SpecLine>, SpecAsmError>
    decreases lines.len() - k,
{
    if k < 0 || k >= lines.len() {
        Ok(Seq::empty())
    } else {
        let addr2 = if lines[k].instruction is Noop {
            addr
        } else {
            ((addr + 4) as u32)
        };
        match spec_resolve_instruction(lines[k].instruction, m, addr2) {
            Err(e) => Err(e),
            Ok(ins) => match spec_pass2(lines, k + 1, addr2, m) {
                Err(e) => Err(e),
                Ok(rest) => if ins is Noop {
                    Ok(rest)
                } else {
                    Ok(
                        seq![
                            SpecLine { text: lines[k].text, labels: Seq::empty(), instruction: ins },
                        ] + rest,
                    )
                },
            },
        }
    }
}

/// Resolution keeps an instruction well formed, leaves it symbol-free, and
/// never changes whether it is a `noop`.
proof fn lemma_resolve_wf(ins: SpecInstruction, m: Map<Seq<u8>, u32>, addr: u32)
    requires
        ins.wf(),
    ensures
        match spec_resolve_instruction(ins, m, addr) {
            Ok(r) => r.wf() && r.resolved() && (r is Noop <==> ins is Noop),
            Err(_) => true,
        },
{
    match ins {
        SpecInstruction::Lw { t: _, i, s: _ } => {
            match i {
                SpecValue::Label(_) => {},
                SpecValue::Literal(_) => {},
            }
        },
        SpecInstruction::Sw { t: _, i, s: _ } => {
            match i {
                SpecValue::Label(_) => {},
                SpecValue::Literal(_) => {},
            }
        },
        SpecInstruction::Beq { s: _, t: _, i } => {
            match i {
                SpecValue::Label(_) => {},
                SpecValue::Literal(_) => {},
            }
        },
        SpecInstruction::Bne { s: _, t: _, i } => {
            match i {
                SpecValue::Label(_) => {},
                SpecValue::Literal(_) => {},
            }
        },
        SpecInstruction::Word { i } => {
            match i {
                SpecValue::Label(_) => {},
                SpecValue::Literal(_) => {},
            }
        },
        _ => {},
    }
}

/// A wrapped 32-bit difference of two word-aligned addresses, divided by
/// four, has the same low 16 bits as the exact difference in words.
proof fn lemma_offset_wrap(target: u32, addr: u32, diff: u32)
    requires
        target % 4 == 0,
        addr % 4 == 0,
        diff == vstd::wrapping::u32_specs::wrapping_sub(target, addr),
    ensures
        (diff as int / 4) % 0x10000 == ((target - addr) / 4) % 0x10000,
{
    let t = target as int;
    let a = addr as int;
    lemma_fundamental_div_mod(t, 4);
    lemma_fundamental_div_mod(a, 4);
    let qt = t / 4;
    let qa = a / 4;
    let d = t - a;
    assert(d == 4 * (qt - qa));
    lemma_fundamental_div_mod_converse(d, 4, qt - qa, 0);
    if d < 0 {
        assert(diff as int == d + 0x100000000);
        assert(diff as int == 4 * (qt - qa + 0x40000000));
        lemma_fundamental_div_mod_converse(diff as int, 4, qt - qa + 0x40000000, 0);
        lemma_mod_multiples_vanish(0x4000, qt - qa, 0x10000);
        assert(0x10000 * 0x4000 + (qt - qa) == qt - qa + 0x40000000);
    }
}

/// Copy an operand.
fn copy_value(v: &Value) -> (r: Value)
    ensures
        r@ == v@,
{
    match v {
        Value::Literal(n) => Value::Literal(*n),
        Value::Label(l) => Value::Label(copy_bytes(l)),
    }
}

/// Copy an instruction.
fn copy_instruction(ins: &Instruction) -> (r: Instruction)
    ensures
        r@ == ins@,
{
    match ins {
        Instruction::Add { d, s, t } => Instruction::Add { d: *d, s: *s, t: *t },
        Instruction::Sub { d, s, t } => Instruction::Sub { d: *d, s: *s, t: *t },
        Instruction::Slt { d, s, t } => Instruction::Slt { d: *d, s: *s, t: *t },
        Instruction::Sltu { d, s, t } => Instruction::Sltu { d: *d, s: *s, t: *t },
        Instruction::Mult { s, t } => Instruction::Mult { s: *s, t: *t },
        Instruction::Multu { s, t } => Instruction::Multu { s: *s, t: *t },
        Instruction::Div { s, t } => Instruction::Div { s: *s, t: *t },
        Instruction::Divu { s, t } => Instruction::Divu { s: *s, t: *t },
        Instruction::Mfhi { d } => Instruction::Mfhi { d: *d },
        Instruction::Mflo { d } => Instruction::Mflo { d: *d },
        Instruction::Lis { d } => Instruction::Lis { d: *d },
        Instruction::Lw { t, i, s } => Instruction::Lw { t: *t, i: copy_value(i), s: *s },
        Instruction::Sw { t, i, s } => Instruction::Sw { t: *t, i: copy_value(i), s: *s },
        Instruction::Beq { s, t, i } => Instruction::Beq { s: *s, t: *t, i: copy_value(i) },
        Instruction::Bne { s, t, i } => Instruction::Bne { s: *s, t: *t, i: copy_value(i) },
        Instruction::Jr { s } => Instruction::Jr { s: *s },
        Instruction::Jalr { s } => Instruction::Jalr { s: *s },
        Instruction::Word { i } => Instruction::Word { i: copy_value(i) },
        Instruction::Noop => Instruction::Noop,
    }
}

/// Pass two over a whole program: substitute every symbolic operand and
/// drop the `noop` lines. The result is ready for encoding.
pub fn replace_labels(lines: &Vec<Line>, labels: &SymbolTable) -> (r: Result<Vec<Line>, AsmError>)
    requires
        labels.wf(),
        lines@.len() <= 0x3FFFFFFF,
        forall|i: int| 0 <= i < lines@.len() ==> (#[trigger] lines@[i]@).wf(),
    ensures
        ({
            let sr = spec_pass2(line_views(lines@), 0, 0, labels@);
            match r {
                Ok(v) => sr == Ok::<Seq<SpecLine>, SpecAsmError>(line_views(v@)) && (forall|i: int|
                    0 <= i < v@.len() ==> (#[trigger] v@[i]@).wf() && v@[i]@.instruction.resolved()
                        && !(v@[i]@.instruction is Noop)),
                Err(e) => sr == Err::<Seq<SpecLine>, SpecAsmError>(e@),
            }
        }),
{
    let ghost ls = line_views(lines@);
    let ghost m = labels@;
    let mut out: Vec<Line> = Vec::new();
    let mut addr: u32 = 0;
    let mut k: usize = 0;
    proof {
        assert(ls.take(0) =~= Seq::<SpecLine>::empty());
    }
    while k < lines.len()
        invariant
            k <= lines@.len(),
            lines@.len() <= 0x3FFFFFFF,
            labels.wf(),
            m == labels@,
            ls == line_views(lines@),
            forall|i: int| 0 <= i < lines@.len() ==> (#[trigger] lines@[i]@).wf(),
            addr == 4 * count_code(ls.take(k as int)),
            forall|i: int|
                0 <= i < out@.len() ==> (#[trigger] out@[i]@).wf() && out@[i]@.instruction.resolved()
                    && !(out@[i]@.instruction is Noop),
            spec_pass2(ls, 0, 0, m) == (match spec_pass2(ls, k as int, addr, m) {
                Ok(rest) => Ok::<Seq<SpecLine>, SpecAsmError>(line_views(out@) + rest),
                Err(e) => Err::<Seq<SpecLine>, SpecAsmError>(e),
            }),
        decreases lines@.len() - k,
    {
        let line = &lines[k];
        proof {
            assert(ls[k as int] == lines@[k as int]@);
            lemma_count_code_bounds(ls.take(k as int));
            assert(ls.take(k as int).len() == k as int);
            assert(ls.take(k as int + 1).drop_last() =~= ls.take(k as int));
            assert(ls.take(k as int + 1).last() == ls[k as int]);
        }
        if !line.instruction.is_noop() {
            addr = addr + 4;
        }
        let resolved: Instruction = match &line.instruction {
            Instruction::Lw { t, i: Value::Label(l), s } => {
                match labels.lookup(l) {
                    Some(a) => Instruction::Lw { t: *t, i: Value::Literal(a), s: *s },
                    None => {
                        return Err(AsmError::UndefinedLabel(copy_bytes(l)));
                    },
                }
            },
            Instruction::Sw { t, i: Value::Label(l), s } => {
                match labels.lookup(l) {
                    Some(a) => Instruction::Sw { t: *t, i: Value::Literal(a), s: *s },
                    None => {
                        return Err(AsmError::UndefinedLabel(copy_bytes(l)));
                    },
                }
            },
            Instruction::Beq { s, t, i: Value::Label(l) } => {
                match labels.lookup(l) {
                    Some(a) => {
                        proof {
                            labels.lemma_wf_aligned(l@);
                            lemma_mod_multiples_vanish(count_code(ls.take(k as int + 1)), 0, 4);
                        }
                        let diff = a.wrapping_sub(addr);
                        let off = (diff / 4) % 0x10000;
                        proof {
                            lemma_offset_wrap(a, addr, diff);
                        }
                        Instruction::Beq { s: *s, t: *t, i: Value::Literal(off) }
                    },
                    None => {
                        return Err(AsmError::UndefinedLabel(copy_bytes(l)));
                    },
                }
            },
            Instruction::Bne { s, t, i: Value::Label(l) } => {
                match labels.lookup(l) {
                    Some(a) => {
                        proof {
                            labels.lemma_wf_aligned(l@);
                            lemma_mod_multiples_vanish(count_code(ls.take(k as int + 1)), 0, 4);
                        }
                        let diff = a.wrapping_sub(addr);
                        let off = (diff / 4) % 0x10000;
                        proof {
                            lemma_offset_wrap(a, addr, diff);
                        }
                        Instruction::Bne { s: *s, t: *t, i: Value::Literal(off) }
                    },
                    None => {
                        return Err(AsmError::UndefinedLabel(copy_bytes(l)));
                    },
                }
            },
            Instruction::Word { i: Value::Label(l) } => {
                match labels.lookup(l) {
                    Some(a) => Instruction::Word { i: Value::Literal(a) },
                    None => {
                        return Err(AsmError::UndefinedLabel(copy_bytes(l)));
                    },
                }
            },
            other => copy_instruction(other),
        };
        proof {
            assert(spec_resolve_instruction(ls[k as int].instruction, m, addr) == Ok::<
                SpecInstruction,
                SpecAsmError,
            >(resolved@));
            lemma_resolve_wf(ls[k as int].instruction, m, addr);
        }
        if !resolved.is_noop() {
            let out_line = Line {
                text: copy_bytes(&line.text),
                labels: Vec::new(),
                instruction: resolved,
            };
            proof {
                assert(crate::parser::seq_views(Seq::<Vec<u8>>::empty()) =~= Seq::<Seq<u8>>::empty());
                assert(out_line@ == (SpecLine {
                    text: ls[k as int].text,
                    labels: Seq::empty(),
                    instruction: out_line@.instruction,
                }));
            }
            let ghost prev = out@;
            out.push(out_line);
            proof {
                assert(line_views(out@) =~= line_views(prev) + seq![out_line@]);
                match spec_pass2(ls, k as int + 1, addr, m) {
                    Ok(rest) => {
                        assert(line_views(prev) + (seq![out_line@] + rest) =~= line_views(out@)
                            + rest);
                    },
                    Err(_) => {},
                }
            }
        }
        k = k + 1;
    }
    proof {
        assert(ls.take(k as int) =~= ls);
        assert(line_views(out@) + Seq::<SpecLine>::empty() =~= line_views(out@));
    }
    Ok(out)
}

} // verus!

verus! {

// ---------------------------------------------------------------------------
// The addressing invariant of pass one.
// ---------------------------------------------------------------------------

/// Binding labels keeps every existing binding.
proof fn lemma_bind_preserves(
    labels: Seq<Seq<u8>>,
    j: int,
    addr: u32,
    m: Map<Seq<u8>, u32>,
    n: Seq<u8>,
)
    requires
        m.contains_key(n),
        spec_bind_labels(labels, j, addr, m) is Ok,
    ensures
        match spec_bind_labels(labels, j, addr, m) {
            Ok(m2) => m2.contains_key(n) && m2[n] == m[n],
            Err(_) => true,
        },
    decreases labels.len() - j,
{
    if 0 <= j < labels.len() {
        lemma_bind_preserves(labels, j + 1, addr, m.insert(labels[j], addr), n);
    }
}

/// Binding labels binds each of them to the given address.
proof fn lemma_bind_binds(labels: Seq<Seq<u8>>, j: int, addr: u32, m: Map<Seq<u8>, u32>, jj: int)
    requires
        0 <= j <= jj < labels.len(),
        spec_bind_labels(labels, j, addr, m) is Ok,
    ensures
        match spec_bind_labels(labels, j, addr, m) {
            Ok(m2) => m2.contains_key(labels[jj]) && m2[labels[jj]] == addr,
            Err(_) => true,
        },
    decreases labels.len() - j,
{
    if jj == j {
        lemma_bind_preserves(labels, j + 1, addr, m.insert(labels[j], addr), labels[j]);
    } else {
        lemma_bind_binds(labels, j + 1, addr, m.insert(labels[j], addr), jj);
    }
}

/// Pass one keeps every existing binding.
proof fn lemma_pass1_preserves(
    lines: Seq<SpecLine>,
    k: int,
    addr: u32,
    m: Map<Seq<u8>, u32>,
    n: Seq<u8>,
)
    requires
        m.contains_key(n),
        spec_pass1(lines, k, addr, m) is Ok,
    ensures
        match spec_pass1(lines, k, addr, m) {
            Ok(mf) => mf.contains_key(n) && mf[n] == m[n],
            Err(_) => true,
        },
    decreases lines.len() - k,
{
    if 0 <= k < lines.len() {
        match spec_bind_labels(lines[k].labels, 0, addr, m) {
            Ok(m2) => {
                let addr2 = if lines[k].instruction is Noop {
                    addr
                } else {
                    ((addr + 4) as u32)
                };
                lemma_bind_preserves(lines[k].labels, 0, addr, m, n);
                lemma_pass1_preserves(lines, k + 1, addr2, m2, n);
            },
            Err(_) => {},
        }
    }
}

/// The code count of a sequence splits off its first line.
proof fn lemma_count_code_first(s: Seq<SpecLine>)
    requires
        s.len() > 0,
    ensures
        count_code(s) == count_code(s.skip(1)) + if s[0].instruction is Noop {
            0int
        } else {
            1int
        },
    decreases s.len(),
{
    if s.len() == 1 {
        assert(s.skip(1) =~= Seq::<SpecLine>::empty());
        assert(s.drop_last() =~= Seq::<SpecLine>::empty());
    } else {
        lemma_count_code_first(s.drop_last());
        assert(s.drop_last().skip(1) =~= s.skip(1).drop_last());
        assert(s.drop_last()[0] == s[0]);
        assert(s.skip(1).last() == s.last());
    }
}

/// Pass one from `(k, addr)` binds the labels of line `i` to `addr` plus
/// four bytes for every non-`noop` line in between.
proof fn lemma_pass1_addresses(
    lines: Seq<SpecLine>,
    k: int,
    addr: u32,
    m: Map<Seq<u8>, u32>,
    i: int,
    j: int,
)
    requires
        0 <= k <= i < lines.len(),
        0 <= j < lines[i].labels.len(),
        addr + 4 * (i + 1 - k) <= 0x100000000,
        spec_pass1(lines, k, addr, m) is Ok,
    ensures
        match spec_pass1(lines, k, addr, m) {
            Ok(mf) => mf.contains_key(lines[i].labels[j]) && mf[lines[i].labels[j]] == ((addr + 4
                * count_code(lines.subrange(k, i))) as u32),
            Err(_) => true,
        },
    decreases i - k,
{
    match spec_bind_labels(lines[k].labels, 0, addr, m) {
        Ok(m2) => {
            let addr2 = if lines[k].instruction is Noop {
                addr
            } else {
                ((addr + 4) as u32)
            };
            if k == i {
                assert(lines.subrange(k, k) =~= Seq::<SpecLine>::empty());
                lemma_bind_binds(lines[k].labels, 0, addr, m, j);
                lemma_pass1_preserves(lines, k + 1, addr2, m2, lines[i].labels[j]);
            } else {
                lemma_pass1_addresses(lines, k + 1, addr2, m2, i, j);
                let mid = lines.subrange(k, i);
                lemma_count_code_first(mid);
                assert(mid.skip(1) =~= lines.subrange(k + 1, i));
                assert(mid[0] == lines[k]);
                lemma_count_code_bounds(lines.subrange(k + 1, i));
            }
        },
        Err(_) => {},
    }
}

/// Addressing invariant: pass one binds every label to four times the
/// number of non-`noop` lines before its line; equivalently, the k-th
/// output word of the program sits at byte address `4 * k`.
pub proof fn lemma_addressing_invariant(lines: Seq<SpecLine>, i: int, j: int)
    requires
        lines.len() <= 0x3FFFFFFF,
        0 <= i < lines.len(),
        0 <= j < lines[i].labels.len(),
        spec_pass1(lines, 0, 0, Map::empty()) is Ok,
    ensures
        match spec_pass1(lines, 0, 0, Map::empty()) {
            Ok(m) => m.contains_key(lines[i].labels[j]) && m[lines[i].labels[j]] == 4 * count_code(
                lines.take(i),
            ),
            Err(_) => true,
        },
{
    lemma_pass1_addresses(lines, 0, 0, Map::empty(), i, j);
    assert(lines.subrange(0, i) =~= lines.take(i));
    lemma_count_code_bounds(lines.take(i));
}

} // verus!

verus! {

/// Pass two emits exactly one line per non-`noop` line, in order; with the
/// big-endian image layout this places the k-th non-`noop` instruction of
/// the program at byte address `4 * k`.
pub proof fn lemma_pass2_output_length(
    lines: Seq<SpecLine>,
    k: int,
    addr: u32,
    m: Map<Seq<u8>, u32>,
)
    requires
        0 <= k <= lines.len(),
    ensures
        match spec_pass2(lines, k, addr, m) {
            Ok(v) => v.len() == count_code(lines.subrange(k, lines.len() as int)),
            Err(_) => true,
        },
    decreases lines.len() - k,
{
    let tail = lines.subrange(k, lines.len() as int);
    if k == lines.len() {
        assert(tail =~= Seq::<SpecLine>::empty());
    } else {
        let addr2 = if lines[k].instruction is Noop {
            addr
        } else {
            ((addr + 4) as u32)
        };
        lemma_pass2_output_length(lines, k + 1, addr2, m);
        lemma_count_code_first(tail);
        assert(tail.skip(1) =~= lines.subrange(k + 1, lines.len() as int));
        assert(tail[0] == lines[k]);
        match spec_resolve_instruction(lines[k].instruction, m, addr2) {
            Ok(ins) => {
                lemma_resolve_wf_noop(lines[k].instruction, m, addr2);
            },
            Err(_) => {},
        }
    }
}

/// Resolution never changes whether an instruction is a `noop`.
proof fn lemma_resolve_wf_noop(ins: SpecInstruction, m: Map<Seq<u8>, u32>, addr: u32)
    ensures
        match spec_resolve_instruction(ins, m, addr) {
            Ok(r) => (r is Noop <==> ins is Noop),
            Err(_) => true,
        },
{
    match ins {
        SpecInstruction::Lw { t: _, i: _, s: _ } => {},
        SpecInstruction::Sw { t: _, i: _, s: _ } => {},
        SpecInstruction::Beq { s: _, t: _, i: _ } => {},
        SpecInstruction::Bne { s: _, t: _, i: _ } => {},
        SpecInstruction::Word { i: _ } => {},
        _ => {},
    }
}

} // verus!
