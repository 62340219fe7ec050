//! Operands of an instruction: either a literal 32-bit word or a symbolic
//! reference to a label. Symbols appear only during assembly; the resolver
//! replaces every one of them by a literal before encoding.

use vstd::prelude::*;

verus! {

/// A literal-or-symbol operand. Label names are byte strings (the source
/// text is line-oriented ASCII as far as the grammar is concerned).
#[derive(Debug, Clone, PartialEq, Eq)]
pub enum Value {
    Literal(u32),
    Label(Vec<u8>),
}

/// The mathematical model of a `Value`: the same tagged union with the
/// label name abstracted to a sequence of bytes.
pub enum SpecValue {
    Literal(u32),
    Label(Seq<u8>),
}

impl View for Value {
    type V = SpecValue;

    open spec fn view(&self) -> SpecValue {
        match self {
            Value::Literal(n) => SpecValue::Literal(*n),
            Value::Label(name) => SpecValue::Label(name@),
        }
    }
}

impl SpecValue {
    /// Whether this operand is a literal.
    pub open spec fn is_literal(self) -> bool {
        match self {
            SpecValue::Literal(_) => true,
            SpecValue::Label(_) => false,
        }
    }

    /// The literal word held by this operand; meaningful only for literals.
    pub open spec fn spec_literal(self) -> u32
        recommends
            self.is_literal(),
    {
        match self {
            SpecValue::Literal(n) => n,
            SpecValue::Label(_) => 0,
        }
    }

    /// The label name held by this operand; meaningful only for symbols.
    pub open spec fn spec_label(self) -> Seq<u8>
        recommends
            !self.is_literal(),
    {
        match self {
            SpecValue::Literal(_) => Seq::empty(),
            SpecValue::Label(name) => name,
        }
    }
}

impl Value {
    /// The literal word of a resolved operand. Symbols cannot be turned
    /// into words; the resolver guarantees none reaches this point.
    pub fn to_u32(&self) -> (r: u32)
        requires
            self@.is_literal(),
        ensures
            r == self@.spec_literal(),
    {
        match self {
            Value::Literal(val) => *val,
            Value::Label(_) => 0,
        }
    }
}

} // verus!
