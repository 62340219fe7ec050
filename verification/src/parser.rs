//! The line parser. A source line is truncated at the first `;`, split at
//! the last `:` into a label part and an instruction part, labels are the
//! matches of an alphabetic character followed by alphanumerics and a
//! terminating colon, and the instruction part is tokenized at spaces,
//! commas and parentheses.
//!
//! The parser works on bytes: the grammar is pure ASCII, so a byte-level
//! model is exact for it.

use vstd::prelude::*;

verus! {

// ---------------------------------------------------------------------------
// Byte classes of the grammar.
// ---------------------------------------------------------------------------

/// An ASCII letter (`A`-`Z` or `a`-`z`).
pub open spec fn is_alpha(b: u8) -> bool {
    (0x41 <= b && b <= 0x5a) || (0x61 <= b && b <= 0x7a)
}

/// An ASCII decimal digit.
pub open spec fn is_digit(b: u8) -> bool {
    0x30 <= b && b <= 0x39
}

/// A letter or a digit.
pub open spec fn is_alnum(b: u8) -> bool {
    is_alpha(b) || is_digit(b)
}

/// Whitespace stripped from the ends of lines and tokens: space, tab,
/// carriage return, line feed.
pub open spec fn is_space(b: u8) -> bool {
    b == 0x20 || b == 0x09 || b == 0x0d || b == 0x0a
}

/// A token separator of the instruction grammar: space, comma, or either
/// parenthesis.
pub open spec fn is_delim(b: u8) -> bool {
    b == 0x20 || b == 0x2c || b == 0x28 || b == 0x29
}

pub fn alpha(b: u8) -> (r: bool)
    ensures
        r == is_alpha(b),
{
    (0x41 <= b && b <= 0x5a) || (0x61 <= b && b <= 0x7a)
}

pub fn digit(b: u8) -> (r: bool)
    ensures
        r == is_digit(b),
{
    0x30 <= b && b <= 0x39
}

pub fn alnum(b: u8) -> (r: bool)
    ensures
        r == is_alnum(b),
{
    alpha(b) || digit(b)
}

pub fn space(b: u8) -> (r: bool)
    ensures
        r == is_space(b),
{
    b == 0x20 || b == 0x09 || b == 0x0d || b == 0x0a
}

pub fn delim(b: u8) -> (r: bool)
    ensures
        r == is_delim(b),
{
    b == 0x20 || b == 0x2c || b == 0x28 || b == 0x29
}

// ---------------------------------------------------------------------------
// Index scanners. Each is a total function of the sequence and a position;
// the executable code walks the same positions and keeps the scanner's value
// unchanged step by step.
// ---------------------------------------------------------------------------

/// The position of the first occurrence of `b` at or after `i`, or the
/// length when there is none.
pub open spec fn find_first(s: Seq<u8>, b: u8, i: int) -> int
    decreases s.len() - i,
{
    if i < 0 {
        0
    } else if i >= s.len() {
        s.len() as int
    } else if s[i] == b {
        i
    } else {
        find_first(s, b, i + 1)
    }
}

/// The position just after the last occurrence of `b` strictly before `i`,
/// or 0 when there is none.
pub open spec fn after_last(s: Seq<u8>, b: u8, i: int) -> int
    decreases i,
{
    if i <= 0 || i > s.len() {
        0
    } else if s[i - 1] == b {
        i
    } else {
        after_last(s, b, i - 1)
    }
}

/// The end of the run of alphanumeric bytes starting at `i`.
pub open spec fn run_end_alnum(s: Seq<u8>, i: int) -> int
    decreases s.len() - i,
{
    if i < 0 {
        0
    } else if i >= s.len() {
        s.len() as int
    } else if is_alnum(s[i]) {
        run_end_alnum(s, i + 1)
    } else {
        i
    }
}

/// The end of the run of non-separator bytes starting at `i`.
pub open spec fn run_end_token(s: Seq<u8>, i: int) -> int
    decreases s.len() - i,
{
    if i < 0 {
        0
    } else if i >= s.len() {
        s.len() as int
    } else if !is_delim(s[i]) {
        run_end_token(s, i + 1)
    } else {
        i
    }
}

/// The first position at or after `i` holding something other than
/// whitespace, or the length.
pub open spec fn skip_spaces(s: Seq<u8>, i: int) -> int
    decreases s.len() - i,
{
    if i < 0 {
        0
    } else if i >= s.len() {
        s.len() as int
    } else if is_space(s[i]) {
        skip_spaces(s, i + 1)
    } else {
        i
    }
}

/// The position just after the last non-whitespace byte strictly before
/// `i`, or 0.
pub open spec fn rskip_spaces(s: Seq<u8>, i: int) -> int
    decreases i,
{
    if i <= 0 || i > s.len() {
        0
    } else if is_space(s[i - 1]) {
        rskip_spaces(s, i - 1)
    } else {
        i
    }
}

// ---------------------------------------------------------------------------
// Trimming.
// ---------------------------------------------------------------------------

/// `s` with leading and trailing whitespace removed.
pub open spec fn spec_trim(s: Seq<u8>) -> Seq<u8> {
    let lo = skip_spaces(s, 0);
    let hi = rskip_spaces(s, s.len() as int);
    if lo <= hi {
        s.subrange(lo, hi)
    } else {
        Seq::empty()
    }
}

/// The views of the elements of a sequence of byte vectors.
pub open spec fn seq_views(r: Seq<Vec<u8>>) -> Seq<Seq<u8>> {
    Seq::new(r.len(), |k: int| r[k]@)
}

/// Copy the bytes of `s` between `lo` (inclusive) and `hi` (exclusive).
pub fn subvec(s: &Vec<u8>, lo: usize, hi: usize) -> (r: Vec<u8>)
    requires
        lo <= hi,
        hi <= s@.len(),
    ensures
        r@ == s@.subrange(lo as int, hi as int),
{
    let mut r: Vec<u8> = Vec::new();
    let mut k = lo;
    while k < hi
        invariant
            lo <= k <= hi,
            hi <= s@.len(),
            r@ == s@.subrange(lo as int, k as int),
        decreases hi - k,
    {
        r.push(s[k]);
        k = k + 1;
        proof {
            assert(r@ =~= s@.subrange(lo as int, k as int));
        }
    }
    r
}

/// Remove leading and trailing whitespace.
pub fn trim(s: &Vec<u8>) -> (r: Vec<u8>)
    ensures
        r@ == spec_trim(s@),
{
    let mut lo: usize = 0;
    while lo < s.len() && space(s[lo])
        invariant
            lo <= s@.len(),
            skip_spaces(s@, 0) == skip_spaces(s@, lo as int),
        decreases s@.len() - lo,
    {
        lo = lo + 1;
    }
    let mut hi: usize = s.len();
    while hi > 0 && space(s[hi - 1])
        invariant
            hi <= s@.len(),
            rskip_spaces(s@, s@.len() as int) == rskip_spaces(s@, hi as int),
        decreases hi,
    {
        hi = hi - 1;
    }
    if lo <= hi {
        subvec(s, lo, hi)
    } else {
        Vec::new()
    }
}

// ---------------------------------------------------------------------------
// Label extraction: the matches of `[A-Za-z][A-Za-z0-9]*:` scanned left to
// right, each with its terminating colon stripped.
// ---------------------------------------------------------------------------

/// The labels found in `s` from position `i` on. At an alphabetic byte the
/// alphanumeric run after it is taken; when a colon terminates the run, the
/// run (without the colon) is a label and scanning resumes after the colon,
/// otherwise scanning resumes after the run. The arithmetic guard on `j`
/// always holds; it makes termination evident.
pub open spec fn spec_labels(s: Seq<u8>, i: int) -> Seq<Seq<u8>>
    decreases s.len() - i,
{
    if i < 0 || i >= s.len() {
        Seq::empty()
    } else if is_alpha(s[i]) {
        let j = run_end_alnum(s, i + 1);
        if i + 1 <= j && j <= s.len() {
            if j < s.len() && s[j] == 0x3a {
                seq![s.subrange(i, j)] + spec_labels(s, j + 1)
            } else {
                spec_labels(s, j)
            }
        } else {
            Seq::empty()
        }
    } else {
        spec_labels(s, i + 1)
    }
}

/// Collect every label of `s`, in source order and without colons.
pub fn extract_labels(s: &Vec<u8>) -> (r: Vec<Vec<u8>>)
    ensures
        seq_views(r@) == spec_labels(s@, 0),
{
    let mut r: Vec<Vec<u8>> = Vec::new();
    let mut i: usize = 0;
    while i < s.len()
        invariant
            i <= s@.len(),
            seq_views(r@) + spec_labels(s@, i as int) == spec_labels(s@, 0),
        decreases s@.len() - i,
    {
        if alpha(s[i]) {
            let mut j = i + 1;
            while j < s.len() && alnum(s[j])
                invariant
                    i + 1 <= j <= s@.len(),
                    run_end_alnum(s@, i as int + 1) == run_end_alnum(s@, j as int),
                decreases s@.len() - j,
            {
                j = j + 1;
            }
            proof {
                assert(run_end_alnum(s@, j as int) == j);
            }
            if j < s.len() && s[j] == 0x3a {
                let lab = subvec(s, i, j);
                proof {
                    assert(spec_labels(s@, i as int) == seq![s@.subrange(i as int, j as int)]
                        + spec_labels(s@, j as int + 1));
                }
                let ghost prev = r@;
                r.push(lab);
                proof {
                    assert(seq_views(r@) =~= seq_views(prev) + seq![lab@]);
                    assert(seq_views(prev) + seq![lab@] + spec_labels(s@, j as int + 1) =~= seq_views(
                        prev,
                    ) + spec_labels(s@, i as int));
                }
                i = j + 1;
            } else {
                proof {
                    assert(spec_labels(s@, i as int) == spec_labels(s@, j as int));
                }
                i = j;
            }
        } else {
            proof {
                assert(spec_labels(s@, i as int) == spec_labels(s@, i as int + 1));
            }
            i = i + 1;
        }
    }
    proof {
        assert(seq_views(r@) + spec_labels(s@, i as int) =~= seq_views(r@));
    }
    r
}

// ---------------------------------------------------------------------------
// Tokenization: maximal runs of non-separator bytes, each trimmed of
// whitespace, empty results dropped.
// ---------------------------------------------------------------------------

/// The tokens of `s` from position `i` on.
pub open spec fn spec_tokens(s: Seq<u8>, i: int) -> Seq<Seq<u8>>
    decreases s.len() - i,
{
    if i < 0 || i >= s.len() {
        Seq::empty()
    } else if is_delim(s[i]) {
        spec_tokens(s, i + 1)
    } else {
        let j = run_end_token(s, i + 1);
        if i + 1 <= j && j <= s.len() {
            let tok = spec_trim(s.subrange(i, j));
            if tok.len() == 0 {
                spec_tokens(s, j)
            } else {
                seq![tok] + spec_tokens(s, j)
            }
        } else {
            Seq::empty()
        }
    }
}

/// Split `s` into its tokens.
pub fn tokenize(s: &Vec<u8>) -> (r: Vec<Vec<u8>>)
    ensures
        seq_views(r@) == spec_tokens(s@, 0),
{
    let mut r: Vec<Vec<u8>> = Vec::new();
    let mut i: usize = 0;
    while i < s.len()
        invariant
            i <= s@.len(),
            seq_views(r@) + spec_tokens(s@, i as int) == spec_tokens(s@, 0),
        decreases s@.len() - i,
    {
        if delim(s[i]) {
            proof {
                assert(spec_tokens(s@, i as int) == spec_tokens(s@, i as int + 1));
            }
            i = i + 1;
        } else {
            let mut j = i + 1;
            while j < s.len() && !delim(s[j])
                invariant
                    i + 1 <= j <= s@.len(),
                    run_end_token(s@, i as int + 1) == run_end_token(s@, j as int),
                decreases s@.len() - j,
            {
                j = j + 1;
            }
            proof {
                assert(run_end_token(s@, j as int) == j);
            }
            let piece = subvec(s, i, j);
            let tok = trim(&piece);
            if tok.len() == 0 {
                proof {
                    assert(spec_tokens(s@, i as int) == spec_tokens(s@, j as int));
                }
            } else {
                proof {
                    assert(spec_tokens(s@, i as int) == seq![tok@] + spec_tokens(s@, j as int));
                }
                let ghost prev = r@;
                r.push(tok);
                proof {
                    assert(seq_views(r@) =~= seq_views(prev) + seq![r@[r@.len() - 1]@]);
                    assert(seq_views(prev) + seq![seq_views(r@)[r@.len() - 1]] + spec_tokens(
                        s@,
                        j as int,
                    ) =~= seq_views(prev) + spec_tokens(s@, i as int));
                }
            }
            i = j;
        }
    }
    proof {
        assert(seq_views(r@) + spec_tokens(s@, i as int) =~= seq_views(r@));
    }
    r
}

} // verus!

verus! {

// ---------------------------------------------------------------------------
// Numeric literals. Operands may be unsigned decimal, signed decimal (stored
// as the two's-complement word), or hexadecimal with a literal `0x` prefix;
// anything else is a symbol reference.
// ---------------------------------------------------------------------------

/// Every byte of `s` is a decimal digit.
pub open spec fn all_digits(s: Seq<u8>) -> bool {
    forall|k: int| 0 <= k < s.len() ==> is_digit(s[k])
}

/// The value of `s` read as a decimal numeral.
pub open spec fn dec_value(s: Seq<u8>) -> nat
    recommends
        all_digits(s),
    decreases s.len(),
{
    if s.len() == 0 {
        0
    } else {
        dec_value(s.drop_last()) * 10 + (s[s.len() - 1] - 0x30) as nat
    }
}

/// An ASCII hexadecimal digit, either case.
pub open spec fn is_hex_digit(b: u8) -> bool {
    is_digit(b) || (0x41 <= b && b <= 0x46) || (0x61 <= b && b <= 0x66)
}

/// Every byte of `s` is a hexadecimal digit.
pub open spec fn all_hex(s: Seq<u8>) -> bool {
    forall|k: int| 0 <= k < s.len() ==> is_hex_digit(s[k])
}

/// The value of one hexadecimal digit.
pub open spec fn hex_digit_value(b: u8) -> nat
    recommends
        is_hex_digit(b),
{
    if is_digit(b) {
        (b - 0x30) as nat
    } else if 0x41 <= b && b <= 0x46 {
        (b - 0x37) as nat
    } else if 0x61 <= b && b <= 0x66 {
        (b - 0x57) as nat
    } else {
        0
    }
}

/// The value of `s` read as a hexadecimal numeral.
pub open spec fn hex_value(s: Seq<u8>) -> nat
    recommends
        all_hex(s),
    decreases s.len(),
{
    if s.len() == 0 {
        0
    } else {
        hex_value(s.drop_last()) * 16 + hex_digit_value(s[s.len() - 1])
    }
}

/// A numeral is at least as large as any of its prefixes.
proof fn lemma_dec_prefix(s: Seq<u8>, k: int)
    requires
        all_digits(s),
        0 <= k <= s.len(),
    ensures
        dec_value(s.take(k)) <= dec_value(s),
    decreases s.len() - k,
{
    if k == s.len() {
        assert(s.take(k) =~= s);
    } else {
        assert(s.take(k + 1).drop_last() =~= s.take(k));
        assert(dec_value(s.take(k + 1)) == dec_value(s.take(k)) * 10 + (s[k] - 0x30) as nat);
        lemma_dec_prefix(s, k + 1);
    }
}

/// A hexadecimal numeral is at least as large as any of its prefixes.
proof fn lemma_hex_prefix(s: Seq<u8>, k: int)
    requires
        all_hex(s),
        0 <= k <= s.len(),
    ensures
        hex_value(s.take(k)) <= hex_value(s),
    decreases s.len() - k,
{
    if k == s.len() {
        assert(s.take(k) =~= s);
    } else {
        assert(s.take(k + 1).drop_last() =~= s.take(k));
        assert(hex_value(s.take(k + 1)) == hex_value(s.take(k)) * 16 + hex_digit_value(s[k]));
        lemma_hex_prefix(s, k + 1);
    }
}

/// Whether the suffix of `s` from `lo` on is a decimal numeral whose value
/// fits in a word.
pub open spec fn dec_fits(s: Seq<u8>, lo: int) -> bool {
    lo < s.len() && all_digits(s.skip(lo)) && dec_value(s.skip(lo)) < 0x100000000
}

/// Parse the suffix of `s` from `lo` on as an unsigned decimal word.
pub fn parse_dec_u32(s: &Vec<u8>, lo: usize) -> (r: Option<u32>)
    requires
        lo <= s@.len(),
    ensures
        match r {
            Some(v) => dec_fits(s@, lo as int) && v == dec_value(s@.skip(lo as int)),
            None => !dec_fits(s@, lo as int),
        },
{
    let ghost t = s@.skip(lo as int);
    if lo == s.len() {
        return None;
    }
    let mut acc: u64 = 0;
    let mut k = lo;
    while k < s.len()
        invariant
            lo <= k <= s@.len(),
            lo < s@.len(),
            t == s@.skip(lo as int),
            all_digits(s@.subrange(lo as int, k as int)),
            acc == dec_value(s@.subrange(lo as int, k as int)),
            acc <= 0xFFFFFFFF,
        decreases s@.len() - k,
    {
        let b = s[k];
        if !digit(b) {
            proof {
                assert(t[k - lo] == s@[k as int]);
            }
            return None;
        }
        proof {
            assert(s@.subrange(lo as int, k as int + 1).drop_last() =~= s@.subrange(
                lo as int,
                k as int,
            ));
            assert(s@.subrange(lo as int, k as int + 1)[k - lo] == s@[k as int]);
        }
        acc = acc * 10 + ((b - 0x30) as u64);
        k = k + 1;
        if acc > 0xFFFFFFFF {
            proof {
                if all_digits(t) {
                    assert(t.take(k as int - lo as int) =~= s@.subrange(lo as int, k as int));
                    lemma_dec_prefix(t, k as int - lo as int);
                }
            }
            return None;
        }
    }
    proof {
        assert(s@.subrange(lo as int, k as int) =~= t);
    }
    Some(acc as u32)
}

/// Whether the suffix of `s` from `lo` on is a hexadecimal numeral whose
/// value fits in a word.
pub open spec fn hex_fits(s: Seq<u8>, lo: int) -> bool {
    lo < s.len() && all_hex(s.skip(lo)) && hex_value(s.skip(lo)) < 0x100000000
}

/// The value of one hexadecimal digit byte, or 16 when it is none.
fn hex_digit(b: u8) -> (r: u8)
    ensures
        is_hex_digit(b) ==> r == hex_digit_value(b),
        !is_hex_digit(b) ==> r == 16,
{
    if 0x30 <= b && b <= 0x39 {
        b - 0x30
    } else if 0x41 <= b && b <= 0x46 {
        b - 0x37
    } else if 0x61 <= b && b <= 0x66 {
        b - 0x57
    } else {
        16
    }
}

/// Parse the suffix of `s` from `lo` on as a hexadecimal word.
pub fn parse_hex_u32(s: &Vec<u8>, lo: usize) -> (r: Option<u32>)
    requires
        lo <= s@.len(),
    ensures
        match r {
            Some(v) => hex_fits(s@, lo as int) && v == hex_value(s@.skip(lo as int)),
            None => !hex_fits(s@, lo as int),
        },
{
    let ghost t = s@.skip(lo as int);
    if lo == s.len() {
        return None;
    }
    let mut acc: u64 = 0;
    let mut k = lo;
    while k < s.len()
        invariant
            lo <= k <= s@.len(),
            lo < s@.len(),
            t == s@.skip(lo as int),
            all_hex(s@.subrange(lo as int, k as int)),
            acc == hex_value(s@.subrange(lo as int, k as int)),
            acc <= 0xFFFFFFFF,
        decreases s@.len() - k,
    {
        let d = hex_digit(s[k]);
        if d == 16 {
            proof {
                assert(t[k - lo] == s@[k as int]);
            }
            return None;
        }
        proof {
            assert(s@.subrange(lo as int, k as int + 1).drop_last() =~= s@.subrange(
                lo as int,
                k as int,
            ));
            assert(s@.subrange(lo as int, k as int + 1)[k - lo] == s@[k as int]);
        }
        acc = acc * 16 + (d as u64);
        k = k + 1;
        if acc > 0xFFFFFFFF {
            proof {
                if all_hex(t) {
                    assert(t.take(k as int - lo as int) =~= s@.subrange(lo as int, k as int));
                    lemma_hex_prefix(t, k as int - lo as int);
                }
            }
            return None;
        }
    }
    proof {
        assert(s@.subrange(lo as int, k as int) =~= t);
    }
    Some(acc as u32)
}

} // verus!

use crate::value::Value;
use crate::value::SpecValue;
use crate::instruction::Instruction;
use crate::instruction::SpecInstruction;
use crate::instruction::imm16_ok;
use crate::error::AsmError;
use crate::error::SpecAsmError;

verus! {

// ---------------------------------------------------------------------------
// Operand values.
// ---------------------------------------------------------------------------

/// The value an operand token denotes. The three numeric forms are tried in
/// order: unsigned decimal, signed decimal (stored as the two's-complement
/// word), hexadecimal with a literal `0x` prefix. Anything else refers to a
/// label. The parsed value is reduced modulo `2^bits`.
pub open spec fn spec_parse_value(s: Seq<u8>, bits: u8) -> SpecValue
    recommends
        bits == 16 || bits == 32,
{
    let m = if bits == 16 {
        0x10000 as int
    } else {
        0x100000000 as int
    };
    if dec_fits(s, 0) {
        SpecValue::Literal((dec_value(s) as int % m) as u32)
    } else if s.len() > 1 && s[0] == 0x2d && all_digits(s.skip(1)) && dec_value(s.skip(1))
        <= 0x80000000 {
        SpecValue::Literal(((0x100000000 as int - dec_value(s.skip(1)) as int) % m) as u32)
    } else if s.len() > 2 && s[0] == 0x30 && s[1] == 0x78 && hex_fits(s, 2) {
        SpecValue::Literal((hex_value(s.skip(2)) as int % m) as u32)
    } else {
        SpecValue::Label(s)
    }
}

/// A parsed 16-bit operand is always a masked literal or a label.
pub proof fn lemma_parse_value_16(s: Seq<u8>)
    ensures
        imm16_ok(spec_parse_value(s, 16)),
{
}

/// Copy a byte vector.
pub fn copy_bytes(v: &Vec<u8>) -> (r: Vec<u8>)
    ensures
        r@ == v@,
{
    let r = subvec(v, 0, v.len());
    proof {
        assert(v@.subrange(0, v@.len() as int) =~= v@);
    }
    r
}

/// Parse one operand token. `bits` is 16 for immediate contexts and 32 for
/// `.word` directives.
pub fn parse_value(value: &Vec<u8>, bits: u8) -> (r: Value)
    requires
        bits == 16 || bits == 32,
    ensures
        r@ == spec_parse_value(value@, bits),
{
    proof {
        assert(value@.skip(0) =~= value@);
    }
    if let Some(v) = parse_dec_u32(value, 0) {
        let masked = if bits == 16 {
            v % 0x10000
        } else {
            v
        };
        return Value::Literal(masked);
    }
    if value.len() > 1 && value[0] == 0x2d {
        if let Some(v) = parse_dec_u32(value, 1) {
            if v <= 0x80000000 {
                let neg: u32 = if v == 0 {
                    0
                } else {
                    (0xFFFFFFFF - v) + 1
                };
                let masked = if bits == 16 {
                    neg % 0x10000
                } else {
                    neg
                };
                proof {
                    if v == 0 {
                        assert((0x100000000 as int - 0) % (0x10000 as int) == 0);
                        assert((0x100000000 as int - 0) % (0x100000000 as int) == 0);
                    }
                }
                return Value::Literal(masked);
            }
        }
    }
    if value.len() > 2 && value[0] == 0x30 && value[1] == 0x78 {
        if let Some(v) = parse_hex_u32(value, 2) {
            let masked = if bits == 16 {
                v % 0x10000
            } else {
                v
            };
            return Value::Literal(masked);
        }
    }
    Value::Label(copy_bytes(value))
}

// ---------------------------------------------------------------------------
// Registers.
// ---------------------------------------------------------------------------

/// The register index a token denotes: `$N` with `N` a decimal numeral
/// naming one of the 32 registers.
pub open spec fn spec_parse_reg(t: Seq<u8>) -> Option<u8> {
    if t.len() >= 2 && t[0] == 0x24 && all_digits(t.skip(1)) && dec_value(t.skip(1)) < 32 {
        Some(dec_value(t.skip(1)) as u8)
    } else {
        None
    }
}

/// Parse one register token.
pub fn parse_reg(t: &Vec<u8>) -> (r: Option<u8>)
    ensures
        r == spec_parse_reg(t@),
        match r {
            Some(v) => v < 32,
            None => true,
        },
{
    if t.len() >= 2 && t[0] == 0x24 {
        match parse_dec_u32(t, 1) {
            Some(v) => if v < 32 {
                Some(v as u8)
            } else {
                None
            },
            None => None,
        }
    } else {
        None
    }
}

} // verus!

verus! {

// ---------------------------------------------------------------------------
// Operand shapes. Each helper checks arity and parses the operand tokens of
// one instruction shape, reporting the mnemonic on a missing operand and the
// offending token on a malformed register.
// ---------------------------------------------------------------------------

/// Three register operands.
pub open spec fn spec_three_regs(toks: Seq<Seq<u8>>) -> Result<(u8, u8, u8), SpecAsmError>
    recommends
        toks.len() > 0,
{
    if toks.len() < 4 {
        Err(SpecAsmError::MissingOperand(toks[0]))
    } else {
        match (spec_parse_reg(toks[1]), spec_parse_reg(toks[2]), spec_parse_reg(toks[3])) {
            (Some(a), Some(b), Some(c)) => Ok((a, b, c)),
            (None, _, _) => Err(SpecAsmError::MalformedRegister(toks[1])),
            (_, None, _) => Err(SpecAsmError::MalformedRegister(toks[2])),
            (_, _, None) => Err(SpecAsmError::MalformedRegister(toks[3])),
        }
    }
}

/// Two register operands.
pub open spec fn spec_two_regs(toks: Seq<Seq<u8>>) -> Result<(u8, u8), SpecAsmError>
    recommends
        toks.len() > 0,
{
    if toks.len() < 3 {
        Err(SpecAsmError::MissingOperand(toks[0]))
    } else {
        match (spec_parse_reg(toks[1]), spec_parse_reg(toks[2])) {
            (Some(a), Some(b)) => Ok((a, b)),
            (None, _) => Err(SpecAsmError::MalformedRegister(toks[1])),
            (_, None) => Err(SpecAsmError::MalformedRegister(toks[2])),
        }
    }
}

/// One register operand.
pub open spec fn spec_one_reg(toks: Seq<Seq<u8>>) -> Result<u8, SpecAsmError>
    recommends
        toks.len() > 0,
{
    if toks.len() < 2 {
        Err(SpecAsmError::MissingOperand(toks[0]))
    } else {
        match spec_parse_reg(toks[1]) {
            Some(a) => Ok(a),
            None => Err(SpecAsmError::MalformedRegister(toks[1])),
        }
    }
}

/// Register, 16-bit displacement, base register (`lw`/`sw`).
pub open spec fn spec_mem_ops(toks: Seq<Seq<u8>>) -> Result<(u8, SpecValue, u8), SpecAsmError>
    recommends
        toks.len() > 0,
{
    if toks.len() < 4 {
        Err(SpecAsmError::MissingOperand(toks[0]))
    } else {
        match (spec_parse_reg(toks[1]), spec_parse_reg(toks[3])) {
            (Some(t), Some(s)) => Ok((t, spec_parse_value(toks[2], 16), s)),
            (None, _) => Err(SpecAsmError::MalformedRegister(toks[1])),
            (_, None) => Err(SpecAsmError::MalformedRegister(toks[3])),
        }
    }
}

/// Two registers and a 16-bit branch target (`beq`/`bne`).
pub open spec fn spec_branch_ops(toks: Seq<Seq<u8>>) -> Result<(u8, u8, SpecValue), SpecAsmError>
    recommends
        toks.len() > 0,
{
    if toks.len() < 4 {
        Err(SpecAsmError::MissingOperand(toks[0]))
    } else {
        match (spec_parse_reg(toks[1]), spec_parse_reg(toks[2])) {
            (Some(s), Some(t)) => Ok((s, t, spec_parse_value(toks[3], 16))),
            (None, _) => Err(SpecAsmError::MalformedRegister(toks[1])),
            (_, None) => Err(SpecAsmError::MalformedRegister(toks[2])),
        }
    }
}

/// One full-word operand (`.word`).
pub open spec fn spec_word_op(toks: Seq<Seq<u8>>) -> Result<SpecValue, SpecAsmError>
    recommends
        toks.len() > 0,
{
    if toks.len() < 2 {
        Err(SpecAsmError::MissingOperand(toks[0]))
    } else {
        Ok(spec_parse_value(toks[1], 32))
    }
}

fn three_regs(toks: &Vec<Vec<u8>>) -> (r: Result<(u8, u8, u8), AsmError>)
    requires
        toks@.len() > 0,
    ensures
        ({
            let sr = spec_three_regs(seq_views(toks@));
            match r {
                Ok(v) => sr == Ok::<(u8, u8, u8), SpecAsmError>(v) && v.0 < 32 && v.1 < 32 && v.2
                    < 32,
                Err(e) => sr == Err::<(u8, u8, u8), SpecAsmError>(e@),
            }
        }),
{
    if toks.len() < 4 {
        return Err(AsmError::MissingOperand(copy_bytes(&toks[0])));
    }
    let a = match parse_reg(&toks[1]) {
        Some(x) => x,
        None => {
            return Err(AsmError::MalformedRegister(copy_bytes(&toks[1])));
        },
    };
    let b = match parse_reg(&toks[2]) {
        Some(x) => x,
        None => {
            return Err(AsmError::MalformedRegister(copy_bytes(&toks[2])));
        },
    };
    let c = match parse_reg(&toks[3]) {
        Some(x) => x,
        None => {
            return Err(AsmError::MalformedRegister(copy_bytes(&toks[3])));
        },
    };
    Ok((a, b, c))
}

fn two_regs(toks: &Vec<Vec<u8>>) -> (r: Result<(u8, u8), AsmError>)
    requires
        toks@.len() > 0,
    ensures
        ({
            let sr = spec_two_regs(seq_views(toks@));
            match r {
                Ok(v) => sr == Ok::<(u8, u8), SpecAsmError>(v) && v.0 < 32 && v.1 < 32,
                Err(e) => sr == Err::<(u8, u8), SpecAsmError>(e@),
            }
        }),
{
    if toks.len() < 3 {
        return Err(AsmError::MissingOperand(copy_bytes(&toks[0])));
    }
    let a = match parse_reg(&toks[1]) {
        Some(x) => x,
        None => {
            return Err(AsmError::MalformedRegister(copy_bytes(&toks[1])));
        },
    };
    let b = match parse_reg(&toks[2]) {
        Some(x) => x,
        None => {
            return Err(AsmError::MalformedRegister(copy_bytes(&toks[2])));
        },
    };
    Ok((a, b))
}

fn one_reg(toks: &Vec<Vec<u8>>) -> (r: Result<u8, AsmError>)
    requires
        toks@.len() > 0,
    ensures
        ({
            let sr = spec_one_reg(seq_views(toks@));
            match r {
                Ok(v) => sr == Ok::<u8, SpecAsmError>(v) && v < 32,
                Err(e) => sr == Err::<u8, SpecAsmError>(e@),
            }
        }),
{
    if toks.len() < 2 {
        return Err(AsmError::MissingOperand(copy_bytes(&toks[0])));
    }
    match parse_reg(&toks[1]) {
        Some(x) => Ok(x),
        None => Err(AsmError::MalformedRegister(copy_bytes(&toks[1]))),
    }
}

fn mem_ops(toks: &Vec<Vec<u8>>) -> (r: Result<(u8, Value, u8), AsmError>)
    requires
        toks@.len() > 0,
    ensures
        ({
            let sr = spec_mem_ops(seq_views(toks@));
            match r {
                Ok(v) => sr == Ok::<(u8, SpecValue, u8), SpecAsmError>((v.0, v.1@, v.2)) && v.0 < 32
                    && v.2 < 32 && imm16_ok(v.1@),
                Err(e) => sr == Err::<(u8, SpecValue, u8), SpecAsmError>(e@),
            }
        }),
{
    if toks.len() < 4 {
        return Err(AsmError::MissingOperand(copy_bytes(&toks[0])));
    }
    let t = match parse_reg(&toks[1]) {
        Some(x) => x,
        None => {
            return Err(AsmError::MalformedRegister(copy_bytes(&toks[1])));
        },
    };
    let s = match parse_reg(&toks[3]) {
        Some(x) => x,
        None => {
            return Err(AsmError::MalformedRegister(copy_bytes(&toks[3])));
        },
    };
    let i = parse_value(&toks[2], 16);
    proof {
        lemma_parse_value_16(toks@[2]@);
    }
    Ok((t, i, s))
}

fn branch_ops(toks: &Vec<Vec<u8>>) -> (r: Result<(u8, u8, Value), AsmError>)
    requires
        toks@.len() > 0,
    ensures
        ({
            let sr = spec_branch_ops(seq_views(toks@));
            match r {
                Ok(v) => sr == Ok::<(u8, u8, SpecValue), SpecAsmError>((v.0, v.1, v.2@)) && v.0 < 32
                    && v.1 < 32 && imm16_ok(v.2@),
                Err(e) => sr == Err::<(u8, u8, SpecValue), SpecAsmError>(e@),
            }
        }),
{
    if toks.len() < 4 {
        return Err(AsmError::MissingOperand(copy_bytes(&toks[0])));
    }
    let s = match parse_reg(&toks[1]) {
        Some(x) => x,
        None => {
            return Err(AsmError::MalformedRegister(copy_bytes(&toks[1])));
        },
    };
    let t = match parse_reg(&toks[2]) {
        Some(x) => x,
        None => {
            return Err(AsmError::MalformedRegister(copy_bytes(&toks[2])));
        },
    };
    let i = parse_value(&toks[3], 16);
    proof {
        lemma_parse_value_16(toks@[3]@);
    }
    Ok((s, t, i))
}

fn word_op(toks: &Vec<Vec<u8>>) -> (r: Result<Value, AsmError>)
    requires
        toks@.len() > 0,
    ensures
        ({
            let sr = spec_word_op(seq_views(toks@));
            match r {
                Ok(v) => sr == Ok::<SpecValue, SpecAsmError>(v@),
                Err(e) => sr == Err::<SpecValue, SpecAsmError>(e@),
            }
        }),
{
    if toks.len() < 2 {
        return Err(AsmError::MissingOperand(copy_bytes(&toks[0])));
    }
    Ok(parse_value(&toks[1], 32))
}

} // verus!

verus! {

// ---------------------------------------------------------------------------
// Mnemonic comparison. Each helper decides equality between a token and one
// short keyword given byte by byte.
// ---------------------------------------------------------------------------

fn eq2(t: &Vec<u8>, a: u8, b: u8) -> (r: bool)
    ensures
        r == (t@ == seq![a, b]),
{
    let r = t.len() == 2 && t[0] == a && t[1] == b;
    proof {
        if r {
            assert(t@ =~= seq![a, b]);
        }
    }
    r
}

fn eq3(t: &Vec<u8>, a: u8, b: u8, c: u8) -> (r: bool)
    ensures
        r == (t@ == seq![a, b, c]),
{
    let r = t.len() == 3 && t[0] == a && t[1] == b && t[2] == c;
    proof {
        if r {
            assert(t@ =~= seq![a, b, c]);
        }
    }
    r
}

fn eq4(t: &Vec<u8>, a: u8, b: u8, c: u8, d: u8) -> (r: bool)
    ensures
        r == (t@ == seq![a, b, c, d]),
{
    let r = t.len() == 4 && t[0] == a && t[1] == b && t[2] == c && t[3] == d;
    proof {
        if r {
            assert(t@ =~= seq![a, b, c, d]);
        }
    }
    r
}

fn eq5(t: &Vec<u8>, a: u8, b: u8, c: u8, d: u8, e: u8) -> (r: bool)
    ensures
        r == (t@ == seq![a, b, c, d, e]),
{
    let r = t.len() == 5 && t[0] == a && t[1] == b && t[2] == c && t[3] == d && t[4] == e;
    proof {
        if r {
            assert(t@ =~= seq![a, b, c, d, e]);
        }
    }
    r
}

// ---------------------------------------------------------------------------
// Instructions.
// ---------------------------------------------------------------------------

/// The instruction a source fragment (one line, labels and comment already
/// removed) parses to. No tokens mean `noop`; otherwise the first token must
/// be a known mnemonic and the following tokens its operands.
pub open spec fn spec_parse_instruction(s: Seq<u8>) -> Result<SpecInstruction, SpecAsmError> {
    let toks = spec_tokens(s, 0);
    if toks.len() == 0 {
        Ok(SpecInstruction::Noop)
    } else {
        let m = toks[0];
        if m == seq![0x61u8, 0x64u8, 0x64u8] {  // add
            match spec_three_regs(toks) {
                Ok((d, s, t)) => Ok(SpecInstruction::Add { d, s, t }),
                Err(e) => Err(e),
            }
        } else if m == seq![0x73u8, 0x75u8, 0x62u8] {  // sub
            match spec_three_regs(toks) {
                Ok((d, s, t)) => Ok(SpecInstruction::Sub { d, s, t }),
                Err(e) => Err(e),
            }
        } else if m == seq![0x73u8, 0x6cu8, 0x74u8] {  // slt
            match spec_three_regs(toks) {
                Ok((d, s, t)) => Ok(SpecInstruction::Slt { d, s, t }),
                Err(e) => Err(e),
            }
        } else if m == seq![0x73u8, 0x6cu8, 0x74u8, 0x75u8] {  // sltu
            match spec_three_regs(toks) {
                Ok((d, s, t)) => Ok(SpecInstruction::Sltu { d, s, t }),
                Err(e) => Err(e),
            }
        } else if m == seq![0x6du8, 0x75u8, 0x6cu8, 0x74u8] {  // mult
            match spec_two_regs(toks) {
                Ok((s, t)) => Ok(SpecInstruction::Mult { s, t }),
                Err(e) => Err(e),
            }
        } else if m == seq![0x6du8, 0x75u8, 0x6cu8, 0x74u8, 0x75u8] {  // multu
            match spec_two_regs(toks) {
                Ok((s, t)) => Ok(SpecInstruction::Multu { s, t }),
                Err(e) => Err(e),
            }
        } else if m == seq![0x64u8, 0x69u8, 0x76u8] {  // div
            match spec_two_regs(toks) {
                Ok((s, t)) => Ok(SpecInstruction::Div { s, t }),
                Err(e) => Err(e),
            }
        } else if m == seq![0x64u8, 0x69u8, 0x76u8, 0x75u8] {  // divu
            match spec_two_regs(toks) {
                Ok((s, t)) => Ok(SpecInstruction::Divu { s, t }),
                Err(e) => Err(e),
            }
        } else if m == seq![0x6du8, 0x66u8, 0x68u8, 0x69u8] {  // mfhi
            match spec_one_reg(toks) {
                Ok(d) => Ok(SpecInstruction::Mfhi { d }),
                Err(e) => Err(e),
            }
        } else if m == seq![0x6du8, 0x66u8, 0x6cu8, 0x6fu8] {  // mflo
            match spec_one_reg(toks) {
                Ok(d) => Ok(SpecInstruction::Mflo { d }),
                Err(e) => Err(e),
            }
        } else if m == seq![0x6cu8, 0x69u8, 0x73u8] {  // lis
            match spec_one_reg(toks) {
                Ok(d) => Ok(SpecInstruction::Lis { d }),
                Err(e) => Err(e),
            }
        } else if m == seq![0x6cu8, 0x77u8] {  // lw
            match spec_mem_ops(toks) {
                Ok((t, i, s)) => Ok(SpecInstruction::Lw { t, i, s }),
                Err(e) => Err(e),
            }
        } else if m == seq![0x73u8, 0x77u8] {  // sw
            match spec_mem_ops(toks) {
                Ok((t, i, s)) => Ok(SpecInstruction::Sw { t, i, s }),
                Err(e) => Err(e),
            }
        } else if m == seq![0x62u8, 0x65u8, 0x71u8] {  // beq
            match spec_branch_ops(toks) {
                Ok((s, t, i)) => Ok(SpecInstruction::Beq { s, t, i }),
                Err(e) => Err(e),
            }
        } else if m == seq![0x62u8, 0x6eu8, 0x65u8] {  // bne
            match spec_branch_ops(toks) {
                Ok((s, t, i)) => Ok(SpecInstruction::Bne { s, t, i }),
                Err(e) => Err(e),
            }
        } else if m == seq![0x6au8, 0x72u8] {  // jr
            match spec_one_reg(toks) {
                Ok(s) => Ok(SpecInstruction::Jr { s }),
                Err(e) => Err(e),
            }
        } else if m == seq![0x6au8, 0x61u8, 0x6cu8, 0x72u8] {  // jalr
            match spec_one_reg(toks) {
                Ok(s) => Ok(SpecInstruction::Jalr { s }),
                Err(e) => Err(e),
            }
        } else if m == seq![0x2eu8, 0x77u8, 0x6fu8, 0x72u8, 0x64u8] {  // .word
            match spec_word_op(toks) {
                Ok(i) => Ok(SpecInstruction::Word { i }),
                Err(e) => Err(e),
            }
        } else {
            Err(SpecAsmError::UnknownMnemonic(m))
        }
    }
}

/// The model of an exec instruction-parse result.
pub open spec fn instr_res_view(r: Result<Instruction, AsmError>) -> Result<
    SpecInstruction,
    SpecAsmError,
> {
    match r {
        Ok(i) => Ok(i@),
        Err(e) => Err(e@),
    }
}

/// Parse the instruction of one line. The fragment handed in holds no
/// labels and no comment.
pub fn parse_instruction(instruction: &Vec<u8>) -> (r: Result<Instruction, AsmError>)
    ensures
        instr_res_view(r) == spec_parse_instruction(instruction@),
        match r {
            Ok(i) => i@.wf() && i@.imm_masked(),
            Err(_) => true,
        },
{
    let toks = tokenize(instruction);
    let ghost gt = seq_views(toks@);
    if toks.len() == 0 {
        return Ok(Instruction::Noop);
    }
    proof {
        assert(gt[0] == toks@[0]@);
    }
    let m = &toks[0];
    if eq3(m, 0x61, 0x64, 0x64) {  // add
        match three_regs(&toks) {
            Ok((d, s, t)) => Ok(Instruction::Add { d, s, t }),
            Err(e) => Err(e),
        }
    } else if eq3(m, 0x73, 0x75, 0x62) {  // sub
        match three_regs(&toks) {
            Ok((d, s, t)) => Ok(Instruction::Sub { d, s, t }),
            Err(e) => Err(e),
        }
    } else if eq3(m, 0x73, 0x6c, 0x74) {  // slt
        match three_regs(&toks) {
            Ok((d, s, t)) => Ok(Instruction::Slt { d, s, t }),
            Err(e) => Err(e),
        }
    } else if eq4(m, 0x73, 0x6c, 0x74, 0x75) {  // sltu
        match three_regs(&toks) {
            Ok((d, s, t)) => Ok(Instruction::Sltu { d, s, t }),
            Err(e) => Err(e),
        }
    } else if eq4(m, 0x6d, 0x75, 0x6c, 0x74) {  // mult
        match two_regs(&toks) {
            Ok((s, t)) => Ok(Instruction::Mult { s, t }),
            Err(e) => Err(e),
        }
    } else if eq5(m, 0x6d, 0x75, 0x6c, 0x74, 0x75) {  // multu
        match two_regs(&toks) {
            Ok((s, t)) => Ok(Instruction::Multu { s, t }),
            Err(e) => Err(e),
        }
    } else if eq3(m, 0x64, 0x69, 0x76) {  // div
        match two_regs(&toks) {
            Ok((s, t)) => Ok(Instruction::Div { s, t }),
            Err(e) => Err(e),
        }
    } else if eq4(m, 0x64, 0x69, 0x76, 0x75) {  // divu
        match two_regs(&toks) {
            Ok((s, t)) => Ok(Instruction::Divu { s, t }),
            Err(e) => Err(e),
        }
    } else if eq4(m, 0x6d, 0x66, 0x68, 0x69) {  // mfhi
        match one_reg(&toks) {
            Ok(d) => Ok(Instruction::Mfhi { d }),
            Err(e) => Err(e),
        }
    } else if eq4(m, 0x6d, 0x66, 0x6c, 0x6f) {  // mflo
        match one_reg(&toks) {
            Ok(d) => Ok(Instruction::Mflo { d }),
            Err(e) => Err(e),
        }
    } else if eq3(m, 0x6c, 0x69, 0x73) {  // lis
        match one_reg(&toks) {
            Ok(d) => Ok(Instruction::Lis { d }),
            Err(e) => Err(e),
        }
    } else if eq2(m, 0x6c, 0x77) {  // lw
        match mem_ops(&toks) {
            Ok((t, i, s)) => Ok(Instruction::Lw { t, i, s }),
            Err(e) => Err(e),
        }
    } else if eq2(m, 0x73, 0x77) {  // sw
        match mem_ops(&toks) {
            Ok((t, i, s)) => Ok(Instruction::Sw { t, i, s }),
            Err(e) => Err(e),
        }
    } else if eq3(m, 0x62, 0x65, 0x71) {  // beq
        match branch_ops(&toks) {
            Ok((s, t, i)) => Ok(Instruction::Beq { s, t, i }),
            Err(e) => Err(e),
        }
    } else if eq3(m, 0x62, 0x6e, 0x65) {  // bne
        match branch_ops(&toks) {
            Ok((s, t, i)) => Ok(Instruction::Bne { s, t, i }),
            Err(e) => Err(e),
        }
    } else if eq2(m, 0x6a, 0x72) {  // jr
        match one_reg(&toks) {
            Ok(s) => Ok(Instruction::Jr { s }),
            Err(e) => Err(e),
        }
    } else if eq4(m, 0x6a, 0x61, 0x6c, 0x72) {  // jalr
        match one_reg(&toks) {
            Ok(s) => Ok(Instruction::Jalr { s }),
            Err(e) => Err(e),
        }
    } else if eq5(m, 0x2e, 0x77, 0x6f, 0x72, 0x64) {  // .word
        match word_op(&toks) {
            Ok(i) => Ok(Instruction::Word { i }),
            Err(e) => Err(e),
        }
    } else {
        Err(AsmError::UnknownMnemonic(copy_bytes(m)))
    }
}

} // verus!

verus! {

// ---------------------------------------------------------------------------
// Lines.
// ---------------------------------------------------------------------------

/// One source line after parsing: the trimmed original text, the labels
/// defined on the line (colons stripped), and its one instruction (possibly
/// `noop`).
#[derive(Debug, Clone)]
pub struct Line {
    pub text: Vec<u8>,
    pub labels: Vec<Vec<u8>>,
    pub instruction: Instruction,
}

/// The mathematical model of a `Line`.
pub struct SpecLine {
    pub text: Seq<u8>,
    pub labels: Seq<Seq<u8>>,
    pub instruction: SpecInstruction,
}

impl View for Line {
    type V = SpecLine;

    open spec fn view(&self) -> SpecLine {
        SpecLine {
            text: self.text@,
            labels: seq_views(self.labels@),
            instruction: self.instruction@,
        }
    }
}

impl SpecLine {
    /// A line is well formed when its instruction is.
    pub open spec fn wf(self) -> bool {
        self.instruction.wf()
    }
}

/// The line a full source line parses to: text up to the first `;`, split
/// after the last remaining `:` into the label part and the instruction
/// part.
pub open spec fn spec_parse_line(s: Seq<u8>) -> Result<SpecLine, SpecAsmError> {
    let code = s.take(find_first(s, 0x3b, 0));
    let lci = after_last(code, 0x3a, code.len() as int);
    match spec_parse_instruction(code.skip(lci)) {
        Ok(ins) => Ok(
            SpecLine {
                text: spec_trim(s),
                labels: spec_labels(code.take(lci), 0),
                instruction: ins,
            },
        ),
        Err(e) => Err(e),
    }
}

/// The model of an exec line-parse result.
pub open spec fn line_res_view(r: Result<Line, AsmError>) -> Result<SpecLine, SpecAsmError> {
    match r {
        Ok(l) => Ok(l@),
        Err(e) => Err(e@),
    }
}

/// Parse one source line.
pub fn parse_line(line: &Vec<u8>) -> (r: Result<Line, AsmError>)
    ensures
        line_res_view(r) == spec_parse_line(line@),
        match r {
            Ok(l) => l@.wf(),
            Err(_) => true,
        },
{
    let mut semi: usize = 0;
    while semi < line.len() && line[semi] != 0x3b
        invariant
            semi <= line@.len(),
            find_first(line@, 0x3b, 0) == find_first(line@, 0x3b, semi as int),
        decreases line@.len() - semi,
    {
        semi = semi + 1;
    }
    let code = subvec(line, 0, semi);
    proof {
        assert(code@ =~= line@.take(find_first(line@, 0x3b, 0)));
    }
    let mut lci: usize = code.len();
    while lci > 0 && code[lci - 1] != 0x3a
        invariant
            lci <= code@.len(),
            after_last(code@, 0x3a, code@.len() as int) == after_last(code@, 0x3a, lci as int),
        decreases lci,
    {
        lci = lci - 1;
    }
    let labels_part = subvec(&code, 0, lci);
    let instr_part = subvec(&code, lci, code.len());
    proof {
        assert(labels_part@ =~= code@.take(lci as int));
        assert(instr_part@ =~= code@.skip(lci as int));
    }
    let labels = extract_labels(&labels_part);
    match parse_instruction(&instr_part) {
        Ok(ins) => {
            let text = trim(line);
            Ok(Line { text, labels, instruction: ins })
        },
        Err(e) => Err(e),
    }
}

/// The views of the elements of a sequence of lines.
pub open spec fn line_views(r: Seq<Line>) -> Seq<SpecLine> {
    Seq::new(r.len(), |k: int| r[k]@)
}

/// The lines a sequence of source lines parses to, from index `k` on; the
/// first failing line's error is the result.
pub open spec fn spec_parse_lines(ls: Seq<Seq<u8>>, k: int) -> Result<Seq<SpecLine>, SpecAsmError>
    decreases ls.len() - k,
{
    if k < 0 || k >= ls.len() {
        Ok(Seq::empty())
    } else {
        match spec_parse_line(ls[k]) {
            Err(e) => Err(e),
            Ok(l) => match spec_parse_lines(ls, k + 1) {
                Err(e) => Err(e),
                Ok(rest) => Ok(seq![l] + rest),
            },
        }
    }
}

/// Parse a whole source file, line by line.
pub fn parse_lines(lines: &Vec<Vec<u8>>) -> (r: Result<Vec<Line>, AsmError>)
    ensures
        ({
            let sr = spec_parse_lines(seq_views(lines@), 0);
            match r {
                Ok(v) => sr == Ok::<Seq<SpecLine>, SpecAsmError>(line_views(v@)) && (forall|k: int|
                    0 <= k < v@.len() ==> (#[trigger] v@[k]@).wf()),
                Err(e) => sr == Err::<Seq<SpecLine>, SpecAsmError>(e@),
            }
        }),
{
    let ghost ls = seq_views(lines@);
    let mut out: Vec<Line> = Vec::new();
    let mut i: usize = 0;
    while i < lines.len()
        invariant
            i <= lines@.len(),
            ls == seq_views(lines@),
            forall|k: int| 0 <= k < out@.len() ==> (#[trigger] out@[k]@).wf(),
            spec_parse_lines(ls, 0) == (match spec_parse_lines(ls, i as int) {
                Ok(rest) => Ok::<Seq<SpecLine>, SpecAsmError>(line_views(out@) + rest),
                Err(e) => Err::<Seq<SpecLine>, SpecAsmError>(e),
            }),
        decreases lines@.len() - i,
    {
        proof {
            assert(ls[i as int] == lines@[i as int]@);
        }
        match parse_line(&lines[i]) {
            Ok(l) => {
                let ghost prev = out@;
                out.push(l);
                proof {
                    assert(line_views(out@) =~= line_views(prev) + seq![l@]);
                    match spec_parse_lines(ls, i as int + 1) {
                        Ok(rest) => {
                            assert(spec_parse_lines(ls, i as int) == Ok::<
                                Seq<SpecLine>,
                                SpecAsmError,
                            >(seq![l@] + rest));
                            assert(line_views(prev) + (seq![l@] + rest) =~= line_views(out@)
                                + rest);
                        },
                        Err(_) => {},
                    }
                }
                i = i + 1;
            },
            Err(e) => {
                return Err(e);
            },
        }
    }
    proof {
        assert(line_views(out@) + Seq::<SpecLine>::empty() =~= line_views(out@));
    }
    Ok(out)
}

} // verus!

verus! {

/// The word value of a prompt answer: an unsigned decimal word, or a
/// signed decimal stored as its two's-complement word; anything else is
/// refused.
pub open spec fn spec_parse_int(s: Seq<u8>) -> Option<u32> {
    if dec_fits(s, 0) {
        Some(dec_value(s) as u32)
    } else if s.len() > 1 && s[0] == 0x2d && all_digits(s.skip(1)) && dec_value(s.skip(1))
        <= 0x80000000 {
        Some((((0x100000000 as int) - dec_value(s.skip(1)) as int) % (0x100000000 as int)) as u32)
    } else {
        None
    }
}

/// Parse a prompt answer (already trimmed) as a register value.
pub fn parse_int(s: &Vec<u8>) -> (r: Option<u32>)
    ensures
        r == spec_parse_int(s@),
{
    proof {
        assert(s@.skip(0) =~= s@);
    }
    if let Some(v) = parse_dec_u32(s, 0) {
        return Some(v);
    }
    if s.len() > 1 && s[0] == 0x2d {
        if let Some(v) = parse_dec_u32(s, 1) {
            if v <= 0x80000000 {
                let neg: u32 = if v == 0 {
                    0
                } else {
                    (0xffffffff - v) + 1
                };
                proof {
                    if v == 0 {
                        assert(((0x100000000 as int) - 0) % (0x100000000 as int) == 0);
                    }
                }
                return Some(neg);
            }
        }
    }
    None
}

} // verus!
