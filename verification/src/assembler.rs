//! The assembler driver: encode a resolved program into machine words and
//! serialize the words as a big-endian byte image, plus the whole
//! source-to-words pipeline in one function.

use vstd::prelude::*;
use crate::error::AsmError;
use crate::error::SpecAsmError;
use crate::parser::Line;
use crate::parser::SpecLine;
use crate::parser::line_views;
use crate::parser::parse_lines;
use crate::parser::seq_views;
use crate::parser::spec_parse_lines;
use crate::resolver::extract_label_locations;
use crate::resolver::replace_labels;
use crate::resolver::spec_pass1;
use crate::resolver::spec_pass2;
use vstd::arithmetic::div_mod::lemma_fundamental_div_mod_converse;

verus! {

/// The machine words of a resolved program: one per line, in order.
pub open spec fn spec_assemble(lines: Seq<SpecLine>) -> Seq<u32> {
    Seq::new(lines.len(), |k: int| lines[k].instruction.spec_encode())
}

/// Encode a resolved program: one word per line, in order.
pub fn assemble(instructions: &Vec<Line>) -> (words: Vec<u32>)
    requires
        forall|i: int|
            0 <= i < instructions@.len() ==> (#[trigger] instructions@[i]@).wf()
                && instructions@[i]@.instruction.resolved() && !(instructions@[i]@.instruction
                is Noop),
    ensures
        words@ == spec_assemble(line_views(instructions@)),
{
    let mut words: Vec<u32> = Vec::new();
    let mut k: usize = 0;
    while k < instructions.len()
        invariant
            k <= instructions@.len(),
            words@.len() == k,
            forall|i: int|
                0 <= i < instructions@.len() ==> (#[trigger] instructions@[i]@).wf()
                    && instructions@[i]@.instruction.resolved() && !(instructions@[i]@.instruction
                    is Noop),
            forall|i: int|
                0 <= i < k ==> words@[i] == (#[trigger] instructions@[i]@).instruction.spec_encode(),
        decreases instructions@.len() - k,
    {
        proof {
            assert(instructions@[k as int]@.wf());
        }
        let line = &instructions[k];
        proof {
            assert(line@ == instructions@[k as int]@);
        }
        words.push(line.instruction.assemble());
        k = k + 1;
    }
    proof {
        assert(words@ =~= spec_assemble(line_views(instructions@)));
    }
    words
}

/// Byte `j` (0 = most significant) of the big-endian layout of `w`.
pub open spec fn spec_be_byte(w: u32, j: int) -> u8 {
    if j == 0 {
        (w / 0x1000000) as u8
    } else if j == 1 {
        ((w / 0x10000) % 0x100) as u8
    } else if j == 2 {
        ((w / 0x100) % 0x100) as u8
    } else {
        (w % 0x100) as u8
    }
}

/// Big-endian layout: word `k` of the program occupies bytes `4k..4k+4` of
/// the image, most significant byte first.
pub open spec fn spec_image(words: Seq<u32>) -> Seq<u8> {
    Seq::new(words.len() * 4, |b: int| spec_be_byte(words[b / 4], b % 4))
}

/// Serialize a word sequence as its big-endian byte image.
pub fn image_bytes(words: &Vec<u32>) -> (bytes: Vec<u8>)
    requires
        words@.len() * 4 <= usize::MAX,
    ensures
        bytes@ == spec_image(words@),
        bytes@.len() == 4 * words@.len(),
{
    let mut bytes: Vec<u8> = Vec::new();
    let mut k: usize = 0;
    while k < words.len()
        invariant
            k <= words@.len(),
            words@.len() * 4 <= usize::MAX,
            bytes@.len() == 4 * k,
            forall|b: int|
                0 <= b < bytes@.len() ==> bytes@[b] == spec_be_byte(words@[b / 4], b % 4),
        decreases words@.len() - k,
    {
        let w = words[k];
        bytes.push((w / 0x1000000) as u8);
        bytes.push(((w / 0x10000) % 0x100) as u8);
        bytes.push(((w / 0x100) % 0x100) as u8);
        bytes.push((w % 0x100) as u8);
        proof {
            lemma_fundamental_div_mod_converse(4 * k as int, 4, k as int, 0);
            lemma_fundamental_div_mod_converse(4 * k as int + 1, 4, k as int, 1);
            lemma_fundamental_div_mod_converse(4 * k as int + 2, 4, k as int, 2);
            lemma_fundamental_div_mod_converse(4 * k as int + 3, 4, k as int, 3);
        }
        k = k + 1;
    }
    proof {
        assert(bytes@ =~= spec_image(words@));
    }
    bytes
}

/// The words a whole source program assembles to: parse every line, bind
/// the labels, substitute them, and encode what remains.
pub open spec fn spec_assemble_program(src: Seq<Seq<u8>>) -> Result<Seq<u32>, SpecAsmError> {
    match spec_parse_lines(src, 0) {
        Err(e) => Err(e),
        Ok(lines) => match spec_pass1(lines, 0, 0, Map::empty()) {
            Err(e) => Err(e),
            Ok(m) => match spec_pass2(lines, 0, 0, m) {
                Err(e) => Err(e),
                Ok(resolved) => Ok(spec_assemble(resolved)),
            },
        },
    }
}

/// Parsing yields one record per source line.
proof fn lemma_parse_lines_len(ls: Seq<Seq<u8>>, k: int)
    requires
        0 <= k <= ls.len(),
    ensures
        match spec_parse_lines(ls, k) {
            Ok(v) => v.len() == ls.len() - k,
            Err(_) => true,
        },
    decreases ls.len() - k,
{
    if k < ls.len() {
        lemma_parse_lines_len(ls, k + 1);
    }
}

/// Assemble a whole source program, handed in as one byte vector per line.
/// The length bound keeps every byte address within one 32-bit word.
pub fn assemble_program(source_lines: &Vec<Vec<u8>>) -> (r: Result<Vec<u32>, AsmError>)
    requires
        source_lines@.len() <= 0x3FFFFFFF,
    ensures
        ({
            let sr = spec_assemble_program(seq_views(source_lines@));
            match r {
                Ok(words) => sr == Ok::<Seq<u32>, SpecAsmError>(words@),
                Err(e) => sr == Err::<Seq<u32>, SpecAsmError>(e@),
            }
        }),
{
    proof {
        lemma_parse_lines_len(seq_views(source_lines@), 0);
    }
    let lines = match parse_lines(source_lines) {
        Ok(v) => v,
        Err(e) => {
            return Err(e);
        },
    };
    let st = match extract_label_locations(&lines) {
        Ok(st) => st,
        Err(e) => {
            return Err(e);
        },
    };
    let resolved = match replace_labels(&lines, &st) {
        Ok(v) => v,
        Err(e) => {
            return Err(e);
        },
    };
    let words = assemble(&resolved);
    Ok(words)
}

} // verus!
