use mips_tools::assembler::assemble_program;
use mips_tools::error::AsmError;
use mips_tools::parser::parse_lines;
use mips_tools::resolver::extract_label_locations;

fn source(lines: &[&str]) -> Vec<Vec<u8>> {
    lines.iter().map(|l| l.as_bytes().to_vec()).collect()
}

#[test]
fn empty_program_image() {
    // one `jr $31` assembles to exactly one word
    let words = assemble_program(&source(&["jr $31"])).unwrap();
    assert_eq!(words, vec![0x03e0_0008]);
}

#[test]
fn add_program_image() {
    let words = assemble_program(&source(&["add $3,$1,$2", "jr $31"])).unwrap();
    assert_eq!(words, vec![0x0022_1820, 0x03e0_0008]);
}

#[test]
fn loop_program_image_and_branch_offsets() {
    // computes r3 = r2 added r1 times, with slt and branches to labels
    let words = assemble_program(&source(&[
        "add $3, $0, $0",
        "add $4, $0, $0",
        "lis $6",
        ".word 1",
        "loop: slt $5, $4, $1",
        "beq $5, $0, done",
        "add $3, $3, $2",
        "add $4, $4, $6",
        "bne $4, $0, loop",
        "done: jr $31",
    ]))
    .unwrap();
    assert_eq!(
        words,
        vec![
            0x0000_1820,
            0x0000_2020,
            0x0000_3014,
            0x0000_0001,
            0x0081_282a,
            // `done` is at byte 36, the beq at 20: offset (36 - 24) / 4 = 3
            0x10a0_0003,
            0x0062_1820,
            0x0086_2020,
            // `loop` is at byte 16, the bne at 32: (16 - 36) / 4 = -5 = 0xfffb
            0x1480_fffb,
            0x03e0_0008,
        ]
    );
}

#[test]
fn label_to_word_image() {
    let words = assemble_program(&source(&[
        "lis $5",
        ".word mylabel",
        "jr $31",
        "mylabel: .word 0xCAFEBABE",
    ]))
    .unwrap();
    // mylabel sits at byte address 12 and the `.word mylabel` resolves to it
    assert_eq!(words, vec![0x0000_2814, 0x0000_000c, 0x03e0_0008, 0xcafe_babe]);
}

#[test]
fn addressing_invariant_on_labels() {
    // the k-th non-noop line sits at byte address 4k; labels bind to the
    // address of the next emitted word, noop lines and comments free
    let lines = parse_lines(&source(&[
        "; a comment only",
        "start:",
        "  add $1, $1, $1",
        "mid: ; nothing here",
        "  jr $31",
        "end:",
    ]))
    .unwrap();
    let table = extract_label_locations(&lines).unwrap();
    assert_eq!(table.lookup(&b"start".to_vec()), Some(0));
    assert_eq!(table.lookup(&b"mid".to_vec()), Some(4));
    assert_eq!(table.lookup(&b"end".to_vec()), Some(8));
    assert_eq!(table.lookup(&b"absent".to_vec()), None);
}

#[test]
fn duplicate_label_is_fatal() {
    // the same label on two distinct lines aborts with a duplicate-label
    // diagnostic and no image
    let r = assemble_program(&source(&["foo: add $1, $1, $1", "foo: jr $31"]));
    assert_eq!(r, Err(AsmError::DuplicateLabel(b"foo".to_vec())));
}

#[test]
fn undefined_label_is_fatal() {
    let r = assemble_program(&source(&["beq $0, $0, nowhere", "jr $31"]));
    assert_eq!(r, Err(AsmError::UndefinedLabel(b"nowhere".to_vec())));
    let r2 = assemble_program(&source(&[".word missing"]));
    assert_eq!(r2, Err(AsmError::UndefinedLabel(b"missing".to_vec())));
}

#[test]
fn parse_errors_propagate() {
    let r = assemble_program(&source(&["jr $31", "launch $1"]));
    assert_eq!(r, Err(AsmError::UnknownMnemonic(b"launch".to_vec())));
    let r2 = assemble_program(&source(&["add $1, $99, $2"]));
    assert_eq!(r2, Err(AsmError::MalformedRegister(b"$99".to_vec())));
}

#[test]
fn noop_lines_emit_nothing() {
    let words = assemble_program(&source(&["", "; comment", "jr $31", "   "])).unwrap();
    assert_eq!(words, vec![0x03e0_0008]);
}

#[test]
fn absolute_addresses_in_memory_operands() {
    // lw/sw take the label's absolute address, masked to 16 bits at encode
    let words = assemble_program(&source(&[
        "lw $1, data($0)",
        "jr $31",
        "data: .word 7",
    ]))
    .unwrap();
    // data is at byte 8: lw $1, 8($0)
    assert_eq!(words, vec![0x8c01_0008, 0x03e0_0008, 0x0000_0007]);
}
