use mips_tools::instruction::Instruction;
use mips_tools::instruction::std_word;
use mips_tools::instruction::sti_word;
use mips_tools::value::Value;
use mips_tools::assembler::image_bytes;

fn roundtrip(ins: Instruction) {
    let word = ins.assemble();
    assert_eq!(Instruction::disassemble(word), ins);
}

#[test]
fn roundtrip_register_format() {
    roundtrip(Instruction::Add { d: 3, s: 1, t: 2 });
    roundtrip(Instruction::Sub { d: 31, s: 0, t: 15 });
    roundtrip(Instruction::Slt { d: 7, s: 8, t: 9 });
    roundtrip(Instruction::Sltu { d: 1, s: 30, t: 31 });
    roundtrip(Instruction::Mult { s: 4, t: 5 });
    roundtrip(Instruction::Multu { s: 0, t: 31 });
    roundtrip(Instruction::Div { s: 12, t: 13 });
    roundtrip(Instruction::Divu { s: 31, t: 0 });
    roundtrip(Instruction::Mfhi { d: 17 });
    roundtrip(Instruction::Mflo { d: 0 });
    roundtrip(Instruction::Lis { d: 31 });
    roundtrip(Instruction::Jr { s: 31 });
    roundtrip(Instruction::Jalr { s: 1 });
}

#[test]
fn roundtrip_immediate_format() {
    roundtrip(Instruction::Lw { t: 1, i: Value::Literal(0xffff), s: 2 });
    roundtrip(Instruction::Sw { t: 31, i: Value::Literal(0), s: 30 });
    roundtrip(Instruction::Beq { s: 5, t: 0, i: Value::Literal(0x8000) });
    roundtrip(Instruction::Bne { s: 4, t: 0, i: Value::Literal(0xfffb) });
}

#[test]
fn encode_exact_words() {
    assert_eq!(Instruction::Add { d: 3, s: 1, t: 2 }.assemble(), 0x0022_1820);
    assert_eq!(Instruction::Jr { s: 31 }.assemble(), 0x03e0_0008);
    assert_eq!(Instruction::Jalr { s: 31 }.assemble(), 0x03e0_0009);
    assert_eq!(Instruction::Lw { t: 3, i: Value::Literal(0), s: 1 }.assemble(), 0x8c23_0000);
    assert_eq!(Instruction::Sw { t: 3, i: Value::Literal(4), s: 2 }.assemble(), 0xac43_0004);
    assert_eq!(
        Instruction::Beq { s: 5, t: 0, i: Value::Literal(3) }.assemble(),
        0x10a0_0003
    );
    assert_eq!(
        Instruction::Bne { s: 4, t: 0, i: Value::Literal(0xfffb) }.assemble(),
        0x1480_fffb
    );
    assert_eq!(Instruction::Word { i: Value::Literal(0xcafe_babe) }.assemble(), 0xcafe_babe);
}

#[test]
fn packing_formulas() {
    assert_eq!(std_word(1, 2, 3, 0x20), (1 << 21) | (2 << 16) | (3 << 11) | 0x20);
    assert_eq!(sti_word(0x23, 2, 1, 0x10), (0x23 << 26) | (2 << 21) | (1 << 16) | 0x10);
    // the 16-bit immediate is masked
    assert_eq!(sti_word(0x23, 0, 0, 0xdead_beef), (0x23 << 26) | 0xbeef);
}

#[test]
fn decode_unknown_patterns_become_words() {
    // opcode 0 with an unknown function code
    assert_eq!(
        Instruction::disassemble(0x0000_0001),
        Instruction::Word { i: Value::Literal(0x0000_0001) }
    );
    // an unknown top opcode
    assert_eq!(
        Instruction::disassemble(0xffff_ffff),
        Instruction::Word { i: Value::Literal(0xffff_ffff) }
    );
    // a `.word` whose bits happen to encode a real instruction does not
    // round-trip: it decodes to that instruction
    assert_eq!(Instruction::disassemble(0x03e0_0008), Instruction::Jr { s: 31 });
}

#[test]
fn big_endian_layout() {
    let bytes = image_bytes(&vec![0xdead_beef]);
    assert_eq!(bytes, vec![0xde, 0xad, 0xbe, 0xef]);
    let bytes2 = image_bytes(&vec![0x0000_0001, 0x8123_456c]);
    assert_eq!(bytes2, vec![0x00, 0x00, 0x00, 0x01, 0x81, 0x23, 0x45, 0x6c]);
}
