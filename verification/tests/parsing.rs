use mips_tools::error::AsmError;
use mips_tools::instruction::Instruction;
use mips_tools::parser::parse_instruction;
use mips_tools::parser::parse_int;
use mips_tools::parser::parse_line;
use mips_tools::parser::parse_value;
use mips_tools::parser::trim;
use mips_tools::value::Value;

fn val(text: &str, bits: u8) -> Value {
    parse_value(&text.as_bytes().to_vec(), bits)
}

fn instr(text: &str) -> Result<Instruction, AsmError> {
    parse_instruction(&text.as_bytes().to_vec())
}

#[test]
fn value_unsigned_decimal() {
    assert_eq!(val("42", 32), Value::Literal(42));
    assert_eq!(val("4294967295", 32), Value::Literal(0xffff_ffff));
    // 16-bit contexts mask to the low 16 bits
    assert_eq!(val("65536", 16), Value::Literal(0));
    assert_eq!(val("65535", 16), Value::Literal(0xffff));
}

#[test]
fn value_signed_decimal() {
    assert_eq!(val("-1", 16), Value::Literal(0xffff));
    assert_eq!(val("-1", 32), Value::Literal(0xffff_ffff));
    assert_eq!(val("-4", 16), Value::Literal(0xfffc));
    assert_eq!(val("-2147483648", 32), Value::Literal(0x8000_0000));
    assert_eq!(val("-0", 32), Value::Literal(0));
}

#[test]
fn value_hexadecimal() {
    assert_eq!(val("0xCAFEBABE", 32), Value::Literal(0xcafe_babe));
    assert_eq!(val("0x10", 16), Value::Literal(0x10));
    assert_eq!(val("0xffff0004", 32), Value::Literal(0xffff_0004));
    // masked in 16-bit contexts
    assert_eq!(val("0x12345", 16), Value::Literal(0x2345));
}

#[test]
fn value_symbols() {
    assert_eq!(val("loop", 16), Value::Label(b"loop".to_vec()));
    // one-character names are symbols too
    assert_eq!(val("x", 16), Value::Label(b"x".to_vec()));
    // hex digits without the 0x prefix are a symbol reference
    assert_eq!(val("CAFE", 32), Value::Label(b"CAFE".to_vec()));
    // an overflowing numeral is a symbol reference
    assert_eq!(val("4294967296", 32), Value::Label(b"4294967296".to_vec()));
    assert_eq!(val("-2147483649", 32), Value::Label(b"-2147483649".to_vec()));
    assert_eq!(val("0xZZ", 32), Value::Label(b"0xZZ".to_vec()));
}

#[test]
fn instruction_shapes() {
    assert_eq!(instr("add $3, $1, $2"), Ok(Instruction::Add { d: 3, s: 1, t: 2 }));
    assert_eq!(instr("sltu $1,$30,$31"), Ok(Instruction::Sltu { d: 1, s: 30, t: 31 }));
    assert_eq!(instr("mult $4, $5"), Ok(Instruction::Mult { s: 4, t: 5 }));
    assert_eq!(instr("mfhi $17"), Ok(Instruction::Mfhi { d: 17 }));
    assert_eq!(
        instr("lw $1, 0x10($2)"),
        Ok(Instruction::Lw { t: 1, i: Value::Literal(0x10), s: 2 })
    );
    assert_eq!(
        instr("sw $3, -4($30)"),
        Ok(Instruction::Sw { t: 3, i: Value::Literal(0xfffc), s: 30 })
    );
    assert_eq!(
        instr("beq $1, $2, loop"),
        Ok(Instruction::Beq { s: 1, t: 2, i: Value::Label(b"loop".to_vec()) })
    );
    assert_eq!(instr("jr $31"), Ok(Instruction::Jr { s: 31 }));
    assert_eq!(
        instr(".word mylabel"),
        Ok(Instruction::Word { i: Value::Label(b"mylabel".to_vec()) })
    );
    assert_eq!(instr(".word 0xCAFEBABE"), Ok(Instruction::Word { i: Value::Literal(0xcafe_babe) }));
    assert_eq!(instr(""), Ok(Instruction::Noop));
    assert_eq!(instr("   "), Ok(Instruction::Noop));
}

#[test]
fn instruction_errors() {
    assert_eq!(
        instr("frobnicate $1"),
        Err(AsmError::UnknownMnemonic(b"frobnicate".to_vec()))
    );
    assert_eq!(instr("add $3, $1"), Err(AsmError::MissingOperand(b"add".to_vec())));
    assert_eq!(instr("jr"), Err(AsmError::MissingOperand(b"jr".to_vec())));
    assert_eq!(instr(".word"), Err(AsmError::MissingOperand(b".word".to_vec())));
    assert_eq!(
        instr("add $32, $1, $2"),
        Err(AsmError::MalformedRegister(b"$32".to_vec()))
    );
    assert_eq!(
        instr("add $3, x, $2"),
        Err(AsmError::MalformedRegister(b"x".to_vec()))
    );
    assert_eq!(instr("jalr $"), Err(AsmError::MalformedRegister(b"$".to_vec())));
}

#[test]
fn line_labels_and_comments() {
    let line = parse_line(&b"foo: bar: add $1, $1, $1 ; a comment".to_vec()).unwrap();
    assert_eq!(line.labels, vec![b"foo".to_vec(), b"bar".to_vec()]);
    assert_eq!(line.instruction, Instruction::Add { d: 1, s: 1, t: 1 });
    assert_eq!(line.text, b"foo: bar: add $1, $1, $1 ; a comment".to_vec());

    // a comment hides everything after it, colons included
    let commented = parse_line(&b"add $2,$2,$2 ; foo:".to_vec()).unwrap();
    assert!(commented.labels.is_empty());
    assert_eq!(commented.instruction, Instruction::Add { d: 2, s: 2, t: 2 });

    // a label must start with a letter; the match starts at the first one
    let odd = parse_line(&b"9abc: jr $31".to_vec()).unwrap();
    assert_eq!(odd.labels, vec![b"abc".to_vec()]);

    // a line of only labels carries a noop
    let bare = parse_line(&b"here:".to_vec()).unwrap();
    assert_eq!(bare.labels, vec![b"here".to_vec()]);
    assert_eq!(bare.instruction, Instruction::Noop);

    // an empty line is a noop without labels
    let empty = parse_line(&b"   ".to_vec()).unwrap();
    assert!(empty.labels.is_empty());
    assert_eq!(empty.instruction, Instruction::Noop);
}

#[test]
fn trimming() {
    assert_eq!(trim(&b"  add $1 \t\r\n".to_vec()), b"add $1".to_vec());
    assert_eq!(trim(&b"\t \t".to_vec()), Vec::<u8>::new());
    assert_eq!(trim(&b"x".to_vec()), b"x".to_vec());
}

#[test]
fn prompt_integers() {
    assert_eq!(parse_int(&b"42".to_vec()), Some(42));
    assert_eq!(parse_int(&b"4294967295".to_vec()), Some(0xffff_ffff));
    assert_eq!(parse_int(&b"-1".to_vec()), Some(0xffff_ffff));
    assert_eq!(parse_int(&b"-2147483648".to_vec()), Some(0x8000_0000));
    assert_eq!(parse_int(&b"-2147483649".to_vec()), None);
    assert_eq!(parse_int(&b"4294967296".to_vec()), None);
    assert_eq!(parse_int(&b"abc".to_vec()), None);
    assert_eq!(parse_int(&b"".to_vec()), None);
}
