use mips_tools::assembler::assemble_program;
use mips_tools::emulator::Fault;
use mips_tools::emulator::MipsEmulator;
use mips_tools::emulator::ReadOutcome;
use mips_tools::emulator::RunResult;
use mips_tools::emulator::StepResult;
use mips_tools::emulator::MMIO_WRITE_ADDR;
use mips_tools::emulator::SENTINEL_PC;

fn assemble(lines: &[&str]) -> Vec<u32> {
    let src: Vec<Vec<u8>> = lines.iter().map(|l| l.as_bytes().to_vec()).collect();
    assemble_program(&src).unwrap()
}

fn machine(lines: &[&str]) -> MipsEmulator {
    MipsEmulator::new(&assemble(lines))
}

#[test]
fn empty_program_halts_immediately() {
    let mut m = machine(&["jr $31"]);
    m.init_twoints_registers(5, 7);
    // halts in exactly one step, with PC on the sentinel
    assert_eq!(m.step(), StepResult::Executed);
    assert_eq!(m.pc_value(), SENTINEL_PC);
    assert_eq!(m.step(), StepResult::Halted);
    assert_eq!(m.register(1), 5);
    assert_eq!(m.register(2), 7);
}

#[test]
fn initial_state() {
    let m = MipsEmulator::new(&[0x03e0_0008]);
    for i in 0..30 {
        assert_eq!(m.register(i), 0);
    }
    assert_eq!(m.register(30), 0x0010_0000);
    assert_eq!(m.register(31), 0x8123_456c);
    assert_eq!(m.pc_value(), 0);
    assert_eq!(m.hi_value(), 0);
    assert_eq!(m.lo_value(), 0);
}

#[test]
fn add_program_runs() {
    let mut m = machine(&["add $3,$1,$2", "jr $31"]);
    m.init_twoints_registers(20, 22);
    assert_eq!(m.run(100), RunResult::Halted);
    assert_eq!(m.register(3), 42);
}

#[test]
fn loop_program_runs() {
    let mut m = machine(&[
        "add $3, $0, $0",
        "add $4, $0, $0",
        "lis $6",
        ".word 1",
        "loop: slt $5, $4, $1",
        "beq $5, $0, done",
        "add $3, $3, $2",
        "add $4, $4, $6",
        "bne $4, $0, loop",
        "done: jr $31",
    ]);
    m.init_twoints_registers(3, 4);
    assert_eq!(m.run(1000), RunResult::Halted);
    assert_eq!(m.register(3), 12);
}

#[test]
fn label_to_word_runs() {
    let mut m = machine(&["lis $5", ".word mylabel", "jr $31", "mylabel: .word 0xCAFEBABE"]);
    assert_eq!(m.run(100), RunResult::Halted);
    assert_eq!(m.register(5), 0x0000_000c);
    // the word at byte address 12 holds the datum
    assert_eq!(m.read(12), ReadOutcome::Read(0xcafe_babe));
}

#[test]
fn mmio_echo() {
    let mut m = machine(&[
        "lis $1",
        ".word 0xffff0004",
        "lw $3, 0($1)",
        "lis $2",
        ".word 0xffff000c",
        "sw $3, 0($2)",
        "jr $31",
    ]);
    m.push_input(0x41);
    assert_eq!(m.run(100), RunResult::Halted);
    assert_eq!(m.output_bytes(), &vec![0x41]);
    assert_eq!(m.register(3), 0x41);
}

#[test]
fn mmio_wait_and_resume() {
    let mut m = machine(&[
        "lis $1",
        ".word 0xffff0004",
        "lw $3, 0($1)",
        "lis $2",
        ".word 0xffff000c",
        "sw $3, 0($2)",
        "jr $31",
    ]);
    // no input buffered yet: the machine pauses, unchanged
    assert_eq!(m.run(100), RunResult::NeedInput);
    m.push_input(0x42);
    assert_eq!(m.run(100), RunResult::Halted);
    assert_eq!(m.output_bytes(), &vec![0x42]);
}

#[test]
fn mmio_end_of_input_reads_ff() {
    let mut m = machine(&["lis $1", ".word 0xffff0004", "lw $3, 0($1)", "jr $31"]);
    m.set_input_eof();
    assert_eq!(m.run(100), RunResult::Halted);
    assert_eq!(m.register(3), 0xff);
}

#[test]
fn mmio_write_emits_one_byte_and_leaves_memory_alone() {
    let mut m = MipsEmulator::new(&[0x0000_0007]);
    m.write(MMIO_WRITE_ADDR, 0x1241);
    // exactly one byte, the low byte of the value
    assert_eq!(m.output_bytes(), &vec![0x41]);
    // the memory map is untouched: the port's address is still uninitialized
    assert_eq!(
        m.read(MMIO_WRITE_ADDR),
        ReadOutcome::Failed(Fault::UninitializedRead(MMIO_WRITE_ADDR))
    );
    assert_eq!(m.read(0), ReadOutcome::Read(7));
}

#[test]
fn uninitialized_read_faults() {
    let mut m = machine(&["lw $1, 0x1000($0)", "jr $31"]);
    assert_eq!(m.run(100), RunResult::Fault(Fault::UninitializedRead(0x1000)));
}

#[test]
fn illegal_instruction_faults() {
    let mut m = MipsEmulator::new(&[0x0000_0000]);
    assert_eq!(m.run(100), RunResult::Fault(Fault::IllegalInstruction(0)));
}

#[test]
fn division_by_zero_faults() {
    let mut m = machine(&["div $1, $0", "jr $31"]);
    m.set_register(1, 7);
    assert_eq!(m.run(100), RunResult::Fault(Fault::DivisionByZero));
}

#[test]
fn running_off_the_program_faults() {
    // no jump back: after the one instruction, the fetch at byte 4 fails
    let mut m = machine(&["add $1, $1, $1"]);
    assert_eq!(m.run(100), RunResult::Fault(Fault::UninitializedRead(4)));
}

#[test]
fn wrapping_arithmetic() {
    let mut m = machine(&["add $3, $1, $2", "sub $4, $0, $2", "jr $31"]);
    m.set_register(1, 0xffff_ffff);
    m.set_register(2, 1);
    assert_eq!(m.run(100), RunResult::Halted);
    assert_eq!(m.register(3), 0);
    assert_eq!(m.register(4), 0xffff_ffff);
}

#[test]
fn register_zero_is_writable() {
    let mut m = machine(&["add $0, $1, $2", "jr $31"]);
    m.set_register(1, 5);
    m.set_register(2, 6);
    assert_eq!(m.run(100), RunResult::Halted);
    assert_eq!(m.register(0), 11);
}

#[test]
fn slt_is_signed() {
    let mut m = machine(&["slt $3, $1, $2", "slt $4, $2, $1", "jr $31"]);
    m.set_register(1, 0xffff_ffff);  // -1
    m.set_register(2, 0);
    assert_eq!(m.run(100), RunResult::Halted);
    assert_eq!(m.register(3), 1);
    assert_eq!(m.register(4), 0);
}

#[test]
fn sltu_uses_less_or_equal() {
    // equal operands yield 1: the comparison is <=, a quirk kept from the
    // architecture this machine implements
    let mut m = machine(&["sltu $3, $1, $2", "sltu $4, $2, $0", "jr $31"]);
    m.set_register(1, 9);
    m.set_register(2, 9);
    assert_eq!(m.run(100), RunResult::Halted);
    assert_eq!(m.register(3), 1);
    assert_eq!(m.register(4), 0);
}

#[test]
fn branch_on_equal_register_indices() {
    // beq with the same register twice always branches; bne never does
    let mut m = machine(&[
        "bne $1, $1, bad",
        "beq $2, $2, good",
        "bad: .word 0",
        "good: jr $31",
    ]);
    m.set_register(1, 123);
    assert_eq!(m.run(100), RunResult::Halted);
}

#[test]
fn mult_is_signed() {
    let mut m = machine(&["mult $1, $2", "mfhi $3", "mflo $4", "jr $31"]);
    m.set_register(1, 0xffff_fffe);  // -2
    m.set_register(2, 3);
    assert_eq!(m.run(100), RunResult::Halted);
    assert_eq!(m.register(3), 0xffff_ffff);  // high word of -6
    assert_eq!(m.register(4), 0xffff_fffa);  // low word of -6
}

#[test]
fn multu_is_unsigned() {
    let mut m = machine(&["multu $1, $2", "jr $31"]);
    m.set_register(1, 0xffff_ffff);
    m.set_register(2, 2);
    assert_eq!(m.run(100), RunResult::Halted);
    assert_eq!(m.hi_value(), 1);
    assert_eq!(m.lo_value(), 0xffff_fffe);
}

#[test]
fn div_truncates_toward_zero() {
    let mut m = machine(&["div $1, $2", "jr $31"]);
    m.set_register(1, 0xffff_fff9);  // -7
    m.set_register(2, 2);
    assert_eq!(m.run(100), RunResult::Halted);
    assert_eq!(m.lo_value(), 0xffff_fffd);  // quotient -3
    assert_eq!(m.hi_value(), 0xffff_ffff);  // remainder -1
}

#[test]
fn divu_is_unsigned() {
    let mut m = machine(&["divu $1, $2", "jr $31"]);
    m.set_register(1, 7);
    m.set_register(2, 2);
    assert_eq!(m.run(100), RunResult::Halted);
    assert_eq!(m.lo_value(), 3);
    assert_eq!(m.hi_value(), 1);
}

#[test]
fn lis_loads_the_following_word() {
    let mut m = machine(&["lis $1", ".word 42", "jr $31"]);
    assert_eq!(m.run(100), RunResult::Halted);
    assert_eq!(m.register(1), 42);
}

#[test]
fn store_and_load_with_negative_displacement() {
    let mut m = machine(&["sw $2, -4($1)", "lw $3, -4($1)", "jr $31"]);
    m.set_register(1, 0x0010_0000);
    m.set_register(2, 0xdead_beef);
    assert_eq!(m.run(100), RunResult::Halted);
    assert_eq!(m.register(3), 0xdead_beef);
    assert_eq!(m.read(0x0010_0000 - 4), ReadOutcome::Read(0xdead_beef));
}

#[test]
fn jalr_links_the_return_address() {
    let mut m = machine(&["jalr $1", "jr $31"]);
    // jump straight to the sentinel; register 31 gets the address after the
    // jalr, which is 4
    m.set_register(1, SENTINEL_PC);
    assert_eq!(m.run(100), RunResult::Halted);
    assert_eq!(m.register(31), 4);
}

#[test]
fn out_of_steps() {
    // an infinite loop: beq $0,$0 back to itself
    let mut m = machine(&["loop: beq $0, $0, loop"]);
    assert_eq!(m.run(10), RunResult::OutOfSteps);
}

#[test]
fn twoints_register_fill() {
    let mut m = machine(&["jr $31"]);
    m.init_twoints_registers(11, 22);
    assert_eq!(m.register(1), 11);
    assert_eq!(m.register(2), 22);
    for i in 3..=29 {
        assert_eq!(m.register(i), 0xffff_fff6);
    }
    assert_eq!(m.register(30), 0x0010_0000);
    assert_eq!(m.register(31), SENTINEL_PC);
}
