use custom_assembly::cpu::{Cpu, Fault};
use custom_assembly::parser::parse_code;
use custom_assembly::types::{Config, Instruction, Operand, Register};

#[test]
fn test_build_starts_zeroed() {
    let cpu = Cpu::build();
    assert_eq!(cpu.registers, [0u16; 11]);
    assert_eq!(cpu.instructions.len(), 0);
    assert_eq!(cpu.memory.len(), 0);
    assert_eq!(cpu.pc, 0);
}

#[test]
fn test_write_and_read_reg() {
    let mut cpu = Cpu::build();
    cpu.write_reg(Register::R3, 42);
    assert_eq!(cpu.read_reg(Register::R3), 42);
    assert_eq!(cpu.read_reg(Register::Acc), 0);
}

#[test]
fn test_add_immediate() {
    let mut cpu = Cpu::build();
    cpu.instructions.push(Instruction::Add(Operand::Immediate(5)));
    assert_eq!(cpu.execute(), Ok(()));
    assert_eq!(cpu.read_reg(Register::Acc), 5);
}

#[test]
fn test_add_overflow_faults_instead_of_wrapping() {
    let mut cpu = Cpu::build();
    cpu.instructions.push(Instruction::Add(Operand::Immediate(65535)));
    cpu.instructions.push(Instruction::Add(Operand::Immediate(1)));
    assert_eq!(cpu.execute(), Err(Fault::Overflow));
    assert_eq!(cpu.read_reg(Register::Acc), 65535);
}

#[test]
fn test_sub_underflow_faults_and_leaves_acc() {
    let mut cpu = Cpu::build();
    cpu.instructions.push(Instruction::Sub(Operand::Immediate(1)));
    assert_eq!(cpu.execute(), Err(Fault::Underflow));
    assert_eq!(cpu.read_reg(Register::Acc), 0);
}

#[test]
fn test_indirect_out_of_bounds_faults_and_leaves_dest() {
    let mut cpu = Cpu::build();
    cpu.write_reg(Register::R0, 7);
    cpu.write_reg(Register::R1, 99);
    cpu.instructions
        .push(Instruction::Mov(Operand::Indirect(Register::R0), Register::R1));
    assert_eq!(cpu.execute(), Err(Fault::InvalidAddress(7)));
    assert_eq!(cpu.read_reg(Register::R1), 99);
}

#[test]
fn test_indirect_in_bounds_reads_memory() {
    let mut cpu = Cpu::build();
    cpu.memory.push(11);
    cpu.memory.push(22);
    cpu.write_reg(Register::R0, 1);
    cpu.instructions
        .push(Instruction::Mov(Operand::Indirect(Register::R0), Register::R4));
    assert_eq!(cpu.execute(), Ok(()));
    assert_eq!(cpu.read_reg(Register::R4), 22);
}

#[test]
fn test_mov_register_to_register() {
    let mut cpu = Cpu::build();
    cpu.write_reg(Register::R2, 9);
    cpu.instructions
        .push(Instruction::Mov(Operand::Register(Register::R2), Register::R8));
    assert_eq!(cpu.execute(), Ok(()));
    assert_eq!(cpu.read_reg(Register::R8), 9);
}

#[test]
fn test_unsupported_instruction_faults_at_its_point() {
    let mut cpu = Cpu::build();
    cpu.instructions.push(Instruction::Add(Operand::Immediate(1)));
    cpu.instructions.push(Instruction::Mul(Operand::Immediate(2)));
    cpu.instructions.push(Instruction::Add(Operand::Immediate(5)));
    assert_eq!(
        cpu.execute(),
        Err(Fault::Unsupported(Instruction::Mul(Operand::Immediate(2))))
    );
    assert_eq!(cpu.read_reg(Register::Acc), 1);
}

#[test]
fn test_each_unwired_variant_faults() {
    let one = Operand::Immediate(1);
    let unwired = [
        Instruction::Mul(one),
        Instruction::Div(one),
        Instruction::Xor(one, one),
        Instruction::And(one, one),
        Instruction::Or(one, one),
        Instruction::Not(one, one),
        Instruction::Jmp,
        Instruction::Jnz,
        Instruction::Jez,
        Instruction::Jgz,
        Instruction::Jlz,
    ];
    for instr in unwired {
        let mut cpu = Cpu::build();
        cpu.instructions.push(instr);
        assert_eq!(cpu.execute(), Err(Fault::Unsupported(instr)));
    }
}

#[test]
fn test_batch_and_step_agree() {
    let code = "start:\nADD 5\nMOV acc, r3\nSUB 2\nADD [r0]\n";
    let mut batch = Cpu::build();
    batch.memory.push(10);
    parse_code(String::from(code), &mut batch);
    assert_eq!(batch.execute(), Ok(()));

    let mut stepped = Cpu::build();
    stepped.memory.push(10);
    parse_code(String::from(code), &mut stepped);
    while stepped.pc < stepped.instructions.len() {
        assert_eq!(stepped.execute_one(), Ok(()));
    }
    assert_eq!(batch.registers, stepped.registers);
    assert_eq!(batch.read_reg(Register::Acc), 13);
    assert_eq!(batch.read_reg(Register::R3), 5);
}

#[test]
fn test_execute_one_past_end_is_a_no_op() {
    let mut cpu = Cpu::build();
    cpu.instructions.push(Instruction::Add(Operand::Immediate(1)));
    assert_eq!(cpu.execute_one(), Ok(()));
    assert_eq!(cpu.pc, 1);
    assert_eq!(cpu.execute_one(), Ok(()));
    assert_eq!(cpu.pc, 1);
    assert_eq!(cpu.read_reg(Register::Acc), 1);
}

#[test]
fn test_execute_one_fault_leaves_pc() {
    let mut cpu = Cpu::build();
    cpu.instructions.push(Instruction::Sub(Operand::Immediate(1)));
    assert_eq!(cpu.execute_one(), Err(Fault::Underflow));
    assert_eq!(cpu.pc, 0);
}

#[test]
fn test_config_build() {
    let args = vec![String::from("vm"), String::from("prog.asm")];
    let config = Config::build(args).unwrap();
    assert_eq!(config.path, "prog.asm");
    match Config::build(vec![String::from("vm")]) {
        Err(e) => assert_eq!(e, "Expected path"),
        Ok(_) => panic!("expected a usage error"),
    }
}
