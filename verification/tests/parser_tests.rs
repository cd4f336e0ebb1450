use custom_assembly::parser::{
    parse_code, parse_instruction, parse_label, parse_operand, parse_register, try_parse_code,
};
use custom_assembly::cpu::Cpu;
use custom_assembly::types::{Instruction, Operand, Register};

#[test]
fn test_parse_label() {
    assert_eq!(parse_label(" DONE:"), Some(String::from("DONE")));
}

#[test]
fn test_parse_register() {
    assert_eq!(parse_register("r4"), Some(Register::R4));
}

#[test]
fn test_parse_immediate_operand() {
    assert_eq!(parse_operand("16"), Some(Operand::Immediate(16)));
}

#[test]
fn test_parse_register_operand() {
    assert_eq!(parse_operand("r8"), Some(Operand::Register(Register::R8)));
}

#[test]
fn test_parse_indirect_operand() {
    assert_eq!(parse_operand("[r5]"), Some(Operand::Indirect(Register::R5)));
}

#[test]
fn test_parse_instruction_add() {
    assert_eq!(
        parse_instruction("ADD r2"),
        Some(Instruction::Add(Operand::Register(Register::R2)))
    );
}

#[test]
fn test_parse_instruction_sub() {
    assert_eq!(
        parse_instruction("SUB 12"),
        Some(Instruction::Sub(Operand::Immediate(12)))
    );
}

#[test]
fn test_parse_instruction_mov() {
    assert_eq!(
        parse_instruction("MOV [R3], R7"),
        Some(Instruction::Mov(
            Operand::Indirect(Register::R3),
            Register::R7
        ))
    );
}

#[test]
fn test_register_names_case_insensitive() {
    assert_eq!(parse_register("ACC"), Some(Register::Acc));
    assert_eq!(parse_register("AcC"), Some(Register::Acc));
    assert_eq!(parse_register(" R0 "), Some(Register::R0));
    assert_eq!(parse_register("r8"), Some(Register::R8));
    assert_eq!(parse_register("isp"), None);
    assert_eq!(parse_register("r9"), None);
    assert_eq!(parse_register(""), None);
}

#[test]
fn test_operand_shapes() {
    assert_eq!(parse_operand("[R0]"), Some(Operand::Indirect(Register::R0)));
    assert_eq!(parse_operand("acc"), Some(Operand::Register(Register::Acc)));
    assert_eq!(parse_operand("0"), Some(Operand::Immediate(0)));
    assert_eq!(parse_operand("65535"), Some(Operand::Immediate(65535)));
    assert_eq!(parse_operand("65536"), None);
    assert_eq!(parse_operand("007"), Some(Operand::Immediate(7)));
    assert_eq!(parse_operand("+16"), Some(Operand::Immediate(16)));
    assert_eq!(parse_operand("+"), None);
    assert_eq!(parse_operand("-1"), None);
    assert_eq!(parse_operand("[zz]"), None);
    assert_eq!(parse_operand("[]"), None);
    assert_eq!(parse_operand(""), None);
}

#[test]
fn test_label_shapes() {
    assert_eq!(parse_label("loop:"), Some(String::from("loop")));
    assert_eq!(parse_label(":"), Some(String::from("")));
    assert_eq!(parse_label("a b:"), None);
    assert_eq!(parse_label("nope"), None);
    assert_eq!(parse_label(""), None);
}

#[test]
fn test_instruction_shapes() {
    assert_eq!(
        parse_instruction("add 1, "),
        Some(Instruction::Add(Operand::Immediate(1)))
    );
    assert_eq!(parse_instruction("add"), None);
    assert_eq!(parse_instruction("sub zz"), None);
    assert_eq!(parse_instruction("mov 1"), None);
    assert_eq!(
        parse_instruction("mov 1 r0"),
        Some(Instruction::Mov(Operand::Immediate(1), Register::R0))
    );
    assert_eq!(parse_instruction("mul 2"), None);
    assert_eq!(parse_instruction("jmp"), None);
    assert_eq!(parse_instruction(""), None);
}

#[test]
fn test_parse_code_builds_program() {
    let mut cpu = Cpu::build();
    parse_code(String::from("ADD r2"), &mut cpu);
    assert_eq!(cpu.instructions.len(), 1);
    assert_eq!(
        cpu.instructions[0],
        Instruction::Add(Operand::Register(Register::R2))
    );
}

#[test]
fn test_parse_code_labels_bind_to_next_index() {
    let mut cpu = Cpu::build();
    parse_code(
        String::from("START:\nADD 1\n\n// a comment\nMID:\nSUB 1\nEND:"),
        &mut cpu,
    );
    assert_eq!(cpu.instructions.len(), 2);
    assert_eq!(cpu.labels.get("START"), Some(0));
    assert_eq!(cpu.labels.get("MID"), Some(1));
    assert_eq!(cpu.labels.get("END"), Some(2));
    assert_eq!(cpu.labels.get("ABSENT"), None);
}

#[test]
fn test_duplicate_label_overrides() {
    let mut cpu = Cpu::build();
    parse_code(String::from("X:\nADD 1\nX:"), &mut cpu);
    assert_eq!(cpu.labels.get("X"), Some(1));
}

#[test]
fn test_try_parse_code_reports_first_bad_line() {
    let mut cpu = Cpu::build();
    let r = try_parse_code("ADD 1\nbogus line\nSUB 1", &mut cpu);
    assert_eq!(r, Err(1));
    assert_eq!(cpu.instructions.len(), 0);
    assert_eq!(cpu.labels.len(), 0);
}

#[test]
fn test_try_parse_code_accepts_good_program() {
    let mut cpu = Cpu::build();
    let r = try_parse_code("// setup\nADD 5\nSUB 2\n", &mut cpu);
    assert_eq!(r, Ok(()));
    assert_eq!(cpu.instructions.len(), 2);
}
