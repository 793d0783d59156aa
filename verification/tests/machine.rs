use asmcpu::assembler::assemble;
use asmcpu::catalog::{
    decode, decode_program, encode_program, Instruction, Opcode, MEMORY_SIZE,
};
use asmcpu::cpu::{run, HaltReason, CPU};
use std::collections::HashMap;

#[test]
fn runs_the_four_instruction_program() {
    let (bytes, _) = assemble("MOV R0,5\nMOV R1,10\nADD R0,R1\nHALT").unwrap();
    let cpu = run(&bytes, HashMap::new());
    assert_eq!(cpu.registers, [15, 10, 0, 0]);
    assert!(cpu.halted);
    assert_eq!(cpu.halt_reason, Some(HaltReason::Normal));
    assert_eq!(cpu.pc, 9);
}

#[test]
fn jump_to_itself_is_stopped_on_the_sixth_pair() {
    let (bytes, _) = assemble("L:\nJMP L\n").unwrap();
    assert_eq!(bytes, vec![0x03, 0x00]);
    let cpu = run(&bytes, HashMap::new());
    assert_eq!(cpu.halt_reason, Some(HaltReason::LoopDetected));
    assert_eq!(cpu.loop_counter.get(0, 0), 6);
    assert_eq!(cpu.execution_count.get(&0), Some(&7));
    assert_eq!(cpu.registers, [0, 0, 0, 0]);
}

#[test]
fn loop_is_not_detected_before_the_sixth_observation() {
    let mut cpu = CPU::new();
    cpu.load_program(&vec![0x03, 0x00]);
    cpu.step();
    assert_eq!(cpu.loop_counter.get(0, 0), 0);
    for seen in 1..=5 {
        cpu.step();
        assert_eq!(cpu.loop_counter.get(0, 0), seen);
        assert!(!cpu.halted);
        assert_eq!(cpu.halt_reason, None);
    }
    cpu.step();
    assert_eq!(cpu.loop_counter.get(0, 0), 6);
    assert!(cpu.halted);
    assert_eq!(cpu.halt_reason, Some(HaltReason::LoopDetected));
}

#[test]
fn two_instruction_cycle_is_stopped() {
    let (bytes, _) = assemble("MOV R1, 1\nL:\nADD R0, R1\nJMP L\n").unwrap();
    let cpu = run(&bytes, HashMap::new());
    assert_eq!(cpu.halt_reason, Some(HaltReason::LoopDetected));
    assert_eq!(cpu.loop_counter.get(3, 6), 6);
    assert_eq!(cpu.loop_counter.get(6, 3), 5);
    assert_eq!(cpu.registers, [6, 1, 0, 0]);
}

#[test]
fn unknown_opcode_halts_the_machine() {
    let cpu = run(&vec![0x01, 0x02, 0x07, 0x42], HashMap::new());
    assert_eq!(cpu.halt_reason, Some(HaltReason::UnknownOpcode));
    assert_eq!(cpu.registers, [0, 0, 7, 0]);
    assert_eq!(cpu.pc, 3);
}

#[test]
fn running_off_the_program_meets_a_zero_byte() {
    let cpu = run(&vec![0x01, 0x00, 0x09], HashMap::new());
    assert_eq!(cpu.halt_reason, Some(HaltReason::UnknownOpcode));
    assert_eq!(cpu.pc, 3);
}

#[test]
fn register_operand_out_of_range_does_not_decode() {
    let cpu = run(&vec![0x01, 0x04, 0x09, 0xFF], HashMap::new());
    assert_eq!(cpu.halt_reason, Some(HaltReason::UnknownOpcode));
    assert_eq!(cpu.registers, [0, 0, 0, 0]);
}

#[test]
fn truncated_instruction_at_the_end_of_memory_does_not_decode() {
    let mut program = vec![0x90u8; MEMORY_SIZE];
    program[MEMORY_SIZE - 1] = 0x01;
    let mut cpu = CPU::new();
    cpu.load_program(&program);
    cpu.pc = MEMORY_SIZE - 1;
    cpu.step();
    assert_eq!(cpu.halt_reason, Some(HaltReason::UnknownOpcode));
}

#[test]
fn nop_advances_by_one() {
    let cpu = run(&vec![0x90, 0x90, 0xFF], HashMap::new());
    assert_eq!(cpu.halt_reason, Some(HaltReason::Normal));
    assert_eq!(cpu.pc, 2);
}

#[test]
fn addition_wraps_around() {
    let mut cpu = CPU::new();
    cpu.load_program(&vec![0x02, 0x00, 0x01, 0xFF]);
    cpu.registers = [i32::MAX, 1, 0, 0];
    cpu.execute();
    assert_eq!(cpu.registers, [i32::MIN, 1, 0, 0]);
}

#[test]
fn halted_machine_does_not_move() {
    let mut cpu = run(&vec![0xFF], HashMap::new());
    let before = (cpu.pc, cpu.registers, cpu.execution_count.clone());
    cpu.step();
    cpu.execute();
    assert_eq!((cpu.pc, cpu.registers, cpu.execution_count.clone()), before);
}

#[test]
fn profile_accumulates_over_runs() {
    let (bytes, _) = assemble("MOV R0, 1\nHALT").unwrap();
    let first = run(&bytes, HashMap::new());
    assert_eq!(first.execution_history.get(&0), Some(&1));
    assert_eq!(first.execution_history.get(&3), Some(&1));
    let second = run(&bytes, first.execution_history);
    assert_eq!(second.execution_history.get(&0), Some(&2));
    assert_eq!(second.execution_history.get(&3), Some(&2));
    assert_eq!(second.execution_count.get(&0), Some(&1));
}

#[test]
fn window_keeps_the_ten_newest_addresses() {
    let mut program = vec![0x90u8; 14];
    program.push(0xFF);
    let cpu = run(&program, HashMap::new());
    let window: Vec<usize> = cpu.prediction_history.iter().copied().collect();
    assert_eq!(window, vec![5, 6, 7, 8, 9, 10, 11, 12, 13, 14]);
}

#[test]
fn new_machine_is_zeroed() {
    let cpu = CPU::new();
    assert_eq!(cpu.registers, [0, 0, 0, 0]);
    assert_eq!(cpu.memory, vec![0u8; MEMORY_SIZE]);
    assert_eq!(cpu.pc, 0);
    assert!(!cpu.halted);
    assert_eq!(cpu.halt_reason, None);
}

#[test]
fn load_program_leaves_the_rest_of_memory() {
    let mut cpu = CPU::new();
    cpu.load_program(&vec![1, 2, 3, 4]);
    cpu.load_program(&vec![9, 9]);
    assert_eq!(&cpu.memory[..6], &[9, 9, 3, 4, 0, 0]);
    assert_eq!(cpu.memory.len(), MEMORY_SIZE);
}

#[test]
fn encoding_round_trips() {
    let program = vec![
        Instruction::Mov { reg: 3, imm: 255 },
        Instruction::Add { dst: 0, src: 3 },
        Instruction::Jmp { target: 200 },
        Instruction::Nop,
        Instruction::Halt,
    ];
    let bytes = encode_program(&program);
    assert_eq!(bytes, vec![0x01, 3, 255, 0x02, 0, 3, 0x03, 200, 0x90, 0xFF]);
    assert_eq!(decode_program(&bytes), Some(program));
}

#[test]
fn truncated_program_does_not_decode() {
    assert_eq!(decode_program(&vec![0x01, 0x00]), None);
    assert_eq!(decode_program(&vec![0x03]), None);
    assert_eq!(decode_program(&vec![0x07]), None);
    assert_eq!(decode_program(&vec![]), Some(vec![]));
    assert_eq!(decode(&vec![0xFF, 0x02, 0x01, 0x03], 1), Some(Instruction::Add { dst: 1, src: 3 }));
    assert_eq!(decode(&vec![0xFF], 1), None);
}

#[test]
fn catalog_lists_tags_widths_and_arity() {
    let table = [
        (Opcode::Mov, 0x01u8, 3usize, 2usize),
        (Opcode::Add, 0x02, 3, 2),
        (Opcode::Jmp, 0x03, 2, 1),
        (Opcode::Halt, 0xFF, 1, 0),
        (Opcode::Nop, 0x90, 1, 0),
    ];
    for (op, tag, width, arity) in table {
        assert_eq!(op.tag(), tag);
        assert_eq!(op.width(), width);
        assert_eq!(op.arity(), arity);
        assert_eq!(Opcode::from_tag(tag), Some(op));
    }
    assert_eq!(Opcode::from_tag(0x00), None);
}
