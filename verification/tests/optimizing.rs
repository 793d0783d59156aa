use asmcpu::assembler::{assemble, collect_labels, LabelTable};
use asmcpu::catalog::Instruction;
use asmcpu::cpu::{run, HaltReason, CPU};
use asmcpu::optimizer::{
    annotate_by_profile, assemble_optimized, classify, is_exhausted, is_noop_jump, is_redundant,
    is_redundant_add, is_redundant_move, judge, keep_survivors, optimize_assembly, read_lines,
};
use asmcpu::catalog::Opcode;
use std::collections::HashMap;

fn lines(text: &[&str]) -> Vec<String> {
    text.iter().map(|s| s.to_string()).collect()
}

#[test]
fn second_of_two_identical_moves_is_removed() {
    let program = lines(&["MOV R0, 5", "MOV R0, 5"]);
    let out = optimize_assembly(&program, &LabelTable::new());
    assert_eq!(out, lines(&["MOV R0, 5"]));
    assert_eq!(out.len(), program.len() - 1);
}

#[test]
fn first_of_a_run_of_moves_survives() {
    let program = lines(&["MOV R0, 5", "MOV R0,5", "MOV R0 5", "MOV R0, 6", "MOV R0, 5"]);
    let out = optimize_assembly(&program, &LabelTable::new());
    assert_eq!(out, lines(&["MOV R0, 5", "MOV R0, 6", "MOV R0, 5"]));
}

#[test]
fn move_is_kept_when_another_instruction_stands_between() {
    let program = lines(&["MOV R0, 5", "ADD R0, R1", "MOV R0, 5", "HALT"]);
    assert_eq!(optimize_assembly(&program, &LabelTable::new()), program);
}

#[test]
fn third_and_later_equal_adds_are_removed() {
    let program = lines(&[
        "ADD R0, R1", "ADD R1, R0", "ADD R0, R1", "ADD R0, R1", "ADD R1, R0", "ADD R0, R1",
        "ADD R1, R0",
    ]);
    let out = optimize_assembly(&program, &LabelTable::new());
    assert_eq!(out, lines(&["ADD R0, R1", "ADD R1, R0", "ADD R0, R1", "ADD R1, R0"]));
}

#[test]
fn jump_to_the_next_instruction_is_removed() {
    let (labels, program) = collect_labels("MOV R0, 1\nJMP NEXT\nNEXT:\nHALT\n").unwrap();
    assert_eq!(labels.get("NEXT"), Some(5));
    assert_eq!(optimize_assembly(&program, &labels), lines(&["MOV R0, 1", "HALT"]));
    let (labels, program) = collect_labels("L:\nMOV R0, 1\nJMP L\nHALT\n").unwrap();
    assert_eq!(optimize_assembly(&program, &labels), program);
}

#[test]
fn lines_that_do_not_assemble_are_left_alone() {
    let program = lines(&["MOV R9, 5", "MOV R9, 5", "FLY", "FLY", "JMP NOWHERE", "ADD R0", "ADD R0", "ADD R0"]);
    assert_eq!(optimize_assembly(&program, &LabelTable::new()), program);
}

#[test]
fn optimizing_nothing_gives_nothing() {
    assert_eq!(optimize_assembly(&Vec::new(), &LabelTable::new()), Vec::<String>::new());
}

#[test]
fn verdicts_come_in_the_order_of_the_lines() {
    let mut program = Vec::new();
    for i in 0..500 {
        program.push(format!("MOV R{}, {}", i % 4, (i / 3) % 7));
    }
    let struck = judge(&program, &LabelTable::new());
    assert_eq!(struck.len(), program.len());
    for i in 0..program.len() {
        assert_eq!(struck[i], i > 0 && program[i] == program[i - 1], "line {}", i);
    }
    let kept = keep_survivors(&program, &struck);
    let expected: Vec<String> = program
        .iter()
        .enumerate()
        .filter(|(i, _)| !struck[*i])
        .map(|(_, l)| l.clone())
        .collect();
    assert_eq!(kept, expected);
}

#[test]
fn single_verdicts_agree_with_their_rules() {
    let (labels, program) =
        collect_labels("MOV R1, 2\nMOV R1, 2\nADD R0, R1\nADD R0, R1\nADD R0, R1\nJMP E\nE:\nHALT").unwrap();
    let (parsed, ends) = read_lines(&program, &labels);
    assert_eq!(parsed[0], Some(Instruction::Mov { reg: 1, imm: 2 }));
    assert_eq!(parsed[5], Some(Instruction::Jmp { target: 17 }));
    assert_eq!(ends, vec![3, 6, 9, 12, 15, 17, 18]);
    assert!(!is_redundant_move(&parsed, 0));
    assert!(is_redundant_move(&parsed, 1));
    assert!(!is_redundant_move(&parsed, 2));
    assert!(!is_redundant_add(&parsed, 2));
    assert!(!is_redundant_add(&parsed, 3));
    assert!(is_redundant_add(&parsed, 4));
    assert!(is_noop_jump(&parsed, &ends, 5));
    assert!(!is_noop_jump(&parsed, &ends, 6));
    let verdicts: Vec<bool> = (0..7).map(|i| is_redundant(&parsed, &ends, i)).collect();
    assert_eq!(verdicts, vec![false, true, false, false, true, true, false]);
}

#[test]
fn optimized_assembly_binds_the_labels_anew() {
    let source = "MOV R0, 5\nMOV R0, 5\nLOOP:\nADD R0, R1\nJMP LOOP\nHALT\n";
    let (plain, plain_labels) = assemble(source).unwrap();
    assert_eq!(plain_labels.get("LOOP"), Some(6));
    assert_eq!(plain, vec![1, 0, 5, 1, 0, 5, 2, 0, 1, 3, 6, 0xFF]);
    let (bytes, labels) = assemble_optimized(source).unwrap();
    assert_eq!(labels.get("LOOP"), Some(3));
    assert_eq!(bytes, vec![1, 0, 5, 2, 0, 1, 3, 3, 0xFF]);
    let cpu = run(&bytes, HashMap::new());
    assert_eq!(cpu.halt_reason, Some(HaltReason::LoopDetected));
}

#[test]
fn optimized_assembly_reports_the_same_faults() {
    assert_eq!(assemble_optimized("L:\nL:\n"), assemble("L:\nL:\n"));
    assert_eq!(assemble_optimized("JMP X\n"), assemble("JMP X\n"));
    assert_eq!(assemble_optimized("HALT\n"), assemble("HALT\n"));
}

#[test]
fn worn_out_instructions_become_comments() {
    let statements = lines(&["MOV R0, 5", "MOV R1, 10", "LOOP:", "ADD R0, R1", "JMP LOOP", "HALT"]);
    let mut profile = HashMap::new();
    profile.insert(0usize, 6usize);
    profile.insert(3, 5);
    profile.insert(6, 4);
    profile.insert(9, 100);
    profile.insert(11, 100);
    let out = annotate_by_profile(&statements, &profile);
    assert_eq!(
        out,
        lines(&[
            "; AI OPTIMIZED: MOV R0, 5",
            "MOV R1, 10",
            "LOOP:",
            "; AI OPTIMIZED: ADD R0, R1",
            "JMP LOOP",
            "HALT",
        ])
    );
    let (bytes, labels) = assemble(&out.join("\n")).unwrap();
    assert_eq!(bytes, vec![1, 1, 10, 3, 3, 0xFF]);
    assert_eq!(labels.get("LOOP"), Some(3));
}

#[test]
fn thresholds_differ_by_class() {
    assert!(!is_exhausted(Some(Opcode::Mov), 5));
    assert!(is_exhausted(Some(Opcode::Mov), 6));
    assert!(!is_exhausted(Some(Opcode::Add), 3));
    assert!(is_exhausted(Some(Opcode::Add), 4));
    assert!(!is_exhausted(Some(Opcode::Jmp), 1000));
    assert!(!is_exhausted(Some(Opcode::Halt), 1000));
    assert!(!is_exhausted(None, 1000));
    assert_eq!(classify("MOV R0, 1"), Some(Opcode::Mov));
    assert_eq!(classify("ADD"), Some(Opcode::Add));
    assert_eq!(classify("LOOP:"), None);
    assert_eq!(classify("MOV:"), None);
    assert_eq!(classify(""), None);
    assert_eq!(classify("FLY R0"), None);
}

#[test]
fn machine_annotates_by_its_execution_history() {
    let (bytes, _) = assemble("MOV R1, 1\nL:\nADD R0, R1\nJMP L\n").unwrap();
    let cpu = run(&bytes, HashMap::new());
    let statements = lines(&["MOV R1, 1", "L:", "ADD R0, R1", "JMP L"]);
    assert_eq!(
        cpu.optimize_code(&statements),
        lines(&["MOV R1, 1", "L:", "; AI OPTIMIZED: ADD R0, R1", "JMP L"])
    );
    assert_eq!(CPU::new().optimize_code(&statements), statements);
}
