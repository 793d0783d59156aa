use asmcpu::assembler::{assemble, calculate_byte_size, collect_labels, AssemblyError};

#[test]
fn assembles_the_four_instruction_program() {
    let (bytes, labels) = assemble("MOV R0,5\nMOV R1,10\nADD R0,R1\nHALT").unwrap();
    assert_eq!(bytes, vec![0x01, 0x00, 0x05, 0x01, 0x01, 0x0A, 0x02, 0x00, 0x01, 0xFF]);
    assert!(labels.entries.is_empty());
}

#[test]
fn commas_and_spaces_both_separate_operands() {
    let a = assemble("MOV R0, 5\nADD R0 R0\nHALT\n").unwrap().0;
    let b = assemble("MOV R0,5\nADD R0,R0\nHALT").unwrap().0;
    assert_eq!(a, b);
    assert_eq!(a, vec![0x01, 0x00, 0x05, 0x02, 0x00, 0x00, 0xFF]);
}

#[test]
fn labels_are_bound_to_the_offset_of_what_follows() {
    let source = "START:\nMOV R0, 5   # five\nMOV R1, 10\nLOOP:\nADD R0, R1\nJMP LOOP\nEND:\nHALT\n";
    let (bytes, labels) = assemble(source).unwrap();
    assert_eq!(labels.get("START"), Some(0));
    assert_eq!(labels.get("LOOP"), Some(6));
    assert_eq!(labels.get("END"), Some(11));
    assert_eq!(labels.get("NOWHERE"), None);
    assert!(labels.contains("LOOP"));
    assert_eq!(
        bytes,
        vec![0x01, 0x00, 0x05, 0x01, 0x01, 0x0A, 0x02, 0x00, 0x01, 0x03, 0x06, 0xFF]
    );
}

#[test]
fn forward_references_resolve() {
    let (bytes, labels) = assemble("JMP END\nMOV R2, 255\nEND:\nHALT").unwrap();
    assert_eq!(bytes, vec![0x03, 0x05, 0x01, 0x02, 0xFF, 0xFF]);
    assert_eq!(labels.get("END"), Some(5));
}

#[test]
fn repeated_label_is_a_duplicate() {
    assert_eq!(assemble("L:\nL:\n"), Err(AssemblyError::DuplicateLabel("L".to_string())));
    assert_eq!(
        assemble("A:\nHALT\nB:\nA:   # again\nHALT"),
        Err(AssemblyError::DuplicateLabel("A".to_string()))
    );
}

#[test]
fn duplicate_label_comes_before_other_faults() {
    assert_eq!(
        assemble("FLY R0\nL:\nL:\n"),
        Err(AssemblyError::DuplicateLabel("L".to_string()))
    );
}

#[test]
fn jump_to_undeclared_label_is_undefined() {
    assert_eq!(
        assemble("MOV R0, 1\nJMP NOWHERE\nHALT"),
        Err(AssemblyError::UndefinedLabel("NOWHERE".to_string()))
    );
}

#[test]
fn unknown_mnemonic_is_rejected() {
    assert_eq!(
        assemble("MOV R0, 1\nFLY R0, 2\nHALT"),
        Err(AssemblyError::UnknownInstruction("FLY R0, 2".to_string()))
    );
    assert_eq!(assemble("mov R0, 1"), Err(AssemblyError::UnknownInstruction("mov R0, 1".to_string())));
    assert_eq!(assemble("NOP"), Err(AssemblyError::UnknownInstruction("NOP".to_string())));
}

#[test]
fn malformed_operands_are_rejected() {
    for line in ["MOV R4, 1", "MOV R0, 256", "MOV R0", "MOV R0, 1, 2", "ADD R0, 5", "ADD R0",
        "HALT R0", "JMP", "JMP A B", "MOV R02, 1", "MOV r0, 1", "MOV R0, -1", "MOV R0, +", "MOV R0, 1x"]
    {
        assert_eq!(
            assemble(line),
            Err(AssemblyError::MalformedOperands(line.to_string())),
            "{}",
            line
        );
    }
}

#[test]
fn immediates_cover_the_byte_range() {
    assert_eq!(assemble("MOV R3, 0").unwrap().0, vec![0x01, 0x03, 0x00]);
    assert_eq!(assemble("MOV R3, 255").unwrap().0, vec![0x01, 0x03, 0xFF]);
    assert_eq!(assemble("MOV R3, +7").unwrap().0, vec![0x01, 0x03, 0x07]);
    assert_eq!(assemble("MOV R3, 007").unwrap().0, vec![0x01, 0x03, 0x07]);
}

#[test]
fn jump_beyond_the_last_address_is_out_of_range() {
    let mut source = String::new();
    for _ in 0..86 {
        source.push_str("MOV R0, 1\n");
    }
    source.push_str("FAR:\nHALT\nJMP FAR\n");
    assert_eq!(assemble(&source), Err(AssemblyError::AddressOutOfRange("FAR".to_string())));
    let mut near = String::new();
    for _ in 0..85 {
        near.push_str("MOV R0, 1\n");
    }
    near.push_str("EDGE:\nHALT\nJMP EDGE\n");
    let (bytes, labels) = assemble(&near).unwrap();
    assert_eq!(labels.get("EDGE"), Some(255));
    assert_eq!(bytes[bytes.len() - 1], 255);
}

#[test]
fn comments_and_blank_lines_say_nothing() {
    let (bytes, labels) = assemble("# a program\n\n   \t\n  HALT   # stop\n#HALT\n").unwrap();
    assert_eq!(bytes, vec![0xFF]);
    assert!(labels.entries.is_empty());
    let (bytes, _) = assemble("").unwrap();
    assert!(bytes.is_empty());
}

#[test]
fn remarks_of_the_optimizers_are_comments() {
    let marked = "MOV R1, 1\n; AI OPTIMIZED: MOV R0, 5\nL:\n; AI SUGGESTION: Remove redundant instruction\n; ADD R0, R1\nJMP L ; again\n";
    let (bytes, labels) = assemble(marked).unwrap();
    assert_eq!(bytes, vec![0x01, 0x01, 0x01, 0x03, 0x03]);
    assert_eq!(labels.get("L"), Some(3));
}

#[test]
fn carriage_returns_are_white_space() {
    let (bytes, labels) = assemble("L:\r\nMOV R1, 2\r\nJMP L\r\n").unwrap();
    assert_eq!(bytes, vec![0x01, 0x01, 0x02, 0x03, 0x00]);
    assert_eq!(labels.get("L"), Some(0));
}

#[test]
fn pass_one_queues_instruction_lines() {
    let (labels, lines) = collect_labels("A:\nMOV R0, 1 # one\n  HALT,\nB:\n").unwrap();
    assert_eq!(lines, vec!["MOV R0, 1".to_string(), "HALT".to_string()]);
    assert_eq!(labels.get("A"), Some(0));
    assert_eq!(labels.get("B"), Some(4));
}

#[test]
fn byte_sizes_follow_the_catalog() {
    assert_eq!(calculate_byte_size("MOV R0, 5"), 3);
    assert_eq!(calculate_byte_size("ADD R0, R1"), 3);
    assert_eq!(calculate_byte_size("JMP LOOP"), 2);
    assert_eq!(calculate_byte_size("HALT"), 1);
    assert_eq!(calculate_byte_size("FLY"), 0);
    assert_eq!(calculate_byte_size(""), 0);
}

#[test]
fn assembly_is_deterministic() {
    let source = "L:\nMOV R0, 5\nJMP L\n";
    assert_eq!(assemble(source), assemble(source));
    assert_eq!(assemble(source), assemble("L:   \n\n MOV R0,5 # x\nJMP   L"));
}
