use asmcpu::assembler::{
    mnemonic, mnemonic_text, parse_instruction, read_statements, AssemblyError, LabelTable,
};
use asmcpu::catalog::{Instruction, Opcode};
use asmcpu::text::{
    chars_of, clean_line, is_whitespace, parse_register, parse_value, separates, split_lines,
    split_words, string_of, strip_markers,
};

fn chars(s: &str) -> Vec<char> {
    s.chars().collect()
}

#[test]
fn strings_and_characters_convert_both_ways() {
    assert_eq!(chars_of("MOV R0, 5"), chars("MOV R0, 5"));
    assert_eq!(chars_of(""), Vec::<char>::new());
    assert_eq!(chars_of("é\u{3000}x"), vec!['é', '\u{3000}', 'x']);
    assert_eq!(string_of(&chars("LOOP")), "LOOP".to_string());
    assert_eq!(string_of(&vec![]), String::new());
    assert_eq!(string_of(&chars_of("añb")), "añb");
}

#[test]
fn white_space_is_what_unicode_says() {
    for c in [' ', '\t', '\n', '\r', '\u{0B}', '\u{0C}', '\u{85}', '\u{A0}', '\u{1680}',
        '\u{2000}', '\u{200A}', '\u{2028}', '\u{2029}', '\u{202F}', '\u{205F}', '\u{3000}']
    {
        assert!(is_whitespace(c), "{:?}", c);
        assert!(separates(c), "{:?}", c);
    }
    for c in ['a', ':', '#', '\u{200B}', '\u{08}', '\u{0E}', '\u{1F}', '\u{2007}' ] {
        assert_eq!(is_whitespace(c), c.is_whitespace(), "{:?}", c);
    }
    assert!(!is_whitespace(','));
    assert!(separates(','));
    for code in 0..0x3100u32 {
        if let Some(c) = char::from_u32(code) {
            assert_eq!(is_whitespace(c), c.is_whitespace(), "{:#x}", code);
        }
    }
}

#[test]
fn lines_are_the_stretches_between_line_feeds() {
    assert_eq!(split_lines(&chars("a\nbc\n\nd")), vec![chars("a"), chars("bc"), chars(""), chars("d")]);
    assert_eq!(split_lines(&chars("")), vec![chars("")]);
    assert_eq!(split_lines(&chars("\n")), vec![chars(""), chars("")]);
    assert_eq!(split_lines(&chars("x\r\n")), vec![chars("x\r"), chars("")]);
}

#[test]
fn cleaning_strips_comment_and_surrounding_separators() {
    assert_eq!(clean_line(&chars("  MOV R0, 5  # five ")), chars("MOV R0, 5"));
    assert_eq!(clean_line(&chars("# only a comment")), chars(""));
    assert_eq!(clean_line(&chars(" , \t,")), chars(""));
    assert_eq!(clean_line(&chars(",HALT,,")), chars("HALT"));
    assert_eq!(clean_line(&chars("LOOP:#x#y")), chars("LOOP:"));
    assert_eq!(clean_line(&chars("")), chars(""));
    assert_eq!(clean_line(&chars("A  B")), chars("A  B"));
    assert_eq!(clean_line(&chars("; AI OPTIMIZED: MOV R0, 5")), chars(""));
    assert_eq!(clean_line(&chars("HALT ; stop # here")), chars("HALT"));
    assert_eq!(clean_line(&chars("HALT # stop ; here")), chars("HALT"));
}

#[test]
fn words_are_parted_by_white_space_and_commas() {
    assert_eq!(split_words(&chars("MOV R0, 5")), vec![chars("MOV"), chars("R0"), chars("5")]);
    assert_eq!(split_words(&chars("ADD R0,R1")), vec![chars("ADD"), chars("R0"), chars("R1")]);
    assert_eq!(split_words(&chars("  a ,, b\t")), vec![chars("a"), chars("b")]);
    assert_eq!(split_words(&chars("")), Vec::<Vec<char>>::new());
    assert_eq!(split_words(&chars(" , ")), Vec::<Vec<char>>::new());
    assert_eq!(split_words(&chars("HALT")), vec![chars("HALT")]);
}

#[test]
fn label_markers_are_stripped_from_the_back() {
    assert_eq!(strip_markers(&chars("LOOP:")), chars("LOOP"));
    assert_eq!(strip_markers(&chars("LOOP::")), chars("LOOP"));
    assert_eq!(strip_markers(&chars("A:B:")), chars("A:B"));
    assert_eq!(strip_markers(&chars(":")), chars(""));
    assert_eq!(strip_markers(&chars("X")), chars("X"));
}

#[test]
fn immediates_are_decimal_bytes() {
    assert_eq!(parse_value(&chars("0")), Some(0));
    assert_eq!(parse_value(&chars("5")), Some(5));
    assert_eq!(parse_value(&chars("255")), Some(255));
    assert_eq!(parse_value(&chars("256")), None);
    assert_eq!(parse_value(&chars("+255")), Some(255));
    assert_eq!(parse_value(&chars("000000000000000000000255")), Some(255));
    assert_eq!(parse_value(&chars("99999999999999999999999999")), None);
    assert_eq!(parse_value(&chars("")), None);
    assert_eq!(parse_value(&chars("+")), None);
    assert_eq!(parse_value(&chars("-1")), None);
    assert_eq!(parse_value(&chars("-0")), None);
    assert_eq!(parse_value(&chars("++1")), None);
    assert_eq!(parse_value(&chars("1+")), None);
    assert_eq!(parse_value(&chars("0x10")), None);
    assert_eq!(parse_value(&chars("1 ")), None);
    assert_eq!(parse_value(&chars("٣")), None);
    for n in 0..=300u32 {
        let text = n.to_string();
        assert_eq!(parse_value(&chars(&text)), text.parse::<u8>().ok(), "{}", text);
    }
}

#[test]
fn registers_are_r_and_one_digit_up_to_three() {
    assert_eq!(parse_register(&chars("R0")), Some(0));
    assert_eq!(parse_register(&chars("R1")), Some(1));
    assert_eq!(parse_register(&chars("R2")), Some(2));
    assert_eq!(parse_register(&chars("R3")), Some(3));
    assert_eq!(parse_register(&chars("R4")), None);
    assert_eq!(parse_register(&chars("R")), None);
    assert_eq!(parse_register(&chars("r1")), None);
    assert_eq!(parse_register(&chars("R01")), None);
    assert_eq!(parse_register(&chars("R+1")), None);
    assert_eq!(parse_register(&chars("1")), None);
    assert_eq!(parse_register(&chars("")), None);
}

#[test]
fn mnemonics_are_case_sensitive() {
    assert_eq!(mnemonic(&chars("MOV")), Some(Opcode::Mov));
    assert_eq!(mnemonic(&chars("ADD")), Some(Opcode::Add));
    assert_eq!(mnemonic(&chars("JMP")), Some(Opcode::Jmp));
    assert_eq!(mnemonic(&chars("HALT")), Some(Opcode::Halt));
    assert_eq!(mnemonic(&chars("NOP")), None);
    assert_eq!(mnemonic(&chars("mov")), None);
    assert_eq!(mnemonic(&chars("MOVE")), None);
    assert_eq!(mnemonic(&chars("HAL")), None);
    assert_eq!(mnemonic(&chars("")), None);
    for op in [Opcode::Mov, Opcode::Add, Opcode::Jmp, Opcode::Halt] {
        let name = mnemonic_text(op).unwrap();
        assert_eq!(mnemonic(&chars(name)), Some(op));
    }
    assert_eq!(mnemonic_text(Opcode::Mov), Some("MOV"));
    assert_eq!(mnemonic_text(Opcode::Halt), Some("HALT"));
    assert_eq!(mnemonic_text(Opcode::Nop), None);
}

#[test]
fn statements_are_the_lines_that_say_something() {
    let source = "# head\n\nSTART:  # entry\n  MOV R0, 1,\n\t\nJMP START";
    assert_eq!(
        read_statements(source),
        vec![chars("START:"), chars("MOV R0, 1"), chars("JMP START")]
    );
    assert_eq!(read_statements(""), Vec::<Vec<char>>::new());
    assert_eq!(read_statements("\n\n#\n"), Vec::<Vec<char>>::new());
}

#[test]
fn single_lines_resolve_against_the_label_table() {
    let mut labels = LabelTable::new();
    labels.declare("NEAR".to_string(), 7);
    labels.declare("FAR".to_string(), 256);
    labels.declare("NEAR".to_string(), 9);
    assert_eq!(labels.get("NEAR"), Some(9));
    assert_eq!(labels.lookup(&"FAR".to_string()), Some(256));
    assert!(!labels.contains("near"));
    assert_eq!(parse_instruction("JMP NEAR", &labels), Ok(Instruction::Jmp { target: 9 }));
    assert_eq!(
        parse_instruction("JMP FAR", &labels),
        Err(AssemblyError::AddressOutOfRange("FAR".to_string()))
    );
    assert_eq!(
        parse_instruction("JMP ELSEWHERE", &labels),
        Err(AssemblyError::UndefinedLabel("ELSEWHERE".to_string()))
    );
    assert_eq!(parse_instruction("MOV R2, 9", &labels), Ok(Instruction::Mov { reg: 2, imm: 9 }));
    assert_eq!(parse_instruction("ADD R3 R0", &labels), Ok(Instruction::Add { dst: 3, src: 0 }));
    assert_eq!(parse_instruction("HALT", &labels), Ok(Instruction::Halt));
    assert_eq!(parse_instruction("", &labels), Err(AssemblyError::UnknownInstruction(String::new())));
}
