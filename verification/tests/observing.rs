use asmcpu::ai_optimizer::AIOptimizer;
use asmcpu::cpu::{run, PatternCount, Ratio, CPU};
use asmcpu::observers::{judge_samples, Advisory};
use asmcpu::profile::{
    bump_count, entries_of, lookup, merge_into, ordered, record_visit, total, JumpPairCounter,
};
use asmcpu::store::{adopt_profile, load_profile, save_profile, ProfileStatus};
use std::collections::HashMap;

#[test]
fn full_window_of_equal_samples_is_nearly_constant() {
    assert_eq!(judge_samples(&vec![7; 10]), Some(7));
    assert_eq!(judge_samples(&vec![7; 9]), None);
    assert_eq!(judge_samples(&vec![7; 11]), None);
    assert_eq!(judge_samples(&vec![]), None);
}

#[test]
fn deviation_below_one_is_told_from_deviation_of_one() {
    // variance 0.25, mean 4.5
    assert_eq!(judge_samples(&vec![4, 5, 4, 5, 4, 5, 4, 5, 4, 5]), Some(4));
    // variance 1
    assert_eq!(judge_samples(&vec![4, 6, 4, 6, 4, 6, 4, 6, 4, 6]), None);
    // one sample 3 among 0s: variance 0.81
    assert_eq!(judge_samples(&vec![0, 0, 0, 0, 0, 0, 0, 0, 0, 3]), Some(0));
    // one sample 4 among 0s: variance 1.44
    assert_eq!(judge_samples(&vec![0, 0, 0, 0, 0, 0, 0, 0, 0, 4]), None);
}

#[test]
fn mean_is_rounded_towards_zero() {
    assert_eq!(judge_samples(&vec![-4, -5, -4, -5, -4, -5, -4, -5, -4, -5]), Some(-4));
    assert_eq!(judge_samples(&vec![i32::MAX; 10]), Some(i32::MAX));
    assert_eq!(judge_samples(&vec![i32::MIN; 10]), Some(i32::MIN));
    let mut wide = vec![i32::MIN; 5];
    wide.extend(vec![i32::MAX; 5]);
    assert_eq!(judge_samples(&wide), None);
}

#[test]
fn registers_are_sampled_once_per_call_and_the_window_slides() {
    let mut cpu = CPU::new();
    cpu.registers = [1, 2, 3, 4];
    for _ in 0..9 {
        assert_eq!(cpu.detect_value_redundancies(), vec![]);
    }
    let advisories = cpu.detect_value_redundancies();
    assert_eq!(
        advisories,
        vec![
            Advisory { register: 0, constant: 1 },
            Advisory { register: 1, constant: 2 },
            Advisory { register: 2, constant: 3 },
            Advisory { register: 3, constant: 4 },
        ]
    );
    cpu.registers[2] = 1000;
    let advisories = cpu.detect_value_redundancies();
    assert_eq!(advisories.iter().map(|a| a.register).collect::<Vec<_>>(), vec![0, 1, 3]);
    assert_eq!(cpu.value_patterns[&2].len(), 10);
    assert_eq!(cpu.value_patterns[&2][9], 1000);
    assert_eq!(cpu.value_patterns[&2][0], 3);
}

#[test]
fn context_is_the_low_bytes_of_the_window() {
    let mut cpu = CPU::new();
    cpu.prediction_history.extend([0usize, 3, 255, 256, 258]);
    assert_eq!(cpu.current_execution_context(), vec![0, 3, 255, 0, 2]);
    assert!(CPU::pattern_matches(&vec![1, 2], &vec![1, 2]));
    assert!(!CPU::pattern_matches(&vec![1, 2], &vec![1, 3]));
    assert!(!CPU::pattern_matches(&vec![1, 2], &vec![1, 2, 3]));
    assert!(CPU::pattern_matches(&vec![], &vec![]));
}

#[test]
fn only_the_pattern_of_the_context_is_counted() {
    let mut cpu = CPU::new();
    cpu.prediction_history.extend([0usize, 3]);
    cpu.pattern_db = vec![
        PatternCount { pattern: vec![0], count: 4 },
        PatternCount { pattern: vec![0, 3], count: 7 },
        PatternCount { pattern: vec![3, 0], count: usize::MAX },
        PatternCount { pattern: vec![], count: 0 },
    ];
    cpu.analyze_patterns();
    let counts: Vec<usize> = cpu.pattern_db.iter().map(|e| e.count).collect();
    assert_eq!(counts, vec![4, 8, usize::MAX, 0]);
    assert_eq!(cpu.pattern_frequency(&vec![0, 3]), 8);
    assert_eq!(cpu.pattern_frequency(&vec![9]), 0);
    cpu.pattern_db[1].count = usize::MAX;
    cpu.analyze_patterns();
    assert_eq!(cpu.pattern_db[1].count, usize::MAX);
}

#[test]
fn redundant_write_turns_the_tag_into_a_no_op() {
    let mut cpu = CPU::new();
    cpu.load_program(&vec![0x01, 0x00, 0x05, 0xFF]);
    assert!(!cpu.modify(0, 0, 5));
    assert_eq!(cpu.registers, [5, 0, 0, 0]);
    assert_eq!(cpu.memory[0], 0x01);
    assert!(cpu.modify(0, 0, 5));
    assert_eq!(cpu.registers, [5, 0, 0, 0]);
    assert_eq!(&cpu.memory[..4], &[0x90, 0x00, 0x05, 0xFF]);
}

#[test]
fn address_is_worn_out_after_more_than_five_executions() {
    let cpu = run(&vec![0x03, 0x00], HashMap::new());
    assert!(cpu.is_redundant_instruction(0));
    assert!(!cpu.is_redundant_instruction(1));
    let cpu = run(&vec![0x90, 0xFF], HashMap::new());
    assert!(!cpu.is_redundant_instruction(0));
}

#[test]
fn model_gives_each_address_the_weight_of_its_sequence() {
    let mut cpu = CPU::new();
    cpu.execution_history.insert(3, 10);
    cpu.execution_history.insert(4, 2);
    cpu.execution_history.insert(1, 5);
    cpu.pattern_db = vec![PatternCount { pattern: vec![0x90, 0xFF], count: 1 }];
    assert_eq!(cpu.total_executions(), 17);
    assert_eq!(
        cpu.calculate_sequence_probability(&vec![1, 2, 3]),
        Ratio { numerator: 10, denominator: 18 }
    );
    let program = vec![0x01, 0x00, 0xFF, 0x90, 0xFF, 0xFF, 0x02, 0x00, 0x01, 0x07];
    cpu.build_statistical_model(&program);
    let three = Ratio { numerator: 10, denominator: 18 };
    let two = Ratio { numerator: 1, denominator: 18 };
    let one = Ratio { numerator: 5, denominator: 18 };
    let four = Ratio { numerator: 2, denominator: 18 };
    assert_eq!(
        cpu.statistical_model,
        vec![three, three, three, two, two, one, four, four, four, four]
    );
    cpu.build_statistical_model(&vec![]);
    assert!(cpu.statistical_model.is_empty());
}

#[test]
fn counters_saturate() {
    assert_eq!(bump_count(0), 1);
    assert_eq!(bump_count(usize::MAX - 1), usize::MAX);
    assert_eq!(bump_count(usize::MAX), usize::MAX);
    let mut profile = HashMap::new();
    assert_eq!(lookup(&profile, 3), 0);
    assert_eq!(record_visit(&mut profile, 3), 1);
    assert_eq!(record_visit(&mut profile, 3), 2);
    assert_eq!(lookup(&profile, 3), 2);
    profile.insert(4, usize::MAX);
    assert_eq!(record_visit(&mut profile, 4), usize::MAX);
    let mut pairs = JumpPairCounter::new();
    assert_eq!(pairs.get(1, 2), 0);
    assert_eq!(pairs.observe(1, 2), 1);
    assert_eq!(pairs.observe(1, 2), 2);
    assert_eq!(pairs.observe(2, 1), 1);
    assert_eq!(pairs.get(1, 2), 2);
    assert_eq!(pairs.get(usize::MAX, usize::MAX), 0);
    assert_eq!(pairs.observe(usize::MAX, 0), 1);
    assert_eq!(pairs.get(usize::MAX - 1, usize::MAX), 0);
}

#[test]
fn merging_adds_and_never_overwrites() {
    let mut live: HashMap<usize, usize> = HashMap::new();
    live.insert(0, 2);
    live.insert(3, usize::MAX - 1);
    live.insert(9, 1);
    let mut history = HashMap::new();
    history.insert(0, 40);
    history.insert(3, 7);
    history.insert(6, 5);
    merge_into(&mut live, &history);
    let mut entries = entries_of(&live);
    entries.sort();
    assert_eq!(entries, vec![(0, 42), (3, usize::MAX), (6, 5), (9, 1)]);
    assert_eq!(total(&history), 52);
    assert_eq!(total(&HashMap::new()), 0);
    let mut cpu = CPU::new();
    cpu.execution_count.insert(1, 1);
    cpu.execution_history.insert(1, 2);
    cpu.merge_history();
    assert_eq!(cpu.execution_count.get(&1), Some(&3));
    assert_eq!(cpu.execution_history.get(&1), Some(&2));
}

#[test]
fn stored_profile_is_read_as_json() {
    let (profile, status) = load_profile(Some("{\"0\": 3, \"9\": 12}"));
    assert_eq!(status, ProfileStatus::Loaded);
    let mut entries = entries_of(&profile);
    entries.sort();
    assert_eq!(entries, vec![(0, 3), (9, 12)]);
}

#[test]
fn missing_or_corrupt_store_gives_an_empty_profile() {
    let (profile, status) = load_profile(None);
    assert!(profile.is_empty());
    assert_eq!(status, ProfileStatus::Missing);
    for text in ["", "not json", "[1, 2]", "{\"a\": 1}", "{\"1\": -1}", "{\"1\": 1"] {
        let (profile, status) = load_profile(Some(text));
        assert!(profile.is_empty(), "{}", text);
        assert_eq!(status, ProfileStatus::Corrupt, "{}", text);
    }
    let (profile, status) = adopt_profile(None);
    assert!(profile.is_empty());
    assert_eq!(status, ProfileStatus::Corrupt);
}

#[test]
fn saved_profile_loads_again() {
    let cpu = run(&vec![0x90, 0x90, 0xFF], HashMap::new());
    let text = cpu.save_execution_history().unwrap();
    let mut fresh = CPU::new();
    assert_eq!(fresh.load_execution_history(Some(&text)), ProfileStatus::Loaded);
    assert_eq!(fresh.execution_history, cpu.execution_history);
    assert_eq!(fresh.load_execution_history(None), ProfileStatus::Missing);
    assert_eq!(fresh.execution_history, cpu.execution_history);
    assert_eq!(fresh.load_execution_history(Some("?")), ProfileStatus::Corrupt);
    assert!(fresh.execution_history.is_empty());
    assert_eq!(save_profile(&HashMap::new()).unwrap(), "{}");
}

#[test]
fn saved_text_lists_the_addresses_in_ascending_order() {
    let mut profile = HashMap::new();
    for (address, count) in [(100usize, 1usize), (9, 12), (0, 3), (usize::MAX, usize::MAX), (10, 0)] {
        profile.insert(address, count);
    }
    let expected = format!(
        "{{\n  \"0\": 3,\n  \"9\": 12,\n  \"10\": 0,\n  \"100\": 1,\n  \"{}\": {}\n}}",
        usize::MAX,
        usize::MAX
    );
    assert_eq!(save_profile(&profile), Some(expected));
    let mut other = HashMap::new();
    for (address, count) in [(10usize, 0usize), (usize::MAX, usize::MAX), (0, 3), (9, 12), (100, 1)] {
        other.insert(address, count);
    }
    assert_eq!(save_profile(&other), save_profile(&profile));
    let (loaded, status) = load_profile(save_profile(&profile).as_deref());
    assert_eq!(status, ProfileStatus::Loaded);
    assert_eq!(loaded, profile);
}

#[test]
fn ordered_copy_holds_what_the_profile_holds() {
    let mut profile = HashMap::new();
    profile.insert(7usize, 2usize);
    profile.insert(3, 9);
    profile.insert(5, 0);
    let sorted = ordered(&profile);
    assert_eq!(sorted.into_iter().collect::<Vec<_>>(), vec![(3, 9), (5, 0), (7, 2)]);
    assert!(ordered(&HashMap::new()).is_empty());
}

#[test]
fn transitions_are_counted_along_the_path() {
    let mut ai = AIOptimizer::new(4);
    assert_eq!(ai.size(), 4);
    ai.analyze_execution_path(&vec![0, 1, 2, 1, 2, 3]);
    assert_eq!(ai.transition_count(0, 1), 1);
    assert_eq!(ai.transition_count(1, 2), 2);
    assert_eq!(ai.transition_count(2, 1), 1);
    assert_eq!(ai.transition_count(2, 3), 1);
    assert_eq!(ai.transition_count(3, 0), 0);
    assert_eq!(ai.transition_count(1, 0), 0);
    assert_eq!(ai.row_sum(2), 2);
    assert_eq!(ai.row_sum(3), 0);
    assert_eq!(ai.execution_graph[&1], vec![2, 2]);
    assert_eq!(ai.execution_graph[&2], vec![1, 3]);
    assert!(!ai.execution_graph.contains_key(&3));
    ai.analyze_execution_path(&vec![3]);
    ai.analyze_execution_path(&vec![]);
    assert_eq!(ai.row_sum(3), 0);
}

#[test]
fn quiet_rows_are_those_with_a_mean_below_the_threshold() {
    let mut ai = AIOptimizer::new(3);
    for _ in 0..3 {
        ai.analyze_execution_path(&vec![0, 1]);
    }
    ai.analyze_execution_path(&vec![1, 2, 0]);
    // row sums: 3, 1, 1; means 1, 1/3, 1/3
    assert_eq!(ai.find_redundant_blocks(0), Vec::<usize>::new());
    assert_eq!(ai.find_redundant_blocks(1), vec![1, 2]);
    assert_eq!(ai.find_redundant_blocks(2), vec![0, 1, 2]);
    assert_eq!(AIOptimizer::new(0).find_redundant_blocks(5), Vec::<usize>::new());
}

#[test]
fn quiet_rows_are_told_by_a_fraction_too() {
    let mut ai = AIOptimizer::new(4);
    for _ in 0..3 {
        ai.analyze_execution_path(&vec![0, 1]);
    }
    ai.analyze_execution_path(&vec![1, 2, 0]);
    ai.analyze_execution_path(&vec![2, 3]);
    // row sums: 3, 1, 2, 0; means 3/4, 1/4, 1/2, 0
    assert_eq!(ai.find_redundant_blocks_below(1, 2), vec![1, 3]);
    assert_eq!(ai.find_redundant_blocks_below(1, 4), vec![3]);
    assert_eq!(ai.find_redundant_blocks_below(3, 4), vec![1, 2, 3]);
    assert_eq!(ai.find_redundant_blocks_below(0, 7), Vec::<usize>::new());
    assert_eq!(ai.find_redundant_blocks_below(u64::MAX, 1), vec![0, 1, 2, 3]);
    assert_eq!(ai.find_redundant_blocks_below(1, u64::MAX), vec![3]);
    assert_eq!(ai.find_redundant_blocks_below(5, 1), ai.find_redundant_blocks(5));
    assert_eq!(ai.find_redundant_blocks_below(2, 2), ai.find_redundant_blocks(1));
}

#[test]
fn suggestions_of_the_two_line_program() {
    let mut ai = AIOptimizer::new(2);
    ai.analyze_execution_path(&vec![0, 1]);
    let program = vec!["A".to_string(), "B".to_string()];
    assert_eq!(
        ai.suggest_optimizations(&program),
        vec!["A".to_string(), "; AI SUGGESTION: Remove redundant instruction\n; B".to_string()]
    );
}

#[test]
fn suggestions_mark_lines_without_transitions() {
    let mut ai = AIOptimizer::new(3);
    ai.analyze_execution_path(&vec![0, 1, 0, 1]);
    let program = vec!["MOV R0, 1".to_string(), "ADD R0, R0".to_string(), "HALT".to_string()];
    assert_eq!(
        ai.suggest_optimizations(&program),
        vec![
            "MOV R0, 1".to_string(),
            "ADD R0, R0".to_string(),
            "; AI SUGGESTION: Remove redundant instruction\n; HALT".to_string(),
        ]
    );
}
