use stack_analyser::asm_parsing::{AsmError, AsmFile, Callee, Instruction};

fn listing_two_functions() -> Vec<String> {
    vec![
        "00000010 <A>:".to_string(),
        " 10:\tmovs\tr0, #0".to_string(),
        " 1f:\tf7ff fffe \tbl\t20 <B>".to_string(),
        "00000020 <B>:".to_string(),
        " 20:\tnop".to_string(),
        " 2f:\tbx\tlr".to_string(),
    ]
}

#[test]
fn resolves_addresses_to_functions() {
    let index = AsmFile::from_file(&listing_two_functions()).unwrap();

    let a = index.get_function_based_on_addr(&0x10).unwrap();
    assert_eq!(a.name, "A");
    assert_eq!(a.range, 0x10..0x20);

    let a_end = index.get_function_based_on_addr(&0x1f).unwrap();
    assert_eq!(a_end.name, "A");

    let b = index.get_function_based_on_addr(&0x20).unwrap();
    assert_eq!(b.name, "B");
    assert_eq!(b.range, 0x20..0x30);

    assert!(index.get_function_based_on_addr(&0x30).is_none());
    assert!(index.get_function_based_on_addr(&0x0f).is_none());
}

#[test]
fn direct_callees_of_a_is_b() {
    let index = AsmFile::from_file(&listing_two_functions()).unwrap();
    let callees = index.get_subfunctions_of_function("A").unwrap();
    assert_eq!(callees.len(), 1);
    match &callees[0] {
        Callee::Resolved(f) => {
            assert_eq!(f.name, "B");
            assert_eq!(f.range, 0x20..0x30);
        }
        Callee::Unresolved(n) => panic!("B should resolve, got unresolved {}", n),
    }
    // B calls nothing
    let none = index.get_subfunctions_of_function("B").unwrap();
    assert_eq!(none.len(), 0);
    // unknown function name
    assert!(index.get_subfunctions_of_function("C").is_none());
}

#[test]
fn repeated_call_targets_are_deduplicated_in_first_seen_order() {
    let lines = vec![
        "00000010 <C>:".to_string(),
        " 10:\tf000 f806 \tbl\t40 <T>".to_string(),
        " 14:\tf000 f810 \tbl\t50 <U>".to_string(),
        " 18:\tf000 f802 \tbl\t40 <T>".to_string(),
        "00000040 <T>:".to_string(),
        " 40:\tbx\tlr".to_string(),
        "00000050 <U>:".to_string(),
        " 50:\tbx\tlr".to_string(),
    ];
    let index = AsmFile::from_file(&lines).unwrap();
    let callees = index.get_subfunctions_of_function("C").unwrap();
    assert_eq!(callees.len(), 2);
    match &callees[0] {
        Callee::Resolved(f) => assert_eq!(f.name, "T"),
        _ => panic!("T should resolve"),
    }
    match &callees[1] {
        Callee::Resolved(f) => assert_eq!(f.name, "U"),
        _ => panic!("U should resolve"),
    }
}

#[test]
fn unresolved_callee_is_reported_by_name() {
    let lines = vec![
        "00000010 <C>:".to_string(),
        " 10:\tf000 f806 \tbl\t90 <elsewhere>".to_string(),
    ];
    let index = AsmFile::from_file(&lines).unwrap();
    let callees = index.get_subfunctions_of_function("C").unwrap();
    assert_eq!(callees.len(), 1);
    match &callees[0] {
        Callee::Unresolved(n) => assert_eq!(n, "elsewhere"),
        Callee::Resolved(_) => panic!("elsewhere is not in the index"),
    }
}

#[test]
fn non_branch_instructions_stay_generic() {
    let lines = vec![
        "00000010 <A>:".to_string(),
        " 10:\tmovs\tr0, #0".to_string(),
        " 12:\tb.n\t10 <A>".to_string(),
    ];
    let index = AsmFile::from_file(&lines).unwrap();
    let a = index.get_function_based_on_addr(&0x10).unwrap();
    assert_eq!(a.instructions.len(), 2);
    match &a.instructions[0].1 {
        Instruction::Any(t) => assert_eq!(t, "movs\tr0, #0"),
        Instruction::Branch { dest } => panic!("not a call, got branch to {}", dest),
    }
    // `b.n` has no `\tbl` marker, so it stays generic even with a <name>
    match &a.instructions[1].1 {
        Instruction::Any(_) => {}
        Instruction::Branch { dest } => panic!("not a bl call, got branch to {}", dest),
    }
}

#[test]
fn bad_hex_address_is_a_parse_error_with_line() {
    let lines = vec![
        "00000010 <A>:".to_string(),
        " 10:\tnop".to_string(),
        "zz <X>:".to_string(),
    ];
    let err = AsmFile::from_file(&lines).unwrap_err();
    assert_eq!(err, AsmError::AddrParseError { line: 2 });
}

#[test]
fn bad_instruction_address_is_a_parse_error() {
    let lines = vec!["00000010 <A>:".to_string(), " 1g:\tnop".to_string()];
    let err = AsmFile::from_file(&lines).unwrap_err();
    assert_eq!(err, AsmError::AddrParseError { line: 1 });
}

#[test]
fn function_without_instructions_is_rejected() {
    let lines = vec![
        "00000010 <A>:".to_string(),
        "00000020 <B>:".to_string(),
        " 20:\tnop".to_string(),
    ];
    let err = AsmFile::from_file(&lines).unwrap_err();
    assert_eq!(err, AsmError::EmptyFunction { line: 0 });
}

#[test]
fn trailing_empty_function_is_rejected() {
    let lines = vec![
        "00000010 <A>:".to_string(),
        " 10:\tnop".to_string(),
        "00000020 <B>:".to_string(),
    ];
    let err = AsmFile::from_file(&lines).unwrap_err();
    assert_eq!(err, AsmError::EmptyFunction { line: 2 });
}

#[test]
fn last_address_at_the_top_of_the_space_is_rejected() {
    let lines = vec!["fffffff0 <A>:".to_string(), " ffffffff:\tnop".to_string()];
    let err = AsmFile::from_file(&lines).unwrap_err();
    assert_eq!(err, AsmError::AddressOverflow { line: 0 });
}

#[test]
fn inverted_range_is_rejected() {
    let lines = vec!["00000020 <A>:".to_string(), " 5:\tnop".to_string()];
    let err = AsmFile::from_file(&lines).unwrap_err();
    assert_eq!(err, AsmError::InvalidFunctionRange { index: 0 });
}

#[test]
fn overlapping_ranges_are_rejected() {
    let lines = vec![
        "00000010 <A>:".to_string(),
        " 25:\tnop".to_string(),
        "00000020 <B>:".to_string(),
        " 30:\tnop".to_string(),
    ];
    let err = AsmFile::from_file(&lines).unwrap_err();
    assert_eq!(err, AsmError::OverlappingRanges { index: 1 });
}

#[test]
fn unrecognized_lines_are_ignored() {
    let lines = vec![
        "".to_string(),
        "firmware.elf:     file format elf32-littlearm".to_string(),
        " 5:\tstray instruction before any header".to_string(),
        "Disassembly of section .text:".to_string(),
        "00000010 <A>:".to_string(),
        " 10:\tnop".to_string(),
        "".to_string(),
    ];
    let index = AsmFile::from_file(&lines).unwrap();
    let a = index.get_function_based_on_addr(&0x10).unwrap();
    assert_eq!(a.name, "A");
    assert_eq!(a.instructions.len(), 1);
}

#[test]
fn empty_listing_builds_an_empty_index() {
    let index = AsmFile::from_file(&Vec::new()).unwrap();
    assert!(index.get_function_based_on_addr(&0).is_none());
    assert!(index.get_subfunctions_of_function("A").is_none());
}
