use buddy_system::driver::{ProgramAction, ProgramError, ProgramState};
use buddy_system::memory_manager::{BlockEntry, BlockLists};

fn tokens(words: &[&str]) -> Vec<String> {
    words.iter().map(|w| String::from(*w)).collect()
}

#[test]
fn parse_rejects_an_empty_line() {
    assert_eq!(
        ProgramState::parse(&tokens(&[])),
        Err(ProgramError::NotEnoughArgs)
    );
}

#[test]
fn parse_recognizes_show_and_exit() {
    assert_eq!(ProgramState::parse(&tokens(&["show"])), Ok(ProgramAction::Show));
    assert_eq!(ProgramState::parse(&tokens(&["exit"])), Ok(ProgramAction::Exit));
}

#[test]
fn parse_matches_directives_case_insensitively() {
    assert_eq!(ProgramState::parse(&tokens(&["SHOW"])), Ok(ProgramAction::Show));
    assert_eq!(ProgramState::parse(&tokens(&["Exit"])), Ok(ProgramAction::Exit));
    assert_eq!(
        ProgramState::parse(&tokens(&["ALLOCATE", "x", "4"])),
        Ok(ProgramAction::Allocate(String::from("x"), 4))
    );
}

#[test]
fn parse_reads_an_allocation() {
    assert_eq!(
        ProgramState::parse(&tokens(&["allocate", "x", "10"])),
        Ok(ProgramAction::Allocate(String::from("x"), 10))
    );
}

#[test]
fn parse_wants_two_allocation_arguments() {
    assert_eq!(
        ProgramState::parse(&tokens(&["allocate", "x"])),
        Err(ProgramError::NotEnoughActionArgs(1, 2))
    );
    assert_eq!(
        ProgramState::parse(&tokens(&["allocate"])),
        Err(ProgramError::NotEnoughActionArgs(0, 2))
    );
}

#[test]
fn parse_rejects_a_non_numeric_size() {
    assert_eq!(
        ProgramState::parse(&tokens(&["allocate", "x", "abc"])),
        Err(ProgramError::InvalidActionArgs(tokens(&["x", "abc"])))
    );
    assert_eq!(
        ProgramState::parse(&tokens(&["allocate", "x", "-3"])),
        Err(ProgramError::InvalidActionArgs(tokens(&["x", "-3"])))
    );
}

#[test]
fn parse_reads_sizes_with_leading_zeros() {
    assert_eq!(
        ProgramState::parse(&tokens(&["allocate", "x", "007"])),
        Ok(ProgramAction::Allocate(String::from("x"), 7))
    );
}

#[test]
fn parse_accepts_the_largest_size_and_rejects_overflow() {
    assert_eq!(
        ProgramState::parse(&tokens(&["allocate", "x", "18446744073709551615"])),
        Ok(ProgramAction::Allocate(String::from("x"), usize::MAX))
    );
    assert_eq!(
        ProgramState::parse(&tokens(&["allocate", "x", "18446744073709551616"])),
        Err(ProgramError::InvalidActionArgs(tokens(&[
            "x",
            "18446744073709551616"
        ])))
    );
}

#[test]
fn parse_accepts_a_leading_plus_sign() {
    // the size grammar is what usize's own parser accepts
    assert_eq!(
        ProgramState::parse(&tokens(&["allocate", "x", "+5"])),
        Ok(ProgramAction::Allocate(String::from("x"), 5))
    );
}

#[test]
fn parse_wants_digits_after_the_sign() {
    assert_eq!(
        ProgramState::parse(&tokens(&["allocate", "x", "+"])),
        Err(ProgramError::InvalidActionArgs(tokens(&["x", "+"])))
    );
    assert_eq!(
        ProgramState::parse(&tokens(&["allocate", "x", "++5"])),
        Err(ProgramError::InvalidActionArgs(tokens(&["x", "++5"])))
    );
}

#[test]
fn parse_ignores_extra_arguments_after_a_free_name() {
    assert_eq!(
        ProgramState::parse(&tokens(&["free", "x", "extra"])),
        Ok(ProgramAction::Free(String::from("x")))
    );
}

#[test]
fn parse_reads_a_free() {
    assert_eq!(
        ProgramState::parse(&tokens(&["free", "x"])),
        Ok(ProgramAction::Free(String::from("x")))
    );
}

#[test]
fn parse_wants_a_name_to_free() {
    assert_eq!(
        ProgramState::parse(&tokens(&["free"])),
        Err(ProgramError::NotEnoughActionArgs(0, 1))
    );
}

#[test]
fn parse_rejects_an_unknown_directive() {
    assert_eq!(
        ProgramState::parse(&tokens(&["bogus", "x"])),
        Err(ProgramError::InvalidAction(String::from("bogus")))
    );
}

#[test]
fn program_needs_a_capacity_argument() {
    assert!(matches!(
        ProgramState::new(&tokens(&["buddy"])),
        Err(ProgramError::NotEnoughArgs)
    ));
}

#[test]
fn program_rejects_a_non_numeric_capacity() {
    assert!(matches!(
        ProgramState::new(&tokens(&["buddy", "ten"])),
        Err(ProgramError::InvalidArgs)
    ));
}

#[test]
fn program_accepts_a_signed_capacity() {
    let state = ProgramState::new(&tokens(&["buddy", "+5"])).ok().expect("valid arguments");
    assert_eq!(state.allocated_memory, 5);
    assert_eq!(state.manager.get_memory().len(), 5);
}

#[test]
fn program_starts_with_the_partitioned_region() {
    let state = ProgramState::new(&tokens(&["buddy", "10"])).ok().expect("valid arguments");
    assert!(!state.exit());
    assert_eq!(state.allocated_memory, 10);
    let expected_block_list = BlockLists {
        lists: vec![
            BlockEntry { size: 2, addrs: vec![8] },
            BlockEntry { size: 8, addrs: vec![0] },
        ],
    };
    assert_eq!(*state.manager.get_blocks(), expected_block_list);
}
