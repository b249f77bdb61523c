use bfi::brackets::process_loops;
use bfi::{Instruction, LoadError, Machine, RuntimeError};

fn chars(source: &str) -> Vec<char> {
    source.chars().collect()
}

fn run_source(source: &str, optimise: bool, input: &[u8]) -> Result<Vec<u8>, RuntimeError> {
    let mut machine = Machine::new(30_000);
    machine.load_program(chars(source), optimise).expect("program loads");
    let result = machine.run(&input.to_vec(), 1_000_000);
    if result.is_ok() {
        assert!(machine.has_program_ended());
    }
    result
}

#[test]
fn three_increments_write_three() {
    for optimise in [false, true] {
        assert_eq!(run_source("+++.", optimise, &[]), Ok(vec![3]));
    }
}

#[test]
fn clear_idiom_zeroes_cell() {
    for optimise in [false, true] {
        assert_eq!(run_source("+++++[-].", optimise, &[]), Ok(vec![0]));
    }
}

#[test]
fn multiplication_loop_gives_sixty_four() {
    for optimise in [false, true] {
        assert_eq!(run_source("++++++++[>++++++++<-]>.", optimise, &[]), Ok(vec![64]));
    }
}

#[test]
fn read_then_write_echoes_byte() {
    for optimise in [false, true] {
        assert_eq!(run_source(",.", optimise, &[65]), Ok(vec![65]));
    }
}

#[test]
fn empty_loop_on_zero_cell_is_skipped() {
    for optimise in [false, true] {
        assert_eq!(run_source("[]", optimise, &[]), Ok(vec![]));
    }
}

#[test]
fn lone_brackets_are_rejected_at_load() {
    for source in ["]", "[", "[[]", "[]]", "][", "+[>]]<[-"] {
        for optimise in [false, true] {
            let mut machine = Machine::new(16);
            assert_eq!(
                machine.load_program(chars(source), optimise),
                Err(LoadError::UnbalancedLoops)
            );
            assert!(machine.current_program().is_empty());
            assert_eq!(machine.instruction_pointer(), 0);
            assert!(machine.has_program_ended());
        }
    }
}

#[test]
fn unknown_character_is_rejected() {
    let mut machine = Machine::new(16);
    assert_eq!(
        machine.load_program(chars("+a-"), true),
        Err(LoadError::UnknownToken)
    );
    assert_eq!(
        machine.load_program(chars("[ ]"), false),
        Err(LoadError::UnknownToken)
    );
    assert!(machine.current_program().is_empty());
}

#[test]
fn read_without_input_fails() {
    assert_eq!(run_source("+.,.", false, &[]), Err(RuntimeError::InputExhausted));
    let mut machine = Machine::new(4);
    machine.load_program(chars(","), false).unwrap();
    assert_eq!(machine.step(None), Err(RuntimeError::InputExhausted));
    assert_eq!(machine.instruction_pointer(), 0);
    assert_eq!(machine.step(Some(7)), Ok(None));
    assert_eq!(machine.tape()[0], 7);
    assert!(machine.has_program_ended());
}

#[test]
fn coalescing_merges_runs() {
    let mut machine = Machine::new(8);
    machine.load_program(chars(">>><<++++---,."), true).unwrap();
    assert_eq!(
        machine.current_program(),
        &[
            Instruction::MoveRight(3),
            Instruction::MoveLeft(2),
            Instruction::Increment(4),
            Instruction::Decrement(3),
            Instruction::Read,
            Instruction::Write,
        ][..]
    );
}

#[test]
fn unoptimised_load_keeps_one_instruction_per_token() {
    let mut machine = Machine::new(8);
    machine.load_program(chars("++[-]"), false).unwrap();
    assert_eq!(
        machine.current_program(),
        &[
            Instruction::Increment(1),
            Instruction::Increment(1),
            Instruction::LoopStart(5),
            Instruction::Decrement(1),
            Instruction::LoopEnd(3),
        ][..]
    );
}

#[test]
fn clear_idiom_becomes_one_instruction() {
    let mut machine = Machine::new(8);
    machine.load_program(chars("+[-]>[--]"), true).unwrap();
    assert_eq!(
        machine.current_program(),
        &[
            Instruction::Increment(1),
            Instruction::Clear,
            Instruction::MoveRight(1),
            Instruction::LoopStart(6),
            Instruction::Decrement(2),
            Instruction::LoopEnd(4),
        ][..]
    );
}

#[test]
fn nested_brackets_get_matching_targets() {
    let mut machine = Machine::new(8);
    machine.load_program(chars("[[]+[]]"), false).unwrap();
    assert_eq!(
        machine.current_program(),
        &[
            Instruction::LoopStart(7),
            Instruction::LoopStart(3),
            Instruction::LoopEnd(2),
            Instruction::Increment(1),
            Instruction::LoopStart(6),
            Instruction::LoopEnd(5),
            Instruction::LoopEnd(1),
        ][..]
    );
}

#[test]
fn resolving_again_changes_nothing() {
    for optimise in [false, true] {
        let mut machine = Machine::new(8);
        machine.load_program(chars("+[>[-]<-[[]+]]."), optimise).unwrap();
        let once: Vec<Instruction> = machine.current_program().to_vec();
        let mut twice = once.clone();
        assert_eq!(process_loops(&mut twice), Ok(()));
        assert_eq!(twice, once);
    }
}

#[test]
fn motion_wraps_around_tape() {
    let mut machine = Machine::new(3);
    machine.load_program(chars(">>>+<<<<+"), false).unwrap();
    assert_eq!(machine.run(&vec![], 100), Ok(vec![]));
    assert_eq!(machine.tape(), &[1, 0, 1][..]);
    assert_eq!(machine.data_pointer(), 2);

    let mut single = Machine::new(1);
    single.load_program(chars("<+>>+"), true).unwrap();
    assert_eq!(single.run(&vec![], 100), Ok(vec![]));
    assert_eq!(single.tape(), &[2][..]);
    assert_eq!(single.data_pointer(), 0);
}

#[test]
fn large_moves_wrap_modulo_tape_length() {
    let mut machine = Machine::new(5);
    let source: String = ">".repeat(13);
    machine.load_program(chars(&source), true).unwrap();
    assert_eq!(machine.current_program(), &[Instruction::MoveRight(13)][..]);
    machine.run(&vec![], 10).unwrap();
    assert_eq!(machine.data_pointer(), 3);
    let mut left = Machine::new(5);
    left.load_program(chars("<<<<<<<"), true).unwrap();
    left.run(&vec![], 10).unwrap();
    assert_eq!(left.data_pointer(), 3);
}

#[test]
fn cell_arithmetic_wraps() {
    let source = format!("{}.+.--.", "+".repeat(255));
    for optimise in [false, true] {
        assert_eq!(run_source(&source, optimise, &[]), Ok(vec![255, 0, 254]));
    }
    assert_eq!(run_source("-.", true, &[]), Ok(vec![255]));
}

#[test]
fn long_runs_are_stored_modulo_256() {
    let source = format!("{}.", "+".repeat(300));
    let mut machine = Machine::new(4);
    machine.load_program(chars(&source), true).unwrap();
    assert_eq!(machine.current_program()[0], Instruction::Increment(44));
    assert_eq!(machine.run(&vec![], 10), Ok(vec![44]));
    assert_eq!(run_source(&source, false, &[]), Ok(vec![44]));
}

#[test]
fn clear_matches_decrement_loop_for_every_value() {
    for v in 0..=255usize {
        let prefix = "+".repeat(v);
        let with_clear = format!("{}[-].", prefix);
        let with_loop = format!("{}[-].", prefix);
        let a = run_source(&with_clear, true, &[]);
        let b = run_source(&with_loop, false, &[]);
        assert_eq!(a, Ok(vec![0]));
        assert_eq!(a, b);
    }
}

#[test]
fn coalescing_does_not_change_output() {
    let programs: [(&str, &[u8]); 4] = [
        ("++++++++[>++++++++<-]>+.+.[-]++++[>+++<-]>.", &[]),
        (",[.-]", &[5]),
        (",>,<[->+<]>.", &[30, 12]),
        ("+++[>+++++[>+++++<-]<-]>>.<<<<<.", &[]),
    ];
    for (source, input) in programs {
        let plain = run_source(source, false, input);
        let merged = run_source(source, true, input);
        assert!(plain.is_ok());
        assert_eq!(plain, merged);
    }
}

#[test]
fn step_reports_writes_and_stops_at_end() {
    let mut machine = Machine::new(4);
    machine.load_program(chars("+."), false).unwrap();
    assert!(!machine.awaits_input());
    assert_eq!(machine.step(None), Ok(None));
    assert_eq!(machine.step(None), Ok(Some(1)));
    assert!(machine.has_program_ended());
}

#[test]
fn run_stops_after_step_budget() {
    let mut machine = Machine::new(4);
    machine.load_program(chars("+[]"), false).unwrap();
    assert_eq!(machine.run(&vec![], 50), Ok(vec![]));
    assert!(!machine.has_program_ended());
}

#[test]
fn coalescing_loads_exactly_when_plain_loads() {
    for source in ["[-]", "[-]]", "[[-]", "+[-[-]]", "[--]", "][-", "[-][", ">>[<<]"] {
        let mut plain = Machine::new(4);
        let mut merged = Machine::new(4);
        assert_eq!(
            plain.load_program(chars(source), false),
            merged.load_program(chars(source), true)
        );
    }
}
