use brainfuck_interpreter::interpreter::input_error;
use brainfuck_interpreter::interpreter::run_program;
use brainfuck_interpreter::interpreter::write_cell;
use brainfuck_interpreter::interpreter::Action;
use brainfuck_interpreter::interpreter::Execution;
use brainfuck_interpreter::interpreter::Machine;
use brainfuck_interpreter::interpreter::RuntimeError;
use brainfuck_interpreter::interpreter::STACK_LIMIT;
use brainfuck_interpreter::parse_and_run;
use brainfuck_interpreter::parser::parse_program;
use brainfuck_interpreter::parser::ParseError;
use brainfuck_interpreter::program::Instruction;

const PLENTY: usize = 10_000_000;

fn run(source: &str, input: &[u8]) -> Execution {
    let program = parse_program(&mut source.to_string()).unwrap();
    run_program(&program, input, PLENTY)
}

fn exhausted() -> RuntimeError {
    RuntimeError::InputError(
        "Error while reading from console! Error: failed to fill whole buffer".to_string(),
    )
}

#[test]
fn hello_world() {
    let source = "++++++++[>++++[>++>+++>+++>+<<<<-]>+>+>->>+[<]<-]>>.>---.+++++++..+++.>>.<-.<.+++.------.--------.>>+.>++.";
    let execution = run(source, &[]);
    assert_eq!(execution.output, "Hello World!\n");
    assert_eq!(execution.result, Some(Ok(())));
    assert_eq!(execution.consumed, 0);
}

#[test]
fn pointer_past_the_tape_fails() {
    let source = ">".repeat(STACK_LIMIT);
    let execution = run(&source, &[]);
    assert_eq!(execution.result, Some(Err(RuntimeError::RegisterLimitExceededError)));
    assert_eq!(execution.output, "");
}

#[test]
fn pointer_on_the_last_cell_is_fine() {
    let source = ">".repeat(STACK_LIMIT - 1);
    let execution = run(&source, &[]);
    assert_eq!(execution.result, Some(Ok(())));
    assert_eq!(execution.machine.data_pointer(), STACK_LIMIT - 1);
}

#[test]
fn single_moves_past_the_tape_fail_too() {
    let mut source = ">".repeat(STACK_LIMIT - 1);
    source.push_str("+>");
    let execution = run(&source, &[]);
    assert_eq!(execution.result, Some(Err(RuntimeError::RegisterLimitExceededError)));
    assert_eq!(execution.machine.cells()[STACK_LIMIT - 1], 1);
}

#[test]
fn pointer_below_the_tape_fails() {
    let execution = run("<", &[]);
    assert_eq!(execution.result, Some(Err(RuntimeError::RegisterLimitExceededError)));
    let execution = run(">><<<", &[]);
    assert_eq!(execution.result, Some(Err(RuntimeError::RegisterLimitExceededError)));
}

#[test]
fn input_is_echoed() {
    let execution = run(",.", b"A");
    assert_eq!(execution.output, "A");
    assert_eq!(execution.result, Some(Ok(())));
    assert_eq!(execution.consumed, 1);
}

#[test]
fn each_read_takes_one_byte() {
    let execution = run(",>,>,<<.>.>.", b"xyz!");
    assert_eq!(execution.output, "xyz");
    assert_eq!(execution.consumed, 3);
    assert_eq!(execution.machine.cells()[0], 120);
    assert_eq!(execution.machine.cells()[1], 121);
    assert_eq!(execution.machine.cells()[2], 122);
}

#[test]
fn read_from_an_empty_channel_fails() {
    let execution = run(",", &[]);
    assert_eq!(execution.result, Some(Err(exhausted())));
    let execution = run("+.,,.", &[7]);
    assert_eq!(execution.result, Some(Err(exhausted())));
    assert_eq!(execution.output, "\u{1}");
    assert_eq!(execution.consumed, 1);
    assert_eq!(execution.machine.cells()[0], 7);
}

#[test]
fn input_error_text() {
    assert_eq!(
        input_error("broken pipe"),
        RuntimeError::InputError(
            "Error while reading from console! Error: broken pipe".to_string()
        )
    );
}

#[test]
fn empty_program_ends_at_once() {
    let execution = run_program(&vec![], &[], 1);
    assert_eq!(execution.result, Some(Ok(())));
    assert_eq!(execution.output, "");
    assert_eq!(execution.machine.cells().len(), STACK_LIMIT);
    assert!(execution.machine.cells().iter().all(|cell| *cell == 0));
}

#[test]
fn no_steps_no_result() {
    let execution = run_program(&vec![], &[], 0);
    assert_eq!(execution.result, None);
}

#[test]
fn endless_loop_runs_out_of_steps() {
    let program = parse_program(&mut "+[]".to_string()).unwrap();
    let execution = run_program(&program, &[], 1000);
    assert_eq!(execution.result, None);
    assert_eq!(execution.machine.cells()[0], 1);
}

#[test]
fn steps_are_counted_one_instruction_each() {
    let program = parse_program(&mut "+++>++.".to_string()).unwrap();
    assert_eq!(program.len(), 4);
    assert_eq!(run_program(&program, &[], 4).result, None);
    assert_eq!(run_program(&program, &[], 4).output, "\u{2}");
    assert_eq!(run_program(&program, &[], 5).result, Some(Ok(())));
}

#[test]
fn cells_wrap_below_zero() {
    let execution = run("-", &[]);
    assert_eq!(execution.machine.cells()[0], u32::MAX);
    let execution = run("--", &[]);
    assert_eq!(execution.machine.cells()[0], u32::MAX - 1);
    let execution = run("--+", &[]);
    assert_eq!(execution.machine.cells()[0], u32::MAX);
}

#[test]
fn cells_wrap_above_the_largest_value() {
    let program = vec![Instruction::DecCell(1), Instruction::IncCell(3)];
    let execution = run_program(&program, &[], 10);
    assert_eq!(execution.machine.cells()[0], 2);
    let program = vec![Instruction::IncCell(u32::MAX), Instruction::IncCell(u32::MAX)];
    let execution = run_program(&program, &[], 10);
    assert_eq!(execution.machine.cells()[0], u32::MAX - 1);
}

#[test]
fn clearing_a_cell() {
    let execution = run("+++++[-]", &[]);
    assert_eq!(execution.machine.cells()[0], 0);
    assert_eq!(execution.result, Some(Ok(())));
}

#[test]
fn loop_moves_a_value() {
    let execution = run("+++[->++<]", &[]);
    assert_eq!(execution.machine.cells()[0], 0);
    assert_eq!(execution.machine.cells()[1], 6);
    assert_eq!(execution.machine.data_pointer(), 0);
}

#[test]
fn loop_on_a_zero_cell_is_skipped() {
    let execution = run("[+.]>+", &[]);
    assert_eq!(execution.output, "");
    assert_eq!(execution.machine.cells()[0], 0);
    assert_eq!(execution.machine.cells()[1], 1);
}

#[test]
fn scan_right_stops_on_the_first_zero_cell() {
    let execution = run("+>+>+<<[>]", &[]);
    assert_eq!(execution.result, Some(Ok(())));
    assert_eq!(execution.machine.data_pointer(), 3);
}

#[test]
fn scan_left_stops_on_the_first_zero_cell() {
    let execution = run(">+>+>+[<]", &[]);
    assert_eq!(execution.result, Some(Ok(())));
    assert_eq!(execution.machine.data_pointer(), 0);
}

#[test]
fn scan_by_a_stride_skips_cells() {
    let execution = run("+>>+>>+<<<<[>>]", &[]);
    assert_eq!(execution.machine.data_pointer(), 6);
}

#[test]
fn scan_on_a_zero_cell_does_nothing() {
    let execution = run(">+<[>]", &[]);
    assert_eq!(execution.machine.data_pointer(), 0);
    assert_eq!(execution.result, Some(Ok(())));
}

#[test]
fn scan_off_the_tape_fails() {
    let program = vec![Instruction::IncCell(1), Instruction::FindZeroRight(STACK_LIMIT)];
    let execution = run_program(&program, &[], 10);
    assert_eq!(execution.result, Some(Err(RuntimeError::RegisterLimitExceededError)));
    let execution = run("+[<]", &[]);
    assert_eq!(execution.result, Some(Err(RuntimeError::RegisterLimitExceededError)));
}

#[test]
fn scan_with_stride_zero_never_ends() {
    let program = vec![Instruction::IncCell(1), Instruction::FindZeroRight(0)];
    let execution = run_program(&program, &[], 1000);
    assert_eq!(execution.result, None);
    assert_eq!(execution.machine.instruction_pointer(), 1);
}

#[test]
fn jump_out_of_the_program_ends_the_run() {
    let program = vec![Instruction::JumpForward(99), Instruction::Output];
    let execution = run_program(&program, &[], 10);
    assert_eq!(execution.result, Some(Ok(())));
    assert_eq!(execution.output, "");
}

#[test]
fn output_of_a_character_code() {
    let mut out = String::new();
    write_cell(&mut out, 65);
    write_cell(&mut out, 0x20AC);
    write_cell(&mut out, 0x10FFFF);
    write_cell(&mut out, 0xD7FF);
    write_cell(&mut out, 0xE000);
    assert_eq!(out, "A\u{20AC}\u{10FFFF}\u{D7FF}\u{E000}");
}

#[test]
fn output_of_a_value_that_is_no_character() {
    let mut out = String::from("x");
    write_cell(&mut out, 0xD800);
    assert_eq!(out, "x55296");
    let mut out = String::new();
    write_cell(&mut out, 0xDFFF);
    write_cell(&mut out, 0x110000);
    write_cell(&mut out, u32::MAX);
    assert_eq!(out, "5734311141124294967295");
}

#[test]
fn program_prints_a_number_for_a_surrogate() {
    let program = vec![Instruction::IncCell(0xD800), Instruction::Output];
    let execution = run_program(&program, &[], 10);
    assert_eq!(execution.output, "55296");
}

#[test]
fn step_asks_for_input_and_takes_it() {
    let program = vec![Instruction::Input, Instruction::Output];
    let mut machine = Machine::new();
    assert_eq!(machine.step(&program, None), Ok(Action::AwaitInput));
    assert_eq!(machine.instruction_pointer(), 0);
    assert_eq!(machine.step(&program, Some(66)), Ok(Action::Consumed));
    assert_eq!(machine.cells()[0], 66);
    assert_eq!(machine.step(&program, Some(67)), Ok(Action::Emit(66)));
    assert_eq!(machine.step(&program, Some(67)), Ok(Action::Halt));
    assert_eq!(machine.step(&program, None), Ok(Action::Halt));
}

#[test]
fn step_off_the_tape_leaves_the_machine() {
    let program = vec![Instruction::IncPtr(5), Instruction::DecPtr(6)];
    let mut machine = Machine::new();
    assert_eq!(machine.step(&program, None), Ok(Action::Continue));
    assert_eq!(machine.step(&program, None), Err(RuntimeError::RegisterLimitExceededError));
    assert_eq!(machine.data_pointer(), 5);
    assert_eq!(machine.instruction_pointer(), 1);
}

#[test]
fn jumps_land_one_past_their_target() {
    let program = vec![
        Instruction::JumpForward(2),
        Instruction::IncCell(1),
        Instruction::JumpBackward(0),
        Instruction::Output,
    ];
    let mut machine = Machine::new();
    assert_eq!(machine.step(&program, None), Ok(Action::Continue));
    assert_eq!(machine.instruction_pointer(), 3);

    let program = vec![
        Instruction::IncCell(1),
        Instruction::JumpForward(3),
        Instruction::DecCell(1),
        Instruction::JumpBackward(1),
    ];
    let mut machine = Machine::new();
    machine.step(&program, None).unwrap();
    machine.step(&program, None).unwrap();
    assert_eq!(machine.instruction_pointer(), 2);
    machine.step(&program, None).unwrap();
    machine.step(&program, None).unwrap();
    assert_eq!(machine.instruction_pointer(), 4);
}

#[test]
fn folded_and_plain_program_do_the_same() {
    let folded = parse_program(&mut ",[>+++<-]>.>+>+<<+[>>]<<[<]".to_string()).unwrap();
    let plain = vec![
        Instruction::Input,
        Instruction::JumpForward(8),
        Instruction::IncPtr(1),
        Instruction::IncCell(1),
        Instruction::IncCell(1),
        Instruction::IncCell(1),
        Instruction::DecPtr(1),
        Instruction::DecCell(1),
        Instruction::JumpBackward(1),
        Instruction::IncPtr(1),
        Instruction::Output,
        Instruction::IncPtr(1),
        Instruction::IncCell(1),
        Instruction::IncPtr(1),
        Instruction::IncCell(1),
        Instruction::DecPtr(1),
        Instruction::DecPtr(1),
        Instruction::IncCell(1),
        Instruction::JumpForward(21),
        Instruction::IncPtr(1),
        Instruction::IncPtr(1),
        Instruction::JumpBackward(18),
        Instruction::DecPtr(1),
        Instruction::DecPtr(1),
        Instruction::JumpForward(26),
        Instruction::DecPtr(1),
        Instruction::JumpBackward(24),
    ];
    assert!(folded.len() < plain.len());
    assert!(folded.contains(&Instruction::FindZeroRight(2)));
    assert!(folded.contains(&Instruction::FindZeroLeft(1)));
    let a = run_program(&folded, &[11], PLENTY);
    let b = run_program(&plain, &[11], PLENTY);
    assert_eq!(a.result, Some(Ok(())));
    assert_eq!(a.result, b.result);
    assert_eq!(a.output, "!");
    assert_eq!(a.output, b.output);
    assert_eq!(a.consumed, b.consumed);
    assert_eq!(a.machine.cells(), b.machine.cells());
    assert_eq!(a.machine.cells()[1], 34);
    assert_eq!(a.machine.data_pointer(), 0);
}

#[test]
fn folded_and_plain_program_fail_alike() {
    let folded = parse_program(&mut "+++>>[-]<<<<".to_string()).unwrap();
    let plain = vec![
        Instruction::IncCell(1),
        Instruction::IncCell(1),
        Instruction::IncCell(1),
        Instruction::IncPtr(1),
        Instruction::IncPtr(1),
        Instruction::JumpForward(7),
        Instruction::DecCell(1),
        Instruction::JumpBackward(5),
        Instruction::DecPtr(1),
        Instruction::DecPtr(1),
        Instruction::DecPtr(1),
        Instruction::DecPtr(1),
    ];
    let a = run_program(&folded, &[], PLENTY);
    let b = run_program(&plain, &[], PLENTY);
    assert_eq!(a.result, Some(Err(RuntimeError::RegisterLimitExceededError)));
    assert_eq!(a.result, b.result);
    assert_eq!(a.output, b.output);
    assert_eq!(a.machine.cells(), b.machine.cells());
}

#[test]
fn parse_and_run_runs_what_it_parsed() {
    let execution = parse_and_run("say: ,+.".to_string(), b"a", PLENTY).unwrap();
    assert_eq!(execution.output, "b");
    assert_eq!(execution.result, Some(Ok(())));
}

#[test]
fn parse_and_run_does_not_run_a_broken_text() {
    assert_eq!(
        parse_and_run("+.]".to_string(), &[], PLENTY).err(),
        Some(ParseError::BracketError(2))
    );
}
