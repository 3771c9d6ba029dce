use brainfuck_interpreter::parser::look_for_find_zero;
use brainfuck_interpreter::parser::parse_program;
use brainfuck_interpreter::parser::ParseError;
use brainfuck_interpreter::program::Instruction;
use brainfuck_interpreter::program::Program;

fn parse(source: &str) -> Result<Program, ParseError> {
    parse_program(&mut source.to_string())
}

#[test]
fn test_parse_simple_program() {
    let content = "><+-.,[][-]";
    let program = parse_program(&mut content.to_string()).unwrap();
    let reference_result = vec![
        Instruction::IncPtr(1),
        Instruction::DecPtr(1),
        Instruction::IncCell(1),
        Instruction::DecCell(1),
        Instruction::Output,
        Instruction::Input,
        Instruction::JumpForward(7),
        Instruction::JumpBackward(6),
        Instruction::ZeroCell,
    ];
    for i in 0..9 {
        println!("{:?}", program[i]);
        assert_eq!(program[i], reference_result[i]);
    }
}

#[test]
fn simple_program_has_nine_instructions() {
    assert_eq!(parse("><+-.,[][-]").unwrap().len(), 9);
}

#[test]
fn empty_text_is_the_empty_program() {
    assert_eq!(parse(""), Ok(vec![]));
    assert_eq!(parse("no operators here"), Ok(vec![]));
}

#[test]
fn comments_do_not_change_the_program() {
    let bare = parse("++[->+<]>.").unwrap();
    let noisy = parse("add two: + +\n[ - > + < ] move it\t> print .!").unwrap();
    assert_eq!(bare, noisy);
    assert_eq!(
        bare,
        vec![
            Instruction::IncCell(2),
            Instruction::JumpForward(6),
            Instruction::DecCell(1),
            Instruction::IncPtr(1),
            Instruction::IncCell(1),
            Instruction::DecPtr(1),
            Instruction::JumpBackward(1),
            Instruction::IncPtr(1),
            Instruction::Output,
        ]
    );
}

#[test]
fn comment_inside_a_run_does_not_split_it() {
    assert_eq!(parse("++ x ++"), Ok(vec![Instruction::IncCell(4)]));
}

#[test]
fn comment_inside_the_clearing_loop_does_not_hide_it() {
    assert_eq!(parse("[ - ]"), Ok(vec![Instruction::ZeroCell]));
}

#[test]
fn digit_zero_in_the_text_is_a_comment() {
    assert_eq!(parse("0"), Ok(vec![]));
    assert_eq!(parse("+0+"), Ok(vec![Instruction::IncCell(2)]));
}

#[test]
fn non_ascii_text_is_a_comment() {
    assert_eq!(parse("é+ü+→>"), Ok(vec![Instruction::IncCell(2), Instruction::IncPtr(1)]));
}

#[test]
fn parsing_leaves_the_text_stripped() {
    let mut text = "a+b[c-d]e".to_string();
    let program = parse_program(&mut text).unwrap();
    assert_eq!(text, "+[-]");
    assert_eq!(program, vec![Instruction::IncCell(1), Instruction::ZeroCell]);
}

#[test]
fn runs_merge_into_one_instruction() {
    assert_eq!(parse("+"), Ok(vec![Instruction::IncCell(1)]));
    assert_eq!(parse("+++++"), Ok(vec![Instruction::IncCell(5)]));
    assert_eq!(parse("---"), Ok(vec![Instruction::DecCell(3)]));
    assert_eq!(parse(">>>>>>>"), Ok(vec![Instruction::IncPtr(7)]));
    assert_eq!(parse("<<"), Ok(vec![Instruction::DecPtr(2)]));
}

#[test]
fn long_run_carries_its_length() {
    let text = "+".repeat(1000);
    assert_eq!(parse(&text), Ok(vec![Instruction::IncCell(1000)]));
    let text = ">".repeat(70000);
    assert_eq!(parse(&text), Ok(vec![Instruction::IncPtr(70000)]));
}

#[test]
fn runs_of_different_operators_stay_apart() {
    assert_eq!(
        parse("++--+>><"),
        Ok(vec![
            Instruction::IncCell(2),
            Instruction::DecCell(2),
            Instruction::IncCell(1),
            Instruction::IncPtr(2),
            Instruction::DecPtr(1),
        ])
    );
}

#[test]
fn input_and_output_do_not_merge() {
    assert_eq!(
        parse("..,,"),
        Ok(vec![
            Instruction::Output,
            Instruction::Output,
            Instruction::Input,
            Instruction::Input,
        ])
    );
}

#[test]
fn stray_closing_bracket_reports_instruction_count() {
    assert_eq!(parse("]"), Err(ParseError::BracketError(0)));
    assert_eq!(parse("++>]"), Err(ParseError::BracketError(2)));
    assert_eq!(parse("[]]"), Err(ParseError::BracketError(2)));
}

#[test]
fn stray_closing_bracket_stops_the_pass() {
    assert_eq!(parse("+]["), Err(ParseError::BracketError(1)));
}

#[test]
fn unclosed_bracket_reports_the_outermost_opening() {
    assert_eq!(parse("["), Err(ParseError::BracketError(0)));
    assert_eq!(parse("+["), Err(ParseError::BracketError(1)));
    assert_eq!(parse("+[.[."), Err(ParseError::BracketError(1)));
    assert_eq!(parse("+[.[.]"), Err(ParseError::BracketError(1)));
}

#[test]
fn empty_loop_keeps_both_jumps() {
    assert_eq!(
        parse("[]"),
        Ok(vec![Instruction::JumpForward(1), Instruction::JumpBackward(0)])
    );
}

#[test]
fn nested_loops_point_at_each_other() {
    assert_eq!(
        parse("[.[.].]"),
        Ok(vec![
            Instruction::JumpForward(6),
            Instruction::Output,
            Instruction::JumpForward(4),
            Instruction::Output,
            Instruction::JumpBackward(2),
            Instruction::Output,
            Instruction::JumpBackward(0),
        ])
    );
}

#[test]
fn clearing_loop_is_one_instruction() {
    assert_eq!(parse("[-]"), Ok(vec![Instruction::ZeroCell]));
    assert_eq!(
        parse("[-][-]"),
        Ok(vec![Instruction::ZeroCell, Instruction::ZeroCell])
    );
}

#[test]
fn clearing_loop_inside_a_loop() {
    assert_eq!(
        parse("[[-]]"),
        Ok(vec![
            Instruction::JumpForward(2),
            Instruction::ZeroCell,
            Instruction::JumpBackward(0),
        ])
    );
}

#[test]
fn longer_decrement_loop_is_not_the_clearing_loop() {
    assert_eq!(
        parse("[--]"),
        Ok(vec![
            Instruction::JumpForward(2),
            Instruction::DecCell(2),
            Instruction::JumpBackward(0),
        ])
    );
}

#[test]
fn scan_loop_after_an_instruction_is_folded() {
    assert_eq!(
        parse("+[>>>]"),
        Ok(vec![Instruction::IncCell(1), Instruction::FindZeroRight(3)])
    );
    assert_eq!(
        parse(".[<<]"),
        Ok(vec![Instruction::Output, Instruction::FindZeroLeft(2)])
    );
}

#[test]
fn scan_loop_at_the_very_start_keeps_its_jumps() {
    assert_eq!(
        parse("[>>>]"),
        Ok(vec![
            Instruction::JumpForward(2),
            Instruction::IncPtr(3),
            Instruction::JumpBackward(0),
        ])
    );
    assert_eq!(
        parse("[<<]"),
        Ok(vec![
            Instruction::JumpForward(2),
            Instruction::DecPtr(2),
            Instruction::JumpBackward(0),
        ])
    );
}

#[test]
fn instructions_after_a_scan_keep_their_indices() {
    assert_eq!(
        parse("+[>]+[.]"),
        Ok(vec![
            Instruction::IncCell(1),
            Instruction::FindZeroRight(1),
            Instruction::IncCell(1),
            Instruction::JumpForward(5),
            Instruction::Output,
            Instruction::JumpBackward(3),
        ])
    );
}

#[test]
fn scan_inside_a_loop_leaves_the_outer_loop_paired() {
    assert_eq!(
        parse("+[.[>]]"),
        Ok(vec![
            Instruction::IncCell(1),
            Instruction::JumpForward(4),
            Instruction::Output,
            Instruction::FindZeroRight(1),
            Instruction::JumpBackward(1),
        ])
    );
}

#[test]
fn loop_with_a_longer_body_is_not_a_scan() {
    assert_eq!(
        parse("+[>+]"),
        Ok(vec![
            Instruction::IncCell(1),
            Instruction::JumpForward(4),
            Instruction::IncPtr(1),
            Instruction::IncCell(1),
            Instruction::JumpBackward(1),
        ])
    );
}

#[test]
fn find_zero_folds_the_tail() {
    let mut instructions = vec![
        Instruction::Output,
        Instruction::JumpForward(0),
        Instruction::IncPtr(4),
    ];
    assert_eq!(look_for_find_zero(&mut instructions, 3), Ok(true));
    assert_eq!(instructions, vec![Instruction::Output, Instruction::FindZeroRight(4)]);

    let mut instructions = vec![
        Instruction::Output,
        Instruction::JumpForward(0),
        Instruction::DecPtr(2),
    ];
    assert_eq!(look_for_find_zero(&mut instructions, 3), Ok(true));
    assert_eq!(instructions, vec![Instruction::Output, Instruction::FindZeroLeft(2)]);
}

#[test]
fn find_zero_leaves_other_tails_alone() {
    let short = vec![Instruction::JumpForward(0), Instruction::IncPtr(1)];
    let mut instructions = short.clone();
    assert_eq!(look_for_find_zero(&mut instructions, 2), Ok(false));
    assert_eq!(instructions, short);

    let no_jump = vec![Instruction::Output, Instruction::Output, Instruction::IncPtr(1)];
    let mut instructions = no_jump.clone();
    assert_eq!(look_for_find_zero(&mut instructions, 3), Ok(false));
    assert_eq!(instructions, no_jump);

    let no_move = vec![Instruction::Output, Instruction::JumpForward(0), Instruction::IncCell(1)];
    let mut instructions = no_move.clone();
    assert_eq!(look_for_find_zero(&mut instructions, 3), Ok(false));
    assert_eq!(instructions, no_move);

    let mut instructions: Program = vec![];
    assert_eq!(look_for_find_zero(&mut instructions, 0), Ok(false));
    assert_eq!(instructions, vec![]);
}
