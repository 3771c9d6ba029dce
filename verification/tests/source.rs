use brainfuck_interpreter::source::characters;
use brainfuck_interpreter::source::is_allowed_symbol;
use brainfuck_interpreter::source::pre_process_program;
use brainfuck_interpreter::source::strip_program;

#[test]
fn the_eight_operators_are_allowed() {
    for c in "><+-.,[]".chars() {
        assert!(is_allowed_symbol(c));
    }
}

#[test]
fn other_characters_are_not_allowed() {
    for c in "0aZ \n\t#!?{}()=*/é→".chars() {
        assert!(!is_allowed_symbol(c));
    }
}

#[test]
fn strip_keeps_operators_in_order() {
    let mut code = "a+b-c [x] > y < . z ,".to_string();
    strip_program(&mut code);
    assert_eq!(code, "+-[]><.,");
}

#[test]
fn strip_of_a_comment_is_empty() {
    let mut code = "hello, world".to_string();
    strip_program(&mut code);
    assert_eq!(code, ",");
    let mut code = "hello world".to_string();
    strip_program(&mut code);
    assert_eq!(code, "");
}

#[test]
fn strip_twice_is_strip_once() {
    let mut once = "1 + 1 = [2]".to_string();
    strip_program(&mut once);
    let mut twice = once.clone();
    strip_program(&mut twice);
    assert_eq!(once, twice);
    assert_eq!(once, "+[]");
}

#[test]
fn pre_process_folds_every_clearing_loop() {
    assert_eq!(pre_process_program(&"[-]".to_string()), "0");
    assert_eq!(pre_process_program(&"+[-]>[-][-]<".to_string()), "+0>00<");
}

#[test]
fn pre_process_leaves_the_rest() {
    assert_eq!(pre_process_program(&"".to_string()), "");
    assert_eq!(pre_process_program(&"[-".to_string()), "[-");
    assert_eq!(pre_process_program(&"[--]".to_string()), "[--]");
    assert_eq!(pre_process_program(&"[-[-]".to_string()), "[-0");
    assert_eq!(pre_process_program(&"[[-]]".to_string()), "[0]");
}

#[test]
fn characters_are_the_text_in_order() {
    assert_eq!(characters("a→b"), vec!['a', '→', 'b']);
    assert_eq!(characters(""), Vec::<char>::new());
}
