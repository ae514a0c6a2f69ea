use brain_rust::parser::Lexer;

#[test]
fn next_token_skips_unrecognized_bytes() {
    let src = b"a+ b]c";
    let mut lexer = Lexer::new(src);
    assert_eq!(lexer.next_token(), Some('+'));
    assert_eq!(lexer.next_token(), Some(']'));
    assert_eq!(lexer.next_token(), None);
}

#[test]
fn the_command_marker_is_a_token() {
    let src = b"x#y";
    let mut lexer = Lexer::new(src);
    assert_eq!(lexer.next_token(), Some('#'));
    assert_eq!(lexer.next_token(), None);
}

#[test]
fn next_char_reads_every_byte_raw() {
    let src = b"a;+";
    let mut lexer = Lexer::new(src);
    assert_eq!(lexer.next_char(), Some('a'));
    assert_eq!(lexer.next_char(), Some(';'));
    assert_eq!(lexer.next_char(), Some('+'));
    assert_eq!(lexer.next_char(), None);
}

#[test]
fn back_retracts_one_token_for_rescanning() {
    let src = b"+-";
    let mut lexer = Lexer::new(src);
    assert_eq!(lexer.next_token(), Some('+'));
    assert_eq!(lexer.next_token(), Some('-'));
    lexer.back();
    assert_eq!(lexer.next_token(), Some('-'));
}

#[test]
fn back_at_the_start_stays_put() {
    let src = b"+";
    let mut lexer = Lexer::new(src);
    lexer.back();
    assert_eq!(lexer.next_token(), Some('+'));
}
