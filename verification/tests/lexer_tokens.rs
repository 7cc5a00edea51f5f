use sea_of_nodes::errors::son_error::SoNError;
use sea_of_nodes::services::lexer::Lexer;

#[test]
fn should_lex_dbg() {
    // Arrange
    let mut lexer = Lexer::from_str("1230");

    // Act
    let token = lexer.dbg_get_any_next_token();

    // Assert
    assert_eq!("1230", token);
    assert_eq!(4, lexer.position());
}

#[test]
fn should_lex_number() {
    // Arrange
    let mut lexer = Lexer::from_str("1230");

    // Act
    let token = lexer.parse_number();

    // Assert
    assert_eq!(1230, token.unwrap());
    assert_eq!(4, lexer.position());
}

#[test]
fn should_lex_number_but_stop_at_non_number() {
    // Arrange
    let mut lexer = Lexer::from_str("123a");

    // Act
    let token = lexer.parse_number();

    // Assert
    assert_eq!(123, token.unwrap());
    assert_eq!(3, lexer.position());
}

#[test]
fn should_match_loosely() {
    // Arrange
    let mut lexer = Lexer::from_str("waitaminute");

    // Act
    let m = lexer.matsch(&"wait".to_string());

    // Assert
    assert!(m);
    assert_eq!(4, lexer.position());
}

#[test]
fn should_match_exactly() {
    // Arrange
    let mut lexer = Lexer::from_str("waitaminute");

    // Act
    let m = lexer.matschx("wait");

    // Assert
    assert!(!m);
    assert_eq!(0, lexer.position());
}

#[test]
fn should_match_still_exactly_for_non_id_letters() {
    // Arrange
    let mut lexer = Lexer::from_str("wait!aminute");

    // Act
    let m = lexer.matschx("wait");

    // Assert
    assert!(m);
    assert_eq!(4, lexer.position());
}

#[test]
fn should_get_line_col() {
    // Arrange
    let mut lexer = Lexer::from_str("01\n34\n6");
    lexer.set_position(4);

    // Act
    let result = lexer.dbg_position_string();

    // Assert
    assert_eq!("2:2", result);
}

#[test]
fn should_get_line_col_oob() {
    // Arrange
    let mut lexer = Lexer::from_str("01\n34\n6");
    lexer.set_position(123);

    // Act
    let result = lexer.dbg_position_string();

    // Assert
    assert_eq!("out of bounds", result);
}

#[test]
fn should_parse_zero_number() {
    // Arrange
    let mut lexer = Lexer::from_str("0");

    // Act
    let result = lexer.parse_number().unwrap();

    // Assert
    assert_eq!(0, result);
}

#[test]
fn should_refuse_a_number_where_no_digit_stands() {
    let mut lexer = Lexer::from_str("a123");

    let result = lexer.parse_number();

    assert!(matches!(
        result,
        Err(SoNError::SyntaxExpected { expected, but_got }) if expected == "Integer literal" && but_got == ""
    ));
    assert_eq!(0, lexer.position());
}

#[test]
fn should_refuse_a_leading_zero() {
    let mut lexer = Lexer::from_str("0123;");

    let result = lexer.parse_number();

    assert!(matches!(result, Err(SoNError::NumberCannotStartWith0)));
    assert_eq!(4, lexer.position());
}

#[test]
fn should_read_the_largest_number_and_refuse_the_next() {
    let mut lexer = Lexer::from_str("9223372036854775807");
    assert_eq!(lexer.parse_number().unwrap(), i64::MAX);

    let mut lexer = Lexer::from_str("9223372036854775808+1");
    let result = lexer.parse_number();
    assert!(matches!(
        result,
        Err(SoNError::SyntaxExpected { expected, but_got })
            if expected == "Integer literal" && but_got == "9223372036854775808"
    ));
    assert_eq!(19, lexer.position());
}

#[test]
fn should_peek_and_step_through_the_text() {
    let mut lexer = Lexer::from_string("ab".to_string());
    assert!(!lexer.is_eof());
    assert_eq!(lexer.peek(), Some('a'));
    assert_eq!(lexer.next_char(), Some('a'));
    assert_eq!(lexer.next_char(), Some('b'));
    assert!(lexer.is_eof());
    assert_eq!(lexer.peek(), None);
    assert_eq!(lexer.next_char(), None);
    assert_eq!(lexer.position(), 2);
    assert_eq!(lexer.input(), "ab");
}

#[test]
fn should_skip_white_space() {
    let mut lexer = Lexer::from_str(" \t\r\n\u{a0}\u{2003}x ");
    assert!(lexer.is_whitespace());
    lexer.skip_whitespace();
    assert_eq!(lexer.position(), 6);
    assert!(!lexer.is_whitespace());
    assert_eq!(lexer.peek(), Some('x'));
    lexer.skip_whitespace();
    assert_eq!(lexer.position(), 6);
}

#[test]
fn should_peek_matches_without_moving_on_success() {
    let mut lexer = Lexer::from_str("  return1 return x");
    assert!(lexer.peek_matsch("return"));
    assert_eq!(lexer.position(), 0);
    assert!(!lexer.peek_matschx("return"));
    assert_eq!(lexer.position(), 2);
    assert!(!lexer.peek_matsch("int"));
    assert_eq!(lexer.position(), 2);
    assert!(lexer.matsch("return1"));
    assert_eq!(lexer.position(), 9);
    assert!(lexer.peek_matschx("return"));
    assert_eq!(lexer.position(), 9);
    assert!(lexer.matschx("return"));
    assert_eq!(lexer.position(), 16);
}

#[test]
fn should_not_match_beyond_the_text() {
    let mut lexer = Lexer::from_str("re");
    assert!(!lexer.matsch("return"));
    assert_eq!(lexer.position(), 0);
    lexer.set_position(9);
    assert!(!lexer.matsch("r"));
    assert!(!lexer.matsch(""));
    assert_eq!(lexer.position(), 9);
    assert!(lexer.is_eof());
    assert_eq!(lexer.to_string(), "<invalid position>");
}

#[test]
fn should_show_the_rest_of_the_text() {
    let mut lexer = Lexer::from_str("int a");
    assert!(lexer.matsch("int"));
    assert_eq!(lexer.to_string(), " a");
    lexer.set_position(5);
    assert_eq!(lexer.to_string(), "");
}

#[test]
fn should_read_identifiers() {
    let mut lexer = Lexer::from_str("_x1y-2");
    assert_eq!(lexer.parse_id(), "_x1y");
    assert_eq!(lexer.position(), 4);
    assert_eq!(lexer.parse_id(), "");
    assert_eq!(lexer.dbg_get_any_next_token(), "-");
    assert_eq!(lexer.position(), 4);
    assert!(Lexer::is_id_start(&'_'));
    assert!(Lexer::is_id_start(&'Z'));
    assert!(!Lexer::is_id_start(&'1'));
    assert!(!Lexer::is_id_start(&'$'));
    assert!(Lexer::is_id_letter(&'1'));
    assert!(!Lexer::is_id_letter(&'-'));
    assert!(Lexer::is_number(&'7'));
    assert!(!Lexer::is_number(&'a'));
}

#[test]
fn should_tell_whether_a_number_comes_next() {
    let mut lexer = Lexer::from_str("a1");
    assert!(!lexer.peek_is_number());
    lexer.set_position(1);
    assert!(lexer.peek_is_number());
    lexer.set_position(2);
    assert!(!lexer.peek_is_number());
    assert_eq!(lexer.parse_number_string(), "");
}

#[test]
fn should_count_lines_and_columns_from_one() {
    let lexer = Lexer::from_str("01\n34\n6");
    assert_eq!(lexer.line_col_for(0), Some((1, 1)));
    assert_eq!(lexer.line_col_for(2), Some((1, 3)));
    assert_eq!(lexer.line_col_for(3), Some((2, 1)));
    assert_eq!(lexer.line_col_for(6), Some((3, 1)));
    assert_eq!(lexer.line_col_for(7), Some((3, 2)));
    assert_eq!(lexer.line_col_for(8), None);
    assert_eq!(lexer.dbg_position(), Some((1, 1)));
}

#[test]
fn should_have_no_position_behind_a_final_line_feed() {
    let lexer = Lexer::from_str("ab\n");
    assert_eq!(lexer.line_col_for(2), Some((1, 3)));
    assert_eq!(lexer.line_col_for(3), None);
    let empty = Lexer::from_str("");
    assert_eq!(empty.line_col_for(0), None);
    assert_eq!(empty.dbg_position_string(), "out of bounds");
}
