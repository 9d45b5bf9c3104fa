use light_grid::parser::{Operation, ParseError, ParsedLine, Parser};
use light_grid::range::Point;

#[test]
fn test_next_token() {
    let mut empty_parser = Parser::new("");
    assert_eq!(None, empty_parser.next_token());
    assert_eq!(None, empty_parser.next_token());

    let mut tokens = Parser::new("ab cd");
    assert_eq!(Some("ab"), tokens.next_token());
    assert_eq!(Some("cd"), tokens.next_token());
    assert_eq!(None, tokens.next_token());

    let mut commas = Parser::new("ab,cd");
    assert_eq!(Some("ab"), commas.next_token());
    assert_eq!(Some("cd"), commas.next_token());
    assert_eq!(None, commas.next_token());
}

#[test]
fn test_utf_tokens() {
    let mut tokens = Parser::new("привет, мир");
    assert_eq!(Some("привет"), tokens.next_token());
    assert_eq!(Some("мир"), tokens.next_token());
    assert_eq!(None, tokens.next_token());
}

#[test]
fn test_parsing_turn_on() {
    let mut parser = Parser::new("turn on 0,0 through 999,999");
    let expected = ParsedLine {
        op: Operation::TurnOn,
        from: Point(0, 0),
        to: Point(999, 999),
    };
    assert_eq!(Ok(expected), parser.parse());
}

#[test]
fn test_parsing_turn_off() {
    let mut parser = Parser::new("turn off 100,0 through 999,0");
    let expected = ParsedLine {
        op: Operation::TurnOff,
        from: Point(100, 0),
        to: Point(999, 0),
    };
    assert_eq!(Ok(expected), parser.parse());
}

#[test]
fn test_parsing_toggle() {
    let mut parser = Parser::new("toggle 0,0 through 999,999");
    let expected = ParsedLine {
        op: Operation::Toggle,
        from: Point(0, 0),
        to: Point(999, 999),
    };
    assert_eq!(Ok(expected), parser.parse());
}

#[test]
fn parsing_toggle_row() {
    let mut parser = Parser::new("toggle 0,0 through 999,0");
    let expected = ParsedLine {
        op: Operation::Toggle,
        from: Point(0, 0),
        to: Point(999, 0),
    };
    assert_eq!(Ok(expected), parser.parse());
}

#[test]
fn separators_are_free() {
    let mut parser = Parser::new("  turn;;on 12 ,34 through\t56-78  ");
    let expected = ParsedLine {
        op: Operation::TurnOn,
        from: Point(12, 34),
        to: Point(56, 78),
    };
    assert_eq!(Ok(expected), parser.parse());
    assert_eq!(None, parser.next_token());
}

#[test]
fn parse_uses_up_its_tokens() {
    let mut parser = Parser::new("toggle 1,2 through 3,4 rest");
    assert!(parser.parse().is_ok());
    assert_eq!(Some("rest"), parser.next_token());
}

#[test]
fn missing_token_is_an_error() {
    assert_eq!(Err(ParseError), Parser::new("").parse());
    assert_eq!(Err(ParseError), Parser::new("turn").parse());
    assert_eq!(Err(ParseError), Parser::new("turn on 1,2 through 3").parse());
    assert_eq!(Err(ParseError), Parser::new("toggle 1,2 through").parse());
}

#[test]
fn unknown_operation_is_an_error() {
    assert_eq!(Err(ParseError), Parser::new("turn up 1,2 through 3,4").parse());
    assert_eq!(Err(ParseError), Parser::new("switch on 1,2 through 3,4").parse());
    assert_eq!(Err(ParseError), Parser::new("Toggle 1,2 through 3,4").parse());
}

#[test]
fn bad_coordinate_is_an_error() {
    assert_eq!(Err(ParseError), Parser::new("turn on a,2 through 3,4").parse());
    assert_eq!(Err(ParseError), Parser::new("turn on 1,2 through 3,4x").parse());
    assert_eq!(Err(ParseError), Parser::new("toggle 1,٣ through 3,4").parse());
    assert_eq!(
        Err(ParseError),
        Parser::new("toggle 0,0 through 99999999999999999999999,4").parse()
    );
}

#[test]
fn leading_zeros_are_read() {
    let mut parser = Parser::new("turn off 007,010 through 8,10");
    let expected = ParsedLine {
        op: Operation::TurnOff,
        from: Point(7, 10),
        to: Point(8, 10),
    };
    assert_eq!(Ok(expected), parser.parse());
}

#[test]
fn largest_coordinate_is_read() {
    let text = format!("toggle {},0 through {},1", usize::MAX, usize::MAX);
    let mut parser = Parser::new(&text);
    let expected = ParsedLine {
        op: Operation::Toggle,
        from: Point(usize::MAX, 0),
        to: Point(usize::MAX, 1),
    };
    assert_eq!(Ok(expected), parser.parse());
}
