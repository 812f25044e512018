use patchkit::edit::{Parse, ParseError, PositionedParseError, TextRange};
use rowan::{GreenNode, SyntaxKind, TextSize};

fn green(kind: u16) -> GreenNode {
    GreenNode::new(SyntaxKind(kind), std::iter::empty())
}

fn positioned(message: &str, start: u32, end: u32) -> PositionedParseError {
    PositionedParseError {
        message: message.to_string(),
        position: TextRange::new(TextSize::from(start), TextSize::from(end)),
    }
}

#[test]
fn test_parse_error_to_string_joins_lines() {
    let error = ParseError(vec!["first".to_string(), "second".to_string(), "third".to_string()]);
    assert_eq!(error.to_string(), "first\nsecond\nthird");
    assert_eq!(ParseError(vec!["only".to_string()]).to_string(), "only");
    assert_eq!(ParseError(vec![]).to_string(), "");
}

#[test]
fn test_parse_without_errors_is_ok() {
    let parse: Parse<()> = Parse::new(green(10), vec![]);
    assert!(parse.ok());
    assert!(parse.errors().is_empty());
    assert!(parse.positioned_errors().is_empty());
    assert!(parse.error_messages().is_empty());
    assert_eq!(parse.green(), &green(10));
    assert_eq!(parse.to_result(), Ok(green(10)));
}

#[test]
fn test_parse_with_plain_errors_fails() {
    let parse: Parse<()> = Parse::new(green(10), vec!["bad line".to_string()]);
    assert!(!parse.ok());
    assert_eq!(parse.errors(), &["bad line".to_string()]);
    assert_eq!(parse.to_result(), Err(ParseError(vec!["bad line".to_string()])));
}

#[test]
fn test_parse_with_positioned_errors_collects_all_messages() {
    let parse: Parse<()> = Parse::new_with_positioned_errors(
        green(10),
        vec!["plain".to_string()],
        vec![positioned("at one", 0, 1), positioned("at two", 2, 4)],
    );
    assert!(!parse.ok());
    assert_eq!(parse.positioned_errors().len(), 2);
    assert_eq!(parse.positioned_errors()[1].position, TextRange::new(2.into(), 4.into()));
    assert_eq!(parse.error_messages(), vec!["at one".to_string(), "at two".to_string()]);
    assert_eq!(
        parse.to_result(),
        Err(ParseError(vec!["plain".to_string(), "at one".to_string(), "at two".to_string()]))
    );
}

#[test]
fn test_parse_with_only_positioned_errors_is_not_ok() {
    let parse: Parse<()> =
        Parse::new_with_positioned_errors(green(10), vec![], vec![positioned("oops", 3, 5)]);
    assert!(!parse.ok());
    assert_eq!(parse.to_result(), Err(ParseError(vec!["oops".to_string()])));
}

#[test]
fn test_parse_clone_keeps_everything() {
    let parse: Parse<()> = Parse::new_with_positioned_errors(
        green(11),
        vec!["e".to_string()],
        vec![positioned("p", 0, 1)],
    );
    let copy = parse.clone();
    assert_eq!(copy.green(), &green(11));
    assert_ne!(copy.green(), &green(10));
    assert_eq!(copy.errors(), parse.errors());
    assert_eq!(copy.positioned_errors(), parse.positioned_errors());
    assert_eq!(copy, parse);
}

#[test]
fn test_parse_cast_keeps_or_drops() {
    let parse: Parse<()> = Parse::new(green(12), vec!["e".to_string()]);
    let kept: Option<Parse<u8>> = parse.clone().cast(true);
    let kept = kept.unwrap();
    assert_eq!(kept.green(), &green(12));
    assert_eq!(kept.errors(), &["e".to_string()]);
    let dropped: Option<Parse<u8>> = parse.cast(false);
    assert!(dropped.is_none());
}
