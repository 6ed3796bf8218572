use exec8::loader::{parse_object, LoadError};
use exec8::parser::{is_control_line, parse_control_line};

#[test]
fn parses_full_statement() {
    let c = parse_control_line("  @RUNIT: ASM,X,Y  src.asm,out.obj  extra . a comment ");
    assert_eq!(c.label, Some("RUNIT".to_string()));
    assert_eq!(c.command, "ASM");
    assert_eq!(c.options, vec!["X".to_string(), "Y".to_string()]);
    assert_eq!(c.parameters, vec!["src.asm".to_string(), "out.obj".to_string(), "extra".to_string()]);
    assert_eq!(c.comment, Some(". a comment".to_string()));
}

#[test]
fn parses_bare_command() {
    let c = parse_control_line("@RUN");
    assert_eq!(c.label, None);
    assert_eq!(c.command, "RUN");
    assert!(c.options.is_empty());
    assert!(c.parameters.is_empty());
    assert_eq!(c.comment, None);
}

#[test]
fn empty_pieces() {
    let c = parse_control_line("@CMD,A, p,,q ,");
    assert_eq!(c.command, "CMD");
    assert_eq!(c.options, vec!["A".to_string(), "".to_string()]);
    assert_eq!(c.parameters, vec!["p".to_string(), "q".to_string()]);
}

#[test]
fn control_line_check() {
    assert!(is_control_line(" @DUMP 0 10"));
    assert!(!is_control_line("DUMP"));
    assert!(!is_control_line("@   "));
    assert!(!is_control_line(""));
    assert!(!is_control_line("@L: . only comment"));
}

#[test]
fn object_text_round_trip() {
    assert_eq!(parse_object("100000000004\n777000000000\n"), Ok(vec![0o100_000_000_004, 0o777_000_000_000]));
    assert_eq!(parse_object(" 17 \r\n+5"), Ok(vec![15, 5]));
    assert_eq!(parse_object(""), Ok(vec![]));
    assert_eq!(parse_object("12\n\n3\n"), Err(LoadError { text: "".to_string() }));
    assert_eq!(parse_object("18\n"), Err(LoadError { text: "18".to_string() }));
}
