use reef::lex::{ScanError, Scanner};
use reef::token::{Token, TokenType};

fn scan(src: &str) -> (Vec<Token>, Vec<usize>, Result<(), ScanError>) {
    let mut s = Scanner::new(src, 0);
    let r = s.scan();
    (s.get_tokens().clone(), s.get_lines().clone(), r)
}

fn text(t: &Token) -> String {
    format!("{:?}", t)
}

fn texts(ts: &[Token]) -> Vec<String> {
    ts.iter().map(text).collect()
}

#[test]
fn scans_declaration() {
    let (ts, lines, r) = scan("var money = 100;");
    assert!(r.is_ok());
    assert_eq!(
        texts(&ts),
        vec![
            "Keyword(\"var\")",
            "Identifier(\"money\")",
            "Equals",
            "Number(\"100\")",
            "Delimiter(';')",
            "EndOfFile",
        ]
    );
    assert_eq!(lines, vec![1, 1, 1, 1, 1, 1]);
}

#[test]
fn empty_source_gives_end_of_file() {
    let (ts, lines, r) = scan("");
    assert!(r.is_ok());
    assert_eq!(texts(&ts), vec!["EndOfFile"]);
    assert_eq!(lines, vec![1]);
}

#[test]
fn recognized_text_ends_with_end_of_file() {
    let (ts, _, r) = scan("log 1 + 2 * (3 - 4) / 5 < 6 > 7, \"s\", x_1; { } : . \t\r\n");
    assert!(r.is_ok());
    assert_eq!(text(ts.last().unwrap()), "EndOfFile");
}

#[test]
fn number_underscores_are_dropped() {
    let (ts, _, _) = scan("1_000.5_0");
    assert_eq!(texts(&ts), vec!["Number(\"1000.50\")", "EndOfFile"]);
}

#[test]
fn keywords_and_identifiers() {
    let (ts, _, _) = scan("if then iffy _x true nil");
    assert_eq!(
        texts(&ts),
        vec![
            "Keyword(\"if\")",
            "Keyword(\"then\")",
            "Identifier(\"iffy\")",
            "Identifier(\"_x\")",
            "Keyword(\"true\")",
            "Keyword(\"nil\")",
            "EndOfFile",
        ]
    );
}

#[test]
fn operators_and_delimiters() {
    let (ts, _, _) = scan("+-*/<>=.,;:{}()");
    assert_eq!(
        texts(&ts),
        vec![
            "BinaryOperator('+')",
            "BinaryOperator('-')",
            "BinaryOperator('*')",
            "BinaryOperator('/')",
            "ComparisonOperator('<')",
            "ComparisonOperator('>')",
            "Equals",
            "Delimiter('.')",
            "Delimiter(',')",
            "Delimiter(';')",
            "Delimiter(':')",
            "Delimiter('{')",
            "Delimiter('}')",
            "Delimiter('(')",
            "Delimiter(')')",
            "EndOfFile",
        ]
    );
}

#[test]
fn string_literal_keeps_inner_text() {
    let (ts, _, _) = scan("\"hello world\" x");
    assert_eq!(
        texts(&ts),
        vec!["String(\"hello world\")", "Identifier(\"x\")", "EndOfFile"]
    );
}

#[test]
fn unterminated_string_runs_to_end() {
    let (ts, _, r) = scan("\"abc");
    assert!(r.is_ok());
    assert_eq!(texts(&ts), vec!["String(\"abc\")", "EndOfFile"]);
}

#[test]
fn comment_line_gives_no_tokens() {
    let (ts, lines, r) = scan("-- a comment; var x\nlog x;");
    assert!(r.is_ok());
    assert_eq!(
        texts(&ts),
        vec![
            "Keyword(\"log\")",
            "Identifier(\"x\")",
            "Delimiter(';')",
            "EndOfFile",
        ]
    );
    assert_eq!(lines, vec![2, 2, 2, 2]);
}

#[test]
fn comment_does_not_shift_later_lines() {
    let (with, with_lines, _) = scan("a\n-- note\nb\n");
    let (without, without_lines, _) = scan("a\n\nb\n");
    assert_eq!(texts(&with), texts(&without));
    assert_eq!(with_lines, without_lines);
    assert_eq!(with_lines, vec![1, 3, 4]);
}

#[test]
fn single_hyphen_is_minus() {
    let (ts, _, _) = scan("-x");
    assert_eq!(
        texts(&ts),
        vec!["BinaryOperator('-')", "Identifier(\"x\")", "EndOfFile"]
    );
}

#[test]
fn lines_count_newlines_in_strings() {
    let (_, lines, _) = scan("\"a\nb\" c");
    assert_eq!(lines, vec![1, 2, 2]);
}

#[test]
fn unrecognized_character_stops_scanning() {
    let (ts, _, r) = scan("var x\n = 1 # 2");
    assert_eq!(
        r,
        Err(ScanError::UnrecognisedCharacter {
            character: '#',
            line: 2
        })
    );
    assert_eq!(
        texts(&ts),
        vec![
            "Keyword(\"var\")",
            "Identifier(\"x\")",
            "Equals",
            "Number(\"1\")",
        ]
    );
}

#[test]
fn unicode_space_is_skipped() {
    let (ts, _, r) = scan("x\u{a0}y");
    assert!(r.is_ok());
    assert_eq!(texts(&ts).len(), 3);
}

#[test]
fn token_new_builds_by_kind() {
    assert_eq!(
        text(&Token::new(TokenType::Identifier, "abc".to_string()).unwrap()),
        "Identifier(\"abc\")"
    );
    assert_eq!(
        text(&Token::new(TokenType::Delimiter, ";".to_string()).unwrap()),
        "Delimiter(';')"
    );
    assert!(Token::new(TokenType::Delimiter, ";;".to_string()).is_none());
    assert_eq!(
        Token::new(TokenType::Equals, String::new()).unwrap().kind(),
        TokenType::Equals
    );
}

#[test]
fn debug_level_is_kept() {
    let mut s = Scanner::new("x", 0);
    s.set_debug_lvl(2);
    assert_eq!(s.debug_lvl(), 2);
}

#[test]
fn token_equality_compares_kind_and_text() {
    assert_eq!(Token::Keyword("var".to_string()), Token::Keyword("var".to_string()));
    assert_ne!(Token::Keyword("var".to_string()), Token::Identifier("var".to_string()));
    assert_ne!(Token::Delimiter(';'), Token::Delimiter(','));
    assert_eq!(Token::EndOfFile, Token::EndOfFile);
    let (ts, _, _) = scan("x=1");
    assert_eq!(
        ts,
        vec![
            Token::Identifier("x".to_string()),
            Token::Equals,
            Token::Number("1".to_string()),
            Token::EndOfFile,
        ]
    );
}

#[test]
fn comment_after_string_line_changes_nothing() {
    let (with, with_lines, _) = scan("log \"a;b\";\n-- note \"x\nlog 1;");
    let (without, without_lines, _) = scan("log \"a;b\";\n\nlog 1;");
    assert_eq!(with, without);
    assert_eq!(with_lines, without_lines);
    assert_eq!(*with_lines.last().unwrap(), 3);
}
