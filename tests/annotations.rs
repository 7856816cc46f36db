use cfail::source::lexer::Token;
use cfail::source::parse::Error;
use cfail::source::parse::format_error;
use cfail::source::Source;
use cfail::{Kind, Line, Span};

fn src(text: &str) -> Source {
    Source::new(text.to_string())
}

fn texts(v: Option<&Vec<String>>) -> Vec<String> {
    v.cloned().unwrap_or_default()
}

#[test]
fn no_marker_gives_empty_map() {
    let map = src("fn main() {\n    let x = 1;\n}\n").parse().unwrap();
    assert!(map.is_empty());
    let map = src("").parse().unwrap();
    assert!(map.is_empty());
}

#[test]
fn inline_annotation() {
    let map = src("fn main() {\n    0.foo(); //~ ERROR no method named\n}\n").parse().unwrap();
    assert_eq!(map.len(), 1);
    assert_eq!(map[0].0, Line(2));
    assert_eq!(texts(map[0].1.get(Kind::Error)), vec!["no method named".to_string()]);
    assert!(map[0].1.get(Kind::Warning).is_none());
}

#[test]
fn caret_adjusts_three_lines_up() {
    let mut text = String::new();
    for _ in 0..9 {
        text.push_str("x\n");
    }
    text.push_str("//~^^^ ERROR boom\n");
    let map = src(&text).parse().unwrap();
    assert_eq!(map.len(), 1);
    assert_eq!(map[0].0, Line(7));
    assert_eq!(texts(map[0].1.get(Kind::Error)), vec!["boom".to_string()]);
}

#[test]
fn caret_past_first_line_fails() {
    let err = src("x\n//~^^^ ERROR boom\n").parse().unwrap_err();
    assert!(matches!(err.1, Error::LineDoesntExist));
    assert_eq!(err.0, Span(5, 6));
}

#[test]
fn shared_without_preceding_annotation_fails() {
    let err = src("fn main() {}\n//~| ERROR x\n").parse().unwrap_err();
    assert!(matches!(err.1, Error::NoPrecedingAnnotation));
    assert_eq!(err.0, Span(16, 17));
}

#[test]
fn shared_annotation_uses_previous_line() {
    let text = "0.count_zeros();\n//~^ ERROR first\n//~| WARNING second\n";
    let map = src(text).parse().unwrap();
    assert_eq!(map.len(), 1);
    assert_eq!(map[0].0, Line(1));
    assert_eq!(texts(map[0].1.get(Kind::Error)), vec!["first".to_string()]);
    assert_eq!(texts(map[0].1.get(Kind::Warning)), vec!["second".to_string()]);
}

#[test]
fn continuation_lines_join_message() {
    let text = "let _: i8 = 0u8;\n//~^ ERROR mismatched types\n//~|   expected `i8`  \n//~| found `u8`\n";
    let map = src(text).parse().unwrap();
    assert_eq!(map.len(), 1);
    assert_eq!(map[0].0, Line(1));
    assert_eq!(
        texts(map[0].1.get(Kind::Error)),
        vec!["mismatched types\nexpected `i8`\nfound `u8`".to_string()]
    );
}

#[test]
fn kind_is_case_insensitive_with_optional_colon() {
    let text = "a //~ Warning: unused\nb //~ note see here\nc //~ HELP: try this\n";
    let map = src(text).parse().unwrap();
    assert_eq!(map.len(), 3);
    assert_eq!(texts(map[0].1.get(Kind::Warning)), vec!["unused".to_string()]);
    assert_eq!(texts(map[1].1.get(Kind::Note)), vec!["see here".to_string()]);
    assert_eq!(texts(map[2].1.get(Kind::Help)), vec!["try this".to_string()]);
}

#[test]
fn two_annotations_on_one_line_keep_order() {
    let text = "x\n//~^ ERROR one\n//~| ERROR two\n";
    let map = src(text).parse().unwrap();
    assert_eq!(map.len(), 1);
    assert_eq!(texts(map[0].1.get(Kind::Error)), vec!["one".to_string(), "two".to_string()]);
}

#[test]
fn lines_are_ascending() {
    let text = "a\nb //~ ERROR second\n//~^^ ERROR first\n";
    let map = src(text).parse().unwrap();
    assert_eq!(map.len(), 2);
    assert_eq!(map[0].0, Line(1));
    assert_eq!(map[1].0, Line(2));
}

#[test]
fn kind_followed_by_letters_wants_colon() {
    let err = src("x //~ ERRORS here\n").parse().unwrap_err();
    match err.1 {
        Error::Expected(toks) => assert_eq!(toks, vec![Token::Colon, Token::Whitespace]),
        other => panic!("unexpected error {:?}", other),
    }
    assert_eq!(err.0, Span(11, 12));
}

#[test]
fn unknown_kind_is_reported() {
    let err = src("x //~ERR here\n").parse().unwrap_err();
    match err.1 {
        Error::UnknownKind(k) => assert_eq!(k, "ERR"),
        other => panic!("unexpected error {:?}", other),
    }
    assert_eq!(err.0, Span(5, 8));
    let err = src("x //~ ERR here\n").parse().unwrap_err();
    match err.1 {
        Error::Expected(toks) => assert_eq!(toks, vec![Token::Kind(Kind::Error)]),
        other => panic!("unexpected error {:?}", other),
    }
    assert_eq!(err.0, Span(6, 9));
}

#[test]
fn unknown_start_of_token_is_reported() {
    let err = src("x //~# ERROR\n").parse().unwrap_err();
    assert!(matches!(err.1, Error::UnknownStartOfToken('#')));
    assert_eq!(err.0, Span(5, 6));
}

#[test]
fn marker_at_end_of_line_expects_token() {
    let err = src("x //~\n").parse().unwrap_err();
    match err.1 {
        Error::Expected(toks) => assert_eq!(toks, vec![Token::Caret, Token::Or, Token::Whitespace]),
        other => panic!("unexpected error {:?}", other),
    }
    assert_eq!(err.0, Span(5, 5));
}

#[test]
fn missing_kind_expects_kind() {
    let err = src("x //~ : oops\n").parse().unwrap_err();
    match err.1 {
        Error::Expected(toks) => assert_eq!(toks, vec![Token::Kind(Kind::Error)]),
        other => panic!("unexpected error {:?}", other),
    }
}

#[test]
fn byte_spans_count_utf8() {
    let err = src("é //~# x\n").parse().unwrap_err();
    assert!(matches!(err.1, Error::UnknownStartOfToken('#')));
    assert_eq!(err.0, Span(6, 7));
}

#[test]
fn error_messages() {
    assert_eq!(Error::LineDoesntExist.message(), "adjusted line doesn't exist");
    assert_eq!(Error::NoPrecedingAnnotation.message(), "no annotation in previous line");
    assert_eq!(Error::UnknownKind("bad".to_string()).message(), "unknown kind `bad`");
    assert_eq!(Error::UnknownStartOfToken('#').message(), "unknown start of token `#`");
    assert_eq!(Error::Expected(vec![Token::Kind(Kind::Error)]).message(), "expected token `<kind>`");
    assert_eq!(
        Error::Expected(vec![Token::Caret, Token::Or, Token::Whitespace]).message(),
        "expected one of `^`, `|`, ` `"
    );
}

#[test]
fn format_error_shows_line_and_mark() {
    let text = "fn main() {}\n//~| ERROR x\n";
    let (span, e) = src(text).parse().unwrap_err();
    let shown = format_error("a.rs", text, span, &e);
    assert_eq!(
        shown,
        format!("a.rs:2:3: 2:4 error: no annotation in previous line\na.rs:2 //~| ERROR x\n{}^", " ".repeat(10))
    );
}

#[test]
fn format_error_underlines_wide_span() {
    let text = "x //~ ERR here\n";
    let (span, e) = src(text).parse().unwrap_err();
    let shown = format_error("p.rs", text, span, &e);
    assert_eq!(
        shown,
        format!("p.rs:1:6: 1:9 error: expected token `<kind>`\np.rs:1 x //~ ERR here\n{}^~~", " ".repeat(13))
    );
}

#[test]
fn format_error_measures_wide_characters() {
    let text = "日本 //~# x\n";
    let (span, e) = src(text).parse().unwrap_err();
    let shown = format_error("p", text, span, &e);
    assert_eq!(
        shown,
        format!("p:1:10: 1:11 error: unknown start of token `#`\np:1 日本 //~# x\n{}^", " ".repeat(12))
    );
}

#[test]
fn starts_with_kind_on_given_text() {
    assert!(cfail::source::parse::starts_with_kind("ERROR boom"));
    assert!(cfail::source::parse::starts_with_kind("note"));
    assert!(!cfail::source::parse::starts_with_kind("found `u8`"));
    assert!(!cfail::source::parse::starts_with_kind(""));
}

#[test]
fn underline_from_given_widths() {
    let m: String = cfail::source::parse::underline(&vec![2, 1, 1], 3).into_iter().collect();
    assert_eq!(m, "    ^~~");
    let m: String = cfail::source::parse::underline(&vec![], 0).into_iter().collect();
    assert_eq!(m, "^");
}

#[test]
fn continuation_trims_unicode_white_space() {
    let text = "x //~ ERROR first\n//~|\t\u{3000}second part\u{a0} \n";
    let map = src(text).parse().unwrap();
    assert_eq!(texts(map[0].1.get(Kind::Error)), vec!["first\nsecond part".to_string()]);
}
