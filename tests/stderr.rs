use cfail::rustc::Stderr;
use cfail::{Error, Kind, Line};

fn parse(path: &str, text: &str) -> Result<cfail::LineMap<cfail::Messages>, Error> {
    Stderr::new(path.to_string(), text.to_string()).parse()
}

fn texts(v: Option<&Vec<String>>) -> Vec<String> {
    v.cloned().unwrap_or_default()
}

#[test]
fn single_message() {
    let text = "a.rs:5:9 5:12 error: cannot find type `Foo` in this scope\nerror: aborting due to 1 previous error\n";
    let map = parse("a.rs", text).unwrap();
    assert_eq!(map.len(), 1);
    assert_eq!(map[0].0, Line(5));
    assert_eq!(texts(map[0].1.get(Kind::Error)), vec!["cannot find type `Foo` in this scope".to_string()]);
}

#[test]
fn multi_line_message_and_span_display() {
    let text = "a.rs:3:13 3:16 error: mismatched types:\n expected `i8`,\n    found `u8`\na.rs:3     let _: i8 = 0u8;\n                   ^~~\na.rs:3:13 3:16 help: run `rustc --explain E0308`\nerror: aborting due to previous error\n";
    let map = parse("a.rs", text).unwrap();
    assert_eq!(map.len(), 1);
    assert_eq!(
        texts(map[0].1.get(Kind::Error)),
        vec!["mismatched types:\n expected `i8`,\n    found `u8`".to_string()]
    );
    assert_eq!(texts(map[0].1.get(Kind::Help)), vec!["run `rustc --explain E0308`".to_string()]);
}

#[test]
fn other_files_are_ignored() {
    let text = "b.rs:1:1 1:2 error: elsewhere\na.rs:2:1 2:2 warning: unused variable: `x`\nerror: aborting due to 1 previous error\n";
    let map = parse("a.rs", text).unwrap();
    assert_eq!(map.len(), 1);
    assert_eq!(map[0].0, Line(2));
    assert_eq!(texts(map[0].1.get(Kind::Warning)), vec!["unused variable: `x`".to_string()]);
}

#[test]
fn messages_sorted_by_line() {
    let text = "a.rs:9:1 9:2 note: later\na.rs:2:1 2:2 error: earlier\nerror: aborting due to 1 previous error\n";
    let map = parse("a.rs", text).unwrap();
    assert_eq!(map.len(), 2);
    assert_eq!(map[0].0, Line(2));
    assert_eq!(map[1].0, Line(9));
}

#[test]
fn malformed_header_is_an_error() {
    let text = "a.rs:x bad\nerror: aborting due to 1 previous error\n";
    match parse("a.rs", text) {
        Err(Error::ParseStderr(line)) => assert_eq!(line, "a.rs:x bad"),
        _ => panic!("expected a parse error"),
    }
}

#[test]
fn empty_stderr_has_no_messages() {
    assert!(parse("a.rs", "").unwrap().is_empty());
}

#[test]
fn message_without_summary_runs_to_end() {
    let map = parse("a.rs", "a.rs:1:1 1:2 error: last\nmore").unwrap();
    assert_eq!(texts(map[0].1.get(Kind::Error)), vec!["last\nmore".to_string()]);
}

#[test]
fn error_message_texts() {
    assert_eq!(Error::ParseStderr("x".to_string()).message(), "couldn't parse stderr: x");
    assert_eq!(Error::SuccessfulCompilation.message(), "compilation succeeded");
    assert_eq!(
        Error::Unsupported(cfail::Feature::AuxBuild).message(),
        "auxiliar builds are not currently supported"
    );
    assert_eq!(
        Error::Unsupported(cfail::Feature::ErrorPattern).message(),
        "error patterns are not currently supported"
    );
}

#[test]
fn line_and_span_arithmetic() {
    assert_eq!(Line(10).sub(3), Some(Line(7)));
    assert_eq!(Line(3).sub(3), None);
    assert_eq!(Line(2).sub(3), None);
    assert_eq!(Line(4).add(2), Line(6));
    assert_eq!(cfail::Span(3, 5).add(10), cfail::Span(13, 15));
    assert_eq!(cfail::Span(13, 15).sub(10), Some(cfail::Span(3, 5)));
    assert_eq!(cfail::Span(3, 15).sub(10), None);
    assert_eq!(Kind::Warning.name(), "warning");
}

#[test]
fn header_in_spec_form() {
    let text = "a.rs:3:5 3:10 error: unused variable\nerror: aborting due to previous error\n";
    let map = parse("a.rs", text).unwrap();
    assert_eq!(map.len(), 1);
    assert_eq!(map[0].0, Line(3));
    assert_eq!(texts(map[0].1.get(Kind::Error)), vec!["unused variable".to_string()]);
}

#[test]
fn colon_after_first_column_is_malformed() {
    let text = "a.rs:3:5: 3:10 error: unused variable\nerror: aborting due to previous error\n";
    match parse("a.rs", text) {
        Err(Error::ParseStderr(line)) => assert_eq!(line, "a.rs:3:5: 3:10 error: unused variable"),
        _ => panic!("expected a parse error"),
    }
}
