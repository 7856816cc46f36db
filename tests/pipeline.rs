use cfail::match_::match_;
use cfail::rustc::Stderr;
use cfail::source::Source;
use cfail::{annotations_of, outcome, Annotations, Error, Feature, Kind, Line, LineMap, Messages, Outcome};

fn anns(text: &str) -> LineMap<Annotations> {
    Source::new(text.to_string()).parse().unwrap()
}

fn msgs(text: &str) -> LineMap<Messages> {
    Stderr::new("a.rs".to_string(), text.to_string()).parse().unwrap()
}

const SUMMARY: &str = "error: aborting due to 1 previous error\n";

#[test]
fn annotation_contained_in_message_matches() {
    let src = "\n\n\n\nlet x: Foo = 1; //~ ERROR cannot find type\n";
    let err = format!("a.rs:5:8 5:11 error: cannot find type `Foo` in this scope\n{}", SUMMARY);
    let ms = match_(anns(src), msgs(&err));
    assert!(ms.get(Kind::Error).is_none());
    assert!(ms.get(Kind::Warning).is_none());
}

#[test]
fn missing_warning_is_unmatched_annotation() {
    let src = "\n\nlet x = 1; //~ WARNING unused variable\n";
    let ms = match_(anns(src), msgs(SUMMARY));
    let w = ms.get(Kind::Warning).unwrap();
    assert_eq!(w.len(), 1);
    assert_eq!(w[0].0, Line(3));
    assert_eq!(w[0].1.annotations, vec!["unused variable".to_string()]);
    assert!(w[0].1.messages.is_empty());
    assert!(ms.get(Kind::Error).is_none());
}

#[test]
fn unexpected_note_is_unmatched_message() {
    let err = format!("a.rs:8:1 8:2 note: something to know\n{}", SUMMARY);
    let ms = match_(anns("fn main() {}\n"), msgs(&err));
    let n = ms.get(Kind::Note).unwrap();
    assert_eq!(n.len(), 1);
    assert_eq!(n[0].0, Line(8));
    assert!(n[0].1.annotations.is_empty());
    assert_eq!(n[0].1.messages, vec!["something to know".to_string()]);
}

#[test]
fn successful_compilation_fails_the_test() {
    let r = outcome(anns("x //~ ERROR boom\n"), None);
    assert!(matches!(r, Err(Error::SuccessfulCompilation)));
}

#[test]
fn multi_line_expectation_matches_across_lines() {
    assert!(cfail::match_::is_substring(
        "mismatched types\nfound u8",
        "mismatched types:\n expected i8,\n    found u8"
    ));
    assert!(!cfail::match_::is_substring(
        "found u8\nmismatched types",
        "mismatched types:\n expected i8,\n    found u8"
    ));
}

#[test]
fn substring_depends_on_lines_only() {
    let e = "b\nd";
    assert!(cfail::match_::is_substring(e, "ab\ncd"));
    assert!(cfail::match_::is_substring(e, "ab\ncd\n"));
    assert!(!cfail::match_::is_substring(e, "abcd"));
    assert!(cfail::match_::is_substring("", "anything"));
    assert!(!cfail::match_::is_substring("x", ""));
}

#[test]
fn matching_twice_gives_same_report() {
    let src = "a //~ ERROR one\nb //~ WARNING two\n";
    let err = format!("a.rs:1:1 1:2 error: other\na.rs:3:1 3:2 help: three\n{}", SUMMARY);
    let first = cfail::match_::format(match_(anns(src), msgs(&err)));
    let second = cfail::match_::format(match_(anns(src), msgs(&err)));
    assert_eq!(first, second);
}

#[test]
fn report_format_and_order() {
    let src = "a //~ ERROR one\nb //~ WARNING two\n";
    let err = format!("a.rs:1:1 1:2 error: other \"q\"\na.rs:3:1 3:2 help: three\n{}", SUMMARY);
    let report = cfail::match_::format(match_(anns(src), msgs(&err)));
    assert_eq!(
        report,
        "1: mismatched error annotations\n expected: \"one\"\n    found: \"other \\\"q\\\"\"\n\
         2: unmatched warning annotations\n \"two\"\n\
         3: unmatched help messages\n \"three\"\n"
    );
}

#[test]
fn report_bullets_give_back_texts() {
    let src = "a //~ ERROR first\n//~| ERROR second\n";
    let report = cfail::match_::format(match_(anns(src), msgs(SUMMARY)));
    let bullets: Vec<&str> = report.lines().skip(1).collect();
    assert_eq!(bullets, vec![" \"first\"", " \"second\""]);
    let texts: Vec<String> = bullets.iter().map(|b| b.trim().trim_matches('"').to_string()).collect();
    assert_eq!(texts, vec!["first".to_string(), "second".to_string()]);
}

#[test]
fn first_fit_matching_keeps_unmatched_in_order() {
    let src = "a //~ ERROR x\n//~| ERROR y\n//~| ERROR z\n";
    let err = format!("a.rs:1:1 1:2 error: has z\na.rs:1:1 1:2 error: has x\na.rs:1:1 1:2 error: other\n{}", SUMMARY);
    let ms = match_(anns(src), msgs(&err));
    let e = ms.get(Kind::Error).unwrap();
    assert_eq!(e.len(), 1);
    assert_eq!(e[0].1.annotations, vec!["y".to_string()]);
    assert_eq!(e[0].1.messages, vec!["other".to_string()]);
}

#[test]
fn outcome_passes_and_fails() {
    let ok = Stderr::new("a.rs".to_string(), format!("a.rs:1:1 1:2 error: boom here\n{}", SUMMARY));
    assert!(matches!(outcome(anns("x //~ ERROR boom\n"), Some(ok)), Ok(Outcome::Passed)));
    let note_only = Stderr::new("a.rs".to_string(), format!("a.rs:1:1 1:2 note: aside\n{}", SUMMARY));
    assert!(matches!(outcome(anns("x\n"), Some(note_only)), Ok(Outcome::Passed)));
    let bad = Stderr::new("a.rs".to_string(), format!("a.rs:1:1 1:2 error: other\n{}", SUMMARY));
    match outcome(anns("x //~ ERROR boom\n"), Some(bad)) {
        Ok(Outcome::Failed(r)) => assert_eq!(r, "1: mismatched error annotations\n expected: \"boom\"\n    found: \"other\"\n"),
        _ => panic!("expected a failure"),
    }
    let malformed = Stderr::new("a.rs".to_string(), "a.rs:oops\n".to_string());
    assert!(matches!(outcome(anns("x\n"), Some(malformed)), Err(Error::ParseStderr(_))));
}

#[test]
fn directives_in_source() {
    let ignored = Source::new("// ignore-test\nx //~ ERROR boom\n".to_string());
    assert!(matches!(annotations_of("a.rs", &ignored), Ok(None)));
    let aux = Source::new("// aux-build:foo.rs\n".to_string());
    assert!(matches!(annotations_of("a.rs", &aux), Err(Error::Unsupported(Feature::AuxBuild))));
    let pat = Source::new("// error-pattern:boom\n".to_string());
    assert!(matches!(annotations_of("a.rs", &pat), Err(Error::Unsupported(Feature::ErrorPattern))));
    let fine = Source::new("x //~ ERROR boom\n".to_string());
    match annotations_of("a.rs", &fine) {
        Ok(Some(m)) => assert_eq!(m.len(), 1),
        _ => panic!("expected annotations"),
    }
    let broken = Source::new("x //~# boom\n".to_string());
    match annotations_of("a.rs", &broken) {
        Err(Error::ParseSource(s)) => {
            assert_eq!(
                s,
                format!("a.rs:1:5: 1:6 error: unknown start of token `#`\na.rs:1 x //~# boom\n{}^", " ".repeat(12))
            )
        },
        _ => panic!("expected a parse error"),
    }
}

#[test]
fn bullet_lines_from_quoted_texts() {
    let quoted = vec!["\"a\"".to_string(), "\"b\\nc\"".to_string()];
    let lines: String = cfail::match_::bullet_lines(" expected: ", &quoted).into_iter().collect();
    assert_eq!(lines, " expected: \"a\"\n expected: \"b\\nc\"\n");
    let none: String = cfail::match_::bullet_lines(" ", &vec![]).into_iter().collect();
    assert_eq!(none, "");
}
