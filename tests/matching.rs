use cfail::match_::is_substring as substring;

#[test]
fn is_substring() {
    let ann = "does not implement";
    let msg = "type `_` does not implement any method in scope named `count_zeros`";

    assert!(substring(ann, msg));
}

#[test]
fn is_substring_multiline() {
    let ann = "mismatched types\nexpected `i8`\nfound `u8`";
    let msg = "mismatched types:\n expected `i8`,\n    found `u8`\n(expected i8,\
               \n    found u8) [E0308]";
    assert!(substring(ann, msg));
}
