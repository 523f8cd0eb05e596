use exercises::parse_string::ParseString;
use unicode_segmentation::UnicodeSegmentation;

fn check(input: &str, expected: &str) {
    let toks: Vec<String> = input.graphemes(true).map(|g| g.to_string()).collect();
    let ps = ParseString::from_iter(toks).unwrap();
    assert_eq!(ps.decode(), expected);
}

#[test]
fn starts_with_num_test() {
    let toks: Vec<String> = "123".graphemes(true).map(|g| g.to_string()).collect();
    let ps = ParseString::from_iter(toks);
    assert!(ps.is_err());
}

#[test]
fn test1() {
    check("a1b2c3d4", "abbcccdddd");
    check("ab2c3d4", "abbcccdddd");
    check("b3b7", "bbbbbbbbbb");
    check("bb3b3b3", "bbbbbbbbbb");
    check("a0b0c0a", "a");
}

#[test]
fn test2() {
    check(r"a\a\", "aa");
    check(r"a\a\1", "aa1");
    check(r"a\a\\4b\3b3", r"aa\\\\b3bbb");
    check(r"a\a\\\4\b\3b3", r"aa\4b3bbb");
    check(r"a0b0c0aa\0", r"aa0");
}

#[test]
fn decode_plain_and_escapes() {
    check("a4bc2d5e", "aaaabccddddde");
    check("abcd", "abcd");
    check("", "");
    check(r"qwe\4\5", "qwe45");
    check(r"qwe\45", "qwe44444");
    check(r"qwe\\5", r"qwe\\\\\");
    check("y̆es3", "y̆esss");
}

#[test]
fn multi_digit_counts_accumulate() {
    check("a12", "aaaaaaaaaaaa");
}
