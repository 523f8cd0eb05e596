use exercises::anagrams::{anagrams, sort_push, sorted_chars};
use exercises::cut::{number_ranges, process as cut_process, split_by, Span};
use exercises::digits::Cmp;
use exercises::grep::{is_str_matches, str_contains};
use exercises::iface::{NewInterface, NewService, OldInterface};
use exercises::lf::process as lf_process;
use exercises::strings::{
    is_unique_by_chars, is_unique_by_graphemes, reverse_by_chars, reverse_by_graphemes,
    reverse_words, split_with_save_whitespace, split_words,
};
use exercises::textsort::{
    comparator, parse_leading_num, sort_by_key, sort_by_month, sort_by_numeric, trim_end, Args,
    Month,
};
use exercises::shell::{parse_cmd_args, Cmd};
use exercises::wc::{process as wc_process, Counts, Error as WcError, Options};

#[test]
fn reverse_by_graphemes_keeps_marks() {
    assert_eq!(reverse_by_graphemes("y̆esy̆es"), "sey̆sey̆");
    assert_eq!(reverse_by_graphemes("a̐éö̲=-y̆♣Ж🍎"), "🍎Ж♣y̆-=ö̲éa̐");
    assert_eq!(reverse_by_chars("abc"), "cba");
}

#[test]
fn reverse_words_keeps_single_spaces() {
    assert_eq!(reverse_words("first second third"), "third second first");
    assert_eq!(reverse_words("snow dog sun"), "sun dog snow");
    assert_eq!(
        split_with_save_whitespace("a  b"),
        vec!["a".to_string(), " ".to_string(), "b".to_string()]
    );
    assert_eq!(split_words("  a  b "), vec!["a".to_string(), "b".to_string()]);
}

#[test]
fn uniqueness_ignores_case() {
    assert!(is_unique_by_chars("abcd"));
    assert!(!is_unique_by_chars("aA"));
    assert!(!is_unique_by_chars("y̆y"));
    assert!(is_unique_by_graphemes("y̆y"));
    assert!(!is_unique_by_graphemes("y̆y̆"));
}

#[test]
fn wc_options_and_counts() {
    let args: Vec<String> = ["-l", "-w", "file.txt"].iter().map(|s| s.to_string()).collect();
    let o = Options::from_iter(args).unwrap();
    assert_eq!(o.file_name, "file.txt");
    assert!(o.chars && o.lines && o.words);

    let bad: Vec<String> = ["-c"].iter().map(|s| s.to_string()).collect();
    assert_eq!(Options::from_iter(bad), Err(WcError::InvalidFileExtension));
    let bad: Vec<String> = ["notes.pdf"].iter().map(|s| s.to_string()).collect();
    assert_eq!(Options::from_iter(bad), Err(WcError::InvalidFileExtension));

    let counts = wc_process("ab cd\nef", &o);
    assert_eq!(
        counts,
        Counts { chars: Some(6), lines: Some(2), words: Some(3) }
    );
}

#[test]
fn lf_counts_letters() {
    let counts = lf_process("Hello, World!");
    assert_eq!(counts.len(), 26);
    assert_eq!(counts[(b'l' - b'a') as usize], 3);
    assert_eq!(counts[(b'o' - b'a') as usize], 2);
    assert_eq!(counts[(b'h' - b'a') as usize], 1);
    assert_eq!(counts[(b'z' - b'a') as usize], 0);
}

#[test]
fn number_ranges_parses_sorts_and_merges() {
    assert_eq!(
        number_ranges("1-2,5"),
        vec![Span { start: 0, end: 1 }, Span { start: 4, end: 4 }]
    );
    assert_eq!(
        number_ranges("1,3-5,9-,-16"),
        vec![Span { start: 0, end: usize::MAX }]
    );
    assert_eq!(
        number_ranges("4-6,2"),
        vec![Span { start: 1, end: 1 }, Span { start: 3, end: 5 }]
    );
    assert_eq!(number_ranges("-"), vec![Span { start: 0, end: usize::MAX }]);
}

#[test]
fn cut_selects_columns() {
    let out = cut_process("1,John Doe,Sales,50000", "1-2", ",", false);
    assert_eq!(out, vec!["1,John Doe".to_string()]);

    let out = cut_process("1 John Doe Sales 50000", "-", " ", false);
    assert_eq!(out, vec!["1 John Doe Sales 50000".to_string()]);

    let out = cut_process("a\tb\tc", "2", "\t", true);
    assert_eq!(out, vec!["b".to_string()]);

    let out = cut_process("no delimiter here!", "1", "\t", true);
    assert!(out.is_empty());

    assert_eq!(
        split_by("a||b", "|"),
        vec!["a".to_string(), "".to_string(), "b".to_string()]
    );
}

#[test]
fn sort_keys_compare() {
    assert_eq!(sort_by_key("b a", "a b", 1), Cmp::Less);
    assert_eq!(sort_by_numeric("10", "9"), Cmp::Greater);
    assert_eq!(sort_by_numeric("  -42abc", "0"), Cmp::Less);
    assert_eq!(parse_leading_num("  -42abc"), -42);
    assert_eq!(parse_leading_num("12-3"), 0);
    assert_eq!(parse_leading_num("99999999999999999999"), 0);
    assert_eq!(sort_by_month("Feb things", "jan stuff"), Cmp::Greater);
    assert_eq!(Month::try_from_str("DECEMBER").unwrap(), Month::Dec);
    assert!(Month::try_from_str("xyz").is_err());
    assert_eq!(trim_end("ab \t"), "ab");
}

#[test]
fn comparator_chains_and_reverses() {
    let mut args = Args::new();
    args.numeric_sort = true;
    assert_eq!(comparator("9", "10", &args), Cmp::Less);
    args.reverse = true;
    assert_eq!(comparator("9", "10", &args), Cmp::Greater);

    let mut args = Args::new();
    args.key = Some(0);
    args.ignore_trailing_blanks = true;
    assert_eq!(comparator("zz  ", "zz", &args), Cmp::Equal);
}

#[test]
fn grep_matches() {
    assert!(str_contains("hello world", "lo wo"));
    assert!(!str_contains("hello", "ole"));
    assert_eq!(is_str_matches("hello world", true, false, "lo wo"), Some(true));
    assert_eq!(is_str_matches("hello world", true, true, "lo wo"), Some(false));
    assert_eq!(is_str_matches("abc123", false, false, "[0-9]+"), Some(true));
    assert_eq!(is_str_matches("abcdef", false, false, "[0-9]+"), Some(false));
    assert_eq!(is_str_matches("abc", false, false, "("), None);
}

#[test]
fn anagram_groups() {
    let words: Vec<String> = ["пятак", "пятка", "тяпка", "листок", "слиток", "стОлик"]
        .iter()
        .map(|s| s.to_string())
        .collect();
    let groups = anagrams(&words);
    assert_eq!(groups.len(), 2);
    assert_eq!(groups[0].key, "пятак");
    assert_eq!(groups[0].members, vec!["пятак", "пятка", "тяпка"]);
    assert_eq!(groups[1].key, "листок");
    assert_eq!(groups[1].members, vec!["листок", "слиток", "столик"]);

    let words: Vec<String> = ["solo", "alone"].iter().map(|s| s.to_string()).collect();
    assert!(anagrams(&words).is_empty());
}

#[test]
fn sorted_chars_and_sort_push() {
    assert_eq!(sorted_chars("cba"), "abc");
    assert_eq!(sorted_chars(""), "");
    let mut v: Vec<String> = Vec::new();
    sort_push(&mut v, "m".to_string());
    sort_push(&mut v, "z".to_string());
    sort_push(&mut v, "a".to_string());
    sort_push(&mut v, "m".to_string());
    assert_eq!(v, vec!["a", "m", "m", "z"]);
}

#[test]
fn new_interface_builds_on_old() {
    let s = NewService;
    assert_eq!(s.old_method(), "Old value");
    assert_eq!(s.new_method(), "Old value + New value");
}

#[test]
fn shell_parses_piped_commands() {
    let cmds = parse_cmd_args("cd /tmp | pwd|echo hello world |kill firefox| ps |git status -v");
    assert_eq!(
        cmds,
        vec![
            Cmd::ChangeDirectory("/tmp".to_string()),
            Cmd::PresentWorkingDirectory,
            Cmd::Echo("hello world".to_string()),
            Cmd::Kill("firefox".to_string()),
            Cmd::ProcessStatus,
            Cmd::Unknown(
                "git".to_string(),
                vec!["status".to_string(), "-v".to_string()]
            ),
        ]
    );
    assert_eq!(parse_cmd_args(""), vec![Cmd::Unknown(String::new(), Vec::new())]);
}
