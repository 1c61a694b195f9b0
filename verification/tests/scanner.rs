use hyfetch::placeholder::{token_text, Occurrence, Scanner};
use hyfetch::text::{join_lines, split_lines};

fn scanner() -> Scanner {
    Scanner::new().expect("the six tokens build an automaton")
}

fn empties() -> Vec<String> {
    vec![String::new(); 6]
}

#[test]
fn find_reports_slot_and_span_left_to_right() {
    let found = scanner().find("ab${c2}cd${c6}");
    assert_eq!(
        found,
        vec![
            Occurrence { slot: 2, start: 2, end: 7 },
            Occurrence { slot: 6, start: 9, end: 14 },
        ]
    );
}

#[test]
fn find_knows_all_six_tokens_and_no_seventh() {
    let found = scanner().find("${c1}${c2}${c3}${c4}${c5}${c6}${c7}${c0}");
    let slots: Vec<u8> = found.iter().map(|o| o.slot).collect();
    assert_eq!(slots, vec![1, 2, 3, 4, 5, 6]);
    assert_eq!(found[5].end, 30);
}

#[test]
fn find_on_text_without_tokens_is_empty() {
    assert!(scanner().find("plain $ {c1} text").is_empty());
    assert!(scanner().find("").is_empty());
}

#[test]
fn find_counts_bytes_not_characters() {
    let found = scanner().find("é${c3}");
    assert_eq!(found, vec![Occurrence { slot: 3, start: 2, end: 7 }]);
}

#[test]
fn replace_all_takes_the_entry_of_the_slot() {
    let table: Vec<String> =
        ["<1>", "<2>", "<3>", "<4>", "<5>", "<6>"].iter().map(|s| s.to_string()).collect();
    let out = scanner().replace_all("${c1}a${c3}b${c6}${c2}", &table);
    assert_eq!(out, "<1>a<3>b<6><2>");
}

#[test]
fn replace_all_with_empty_entries_strips() {
    let out = scanner().replace_all("x${c1}y${c4}z", &empties());
    assert_eq!(out, "xyz");
}

#[test]
fn strip_removes_every_token() {
    assert_eq!(scanner().strip("${c1}  /\\${c2}__${c1}/\\"), "  /\\__/\\");
    assert_eq!(scanner().strip("no tokens"), "no tokens");
    assert_eq!(scanner().strip(""), "");
}

#[test]
fn strip_twice_equals_strip_once_on_ordinary_art() {
    let s = scanner();
    let art = "${c1}##${c2}..\n${c3}  ##";
    let once = s.strip(art);
    let twice = s.strip(&once);
    assert_eq!(once, twice);
}

#[test]
fn strip_can_uncover_a_token_that_was_split() {
    let s = scanner();
    let once = s.strip("$${c1}{c2}");
    assert_eq!(once, "${c2}");
    assert_eq!(s.strip(&once), "");
}

#[test]
fn split_lines_keeps_empty_lines() {
    assert_eq!(split_lines("a\n\nb\n"), vec!["a", "", "b", ""]);
    assert_eq!(split_lines(""), vec![""]);
    assert_eq!(split_lines("one"), vec!["one"]);
}

#[test]
fn join_lines_puts_one_break_between_lines() {
    let lines = vec!["a".to_string(), String::new(), "b".to_string()];
    assert_eq!(join_lines(&lines), "a\n\nb");
    assert_eq!(join_lines(&Vec::new()), "");
    assert_eq!(join_lines(&vec!["x".to_string()]), "x");
}

#[test]
fn split_then_join_gives_the_text_back() {
    let text = "${c1}ab\n  cd\n\nef";
    let lines: Vec<String> = split_lines(text).iter().map(|l| l.to_string()).collect();
    assert_eq!(join_lines(&lines), text);
}

#[test]
fn find_next_skips_what_starts_before_the_position() {
    let s = scanner();
    let text = "${c1}ab${c2}cd${c3}";
    assert_eq!(s.find_next(text, 0), Some(Occurrence { slot: 1, start: 0, end: 5 }));
    assert_eq!(s.find_next(text, 1), Some(Occurrence { slot: 2, start: 7, end: 12 }));
    assert_eq!(s.find_next(text, 7), Some(Occurrence { slot: 2, start: 7, end: 12 }));
    assert_eq!(s.find_next(text, 8), Some(Occurrence { slot: 3, start: 14, end: 19 }));
    assert_eq!(s.find_next(text, 15), None);
    assert_eq!(s.find_next("", 0), None);
}

#[test]
fn token_text_is_the_token_of_the_slot() {
    let texts: Vec<&str> = (1..=6).map(token_text).collect();
    assert_eq!(texts, vec!["${c1}", "${c2}", "${c3}", "${c4}", "${c5}", "${c6}"]);
    for (i, text) in texts.iter().enumerate() {
        let found = scanner().find(text);
        assert_eq!(found, vec![Occurrence { slot: (i + 1) as u8, start: 0, end: 5 }]);
    }
}
