use hyfetch::prompt::{find_selection, invalid_selection, literal_prompt, selection_of};

fn options() -> Vec<String> {
    ["Light", "dark", "DarkBlue", "lightest"].iter().map(|s| s.to_string()).collect()
}

#[test]
fn find_selection_prefers_a_full_name() {
    assert_eq!(find_selection("dark", &options()), Some(1));
    assert_eq!(find_selection("light", &options()), Some(0));
    assert_eq!(find_selection("darkblue", &options()), Some(2));
}

#[test]
fn find_selection_takes_the_first_abbreviated_option() {
    assert_eq!(find_selection("d", &options()), Some(1));
    assert_eq!(find_selection("darkb", &options()), Some(2));
    assert_eq!(find_selection("lighte", &options()), Some(3));
    assert_eq!(find_selection("l", &options()), Some(0));
}

#[test]
fn find_selection_compares_with_names_in_lower_case_only() {
    assert_eq!(find_selection("Light", &options()), None);
    assert_eq!(find_selection("DARK", &options()), None);
}

#[test]
fn find_selection_of_nothing_or_of_an_unknown_name_is_none() {
    assert_eq!(find_selection("", &options()), None);
    assert_eq!(find_selection("x", &options()), None);
    assert_eq!(find_selection("darker", &options()), None);
    assert_eq!(find_selection("a", &Vec::new()), None);
}

#[test]
fn selection_of_an_empty_answer_is_the_default() {
    assert_eq!(selection_of("", "Dark"), "Dark");
    assert_eq!(selection_of("LiGHT", "dark"), "light");
    assert_eq!(selection_of("\u{c9}t\u{c9}", "x"), "\u{e9}t\u{e9}");
}

#[test]
fn literal_prompt_sets_the_default_off() {
    let options: Vec<String> = ["light", "dark"].iter().map(|s| s.to_string()).collect();
    assert_eq!(literal_prompt("Theme?", &options, "dark", true), "Theme? (light|&l&ndark&L&N)");
    assert_eq!(literal_prompt("Theme?", &options, "none", true), "Theme? (light|dark)");
    assert_eq!(literal_prompt("Theme?", &Vec::new(), "dark", true), "Theme? ()");
}

#[test]
fn literal_prompt_without_options_names_the_default() {
    let options: Vec<String> = ["light", "dark"].iter().map(|s| s.to_string()).collect();
    assert_eq!(literal_prompt("Theme?", &options, "dark", false), "Theme? (default: dark)");
}

#[test]
fn invalid_selection_lists_the_options() {
    let options: Vec<String> = ["light", "dark"].iter().map(|s| s.to_string()).collect();
    assert_eq!(
        invalid_selection("blue", &options),
        "Invalid selection! blue is not one of light|dark"
    );
}
