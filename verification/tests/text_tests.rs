use agent_r::text::{is_blank_str, split_long_word, take_chars, wrap_text};

fn strings(v: &[&str]) -> Vec<String> {
    v.iter().map(|s| s.to_string()).collect()
}

#[test]
fn wrap_joins_words_that_fit() {
    assert_eq!(wrap_text("hello world foo", 11), strings(&["hello world", "foo"]));
}

#[test]
fn wrap_collapses_runs_of_white_space() {
    assert_eq!(wrap_text("  a \t b\n\nc  ", 80), strings(&["a b c"]));
}

#[test]
fn wrap_cuts_long_words() {
    assert_eq!(wrap_text("abcdefghij", 4), strings(&["abcd", "efgh", "ij"]));
    assert_eq!(wrap_text("xy abcdefghij z", 4), strings(&["xy", "abcd", "efgh", "ij z"]));
}

#[test]
fn wrap_with_zero_columns_gives_one_empty_line() {
    assert_eq!(wrap_text("anything at all", 0), strings(&[""]));
}

#[test]
fn wrap_of_blank_text_gives_one_empty_line() {
    assert_eq!(wrap_text("", 5), strings(&[""]));
    assert_eq!(wrap_text(" \u{3000}\t", 5), strings(&[""]));
}

#[test]
fn wrapped_lines_fit_and_keep_the_text() {
    let text = "The quick brown fox jumps over the extraordinarily lazy dog again";
    for cols in 1..20 {
        let lines = wrap_text(text, cols);
        assert!(!lines.is_empty());
        for line in &lines {
            let n = line.chars().count();
            assert!(n >= 1 && n <= cols, "line {:?} at {} columns", line, cols);
        }
        let joined: String = lines.concat().chars().filter(|c| !c.is_whitespace()).collect();
        let expected: String = text.chars().filter(|c| !c.is_whitespace()).collect();
        assert_eq!(joined, expected);
    }
}

#[test]
fn wrap_counts_characters_not_bytes() {
    assert_eq!(wrap_text("héé ööö", 3), strings(&["héé", "ööö"]));
}

#[test]
fn split_long_word_closes_the_open_line() {
    let mut lines = Vec::new();
    let mut line = String::from("ab");
    split_long_word("cdefg", 2, &mut lines, &mut line);
    assert_eq!(lines, strings(&["ab", "cd", "ef"]));
    assert_eq!(line, "g");
}

#[test]
fn split_long_word_into_an_empty_line() {
    let mut lines = strings(&["x"]);
    let mut line = String::new();
    split_long_word("abcdef", 3, &mut lines, &mut line);
    assert_eq!(lines, strings(&["x", "abc"]));
    assert_eq!(line, "def");
}

#[test]
fn take_chars_takes_characters() {
    assert_eq!(take_chars("héllo", 2), "hé");
    assert_eq!(take_chars("abc", 10), "abc");
    assert_eq!(take_chars("abc", 0), "");
}

#[test]
fn blank_strings_are_white_space_only() {
    assert!(is_blank_str(""));
    assert!(is_blank_str(" \t\n\u{3000}\u{a0}"));
    assert!(!is_blank_str("  x "));
}

#[test]
fn wrapped_lines_are_well_spaced_and_greedy() {
    let text = "  the quick\tbrown  fox\njumps over   a supercalifragilistic dog ";
    for cols in 1..20usize {
        let lines = wrap_text(text, cols);
        for line in &lines {
            assert!(!line.starts_with(' ') && !line.ends_with(' '));
            assert!(!line.contains("  "));
            assert!(line.chars().all(|c| c == ' ' || !c.is_whitespace()));
        }
        for pair in lines.windows(2) {
            let next_first = pair[1].split(' ').next().unwrap();
            assert!(pair[0].chars().count() + 1 + next_first.chars().count() > cols);
        }
    }
}
