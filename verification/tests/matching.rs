use pyglob::is_wildcard_match;

#[test]
fn simple_match() {
    assert_eq!(true, is_wildcard_match("alyib", "a?y*b"));
}

#[test]
fn simple_non_match() {
    assert_eq!(false, is_wildcard_match("abcd", "a*b?"))
}

#[test]
fn test_kanji_characters() {
    assert_eq!(true, is_wildcard_match("漢字", "??"))
}

#[test]
fn empty_string_matches_star() {
    assert_eq!(true, is_wildcard_match("", "*"));
}

#[test]
fn empty_string_doesnt_match_questionmark() {
    assert_eq!(false, is_wildcard_match("", "?"));
}

#[test]
fn empty_string_matches_multiple_stars() {
    assert_eq!(true, is_wildcard_match("", "***"));
}

#[test]
fn repeating_sequence_with_stars() {
    assert_eq!(true, is_wildcard_match("daaadabadmanda", "da*da*da"));
}

#[test]
fn different_text_ending_doesnt_match() {
    assert_eq!(false, is_wildcard_match("testingmore", "testing"));
}

#[test]
fn different_text_start_doesnt_match() {
    assert_eq!(false, is_wildcard_match("more, testing", "testing"));
}

#[test]
fn star_and_questionmark_does_match() {
    assert_eq!(true, is_wildcard_match("xx", "*?"));
}

#[test]
fn star_in_text_is_escaped() {
    assert_eq!(true, is_wildcard_match("a*", "*"));
}

#[test]
fn empty_input_string() {
    assert_eq!(true, is_wildcard_match("", "*"))
}

#[test]
fn empty_pattern_string() {
    assert_eq!(false, is_wildcard_match("test", ""))
}

#[test]
fn both_strings_empty() {
    assert_eq!(true, is_wildcard_match("", ""))
}

#[test]
fn long_test() {
    assert_eq!(true, is_wildcard_match("abbabaaabbabbaababbabbbbbabbbabbbabaaaaababababbbabababaabbababaabbbbbbaaaabababbbaabbbbaabbbbababababbaabbaababaabbbababababbbbaaabbbbbabaaaabbababbbbaababaabbababbbbbababbbabaaaaaaaabbbbbaabaaababaaaabb", "abbabaaabbabbaababbabbbbbabbbabbbabaaaaababababbbabababaabbababaabbbbbbaaaabababbbaabbbbaabbbbababa*babbaabbaababaabbbababababbbbaaabbbbbabaaaabbababbbbaababaabbababbbbbababbbabaaaaaaaabbbbbaabaaababaaaabb"))
}
