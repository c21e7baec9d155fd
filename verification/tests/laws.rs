use pyglob::is_wildcard_match;
use pyglob::is_wildcard_match_preprocessed;

const TEXTS: [&str; 12] = [
    "",
    "a",
    "*",
    "?",
    "a*",
    "abc",
    "more, testing",
    "漢字",
    "e\u{301}",
    "a\r\nb",
    "🇷🇺🇸🇹",
    "daaadabadmanda",
];

const PATTERNS: [&str; 16] = [
    "",
    "*",
    "?",
    "**",
    "??",
    "*?",
    "?*",
    "a?y*b",
    "a*b?",
    "da*da*da",
    "testing",
    "a***",
    "*a*",
    "?\r\n?",
    "漢*",
    "*\u{301}",
];

#[test]
fn lone_star_matches_every_text() {
    for text in TEXTS {
        assert!(is_wildcard_match(text, "*"), "{:?}", text);
    }
}

#[test]
fn every_text_matches_itself() {
    for text in TEXTS {
        assert!(is_wildcard_match(text, text), "{:?}", text);
    }
    for pattern in PATTERNS {
        assert!(is_wildcard_match(pattern, pattern), "{:?}", pattern);
    }
}

#[test]
fn question_marks_count_the_graphemes() {
    let texts = [("a", 1usize), ("abc", 3), ("漢字", 2), ("e\u{301}", 1), ("a\r\nb", 3), ("🇷🇺🇸🇹", 2)];
    for (text, n) in texts {
        assert!(is_wildcard_match(text, &"?".repeat(n)), "{:?}", text);
        assert!(!is_wildcard_match(text, &"?".repeat(n - 1)), "{:?}", text);
        assert!(!is_wildcard_match(text, &"?".repeat(n + 1)), "{:?}", text);
    }
}

#[test]
fn any_run_of_stars_matches_the_empty_text() {
    for n in 1..8 {
        assert!(is_wildcard_match("", &"*".repeat(n)));
    }
}

#[test]
fn a_run_of_stars_is_worth_one_star() {
    let shapes = [("", ""), ("a", ""), ("", "b"), ("a", "b"), ("a?", "*b"), ("da", "da*da")];
    for (before, after) in shapes {
        let one = format!("{}*{}", before, after);
        for n in 1..5 {
            let run = format!("{}{}{}", before, "*".repeat(n), after);
            for text in TEXTS {
                assert_eq!(is_wildcard_match(text, &run), is_wildcard_match(text, &one));
            }
        }
    }
}

#[test]
fn question_mark_takes_a_whole_grapheme() {
    assert!(is_wildcard_match("e\u{301}", "?"));
    assert!(is_wildcard_match("o\u{308}\u{332}", "?"));
    assert!(is_wildcard_match("\r\n", "?"));
    assert!(is_wildcard_match("🇷🇺", "?"));
    assert!(is_wildcard_match("👨\u{200d}👩\u{200d}👧", "?"));
    assert!(!is_wildcard_match("e\u{301}", "??"));
    assert!(!is_wildcard_match("ab", "?"));
}

#[test]
fn a_grapheme_is_never_matched_in_part() {
    assert!(!is_wildcard_match("e\u{301}", "e?"));
    assert!(!is_wildcard_match("e\u{301}", "e"));
    assert!(!is_wildcard_match("e\u{301}", "?\u{301}"));
    assert!(is_wildcard_match("e\u{301}", "e\u{301}"));
    assert!(!is_wildcard_match("e\u{301}", "e*"));
    assert!(is_wildcard_match("e\u{301}x", "e\u{301}*"));
}

#[test]
fn a_star_in_the_text_is_text() {
    assert!(is_wildcard_match("a*", "a?"));
    assert!(is_wildcard_match("a*", "a*"));
    assert!(is_wildcard_match("*", "?"));
    assert!(is_wildcard_match("*a", "*a"));
    assert!(!is_wildcard_match("*", "a"));
    assert!(!is_wildcard_match("?", "a"));
}

#[test]
fn a_pattern_without_wildcards_matches_itself_only() {
    assert!(is_wildcard_match("testing", "testing"));
    assert!(!is_wildcard_match("testingmore", "testing"));
    assert!(!is_wildcard_match("more testing", "testing"));
    assert!(!is_wildcard_match("testin", "testing"));
    assert!(!is_wildcard_match("", "testing"));
}

#[test]
fn long_literal_pattern_does_not_match_other_text() {
    assert_eq!(false, is_wildcard_match("**aa*****ba*a*bb**aa*ab****a*aaaaaa***a*aaaa**bbabb*b*b**aaaaaaaaa*a********ba*bbb***a*ba*bb*bb**a*b*bb", "abbabaaabbabbaababbabbbbbabbbabbbabaaaaababababbbabababaabbababaabbbbbbaaaabababbbaabbbbaabbbbababababbaabbaababaabbbababababbbbaaabbbbbabaaaabbababbbbaababaabbababbbbbababbbabaaaaaaaabbbbbaabaaababaaaabb"));
}

#[test]
fn empty_pattern_matches_the_empty_text_only() {
    for text in TEXTS {
        assert_eq!(is_wildcard_match(text, ""), text.is_empty());
    }
}

#[test]
fn very_long_inputs_are_searched_without_deep_calls() {
    let text = "ab".repeat(150_000);
    assert!(is_wildcard_match(&text, &text));
    let mut other = text.clone();
    other.push('c');
    assert!(!is_wildcard_match(&other, &text));
    assert!(is_wildcard_match(&other, &format!("{}?", text)));
}

#[test]
fn many_stars_against_a_long_text_stay_within_the_grid() {
    let text = "a".repeat(600);
    let pattern = format!("{}b", "a*".repeat(40));
    assert!(!is_wildcard_match(&text, &pattern));
    let pattern = format!("{}a", "a*".repeat(40));
    assert!(is_wildcard_match(&text, &pattern));
}

#[test]
fn preprocessing_does_not_change_the_answer() {
    for text in TEXTS {
        for pattern in PATTERNS {
            assert_eq!(
                is_wildcard_match_preprocessed(text, pattern),
                is_wildcard_match(text, pattern),
                "{:?} {:?}",
                text,
                pattern
            );
        }
    }
}

#[test]
fn preprocessed_match_on_the_named_scenarios() {
    assert!(is_wildcard_match_preprocessed("alyib", "a?y*b"));
    assert!(!is_wildcard_match_preprocessed("abcd", "a*b?"));
    assert!(is_wildcard_match_preprocessed("daaadabadmanda", "da*da*da"));
    assert!(is_wildcard_match_preprocessed("xx", "*?"));
    assert!(is_wildcard_match_preprocessed("a*", "*"));
    assert!(is_wildcard_match_preprocessed("", ""));
    assert!(!is_wildcard_match_preprocessed("", "?"));
    assert!(is_wildcard_match_preprocessed("", "***"));
    assert!(!is_wildcard_match_preprocessed("acbxd", "a*bd"));
    assert!(!is_wildcard_match_preprocessed("testingmore", "testing"));
    assert!(!is_wildcard_match_preprocessed("more testing", "testing"));
}

#[test]
fn only_star_and_question_mark_are_wildcards() {
    assert!(!is_wildcard_match("a", "A"));
    assert!(is_wildcard_match("[abc]", "[abc]"));
    assert!(!is_wildcard_match("a", "[abc]"));
    assert!(is_wildcard_match("\\*", "\\*"));
    assert!(is_wildcard_match("\\anything", "\\*"));
    assert!(!is_wildcard_match("*", "\\*"));
    assert!(!is_wildcard_match("?", "\\?"));
}

#[test]
fn the_empty_text_is_matched_by_runs_of_stars_only() {
    for pattern in PATTERNS {
        let only_stars = pattern.chars().all(|c| c == '*');
        assert_eq!(is_wildcard_match("", pattern), only_stars, "{:?}", pattern);
    }
}
