use rejects::rejects::Rejects;

fn compile(pat: &str) -> Rejects {
    match Rejects::new(pat) {
        Ok(r) => r,
        Err(e) => panic!("pattern {:?} should compile, got errors {:?}", pat, e),
    }
}

#[test]
fn literal_whole_match() {
    let re = compile("abc");
    assert!(re.is_match("abc"));
    assert!(!re.is_match("ab"));
    assert!(!re.is_match("abcd"));
    assert!(!re.is_match("abd"));
    assert!(!re.is_match(""));
}

#[test]
fn star_zero_or_more() {
    let re = compile("a*");
    assert!(re.is_match(""));
    assert!(re.is_match("aaaa"));
    assert!(!re.is_match("b"));
    assert!(!re.is_match("aab"));
}

#[test]
fn union_with_groups_and_star() {
    let re = compile("(abc|abd|a)*");
    assert!(!re.is_match("abcabd a"));
    assert!(re.is_match("abcabda"));
    assert_eq!(re.find_end("abcabdXYZ"), 5);
}

#[test]
fn class_range_positive_and_negated() {
    let re = compile("[a-z]+");
    assert!(re.is_match("hello"));
    assert!(!re.is_match("Hello"));
    let neg = compile("[^a-z]+");
    assert!(neg.is_match("123"));
    assert!(!neg.is_match("abc"));
}

#[test]
fn class_range_is_half_open() {
    let re = compile("[1-9]");
    assert!(re.is_match("1"));
    assert!(re.is_match("8"));
    assert!(!re.is_match("9"));
    assert!(!re.is_match("0"));
}

#[test]
fn invalid_patterns_give_nonempty_error_lists() {
    for pat in [r"[9-0]", r"(abcd", r"()", r"a|", r"[abc", r"\q", r"a**"] {
        match Rejects::new(pat) {
            Ok(_) => panic!("pattern {:?} should be rejected", pat),
            Err(errors) => assert!(!errors.is_empty(), "pattern {:?} gave an empty error list", pat),
        }
    }
}

#[test]
fn find_end_agrees_with_is_match() {
    let cases = [
        ("abc", "abc"),
        ("abc", "abd"),
        ("abc", "ab"),
        ("a*", "aaaa"),
        ("a*", "b"),
        ("a+b", "aab"),
        ("(abc|abd|a)*", "abcabda"),
        ("(abc|abd|a)*", "abcabdXYZ"),
        ("[a-z]+", "hello"),
        ("[a-z]+", "Hello"),
    ];
    for (pat, text) in cases {
        let re = compile(pat);
        let end = re.find_end(text);
        let len = text.chars().count() as isize;
        assert!(len > 0);
        if end == len - 1 {
            assert!(re.is_match(text), "pattern {:?} on {:?}", pat, text);
        } else {
            assert!(end < len - 1, "pattern {:?} on {:?}", pat, text);
            assert!(!re.is_match(text), "pattern {:?} on {:?}", pat, text);
        }
    }
}

#[test]
fn compiling_twice_matches_identically() {
    let corpus = [
        "", "a", "ab", "abc", "abd", "cd", "cdcd", "abcd", "x", "abab", "aabbc",
    ];
    for pat in ["(ab)|(cd)*", "a|b+(c?|d)", "(abc|abd|a)*", "[a-z]+"] {
        let first = compile(pat);
        let second = compile(pat);
        for text in corpus {
            assert_eq!(first.is_match(text), second.is_match(text), "pattern {:?} on {:?}", pat, text);
            assert_eq!(first.find_end(text), second.find_end(text), "pattern {:?} on {:?}", pat, text);
        }
    }
}

#[test]
fn maximal_munch_prefix_lengths() {
    let re = compile("a+");
    assert_eq!(re.find_end("aaab"), 2);
    assert_eq!(re.find_end("a"), 0);
    assert_eq!(re.find_end("baaa"), -1);
    assert_eq!(re.find_end(""), -1);
    let date = compile(r"((\d\d\d\d)-(\d\d)-(\d\d))+");
    assert_eq!(date.find_end("2010-03-14"), 9);
    assert_eq!(date.find_end("2010-03-142010-03-14"), 19);
    assert_eq!(date.find_end("2010-03-14 ss"), 9);
    assert_eq!(date.find_end("Ac1234 \t"), -1);
}

#[test]
fn dot_matches_any_single_character() {
    let re = compile(".");
    assert!(re.is_match("x"));
    assert!(re.is_match("7"));
    assert!(!re.is_match(""));
    assert!(!re.is_match("xy"));
    let re2 = compile("a.c");
    assert!(re2.is_match("abc"));
    assert!(re2.is_match("azc"));
    assert!(!re2.is_match("ac"));
}

#[test]
fn escape_classes() {
    let digits = compile(r"\d+");
    assert!(digits.is_match("123"));
    assert!(!digits.is_match("12a"));
    let non_digits = compile(r"\D+");
    assert!(non_digits.is_match("abc"));
    assert!(!non_digits.is_match("a1c"));
    let word = compile(r"\w+");
    assert!(word.is_match("abc_123"));
    assert!(!word.is_match("a b"));
    let space = compile(r"\s+");
    assert!(space.is_match(" \t"));
    assert!(!space.is_match("a"));
    let non_space = compile(r"\S+");
    assert!(non_space.is_match("abc"));
    assert!(!non_space.is_match("a b"));
}

#[test]
fn escape_literals() {
    let dot = compile(r"\.");
    assert!(dot.is_match("."));
    assert!(!dot.is_match("x"));
    let backslash = compile(r"\\");
    assert!(backslash.is_match("\\"));
    assert!(!backslash.is_match("/"));
    let star = compile(r"a\*");
    assert!(star.is_match("a*"));
    assert!(!star.is_match("aa"));
    let parens = compile(r"\(a\)");
    assert!(parens.is_match("(a)"));
}

#[test]
fn question_mark_and_plus() {
    let re = compile("colou?r");
    assert!(re.is_match("color"));
    assert!(re.is_match("colour"));
    assert!(!re.is_match("colouur"));
    let plus = compile("ab+");
    assert!(!plus.is_match("a"));
    assert!(plus.is_match("ab"));
    assert!(plus.is_match("abbb"));
}

#[test]
fn class_escapes_inside_class() {
    let re = compile(r"[\d]+");
    assert!(re.is_match("42"));
    assert!(!re.is_match("4a"));
    let lit = compile(r"[\]\\]+");
    assert!(lit.is_match("]\\]"));
    assert!(!lit.is_match("x"));
}

#[test]
fn nested_stars_terminate() {
    let re = compile("(a*)*");
    assert!(re.is_match(""));
    assert!(re.is_match("aaa"));
    assert!(!re.is_match("b"));
    let re2 = compile("(a+)+");
    assert!(re2.is_match("aa"));
    assert!(!re2.is_match(""));
}
