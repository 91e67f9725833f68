use rejects::parser;

#[test]
fn test_valid_regexes() {
    let regexes = vec![
        r"abcd",
        r"a|b|c|d",
        r"(ab)|(cd)*",
        r"(a|b+c?|d)",
        r"(abcd)",
        r"a|a",
        r"(bc)",
        r"(abc)(abc)(abc)|(abc)(abc)",
        r"a|b+(c?|d)",
        r"(a|b)",
        r"(\w)",
        r"\\",
        r"[1-9]",
    ];
    for regex in regexes {
        assert!(
            parser::parse(regex).is_ok(),
            "\"{}\" should be recognized as valid regex",
            regex
        );
    }
}

#[test]
fn test_invalid_regexes() {
    let regexes = vec![
        r"(abcd",
        r"a||c|d",
        r"|",
        r"()",
        r")aaab(",
        r"a|b+c?|d)",
        r"a)",
        r"(abcd)(",
        r"(a|)",
        r"(\a)",
        r"\",
        r"\\\",
    ];
    for regex in regexes.iter() {
        assert!(
            parser::parse(regex).is_err(),
            r#""{}" should be recognized as an invalid regex"#,
            regex
        );
    }
}

#[test]
fn test_union() {}

#[test]
fn test_concatenation() {}
