use dirtree::ignore::{matches_gitignore, parse_gitignore, parse_line};

fn patterns(list: &[&str]) -> Vec<String> {
    list.iter().map(|p| p.to_string()).collect()
}

#[test]
fn name_equal_to_pattern_is_ignored() {
    assert!(matches_gitignore("secret.txt", &patterns(&["secret.txt"])));
}

#[test]
fn name_that_extends_pattern_is_ignored() {
    assert!(matches_gitignore("secret.txt.bak", &patterns(&["secret.txt"])));
}

#[test]
fn shorter_name_is_not_ignored() {
    assert!(!matches_gitignore("secret", &patterns(&["secret.txt"])));
}

#[test]
fn trailing_slash_is_stripped_before_prefix_test() {
    let list = patterns(&["build/"]);
    assert!(matches_gitignore("build", &list));
    assert!(matches_gitignore("build-artifacts", &list));
    assert!(!matches_gitignore("src", &list));
    assert!(!matches_gitignore("buil", &list));
}

#[test]
fn every_trailing_slash_is_stripped() {
    let list = patterns(&["out///"]);
    assert!(matches_gitignore("out", &list));
    assert!(matches_gitignore("output", &list));
}

#[test]
fn inner_slash_stays() {
    let list = patterns(&["a/b/"]);
    assert!(matches_gitignore("a/b", &list));
    assert!(!matches_gitignore("a", &list));
    assert!(!matches_gitignore("ab", &list));
}

#[test]
fn pattern_of_slashes_matches_every_name() {
    let list = patterns(&["/"]);
    assert!(matches_gitignore("anything", &list));
    assert!(matches_gitignore("", &list));
}

#[test]
fn wildcards_have_no_meaning() {
    let list = patterns(&["*.log"]);
    assert!(!matches_gitignore("debug.log", &list));
    assert!(matches_gitignore("*.log", &list));
    assert!(matches_gitignore("*.logs", &list));
}

#[test]
fn negation_has_no_meaning() {
    let list = patterns(&["!keep"]);
    assert!(!matches_gitignore("keep", &list));
    assert!(matches_gitignore("!keep", &list));
}

#[test]
fn no_pattern_ignores_nothing() {
    assert!(!matches_gitignore("a.txt", &[]));
    assert!(!matches_gitignore("", &[]));
}

#[test]
fn order_of_patterns_plays_no_part() {
    let names = ["target", "node_modules", "src", "targets", "x"];
    let forward = patterns(&["target", "node_modules/"]);
    let backward = patterns(&["node_modules/", "target"]);
    for name in names {
        assert_eq!(matches_gitignore(name, &forward), matches_gitignore(name, &backward));
    }
    assert!(matches_gitignore("targets", &forward));
    assert!(!matches_gitignore("src", &forward));
}

#[test]
fn match_is_by_character_not_by_byte() {
    let list = patterns(&["caf\u{e9}"]);
    assert!(matches_gitignore("caf\u{e9}s", &list));
    assert!(!matches_gitignore("cafe", &list));
    assert!(!matches_gitignore("caf\u{e8}", &list));
}

#[test]
fn parse_keeps_file_order() {
    let parsed = parse_gitignore(b"target\nnode_modules/\nsecret.txt\n");
    assert_eq!(parsed, patterns(&["target", "node_modules/", "secret.txt"]));
}

#[test]
fn parse_skips_comments_and_blank_lines() {
    let parsed = parse_gitignore(b"# build output\n\ntarget\n   \n#x\nsecret.txt\n");
    assert_eq!(parsed, patterns(&["target", "secret.txt"]));
}

#[test]
fn parse_trims_each_line() {
    let parsed = parse_gitignore(b"  target/  \n\tsecret.txt\t\n");
    assert_eq!(parsed, patterns(&["target/", "secret.txt"]));
}

#[test]
fn parse_takes_carriage_returns_as_whitespace() {
    let parsed = parse_gitignore(b"target\r\nsecret.txt\r\n\r\n");
    assert_eq!(parsed, patterns(&["target", "secret.txt"]));
}

#[test]
fn parse_reads_a_last_line_without_newline() {
    let parsed = parse_gitignore(b"target\nsecret.txt");
    assert_eq!(parsed, patterns(&["target", "secret.txt"]));
}

#[test]
fn parse_takes_an_indented_hash_as_comment() {
    let parsed = parse_gitignore(b"   # note\nkeep # this\n");
    assert_eq!(parsed, patterns(&["keep # this"]));
}

#[test]
fn parse_keeps_inner_whitespace() {
    let parsed = parse_gitignore(b"  my file.txt  \n");
    assert_eq!(parsed, patterns(&["my file.txt"]));
}

#[test]
fn parse_skips_a_line_that_is_not_utf8() {
    let parsed = parse_gitignore(b"first\n\xff\xfe broken\nlast\n");
    assert_eq!(parsed, patterns(&["first", "last"]));
}

#[test]
fn parse_skips_a_truncated_sequence() {
    let parsed = parse_gitignore(b"caf\xc3\nnext\n");
    assert_eq!(parsed, patterns(&["next"]));
}

#[test]
fn parse_decodes_utf8() {
    let parsed = parse_gitignore("caf\u{e9}\n\u{65e5}\u{672c}\n".as_bytes());
    assert_eq!(parsed, patterns(&["caf\u{e9}", "\u{65e5}\u{672c}"]));
}

#[test]
fn parse_trims_unicode_whitespace() {
    let parsed = parse_gitignore("\u{a0}\u{3000}name\u{2003}\u{85}\n".as_bytes());
    assert_eq!(parsed, patterns(&["name"]));
}

#[test]
fn parse_of_no_content_gives_no_pattern() {
    assert_eq!(parse_gitignore(b""), Vec::<String>::new());
}

#[test]
fn parse_of_newlines_alone_gives_no_pattern() {
    assert_eq!(parse_gitignore(b"\n\n\n"), Vec::<String>::new());
}

#[test]
fn parse_agrees_with_line_by_line_reading() {
    let content: &[u8] = b"a\n  b/ \r\n#c\n\n\xc3\x28\n d e \nlast";
    let mut expected: Vec<String> = Vec::new();
    for raw in content.split(|byte| *byte == b'\n') {
        if let Ok(line) = std::str::from_utf8(raw) {
            let trimmed = line.trim();
            if !trimmed.is_empty() && !trimmed.starts_with('#') {
                expected.push(trimmed.to_string());
            }
        }
    }
    assert_eq!(parse_gitignore(content), expected);
    assert_eq!(expected, patterns(&["a", "b/", "d e", "last"]));
}

#[test]
fn line_gives_its_trimmed_text() {
    assert_eq!(parse_line(b"  target/ "), Some("target/".to_string()));
}

#[test]
fn line_is_decoded_not_handed_back() {
    assert_eq!(parse_line(b"caf\xc3\xa9"), Some("caf\u{e9}".to_string()));
    assert_eq!(parse_line(b"caf\xc3\xa9").map(|p| p.chars().count()), Some(4));
}

#[test]
fn line_that_is_not_utf8_gives_nothing() {
    assert_eq!(parse_line(b"\xc0\xaf"), None);
    assert_eq!(parse_line(b"\xed\xa0\x80"), None);
    assert_eq!(parse_line(b"\xf4\x90\x80\x80"), None);
    assert_eq!(parse_line(b"ok\x80"), None);
}

#[test]
fn blank_line_and_comment_give_nothing() {
    assert_eq!(parse_line(b""), None);
    assert_eq!(parse_line(b" \t "), None);
    assert_eq!(parse_line(b"#"), None);
    assert_eq!(parse_line(b"  # c"), None);
}

#[test]
fn missing_file_is_an_empty_list() {
    let from_nothing = parse_gitignore(&[]);
    let names = [".env", "a.txt", "build", ""];
    for name in names {
        assert_eq!(matches_gitignore(name, &from_nothing), matches_gitignore(name, &[]));
        assert!(!matches_gitignore(name, &from_nothing));
    }
}

#[test]
fn matching_agrees_with_the_string_functions_of_std() {
    let names = [
        "", "a", "build", "build-artifacts", "builds", "buil", "/", "//", "a/", "a/b", "a//b",
        ".env", "caf\u{e9}", "cafe", "target", "targets", "x/", "/x",
    ];
    let candidates = [
        "", "/", "//", "a", "a/", "a//", "/a", "/a/", "build", "build/", "build//", "a/b/",
        "caf\u{e9}/", "caf", "target/", ".env", ".", "x", "/x//",
    ];
    for name in names {
        for pattern in candidates {
            let expected = name == pattern || name.starts_with(pattern.trim_end_matches('/'));
            assert_eq!(
                matches_gitignore(name, &[pattern.to_string()]),
                expected,
                "name {:?}, pattern {:?}",
                name,
                pattern
            );
        }
    }
}

#[test]
fn one_matching_pattern_among_many_is_enough() {
    let list = patterns(&["x", "y/", "build/", "z"]);
    assert!(matches_gitignore("build.rs", &list));
    assert!(matches_gitignore("zebra", &list));
    assert!(!matches_gitignore("w", &list));
}
