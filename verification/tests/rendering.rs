use dirtree::render::{extend_prefix, format_line};

#[test]
fn line_of_an_inner_entry_has_the_tee() {
    assert_eq!(format_line("", "a.txt", false), "\u{251c}\u{2500}\u{2500}  a.txt");
}

#[test]
fn line_of_the_last_entry_has_the_corner() {
    assert_eq!(format_line("", "sub", true), "\u{2514}\u{2500}\u{2500}  sub");
}

#[test]
fn line_is_prefix_glyph_blank_name() {
    let line = format_line("    ", "b.txt", true);
    let chars: Vec<char> = line.chars().collect();
    let prefix = vec![' ', ' ', ' ', ' '];
    let glyph = vec!['\u{2514}', '\u{2500}', '\u{2500}', ' '];
    let name = vec!['b', '.', 't', 'x', 't'];
    assert_eq!(chars, [prefix, glyph, vec![' '], name].concat());
}

#[test]
fn line_written_out() {
    assert_eq!(format_line("│  ", "b.txt", false), "│  ├──  b.txt");
    assert_eq!(format_line("│      ", "c", true), "│      └──  c");
}

#[test]
fn line_of_an_empty_name() {
    assert_eq!(format_line("", "", true), "└──  ");
}

#[test]
fn prefix_below_the_last_entry_gets_four_blanks() {
    assert_eq!(extend_prefix("", true), "    ");
    assert_eq!(extend_prefix("│  ", true), "│      ");
}

#[test]
fn prefix_below_an_inner_entry_gets_the_bar() {
    assert_eq!(extend_prefix("", false), "\u{2502}  ");
    assert_eq!(extend_prefix("    ", false), "    │  ");
}

#[test]
fn prefix_grows_with_depth() {
    let mut prefix = String::new();
    let mut length = 0;
    for depth in 0..6 {
        prefix = extend_prefix(&prefix, depth % 2 == 0);
        assert!(prefix.chars().count() > length);
        length = prefix.chars().count();
    }
    assert_eq!(prefix, "    │      │      │  ");
}
