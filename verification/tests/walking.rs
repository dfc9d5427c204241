use dirtree::entry::DirEntry;
use dirtree::walker::{Status, Walker};

struct Node {
    name: &'static str,
    children: Option<Vec<Node>>,
    readable: bool,
}

fn file(name: &'static str) -> Node {
    Node { name, children: None, readable: true }
}

fn dir(name: &'static str, children: Vec<Node>) -> Node {
    Node { name, children: Some(children), readable: true }
}

fn locked(name: &'static str) -> Node {
    Node { name, children: Some(Vec::new()), readable: false }
}

fn find<'a>(root: &'a Node, path: &[String]) -> Option<&'a Node> {
    let mut node = root;
    for name in path {
        node = node.children.as_ref()?.iter().find(|child| child.name == name)?;
    }
    Some(node)
}

fn list(root: &Node, path: &[String]) -> Option<Vec<DirEntry>> {
    let node = find(root, path)?;
    if !node.readable {
        return None;
    }
    let children = node.children.as_ref()?;
    Some(
        children
            .iter()
            .map(|child| DirEntry {
                name: child.name.to_string(),
                is_dir: child.children.is_some(),
            })
            .collect(),
    )
}

struct Walk {
    lines: Vec<String>,
    requests: Vec<Vec<String>>,
    status: Status,
}

fn walk(root: &Node, show_all: bool, patterns: &[&str]) -> Walk {
    let patterns: Vec<String> = patterns.iter().map(|p| p.to_string()).collect();
    let mut walker = Walker::new(show_all, patterns);
    let mut lines = Vec::new();
    let mut requests = Vec::new();
    while let Some(path) = walker.request() {
        assert_eq!(walker.status(), Status::Listing);
        let listing = list(root, &path);
        requests.push(path);
        lines.extend(walker.feed(listing));
        assert!(requests.len() <= 1000);
    }
    Walk { lines, requests, status: walker.status() }
}

fn project() -> Node {
    dir(
        "root",
        vec![
            file(".gitignore"),
            file("a.txt"),
            file("secret.txt"),
            file(".env"),
            dir("sub", vec![file("b.txt")]),
        ],
    )
}

#[test]
fn project_in_default_mode() {
    let out = walk(&project(), false, &["secret.txt"]);
    assert_eq!(out.lines, vec!["├──  a.txt", "└──  sub", "    └──  b.txt"]);
    assert_eq!(out.status, Status::Done);
}

#[test]
fn project_with_all() {
    let out = walk(&project(), true, &["secret.txt"]);
    assert_eq!(
        out.lines,
        vec![
            "├──  .gitignore",
            "├──  a.txt",
            "├──  secret.txt",
            "├──  .env",
            "└──  sub",
            "    └──  b.txt",
        ]
    );
    assert_eq!(out.status, Status::Done);
}

#[test]
fn project_asks_for_root_and_sub_only() {
    let out = walk(&project(), false, &["secret.txt"]);
    assert_eq!(out.requests, vec![Vec::<String>::new(), vec!["sub".to_string()]]);
}

#[test]
fn walking_twice_gives_the_same_lines() {
    let tree = dir(
        "root",
        vec![dir("x", vec![file("1"), dir("y", vec![file("2")])]), file("z"), locked("w")],
    );
    let first = walk(&tree, false, &["z"]);
    let second = walk(&tree, false, &["z"]);
    assert_eq!(first.lines, second.lines);
    assert_eq!(first.requests, second.requests);
    assert_eq!(first.status, second.status);
    let bytes_first = first.lines.join("\n").into_bytes();
    let bytes_second = second.lines.join("\n").into_bytes();
    assert_eq!(bytes_first, bytes_second);
}

#[test]
fn build_pattern_excludes_build_and_build_artifacts() {
    let tree = dir(
        "root",
        vec![dir("build", vec![file("out")]), dir("build-artifacts", vec![]), file("main.rs")],
    );
    let default = walk(&tree, false, &["build/"]);
    assert_eq!(default.lines, vec!["└──  main.rs"]);
    assert_eq!(default.requests, vec![Vec::<String>::new()]);
    let all = walk(&tree, true, &["build/"]);
    assert_eq!(
        all.lines,
        vec!["├──  build", "│  └──  out", "├──  build-artifacts", "└──  main.rs"]
    );
}

#[test]
fn hidden_entries_show_only_with_all() {
    let tree = dir("root", vec![dir(".git", vec![file("HEAD")]), file("README")]);
    let default = walk(&tree, false, &[]);
    assert_eq!(default.lines, vec!["└──  README"]);
    let all = walk(&tree, true, &[]);
    assert_eq!(all.lines, vec!["├──  .git", "│  └──  HEAD", "└──  README"]);
}

#[test]
fn a_directory_of_n_entries_gives_n_lines_at_its_level() {
    let tree = dir(
        "root",
        vec![
            file("a"),
            dir("b", vec![file("b1"), file("b2")]),
            file("c"),
            dir("d", vec![dir("d1", vec![file("deep")])]),
        ],
    );
    let out = walk(&tree, false, &[]);
    let top: Vec<&String> = out
        .lines
        .iter()
        .filter(|line| line.starts_with('├') || line.starts_with('└'))
        .collect();
    assert_eq!(top, vec!["├──  a", "├──  b", "├──  c", "└──  d"]);
    assert_eq!(top.iter().filter(|line| line.starts_with('└')).count(), 1);
    assert!(top.last().unwrap().starts_with('└'));
    assert_eq!(
        out.lines,
        vec![
            "├──  a",
            "├──  b",
            "│  ├──  b1",
            "│  └──  b2",
            "├──  c",
            "└──  d",
            "    └──  d1",
            "        └──  deep",
        ]
    );
}

#[test]
fn grandchild_below_a_last_directory_has_four_blanks() {
    let tree = dir("root", vec![file("a"), dir("last", vec![file("x"), file("y")])]);
    let out = walk(&tree, false, &[]);
    assert_eq!(out.lines, vec!["├──  a", "└──  last", "    ├──  x", "    └──  y"]);
}

#[test]
fn grandchild_below_an_inner_directory_has_the_bar() {
    let tree = dir("root", vec![dir("first", vec![file("x"), file("y")]), file("z")]);
    let out = walk(&tree, false, &[]);
    assert_eq!(out.lines, vec!["├──  first", "│  ├──  x", "│  └──  y", "└──  z"]);
}

#[test]
fn prefixes_pile_up() {
    let tree = dir(
        "root",
        vec![dir("a", vec![dir("b", vec![dir("c", vec![file("d")]), file("e")])]), file("f")],
    );
    let out = walk(&tree, false, &[]);
    assert_eq!(
        out.lines,
        vec![
            "├──  a",
            "│  └──  b",
            "│      ├──  c",
            "│      │  └──  d",
            "│      └──  e",
            "└──  f",
        ]
    );
}

#[test]
fn listing_order_is_kept() {
    let tree = dir("root", vec![file("zeta"), file("alpha"), dir("mid", vec![]), file("beta")]);
    let out = walk(&tree, false, &[]);
    assert_eq!(out.lines, vec!["├──  zeta", "├──  alpha", "├──  mid", "└──  beta"]);
}

#[test]
fn last_is_counted_among_the_shown_entries() {
    let tree = dir("root", vec![file("a"), file("b"), file(".hidden"), file("ignored")]);
    let out = walk(&tree, false, &["ignored"]);
    assert_eq!(out.lines, vec!["├──  a", "└──  b"]);
}

#[test]
fn empty_root_prints_nothing() {
    let out = walk(&dir("root", vec![]), false, &[]);
    assert_eq!(out.lines, Vec::<String>::new());
    assert_eq!(out.status, Status::Done);
    assert_eq!(out.requests, vec![Vec::<String>::new()]);
}

#[test]
fn root_with_nothing_shown_prints_nothing() {
    let out = walk(&dir("root", vec![file(".a"), dir(".b", vec![file("c")])]), false, &[]);
    assert_eq!(out.lines, Vec::<String>::new());
    assert_eq!(out.status, Status::Done);
}

#[test]
fn unreadable_root_fails_the_walk() {
    let out = walk(&locked("root"), false, &[]);
    assert_eq!(out.lines, Vec::<String>::new());
    assert_eq!(out.status, Status::Failed);
    assert_eq!(out.requests, vec![Vec::<String>::new()]);
}

#[test]
fn unreadable_directory_is_passed_over() {
    let tree = dir(
        "root",
        vec![file("a"), locked("private"), dir("pub", vec![file("x")]), file("z")],
    );
    let out = walk(&tree, false, &[]);
    assert_eq!(
        out.lines,
        vec!["├──  a", "├──  private", "├──  pub", "│  └──  x", "└──  z"]
    );
    assert_eq!(out.status, Status::Done);
    assert_eq!(
        out.requests,
        vec![Vec::<String>::new(), vec!["private".to_string()], vec!["pub".to_string()]]
    );
}

#[test]
fn unreadable_last_directory_ends_the_walk_cleanly() {
    let tree = dir("root", vec![dir("a", vec![locked("b")])]);
    let out = walk(&tree, false, &[]);
    assert_eq!(out.lines, vec!["└──  a", "    └──  b"]);
    assert_eq!(out.status, Status::Done);
}

#[test]
fn directory_that_is_not_shown_is_never_listed() {
    let tree = dir(
        "root",
        vec![
            dir("node_modules", vec![dir("deep", vec![file("x")])]),
            dir(".git", vec![]),
            dir("src", vec![]),
        ],
    );
    let out = walk(&tree, false, &["node_modules"]);
    assert_eq!(out.requests, vec![Vec::<String>::new(), vec!["src".to_string()]]);
    assert_eq!(out.lines, vec!["└──  src"]);
}

#[test]
fn patterns_apply_at_every_depth() {
    let tree = dir(
        "root",
        vec![dir("src", vec![file("main.rs"), dir("target", vec![file("bin")]), file(".cache")])],
    );
    let out = walk(&tree, false, &["target/"]);
    assert_eq!(out.lines, vec!["└──  src", "    └──  main.rs"]);
}

#[test]
fn request_names_the_path_from_the_root() {
    let tree = dir("root", vec![dir("a", vec![dir("b", vec![dir("c", vec![])])])]);
    let out = walk(&tree, false, &[]);
    let path = |names: &[&str]| names.iter().map(|n| n.to_string()).collect::<Vec<String>>();
    assert_eq!(
        out.requests,
        vec![path(&[]), path(&["a"]), path(&["a", "b"]), path(&["a", "b", "c"])]
    );
}

#[test]
fn each_feed_prints_up_to_the_next_directory() {
    let mut walker = Walker::new(false, Vec::new());
    assert_eq!(walker.status(), Status::Listing);
    assert_eq!(walker.request(), Some(Vec::new()));
    let first = walker.feed(Some(vec![
        DirEntry { name: "a".to_string(), is_dir: false },
        DirEntry { name: "d".to_string(), is_dir: true },
        DirEntry { name: "z".to_string(), is_dir: false },
    ]));
    assert_eq!(first, vec!["├──  a", "├──  d"]);
    assert_eq!(walker.request(), Some(vec!["d".to_string()]));
    let second = walker.feed(Some(vec![DirEntry { name: "x".to_string(), is_dir: false }]));
    assert_eq!(second, vec!["│  └──  x", "└──  z"]);
    assert_eq!(walker.request(), None);
    assert_eq!(walker.status(), Status::Done);
}

#[test]
fn feed_after_the_end_changes_nothing() {
    let mut walker = Walker::new(false, Vec::new());
    assert_eq!(walker.feed(Some(Vec::new())), Vec::<String>::new());
    assert_eq!(walker.status(), Status::Done);
    let late = walker.feed(Some(vec![DirEntry { name: "a".to_string(), is_dir: false }]));
    assert_eq!(late, Vec::<String>::new());
    assert_eq!(walker.status(), Status::Done);
    assert_eq!(walker.request(), None);
}

#[test]
fn feed_after_a_failure_changes_nothing() {
    let mut walker = Walker::new(true, Vec::new());
    assert_eq!(walker.feed(None), Vec::<String>::new());
    assert_eq!(walker.status(), Status::Failed);
    assert_eq!(walker.feed(Some(Vec::new())), Vec::<String>::new());
    assert_eq!(walker.status(), Status::Failed);
    assert_eq!(walker.request(), None);
}

#[test]
fn wide_and_deep_tree_is_walked_to_the_end() {
    let mut level = vec![file("leaf")];
    for _ in 0..200 {
        level = vec![dir("d", level), file("f")];
    }
    let tree = dir("root", level);
    let out = walk(&tree, false, &[]);
    assert_eq!(out.lines.len(), 401);
    assert_eq!(out.requests.len(), 201);
    assert_eq!(out.status, Status::Done);
    assert_eq!(out.lines[0], "├──  d");
    assert_eq!(out.lines[400], "└──  f");
}
