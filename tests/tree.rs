use rusty_graphs::package::Package;
use rusty_graphs::tree::{parse_line, parse_tree, TreeError};

fn lines(v: &[&str]) -> Vec<String> {
    v.iter().map(|s| s.to_string()).collect()
}

fn find<'a>(out: &'a [Package], name: &str) -> &'a Package {
    out.iter().find(|p| p.name == name).expect("package missing")
}

fn deps_of(out: &[Package], name: &str) -> Vec<String> {
    let mut d = find(out, name).deps.clone();
    d.sort();
    d
}

#[test]
fn line_with_space_and_metadata() {
    assert_eq!(parse_line("1 child-a (v1.0)"), Some((1, "child-a".to_string())));
    assert_eq!(parse_line("0 root"), Some((0, "root".to_string())));
}

#[test]
fn line_without_separator() {
    assert_eq!(parse_line("12abc v0.1"), Some((12, "abc".to_string())));
}

#[test]
fn line_with_tab_and_leading_blanks() {
    assert_eq!(parse_line("3 \t  name rest"), Some((3, "name".to_string())));
}

#[test]
fn line_without_depth() {
    assert_eq!(parse_line("abc"), None);
    assert_eq!(parse_line(" 1 abc"), None);
    assert_eq!(parse_line(""), None);
}

#[test]
fn line_without_name() {
    assert_eq!(parse_line("5"), None);
    assert_eq!(parse_line("3    "), None);
}

#[test]
fn line_with_depth_too_large() {
    assert_eq!(parse_line("999999999999999999999999999 x"), None);
}

#[test]
fn diamond_scenario() {
    let out = parse_tree(&lines(&["0 A", "1 B", "2 C", "1 D", "2 C"])).unwrap();
    assert_eq!(out.len(), 4);
    assert_eq!(deps_of(&out, "A"), vec!["B", "D"]);
    assert_eq!(deps_of(&out, "B"), vec!["C"]);
    assert_eq!(deps_of(&out, "D"), vec!["C"]);
    assert_eq!(deps_of(&out, "C"), Vec::<String>::new());
}

#[test]
fn repeated_name_takes_union() {
    let out = parse_tree(&lines(&["0 A", "1 B", "2 X", "1 C", "2 B", "3 Y"])).unwrap();
    assert_eq!(deps_of(&out, "B"), vec!["X", "Y"]);
    assert_eq!(deps_of(&out, "C"), vec!["B"]);
    assert_eq!(deps_of(&out, "A"), vec!["B", "C"]);
    assert_eq!(out.len(), 5);
}

#[test]
fn names_are_unique() {
    let out = parse_tree(&lines(&["0 A", "1 B", "1 B", "2 C", "1 C"])).unwrap();
    let mut names: Vec<String> = out.iter().map(|p| p.name.clone()).collect();
    names.sort();
    assert_eq!(names, vec!["A", "B", "C"]);
    assert_eq!(deps_of(&out, "A"), vec!["B", "C"]);
}

#[test]
fn no_self_dependency() {
    let out = parse_tree(&lines(&["0 A", "1 A", "2 B", "1 B", "2 B"])).unwrap();
    assert_eq!(deps_of(&out, "A"), vec!["B"]);
    assert_eq!(deps_of(&out, "B"), Vec::<String>::new());
    for p in &out {
        assert!(!p.deps.contains(&p.name));
    }
}

#[test]
fn open_frames_are_merged_at_the_end() {
    let out = parse_tree(&lines(&["0 A", "1 B", "2 C"])).unwrap();
    assert_eq!(out.len(), 3);
    assert_eq!(deps_of(&out, "A"), vec!["B"]);
    assert_eq!(deps_of(&out, "B"), vec!["C"]);
    assert_eq!(deps_of(&out, "C"), Vec::<String>::new());
}

#[test]
fn single_root() {
    let out = parse_tree(&lines(&["0 root v1"])).unwrap();
    assert_eq!(out.len(), 1);
    assert_eq!(out[0].name, "root");
    assert!(out[0].deps.is_empty());
}

#[test]
fn blank_lines_are_skipped() {
    let out = parse_tree(&lines(&["0 A", "", "1 B", "", "2 C", ""])).unwrap();
    assert_eq!(deps_of(&out, "B"), vec!["C"]);
    assert_eq!(out.len(), 3);
}

#[test]
fn root_not_at_depth_zero() {
    assert_eq!(parse_tree(&lines(&["1 A", "2 B"])), Err(TreeError::Depth { line: 0 }));
}

#[test]
fn empty_listing() {
    assert_eq!(parse_tree(&lines(&[])), Err(TreeError::Parse { line: 0 }));
    assert_eq!(parse_tree(&lines(&[""])), Err(TreeError::Parse { line: 0 }));
}

#[test]
fn malformed_line_is_reported() {
    assert_eq!(parse_tree(&lines(&["0 A", "1 B", "x C"])), Err(TreeError::Parse { line: 2 }));
    assert_eq!(parse_tree(&lines(&["0 A", "", "7"])), Err(TreeError::Parse { line: 2 }));
}

#[test]
fn skipped_level_is_refused() {
    assert_eq!(parse_tree(&lines(&["0 A", "1 B", "3 C"])), Err(TreeError::Depth { line: 2 }));
}

#[test]
fn second_root_is_refused() {
    assert_eq!(parse_tree(&lines(&["0 A", "1 B", "0 C"])), Err(TreeError::Depth { line: 2 }));
}

#[test]
fn first_fault_wins() {
    assert_eq!(parse_tree(&lines(&["0 A", "2 B", "x"])), Err(TreeError::Depth { line: 1 }));
}

#[test]
fn reparsing_emitted_entries_gives_same_mapping() {
    let input = lines(&["0 top v1 (x)", "1 a v2", "2 b", "", "1 b v3", "2 c", "3 a", "1 c"]);
    let first = parse_tree(&input).unwrap();
    let emitted: Vec<String> = input
        .iter()
        .filter(|l| !l.is_empty())
        .map(|l| {
            let (d, n) = parse_line(l).unwrap();
            format!("{} {}", d, n)
        })
        .collect();
    let second = parse_tree(&emitted).unwrap();
    assert_eq!(first.len(), second.len());
    for p in &first {
        assert_eq!(deps_of(&first, &p.name), deps_of(&second, &p.name));
    }
    assert_eq!(deps_of(&first, "b"), vec!["c"]);
    assert_eq!(deps_of(&first, "c"), vec!["a"]);
    assert_eq!(deps_of(&first, "a"), vec!["b"]);
}
