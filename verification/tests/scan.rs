use csrc::scan::{format_path, get_source_directories, is_source_dir, Directory};
use csrc::select::{selected_directory, selection};

fn dir(path: &str, is_source: bool, children: Vec<Directory>) -> Directory {
    Directory { path: path.to_string(), is_source, children }
}

#[test]
fn a_source_directory_is_not_entered() {
    let inner = dir("/r/a/b", true, vec![]);
    let a = dir("/r/a", true, vec![inner]);
    let c = dir("/r/c", false, vec![]);
    let root = dir("/r", false, vec![a, c]);
    assert_eq!(get_source_directories(&root), vec!["/r/a".to_string()]);
}

#[test]
fn source_directories_come_in_the_order_of_the_walk() {
    let root = dir(
        "/r",
        false,
        vec![
            dir("/r/x", false, vec![dir("/r/x/1", true, vec![]), dir("/r/x/2", true, vec![])]),
            dir("/r/y", true, vec![]),
            dir("/r/z", false, vec![dir("/r/z/q", false, vec![dir("/r/z/q/3", true, vec![])])]),
        ],
    );
    assert_eq!(
        get_source_directories(&root),
        vec![
            "/r/x/1".to_string(),
            "/r/x/2".to_string(),
            "/r/y".to_string(),
            "/r/z/q/3".to_string(),
        ]
    );
}

#[test]
fn a_root_that_is_a_source_directory_is_the_only_one() {
    let root = dir("/r", true, vec![dir("/r/a", true, vec![])]);
    assert!(is_source_dir(&root));
    assert_eq!(get_source_directories(&root), vec!["/r".to_string()]);
}

#[test]
fn a_tree_without_source_directories_gives_none() {
    let root = dir("/r", false, vec![dir("/r/a", false, vec![])]);
    assert!(!is_source_dir(&root));
    assert_eq!(get_source_directories(&root), Vec::<String>::new());
}

#[test]
fn a_line_holds_the_name_and_the_path() {
    assert_eq!(format_path(Some("csrc"), "/repos/csrc"), Some("csrc /repos/csrc".to_string()));
    assert_eq!(format_path(None, "/"), None);
}

#[test]
fn the_choice_is_what_the_selector_printed() {
    assert_eq!(selected_directory(true, " /repos/csrc \n"), Some("/repos/csrc".to_string()));
    assert_eq!(selected_directory(true, "/a b\n"), Some("/a b".to_string()));
}

#[test]
fn a_failed_or_silent_selector_chooses_nothing() {
    assert_eq!(selected_directory(false, "/repos/csrc\n"), None);
    assert_eq!(selected_directory(true, " \n\t"), None);
    assert_eq!(selected_directory(true, ""), None);
    assert_eq!(selection(true, "x".to_string()), Some("x".to_string()));
    assert_eq!(selection(false, "x".to_string()), None);
    assert_eq!(selection(true, "".to_string()), None);
}

#[test]
fn every_kind_of_white_space_is_taken_off_the_ends() {
    let spaces = [
        '\u{9}', '\u{a}', '\u{b}', '\u{c}', '\u{d}', '\u{20}', '\u{85}', '\u{a0}', '\u{1680}',
        '\u{2000}', '\u{2005}', '\u{200a}', '\u{2028}', '\u{2029}', '\u{202f}', '\u{205f}',
        '\u{3000}',
    ];
    for space in spaces {
        let output = format!("{}/repos{}", space, space);
        assert_eq!(selected_directory(true, &output), Some("/repos".to_string()));
    }
}

#[test]
fn what_is_no_white_space_stays_at_the_ends() {
    let others = ['\u{8}', '\u{e}', '\u{1f}', '\u{180e}', '\u{200b}', '\u{2060}', '\u{feff}', '_'];
    for other in others {
        let output = format!("{}/repos{}", other, other);
        assert_eq!(selected_directory(true, &output), Some(output.clone()));
    }
    assert_eq!(selected_directory(true, " a \u{200b} b "), Some("a \u{200b} b".to_string()));
}
