use itree::branch;
use itree::branch::INDENT;
use itree::draw;
use itree::entry::{EntryType, PathName, WalkEntry, WalkItem};
use itree::render::{BAR_INDENT, END_BRANCH, MID_BRANCH};

fn last_part(path: &str) -> String {
    match path.rsplit('/').next() {
        Some(name) => name.to_owned(),
        None => path.to_owned(),
    }
}

fn entry(path: &str, depth: usize, file_type: EntryType) -> WalkItem {
    WalkItem::Entry(WalkEntry {
        path: path.to_owned(),
        file_name: PathName::Text(last_part(path)),
        depth,
        file_type: Some(file_type),
        path_is_symlink: false,
        link_dest: None,
        target_is_dir: false,
    })
}

fn file(path: &str, depth: usize) -> WalkItem {
    entry(path, depth, EntryType::File)
}

fn dir(path: &str, depth: usize) -> WalkItem {
    entry(path, depth, EntryType::Dir)
}

fn test_dir(dir: &str) -> String {
    format!("resources/test/{}", dir)
}

fn abs_test_dir(dir: &str) -> String {
    format!("/home/user/itree/{}", test_dir(dir))
}

/// The walk of the directory `simple`, in the order in which an unsorted
/// walk reports it.
fn simple_unsorted(root: &str) -> Vec<WalkItem> {
    vec![
        dir(root, 0),
        file(&format!("{}/myotherfile", root), 1),
        file(&format!("{}/myfile", root), 1),
    ]
}

/// The walk of the directory `simple`, sorted by name.
fn simple_sorted(root: &str) -> Vec<WalkItem> {
    vec![
        dir(root, 0),
        file(&format!("{}/myfile", root), 1),
        file(&format!("{}/myotherfile", root), 1),
    ]
}

/// The walk of the directory `one_dir`, in the order in which an unsorted
/// walk reports it.
fn one_dir_unsorted(root: &str) -> Vec<WalkItem> {
    vec![
        dir(root, 0),
        file(&format!("{}/myotherfile", root), 1),
        dir(&format!("{}/mydir", root), 1),
        file(&format!("{}/mydir/myfile", root), 2),
    ]
}

/// The walk of the directory `one_dir`, sorted by name.
fn one_dir_sorted(root: &str) -> Vec<WalkItem> {
    vec![
        dir(root, 0),
        dir(&format!("{}/mydir", root), 1),
        file(&format!("{}/mydir/myfile", root), 2),
        file(&format!("{}/myotherfile", root), 1),
    ]
}

#[test]
fn branch_test_draw_abs_path() {
    let dir = abs_test_dir("simple");

    let exp = format!(
        "{}\n{} {}\n{} {}\n",
        dir, MID_BRANCH, "myotherfile", END_BRANCH, "myfile",
    );

    assert_eq!(exp, branch::draw_rooted(&dir, simple_unsorted(&dir)).unwrap());
}

#[test]
fn branch_test_draw_rel_path() {
    let dir = test_dir("simple");

    let exp = format!(
        "{}\n{} {}\n{} {}\n",
        dir, MID_BRANCH, "myotherfile", END_BRANCH, "myfile",
    );

    assert_eq!(exp, branch::draw_rooted(&dir, simple_unsorted(&dir)).unwrap());
}

#[test]
fn branch_test_draw_dir() {
    let dir = test_dir("one_dir");

    let exp = format!(
        "{}\n{} {}\n{} {}\n{}{} {}\n",
        dir, MID_BRANCH, "myotherfile", END_BRANCH, "mydir", INDENT, END_BRANCH, "myfile",
    );

    assert_eq!(exp, branch::draw_rooted(&dir, one_dir_unsorted(&dir)).unwrap());
}

#[test]
fn draw_test_draw_abs_path() {
    let dir = abs_test_dir("simple");

    let exp = format!(
        "{}\n{} {}\n{} {}\n",
        dir, MID_BRANCH, "myfile", END_BRANCH, "myotherfile",
    );

    assert_eq!(exp, draw::draw_rooted(&dir, simple_sorted(&dir)).unwrap());
}

#[test]
fn draw_test_draw_rel_path() {
    let dir = test_dir("simple");

    let exp = format!(
        "{}\n{} {}\n{} {}\n",
        dir, MID_BRANCH, "myfile", END_BRANCH, "myotherfile",
    );

    assert_eq!(exp, draw::draw_rooted(&dir, simple_sorted(&dir)).unwrap());
}

#[test]
fn draw_test_draw_dir() {
    let dir = test_dir("one_dir");

    let exp = format!(
        "{}\n{} {}\n{}{} {}\n{} {}\n",
        dir, MID_BRANCH, "mydir", BAR_INDENT, END_BRANCH, "myfile", END_BRANCH, "myotherfile",
    );

    assert_eq!(exp, draw::draw_rooted(&dir, one_dir_sorted(&dir)).unwrap());
}

#[test]
fn branch_draws_one_indent_for_each_level() {
    let text = branch::draw_branch(&PathName::Text("deep".to_owned()), true, 3);
    assert_eq!(format!("{}{}{}{} deep\n", INDENT, INDENT, INDENT, END_BRANCH), text);
    let text = branch::draw_branch(&PathName::Text("top".to_owned()), false, 0);
    assert_eq!(format!("{} top\n", MID_BRANCH), text);
}

#[test]
fn branch_without_a_name_draws_nothing() {
    assert_eq!("", branch::draw_branch(&PathName::Missing, true, 2));
    assert_eq!("", draw::draw_branch(&PathName::Missing, false, BAR_INDENT));
}

#[test]
fn draw_branch_puts_the_prefix_in_front() {
    let text = draw::draw_branch(&PathName::Text("leaf".to_owned()), false, BAR_INDENT);
    assert_eq!(format!("{}{} leaf\n", BAR_INDENT, MID_BRANCH), text);
    let text = draw::draw_branch(&PathName::NotUnicode, true, "");
    assert_eq!(format!("{} <node name non-UTF8\n", END_BRANCH), text);
}

#[test]
fn draw_root_is_the_directory_as_given() {
    assert_eq!("some/dir/\n", draw::draw_root("some/dir/"));
    assert_eq!(".\n", branch::draw_root("."));
}

#[test]
fn draw_rooted_of_an_empty_walk_fails() {
    assert!(matches!(
        draw::draw_rooted(".", Vec::new()),
        Err(itree::fs::BuildError::NoEntry)
    ));
    assert!(matches!(
        branch::draw_rooted(".", Vec::new()),
        Err(itree::fs::BuildError::NoEntry)
    ));
}
