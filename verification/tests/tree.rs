use itree::entry::{EntryType, PathName, WalkEntry, WalkItem};
use itree::render::{BAR_INDENT, BLANK_INDENT, END_BRANCH, MID_BRANCH};
use itree::tree::Tree;

fn last_part(path: &str) -> String {
    match path.rsplit('/').next() {
        Some(name) => name.to_owned(),
        None => path.to_owned(),
    }
}

fn entry(path: &str, depth: usize, file_type: EntryType) -> WalkItem {
    WalkItem::Entry(WalkEntry {
        path: path.to_owned(),
        file_name: PathName::Text(last_part(path)),
        depth,
        file_type: Some(file_type),
        path_is_symlink: false,
        link_dest: None,
        target_is_dir: false,
    })
}

fn file(path: &str, depth: usize) -> WalkItem {
    entry(path, depth, EntryType::File)
}

fn dir(path: &str, depth: usize) -> WalkItem {
    entry(path, depth, EntryType::Dir)
}

fn link(path: &str, dest: &str, depth: usize) -> WalkItem {
    WalkItem::Entry(WalkEntry {
        path: path.to_owned(),
        file_name: PathName::Text(last_part(path)),
        depth,
        file_type: Some(EntryType::Other),
        path_is_symlink: true,
        link_dest: Some(PathName::Text(dest.to_owned())),
        target_is_dir: false,
    })
}

fn test_dir(dir: &str) -> String {
    format!("resources/test/{}", dir)
}

fn abs_test_dir(dir: &str) -> String {
    format!("/home/user/itree/{}", test_dir(dir))
}

/// What a sorted walk of the test directory `root` reports.
fn walk_of(root: &str) -> Vec<WalkItem> {
    let base = root.trim_end_matches('/');
    let mut items = vec![dir(root, 0)];
    if base.ends_with("simple") {
        items.extend(simple(base, 1));
    } else if base.ends_with("one_dir") {
        items.extend(one_dir(base, 1));
    } else if base.ends_with("link") {
        items.extend(link_dir(base, 1));
    } else {
        items.push(dir(&format!("{}/link", base), 1));
        items.extend(link_dir(&format!("{}/link", base), 2));
        items.push(dir(&format!("{}/one_dir", base), 1));
        items.extend(one_dir(&format!("{}/one_dir", base), 2));
        items.push(dir(&format!("{}/simple", base), 1));
        items.extend(simple(&format!("{}/simple", base), 2));
    }
    items
}

fn simple(base: &str, depth: usize) -> Vec<WalkItem> {
    vec![
        file(&format!("{}/myfile", base), depth),
        file(&format!("{}/myotherfile", base), depth),
    ]
}

fn one_dir(base: &str, depth: usize) -> Vec<WalkItem> {
    vec![
        dir(&format!("{}/mydir", base), depth),
        file(&format!("{}/mydir/myfile", base), depth + 1),
        file(&format!("{}/myotherfile", base), depth),
    ]
}

fn link_dir(base: &str, depth: usize) -> Vec<WalkItem> {
    vec![
        link(&format!("{}/dest", base), "source", depth),
        file(&format!("{}/source", base), depth),
    ]
}

fn draw_to_string(dir: &str) -> String {
    let mut t = Tree::new_from_dir(dir, walk_of(dir)).unwrap();
    shown(&mut t)
}

fn shown(t: &mut Tree) -> String {
    t.to_string()
}

#[test]
fn tree_test_draw_abs_path() {
    let dir = abs_test_dir("simple");

    let exp = format!(
        "{}\n{} {}\n{} {}\n\n{}\n",
        dir, MID_BRANCH, "myfile", END_BRANCH, "myotherfile", "0 directories, 2 files",
    );

    assert_eq!(exp, draw_to_string(&dir));
}

#[test]
fn tree_test_draw_rel_path() {
    let dir = test_dir("simple");

    let exp = format!(
        "{}\n{} {}\n{} {}\n\n{}\n",
        dir, MID_BRANCH, "myfile", END_BRANCH, "myotherfile", "0 directories, 2 files",
    );

    assert_eq!(exp, draw_to_string(&dir));
}

#[test]
fn tree_test_draw_dir() {
    let dir = test_dir("one_dir");

    let exp = format!(
        "{}\n{} {}\n{}{} {}\n{} {}\n\n{}\n",
        dir,
        MID_BRANCH,
        "mydir",
        BAR_INDENT,
        END_BRANCH,
        "myfile",
        END_BRANCH,
        "myotherfile",
        "1 directory, 2 files",
    );

    assert_eq!(exp, draw_to_string(&dir));
}

#[test]
fn tree_test_draw_link() {
    let dir = test_dir("link");

    let exp = format!(
        "{}\n{} {}\n{} {}\n\n{}\n",
        dir, MID_BRANCH, "dest -> source", END_BRANCH, "source", "0 directories, 2 files",
    );

    assert_eq!(exp, draw_to_string(&dir));
}

#[test]
fn tree_test_focus() {
    let dir = test_dir("");
    let mut t = Tree::new_from_dir(&dir, walk_of(&dir)).unwrap();
    assert_eq!("link", t.focused().name);
    t.focus_up();
    assert_eq!("link", t.focused().name);

    t.focus_right();
    assert_eq!("one_dir", t.focused().name);
    t.focus_down();
    assert_eq!("mydir", t.focused().name);

    t.focus_left();
    assert_eq!("mydir", t.focused().name);
    t.focus_right();
    assert_eq!("myotherfile", t.focused().name);

    t.focus_up();
    assert_eq!("one_dir", t.focused().name);
}

#[test]
fn tree_test_fold() {
    let dir = test_dir("");
    let mut t = Tree::new_from_dir(&dir, walk_of(&dir)).unwrap();
    t.focus_right();
    t.focus_down();
    t.toggle_focus_fold();

    let exp = format!(
        "{}\n{} {}\n{}{} {}\n{}{} {}\n{} {}\n{}{} {}\n{}{} {}\n{} {}\n{}{} {}\n{}{} {}\n\n{}\n",
        "resources/test",
        MID_BRANCH,
        "link",
        BAR_INDENT,
        MID_BRANCH,
        "dest -> source",
        BAR_INDENT,
        END_BRANCH,
        "source",
        MID_BRANCH,
        "one_dir",
        BAR_INDENT,
        MID_BRANCH,
        "mydir*",
        BAR_INDENT,
        END_BRANCH,
        "myotherfile",
        END_BRANCH,
        "simple",
        BLANK_INDENT,
        MID_BRANCH,
        "myfile",
        BLANK_INDENT,
        END_BRANCH,
        "myotherfile",
        "4 directories, 6 files",
    );
    let actual = shown(&mut t);

    assert_eq!(exp, actual);

    t.focus_up();
    t.focus_right();
    t.toggle_focus_fold();

    let actual = shown(&mut t);
    let exp_pre = format!(
        "{}\n{} {}\n{}{} {}\n{}{} {}\n{} {}\n{}{} {}\n{}{} {}\n{} {}\n\n{}\n",
        "resources/test",
        MID_BRANCH,
        "link",
        BAR_INDENT,
        MID_BRANCH,
        "dest -> source",
        BAR_INDENT,
        END_BRANCH,
        "source",
        MID_BRANCH,
        "one_dir",
        BAR_INDENT,
        MID_BRANCH,
        "mydir*",
        BAR_INDENT,
        END_BRANCH,
        "myotherfile",
        END_BRANCH,
        "simple*",
        "4 directories, 6 files",
    );

    assert_eq!(exp_pre, actual);

    t.focus_left();
    t.toggle_focus_fold();

    let actual = shown(&mut t);
    let exp = format!(
        "{}\n{} {}\n{}{} {}\n{}{} {}\n{} {}\n{} {}\n\n{}\n",
        "resources/test",
        MID_BRANCH,
        "link",
        BAR_INDENT,
        MID_BRANCH,
        "dest -> source",
        BAR_INDENT,
        END_BRANCH,
        "source",
        MID_BRANCH,
        "one_dir*",
        END_BRANCH,
        "simple*",
        "4 directories, 6 files",
    );

    assert_eq!(exp, actual);

    t.toggle_focus_fold();

    let actual = shown(&mut t);
    assert_eq!(exp_pre, actual);
}
