use std::num::NonZeroUsize;

use indextree::{Arena, NodeId};
use itree::entry::{
    de_to_fsentry, is_or_points_to_dir, path_to_string, root_to_fsentry, EntryType, FileType,
    FsEntry, PathName, WalkEntry, WalkError, WalkItem,
};
use itree::fs::{
    determine_place_in_tree, fs_to_tree, unexpected_errors, BuildError, DepthChange,
};
use itree::options::FsOptions;
use itree::util::PutBack;

fn last_part(path: &str) -> String {
    match path.rsplit('/').next() {
        Some(name) => name.to_owned(),
        None => path.to_owned(),
    }
}

fn walk_entry(path: &str, depth: usize, file_type: EntryType) -> WalkEntry {
    WalkEntry {
        path: path.to_owned(),
        file_name: PathName::Text(last_part(path)),
        depth,
        file_type: Some(file_type),
        path_is_symlink: false,
        link_dest: None,
        target_is_dir: false,
    }
}

fn file(path: &str, depth: usize) -> WalkItem {
    WalkItem::Entry(walk_entry(path, depth, EntryType::File))
}

fn dir(path: &str, depth: usize) -> WalkItem {
    WalkItem::Entry(walk_entry(path, depth, EntryType::Dir))
}

fn denied(path: &str) -> WalkItem {
    WalkItem::Error(WalkError::PermissionDenied { path: path.to_owned() })
}

fn test_dir(dir: &str) -> String {
    format!("resources/test/{}", dir)
}

fn walk_of(root: &str) -> Vec<WalkItem> {
    if root.ends_with("one_dir") {
        vec![
            dir(root, 0),
            dir(&format!("{}/mydir", root), 1),
            file(&format!("{}/mydir/myfile", root), 2),
            file(&format!("{}/myotherfile", root), 1),
        ]
    } else {
        vec![
            dir(root, 0),
            file(&format!("{}/myfile", root), 1),
            file(&format!("{}/myotherfile", root), 1),
        ]
    }
}

fn test_tree(dir: &str) -> (Arena<FsEntry>, NodeId) {
    let (tree, root, _, _) = fs_to_tree(&FsOptions::new(dir.to_owned()), walk_of(dir)).unwrap();
    let root = tree.get_node_id_at(NonZeroUsize::new(root).unwrap()).unwrap();
    (tree, root)
}

fn names(tree: &Arena<FsEntry>) -> Vec<String> {
    tree.iter().map(|n| n.get().name.clone()).collect()
}

#[test]
fn test_collect_fs_abs_path() {
    let abs = format!("/home/user/itree/{}", test_dir("simple"));
    let (tree, root) = test_tree(&abs);

    assert_eq!("/home/user/itree/resources/test/simple", tree[root].get().name);

    let children = root
        .children(&tree)
        .map(|nid| tree[nid].get().name.as_str())
        .collect::<Vec<&str>>();

    assert!(children.contains(&"myfile"));
    assert!(children.contains(&"myotherfile"));
}

#[test]
fn test_collect_fs_rel_path() {
    let (tree, root) = test_tree(&test_dir("simple"));
    assert_eq!(tree[root].get().name, "resources/test/simple");

    let children = root
        .children(&tree)
        .map(|nid| tree[nid].get().name.as_str())
        .collect::<Vec<&str>>();

    assert!(children.contains(&"myfile"));
    assert!(children.contains(&"myotherfile"));
}

#[test]
fn test_collect_fs_dir() {
    let (tree, root) = test_tree(&test_dir("one_dir"));
    assert_eq!(tree[root].get().name, "resources/test/one_dir");

    let children = root
        .children(&tree)
        .map(|nid| tree[nid].get().name.as_str())
        .collect::<Vec<&str>>();

    assert!(children.contains(&"mydir"));
    assert!(children.contains(&"myotherfile"));

    let dir_node = root
        .children(&tree)
        .filter(|nid| tree[*nid].get().name.as_str() == "mydir")
        .next()
        .unwrap();

    assert_eq!(
        tree[dir_node.children(&tree).next().unwrap()].get().name,
        "myfile",
    );
}

#[test]
fn builder_links_every_node_as_the_walk_orders_it() {
    let items = vec![
        dir("r", 0),
        dir("r/a", 1),
        dir("r/a/b", 2),
        file("r/a/b/c", 3),
        file("r/a/d", 2),
        dir("r/e", 1),
        file("r/e/f", 2),
        file("r/g", 1),
    ];
    let (tree, root, n_files, n_dirs) =
        fs_to_tree(&FsOptions::new("r".to_owned()), items).unwrap();
    assert_eq!(1, root);
    assert_eq!(4, n_files);
    assert_eq!(3, n_dirs);
    assert_eq!(vec!["r", "a", "b", "c", "d", "e", "f", "g"], names(&tree));

    let id = |i: usize| tree.get_node_id_at(NonZeroUsize::new(i).unwrap()).unwrap();
    let kids = |i: usize| -> Vec<usize> { id(i).children(&tree).map(usize::from).collect() };
    assert_eq!(vec![2, 6, 8], kids(1));
    assert_eq!(vec![3, 5], kids(2));
    assert_eq!(vec![4], kids(3));
    assert_eq!(vec![7], kids(6));
    assert!(kids(8).is_empty());
    assert_eq!(None, tree[id(1)].parent());
    assert_eq!(Some(id(2)), tree[id(5)].parent());
    assert_eq!(Some(id(3)), tree[id(5)].previous_sibling());
    assert_eq!(Some(id(6)), tree[id(2)].next_sibling());
    assert_eq!(Some(id(8)), tree[id(1)].last_child());
    assert!(tree.validate());
    for i in 1..=8 {
        assert_eq!(id(i).depth(&tree), tree[id(i)].get().de.depth);
    }
}

#[test]
fn builder_marks_a_directory_that_could_not_be_opened() {
    let items = vec![
        dir("r", 0),
        dir("r/locked", 1),
        denied("r/locked"),
        file("r/z", 1),
    ];
    let (tree, _, n_files, n_dirs) = fs_to_tree(&FsOptions::new("r".to_owned()), items).unwrap();
    assert_eq!(1, n_files);
    assert_eq!(1, n_dirs);
    let locked = tree.get_node_id_at(NonZeroUsize::new(2).unwrap()).unwrap();
    assert!(matches!(tree[locked].get().ft, FileType::RestrictedDir));
    assert_eq!(0, locked.children(&tree).count());
    let z = tree.get_node_id_at(NonZeroUsize::new(3).unwrap()).unwrap();
    assert!(matches!(tree[z].get().ft, FileType::File));
    assert_eq!(Some(locked), tree[z].previous_sibling());
}

#[test]
fn builder_skips_other_errors() {
    let items = vec![
        dir("r", 0),
        WalkItem::Error(WalkError::Other),
        dir("r/a", 1),
        denied("r/elsewhere"),
        WalkItem::Error(WalkError::Io { path: "r/a".to_owned(), kind: "TimedOut".to_owned() }),
        file("r/a/b", 2),
    ];
    let (tree, _, n_files, n_dirs) = fs_to_tree(&FsOptions::new("r".to_owned()), items).unwrap();
    assert_eq!(vec!["r", "a", "b"], names(&tree));
    assert_eq!((1, 1), (n_files, n_dirs));
    let a = tree.get_node_id_at(NonZeroUsize::new(2).unwrap()).unwrap();
    assert!(matches!(tree[a].get().ft, FileType::Dir));
}

#[test]
fn builder_keeps_only_directories_when_asked() {
    let mut sym = walk_entry("r/a/to_dir", 2, EntryType::Other);
    sym.path_is_symlink = true;
    sym.link_dest = Some(PathName::Text("elsewhere".to_owned()));
    sym.target_is_dir = true;
    let items = vec![
        dir("r", 0),
        file("r/0", 1),
        dir("r/a", 1),
        file("r/a/x", 2),
        WalkItem::Entry(sym),
        file("r/b", 1),
        dir("r/c", 1),
    ];
    let mut options = FsOptions::new("r".to_owned());
    options.only_dirs(true);
    let (tree, _, n_files, n_dirs) = fs_to_tree(&options, items).unwrap();
    assert_eq!(vec!["r", "a", "to_dir", "c"], names(&tree));
    assert_eq!((0, 3), (n_files, n_dirs));
}

#[test]
fn builder_fails_without_a_root() {
    let options = FsOptions::new(".".to_owned());
    assert!(matches!(fs_to_tree(&options, Vec::new()), Err(BuildError::NoEntry)));
    let not_found = vec![WalkItem::Error(WalkError::NotFound { path: "gone".to_owned() })];
    match fs_to_tree(&options, not_found) {
        Err(BuildError::Root(WalkError::NotFound { path })) => assert_eq!("gone", path),
        _ => panic!("the walk failed at its start"),
    }
    let other = vec![WalkItem::Error(WalkError::Other), dir(".", 0)];
    assert!(matches!(fs_to_tree(&options, other), Err(BuildError::Root(WalkError::Other))));
}

#[test]
fn builder_rejects_depths_that_are_no_walk() {
    let options = FsOptions::new("r".to_owned());
    let jump = vec![dir("r", 0), dir("r/a", 1), file("r/a/b/c", 3)];
    assert!(matches!(fs_to_tree(&options, jump), Err(BuildError::Malformed)));
    let second_root = vec![dir("r", 0), dir("r/a", 1), file("r/a/b", 2), dir("s", 0)];
    assert!(matches!(fs_to_tree(&options, second_root), Err(BuildError::Malformed)));
    let deep_root = vec![dir("r", 1)];
    assert!(matches!(fs_to_tree(&options, deep_root), Err(BuildError::Malformed)));
    let deep_first = vec![dir("r", 0), file("r/a/b", 2)];
    assert!(matches!(fs_to_tree(&options, deep_first), Err(BuildError::Malformed)));
}

#[test]
fn builder_goes_up_several_levels_at_once() {
    let items = vec![
        dir("r", 0),
        dir("r/a", 1),
        dir("r/a/b", 2),
        dir("r/a/b/c", 3),
        file("r/a/b/c/d", 4),
        file("r/e", 1),
    ];
    let (tree, _, _, _) = fs_to_tree(&FsOptions::new("r".to_owned()), items).unwrap();
    let id = |i: usize| tree.get_node_id_at(NonZeroUsize::new(i).unwrap()).unwrap();
    assert_eq!(Some(id(1)), tree[id(6)].parent());
    assert_eq!(Some(id(2)), tree[id(6)].previous_sibling());
    assert!(tree.validate());
}

#[test]
fn depth_change_for_depths() {
    assert_eq!(DepthChange::NextIsFirst, DepthChange::for_depths(3, 2));
    assert_eq!(DepthChange::Isnt, DepthChange::for_depths(2, 2));
    assert_eq!(DepthChange::Last(1), DepthChange::for_depths(1, 2));
    assert_eq!(DepthChange::Last(4), DepthChange::for_depths(1, 5));
}

#[test]
fn lookahead_passes_over_what_is_not_kept() {
    let mut walk = PutBack::new(vec![
        WalkItem::Error(WalkError::Other),
        denied("r/a"),
        file("r/b", 1),
        dir("r/c", 1),
    ]);
    let mut fse = de_to_fsentry(walk_entry("r/a", 1, EntryType::Dir));
    let place = determine_place_in_tree(&mut walk, &mut fse, true);
    assert_eq!(DepthChange::Isnt, place);
    assert!(matches!(fse.ft, FileType::RestrictedDir));
    match walk.next() {
        Some(WalkItem::Entry(e)) => assert_eq!("r/c", e.path),
        _ => panic!("the directory is next"),
    }
    assert!(walk.next().is_none());

    let mut empty: PutBack<WalkItem> = PutBack::new(Vec::new());
    let mut fse = de_to_fsentry(walk_entry("r/a", 1, EntryType::Dir));
    assert_eq!(DepthChange::Last(0), determine_place_in_tree(&mut empty, &mut fse, false));
    assert!(matches!(fse.ft, FileType::Dir));
}

#[test]
fn names_and_placeholders() {
    assert_eq!("name", path_to_string(&PathName::Text("name".to_owned())));
    assert_eq!("<node name non-UTF8", path_to_string(&PathName::NotUnicode));
    assert_eq!("<node name unknown>", path_to_string(&PathName::Missing));
}

#[test]
fn entries_of_every_kind() {
    let f = de_to_fsentry(walk_entry("r/f", 1, EntryType::File));
    assert!(matches!(f.ft, FileType::File));
    assert_eq!("f", f.name);
    let o = de_to_fsentry(walk_entry("r/pipe", 1, EntryType::Other));
    assert!(matches!(o.ft, FileType::File));
    let mut stdin = walk_entry("<stdin>", 0, EntryType::File);
    stdin.file_type = None;
    assert!(matches!(de_to_fsentry(stdin).ft, FileType::Stdin));

    let mut link = walk_entry("r/dest", 1, EntryType::Other);
    link.path_is_symlink = true;
    link.link_dest = Some(PathName::Text("source".to_owned()));
    match de_to_fsentry(link).ft {
        FileType::LinkTo(dest) => assert_eq!("source", dest),
        _ => panic!("a link"),
    }
    let mut broken = walk_entry("r/dest", 1, EntryType::Other);
    broken.path_is_symlink = true;
    match de_to_fsentry(broken).ft {
        FileType::LinkTo(dest) => assert_eq!("<error reading dest>", dest),
        _ => panic!("a link"),
    }
}

#[test]
fn directories_and_links_to_them() {
    assert!(is_or_points_to_dir(&walk_entry("d", 1, EntryType::Dir)));
    assert!(!is_or_points_to_dir(&walk_entry("f", 1, EntryType::File)));
    let mut other = walk_entry("l", 1, EntryType::Other);
    assert!(!is_or_points_to_dir(&other));
    other.target_is_dir = true;
    assert!(is_or_points_to_dir(&other));
    other.file_type = None;
    assert!(!is_or_points_to_dir(&other));
}

#[test]
fn root_entry_drops_one_trailing_slash() {
    let e = root_to_fsentry("some/dir/", walk_entry("some/dir/", 0, EntryType::Dir));
    assert_eq!("some/dir", e.name);
    assert!(matches!(e.ft, FileType::Dir));
    assert_eq!(".", root_to_fsentry(".", walk_entry(".", 0, EntryType::Dir)).name);
    assert_eq!("a//", root_to_fsentry("a///", walk_entry("a", 0, EntryType::Dir)).name);
    assert_eq!("", root_to_fsentry("", walk_entry("", 0, EntryType::Dir)).name);
    assert!(matches!(
        root_to_fsentry("f", walk_entry("f", 0, EntryType::File)).ft,
        FileType::Dir
    ));
}

#[test]
fn put_back_hands_the_item_out_again() {
    let mut p = PutBack::new(vec![1, 2, 3]);
    assert_eq!(Some(1), p.next());
    assert_eq!(Some(2), p.next());
    p.put_back(7);
    assert_eq!(Some(7), p.next());
    assert_eq!(Some(3), p.next());
    assert_eq!(None, p.next());
    p.put_back(9);
    assert_eq!(Some(9), p.next());
    assert_eq!(None, p.next());
}

#[test]
fn errors_that_mark_no_entry_are_unexpected() {
    let items = vec![
        dir("r", 0),
        denied("r"),
        file("r/f", 1),
        dir("r/locked", 1),
        WalkItem::Error(WalkError::Other),
        denied("r/locked"),
        denied("r/f"),
        file("r/skipped", 1),
        denied("r/skipped"),
        dir("r/z", 1),
        denied("r/z"),
        WalkItem::Error(WalkError::NotFound { path: "r/z".to_owned() }),
    ];
    assert_eq!(vec![1, 4, 6, 11], unexpected_errors(&items, false));
    // where only directories are kept, the file is no entry to be marked
    assert_eq!(vec![1, 4, 6, 8, 11], unexpected_errors(&items, true));
    assert!(unexpected_errors(&Vec::new(), false).is_empty());
    assert!(unexpected_errors(&vec![denied("r")], false).is_empty());
    assert_eq!(vec![1], unexpected_errors(&vec![denied("r"), denied("r")], false));
}
