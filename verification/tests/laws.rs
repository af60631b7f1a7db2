use itree::entry::{EntryType, FileType, PathName, WalkEntry, WalkError, WalkItem};
use itree::fs::BuildError;
use itree::options::FsOptions;
use itree::render::{
    RenderOptions, TreeRender, BAR_INDENT, BLANK_INDENT, END_BRANCH, MID_BRANCH,
};
use itree::lines::PrefixPiece;
use itree::lines::PrefixPiece::{BarIndent, BlankIndent, EndBranch, MidBranch};
use itree::text::to_decimal;
use itree::tree::Tree;

fn last_part(path: &str) -> String {
    match path.rsplit('/').next() {
        Some(name) => name.to_owned(),
        None => path.to_owned(),
    }
}

fn entry(path: &str, depth: usize, file_type: EntryType) -> WalkItem {
    WalkItem::Entry(WalkEntry {
        path: path.to_owned(),
        file_name: PathName::Text(last_part(path)),
        depth,
        file_type: Some(file_type),
        path_is_symlink: false,
        link_dest: None,
        target_is_dir: false,
    })
}

fn file(path: &str, depth: usize) -> WalkItem {
    entry(path, depth, EntryType::File)
}

fn dir(path: &str, depth: usize) -> WalkItem {
    entry(path, depth, EntryType::Dir)
}

/// r
/// ├── a
/// │   ├── b
/// │   │   └── c
/// │   └── d
/// ├── e
/// │   └── f
/// └── g
fn sample() -> Vec<WalkItem> {
    vec![
        dir("r", 0),
        dir("r/a", 1),
        dir("r/a/b", 2),
        file("r/a/b/c", 3),
        dir("r/a/d", 2),
        dir("r/e", 1),
        file("r/e/f", 2),
        file("r/g", 1),
    ]
}

fn sample_tree() -> Tree {
    Tree::new_from_dir("r", sample()).unwrap()
}

/// The links of every row: where it leads back and on.
fn links(t: &Tree) -> Vec<(Option<usize>, usize)> {
    (0..t.line_count()).map(|i| (t.line(i).prev(), t.line(i).next())).collect()
}

fn folded(t: &Tree) -> Vec<usize> {
    (0..t.line_count()).filter(|i| t.is_folded(*i)).collect()
}

#[test]
fn rows_are_drawn_in_walk_order_and_linked_to_their_neighbours() {
    let t = sample_tree();
    assert_eq!(8, t.line_count());
    let expected: Vec<(Option<usize>, usize)> = vec![
        (None, 1),
        (Some(0), 2),
        (Some(1), 3),
        (Some(2), 4),
        (Some(3), 5),
        (Some(4), 6),
        (Some(5), 7),
        (Some(6), 8),
    ];
    assert_eq!(expected, links(&t));
    for i in 0..8 {
        assert_eq!(i + 1, t.line(i).node());
    }
    assert!(folded(&t).is_empty());
    assert_eq!(1, t.focused_line_ind());
}

#[test]
fn prefixes_follow_the_shape_of_the_tree() {
    let t = sample_tree();
    let prefix = |i: usize| t.line(i).prefix().clone();
    assert!(prefix(0).is_empty());
    assert_eq!(vec![MidBranch], prefix(1));
    assert_eq!(vec![BarIndent, MidBranch], prefix(2));
    assert_eq!(vec![BarIndent, BarIndent, EndBranch], prefix(3));
    assert_eq!(vec![BarIndent, EndBranch], prefix(4));
    assert_eq!(vec![MidBranch], prefix(5));
    assert_eq!(vec![BarIndent, EndBranch], prefix(6));
    assert_eq!(vec![EndBranch], prefix(7));
    let deep = Tree::new_from_dir(
        "r",
        vec![dir("r", 0), dir("r/a", 1), dir("r/a/b", 2), file("r/a/b/c", 3)],
    )
    .unwrap();
    assert_eq!(vec![BlankIndent, BlankIndent, EndBranch], deep.line(3).prefix().clone());
}

#[test]
fn a_prefix_has_one_piece_for_each_level_of_depth() {
    let items = sample();
    let depths: Vec<usize> = items
        .iter()
        .map(|i| match i {
            WalkItem::Entry(e) => e.depth,
            WalkItem::Error(_) => 0,
        })
        .collect();
    let t = sample_tree();
    for i in 0..t.line_count() {
        let prefix = t.line(i).prefix();
        assert_eq!(depths[i], prefix.len());
        assert_eq!(depths[i], t.entry(t.line(i).node()).de.depth);
        for (k, piece) in prefix.iter().enumerate() {
            let branch = matches!(piece, PrefixPiece::MidBranch | PrefixPiece::EndBranch);
            assert_eq!(k + 1 == prefix.len(), branch);
        }
    }
}

#[test]
fn a_child_continues_the_prefix_of_its_parent() {
    let t = sample_tree();
    // (child row, parent row)
    for (child, parent) in [(2usize, 1usize), (3, 2), (4, 1), (6, 5)] {
        let c = t.line(child).prefix();
        let p = t.line(parent).prefix();
        assert_eq!(p.len() + 1, c.len());
        assert_eq!(p[..p.len() - 1], c[..p.len() - 1]);
        let under = match p[p.len() - 1] {
            EndBranch => BlankIndent,
            MidBranch => BarIndent,
            other => other,
        };
        assert_eq!(under, c[p.len() - 1]);
    }
}

#[test]
fn folding_and_unfolding_restores_every_link() {
    for row in [1usize, 2, 4, 5] {
        let mut t = sample_tree();
        let before = links(&t);
        // bring the focus to the row
        match row {
            1 => {}
            2 => t.focus_down(),
            4 => {
                t.focus_down();
                t.focus_right();
            }
            _ => t.focus_right(),
        }
        assert_eq!(row, t.focused_line_ind());
        t.toggle_focus_fold();
        assert_eq!(vec![row], folded(&t));
        // a directory without entries leads on to the same row, folded or not
        assert_eq!(row == 4, before == links(&t));
        t.toggle_focus_fold();
        assert!(folded(&t).is_empty());
        assert_eq!(before, links(&t));
    }
}

#[test]
fn folding_leads_past_the_subtree() {
    let mut t = sample_tree();
    t.toggle_focus_fold();
    // row 1 (a) now leads on to row 5 (e), which leads back to it
    assert_eq!(5, t.line(1).next());
    assert_eq!(Some(1), t.line(5).prev());
    assert!(t.is_folded(1));
    // the last directory's subtree ends the tree
    t.focus_right();
    t.toggle_focus_fold();
    assert_eq!(7, t.line(5).next());
    t.focus_right();
    assert_eq!("g", t.focused().name);
    t.toggle_focus_fold();
    assert!(!t.is_folded(7));
    let mut deep = Tree::new_from_dir(
        "r",
        vec![dir("r", 0), dir("r/a", 1), dir("r/a/b", 2), file("r/a/b/c", 3)],
    )
    .unwrap();
    deep.focus_down();
    deep.toggle_focus_fold();
    assert_eq!(4, deep.line(2).next());
    assert!(deep.is_folded(2));
}

#[test]
fn unfolding_leads_back_to_the_last_row_of_the_subtree() {
    // r, a, a/b, a/b/c, e: the subtree of a ends with c, below the folded b
    let mut t = Tree::new_from_dir(
        "r",
        vec![dir("r", 0), dir("r/a", 1), dir("r/a/b", 2), file("r/a/b/c", 3), file("r/e", 1)],
    )
    .unwrap();
    t.focus_down();
    t.toggle_focus_fold();
    assert_eq!(vec![2], folded(&t));
    assert_eq!(Some(2), t.line(4).prev());
    assert_eq!(4, t.line(2).next());
    t.focus_up();
    t.toggle_focus_fold();
    assert_eq!(Some(1), t.line(4).prev());
    assert_eq!(4, t.line(1).next());
    t.toggle_focus_fold();
    // the row after the subtree leads back to the subtree's last row, c,
    // and no longer to the folded b
    assert_eq!(Some(3), t.line(4).prev());
    assert_eq!(2, t.line(1).next());
    assert_eq!(4, t.line(2).next());
    assert_eq!(vec![2], folded(&t));
}

#[test]
fn only_directories_fold() {
    let mut t = Tree::new_from_dir(
        "r",
        vec![
            dir("r", 0),
            file("r/f", 1),
            dir("r/locked", 1),
            WalkItem::Error(WalkError::PermissionDenied { path: "r/locked".to_owned() }),
        ],
    )
    .unwrap();
    let before = links(&t);
    t.toggle_focus_fold();
    assert_eq!(before, links(&t));
    assert!(folded(&t).is_empty());
    t.focus_right();
    assert!(matches!(t.focused().ft, FileType::RestrictedDir));
    t.toggle_focus_fold();
    assert_eq!(before, links(&t));
    assert!(folded(&t).is_empty());
    t.unfold_focus();
    assert_eq!(before, links(&t));
}

#[test]
fn building_twice_gives_the_same_tree() {
    let mut a = sample_tree();
    let mut b = sample_tree();
    assert_eq!(a.to_string(), b.to_string());
    assert_eq!(a.summary(), b.summary());
    assert_eq!(links(&a), links(&b));
    assert_eq!("3 directories, 4 files".len(), a.summary().len());
    let ra = TreeRender::new(&mut a, RenderOptions::new()).to_string();
    let rb = TreeRender::new(&mut b, RenderOptions::new()).to_string();
    assert_eq!(ra, rb);
}

#[test]
fn every_move_is_possible_everywhere() {
    // a tree of the root alone: the focus is on the root and stays there
    let mut lone = Tree::new_from_dir("r", vec![dir("r", 0)]).unwrap();
    assert_eq!("r", lone.focused().name);
    lone.focus_up();
    lone.focus_down();
    lone.focus_left();
    lone.focus_right();
    assert_eq!(0, lone.focused_line_ind());
    lone.toggle_focus_fold();
    assert!(lone.is_folded(0));
    assert_eq!(1, lone.line(0).next());
    lone.toggle_focus_fold();
    assert!(!lone.is_folded(0));

    // at every edge of a larger tree
    let mut t = sample_tree();
    t.focus_left();
    t.focus_up();
    assert_eq!("a", t.focused().name);
    t.focus_right();
    t.focus_right();
    t.focus_right();
    assert_eq!("g", t.focused().name);
    t.focus_down();
    assert_eq!("g", t.focused().name);
    t.focus_left();
    t.focus_down();
    assert_eq!("f", t.focused().name);
    t.focus_left();
    t.focus_right();
    t.focus_down();
    assert_eq!("f", t.focused().name);
    for _ in 0..5 {
        t.focus_up();
    }
    assert_eq!("e", t.focused().name);
}

#[test]
fn down_goes_back_to_where_up_came_from() {
    let mut t = sample_tree();
    t.focus_down();
    t.focus_right();
    assert_eq!("d", t.focused().name);
    t.focus_up();
    assert_eq!("a", t.focused().name);
    t.focus_down();
    assert_eq!("d", t.focused().name);
    // even when the directory is folded in between
    t.focus_up();
    t.toggle_focus_fold();
    t.focus_down();
    assert_eq!("d", t.focused().name);
    // but a folded directory that remembers nothing keeps the focus
    let mut t = sample_tree();
    t.toggle_focus_fold();
    t.focus_down();
    assert_eq!("a", t.focused().name);
}

#[test]
fn two_files_make_two_lines() {
    let mut t =
        Tree::new_from_dir("root", vec![dir("root", 0), file("root/myfile", 1), file("root/myotherfile", 1)])
            .unwrap();
    assert_eq!(3, t.line_count());
    assert_eq!("0 directories, 2 files", t.summary());
    let text = TreeRender::new(&mut t, RenderOptions::new()).to_string();
    assert_eq!(
        "root\n├── myfile\n└── myotherfile\n\n0 directories, 2 files\n",
        text
    );
}

#[test]
fn folding_a_directory_hides_its_one_descendant() {
    let mut t = Tree::new_from_dir(
        "root",
        vec![
            dir("root", 0),
            dir("root/mydir", 1),
            file("root/mydir/myfile", 2),
            file("root/myotherfile", 1),
        ],
    )
    .unwrap();
    let unfolded = format!(
        "root\n{} mydir\n{}{} myfile\n{} myotherfile\n\n1 directory, 2 files\n",
        MID_BRANCH, BAR_INDENT, END_BRANCH, END_BRANCH
    );
    assert_eq!(unfolded, t.to_string());
    t.toggle_focus_fold();
    assert_eq!(
        format!(
            "root\n{} mydir*\n{} myotherfile\n\n1 directory, 2 files\n",
            MID_BRANCH, END_BRANCH
        ),
        t.to_string()
    );
    t.toggle_focus_fold();
    assert_eq!(unfolded, t.to_string());
}

#[test]
fn links_and_restricted_directories_are_marked() {
    let mut dest = WalkEntry {
        path: "r/dest".to_owned(),
        file_name: PathName::Text("dest".to_owned()),
        depth: 1,
        file_type: Some(EntryType::Other),
        path_is_symlink: true,
        link_dest: Some(PathName::Text("source".to_owned())),
        target_is_dir: false,
    };
    dest.target_is_dir = false;
    let mut t = Tree::new_from_dir(
        "r",
        vec![
            dir("r", 0),
            WalkItem::Entry(dest),
            dir("r/secret", 1),
            WalkItem::Error(WalkError::PermissionDenied { path: "r/secret".to_owned() }),
            file("r/source", 1),
        ],
    )
    .unwrap();
    assert_eq!(
        format!(
            "r\n{} dest -> source\n{} secret [error opening dir]\n{} source\n\n1 directory, 2 files\n",
            MID_BRANCH, MID_BRANCH, END_BRANCH
        ),
        t.to_string()
    );
    let r = TreeRender::new(&mut t, RenderOptions::new());
    assert_eq!(" -> source", r.suffix_for_node(2));
    assert_eq!(" [error opening dir]", r.suffix_for_node(3));
    assert_eq!("", r.suffix_for_node(4));
    assert_eq!("", r.suffix_for_node(1));
}

#[test]
fn standard_input_is_marked() {
    let stdin = WalkEntry {
        path: "<stdin>".to_owned(),
        file_name: PathName::Text("<stdin>".to_owned()),
        depth: 1,
        file_type: None,
        path_is_symlink: false,
        link_dest: None,
        target_is_dir: false,
    };
    let mut t = Tree::new_from_dir("r", vec![dir("r", 0), WalkItem::Entry(stdin)]).unwrap();
    assert!(matches!(t.focused().ft, FileType::Stdin));
    let r = TreeRender::new(&mut t, RenderOptions::new());
    assert_eq!("<stdin>", r.suffix_for_node(2));
}

#[test]
fn prefix_pieces_as_text() {
    let mut t = sample_tree();
    let r = TreeRender::new(&mut t, RenderOptions::new());
    assert_eq!("", r.prefix_string(&Vec::new()));
    assert_eq!(
        format!("{}{}{}{}", BAR_INDENT, BLANK_INDENT, MID_BRANCH, END_BRANCH),
        r.prefix_string(&vec![BarIndent, BlankIndent, MidBranch, EndBranch])
    );
    assert_eq!("│   ├──", r.prefix_string(&vec![BarIndent, MidBranch]));
}

#[test]
fn summary_counts_and_words() {
    let t = Tree::new_from_dir("r", vec![dir("r", 0)]).unwrap();
    assert_eq!("0 directories, 0 files", t.summary());
    let t = Tree::new_from_dir("r", vec![dir("r", 0), dir("r/a", 1), file("r/a/b", 2)]).unwrap();
    assert_eq!("1 directory, 1 file", t.summary());
    let mut items = vec![dir("r", 0)];
    for i in 0..12 {
        items.push(file(&format!("r/{}", i), 1));
    }
    for i in 0..105 {
        items.push(dir(&format!("r/d{}", i), 1));
    }
    let mut t = Tree::new_from_dir("r", items).unwrap();
    assert_eq!("105 directories, 12 files", t.summary());
    // whatever is folded
    t.focus_right();
    t.toggle_focus_fold();
    assert_eq!("105 directories, 12 files", t.summary());
}

#[test]
fn numbers_in_decimal() {
    assert_eq!("0", to_decimal(0));
    assert_eq!("7", to_decimal(7));
    assert_eq!("10", to_decimal(10));
    assert_eq!("12345", to_decimal(12345));
    assert_eq!(usize::MAX.to_string(), to_decimal(usize::MAX));
}

#[test]
fn trees_from_options() {
    let mut options = FsOptions::new("top/".to_owned());
    options.only_dirs(true);
    let t = Tree::new_with_options(
        options,
        vec![dir("top/", 0), file("top/f", 1), dir("top/d", 1)],
    )
    .unwrap();
    assert_eq!("top", t.entry(1).name);
    assert_eq!(2, t.line_count());
    assert_eq!("1 directory, 0 files", t.summary());
    let t = Tree::new(vec![dir(".", 0), file("./f", 1)]).unwrap();
    assert_eq!(".", t.entry(1).name);
    assert_eq!("f", t.focused().name);
    assert!(matches!(Tree::new(Vec::new()), Err(BuildError::NoEntry)));
}

#[test]
fn failures_say_what_went_wrong() {
    let e = BuildError::Root(WalkError::NotFound { path: "gone".to_owned() });
    assert_eq!("Path \"gone\" was not found", e.message());
    assert_eq!(1, e.exit_code());
    let e = BuildError::Root(WalkError::PermissionDenied { path: "/root".to_owned() });
    assert_eq!("An error occurred getting /root: PermissionDenied", e.message());
    assert_eq!(1, e.exit_code());
    let e = BuildError::Root(WalkError::Io { path: "p".to_owned(), kind: "TimedOut".to_owned() });
    assert_eq!("An error occurred getting p: TimedOut", e.message());
    assert_eq!(1, e.exit_code());
    let e = BuildError::Root(WalkError::WithPath { path: "p".to_owned(), detail: "Loop".to_owned() });
    assert_eq!("Could not get p: Loop", e.message());
    assert_eq!(1, e.exit_code());
    let e = BuildError::Root(WalkError::Other);
    assert_eq!("An unexpected error occurred getting the root!", e.message());
    assert_eq!(2, e.exit_code());
    assert_eq!(2, BuildError::NoEntry.exit_code());
    assert_eq!("Should always get a first walk entry", BuildError::NoEntry.message());
    assert_eq!(2, BuildError::Malformed.exit_code());
    assert_eq!(
        "The walk did not report its entries in depth-first order",
        BuildError::Malformed.message()
    );
}
