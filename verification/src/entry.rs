//! Entries of the file tree: what a directory walk reports of one filesystem
//! object, and what the tree keeps and shows of it.

use vstd::prelude::*;
use vstd::string::*;

verus! {

/// The last component of a path, as far as it can be shown.
#[derive(Debug)]
pub enum PathName {
    /// The path has no last component.
    Missing,
    /// The last component is not valid Unicode.
    NotUnicode,
    Text(String),
}

/// What a directory walk reports as the type of an object.
#[derive(Debug, Clone, Copy, PartialEq, Eq, Structural)]
pub enum EntryType {
    Dir,
    File,
    /// Neither a directory nor a regular file: a symbolic link, a device.
    Other,
}

/// One object found by a directory walk.
#[derive(Debug)]
pub struct WalkEntry {
    /// The whole path of the object; it identifies the entry among the
    /// walk's reports.
    pub path: String,
    pub file_name: PathName,
    /// How many levels below the start of the walk the object lies.
    pub depth: usize,
    /// `None` stands for standard input.
    pub file_type: Option<EntryType>,
    pub path_is_symlink: bool,
    /// The last component of what the link points at; `None` if the link
    /// could not be read. Only read where `path_is_symlink` holds.
    pub link_dest: Option<PathName>,
    /// Whether the object, links followed, is a directory. Only read where
    /// `file_type` is `Other`.
    pub target_is_dir: bool,
}

/// The kind of failure that a directory walk reports.
#[derive(Debug)]
pub enum WalkError {
    /// An I/O error on `path` because the path does not exist.
    NotFound { path: String },
    /// An I/O error on `path` because access was denied.
    PermissionDenied { path: String },
    /// Any other I/O error on `path`; `kind` names it.
    Io { path: String, kind: String },
    /// An error on `path` that is no I/O error; `detail` describes it.
    WithPath { path: String, detail: String },
    /// An error that names no path.
    Other,
}

/// One item of a directory walk.
#[derive(Debug)]
pub enum WalkItem {
    Entry(WalkEntry),
    Error(WalkError),
}

/// The kind of a filesystem object, as the browser shows it.
#[derive(Debug)]
pub enum FileType {
    File,
    Dir,
    /// A directory whose contents could not be listed.
    RestrictedDir,
    Stdin,
    /// A symbolic link, with the display name of what it points at.
    LinkTo(String),
}

/// The kind of a filesystem object with the text of a link's destination.
pub enum FileTypeView {
    File,
    Dir,
    RestrictedDir,
    Stdin,
    LinkTo(Seq<char>),
}

impl View for FileType {
    type V = FileTypeView;

    open spec fn view(&self) -> FileTypeView {
        match *self {
            FileType::File => FileTypeView::File,
            FileType::Dir => FileTypeView::Dir,
            FileType::RestrictedDir => FileTypeView::RestrictedDir,
            FileType::Stdin => FileTypeView::Stdin,
            FileType::LinkTo(dest) => FileTypeView::LinkTo(dest@),
        }
    }
}

/// One node of the tree: how it is shown, and the walk's report of it.
#[derive(Debug)]
pub struct FsEntry {
    pub ft: FileType,
    pub de: WalkEntry,
    pub name: String,
}

/// A node of the tree with its texts.
pub struct FsEntryView {
    pub ft: FileTypeView,
    pub de: WalkEntry,
    pub name: Seq<char>,
}

impl View for FsEntry {
    type V = FsEntryView;

    open spec fn view(&self) -> FsEntryView {
        FsEntryView { ft: self.ft@, de: self.de, name: self.name@ }
    }
}

/// The display name for the last component of a path: its text, or a
/// placeholder where there is no text to show.
pub open spec fn name_text(name: PathName) -> Seq<char> {
    match name {
        PathName::Text(s) => s@,
        PathName::NotUnicode => "<node name non-UTF8"@,
        PathName::Missing => "<node name unknown>"@,
    }
}

/// The display name for the last component of a path.
pub fn path_to_string(p: &PathName) -> (s: String)
    ensures
        s@ == name_text(*p),
{
    match p {
        PathName::Text(name) => name.clone(),
        PathName::NotUnicode => "<node name non-UTF8".to_owned(),
        PathName::Missing => "<node name unknown>".to_owned(),
    }
}

/// Whether a walk entry is a directory or a link to one.
pub open spec fn points_to_dir(de: WalkEntry) -> bool {
    match de.file_type {
        Some(EntryType::Dir) => true,
        Some(EntryType::File) => false,
        Some(EntryType::Other) => de.target_is_dir,
        None => false,
    }
}

/// Whether a walk entry is a directory or a link to one.
pub fn is_or_points_to_dir(de: &WalkEntry) -> (b: bool)
    ensures
        b == points_to_dir(*de),
{
    match de.file_type {
        Some(EntryType::Dir) => true,
        Some(EntryType::File) => false,
        Some(EntryType::Other) => de.target_is_dir,
        None => false,
    }
}

/// The kind under which a walk entry enters the tree. A link's destination is
/// resolved here; where it could not be read, a placeholder stands for it.
pub open spec fn entry_kind(de: WalkEntry) -> FileTypeView {
    if de.path_is_symlink {
        FileTypeView::LinkTo(
            match de.link_dest {
                Some(dest) => name_text(dest),
                None => "<error reading dest>"@,
            },
        )
    } else {
        match de.file_type {
            Some(EntryType::Dir) => FileTypeView::Dir,
            Some(_) => FileTypeView::File,
            None => FileTypeView::Stdin,
        }
    }
}

/// The tree entry for a walk entry other than the root.
pub open spec fn entry_of(de: WalkEntry) -> FsEntryView {
    FsEntryView { ft: entry_kind(de), de, name: name_text(de.file_name) }
}

/// Turns a walk entry into a tree entry.
pub fn de_to_fsentry(de: WalkEntry) -> (fse: FsEntry)
    ensures
        fse@ == entry_of(de),
{
    let name = path_to_string(&de.file_name);
    let ft = if de.path_is_symlink {
        let dest = match &de.link_dest {
            Some(d) => path_to_string(d),
            None => "<error reading dest>".to_owned(),
        };
        FileType::LinkTo(dest)
    } else {
        match de.file_type {
            Some(EntryType::Dir) => FileType::Dir,
            Some(_) => FileType::File,
            None => FileType::Stdin,
        }
    };
    FsEntry { ft, de, name }
}

/// The name under which the root is shown: the directory as it was given,
/// without one trailing slash.
pub open spec fn root_name(dir: Seq<char>) -> Seq<char> {
    if dir.len() > 0 && dir.last() == '/' {
        dir.drop_last()
    } else {
        dir
    }
}

/// The tree entry for the root of a walk that started at `dir`.
pub open spec fn root_entry_of(dir: Seq<char>, de: WalkEntry) -> FsEntryView {
    FsEntryView { ft: FileTypeView::Dir, de, name: root_name(dir) }
}

/// Turns the first entry of a walk that started at `dir` into the root entry.
pub fn root_to_fsentry(dir: &str, de: WalkEntry) -> (fse: FsEntry)
    ensures
        fse@ == root_entry_of(dir@, de),
{
    let n = dir.unicode_len();
    let name = if n > 0 && dir.get_char(n - 1) == '/' {
        dir.substring_char(0, n - 1).to_owned()
    } else {
        dir.to_owned()
    };
    FsEntry { ft: FileType::Dir, de, name }
}

} // verus!
