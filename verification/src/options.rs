//! What the caller chooses: how the walk is made and what of it is kept.

use vstd::prelude::*;
use vstd::string::*;
use ignore::overrides::OverrideBuilder;

verus! {

/// How the tree is printed.
#[derive(Debug, Clone, Copy, PartialEq, Eq, Structural)]
pub enum RenderMethod {
    /// Only the summary is printed.
    JustSummary,
    /// The tree and the summary are printed once.
    NoInteractive,
    /// The tree is shown for navigation.
    FullInteractive,
}

/// How the tree is printed when the caller asks for quiet, for no
/// interaction, or for neither; quiet goes first.
pub fn render_method(quiet: bool, no_interact: bool) -> (rm: RenderMethod)
    ensures
        rm == (if quiet {
            RenderMethod::JustSummary
        } else if no_interact {
            RenderMethod::NoInteractive
        } else {
            RenderMethod::FullInteractive
        }),
{
    if quiet {
        RenderMethod::JustSummary
    } else if no_interact {
        RenderMethod::NoInteractive
    } else {
        RenderMethod::FullInteractive
    }
}

/// What the `ignore` crate says of a pattern when it is added to a set of
/// overrides: nothing if it accepts the pattern, or else its description of
/// the error.
pub uninterp spec fn override_error(pat: Seq<char>) -> Option<Seq<char>>;

/// `OverrideBuilder::add` on a new builder for the current directory: whether
/// the pattern is accepted as a glob, and if not, the error in its `Debug`
/// form.
#[verifier::external_body]
fn check_override(pat: &str) -> (e: Option<String>)
    ensures
        e is Some == override_error(pat@) is Some,
        e matches Some(text) ==> Some(text@) == override_error(pat@),
{
    OverrideBuilder::new(".").add(pat).err().map(|e| format!("{:?}", e))
}

/// The verdict on an ignore pattern, given what was found wrong with it.
pub fn ignore_result(error: Option<String>) -> (r: Result<(), String>)
    ensures
        r is Ok == error is None,
        r matches Err(msg) ==> error matches Some(text) && msg@ == "Error parsing ignore: "@
            + text@,
{
    match error {
        None => Ok(()),
        Some(text) => {
            let mut msg = "Error parsing ignore: ".to_owned();
            msg.append(text.as_str());
            Err(msg)
        },
    }
}

/// Whether a pattern can be used to ignore files; if not, why.
pub fn validate_ignore(pat: &str) -> (r: Result<(), String>)
    ensures
        r is Ok == override_error(pat@) is None,
        r matches Err(msg) ==> override_error(pat@) matches Some(text) && msg@
            == "Error parsing ignore: "@ + text,
{
    ignore_result(check_override(pat))
}

/// The choices that govern the walk of the file system and what the tree
/// keeps of it.
#[derive(Debug)]
pub struct FsOptions {
    pub root: String,
    pub max_depth: Option<usize>,
    pub follow_links: bool,
    pub max_filesize: Option<u64>,
    pub hidden: bool,
    pub no_ignore: bool,
    pub no_git_exclude: bool,
    pub only_dirs: bool,
    pub custom_ignore: Vec<String>,
}

impl FsOptions {
    /// The default choices for a walk that starts at `root`: no limit of
    /// depth or size, links not followed, hidden files shown, ignore files
    /// not read, files and directories kept.
    pub fn new(root: String) -> (o: Self)
        ensures
            o.root == root,
            o.max_depth is None,
            !o.follow_links,
            o.max_filesize is None,
            o.hidden,
            o.no_ignore,
            o.no_git_exclude,
            !o.only_dirs,
            o.custom_ignore@.len() == 0,
    {
        Self {
            root,
            max_depth: None,
            follow_links: false,
            max_filesize: None,
            hidden: true,
            no_ignore: true,
            no_git_exclude: true,
            only_dirs: false,
            custom_ignore: Vec::new(),
        }
    }

    /// Set the root directory from which to build the tree.
    pub fn root(&mut self, root: String) -> (o: &mut Self)
        ensures
            *o == (FsOptions { root, ..*old(self) }),
            *final(self) == *final(o),
    {
        self.root = root;
        self
    }

    /// Set a maximum depth for the tree to search. `None` indicates no limit.
    pub fn max_depth(&mut self, max_depth: Option<usize>) -> (o: &mut Self)
        ensures
            *o == (FsOptions { max_depth, ..*old(self) }),
            *final(self) == *final(o),
    {
        self.max_depth = max_depth;
        self
    }

    /// Set whether or not to follow links.
    pub fn follow_links(&mut self, follow_links: bool) -> (o: &mut Self)
        ensures
            *o == (FsOptions { follow_links, ..*old(self) }),
            *final(self) == *final(o),
    {
        self.follow_links = follow_links;
        self
    }

    /// Set a maximum file size to include. `None` indicates no limit.
    pub fn max_filesize(&mut self, max_filesize: Option<u64>) -> (o: &mut Self)
        ensures
            *o == (FsOptions { max_filesize, ..*old(self) }),
            *final(self) == *final(o),
    {
        self.max_filesize = max_filesize;
        self
    }

    /// Set whether or not to show hidden files.
    pub fn hidden(&mut self, hidden: bool) -> (o: &mut Self)
        ensures
            *o == (FsOptions { hidden, ..*old(self) }),
            *final(self) == *final(o),
    {
        self.hidden = hidden;
        self
    }

    /// Set whether or not to keep only directories.
    pub fn only_dirs(&mut self, only_dirs: bool) -> (o: &mut Self)
        ensures
            *o == (FsOptions { only_dirs, ..*old(self) }),
            *final(self) == *final(o),
    {
        self.only_dirs = only_dirs;
        self
    }

    /// Set whether or not to leave `.[git]ignore` files unread.
    pub fn no_ignore(&mut self, no_ignore: bool) -> (o: &mut Self)
        ensures
            *o == (FsOptions { no_ignore, ..*old(self) }),
            *final(self) == *final(o),
    {
        self.no_ignore = no_ignore;
        self
    }

    /// Set whether or not to leave `.git/info/exclude` files unread.
    pub fn no_git_exclude(&mut self, no_git_exclude: bool) -> (o: &mut Self)
        ensures
            *o == (FsOptions { no_git_exclude, ..*old(self) }),
            *final(self) == *final(o),
    {
        self.no_git_exclude = no_git_exclude;
        self
    }

    /// Add a custom ignore path.
    pub fn add_custom_ignore(&mut self, path: &str) -> (o: &mut Self)
        ensures
            o.custom_ignore@.len() == old(self).custom_ignore@.len() + 1,
            o.custom_ignore@.drop_last() == old(self).custom_ignore@,
            o.custom_ignore@.last()@ == path@,
            *o == (FsOptions { custom_ignore: o.custom_ignore, ..*old(self) }),
            *final(self) == *final(o),
    {
        self.custom_ignore.push(path.to_owned());
        assert(self.custom_ignore@.drop_last() =~= old(self).custom_ignore@);
        self
    }
}

} // verus!
