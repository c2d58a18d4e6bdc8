//! Paths as sequences of components, in the syntax of Unix paths.

use vstd::prelude::*;

verus! {

/// One component of a path.
#[derive(Debug)]
pub enum PathPart {
    /// A Windows path prefix such as `C:`; Unix paths have none.
    Prefix(String),
    /// The root directory, `/` at the start of an absolute path.
    RootDir,
    /// `.` at the start of a relative path.
    CurDir,
    /// `..`, the parent directory.
    ParentDir,
    /// A name, such as `a` and `b` in `a/b`.
    Normal(String),
}

/// A path component as a mathematical value.
pub enum PartView {
    Prefix(Seq<char>),
    RootDir,
    CurDir,
    ParentDir,
    Normal(Seq<char>),
}

impl View for PathPart {
    type V = PartView;

    open spec fn view(&self) -> PartView {
        match self {
            PathPart::Prefix(s) => PartView::Prefix(s@),
            PathPart::RootDir => PartView::RootDir,
            PathPart::CurDir => PartView::CurDir,
            PathPart::ParentDir => PartView::ParentDir,
            PathPart::Normal(s) => PartView::Normal(s@),
        }
    }
}

/// The views of a list of components.
pub open spec fn parts_view(s: Seq<PathPart>) -> Seq<PartView> {
    s.map_values(|p: PathPart| p@)
}

/// The pieces of `s` between its `/` separators, empty ones included:
/// `"/a//b"` has the pieces `""`, `"a"`, `""` and `"b"`.
pub open spec fn slash_pieces(s: Seq<char>) -> Seq<Seq<char>>
    decreases s.len(),
{
    if s.len() == 0 {
        seq![Seq::<char>::empty()]
    } else if s.last() == '/' {
        slash_pieces(s.drop_last()).push(Seq::<char>::empty())
    } else {
        let p = slash_pieces(s.drop_last());
        p.update(p.len() - 1, p.last().push(s.last()))
    }
}

/// The components that the pieces of a path name, in order: empty pieces and
/// `.` name none, `..` names the parent directory, any other piece a name.
pub open spec fn piece_parts(pieces: Seq<Seq<char>>) -> Seq<PartView>
    decreases pieces.len(),
{
    if pieces.len() == 0 {
        Seq::empty()
    } else {
        let rest = piece_parts(pieces.drop_last());
        let p = pieces.last();
        if p.len() == 0 || p == seq!['.'] {
            rest
        } else if p == seq!['.', '.'] {
            rest.push(PartView::ParentDir)
        } else {
            rest.push(PartView::Normal(p))
        }
    }
}

/// The components of the Unix path `s`: the root directory where `s` starts
/// with `/`; `.` where a relative path starts with `.` as a whole piece; then
/// one component for each piece that is neither empty nor `.`.
pub open spec fn unix_components(s: Seq<char>) -> Seq<PartView> {
    let rooted = s.len() > 0 && s[0] == '/';
    let dotted = !rooted && s.len() > 0 && s[0] == '.' && (s.len() == 1 || s[1] == '/');
    let head = if rooted {
        seq![PartView::RootDir]
    } else if dotted {
        seq![PartView::CurDir]
    } else {
        Seq::empty()
    };
    head + piece_parts(slash_pieces(s))
}

/// Splits `path` into its components with `std::path::Path::components`.
/// Its contract claims what the standard library documents for Unix paths:
/// repeated separators and `.` are dropped except a leading `.`, a trailing
/// separator is dropped, a leading `/` is the root directory, `..` is the
/// parent directory and any other piece is a name.
#[verifier::external_body]
pub(crate) fn path_components(path: &str) -> (parts: Vec<PathPart>)
    ensures
        parts_view(parts@) == unix_components(path@),
{
    std::path::Path::new(path).components().map(|c| match c {
        std::path::Component::Prefix(p) => PathPart::Prefix(p.as_os_str().to_string_lossy().into_owned()),
        std::path::Component::RootDir => PathPart::RootDir,
        std::path::Component::CurDir => PathPart::CurDir,
        std::path::Component::ParentDir => PathPart::ParentDir,
        std::path::Component::Normal(n) => PathPart::Normal(n.to_string_lossy().into_owned()),
    }).collect()
}

/// The components `base` start the components `path`, whole components
/// only.
pub open spec fn starts_with_components(path: Seq<PartView>, base: Seq<PartView>) -> bool {
    base.len() <= path.len() && path.subrange(0, base.len() as int) == base
}

/// The text of the Unix path `path` once the leading components of `root`
/// are taken off, as `std::path::Path::strip_prefix` gives it.
pub uninterp spec fn stripped_text(path: Seq<char>, root: Seq<char>) -> Seq<char>;

/// Calls `std::path::Path::strip_prefix` and takes the remaining path as
/// text. Its contract claims what the standard library documents: the
/// result is there exactly where the components of `root` start those of
/// `path` (whole components only); its text is a function of the two paths.
#[verifier::external_body]
pub(crate) fn strip_root(path: &str, root: &str) -> (r: Option<String>)
    ensures
        r is Some <==> starts_with_components(unix_components(path@), unix_components(root@)),
        r matches Some(t) ==> t@ == stripped_text(path@, root@),
{
    std::path::Path::new(path).strip_prefix(root).ok().map(|p| p.to_string_lossy().into_owned())
}

/// Whether two components are the same.
pub fn same_part(a: &PathPart, b: &PathPart) -> (r: bool)
    ensures
        r == (a@ == b@),
{
    match (a, b) {
        (PathPart::Prefix(x), PathPart::Prefix(y)) => x.eq(y),
        (PathPart::RootDir, PathPart::RootDir) => true,
        (PathPart::CurDir, PathPart::CurDir) => true,
        (PathPart::ParentDir, PathPart::ParentDir) => true,
        (PathPart::Normal(x), PathPart::Normal(y)) => x.eq(y),
        _ => false,
    }
}

impl Clone for PathPart {
    fn clone(&self) -> (r: Self)
        ensures
            r@ == self@,
    {
        match self {
            PathPart::Prefix(s) => PathPart::Prefix(s.clone()),
            PathPart::RootDir => PathPart::RootDir,
            PathPart::CurDir => PathPart::CurDir,
            PathPart::ParentDir => PathPart::ParentDir,
            PathPart::Normal(s) => PathPart::Normal(s.clone()),
        }
    }
}

} // verus!
