//! The client's picture of a project's files: a tree of named nodes, built
//! from the files that the server sends, parents before children.

use vstd::prelude::*;
use vstd::string::*;
use crate::path::{
    PathPart, PartView, parts_view, path_components, same_part, unix_components, strip_root,
    stripped_text,
};
use crate::build_law::{simple_entry, placed_at, placed_map};

verus! {

/// Why a file could not be placed in the tree, or queued.
#[derive(Clone, Copy, Debug, PartialEq, Eq, Structural)]
pub enum Refusal {
    /// Files can no longer be queued once the tree is built.
    QueueClosed,
    /// An absolute path lies outside the project's root directory.
    OutsideRoot,
    /// A path directly under the root is already in the tree.
    AlreadyExists,
    /// A directory on the way to the file is not in the tree.
    ParentMissing,
    /// A directory on the way to the file is not named by a plain name.
    NotNormal,
}

/// The error that a tree operation reports: why it was refused, and for a
/// missing directory, the file's path (taken relative to the root).
#[derive(Clone, Debug, PartialEq, Eq)]
pub enum TreeError {
    QueueClosed,
    OutsideRoot,
    AlreadyExists,
    ParentMissing(String),
    NotNormal,
}

/// A tree error as a mathematical value.
pub enum TreeErrorView {
    QueueClosed,
    OutsideRoot,
    AlreadyExists,
    ParentMissing(Seq<char>),
    NotNormal,
}

impl View for TreeError {
    type V = TreeErrorView;

    open spec fn view(&self) -> TreeErrorView {
        match self {
            TreeError::QueueClosed => TreeErrorView::QueueClosed,
            TreeError::OutsideRoot => TreeErrorView::OutsideRoot,
            TreeError::AlreadyExists => TreeErrorView::AlreadyExists,
            TreeError::ParentMissing(p) => TreeErrorView::ParentMissing(p@),
            TreeError::NotNormal => TreeErrorView::NotNormal,
        }
    }
}

/// The error reporting refusal `k` of the file shown as `shown`.
pub open spec fn error_view(k: Refusal, shown: Seq<char>) -> TreeErrorView {
    match k {
        Refusal::QueueClosed => TreeErrorView::QueueClosed,
        Refusal::OutsideRoot => TreeErrorView::OutsideRoot,
        Refusal::AlreadyExists => TreeErrorView::AlreadyExists,
        Refusal::ParentMissing => TreeErrorView::ParentMissing(shown),
        Refusal::NotNormal => TreeErrorView::NotNormal,
    }
}

/// The text that reports a tree error to the user.
pub open spec fn tree_error_text(e: TreeErrorView) -> Seq<char> {
    match e {
        TreeErrorView::QueueClosed => "Cannot queue files after the file tree has been built"@,
        TreeErrorView::OutsideRoot => "prefix not found"@,
        TreeErrorView::AlreadyExists => "This path already exists in the file tree"@,
        TreeErrorView::ParentMissing(p) => "Parent directory of file "@ + p
            + " doesn't exist in the file tree"@,
        TreeErrorView::NotNormal => "File's path component was not normal"@,
    }
}

impl TreeError {
    /// The text that reports this error to the user.
    pub fn message(&self) -> (m: String)
        ensures
            m@ == tree_error_text(self@),
    {
        match self {
            TreeError::QueueClosed => String::from_str("Cannot queue files after the file tree has been built"),
            TreeError::OutsideRoot => String::from_str("prefix not found"),
            TreeError::AlreadyExists => String::from_str("This path already exists in the file tree"),
            TreeError::ParentMissing(p) => {
                let mut m = String::from_str("Parent directory of file ");
                m.append(p.as_str());
                m.append(" doesn't exist in the file tree");
                m
            },
            TreeError::NotNormal => String::from_str("File's path component was not normal"),
        }
    }
}

/// A file or directory in the tree: its id, its name, its path from the
/// project root as a list of names, and the nodes directly under it.
#[derive(Debug)]
pub struct FileTreeNode {
    pub id: u128,
    pub name: String,
    pub path: Vec<String>,
    pub children: Vec<FileTreeNode>,
}

/// A path in the tree: the names from the root down.
pub type TreePath = Seq<Seq<char>>;

/// The views of a list of names.
pub open spec fn names(s: Seq<String>) -> TreePath {
    s.map_values(|x: String| x@)
}

/// No two of `nodes` share a name.
pub open spec fn unique_names(nodes: Seq<FileTreeNode>) -> bool {
    forall|i: int, j: int|
        0 <= i < nodes.len() && 0 <= j < nodes.len() && i != j ==> nodes[i].name@ != nodes[j].name@
}

/// Some node of `nodes` is named `n`.
pub open spec fn has_child(nodes: Seq<FileTreeNode>, n: Seq<char>) -> bool {
    exists|i: int| 0 <= i < nodes.len() && nodes[i].name@ == n
}

/// The position of a node of `nodes` named `n`.
pub open spec fn child_index(nodes: Seq<FileTreeNode>, n: Seq<char>) -> int {
    choose|i: int| 0 <= i < nodes.len() && nodes[i].name@ == n
}

/// The id of the node at path `p` below `nodes`, if there is one.
pub open spec fn lookup(nodes: Seq<FileTreeNode>, p: TreePath) -> Option<u128>
    decreases p.len(),
{
    if p.len() == 0 || !has_child(nodes, p[0]) {
        None
    } else {
        let c = nodes[child_index(nodes, p[0])];
        if p.len() == 1 {
            Some(c.id)
        } else {
            lookup(c.children@, p.drop_first())
        }
    }
}

/// The nodes below `nodes`, as a map from their paths to their ids.
pub open spec fn forest(nodes: Seq<FileTreeNode>) -> Map<TreePath, u128> {
    Map::new(|p: TreePath| lookup(nodes, p) is Some, |p: TreePath| lookup(nodes, p).unwrap())
}

/// A node is well formed below the directory at `prefix`: its path is
/// `prefix` and its name, its children have distinct names, and each of them
/// is well formed below it.
pub open spec fn node_wf(n: FileTreeNode, prefix: TreePath) -> bool
    decreases n,
{
    let here = prefix.push(n.name@);
    &&& names(n.path@) == here
    &&& unique_names(n.children@)
    &&& forall|i: int| 0 <= i < n.children@.len() ==> node_wf(#[trigger] n.children@[i], here)
}

/// The nodes directly below the directory at `prefix` are well formed.
pub open spec fn forest_wf(nodes: Seq<FileTreeNode>, prefix: TreePath) -> bool {
    &&& unique_names(nodes)
    &&& forall|i: int| 0 <= i < nodes.len() ==> node_wf(#[trigger] nodes[i], prefix)
}

/// The part of `m` below the top-level name `n`, with paths taken from below it.
pub open spec fn below(m: Map<TreePath, u128>, n: Seq<char>) -> Map<TreePath, u128> {
    Map::new(
        |q: TreePath| q.len() > 0 && m.contains_key(seq![n] + q),
        |q: TreePath| m[seq![n] + q],
    )
}

/// The name of a component, or nothing where it is not a name.
pub open spec fn part_name(p: PartView) -> Seq<char> {
    match p {
        PartView::Normal(n) => n,
        _ => Seq::empty(),
    }
}

/// The names of a list of components.
pub open spec fn part_names(q: Seq<PartView>) -> TreePath {
    q.map_values(|p: PartView| part_name(p))
}

/// Walking the directories `rest` down from the top of `m`: nothing where each
/// is a name found in turn, or the error that stops the walk.
pub open spec fn descend(m: Map<TreePath, u128>, rest: Seq<PartView>) -> Option<Refusal>
    decreases rest.len(),
{
    if rest.len() == 0 {
        None
    } else {
        match rest[0] {
            PartView::Normal(n) => if m.contains_key(seq![n]) {
                descend(below(m, n), rest.drop_first())
            } else {
                Some(Refusal::ParentMissing)
            },
            _ => Some(Refusal::NotNormal),
        }
    }
}

/// `p` is `q` or a directory above it.
pub open spec fn is_prefix_of(p: TreePath, q: TreePath) -> bool {
    p.len() <= q.len() && q.subrange(0, p.len() as int) == p
}

/// `m` with a fresh node `id` at `p`: whatever stood at or below `p` is gone.
pub open spec fn replace_subtree(m: Map<TreePath, u128>, p: TreePath, id: u128) -> Map<TreePath, u128> {
    Map::new(
        |q: TreePath| q == p || (m.contains_key(q) && !is_prefix_of(p, q)),
        |q: TreePath| if q == p { id } else { m[q] },
    )
}

/// The components of a file's path relative to the root, or nothing where
/// an absolute path does not lie under the root.
pub open spec fn relative_parts(root: Seq<PartView>, path: Seq<PartView>) -> Option<Seq<PartView>> {
    if path.len() > 0 && path[0] == PartView::RootDir {
        if root.len() <= path.len() && path.subrange(0, root.len() as int) == root {
            Some(path.skip(root.len() as int))
        } else {
            None
        }
    } else {
        Some(path)
    }
}

/// What placing one file does to the tree.
pub enum Placement {
    /// The file is placed; the tree becomes the map.
    Added(Map<TreePath, u128>),
    /// The file is refused for the reason given; the tree stays as it was.
    Failed(Refusal),
    /// The path has no parent directory, or no name to place; such a file
    /// cannot be placed at all.
    Malformed,
}

/// The last component of a path that has a parent: not the root, not a prefix.
pub open spec fn has_parent(last: PartView) -> bool {
    !(last is RootDir) && !(last is Prefix)
}

/// What placing file `id`, whose path has the components `path`, does to the
/// tree `m` of a project rooted at `root`.
///
/// The path is taken relative to the root. A file directly under the root is
/// refused where its name is taken. A deeper file needs each directory above
/// it in the tree, named by a plain name; it then replaces whatever stood at
/// its path, with all below it.
pub open spec fn placement(m: Map<TreePath, u128>, root: Seq<PartView>, id: u128, path: Seq<PartView>) -> Placement {
    match relative_parts(root, path) {
        None => Placement::Failed(Refusal::OutsideRoot),
        Some(p) => if p.len() == 0 || !has_parent(p.last()) {
            Placement::Malformed
        } else {
            let dirs = p.drop_last();
            let leaf = p.last();
            if dirs.len() == 0 {
                if !(leaf is Normal) {
                    Placement::Malformed
                } else if m.contains_key(seq![part_name(leaf)]) {
                    Placement::Failed(Refusal::AlreadyExists)
                } else {
                    Placement::Added(m.insert(seq![part_name(leaf)], id))
                }
            } else {
                match descend(m, dirs) {
                    Some(e) => Placement::Failed(e),
                    None => if leaf is Normal {
                        Placement::Added(replace_subtree(m, part_names(dirs).push(part_name(leaf)), id))
                    } else {
                        Placement::Malformed
                    },
                }
            }
        },
    }
}

// ---------------------------------------------------------------------------
// Lemmas on the forest of nodes

proof fn lemma_child_index(nodes: Seq<FileTreeNode>, i: int)
    requires
        unique_names(nodes),
        0 <= i < nodes.len(),
    ensures
        has_child(nodes, nodes[i].name@),
        child_index(nodes, nodes[i].name@) == i,
{
    assert(nodes[i].name@ == nodes[i].name@);
}

/// How a lookup goes where the top-level node named like `c` is `c`.
pub open spec fn lookup_with(nodes: Seq<FileTreeNode>, c: FileTreeNode, p: TreePath) -> Option<u128> {
    if p.len() > 0 && p[0] == c.name@ {
        if p.len() == 1 {
            Some(c.id)
        } else {
            lookup(c.children@, p.drop_first())
        }
    } else {
        lookup(nodes, p)
    }
}

proof fn lemma_lookup_at(nodes: Seq<FileTreeNode>, i: int, p: TreePath)
    requires
        unique_names(nodes),
        0 <= i < nodes.len(),
    ensures
        lookup(nodes, p) == lookup_with(nodes, nodes[i], p),
{
    lemma_child_index(nodes, i);
}

proof fn lemma_lookup_update(nodes: Seq<FileTreeNode>, i: int, c: FileTreeNode)
    requires
        unique_names(nodes),
        0 <= i < nodes.len(),
        c.name@ == nodes[i].name@,
    ensures
        unique_names(nodes.update(i, c)),
        forall|p: TreePath| #[trigger] lookup(nodes.update(i, c), p) == lookup_with(nodes, c, p),
{
    let n2 = nodes.update(i, c);
    assert(unique_names(n2)) by {
        assert forall|a: int, b: int| 0 <= a < n2.len() && 0 <= b < n2.len() && a != b implies n2[a].name@
            != n2[b].name@ by {
            assert(n2[a].name@ == nodes[a].name@);
            assert(n2[b].name@ == nodes[b].name@);
        }
    }
    assert forall|p: TreePath| #[trigger] lookup(n2, p) == lookup_with(nodes, c, p) by {
        lemma_lookup_at(n2, i, p);
        lemma_lookup_at(nodes, i, p);
        if p.len() > 0 && p[0] != c.name@ && has_child(n2, p[0]) {
            let k = child_index(n2, p[0]);
            assert(k != i);
            assert(nodes[k] == n2[k]);
            lemma_child_index(nodes, k);
        }
        if p.len() > 0 && p[0] != c.name@ && has_child(nodes, p[0]) {
            let k = child_index(nodes, p[0]);
            assert(k != i);
            assert(nodes[k] == n2[k]);
            lemma_child_index(n2, k);
        }
    }
}

proof fn lemma_lookup_push(nodes: Seq<FileTreeNode>, c: FileTreeNode)
    requires
        unique_names(nodes),
        !has_child(nodes, c.name@),
    ensures
        unique_names(nodes.push(c)),
        forall|p: TreePath| #[trigger] lookup(nodes.push(c), p) == lookup_with(nodes, c, p),
{
    let n2 = nodes.push(c);
    let i = nodes.len() as int;
    assert(unique_names(n2)) by {
        assert forall|a: int, b: int| 0 <= a < n2.len() && 0 <= b < n2.len() && a != b implies n2[a].name@
            != n2[b].name@ by {
            if a < i && b < i {
                assert(n2[a] == nodes[a] && n2[b] == nodes[b]);
            } else if a < i {
                assert(n2[a] == nodes[a]);
            } else {
                assert(n2[b] == nodes[b]);
            }
        }
    }
    assert forall|p: TreePath| #[trigger] lookup(n2, p) == lookup_with(nodes, c, p) by {
        lemma_lookup_at(n2, i, p);
        if p.len() > 0 && p[0] != c.name@ && has_child(n2, p[0]) {
            let k = child_index(n2, p[0]);
            assert(k != i);
            assert(nodes[k] == n2[k]);
            lemma_child_index(nodes, k);
        }
        if p.len() > 0 && p[0] != c.name@ && has_child(nodes, p[0]) {
            let k = child_index(nodes, p[0]);
            assert(nodes[k] == n2[k]);
            lemma_child_index(n2, k);
        }
    }
}

proof fn lemma_cons_parts(n: Seq<char>, p: TreePath, q: TreePath)
    requires
        q.len() > 0,
        q[0] == n,
    ensures
        (q == seq![n] + p) <==> (q.drop_first() == p),
        is_prefix_of(seq![n] + p, q) <==> is_prefix_of(p, q.drop_first()),
        q == seq![n] + q.drop_first(),
{
    assert(q =~= seq![n] + q.drop_first());
    if q.drop_first() == p {
        assert(q =~= seq![n] + p);
    }
    if q == seq![n] + p {
        assert(q.drop_first() =~= p);
    }
    let np = seq![n] + p;
    if is_prefix_of(np, q) {
        assert(q.drop_first().subrange(0, p.len() as int) =~= q.subrange(0, np.len() as int).drop_first());
        assert(np.drop_first() =~= p);
    }
    if is_prefix_of(p, q.drop_first()) {
        assert(q.subrange(0, np.len() as int) =~= seq![n] + q.drop_first().subrange(0, p.len() as int));
    }
}

/// Stepping into the top-level node named `n`.
proof fn lemma_below_child(nodes: Seq<FileTreeNode>, i: int)
    requires
        unique_names(nodes),
        0 <= i < nodes.len(),
    ensures
        forest(nodes).contains_key(seq![nodes[i].name@]),
        forest(nodes)[seq![nodes[i].name@]] == nodes[i].id,
        below(forest(nodes), nodes[i].name@) == forest(nodes[i].children@),
{
    let n = nodes[i].name@;
    lemma_lookup_at(nodes, i, seq![n]);
    assert forall|q: TreePath| #[trigger] below(forest(nodes), n).contains_key(q) <==> forest(
        nodes[i].children@,
    ).contains_key(q) by {
        lemma_lookup_at(nodes, i, seq![n] + q);
        if q.len() > 0 {
            assert((seq![n] + q).drop_first() =~= q);
        } else {
            assert(lookup(nodes[i].children@, q) is None);
        }
    }
    assert forall|q: TreePath| #[trigger] below(forest(nodes), n).contains_key(q) implies below(
        forest(nodes),
        n,
    )[q] == forest(nodes[i].children@)[q] by {
        lemma_lookup_at(nodes, i, seq![n] + q);
        assert((seq![n] + q).drop_first() =~= q);
    }
    assert(below(forest(nodes), n) =~= forest(nodes[i].children@));
}

/// No top-level path starts with a name that no node carries.
proof fn lemma_no_child(nodes: Seq<FileTreeNode>, n: Seq<char>, q: TreePath)
    requires
        !has_child(nodes, n),
        q.len() > 0,
        q[0] == n,
    ensures
        !forest(nodes).contains_key(q),
{
}

/// Replacing a top-level node by one whose children carry the change.
proof fn lemma_update_below(nodes: Seq<FileTreeNode>, i: int, c: FileTreeNode, p: TreePath, id: u128)
    requires
        unique_names(nodes),
        0 <= i < nodes.len(),
        c.name@ == nodes[i].name@,
        c.id == nodes[i].id,
        p.len() > 0,
        forest(c.children@) == replace_subtree(forest(nodes[i].children@), p, id),
    ensures
        unique_names(nodes.update(i, c)),
        forest(nodes.update(i, c)) == replace_subtree(forest(nodes), seq![c.name@] + p, id),
{
    let n = c.name@;
    let n2 = nodes.update(i, c);
    let old_m = forest(nodes);
    let np = seq![n] + p;
    let r = replace_subtree(old_m, np, id);
    let inner_old = forest(nodes[i].children@);
    let inner_new = forest(c.children@);
    lemma_lookup_update(nodes, i, c);
    assert(np[0] == n);
    assert forall|q: TreePath| #[trigger] forest(n2).contains_key(q) == r.contains_key(q) && (
    forest(n2).contains_key(q) ==> forest(n2)[q] == r[q]) by {
        lemma_lookup_at(nodes, i, q);
        assert(lookup(n2, q) == lookup_with(nodes, c, q));
        if q.len() > 0 && q[0] == n {
            lemma_cons_parts(n, p, q);
            if q.len() == 1 {
                assert(q != np);
                assert(!is_prefix_of(np, q));
                assert(old_m.contains_key(q));
            } else {
                let qd = q.drop_first();
                assert(lookup(n2, q) == lookup(c.children@, qd));
                assert(lookup(nodes, q) == lookup(nodes[i].children@, qd));
                assert(inner_new.contains_key(qd) == (qd == p || (inner_old.contains_key(qd)
                    && !is_prefix_of(p, qd))));
                if inner_new.contains_key(qd) {
                    assert(inner_new[qd] == (if qd == p { id } else { inner_old[qd] }));
                }
            }
        } else {
            assert(q != np);
            if q.len() >= np.len() {
                assert(q.subrange(0, np.len() as int)[0] == q[0]);
            }
            assert(!is_prefix_of(np, q));
        }
    }
    assert(forest(n2) =~= r);
}

/// Replacing a top-level node by one with the same name, id and tree below.
proof fn lemma_update_same(nodes: Seq<FileTreeNode>, i: int, c: FileTreeNode)
    requires
        unique_names(nodes),
        0 <= i < nodes.len(),
        c.name@ == nodes[i].name@,
        c.id == nodes[i].id,
        forest(c.children@) == forest(nodes[i].children@),
    ensures
        unique_names(nodes.update(i, c)),
        forest(nodes.update(i, c)) == forest(nodes),
{
    let n2 = nodes.update(i, c);
    let inner_old = forest(nodes[i].children@);
    let inner_new = forest(c.children@);
    lemma_lookup_update(nodes, i, c);
    assert forall|q: TreePath| #[trigger] lookup(n2, q) == lookup(nodes, q) by {
        lemma_lookup_at(nodes, i, q);
        assert(lookup(n2, q) == lookup_with(nodes, c, q));
        if q.len() > 1 && q[0] == c.name@ {
            let qd = q.drop_first();
            assert(inner_new.contains_key(qd) == inner_old.contains_key(qd));
            if inner_new.contains_key(qd) {
                assert(inner_new[qd] == inner_old[qd]);
                assert(lookup(c.children@, qd) == Some(inner_new[qd]));
                assert(lookup(nodes[i].children@, qd) == Some(inner_old[qd]));
            } else {
                assert(lookup(c.children@, qd) is None);
                assert(lookup(nodes[i].children@, qd) is None);
            }
            assert(lookup(n2, q) == lookup(c.children@, qd));
            assert(lookup(nodes, q) == lookup(nodes[i].children@, qd));
        }
    }
    assert(forest(n2) =~= forest(nodes));
}

/// A fresh leaf named `n` put at the top, in place of any node of that name.
proof fn lemma_put_leaf(nodes: Seq<FileTreeNode>, n2: Seq<FileTreeNode>, c: FileTreeNode)
    requires
        unique_names(nodes),
        c.children@.len() == 0,
        ({
            ||| (has_child(nodes, c.name@) && n2 == nodes.update(child_index(nodes, c.name@), c))
            ||| (!has_child(nodes, c.name@) && n2 == nodes.push(c))
        }),
    ensures
        unique_names(n2),
        forest(n2) == replace_subtree(forest(nodes), seq![c.name@], c.id),
        !has_child(nodes, c.name@) ==> forest(n2) == forest(nodes).insert(seq![c.name@], c.id),
{
    let n = c.name@;
    let r = replace_subtree(forest(nodes), seq![n], c.id);
    if has_child(nodes, n) {
        let i = child_index(nodes, n);
        lemma_lookup_update(nodes, i, c);
    } else {
        lemma_lookup_push(nodes, c);
    }
    assert forall|q: TreePath| #[trigger] forest(n2).contains_key(q) <==> r.contains_key(q) by {
        if q.len() > 0 && q[0] == n {
            lemma_cons_parts(n, Seq::empty(), q);
            assert(seq![n] + Seq::<Seq<char>>::empty() =~= seq![n]);
            if q.len() == 1 {
                assert(q =~= seq![n]);
            } else {
                assert(lookup(c.children@, q.drop_first()) is None);
                assert(q.subrange(0, 1) =~= seq![n]);
            }
        } else if q.len() > 0 {
            assert(q != seq![n]);
            assert(q.subrange(0, 1)[0] == q[0]);
        } else {
            assert(q != seq![n]);
        }
    }
    assert forall|q: TreePath| #[trigger] forest(n2).contains_key(q) implies forest(n2)[q] == r[q] by {
        if q.len() > 0 && q[0] == n && q.len() == 1 {
            assert(q =~= seq![n]);
        } else {
            assert(q != seq![n]);
        }
    }
    assert(forest(n2) =~= r);
    if !has_child(nodes, n) {
        assert forall|q: TreePath| #[trigger] forest(nodes).contains_key(q) implies !is_prefix_of(seq![n], q) by {
            if q.len() > 0 && q[0] == n {
                lemma_no_child(nodes, n, q);
            }
            if is_prefix_of(seq![n], q) {
                assert(q.subrange(0, 1)[0] == q[0]);
            }
        }
        assert(forest(n2) =~= forest(nodes).insert(seq![n], c.id));
    }
}

// ---------------------------------------------------------------------------
// Placing one file

/// How placing one file went.
pub enum Step {
    Added,
    Failed(Refusal),
    Malformed,
}

/// `step` reports `outcome`, and the tree went from `before` to `after` as it says.
pub open spec fn step_matches(
    outcome: Placement,
    step: Step,
    before: Map<TreePath, u128>,
    after: Map<TreePath, u128>,
) -> bool {
    match outcome {
        Placement::Added(m) => step is Added && after == m,
        Placement::Failed(e) => step == Step::Failed(e) && after == before,
        Placement::Malformed => step is Malformed && after == before,
    }
}

/// What placing a file below the directories `rest` does to the tree `m`
/// found where the walk starts.
pub open spec fn placement_below(m: Map<TreePath, u128>, rest: Seq<PartView>, leaf: PartView, id: u128) -> Placement {
    match descend(m, rest) {
        Some(e) => Placement::Failed(e),
        None => if leaf is Normal {
            Placement::Added(replace_subtree(m, part_names(rest).push(part_name(leaf)), id))
        } else {
            Placement::Malformed
        },
    }
}

/// The position of the node named `name` among `nodes`, if any.
fn find_child(nodes: &Vec<FileTreeNode>, name: &String) -> (r: Option<usize>)
    requires
        unique_names(nodes@),
    ensures
        match r {
            Some(i) => i < nodes.len() && nodes@[i as int].name@ == name@ && child_index(nodes@, name@) == i,
            None => !has_child(nodes@, name@),
        },
{
    let mut i: usize = 0;
    while i < nodes.len()
        invariant
            i <= nodes.len(),
            unique_names(nodes@),
            forall|k: int| 0 <= k < i ==> nodes@[k].name@ != name@,
        decreases nodes.len() - i,
    {
        if nodes[i].name.eq(name) {
            proof {
                lemma_child_index(nodes@, i as int);
            }
            return Some(i);
        }
        i = i + 1;
    }
    None
}

proof fn lemma_part_names_push(pv: Seq<PartView>, a: int, b: int)
    requires
        0 <= a <= b < pv.len(),
    ensures
        part_names(pv.subrange(a, b + 1)) == part_names(pv.subrange(a, b)).push(part_name(pv[b])),
        part_names(pv.subrange(a, a)) == Seq::<Seq<char>>::empty(),
{
    assert(part_names(pv.subrange(a, b + 1)) =~= part_names(pv.subrange(a, b)).push(part_name(pv[b])));
    assert(part_names(pv.subrange(a, a)) =~= Seq::<Seq<char>>::empty());
}

/// The names of the components `parts[start..end]`.
fn names_of(parts: &Vec<PathPart>, start: usize, end: usize) -> (r: Vec<String>)
    requires
        start <= end <= parts.len(),
    ensures
        names(r@) == part_names(parts_view(parts@).subrange(start as int, end as int)),
{
    let ghost pv = parts_view(parts@);
    let mut r: Vec<String> = Vec::new();
    let mut k: usize = start;
    proof {
        assert(part_names(pv.subrange(start as int, start as int)) =~= Seq::<Seq<char>>::empty());
        assert(names(r@) =~= Seq::<Seq<char>>::empty());
    }
    while k < end
        invariant
            start <= k <= end <= parts.len(),
            pv == parts_view(parts@),
            names(r@) == part_names(pv.subrange(start as int, k as int)),
        decreases end - k,
    {
        let n = match &parts[k] {
            PathPart::Normal(s) => s.clone(),
            _ => String::new(),
        };
        proof {
            lemma_part_names_push(pv, start as int, k as int);
        }
        r.push(n);
        assert(names(r@) =~= part_names(pv.subrange(start as int, k as int)).push(n@));
        k = k + 1;
    }
    r
}

/// Places file `id` below `nodes`, the nodes under the directory reached by
/// the names `parts[start..depth]`: walks the directories `parts[depth..end]`
/// and puts a fresh leaf named `parts[end]` there.
pub fn place(
    nodes: &mut Vec<FileTreeNode>,
    parts: &Vec<PathPart>,
    start: usize,
    depth: usize,
    end: usize,
    id: u128,
) -> (s: Step)
    requires
        start <= depth <= end < parts.len(),
        forest_wf(old(nodes)@, part_names(parts_view(parts@).subrange(start as int, depth as int))),
    ensures
        forest_wf(final(nodes)@, part_names(parts_view(parts@).subrange(start as int, depth as int))),
        step_matches(
            placement_below(
                forest(old(nodes)@),
                parts_view(parts@).subrange(depth as int, end as int),
                parts_view(parts@)[end as int],
                id,
            ),
            s,
            forest(old(nodes)@),
            forest(final(nodes)@),
        ),
    decreases end - depth,
{
    let ghost pv = parts_view(parts@);
    let ghost prefix = part_names(pv.subrange(start as int, depth as int));
    let ghost m = forest(nodes@);
    let ghost rest = pv.subrange(depth as int, end as int);
    if depth == end {
        assert(rest =~= Seq::<PartView>::empty());
        assert(part_names(rest) =~= Seq::<Seq<char>>::empty());
        match &parts[end] {
            PathPart::Normal(name) => {
                let mut path = names_of(parts, start, end);
                path.push(name.clone());
                assert(names(path@) =~= prefix.push(name@));
                let c = FileTreeNode { id, name: name.clone(), path, children: Vec::new() };
                assert(c.children@ =~= Seq::<FileTreeNode>::empty());
                let ghost before = nodes@;
                match find_child(nodes, name) {
                    Some(i) => {
                        nodes.set(i, c);
                    },
                    None => {
                        nodes.push(c);
                    },
                }
                proof {
                    lemma_put_leaf(before, nodes@, c);
                    assert(seq![part_name(pv[end as int])] =~= part_names(rest).push(part_name(pv[end as int])));
                    assert forall|k: int| 0 <= k < nodes@.len() implies node_wf(#[trigger] nodes@[k], prefix) by {
                        if k < before.len() && nodes@[k] != c {
                            assert(nodes@[k] == before[k]);
                        }
                    }
                }
                Step::Added
            },
            _ => Step::Malformed,
        }
    } else {
        match &parts[depth] {
            PathPart::Normal(name) => {
                proof {
                    assert(rest[0] == pv[depth as int]);
                }
                match find_child(nodes, name) {
                    None => {
                        proof {
                            lemma_no_child(nodes@, name@, seq![name@]);
                        }
                        Step::Failed(Refusal::ParentMissing)
                    },
                    Some(i) => {
                        let ghost before = nodes@;
                        proof {
                            lemma_below_child(before, i as int);
                            lemma_part_names_push(pv, start as int, depth as int);
                            assert(rest.drop_first() =~= pv.subrange(depth + 1, end as int));
                            assert(node_wf(before[i as int], prefix));
                        }
                        let mut child = nodes.remove(i);
                        let s = place(&mut child.children, parts, start, depth + 1, end, id);
                        nodes.insert(i, child);
                        proof {
                            assert(nodes@ =~= before.update(i as int, child));
                            let here = prefix.push(name@);
                            assert(node_wf(child, prefix));
                            let rest2 = pv.subrange(depth + 1, end as int);
                            let leaf = pv[end as int];
                            match s {
                                Step::Added => {
                                    let p2 = part_names(rest2).push(part_name(leaf));
                                    lemma_update_below(before, i as int, child, p2, id);
                                    assert(seq![name@] + p2 =~= part_names(rest).push(part_name(leaf)));
                                },
                                _ => {
                                    lemma_update_same(before, i as int, child);
                                },
                            }
                            assert forall|k: int| 0 <= k < nodes@.len() implies node_wf(#[trigger] nodes@[k], prefix) by {
                                if k != i {
                                    assert(nodes@[k] == before[k]);
                                }
                            }
                        }
                        s
                    },
                }
            },
            _ => {
                proof {
                    assert(rest[0] == pv[depth as int]);
                }
                Step::Failed(Refusal::NotNormal)
            },
        }
    }
}

/// Whether the components `parts` start with the components `root`.
fn starts_with_parts(parts: &Vec<PathPart>, root: &Vec<PathPart>) -> (r: bool)
    ensures
        r == (root.len() <= parts.len() && parts_view(parts@).subrange(0, root.len() as int)
            == parts_view(root@)),
{
    let ghost pv = parts_view(parts@);
    let ghost rv = parts_view(root@);
    if root.len() > parts.len() {
        return false;
    }
    let mut k: usize = 0;
    while k < root.len()
        invariant
            k <= root.len() <= parts.len(),
            pv == parts_view(parts@),
            rv == parts_view(root@),
            forall|j: int| 0 <= j < k ==> pv[j] == rv[j],
        decreases root.len() - k,
    {
        if !same_part(&parts[k], &root[k]) {
            assert(pv.subrange(0, root.len() as int)[k as int] == pv[k as int]);
            return false;
        }
        k = k + 1;
    }
    assert(pv.subrange(0, root.len() as int) =~= rv);
    true
}

/// Places file `id`, whose path has the components `parts`, in the tree
/// `nodes` of a project rooted at the components `root`.
pub fn place_file(nodes: &mut Vec<FileTreeNode>, root: &Vec<PathPart>, id: u128, parts: &Vec<PathPart>) -> (s: Step)
    requires
        forest_wf(old(nodes)@, Seq::empty()),
    ensures
        forest_wf(final(nodes)@, Seq::empty()),
        step_matches(
            placement(forest(old(nodes)@), parts_view(root@), id, parts_view(parts@)),
            s,
            forest(old(nodes)@),
            forest(final(nodes)@),
        ),
{
    let ghost pv = parts_view(parts@);
    let ghost rv = parts_view(root@);
    let n = parts.len();
    let mut start: usize = 0;
    let rooted = n > 0 && match &parts[0] {
        PathPart::RootDir => true,
        _ => false,
    };
    if rooted {
        if !starts_with_parts(parts, root) {
            return Step::Failed(Refusal::OutsideRoot);
        }
        start = root.len();
    }
    let ghost p = pv.subrange(start as int, n as int);
    assert(relative_parts(rv, pv) == Some(p)) by {
        if !rooted {
            assert(p =~= pv);
        }
    }
    if start == n {
        return Step::Malformed;
    }
    assert(p.last() == pv[n - 1]);
    assert(p.drop_last() =~= pv.subrange(start as int, n - 1));
    match &parts[n - 1] {
        PathPart::RootDir => {
            return Step::Malformed;
        },
        PathPart::Prefix(_) => {
            return Step::Malformed;
        },
        _ => {},
    }
    if start == n - 1 {
        match &parts[n - 1] {
            PathPart::Normal(name) => {
                if find_child(nodes, name).is_some() {
                    proof {
                        let i = child_index(nodes@, name@);
                        lemma_below_child(nodes@, i);
                    }
                    return Step::Failed(Refusal::AlreadyExists);
                }
                let mut path: Vec<String> = Vec::new();
                path.push(name.clone());
                let c = FileTreeNode { id, name: name.clone(), path, children: Vec::new() };
                assert(c.children@ =~= Seq::<FileTreeNode>::empty());
                let ghost before = nodes@;
                nodes.push(c);
                proof {
                    lemma_put_leaf(before, nodes@, c);
                    assert(names(c.path@) =~= Seq::<Seq<char>>::empty().push(name@));
                    assert forall|k: int| 0 <= k < nodes@.len() implies node_wf(#[trigger] nodes@[k], Seq::empty()) by {
                        if k < before.len() {
                            assert(nodes@[k] == before[k]);
                        }
                    }
                }
                Step::Added
            },
            _ => Step::Malformed,
        }
    } else {
        proof {
            lemma_part_names_push(pv, start as int, start as int);
        }
        place(nodes, parts, start, start, n - 1, id)
    }
}

// ---------------------------------------------------------------------------
// The queue of files and the order they are placed in

/// A file waiting to be placed: its id, the components of its path, and
/// its path as it was given.
#[derive(Debug)]
pub struct QueuedFile {
    pub id: u128,
    pub parts: Vec<PathPart>,
    pub path: String,
}

/// A queued file as a mathematical value: its id, the components of its
/// path, and its path as it was given.
pub type QueuedView = (u128, Seq<PartView>, Seq<char>);

/// The view of a queued file.
pub open spec fn entry_view(e: QueuedFile) -> QueuedView {
    (e.id, parts_view(e.parts@), e.path@)
}

/// The views of the queued files.
pub open spec fn queue_view(q: Seq<QueuedFile>) -> Seq<QueuedView> {
    q.map_values(|e: QueuedFile| entry_view(e))
}

/// The path of a queued file as an error reports it: taken relative to
/// the root where it is absolute, as given otherwise.
pub open spec fn shown_path(root_text: Seq<char>, x: QueuedView) -> Seq<char> {
    if x.1.len() > 0 && x.1[0] == PartView::RootDir {
        stripped_text(x.2, root_text)
    } else {
        x.2
    }
}

/// `s` with `e` put after every entry whose id is not above `e`'s, where `s`
/// is in order of ids.
pub open spec fn insert_by_id(s: Seq<QueuedView>, e: QueuedView) -> Seq<QueuedView>
    decreases s.len(),
{
    if s.len() == 0 || s.last().0 <= e.0 {
        s.push(e)
    } else {
        insert_by_id(s.drop_last(), e).push(s.last())
    }
}

/// `s` in order of ids; entries with the same id keep their order.
pub open spec fn sort_by_id(s: Seq<QueuedView>) -> Seq<QueuedView>
    decreases s.len(),
{
    if s.len() == 0 {
        s
    } else {
        insert_by_id(sort_by_id(s.drop_last()), s.last())
    }
}

proof fn lemma_insert_by_id_at(s: Seq<QueuedView>, e: QueuedView, j: int)
    requires
        0 <= j <= s.len(),
        forall|k: int| j <= k < s.len() ==> #[trigger] s[k].0 > e.0,
        j == 0 || s[j - 1].0 <= e.0,
    ensures
        insert_by_id(s, e) == s.insert(j, e),
    decreases s.len(),
{
    if s.len() == 0 {
        assert(s.insert(j, e) =~= s.push(e));
    } else if s.last().0 <= e.0 {
        assert(j == s.len());
        assert(s.insert(j, e) =~= s.push(e));
    } else {
        assert(j < s.len());
        lemma_insert_by_id_at(s.drop_last(), e, j);
        assert(s.drop_last().insert(j, e).push(s.last()) =~= s.insert(j, e));
    }
}

/// The queued files in order of ids, those with equal ids in queue order.
fn sort_queue(q: Vec<QueuedFile>) -> (r: Vec<QueuedFile>)
    ensures
        queue_view(r@) == sort_by_id(queue_view(q@)),
{
    let ghost qv = queue_view(q@);
    let ghost total = q.len();
    let mut rest = q;
    let mut out: Vec<QueuedFile> = Vec::new();
    let mut taken: usize = 0;
    assert(queue_view(out@) =~= sort_by_id(qv.take(0)));
    assert(rest@ =~= q@.skip(0));
    while rest.len() > 0
        invariant
            taken + rest.len() == total,
            total == q@.len(),
            qv == queue_view(q@),
            rest@ == q@.skip(taken as int),
            queue_view(out@) == sort_by_id(qv.take(taken as int)),
        decreases rest.len(),
    {
        let e = rest.remove(0);
        let ghost ev = entry_view(e);
        let ghost sorted = queue_view(out@);
        let mut j: usize = out.len();
        while j > 0 && out[j - 1].id > e.id
            invariant
                j <= out.len(),
                sorted == queue_view(out@),
                forall|k: int| j <= k < out.len() ==> #[trigger] sorted[k].0 > e.id,
            decreases j,
        {
            j = j - 1;
        }
        proof {
            lemma_insert_by_id_at(sorted, ev, j as int);
            assert(qv.take(taken + 1).drop_last() =~= qv.take(taken as int));
            assert(qv.take(taken + 1).last() == ev);
            assert(q@.skip(taken as int)[0] == e);
        }
        out.insert(j, e);
        assert(queue_view(out@) =~= sorted.insert(j as int, ev));
        taken = taken + 1;
        assert(rest@ =~= q@.skip(taken as int));
    }
    assert(qv.take(total as int) =~= qv);
    out
}

/// What placing the queued files `q` in turn does to the tree `m`: the tree
/// once all are placed, or the tree when one is refused and that refusal, or
/// that some file could not be placed at all.
pub enum Run {
    Built(Map<TreePath, u128>),
    Stopped(Map<TreePath, u128>, Refusal, QueuedView),
    Malformed,
}

/// Places the files of `q` in turn into `m`, stopping at the first refusal.
pub open spec fn run_placements(m: Map<TreePath, u128>, root: Seq<PartView>, q: Seq<QueuedView>) -> Run
    decreases q.len(),
{
    if q.len() == 0 {
        Run::Built(m)
    } else {
        match placement(m, root, q[0].0, q[0].1) {
            Placement::Added(m2) => run_placements(m2, root, q.drop_first()),
            Placement::Failed(e) => Run::Stopped(m, e, q[0]),
            Placement::Malformed => Run::Malformed,
        }
    }
}

/// How placing the queue went.
enum RunStep {
    Built,
    Stopped(Refusal, usize),
    Malformed,
}

/// `r` reports `run`, and the tree became what it says.
spec fn run_matches(run: Run, r: RunStep, after: Map<TreePath, u128>, q: Seq<QueuedView>) -> bool {
    match run {
        Run::Built(m) => r is Built && after == m,
        Run::Stopped(m, e, x) => r matches RunStep::Stopped(e2, i) && e2 == e && i < q.len() && q[i as int]
            == x && after == m,
        Run::Malformed => r is Malformed,
    }
}

/// Places the files of `queue` in turn into `nodes`.
fn place_all(nodes: &mut Vec<FileTreeNode>, root: &Vec<PathPart>, queue: &Vec<QueuedFile>) -> (r: RunStep)
    requires
        forest_wf(old(nodes)@, Seq::empty()),
    ensures
        forest_wf(final(nodes)@, Seq::empty()),
        run_matches(
            run_placements(forest(old(nodes)@), parts_view(root@), queue_view(queue@)),
            r,
            forest(final(nodes)@),
            queue_view(queue@),
        ),
        r matches RunStep::Stopped(e, i) ==> e != Refusal::OutsideRoot ==> relative_parts(
            parts_view(root@),
            parts_view(queue@[i as int].parts@),
        ) is Some,
{
    let ghost qv = queue_view(queue@);
    let ghost rv = parts_view(root@);
    let ghost whole = run_placements(forest(nodes@), rv, qv);
    let mut i: usize = 0;
    assert(qv.skip(0) =~= qv);
    while i < queue.len()
        invariant
            i <= queue.len(),
            qv == queue_view(queue@),
            rv == parts_view(root@),
            forest_wf(nodes@, Seq::empty()),
            whole == run_placements(forest(nodes@), rv, qv.skip(i as int)),
            whole == run_placements(forest(old(nodes)@), rv, qv),
        decreases queue.len() - i,
    {
        let ghost m = forest(nodes@);
        assert(qv.skip(i as int)[0] == qv[i as int]);
        assert(qv[i as int] == entry_view(queue@[i as int]));
        assert(qv.skip(i as int).drop_first() =~= qv.skip(i + 1));
        let step = place_file(nodes, root, queue[i].id, &queue[i].parts);
        match step {
            Step::Added => {},
            Step::Failed(e) => {
                assert(placement(m, rv, queue@[i as int].id, parts_view(queue@[i as int].parts@))
                    == Placement::Failed(e));
                return RunStep::Stopped(e, i);
            },
            Step::Malformed => {
                return RunStep::Malformed;
            },
        }
        i = i + 1;
    }
    assert(qv.skip(i as int) =~= Seq::<QueuedView>::empty());
    RunStep::Built
}

// ---------------------------------------------------------------------------
// Copies of trees

proof fn lemma_forest_congruent(a: Seq<FileTreeNode>, b: Seq<FileTreeNode>)
    requires
        unique_names(a),
        a.len() == b.len(),
        forall|j: int| 0 <= j < a.len() ==> #[trigger] a[j].name@ == b[j].name@ && a[j].id == b[j].id
            && forest(a[j].children@) == forest(b[j].children@),
    ensures
        unique_names(b),
        forest(a) == forest(b),
{
    assert(unique_names(b)) by {
        assert forall|x: int, y: int| 0 <= x < b.len() && 0 <= y < b.len() && x != y implies b[x].name@
            != b[y].name@ by {
            assert(a[x].name@ == b[x].name@ && a[y].name@ == b[y].name@);
        }
    }
    assert forall|q: TreePath| #[trigger] lookup(a, q) == lookup(b, q) by {
        if q.len() > 0 && has_child(a, q[0]) {
            let k = child_index(a, q[0]);
            lemma_lookup_at(a, k, q);
            assert(a[k].name@ == b[k].name@);
            lemma_lookup_at(b, k, q);
            if q.len() > 1 {
                let qd = q.drop_first();
                let fa = forest(a[k].children@);
                let fb = forest(b[k].children@);
                assert(fa.contains_key(qd) == fb.contains_key(qd));
                if fa.contains_key(qd) {
                    assert(fa[qd] == fb[qd]);
                }
            }
        } else if q.len() > 0 && has_child(b, q[0]) {
            let k = child_index(b, q[0]);
            assert(a[k].name@ == b[k].name@);
        }
    }
    assert(forest(a) =~= forest(b));
}

/// A copy of a list of names.
fn copy_names(v: &Vec<String>) -> (r: Vec<String>)
    ensures
        r@ == v@,
{
    let mut r: Vec<String> = Vec::new();
    let mut i: usize = 0;
    while i < v.len()
        invariant
            i <= v.len(),
            r@ == v@.take(i as int),
        decreases v.len() - i,
    {
        r.push(v[i].clone());
        i = i + 1;
        assert(r@ =~= v@.take(i as int));
    }
    assert(v@.take(v.len() as int) =~= v@);
    r
}

/// A copy of the nodes below the directory at `prefix`.
fn copy_nodes(nodes: &Vec<FileTreeNode>, Ghost(prefix): Ghost<TreePath>) -> (r: Vec<FileTreeNode>)
    requires
        forest_wf(nodes@, prefix),
    ensures
        forest_wf(r@, prefix),
        forest(r@) == forest(nodes@),
    decreases nodes@,
{
    let mut r: Vec<FileTreeNode> = Vec::new();
    let mut i: usize = 0;
    while i < nodes.len()
        invariant
            i <= nodes.len(),
            r@.len() == i,
            forest_wf(nodes@, prefix),
            forall|j: int| 0 <= j < i ==> #[trigger] r@[j].name@ == nodes@[j].name@ && r@[j].id == nodes@[j].id
                && forest(r@[j].children@) == forest(nodes@[j].children@) && node_wf(r@[j], prefix),
        decreases nodes.len() - i,
    {
        let n = &nodes[i];
        assert(node_wf(*n, prefix));
        let children = copy_nodes(&n.children, Ghost(prefix.push(n.name@)));
        let c = FileTreeNode { id: n.id, name: n.name.clone(), path: copy_names(&n.path), children };
        assert(node_wf(c, prefix));
        r.push(c);
        i = i + 1;
    }
    proof {
        lemma_forest_congruent(nodes@, r@);
    }
    r
}

/// What a call on a tree came to, as far as whether it is built goes.
pub enum CallOutcome {
    /// A file was queued, or queuing was refused.
    Queued,
    /// A build placed every file.
    Built,
    /// A build stopped at a refused file, or could not place one at all.
    NotBuilt,
}

/// Whether a tree is built after a call, given whether it was before.
pub open spec fn ready_next(was: bool, c: CallOutcome) -> bool {
    match c {
        CallOutcome::Built => true,
        _ => was,
    }
}

/// Whether a tree is built after the calls `calls`, given whether it was
/// before them.
pub open spec fn ready_after(start: bool, calls: Seq<CallOutcome>) -> bool
    decreases calls.len(),
{
    if calls.len() == 0 {
        start
    } else {
        ready_next(ready_after(start, calls.drop_last()), calls.last())
    }
}

/// A tree made by `new` is built after a sequence of calls exactly where
/// one of them was a build that placed every file; a failed build, and
/// queuing, leave it as it was.
pub proof fn law_ready_iff_some_build_succeeded(calls: Seq<CallOutcome>)
    ensures
        ready_after(false, calls) <==> exists|i: int| 0 <= i < calls.len() && (#[trigger] calls[i]) is Built,
    decreases calls.len(),
{
    if calls.len() > 0 {
        let t = calls.drop_last();
        law_ready_iff_some_build_succeeded(t);
        if exists|i: int| 0 <= i < t.len() && (#[trigger] t[i]) is Built {
            let i = choose|i: int| 0 <= i < t.len() && (#[trigger] t[i]) is Built;
            assert(calls[i] == t[i]);
        }
        if exists|i: int| 0 <= i < calls.len() && (#[trigger] calls[i]) is Built {
            let i = choose|i: int| 0 <= i < calls.len() && (#[trigger] calls[i]) is Built;
            if i < t.len() {
                assert(t[i] == calls[i]);
            } else {
                assert(calls.last() == calls[i]);
            }
        }
        if calls.last() is Built {
            assert(calls[calls.len() - 1] is Built);
        }
    }
}

/// The error reporting refusal `k` of the queued file `entry` in a project
/// rooted at `root_dir`.
fn tree_error(k: Refusal, root_dir: &String, entry: &QueuedFile) -> (e: TreeError)
    requires
        parts_view(entry.parts@) == unix_components(entry.path@),
        k != Refusal::OutsideRoot ==> relative_parts(unix_components(root_dir@), parts_view(entry.parts@))
            is Some,
    ensures
        e@ == error_view(k, shown_path(root_dir@, entry_view(*entry))),
{
    match k {
        Refusal::QueueClosed => TreeError::QueueClosed,
        Refusal::OutsideRoot => TreeError::OutsideRoot,
        Refusal::AlreadyExists => TreeError::AlreadyExists,
        Refusal::NotNormal => TreeError::NotNormal,
        Refusal::ParentMissing => {
            let rooted = entry.parts.len() > 0 && match &entry.parts[0] {
                PathPart::RootDir => true,
                _ => false,
            };
            if rooted {
                match strip_root(entry.path.as_str(), root_dir.as_str()) {
                    Some(t) => TreeError::ParentMissing(t),
                    None => {
                        assert(false);
                        TreeError::ParentMissing(entry.path.clone())
                    },
                }
            } else {
                TreeError::ParentMissing(entry.path.clone())
            }
        },
    }
}

// ---------------------------------------------------------------------------
// The file tree

/// The files of a project as the client knows them. Files are first queued,
/// then placed all at once, oldest id first, so that each directory is in
/// the tree before what it holds.
#[derive(Debug)]
pub struct FileTree {
    pub project_id: u128,
    pub root_dir: String,
    pub children: Vec<FileTreeNode>,
    root_parts: Vec<PathPart>,
    file_queue: Vec<QueuedFile>,
    constructed: bool,
}

impl View for FileTree {
    type V = Map<TreePath, u128>;

    /// The files and directories in the tree: their paths and their ids.
    closed spec fn view(&self) -> Map<TreePath, u128> {
        forest(self.children@)
    }
}

impl FileTree {
    /// The nodes are well formed and the root's components are those of
    /// `root_dir`.
    pub closed spec fn well_formed(&self) -> bool {
        &&& forest_wf(self.children@, Seq::empty())
        &&& parts_view(self.root_parts@) == unix_components(self.root_dir@)
        &&& forall|i: int| 0 <= i < self.file_queue@.len() ==> parts_view(#[trigger] self.file_queue@[i].parts@)
            == unix_components(self.file_queue@[i].path@)
    }

    /// The files waiting to be placed, in queue order.
    pub closed spec fn queued(&self) -> Seq<QueuedView> {
        queue_view(self.file_queue@)
    }

    /// Whether the tree has been built.
    pub closed spec fn is_built(&self) -> bool {
        self.constructed
    }

    /// The project this tree belongs to.
    pub closed spec fn project(&self) -> u128 {
        self.project_id
    }

    /// The project's root directory.
    pub closed spec fn root_text(&self) -> Seq<char> {
        self.root_dir@
    }

    /// The components of the project's root directory.
    pub closed spec fn root(&self) -> Seq<PartView> {
        unix_components(self.root_dir@)
    }

    /// What building the tree now does: its files placed in order of ids.
    pub open spec fn planned_run(&self) -> Run {
        run_placements(self@, self.root(), sort_by_id(self.queued()))
    }

    /// An empty tree for the project `project_id` rooted at `root_dir`,
    /// with nothing queued, not built yet.
    pub fn new(project_id: u128, root_dir: &str) -> (t: FileTree)
        ensures
            t.well_formed(),
            t.project() == project_id,
            t.root_text() == root_dir@,
            t.root() == unix_components(root_dir@),
            t@ == Map::<TreePath, u128>::empty(),
            t.queued() == Seq::<QueuedView>::empty(),
            !t.is_built(),
    {
        let t = FileTree {
            project_id,
            root_dir: root_dir.to_owned(),
            children: Vec::new(),
            root_parts: path_components(root_dir),
            file_queue: Vec::new(),
            constructed: false,
        };
        assert(t@ =~= Map::<TreePath, u128>::empty());
        assert(t.queued() =~= Seq::<QueuedView>::empty());
        t
    }

    /// Queues file `file_id` at `file_path` to be placed when the tree is
    /// built. Refused once the tree is built.
    pub fn queue_file(&mut self, file_id: u128, file_path: &str) -> (r: Result<(), TreeError>)
        requires
            old(self).well_formed(),
        ensures
            final(self).well_formed(),
            final(self)@ == old(self)@,
            final(self).project() == old(self).project(),
            final(self).root_text() == old(self).root_text(),
            final(self).root() == old(self).root(),
            final(self).is_built() == old(self).is_built(),
            final(self).is_built() == ready_next(old(self).is_built(), CallOutcome::Queued),
            old(self).is_built() ==> r == Err::<(), TreeError>(TreeError::QueueClosed) && final(self).queued()
                == old(self).queued(),
            !old(self).is_built() ==> r is Ok && final(self).queued() == old(self).queued().push(
                (file_id, unix_components(file_path@), file_path@),
            ),
    {
        if self.constructed {
            return Err(TreeError::QueueClosed);
        }
        let parts = path_components(file_path);
        self.file_queue.push(QueuedFile { id: file_id, parts, path: file_path.to_owned() });
        assert(self.queued() =~= old(self).queued().push(
            (file_id, unix_components(file_path@), file_path@),
        ));
        assert forall|i: int| 0 <= i < self.file_queue@.len() implies parts_view(
            #[trigger] self.file_queue@[i].parts@,
        ) == unix_components(self.file_queue@[i].path@) by {
            if i < old(self).file_queue@.len() {
                assert(self.file_queue@[i] == old(self).file_queue@[i]);
            }
        }
        Ok(())
    }

    /// Puts the queue in order of ids, equal ids keeping their order.
    fn sort_file_queue(&mut self)
        requires
            old(self).well_formed(),
        ensures
            final(self).well_formed(),
            final(self).queued() == sort_by_id(old(self).queued()),
            final(self)@ == old(self)@,
            final(self).project() == old(self).project(),
            final(self).root_text() == old(self).root_text(),
            final(self).root() == old(self).root(),
            final(self).is_built() == old(self).is_built(),
    {
        let mut queue: Vec<QueuedFile> = Vec::new();
        std::mem::swap(&mut queue, &mut self.file_queue);
        let ghost before = queue_view(queue@);
        self.file_queue = sort_queue(queue);
        proof {
            broadcast use vstd::seq_lib::group_to_multiset_ensures;
            crate::tree_laws::law_placement_order(before);
            let after = queue_view(self.file_queue@);
            assert forall|i: int| 0 <= i < self.file_queue@.len() implies parts_view(
                #[trigger] self.file_queue@[i].parts@,
            ) == unix_components(self.file_queue@[i].path@) by {
                assert(after[i] == entry_view(self.file_queue@[i]));
                assert(after.to_multiset().count(after[i]) > 0);
                assert(before.contains(after[i]));
                let j = choose|j: int| 0 <= j < before.len() && before[j] == after[i];
                assert(before[j] == entry_view(old(self).file_queue@[j]));
            }
        }
    }

    /// Builds the tree: puts the queue in order of ids, then places each
    /// file in turn, stopping at the first that is refused. The tree is
    /// marked built only where every file was placed.
    pub fn build(&mut self) -> (r: Result<(), TreeError>)
        requires
            old(self).well_formed(),
            !(old(self).planned_run() is Malformed),
        ensures
            final(self).well_formed(),
            final(self).queued() == sort_by_id(old(self).queued()),
            final(self).project() == old(self).project(),
            final(self).root_text() == old(self).root_text(),
            final(self).root() == old(self).root(),
            final(self).is_built() == ready_next(
                old(self).is_built(),
                if r is Ok {
                    CallOutcome::Built
                } else {
                    CallOutcome::NotBuilt
                },
            ),
            match old(self).planned_run() {
                Run::Built(m) => r is Ok && final(self)@ == m && final(self).is_built(),
                Run::Stopped(m, k, x) => r matches Err(e) && e@ == error_view(k, shown_path(old(self).root_text(), x))
                    && final(self)@ == m && final(self).is_built() == old(self).is_built(),
                Run::Malformed => false,
            },
    {
        self.sort_file_queue();
        match place_all(&mut self.children, &self.root_parts, &self.file_queue) {
            RunStep::Built => {
                self.constructed = true;
                Ok(())
            },
            RunStep::Stopped(k, i) => Err(tree_error(k, &self.root_dir, &self.file_queue[i])),
            RunStep::Malformed => {
                assert(false);
                Err(TreeError::NotNormal)
            },
        }
    }

    /// Builds the tree as `build` does where every file can be placed or
    /// refused; gives `None`, with the tree untouched and the queue in order
    /// of ids, where some file has no parent directory or no name to place.
    pub fn try_build(&mut self) -> (r: Option<Result<(), TreeError>>)
        requires
            old(self).well_formed(),
        ensures
            final(self).well_formed(),
            final(self).queued() == sort_by_id(old(self).queued()),
            final(self).project() == old(self).project(),
            final(self).root_text() == old(self).root_text(),
            final(self).root() == old(self).root(),
            final(self).is_built() == ready_next(
                old(self).is_built(),
                if r == Some(Ok::<(), TreeError>(())) {
                    CallOutcome::Built
                } else {
                    CallOutcome::NotBuilt
                },
            ),
            match old(self).planned_run() {
                Run::Built(m) => r == Some(Ok::<(), TreeError>(())) && final(self)@ == m && final(self).is_built(),
                Run::Stopped(m, k, x) => r matches Some(Err(e)) && e@ == error_view(k, shown_path(old(self).root_text(), x))
                    && final(self)@ == m && final(self).is_built() == old(self).is_built(),
                Run::Malformed => r is None && final(self)@ == old(self)@ && final(self).is_built()
                    == old(self).is_built(),
            },
    {
        self.sort_file_queue();
        let mut scratch = copy_nodes(&self.children, Ghost(Seq::empty()));
        match place_all(&mut scratch, &self.root_parts, &self.file_queue) {
            RunStep::Built => {
                self.children = scratch;
                self.constructed = true;
                Some(Ok(()))
            },
            RunStep::Stopped(k, i) => {
                self.children = scratch;
                Some(Err(tree_error(k, &self.root_dir, &self.file_queue[i])))
            },
            RunStep::Malformed => None,
        }
    }

    /// The root's components are those of the root directory's text.
    pub proof fn law_root_components(&self)
        ensures
            self.root() == unix_components(self.root_text()),
    {
    }

    /// The nodes directly under the root (the `children` field).
    pub closed spec fn nodes(&self) -> Seq<FileTreeNode> {
        self.children@
    }

    /// The tree is made of its nodes, and they are well formed: names are
    /// distinct among siblings, and each node's path lists the names from
    /// the root down to it.
    pub proof fn law_nodes_well_formed(&self)
        requires
            self.well_formed(),
        ensures
            forest_wf(self.nodes(), Seq::empty()),
            self@ == forest(self.nodes()),
    {
    }

    /// Two trees that hold the same files, have the same root, and hold
    /// the same queued files (no id twice), in whatever order they were
    /// queued, build alike.
    pub proof fn law_build_ignores_queue_order(&self, other: &FileTree)
        requires
            self@ == other@,
            self.root() == other.root(),
            self.root_text() == other.root_text(),
            self.queued().to_multiset() == other.queued().to_multiset(),
            crate::tree_laws::ids_distinct(self.queued()),
        ensures
            self.planned_run() == other.planned_run(),
    {
        crate::tree_laws::law_queue_order_irrelevant(self.queued(), other.queued());
    }

    /// After a build into an empty tree placed every queued file (at least
    /// one), building again is refused with `AlreadyExists` and leaves the
    /// tree as it is: `after` is the tree that first build left.
    pub proof fn law_second_build_refused(&self, after: &FileTree)
        requires
            self@ == Map::<TreePath, u128>::empty(),
            self.planned_run() == Run::Built(after@),
            self.queued().len() > 0,
            after.queued() == sort_by_id(self.queued()),
            after.root() == self.root(),
        ensures
            after.planned_run() == Run::Stopped(after@, Refusal::AlreadyExists, after.queued()[0]),
    {
        crate::tree_laws::law_second_build_refused(self.root(), self.queued(), after@);
    }

    /// Every file's directory is in the tree as well.
    pub proof fn law_directories_present(&self, q: TreePath)
        requires
            self@.contains_key(q),
            q.len() > 1,
        ensures
            self@.contains_key(q.drop_last()),
    {
        crate::tree_laws::law_tree_is_prefix_closed(self.children@, q);
    }

    /// Building a tree that holds nothing yet, from queued files that each
    /// go to their own place under the root, are named by names only, and
    /// lie below a directory queued with a smaller id, places every file:
    /// the tree then holds exactly the queued files, each with its id.
    pub proof fn law_build_places_every_file(&self)
        requires
            self@ == Map::<TreePath, u128>::empty(),
            self.queued().no_duplicates(),
            forall|x: QueuedView| #[trigger] self.queued().contains(x) ==> simple_entry(self.root(), x),
            forall|x: QueuedView, y: QueuedView|
                #[trigger] self.queued().contains(x) && #[trigger] self.queued().contains(y) && placed_at(
                    self.root(),
                    x,
                ) == placed_at(self.root(), y) ==> x == y,
            forall|x: QueuedView|
                #[trigger] self.queued().contains(x) && placed_at(self.root(), x).len() > 1 ==> exists|
                    y: QueuedView,
                |
                    #[trigger] self.queued().contains(y) && placed_at(self.root(), y) == placed_at(
                        self.root(),
                        x,
                    ).drop_last() && y.0 < x.0,
        ensures
            self.planned_run() == Run::Built(placed_map(self.root(), sort_by_id(self.queued()))),
            forall|x: QueuedView| #[trigger] self.queued().contains(x) ==> placed_map(
                self.root(),
                sort_by_id(self.queued()),
            ).contains_key(placed_at(self.root(), x)) && placed_map(self.root(), sort_by_id(self.queued()))[placed_at(
                self.root(),
                x,
            )] == x.0,
            forall|p: TreePath| #[trigger] placed_map(self.root(), sort_by_id(self.queued())).contains_key(p)
                ==> exists|x: QueuedView| self.queued().contains(x) && placed_at(self.root(), x) == p,
    {
        crate::build_law::law_build_places_every_file(self.root(), self.queued());
    }

    /// Whether the tree has been built.
    pub fn is_ready(&self) -> (r: bool)
        ensures
            r == self.is_built(),
    {
        self.constructed
    }
}

} // verus!
