//! Properties of the file tree that hold for every tree and every file.

use vstd::prelude::*;
use crate::path::PartView;
use crate::file_tree::{Run, run_placements, descend};
use crate::file_tree::{
    TreePath, QueuedView, FileTreeNode, Refusal, Placement, forest, lookup, child_index,
    placement, relative_parts, part_name, part_names, is_prefix_of, replace_subtree, insert_by_id,
    sort_by_id,
};

verus! {

/// The path in the tree at which a file with the components `p` (relative to
/// the root) is placed: the names of its components.
pub open spec fn placed_path(p: Seq<PartView>) -> TreePath {
    part_names(p)
}

proof fn lemma_placed_path_split(p: Seq<PartView>)
    requires
        p.len() > 0,
    ensures
        placed_path(p) == part_names(p.drop_last()).push(part_name(p.last())),
{
    assert(placed_path(p) =~= part_names(p.drop_last()).push(part_name(p.last())));
}

/// A placed file is found where it was placed, under the id it was placed
/// with, and nothing else changes but what stood at or below that path.
pub proof fn law_placed_file_is_found(m: Map<TreePath, u128>, root: Seq<PartView>, id: u128, path: Seq<PartView>, m2: Map<TreePath, u128>)
    requires
        placement(m, root, id, path) == Placement::Added(m2),
    ensures
        relative_parts(root, path) is Some,
        m2.contains_key(placed_path(relative_parts(root, path).unwrap())),
        m2[placed_path(relative_parts(root, path).unwrap())] == id,
        forall|q: TreePath| #[trigger] m.contains_key(q) && !is_prefix_of(placed_path(relative_parts(root, path).unwrap()), q)
            ==> m2.contains_key(q) && m2[q] == m[q],
        forall|q: TreePath| #[trigger] m2.contains_key(q) ==> q == placed_path(relative_parts(root, path).unwrap())
            || m.contains_key(q),
{
    let p = relative_parts(root, path).unwrap();
    lemma_placed_path_split(p);
    let pp = placed_path(p);
    if p.drop_last().len() == 0 {
        assert(part_names(p.drop_last()) =~= Seq::<Seq<char>>::empty());
        assert(pp =~= seq![part_name(p.last())]);
        assert forall|q: TreePath| #[trigger] m.contains_key(q) && !is_prefix_of(pp, q) implies m2.contains_key(q)
            && m2[q] == m[q] by {
            assert(pp.subrange(0, pp.len() as int) =~= pp);
        }
    } else {
        assert(m2 == replace_subtree(m, pp, id));
        assert forall|q: TreePath| #[trigger] m.contains_key(q) && !is_prefix_of(pp, q) implies m2.contains_key(q)
            && m2[q] == m[q] by {
            assert(pp.subrange(0, pp.len() as int) =~= pp);
            assert(q != pp);
        }
    }
}

/// Every file's directory is in the tree too: the tree is closed under
/// taking the directory of a path.
pub proof fn law_tree_is_prefix_closed(nodes: Seq<FileTreeNode>, q: TreePath)
    requires
        forest(nodes).contains_key(q),
        q.len() > 1,
    ensures
        forest(nodes).contains_key(q.drop_last()),
    decreases q.len(),
{
    let c = nodes[child_index(nodes, q[0])];
    let qd = q.drop_first();
    assert(lookup(c.children@, qd) is Some);
    assert(q.drop_last()[0] == q[0]);
    if q.len() == 2 {
        assert(q.drop_last().len() == 1);
    } else {
        law_tree_is_prefix_closed(c.children@, qd);
        assert(q.drop_last().drop_first() =~= qd.drop_last());
    }
}

/// A file placed directly under the root where that name is taken is
/// refused, and the tree stays as it was.
pub proof fn law_duplicate_at_top_refused(m: Map<TreePath, u128>, root: Seq<PartView>, id: u128, path: Seq<PartView>, n: Seq<char>)
    requires
        relative_parts(root, path) == Some(seq![PartView::Normal(n)]),
        m.contains_key(seq![n]),
    ensures
        placement(m, root, id, path) == Placement::Failed(Refusal::AlreadyExists),
{
    let p = seq![PartView::Normal(n)];
    assert(p.drop_last().len() == 0);
    assert(p.last() == PartView::Normal(n));
}

/// A file placed deeper, at a path already in the tree, is accepted: it
/// replaces what stood there, with all below it.
pub proof fn law_deeper_file_replaces(m: Map<TreePath, u128>, root: Seq<PartView>, id: u128, path: Seq<PartView>, m2: Map<TreePath, u128>, q: TreePath)
    requires
        placement(m, root, id, path) == Placement::Added(m2),
        m.contains_key(q),
        relative_parts(root, path).unwrap().len() > 1,
        is_prefix_of(placed_path(relative_parts(root, path).unwrap()), q),
        q != placed_path(relative_parts(root, path).unwrap()),
    ensures
        !m2.contains_key(q),
{
    let p = relative_parts(root, path).unwrap();
    lemma_placed_path_split(p);
}

/// A file whose directory is missing is refused, and the tree stays as it was.
pub proof fn law_missing_directory_refused(m: Map<TreePath, u128>, root: Seq<PartView>, id: u128, path: Seq<PartView>, d: Seq<char>)
    requires
        relative_parts(root, path) matches Some(p) && p.len() == 2 && p[0] == PartView::Normal(d)
            && p[1] is Normal,
        !m.contains_key(seq![d]),
    ensures
        placement(m, root, id, path) == Placement::Failed(Refusal::ParentMissing),
{
    let p = relative_parts(root, path).unwrap();
    assert(p.drop_last().len() == 1);
    assert(p.drop_last()[0] == PartView::Normal(d));
    assert(p.drop_last().drop_first().len() == 0);
}

/// Entries in order of ids.
pub open spec fn ordered_by_id(s: Seq<QueuedView>) -> bool {
    forall|i: int, j: int| 0 <= i < j < s.len() ==> #[trigger] s[i].0 <= #[trigger] s[j].0
}

proof fn lemma_insert_by_id(s: Seq<QueuedView>, e: QueuedView)
    requires
        ordered_by_id(s),
    ensures
        ordered_by_id(insert_by_id(s, e)),
        insert_by_id(s, e).to_multiset() == s.to_multiset().insert(e),
        insert_by_id(s, e).len() == s.len() + 1,
        forall|k: int| 0 <= k < insert_by_id(s, e).len() ==> #[trigger] insert_by_id(s, e)[k].0 <= e.0
            || s.len() > 0 && insert_by_id(s, e)[k].0 <= s.last().0,
    decreases s.len(),
{
    broadcast use vstd::seq_lib::group_to_multiset_ensures;
    if s.len() == 0 || s.last().0 <= e.0 {
    } else {
        let t = s.drop_last();
        assert(ordered_by_id(t));
        lemma_insert_by_id(t, e);
        let it = insert_by_id(t, e);
        assert forall|i: int, j: int| 0 <= i < j < it.push(s.last()).len() implies #[trigger] it.push(
            s.last(),
        )[i].0 <= #[trigger] it.push(s.last())[j].0 by {
            if j == it.len() {
                assert(it[i].0 <= e.0 || t.len() > 0 && it[i].0 <= t.last().0);
                if t.len() > 0 {
                    assert(t.last() == s[s.len() - 2]);
                }
            }
        }
        assert(s =~= t.push(s.last()));
        assert forall|k: int| 0 <= k < it.push(s.last()).len() implies #[trigger] it.push(s.last())[k].0
            <= e.0 || s.len() > 0 && it.push(s.last())[k].0 <= s.last().0 by {
            if k < it.len() {
                if t.len() > 0 {
                    assert(t.last() == s[s.len() - 2]);
                }
            }
        }
    }
}

/// The order in which files are placed: by id, oldest first (ids are
/// UUIDv7, which grow with time, so a directory created before its files
/// comes before them), and every queued file exactly once.
pub proof fn law_placement_order(s: Seq<QueuedView>)
    ensures
        ordered_by_id(sort_by_id(s)),
        sort_by_id(s).to_multiset() == s.to_multiset(),
        sort_by_id(s).len() == s.len(),
    decreases s.len(),
{
    broadcast use vstd::seq_lib::group_to_multiset_ensures;
    if s.len() > 0 {
        law_placement_order(s.drop_last());
        lemma_insert_by_id(sort_by_id(s.drop_last()), s.last());
        assert(s =~= s.drop_last().push(s.last()));
    }
}

/// The entries of `s` with id `k`, in their order.
pub open spec fn with_id(s: Seq<QueuedView>, k: u128) -> Seq<QueuedView>
    decreases s.len(),
{
    if s.len() == 0 {
        s
    } else if s.last().0 == k {
        with_id(s.drop_last(), k).push(s.last())
    } else {
        with_id(s.drop_last(), k)
    }
}

proof fn lemma_with_id_insert(t: Seq<QueuedView>, e: QueuedView, k: u128)
    ensures
        with_id(insert_by_id(t, e), k) == if e.0 == k {
            with_id(t, k).push(e)
        } else {
            with_id(t, k)
        },
    decreases t.len(),
{
    if t.len() == 0 || t.last().0 <= e.0 {
        assert(t.push(e).drop_last() =~= t);
    } else {
        lemma_with_id_insert(t.drop_last(), e, k);
        let it = insert_by_id(t.drop_last(), e);
        assert(it.push(t.last()).drop_last() =~= it);
    }
}

/// Sorting keeps the queue order among entries with the same id.
pub proof fn law_sort_is_stable(s: Seq<QueuedView>, k: u128)
    ensures
        with_id(sort_by_id(s), k) == with_id(s, k),
    decreases s.len(),
{
    if s.len() > 0 {
        law_sort_is_stable(s.drop_last(), k);
        lemma_with_id_insert(sort_by_id(s.drop_last()), s.last(), k);
    }
}

/// No two entries of `s` share an id.
pub open spec fn ids_distinct(s: Seq<QueuedView>) -> bool {
    forall|i: int, j: int| 0 <= i < s.len() && 0 <= j < s.len() && i != j ==> (#[trigger] s[i]).0 != (#[trigger] s[j]).0
}

proof fn lemma_ordered_last(s: Seq<QueuedView>, x: QueuedView)
    requires
        ordered_by_id(s),
        s.contains(x),
    ensures
        x.0 <= s.last().0,
{
    let i = choose|i: int| 0 <= i < s.len() && s[i] == x;
    if i < s.len() - 1 {
        assert(s[i].0 <= s[s.len() - 1].0);
    }
}

/// Two lists in order of ids, holding the same entries, with no id twice,
/// are the same list.
proof fn lemma_ordered_unique(a: Seq<QueuedView>, b: Seq<QueuedView>)
    requires
        ordered_by_id(a),
        ordered_by_id(b),
        ids_distinct(a),
        a.to_multiset() == b.to_multiset(),
    ensures
        a == b,
    decreases a.len(),
{
    broadcast use vstd::seq_lib::group_to_multiset_ensures;
    broadcast use vstd::multiset::group_multiset_axioms;
    assert(a.to_multiset().len() == a.len());
    assert(b.to_multiset().len() == b.len());
    if a.len() == 0 {
        assert(b.len() == 0);
        assert(a =~= b);
    } else {
        assert(b.len() == a.len());
        let x = a.last();
        let y = b.last();
        assert(a[a.len() - 1] == x);
        assert(b[b.len() - 1] == y);
        assert(a.contains(x));
        assert(a.to_multiset().count(x) > 0);
        assert(b.contains(x));
        assert(b.contains(y));
        assert(b.to_multiset().count(y) > 0);
        assert(a.contains(y));
        lemma_ordered_last(b, x);
        lemma_ordered_last(a, y);
        let j = choose|j: int| 0 <= j < a.len() && a[j] == y;
        assert(a[a.len() - 1] == x);
        assert(j == a.len() - 1);
        assert(a =~= a.drop_last().push(x));
        assert(b =~= b.drop_last().push(x));
        assert(a.drop_last().to_multiset() =~= b.drop_last().to_multiset()) by {
            assert(a.remove(a.len() - 1) =~= a.drop_last());
            assert(b.remove(b.len() - 1) =~= b.drop_last());
            assert(a.remove(a.len() - 1).to_multiset() == a.to_multiset().remove(x));
            assert(b.remove(b.len() - 1).to_multiset() == b.to_multiset().remove(x));
        }
        assert(ordered_by_id(a.drop_last()));
        assert(ordered_by_id(b.drop_last()));
        assert(ids_distinct(a.drop_last()));
        lemma_ordered_unique(a.drop_last(), b.drop_last());
    }
}

/// Queues that hold the same entries, no id twice, are placed in the same
/// order, whatever order they were queued in.
pub proof fn law_queue_order_irrelevant(q1: Seq<QueuedView>, q2: Seq<QueuedView>)
    requires
        q1.to_multiset() == q2.to_multiset(),
        ids_distinct(q1),
    ensures
        sort_by_id(q1) == sort_by_id(q2),
{
    broadcast use vstd::seq_lib::group_to_multiset_ensures;
    law_placement_order(q1);
    law_placement_order(q2);
    let s1 = sort_by_id(q1);
    assert(q1.no_duplicates()) by {
        assert forall|i: int, j: int| 0 <= i < q1.len() && 0 <= j < q1.len() && i != j implies q1[i] != q1[j] by {
            assert(q1[i].0 != q1[j].0);
        }
    }
    q1.lemma_multiset_has_no_duplicates();
    s1.lemma_multiset_has_no_duplicates_conv();
    assert forall|i: int, j: int| 0 <= i < s1.len() && 0 <= j < s1.len() && i != j implies (#[trigger] s1[i]).0
        != (#[trigger] s1[j]).0 by {
        assert(s1.contains(s1[i]) && s1.contains(s1[j]));
        assert(s1.to_multiset().count(s1[i]) > 0 && s1.to_multiset().count(s1[j]) > 0);
        assert(q1.contains(s1[i]) && q1.contains(s1[j]));
        let a = choose|a: int| 0 <= a < q1.len() && q1[a] == s1[i];
        let b = choose|b: int| 0 <= b < q1.len() && q1[b] == s1[j];
        assert(s1[i] != s1[j]);
        assert(a != b);
        assert(q1[a].0 != q1[b].0);
    }
    lemma_ordered_unique(s1, sort_by_id(q2));
}

proof fn lemma_sort_of_ordered(s: Seq<QueuedView>)
    requires
        ordered_by_id(s),
    ensures
        sort_by_id(s) == s,
    decreases s.len(),
{
    if s.len() > 0 {
        let t = s.drop_last();
        assert(ordered_by_id(t));
        lemma_sort_of_ordered(t);
        if t.len() > 0 {
            assert(t.last() == s[s.len() - 2]);
        }
        assert(t.push(s.last()) =~= s);
    }
}

/// The first file placed into an empty tree goes directly under the root.
proof fn lemma_first_at_top(root: Seq<PartView>, q: Seq<QueuedView>, m: Map<TreePath, u128>)
    requires
        run_placements(Map::empty(), root, q) == Run::Built(m),
        q.len() > 0,
    ensures
        relative_parts(root, q[0].1) is Some,
        relative_parts(root, q[0].1).unwrap().len() == 1,
        relative_parts(root, q[0].1).unwrap()[0] is Normal,
        placement(Map::empty(), root, q[0].0, q[0].1) == Placement::Added(
            Map::<TreePath, u128>::empty().insert(seq![part_name(relative_parts(root, q[0].1).unwrap()[0])], q[0].0),
        ),
{
    let e = Map::<TreePath, u128>::empty();
    let p = relative_parts(root, q[0].1).unwrap();
    assert(placement(e, root, q[0].0, q[0].1) is Added);
    let dirs = p.drop_last();
    if dirs.len() > 0 {
        match dirs[0] {
            PartView::Normal(n) => {
                assert(!e.contains_key(seq![n]));
            },
            _ => {},
        }
        assert(descend(e, dirs) is Some);
    }
    assert(dirs.len() == 0);
    assert(p[0] == p.last());
}

/// A name directly under the root, once in the tree, stays through later
/// placements.
proof fn lemma_top_stays(m: Map<TreePath, u128>, root: Seq<PartView>, q: Seq<QueuedView>, top: TreePath, out: Map<TreePath, u128>)
    requires
        run_placements(m, root, q) == Run::Built(out),
        m.contains_key(top),
        top.len() == 1,
    ensures
        out.contains_key(top),
    decreases q.len(),
{
    if q.len() > 0 {
        let pl = placement(m, root, q[0].0, q[0].1);
        assert(pl is Added);
        let m2 = pl->Added_0;
        let p = relative_parts(root, q[0].1).unwrap();
        if p.drop_last().len() > 0 {
            let pp = part_names(p.drop_last()).push(part_name(p.last()));
            assert(pp.len() >= 2);
            assert(top != pp);
            assert(!is_prefix_of(pp, top));
            assert(m2 == replace_subtree(m, pp, q[0].0));
        }
        assert(m2.contains_key(top));
        lemma_top_stays(m2, root, q.drop_first(), top, out);
    }
}

/// Building a second time, after a build into an empty tree placed every
/// file, is refused: the first file in order of ids goes directly under the
/// root, where its name is now taken; the tree stays as it is.
pub proof fn law_second_build_refused(root: Seq<PartView>, q: Seq<QueuedView>, m: Map<TreePath, u128>)
    requires
        run_placements(Map::empty(), root, sort_by_id(q)) == Run::Built(m),
        q.len() > 0,
    ensures
        run_placements(m, root, sort_by_id(sort_by_id(q))) == Run::Stopped(
            m,
            Refusal::AlreadyExists,
            sort_by_id(q)[0],
        ),
{
    let s = sort_by_id(q);
    law_placement_order(q);
    lemma_sort_of_ordered(s);
    lemma_first_at_top(root, s, m);
    let p = relative_parts(root, s[0].1).unwrap();
    let top = seq![part_name(p[0])];
    let m1 = Map::<TreePath, u128>::empty().insert(top, s[0].0);
    assert(m1.contains_key(top));
    assert(run_placements(m1, root, s.drop_first()) == Run::Built(m));
    lemma_top_stays(m1, root, s.drop_first(), top, m);
    assert(p.drop_last().len() == 0);
    assert(p.last() == p[0]);
    assert(placement(m, root, s[0].0, s[0].1) == Placement::Failed(Refusal::AlreadyExists));
}

/// A path whose components are the root's followed by those of a relative
/// path is placed as that relative path: the same outcome and the same tree.
/// (Joining `./a` under the root gives the components of the root and `a`,
/// so it is placed as `a`, while `./a` alone is refused as not a name.)
pub proof fn law_absolute_as_relative(m: Map<TreePath, u128>, root: Seq<PartView>, id: u128, rel: Seq<PartView>)
    requires
        root.len() > 0,
        root[0] == PartView::RootDir,
        rel.len() == 0 || rel[0] != PartView::RootDir,
    ensures
        placement(m, root, id, root + rel) == placement(m, root, id, rel),
{
    let joined = root + rel;
    assert(joined[0] == PartView::RootDir);
    assert(joined.subrange(0, root.len() as int) =~= root);
    assert(joined.skip(root.len() as int) =~= rel);
    assert(relative_parts(root, joined) == Some(rel));
    assert(relative_parts(root, rel) == Some(rel));
}

} // verus!
