//! When building a tree succeeds: files placed in order of ids, each with
//! its directory placed before it, all land in the tree.

use vstd::prelude::*;
use crate::path::PartView;
use crate::file_tree::{
    TreePath, QueuedView, Placement, Run, placement, relative_parts, part_name, part_names,
    is_prefix_of, replace_subtree, descend, below, run_placements, sort_by_id,
};
use crate::tree_laws::{ordered_by_id, law_placement_order};

verus! {

/// The components of a queued file's path, taken relative to the root.
pub open spec fn entry_parts(root: Seq<PartView>, x: QueuedView) -> Seq<PartView> {
    relative_parts(root, x.1).unwrap()
}

/// A queued file whose path lies under the root and is made of names only.
pub open spec fn simple_entry(root: Seq<PartView>, x: QueuedView) -> bool {
    &&& relative_parts(root, x.1) is Some
    &&& entry_parts(root, x).len() > 0
    &&& forall|k: int| 0 <= k < entry_parts(root, x).len() ==> (#[trigger] entry_parts(root, x)[k]) is Normal
}

/// Where in the tree a queued file goes.
pub open spec fn placed_at(root: Seq<PartView>, x: QueuedView) -> TreePath {
    part_names(entry_parts(root, x))
}

/// The tree that holds each file of `s` at its place, with its id.
pub open spec fn placed_map(root: Seq<PartView>, s: Seq<QueuedView>) -> Map<TreePath, u128>
    decreases s.len(),
{
    if s.len() == 0 {
        Map::empty()
    } else {
        placed_map(root, s.drop_last()).insert(placed_at(root, s.last()), s.last().0)
    }
}

/// Every file of `s` is simple.
pub open spec fn all_simple(root: Seq<PartView>, s: Seq<QueuedView>) -> bool {
    forall|i: int| 0 <= i < s.len() ==> simple_entry(root, #[trigger] s[i])
}

/// No two files of `s` go to the same place.
pub open spec fn places_distinct(root: Seq<PartView>, s: Seq<QueuedView>) -> bool {
    forall|i: int, j: int|
        0 <= i < s.len() && 0 <= j < s.len() && i != j ==> placed_at(root, #[trigger] s[i]) != placed_at(
            root,
            #[trigger] s[j],
        )
}

/// Each file of `s` below a directory has that directory among the files of
/// `s`, with a smaller id.
pub open spec fn parents_earlier(root: Seq<PartView>, s: Seq<QueuedView>) -> bool {
    forall|i: int|
        0 <= i < s.len() && placed_at(root, #[trigger] s[i]).len() > 1 ==> exists|j: int|
            0 <= j < s.len() && placed_at(root, #[trigger] s[j]) == placed_at(root, s[i]).drop_last()
                && s[j].0 < s[i].0
}

proof fn lemma_placed_map(root: Seq<PartView>, s: Seq<QueuedView>)
    requires
        places_distinct(root, s),
    ensures
        forall|p: TreePath| #[trigger] placed_map(root, s).contains_key(p) ==> exists|i: int|
            0 <= i < s.len() && placed_at(root, s[i]) == p,
        forall|i: int| 0 <= i < s.len() ==> #[trigger] placed_map(root, s).contains_key(placed_at(root, s[i]))
            && placed_map(root, s)[placed_at(root, s[i])] == s[i].0,
    decreases s.len(),
{
    if s.len() > 0 {
        let t = s.drop_last();
        assert(places_distinct(root, t)) by {
            assert forall|i: int, j: int| 0 <= i < t.len() && 0 <= j < t.len() && i != j implies placed_at(
                root,
                #[trigger] t[i],
            ) != placed_at(root, #[trigger] t[j]) by {
                assert(t[i] == s[i] && t[j] == s[j]);
            }
        }
        lemma_placed_map(root, t);
        assert forall|p: TreePath| #[trigger] placed_map(root, s).contains_key(p) implies exists|i: int|
            0 <= i < s.len() && placed_at(root, s[i]) == p by {
            assert(placed_map(root, s) == placed_map(root, t).insert(placed_at(root, s.last()), s.last().0));
            if p != placed_at(root, s.last()) {
                assert(placed_map(root, t).contains_key(p));
                let i = choose|i: int| 0 <= i < t.len() && placed_at(root, t[i]) == p;
                assert(s[i] == t[i]);
            } else {
                assert(s[s.len() - 1] == s.last());
            }
        }
        assert forall|i: int| 0 <= i < s.len() implies #[trigger] placed_map(root, s).contains_key(
            placed_at(root, s[i]),
        ) && placed_map(root, s)[placed_at(root, s[i])] == s[i].0 by {
            assert(placed_map(root, s) == placed_map(root, t).insert(placed_at(root, s.last()), s.last().0));
            if i < s.len() - 1 {
                assert(s[i] == t[i]);
                assert(placed_map(root, t).contains_key(placed_at(root, t[i])));
                assert(placed_at(root, s[i]) != placed_at(root, s[s.len() - 1]));
            }
        }
    }
}

/// A file's directories, at every depth, are among the files, with smaller ids.
proof fn lemma_ancestor(root: Seq<PartView>, s: Seq<QueuedView>, i: int, l: int) -> (j: int)
    requires
        parents_earlier(root, s),
        0 <= i < s.len(),
        1 <= l < placed_at(root, s[i]).len(),
    ensures
        0 <= j < s.len(),
        placed_at(root, s[j]) == placed_at(root, s[i]).take(l),
        s[j].0 < s[i].0,
    decreases placed_at(root, s[i]).len() - l,
{
    let f = placed_at(root, s[i]);
    let j0 = choose|j: int| 0 <= j < s.len() && placed_at(root, #[trigger] s[j]) == f.drop_last() && s[j].0 < s[i].0;
    if l == f.len() - 1 {
        assert(f.take(l) =~= f.drop_last());
        j0
    } else {
        let j = lemma_ancestor(root, s, j0, l);
        assert(f.drop_last().take(l) =~= f.take(l));
        j
    }
}

/// Walking down names that are all in the tree never stops.
proof fn lemma_descend_all_present(m: Map<TreePath, u128>, rest: Seq<PartView>)
    requires
        forall|k: int| 0 <= k < rest.len() ==> (#[trigger] rest[k]) is Normal,
        forall|l: int| 1 <= l <= rest.len() ==> m.contains_key(#[trigger] part_names(rest).take(l)),
    ensures
        descend(m, rest) is None,
    decreases rest.len(),
{
    if rest.len() > 0 {
        let n = part_name(rest[0]);
        assert(rest[0] is Normal);
        assert(part_names(rest).take(1) =~= seq![n]);
        assert(m.contains_key(part_names(rest).take(1)));
        let r2 = rest.drop_first();
        let b = below(m, n);
        assert forall|k: int| 0 <= k < r2.len() implies (#[trigger] r2[k]) is Normal by {
            assert(r2[k] == rest[k + 1]);
        }
        assert forall|l: int| 1 <= l <= r2.len() implies b.contains_key(#[trigger] part_names(r2).take(l)) by {
            assert(seq![n] + part_names(r2).take(l) =~= part_names(rest).take(l + 1));
            assert(m.contains_key(part_names(rest).take(l + 1)));
        }
        lemma_descend_all_present(b, r2);
    }
}

proof fn lemma_ordered_index(s: Seq<QueuedView>, j: int, k: int)
    requires
        ordered_by_id(s),
        0 <= j < s.len(),
        0 <= k < s.len(),
        s[j].0 < s[k].0,
    ensures
        j < k,
{
    if j >= k {
        if j > k {
            assert(s[k].0 <= s[j].0);
        }
    }
}

/// Each file, in its turn, is placed and lands at its place.
proof fn lemma_step(root: Seq<PartView>, s: Seq<QueuedView>, k: int)
    requires
        ordered_by_id(s),
        all_simple(root, s),
        places_distinct(root, s),
        parents_earlier(root, s),
        0 <= k < s.len(),
    ensures
        placement(placed_map(root, s.take(k)), root, s[k].0, s[k].1) == Placement::Added(
            placed_map(root, s.take(k + 1)),
        ),
{
    let t = s.take(k);
    let m = placed_map(root, t);
    let e = s[k];
    let pc = entry_parts(root, e);
    let p = placed_at(root, e);
    assert(simple_entry(root, s[k]));
    assert(places_distinct(root, t)) by {
        assert forall|i: int, j: int| 0 <= i < t.len() && 0 <= j < t.len() && i != j implies placed_at(
            root,
            #[trigger] t[i],
        ) != placed_at(root, #[trigger] t[j]) by {
            assert(t[i] == s[i] && t[j] == s[j]);
        }
    }
    lemma_placed_map(root, t);
    // every directory above the file is in the tree
    assert forall|l: int| 1 <= l < p.len() implies m.contains_key(#[trigger] p.take(l)) by {
        let j = lemma_ancestor(root, s, k, l);
        lemma_ordered_index(s, j, k);
        assert(t[j] == s[j]);
    }
    // nothing stands at or below the file's place
    assert forall|f: TreePath| #[trigger] m.contains_key(f) implies !is_prefix_of(p, f) by {
        let i = choose|i: int| 0 <= i < t.len() && placed_at(root, t[i]) == f;
        assert(t[i] == s[i]);
        if is_prefix_of(p, f) {
            if f.len() == p.len() {
                assert(f =~= p);
                assert(placed_at(root, s[i]) != placed_at(root, s[k]));
            } else {
                let j = lemma_ancestor(root, s, i, p.len() as int);
                assert(f.take(p.len() as int) =~= p);
                assert(s[i].0 <= s[k].0);
                assert(j != k);
                assert(placed_at(root, s[j]) != placed_at(root, s[k]));
            }
        }
    }
    assert(p.subrange(0, p.len() as int) =~= p);
    assert(!m.contains_key(p));
    let dirs = pc.drop_last();
    let leaf = pc.last();
    assert(pc[pc.len() - 1] == leaf);
    assert(leaf is Normal);
    assert(p =~= part_names(dirs).push(part_name(leaf)));
    assert(s.take(k + 1).drop_last() =~= t);
    assert(s.take(k + 1).last() == e);
    let m2 = placed_map(root, s.take(k + 1));
    assert(m2 == m.insert(p, e.0));
    if dirs.len() == 0 {
        assert(p =~= seq![part_name(leaf)]);
    } else {
        assert forall|kk: int| 0 <= kk < dirs.len() implies (#[trigger] dirs[kk]) is Normal by {
            assert(dirs[kk] == pc[kk]);
        }
        assert forall|l: int| 1 <= l <= dirs.len() implies m.contains_key(#[trigger] part_names(dirs).take(l)) by {
            assert(part_names(dirs).take(l) =~= p.take(l));
        }
        lemma_descend_all_present(m, dirs);
        assert(replace_subtree(m, p, e.0) =~= m.insert(p, e.0)) by {
            assert forall|f: TreePath| #[trigger] m.contains_key(f) implies f != p by {}
        }
    }
}

proof fn lemma_run_from(root: Seq<PartView>, s: Seq<QueuedView>, k: int)
    requires
        ordered_by_id(s),
        all_simple(root, s),
        places_distinct(root, s),
        parents_earlier(root, s),
        0 <= k <= s.len(),
    ensures
        run_placements(placed_map(root, s.take(k)), root, s.skip(k)) == Run::Built(placed_map(root, s)),
    decreases s.len() - k,
{
    if k == s.len() {
        assert(s.take(k) =~= s);
        assert(s.skip(k).len() == 0);
    } else {
        lemma_step(root, s, k);
        lemma_run_from(root, s, k + 1);
        assert(s.skip(k)[0] == s[k]);
        assert(s.skip(k).drop_first() =~= s.skip(k + 1));
    }
}

/// Placing, in order of ids, files that each go to their own place, under
/// the root and named by names only, each below a directory that is placed
/// with a smaller id: every file is placed, and the tree holds exactly them.
pub proof fn law_ordered_placement_succeeds(root: Seq<PartView>, s: Seq<QueuedView>)
    requires
        ordered_by_id(s),
        all_simple(root, s),
        places_distinct(root, s),
        parents_earlier(root, s),
    ensures
        run_placements(Map::empty(), root, s) == Run::Built(placed_map(root, s)),
        forall|i: int| 0 <= i < s.len() ==> #[trigger] placed_map(root, s).contains_key(placed_at(root, s[i]))
            && placed_map(root, s)[placed_at(root, s[i])] == s[i].0,
        forall|p: TreePath| #[trigger] placed_map(root, s).contains_key(p) ==> exists|i: int|
            0 <= i < s.len() && placed_at(root, s[i]) == p,
{
    lemma_run_from(root, s, 0);
    assert(s.take(0) =~= Seq::<QueuedView>::empty());
    assert(s.skip(0) =~= s);
    lemma_placed_map(root, s);
}

/// The same, for files in any order, as building puts them in order of ids:
/// where each queued file goes to its own place under the root, named by
/// names only, below a directory queued with a smaller id, every file is
/// placed and the tree holds exactly the queued files.
pub proof fn law_build_places_every_file(root: Seq<PartView>, q: Seq<QueuedView>)
    requires
        q.no_duplicates(),
        forall|x: QueuedView| #[trigger] q.contains(x) ==> simple_entry(root, x),
        forall|x: QueuedView, y: QueuedView|
            #[trigger] q.contains(x) && #[trigger] q.contains(y) && placed_at(root, x) == placed_at(root, y) ==> x == y,
        forall|x: QueuedView|
            #[trigger] q.contains(x) && placed_at(root, x).len() > 1 ==> exists|y: QueuedView|
                #[trigger] q.contains(y) && placed_at(root, y) == placed_at(root, x).drop_last() && y.0 < x.0,
    ensures
        run_placements(Map::empty(), root, sort_by_id(q)) == Run::Built(placed_map(root, sort_by_id(q))),
        forall|x: QueuedView| #[trigger] q.contains(x) ==> placed_map(root, sort_by_id(q)).contains_key(placed_at(root, x))
            && placed_map(root, sort_by_id(q))[placed_at(root, x)] == x.0,
        forall|p: TreePath| #[trigger] placed_map(root, sort_by_id(q)).contains_key(p) ==> exists|x: QueuedView|
            q.contains(x) && placed_at(root, x) == p,
{
    broadcast use vstd::seq_lib::group_to_multiset_ensures;
    let s = sort_by_id(q);
    law_placement_order(q);
    assert forall|x: QueuedView| s.contains(x) <==> q.contains(x) by {
        assert(s.to_multiset().count(x) == q.to_multiset().count(x));
    }
    q.lemma_multiset_has_no_duplicates();
    s.lemma_multiset_has_no_duplicates_conv();
    assert forall|i: int| 0 <= i < s.len() implies simple_entry(root, #[trigger] s[i]) by {
        assert(s.contains(s[i]));
    }
    assert forall|i: int, j: int| 0 <= i < s.len() && 0 <= j < s.len() && i != j implies placed_at(
        root,
        #[trigger] s[i],
    ) != placed_at(root, #[trigger] s[j]) by {
        assert(s.contains(s[i]) && s.contains(s[j]));
    }
    assert forall|i: int| 0 <= i < s.len() && placed_at(root, #[trigger] s[i]).len() > 1 implies exists|j: int|
        0 <= j < s.len() && placed_at(root, #[trigger] s[j]) == placed_at(root, s[i]).drop_last() && s[j].0
            < s[i].0 by {
        assert(s.contains(s[i]));
        let y = choose|y: QueuedView| #[trigger] q.contains(y) && placed_at(root, y) == placed_at(root, s[i]).drop_last()
            && y.0 < s[i].0;
        assert(s.contains(y));
        let j = choose|j: int| 0 <= j < s.len() && s[j] == y;
        assert(placed_at(root, s[j]) == placed_at(root, s[i]).drop_last());
    }
    law_ordered_placement_succeeds(root, s);
    assert forall|x: QueuedView| #[trigger] q.contains(x) implies placed_map(root, s).contains_key(placed_at(root, x))
        && placed_map(root, s)[placed_at(root, x)] == x.0 by {
        assert(s.contains(x));
        let i = choose|i: int| 0 <= i < s.len() && s[i] == x;
        assert(placed_map(root, s).contains_key(placed_at(root, s[i])));
    }
    assert forall|p: TreePath| #[trigger] placed_map(root, s).contains_key(p) implies exists|x: QueuedView|
        q.contains(x) && placed_at(root, x) == p by {
        let i = choose|i: int| 0 <= i < s.len() && placed_at(root, s[i]) == p;
        assert(s.contains(s[i]));
    }
}

} // verus!
