//! Which instances the walk visits: those that can be reached from the
//! roots over child lists, and in a well-formed tree each of them once.

use vstd::prelude::*;
use vstd::seq_lib::lemma_no_dup_in_concat;
use rbx_tree::RbxId;
use crate::referents::{
    lemma_document_referents, referents, visited, visited_from, written_out,
};
use crate::serializer::{document_tokens, forest_tokens, instance_tokens};
use crate::tree::Node;

verus! {

/// Whether `path` leads through the tree from child list to child list.
pub open spec fn is_path(tree: Map<RbxId, Node>, path: Seq<RbxId>) -> bool {
    &&& path.len() > 0
    &&& forall|i: int| 0 <= i < path.len() ==> tree.contains_key(#[trigger] path[i])
    &&& forall|i: int|
        0 <= i < path.len() - 1 ==> tree[#[trigger] path[i]].children.contains(path[i + 1])
}

/// Whether `id` is one of `roots` or lies below one of them.
pub open spec fn reachable(tree: Map<RbxId, Node>, roots: Seq<RbxId>, id: RbxId) -> bool {
    exists|path: Seq<RbxId>|
        is_path(tree, path) && roots.contains(#[trigger] path.first()) && path.last() == id
}

/// What the walks from `ids` visit, the walk from one of them visits.
pub proof fn lemma_visited_member(tree: Map<RbxId, Node>, ids: Seq<RbxId>, fuel: nat, x: RbxId)
    -> (i: int)
    requires
        visited(tree, ids, fuel).contains(x),
    ensures
        0 <= i < ids.len(),
        visited_from(tree, ids[i], fuel).contains(x),
    decreases ids.len(),
{
    let before = visited(tree, ids.drop_last(), fuel);
    let last = visited_from(tree, ids.last(), fuel);
    let k = choose|k: int| 0 <= k < (before + last).len() && (before + last)[k] == x;
    if k < before.len() {
        assert(before[k] == x);
        lemma_visited_member(tree, ids.drop_last(), fuel, x)
    } else {
        assert(last[k - before.len()] == x);
        ids.len() - 1
    }
}

/// What the walk from one of `ids` visits, the walks from `ids` visit.
pub proof fn lemma_visited_holds(
    tree: Map<RbxId, Node>,
    ids: Seq<RbxId>,
    fuel: nat,
    i: int,
    x: RbxId,
)
    requires
        0 <= i < ids.len(),
        visited_from(tree, ids[i], fuel).contains(x),
    ensures
        visited(tree, ids, fuel).contains(x),
    decreases ids.len(),
{
    let before = visited(tree, ids.drop_last(), fuel);
    let last = visited_from(tree, ids.last(), fuel);
    if i < ids.len() - 1 {
        lemma_visited_holds(tree, ids.drop_last(), fuel, i, x);
        let k = choose|k: int| 0 <= k < before.len() && before[k] == x;
        assert((before + last)[k] == x);
    } else {
        let k = choose|k: int| 0 <= k < last.len() && last[k] == x;
        assert((before + last)[before.len() + k] == x);
    }
}

/// Where several instances have an encoding, each of them has one.
pub proof fn lemma_forest_members_encode(
    tree: Map<RbxId, Node>,
    ids: Seq<RbxId>,
    fuel: nat,
    i: int,
)
    requires
        forest_tokens(tree, ids, fuel) is Ok,
        0 <= i < ids.len(),
    ensures
        instance_tokens(tree, ids[i], fuel) is Ok,
    decreases ids.len(),
{
    if i < ids.len() - 1 {
        lemma_forest_members_encode(tree, ids.drop_last(), fuel, i);
    }
}

/// The walk from an instance visits only what can be reached from it.
pub proof fn lemma_visited_is_reachable(tree: Map<RbxId, Node>, id: RbxId, fuel: nat, x: RbxId)
    requires
        visited_from(tree, id, fuel).contains(x),
    ensures
        reachable(tree, seq![id], x),
    decreases fuel,
{
    let below = visited(tree, tree[id].children, (fuel - 1) as nat);
    let all = seq![id] + below;
    let k = choose|k: int| 0 <= k < all.len() && all[k] == x;
    assert(seq![id].contains(id)) by {
        assert(seq![id][0] == id);
    }
    if k == 0 {
        let path = seq![id];
        assert(is_path(tree, path));
        assert(path.first() == id && path.last() == x);
    } else {
        assert(below[k - 1] == x);
        let children = tree[id].children;
        let i = lemma_visited_member(tree, children, (fuel - 1) as nat, x);
        lemma_visited_is_reachable(tree, children[i], (fuel - 1) as nat, x);
        let rest = choose|path: Seq<RbxId>|
            is_path(tree, path) && seq![children[i]].contains(#[trigger] path.first())
                && path.last() == x;
        assert(rest.first() == children[i]);
        let path = seq![id] + rest;
        assert(children.contains(children[i]));
        assert forall|j: int| 0 <= j < path.len() - 1 implies tree[#[trigger] path[j]].children.contains(
        path[j + 1]) by {
            if j > 0 {
                assert(path[j] == rest[j - 1]);
                assert(path[j + 1] == rest[j]);
            } else {
                assert(path[1] == rest[0]);
            }
        }
        assert forall|j: int| 0 <= j < path.len() implies tree.contains_key(#[trigger] path[j]) by {
            if j > 0 {
                assert(path[j] == rest[j - 1]);
            }
        }
        assert(is_path(tree, path));
        assert(path.first() == id && path.last() == x);
    }
}

/// The walk from an instance that has an encoding visits the end of every
/// path that starts at the instance.
pub proof fn lemma_path_is_visited(tree: Map<RbxId, Node>, path: Seq<RbxId>, fuel: nat)
    requires
        is_path(tree, path),
        instance_tokens(tree, path.first(), fuel) is Ok,
    ensures
        visited_from(tree, path.first(), fuel).contains(path.last()),
    decreases path.len(),
{
    let id = path.first();
    let children = tree[id].children;
    let below = visited(tree, children, (fuel - 1) as nat);
    let all = seq![id] + below;
    if path.len() == 1 {
        assert(all[0] == id);
    } else {
        let rest = path.drop_first();
        assert(tree[path[0]].children.contains(path[1]));
        let i = choose|i: int| 0 <= i < children.len() && children[i] == path[1];
        lemma_forest_members_encode(tree, children, (fuel - 1) as nat, i);
        assert(is_path(tree, rest)) by {
            assert forall|j: int| 0 <= j < rest.len() implies tree.contains_key(
                #[trigger] rest[j],
            ) by {
                assert(rest[j] == path[j + 1]);
            }
            assert forall|j: int| 0 <= j < rest.len() - 1 implies tree[#[trigger] rest[j]].children.contains(
            rest[j + 1]) by {
                assert(rest[j] == path[j + 1]);
                assert(rest[j + 1] == path[j + 2]);
            }
        }
        lemma_path_is_visited(tree, rest, (fuel - 1) as nat);
        lemma_visited_holds(tree, children, (fuel - 1) as nat, i, path.last());
        let k = choose|k: int| 0 <= k < below.len() && below[k] == path.last();
        assert(all[k + 1] == path.last());
    }
}

/// Where the roots have encodings, the walks from them visit exactly the
/// instances that are roots or lie below a root.
pub proof fn lemma_visited_iff_reachable(
    tree: Map<RbxId, Node>,
    roots: Seq<RbxId>,
    fuel: nat,
    x: RbxId,
)
    requires
        forest_tokens(tree, roots, fuel) is Ok,
    ensures
        visited(tree, roots, fuel).contains(x) <==> reachable(tree, roots, x),
{
    if visited(tree, roots, fuel).contains(x) {
        let i = lemma_visited_member(tree, roots, fuel, x);
        lemma_visited_is_reachable(tree, roots[i], fuel, x);
        let path = choose|path: Seq<RbxId>|
            is_path(tree, path) && seq![roots[i]].contains(#[trigger] path.first()) && path.last()
                == x;
        assert(path.first() == roots[i]);
        assert(roots.contains(path.first()));
    }
    if reachable(tree, roots, x) {
        let path = choose|path: Seq<RbxId>|
            is_path(tree, path) && roots.contains(#[trigger] path.first()) && path.last() == x;
        let i = choose|i: int| 0 <= i < roots.len() && roots[i] == path.first();
        lemma_forest_members_encode(tree, roots, fuel, i);
        lemma_path_is_visited(tree, path, fuel);
        lemma_visited_holds(tree, roots, fuel, i, x);
    }
}


/// Whether no instance stands in two child lists, or twice in one.
pub open spec fn single_parent(tree: Map<RbxId, Node>) -> bool {
    forall|p: RbxId, q: RbxId, i: int, j: int|
        tree.contains_key(p) && tree.contains_key(q) && 0 <= i < tree[p].children.len() && 0 <= j
            < tree[q].children.len() && #[trigger] tree[p].children[i]
            == #[trigger] tree[q].children[j] ==> p == q && i == j
}

/// Whether `level` puts each child one level below its parent.
pub open spec fn levelled(tree: Map<RbxId, Node>, level: spec_fn(RbxId) -> nat) -> bool {
    forall|p: RbxId, i: int|
        tree.contains_key(p) && 0 <= i < tree[p].children.len() ==> level(
            #[trigger] tree[p].children[i],
        ) == level(p) + 1
}

/// Whether different instances carry different identifiers.
pub open spec fn distinct_referents(tree: Map<RbxId, Node>) -> bool {
    forall|a: RbxId, b: RbxId|
        tree.contains_key(a) && tree.contains_key(b) && tree[a].referent == tree[b].referent ==> a
            == b
}

/// Whether the instances form trees: each has at most one parent, no
/// child list leads back to where it came from, and the identifiers that
/// the instances carry tell them apart.
pub open spec fn is_tree(tree: Map<RbxId, Node>) -> bool {
    &&& single_parent(tree)
    &&& exists|level: spec_fn(RbxId) -> nat| levelled(tree, level)
    &&& distinct_referents(tree)
}

/// Whether no root is listed twice or lies below another root.
pub open spec fn roots_apart(tree: Map<RbxId, Node>, roots: Seq<RbxId>) -> bool {
    forall|i: int, j: int|
        0 <= i < roots.len() && 0 <= j < roots.len() && i != j ==> !reachable(
            tree,
            seq![#[trigger] roots[i]],
            #[trigger] roots[j],
        )
}

/// The instance in whose child list `id` stands.
pub open spec fn parent_of(tree: Map<RbxId, Node>, id: RbxId) -> RbxId {
    choose|p: RbxId| tree.contains_key(p) && tree[p].children.contains(id)
}

/// The instance that is reached from `id` by going `steps` times to the
/// parent.
pub open spec fn ancestor(tree: Map<RbxId, Node>, id: RbxId, steps: nat) -> RbxId
    decreases steps,
{
    if steps == 0 {
        id
    } else {
        parent_of(tree, ancestor(tree, id, (steps - 1) as nat))
    }
}

/// What the walk from `c` visits lies at the level of `c` or below, has
/// `c` as its ancestor at the level of `c`, and all its ancestors down
/// from there are visited by the walk too.
proof fn lemma_visited_below(
    tree: Map<RbxId, Node>,
    level: spec_fn(RbxId) -> nat,
    c: RbxId,
    fuel: nat,
    x: RbxId,
)
    requires
        single_parent(tree),
        levelled(tree, level),
        visited_from(tree, c, fuel).contains(x),
    ensures
        level(x) >= level(c),
        ancestor(tree, x, (level(x) - level(c)) as nat) == c,
        forall|s: nat|
            s <= level(x) - level(c) ==> visited_from(tree, c, fuel).contains(
                #[trigger] ancestor(tree, x, s),
            ),
    decreases fuel,
{
    let children = tree[c].children;
    let below = visited(tree, children, (fuel - 1) as nat);
    let all = seq![c] + below;
    assert(all[0] == c);
    if x == c {
    } else {
        let k = choose|k: int| 0 <= k < all.len() && all[k] == x;
        assert(below[k - 1] == x);
        let i = lemma_visited_member(tree, children, (fuel - 1) as nat, x);
        let d = children[i];
        lemma_visited_below(tree, level, d, (fuel - 1) as nat, x);
        assert(level(d) == level(c) + 1);
        let up = (level(x) - level(d)) as nat;
        assert(ancestor(tree, x, up) == d);
        assert(children.contains(d));
        let p = parent_of(tree, d);
        assert(tree.contains_key(p) && tree[p].children.contains(d));
        let j = choose|j: int| 0 <= j < tree[p].children.len() && tree[p].children[j] == d;
        assert(tree[p].children[j] == tree[c].children[i]);
        assert(p == c);
        assert(ancestor(tree, x, (up + 1) as nat) == c);
        assert forall|s: nat| s <= level(x) - level(c) implies visited_from(tree, c, fuel).contains(
            #[trigger] ancestor(tree, x, s),
        ) by {
            if s <= up {
                assert(visited_from(tree, d, (fuel - 1) as nat).contains(ancestor(tree, x, s)));
                lemma_visited_holds(tree, children, (fuel - 1) as nat, i, ancestor(tree, x, s));
                let m = choose|m: int| 0 <= m < below.len() && below[m] == ancestor(tree, x, s);
                assert(all[m + 1] == ancestor(tree, x, s));
            }
        }
    }
}

/// In a tree the walk from an instance visits nothing twice, nor do the
/// walks from the first `n` children of an instance.
proof fn lemma_walk_visits_once(
    tree: Map<RbxId, Node>,
    level: spec_fn(RbxId) -> nat,
    c: RbxId,
    n: int,
    fuel: nat,
)
    requires
        single_parent(tree),
        levelled(tree, level),
        tree.contains_key(c),
        0 <= n <= tree[c].children.len(),
    ensures
        visited(tree, tree[c].children.take(n), fuel).no_duplicates(),
        n == tree[c].children.len() ==> visited_from(tree, c, fuel + 1).no_duplicates(),
    decreases fuel, n,
{
    let children = tree[c].children;
    let some = children.take(n);
    if n > 0 {
        let d = children[n - 1];
        assert(some.drop_last() =~= children.take(n - 1));
        assert(some.last() == d);
        let before = visited(tree, children.take(n - 1), fuel);
        let last = visited_from(tree, d, fuel);
        lemma_walk_visits_once(tree, level, c, n - 1, fuel);
        if tree.contains_key(d) && fuel > 0 {
            lemma_walk_visits_once(tree, level, d, tree[d].children.len() as int, (fuel - 1) as nat);
        }
        assert forall|a: int, b: int| 0 <= a < before.len() && 0 <= b < last.len() implies before[a]
            != last[b] by {
            if before[a] == last[b] {
                let x = before[a];
                assert(before.contains(x));
                assert(last.contains(x));
                let i = lemma_visited_member(tree, children.take(n - 1), fuel, x);
                let e = children.take(n - 1)[i];
                assert(e == children[i]);
                lemma_visited_below(tree, level, e, fuel, x);
                lemma_visited_below(tree, level, d, fuel, x);
                assert(level(e) == level(c) + 1);
                assert(level(d) == level(c) + 1);
                assert(tree[c].children[i] == tree[c].children[n - 1]);
            }
        }
        lemma_no_dup_in_concat(before, last);
    }
    if n == children.len() {
        assert(some =~= children);
        let below = visited(tree, children, fuel);
        assert forall|a: int, b: int| 0 <= a < 1 && 0 <= b < below.len() implies seq![c][a]
            != below[b] by {
            if below[b] == c {
                assert(below.contains(c));
                let i = lemma_visited_member(tree, children, fuel, c);
                lemma_visited_below(tree, level, children[i], fuel, c);
                assert(level(children[i]) == level(c) + 1);
            }
        }
        lemma_no_dup_in_concat(seq![c], below);
    }
}


/// The walk from an instance visits instances of the tree only.
pub proof fn lemma_visited_in_tree(tree: Map<RbxId, Node>, ids: Seq<RbxId>, fuel: nat, x: RbxId)
    requires
        visited(tree, ids, fuel).contains(x),
    ensures
        tree.contains_key(x),
{
    let i = lemma_visited_member(tree, ids, fuel, x);
    lemma_visited_is_reachable(tree, ids[i], fuel, x);
    let path = choose|path: Seq<RbxId>|
        is_path(tree, path) && seq![ids[i]].contains(#[trigger] path.first()) && path.last() == x;
    assert(tree.contains_key(path[path.len() - 1]));
}

/// In a tree the walks from the first `n` of roots that lie apart visit
/// nothing twice.
proof fn lemma_roots_visit_once(
    tree: Map<RbxId, Node>,
    level: spec_fn(RbxId) -> nat,
    roots: Seq<RbxId>,
    n: int,
    fuel: nat,
)
    requires
        single_parent(tree),
        levelled(tree, level),
        roots_apart(tree, roots),
        0 <= n <= roots.len(),
    ensures
        visited(tree, roots.take(n), fuel).no_duplicates(),
    decreases n,
{
    if n > 0 {
        let some = roots.take(n);
        let r = roots[n - 1];
        assert(some.drop_last() =~= roots.take(n - 1));
        assert(some.last() == r);
        let before = visited(tree, roots.take(n - 1), fuel);
        let last = visited_from(tree, r, fuel);
        lemma_roots_visit_once(tree, level, roots, n - 1, fuel);
        if tree.contains_key(r) && fuel > 0 {
            lemma_walk_visits_once(tree, level, r, tree[r].children.len() as int, (fuel - 1) as nat);
        }
        assert forall|a: int, b: int| 0 <= a < before.len() && 0 <= b < last.len() implies before[a]
            != last[b] by {
            if before[a] == last[b] {
                let x = before[a];
                assert(before.contains(x));
                assert(last.contains(x));
                let i = lemma_visited_member(tree, roots.take(n - 1), fuel, x);
                let q = roots.take(n - 1)[i];
                assert(q == roots[i]);
                lemma_visited_below(tree, level, q, fuel, x);
                lemma_visited_below(tree, level, r, fuel, x);
                if level(q) <= level(r) {
                    let s = (level(x) - level(r)) as nat;
                    assert(visited_from(tree, q, fuel).contains(ancestor(tree, x, s)));
                    lemma_visited_is_reachable(tree, roots[i], fuel, roots[n - 1]);
                    assert(!reachable(tree, seq![roots[i]], roots[n - 1]));
                } else {
                    let s = (level(x) - level(q)) as nat;
                    assert(visited_from(tree, r, fuel).contains(ancestor(tree, x, s)));
                    lemma_visited_is_reachable(tree, roots[n - 1], fuel, roots[i]);
                    assert(!reachable(tree, seq![roots[n - 1]], roots[i]));
                }
            }
        }
        lemma_no_dup_in_concat(before, last);
    }
}

/// In a tree, the walks from roots of which none is listed twice or lies
/// below another visit no instance twice.
pub proof fn lemma_visits_unique(tree: Map<RbxId, Node>, roots: Seq<RbxId>, fuel: nat)
    requires
        is_tree(tree),
        roots_apart(tree, roots),
    ensures
        visited(tree, roots, fuel).no_duplicates(),
{
    let level = choose|level: spec_fn(RbxId) -> nat| levelled(tree, level);
    lemma_roots_visit_once(tree, level, roots, roots.len() as int, fuel);
    assert(roots.take(roots.len() as int) =~= roots);
}

/// The identifiers that a document carries are exactly those of the
/// instances that are roots or lie below a root; and where the instances
/// form trees and no root is listed twice or lies below another, the
/// document carries none of them twice.
pub proof fn lemma_referents_are_reachable_once(
    tree: Map<RbxId, Node>,
    roots: Seq<RbxId>,
    fuel: nat,
)
    requires
        document_tokens(tree, roots, fuel) is Ok,
    ensures
        forall|r: Seq<char>|
            referents(document_tokens(tree, roots, fuel).unwrap()).contains(r) <==> exists|
                id: RbxId,
            | #[trigger] reachable(tree, roots, id) && tree[id].referent == r,
        is_tree(tree) && roots_apart(tree, roots) ==> referents(
            document_tokens(tree, roots, fuel).unwrap(),
        ).no_duplicates(),
{
    let carried = referents(document_tokens(tree, roots, fuel).unwrap());
    let seen = visited(tree, roots, fuel);
    lemma_document_referents(tree, roots, fuel);
    assert(carried == written_out(tree, seen));
    assert forall|r: Seq<char>| carried.contains(r) <==> exists|id: RbxId| #[trigger]
        reachable(tree, roots, id) && tree[id].referent == r by {
        if carried.contains(r) {
            let k = choose|k: int| 0 <= k < carried.len() && carried[k] == r;
            assert(seen.contains(seen[k]));
            lemma_visited_iff_reachable(tree, roots, fuel, seen[k]);
            assert(reachable(tree, roots, seen[k]) && tree[seen[k]].referent == r);
        }
        if exists|id: RbxId| #[trigger] reachable(tree, roots, id) && tree[id].referent == r {
            let id = choose|id: RbxId| #[trigger]
                reachable(tree, roots, id) && tree[id].referent == r;
            lemma_visited_iff_reachable(tree, roots, fuel, id);
            let k = choose|k: int| 0 <= k < seen.len() && seen[k] == id;
            assert(carried[k] == r);
        }
    }
    if is_tree(tree) && roots_apart(tree, roots) {
        lemma_visits_unique(tree, roots, fuel);
        assert forall|a: int, b: int|
            0 <= a < carried.len() && 0 <= b < carried.len() && a != b implies carried[a]
            != carried[b] by {
            assert(seen.contains(seen[a]));
            assert(seen.contains(seen[b]));
            lemma_visited_in_tree(tree, roots, fuel, seen[a]);
            lemma_visited_in_tree(tree, roots, fuel, seen[b]);
            assert(seen[a] != seen[b]);
        }
    }
}

} // verus!
