//! When a tree has an encoding: what each failure points to, and which
//! trees cannot fail.

use vstd::prelude::*;
use rbx_tree::RbxId;
use crate::error::EncodeError;
use crate::reach::{
    is_path, lemma_forest_members_encode, lemma_visited_iff_reachable, lemma_visited_member,
    levelled, reachable,
};
use crate::referents::{visited, visited_from};
use crate::serializer::{all_supported, document_tokens, forest_tokens, instance_tokens, size};
use crate::token::{open1, TokenModel};
use crate::tree::Node;

verus! {

/// Whether the encoder fails with `error` at the end of `path` when
/// `fuel` is what it started with at the start of the path.
pub open spec fn fails_at(tree: Map<RbxId, Node>, path: Seq<RbxId>, fuel: nat, error: EncodeError) -> bool {
    match error {
        EncodeError::MissingInstance => exists|i: int|
            0 <= i < tree[path.last()].children.len() && !tree.contains_key(
                #[trigger] tree[path.last()].children[i],
            ),
        EncodeError::UnsupportedValue => !all_supported(tree[path.last()].properties),
        EncodeError::TooDeep => path.len() == fuel + 1,
        EncodeError::Sink => false,
    }
}

/// Where several instances have no encoding, the first of them that has
/// none fails in the same way.
pub proof fn lemma_forest_failure(tree: Map<RbxId, Node>, ids: Seq<RbxId>, fuel: nat) -> (i: int)
    requires
        forest_tokens(tree, ids, fuel) is Err,
    ensures
        0 <= i < ids.len(),
        instance_tokens(tree, ids[i], fuel) is Err,
        instance_tokens(tree, ids[i], fuel)->Err_0 == forest_tokens(tree, ids, fuel)->Err_0,
    decreases ids.len(),
{
    if forest_tokens(tree, ids.drop_last(), fuel) is Err {
        lemma_forest_failure(tree, ids.drop_last(), fuel)
    } else {
        ids.len() - 1
    }
}

/// Where an instance of the tree has no encoding, a path leads from it to
/// the instance at which the encoder fails: one with a child that is not
/// in the tree, one with a value that has no element, or one that lies as
/// deep as the fuel allows and not deep enough for it.
pub proof fn lemma_failure_path(tree: Map<RbxId, Node>, id: RbxId, fuel: nat) -> (path: Seq<RbxId>)
    requires
        tree.contains_key(id),
        instance_tokens(tree, id, fuel) is Err,
    ensures
        is_path(tree, path),
        path.first() == id,
        fails_at(tree, path, fuel, instance_tokens(tree, id, fuel)->Err_0),
    decreases fuel,
{
    let start = seq![id];
    let error = instance_tokens(tree, id, fuel)->Err_0;
    assert(start.last() == id);
    if fuel == 0 || !all_supported(tree[id].properties) {
        assert(is_path(tree, start));
        start
    } else {
        let children = tree[id].children;
        let i = lemma_forest_failure(tree, children, (fuel - 1) as nat);
        let child = children[i];
        assert(instance_tokens(tree, child, (fuel - 1) as nat)->Err_0 == error);
        if !tree.contains_key(child) {
            assert(is_path(tree, start));
            assert(error == EncodeError::MissingInstance);
            assert(!tree.contains_key(tree[start.last()].children[i]));
            start
        } else {
            let rest = lemma_failure_path(tree, child, (fuel - 1) as nat);
            let path = start + rest;
            assert(children.contains(child));
            assert forall|j: int| 0 <= j < path.len() implies tree.contains_key(
                #[trigger] path[j],
            ) by {
                if j > 0 {
                    assert(path[j] == rest[j - 1]);
                }
            }
            assert forall|j: int| 0 <= j < path.len() - 1 implies tree[#[trigger] path[j]].children.contains(
            path[j + 1]) by {
                if j > 0 {
                    assert(path[j] == rest[j - 1]);
                    assert(path[j + 1] == rest[j]);
                } else {
                    assert(path[1] == rest[0]);
                }
            }
            assert(path.last() == rest.last());
            assert(fails_at(tree, rest, (fuel - 1) as nat, error));
            if error == EncodeError::MissingInstance {
                let k = choose|k: int|
                    0 <= k < tree[rest.last()].children.len() && !tree.contains_key(
                        #[trigger] tree[rest.last()].children[k],
                    );
                assert(!tree.contains_key(tree[path.last()].children[k]));
            }
            path
        }
    }
}

/// A path through instances that lie level below level holds no instance
/// twice.
pub proof fn lemma_path_visits_once(
    tree: Map<RbxId, Node>,
    level: spec_fn(RbxId) -> nat,
    path: Seq<RbxId>,
)
    requires
        levelled(tree, level),
        is_path(tree, path),
    ensures
        forall|i: int| 0 <= i < path.len() ==> level(#[trigger] path[i]) == level(path[0]) + i,
        path.no_duplicates(),
    decreases path.len(),
{
    if path.len() > 1 {
        let front = path.drop_last();
        assert(is_path(tree, front)) by {
            assert forall|j: int| 0 <= j < front.len() implies tree.contains_key(
                #[trigger] front[j],
            ) by {
                assert(front[j] == path[j]);
            }
            assert forall|j: int| 0 <= j < front.len() - 1 implies tree[#[trigger] front[j]].children.contains(
            front[j + 1]) by {
                assert(front[j] == path[j]);
                assert(front[j + 1] == path[j + 1]);
            }
        }
        lemma_path_visits_once(tree, level, front);
        let n = path.len() - 1;
        let siblings = tree[path[n - 1]].children;
        assert(siblings.contains(path[n]));
        let k = choose|k: int| 0 <= k < siblings.len() && siblings[k] == path[n];
        assert(level(tree[path[n - 1]].children[k]) == level(path[n - 1]) + 1);
        assert(level(front[n - 1]) == level(front[0]) + (n - 1));
        assert forall|i: int| 0 <= i < path.len() implies level(#[trigger] path[i]) == level(
            path[0],
        ) + i by {
            if i < n {
                assert(front[i] == path[i]);
            }
        }
    }
}

/// A path through a finite tree whose instances lie level below level is
/// at most as long as the tree has instances.
pub proof fn lemma_path_is_short(
    tree: Map<RbxId, Node>,
    level: spec_fn(RbxId) -> nat,
    path: Seq<RbxId>,
)
    requires
        tree.dom().finite(),
        levelled(tree, level),
        is_path(tree, path),
    ensures
        path.len() <= size(tree),
{
    lemma_path_visits_once(tree, level, path);
    path.unique_seq_to_set();
    assert(path.to_set().subset_of(tree.dom())) by {
        assert forall|x: RbxId| path.to_set().contains(x) implies tree.dom().contains(x) by {
            assert(path.contains(x));
            let i = choose|i: int| 0 <= i < path.len() && path[i] == x;
            assert(tree.contains_key(path[i]));
        }
    }
    vstd::set_lib::lemma_len_subset(path.to_set(), tree.dom());
}

/// Whether the encoder can walk the whole of `tree`: the tree is finite,
/// every child is an instance of it, no child list leads back to where
/// it came from, and every value has an element.
pub open spec fn encodable(tree: Map<RbxId, Node>) -> bool {
    &&& tree.dom().finite()
    &&& exists|level: spec_fn(RbxId) -> nat| levelled(tree, level)
    &&& forall|id: RbxId, i: int|
        tree.contains_key(id) && 0 <= i < tree[id].children.len() ==> tree.contains_key(
            #[trigger] tree[id].children[i],
        )
    &&& forall|id: RbxId| #[trigger] tree.contains_key(id) ==> all_supported(tree[id].properties)
}

/// An encodable tree has a document for all roots that are instances of
/// it, when the fuel is the number of its instances.
pub proof fn lemma_encodable_has_document(tree: Map<RbxId, Node>, roots: Seq<RbxId>)
    requires
        encodable(tree),
        forall|i: int| 0 <= i < roots.len() ==> tree.contains_key(#[trigger] roots[i]),
    ensures
        document_tokens(tree, roots, size(tree)) is Ok,
{
    let fuel = size(tree);
    if forest_tokens(tree, roots, fuel) is Err {
        let i = lemma_forest_failure(tree, roots, fuel);
        let path = lemma_failure_path(tree, roots[i], fuel);
        let level = choose|level: spec_fn(RbxId) -> nat| levelled(tree, level);
        lemma_path_is_short(tree, level, path);
        assert(tree.contains_key(path[path.len() - 1]));
        assert(false);
    }
}

/// Where a document exists, every instance that is a root or lies below
/// a root holds only values that have an element.
pub proof fn lemma_document_values_supported(
    tree: Map<RbxId, Node>,
    roots: Seq<RbxId>,
    fuel: nat,
    id: RbxId,
)
    requires
        document_tokens(tree, roots, fuel) is Ok,
        reachable(tree, roots, id),
    ensures
        tree.contains_key(id),
        all_supported(tree[id].properties),
{
    lemma_visited_iff_reachable(tree, roots, fuel, id);
    let i = lemma_visited_member(tree, roots, fuel, id);
    lemma_forest_members_encode(tree, roots, fuel, i);
    lemma_visited_encodes(tree, roots[i], fuel, id);
}

/// What the walk from an instance with an encoding visits is an instance
/// of the tree whose values all have an element.
proof fn lemma_visited_encodes(tree: Map<RbxId, Node>, c: RbxId, fuel: nat, x: RbxId)
    requires
        instance_tokens(tree, c, fuel) is Ok,
        visited_from(tree, c, fuel).contains(x),
    ensures
        tree.contains_key(x),
        all_supported(tree[x].properties),
    decreases fuel,
{
    let children = tree[c].children;
    let below = visited(tree, children, (fuel - 1) as nat);
    let all = seq![c] + below;
    if x != c {
        let k = choose|k: int| 0 <= k < all.len() && all[k] == x;
        assert(below[k - 1] == x);
        let i = lemma_visited_member(tree, children, (fuel - 1) as nat, x);
        lemma_forest_members_encode(tree, children, (fuel - 1) as nat, i);
        lemma_visited_encodes(tree, children[i], (fuel - 1) as nat, x);
    }
}


/// An encoding does not depend on the fuel: with more fuel the encoder
/// produces the same tokens.
pub proof fn lemma_more_fuel(tree: Map<RbxId, Node>, ids: Seq<RbxId>, fuel: nat, more: nat)
    requires
        forest_tokens(tree, ids, fuel) is Ok,
        fuel <= more,
    ensures
        forest_tokens(tree, ids, more) == forest_tokens(tree, ids, fuel),
        document_tokens(tree, ids, more) == document_tokens(tree, ids, fuel),
        forall|i: int|
            0 <= i < ids.len() ==> #[trigger] instance_tokens(tree, ids[i], more)
                == instance_tokens(tree, ids[i], fuel),
    decreases fuel, ids.len(),
{
    if ids.len() > 0 {
        let last = ids.last();
        assert(forest_tokens(tree, ids.drop_last(), fuel) is Ok);
        assert(instance_tokens(tree, last, fuel) is Ok);
        lemma_more_fuel(tree, ids.drop_last(), fuel, more);
        lemma_more_fuel(tree, tree[last].children, (fuel - 1) as nat, (more - 1) as nat);
        assert(instance_tokens(tree, last, more) == instance_tokens(tree, last, fuel));
        assert(forest_tokens(tree, ids, more) == forest_tokens(tree, ids, fuel));
        assert forall|i: int| 0 <= i < ids.len() implies #[trigger] instance_tokens(
            tree,
            ids[i],
            more,
        ) == instance_tokens(tree, ids[i], fuel) by {
            if i < ids.len() - 1 {
                assert(ids.drop_last()[i] == ids[i]);
            }
        }
    }
}

/// Without roots the document is the `roblox` element alone, with nothing
/// inside, whatever the tree holds.
pub proof fn lemma_no_roots(tree: Map<RbxId, Node>, fuel: nat)
    ensures
        document_tokens(tree, Seq::empty(), fuel) == Ok::<Seq<TokenModel>, EncodeError>(
            seq![open1("roblox"@, "version"@, "4"@), TokenModel::Close],
        ),
{
    let root = seq![open1("roblox"@, "version"@, "4"@)];
    assert(root + Seq::<TokenModel>::empty() + seq![TokenModel::Close] =~= seq![
        open1("roblox"@, "version"@, "4"@),
        TokenModel::Close,
    ]);
}

} // verus!
