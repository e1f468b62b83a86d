//! Balance of element starts and ends in what the encoder produces.

use vstd::prelude::*;
use rbx_tree::RbxId;
use crate::serializer::{
    document_tokens, forest_tokens, instance_tokens, item_tokens, properties_tokens,
};
use crate::sorting::sorted_entries;
use crate::token::{depth, never_below, open0, open1, open2, step, text, TokenModel};
use crate::tree::Node;
use crate::value::{value_tokens, PropertyModel, ValueModel};

verus! {

/// Whether `tokens` closes exactly the elements it opens, and none before
/// it is open.
pub open spec fn balanced(tokens: Seq<TokenModel>) -> bool {
    depth(tokens) == 0 && never_below(tokens)
}

/// Whether `tokens` is one whole element: it starts with the start of an
/// element, which stays open until the last token closes it.
pub open spec fn is_element(tokens: Seq<TokenModel>) -> bool {
    &&& tokens.len() >= 2
    &&& tokens[0] is Open
    &&& depth(tokens) == 0
    &&& forall|k: int| 0 < k < tokens.len() ==> depth(#[trigger] tokens.take(k)) >= 1
}

/// The depth after two sequences is the sum of their depths.
pub proof fn lemma_depth_concat(a: Seq<TokenModel>, b: Seq<TokenModel>)
    ensures
        depth(a + b) == depth(a) + depth(b),
    decreases b.len(),
{
    if b.len() == 0 {
        assert(a + b =~= a);
    } else {
        assert((a + b).drop_last() =~= a + b.drop_last());
        assert((a + b).last() == b.last());
        lemma_depth_concat(a, b.drop_last());
    }
}

/// The depth after a start of two joined sequences.
pub proof fn lemma_depth_take_concat(a: Seq<TokenModel>, b: Seq<TokenModel>, k: int)
    requires
        0 <= k <= a.len() + b.len(),
    ensures
        k <= a.len() ==> depth((a + b).take(k)) == depth(a.take(k)),
        k > a.len() ==> depth((a + b).take(k)) == depth(a) + depth(b.take(k - a.len())),
{
    if k <= a.len() {
        assert((a + b).take(k) =~= a.take(k));
    } else {
        assert((a + b).take(k) =~= a + b.take(k - a.len()));
        lemma_depth_concat(a, b.take(k - a.len()));
    }
}

/// The depth of a single token is its step.
pub proof fn lemma_depth_single(token: TokenModel)
    ensures
        depth(seq![token]) == step(token),
{
    let s = seq![token];
    assert(s.drop_last() =~= Seq::<TokenModel>::empty());
    assert(depth(s) == depth(s.drop_last()) + step(s.last()));
    assert(depth(Seq::<TokenModel>::empty()) == 0);
}

/// The empty sequence is balanced.
pub proof fn lemma_balanced_empty()
    ensures
        balanced(Seq::<TokenModel>::empty()),
{
    let e = Seq::<TokenModel>::empty();
    assert forall|k: int| 0 <= k <= e.len() implies depth(#[trigger] e.take(k)) >= 0 by {
        assert(e.take(k) =~= e);
    }
}

/// Two balanced sequences, one after the other, are balanced.
pub proof fn lemma_balanced_concat(a: Seq<TokenModel>, b: Seq<TokenModel>)
    requires
        balanced(a),
        balanced(b),
    ensures
        balanced(a + b),
{
    lemma_depth_concat(a, b);
    assert forall|k: int| 0 <= k <= (a + b).len() implies depth(#[trigger] (a + b).take(k))
        >= 0 by {
        lemma_depth_take_concat(a, b, k);
        if k <= a.len() {
            assert(depth(a.take(k)) >= 0);
        } else {
            assert(depth(b.take(k - a.len())) >= 0);
        }
    }
}

/// A whole element is balanced.
pub proof fn lemma_element_balanced(e: Seq<TokenModel>)
    requires
        is_element(e),
    ensures
        balanced(e),
{
    assert forall|k: int| 0 <= k <= e.len() implies depth(#[trigger] e.take(k)) >= 0 by {
        if k == 0 {
            assert(e.take(0) =~= Seq::<TokenModel>::empty());
        } else if k == e.len() {
            assert(e.take(k) =~= e);
        }
    }
}

/// A start, balanced content and an end make one whole element.
pub proof fn lemma_wrap(start: TokenModel, inner: Seq<TokenModel>)
    requires
        start is Open,
        balanced(inner),
    ensures
        is_element(seq![start] + inner + seq![TokenModel::Close]),
{
    let head = seq![start];
    let tail = seq![TokenModel::Close];
    let e = head + inner + tail;
    lemma_depth_single(start);
    lemma_depth_single(TokenModel::Close);
    lemma_depth_concat(head, inner);
    lemma_depth_concat(head + inner, tail);
    assert forall|k: int| 0 < k < e.len() implies depth(#[trigger] e.take(k)) >= 1 by {
        lemma_depth_take_concat(head + inner, tail, k);
        lemma_depth_take_concat(head, inner, k);
        assert(k <= (head + inner).len());
        assert(head.take(1) =~= head);
        if k > 1 {
            assert(depth(inner.take(k - 1)) >= 0);
        }
    }
}

/// Character data alone is balanced.
pub proof fn lemma_text_balanced(content: Seq<char>)
    ensures
        balanced(seq![text(content)]),
{
    let s = seq![text(content)];
    lemma_depth_single(text(content));
    assert forall|k: int| 0 <= k <= s.len() implies depth(#[trigger] s.take(k)) >= 0 by {
        if k == 0 {
            assert(s.take(0) =~= Seq::<TokenModel>::empty());
        } else {
            assert(s.take(k) =~= s);
        }
    }
}

/// The element of a property is one whole element.
pub proof fn lemma_value_is_element(name: Seq<char>, value: ValueModel)
    ensures
        is_element(value_tokens(name, value)),
{
    let start = value_tokens(name, value)[0];
    let inner = seq![value_tokens(name, value)[1]];
    lemma_text_balanced(crate::value::payload(value));
    lemma_wrap(start, inner);
    assert(value_tokens(name, value) =~= seq![start] + inner + seq![TokenModel::Close]);
}

/// The elements of properties, one after the other, are balanced.
pub proof fn lemma_properties_balanced(entries: Seq<PropertyModel>)
    ensures
        balanced(properties_tokens(entries)),
    decreases entries.len(),
{
    if entries.len() == 0 {
        lemma_balanced_empty();
    } else {
        let before = entries.drop_last();
        lemma_properties_balanced(before);
        lemma_value_is_element(entries.last().name, entries.last().value);
        lemma_element_balanced(value_tokens(entries.last().name, entries.last().value));
        lemma_balanced_concat(
            properties_tokens(before),
            value_tokens(entries.last().name, entries.last().value),
        );
    }
}


/// Around balanced encodings of the children, the tokens of an instance
/// are one whole `Item` element.
pub proof fn lemma_item_is_element(node: Node, inner: Seq<TokenModel>)
    requires
        balanced(inner),
    ensures
        is_element(item_tokens(node, inner)),
        item_tokens(node, inner)[0] == open2(
            "Item"@,
            "class"@,
            node.class_name,
            "referent"@,
            node.referent,
        ),
{
    let item = open2("Item"@, "class"@, node.class_name, "referent"@, node.referent);
    let block = open0("Properties"@);
    let display = value_tokens("Name"@, ValueModel::String { value: node.name });
    let stored = properties_tokens(sorted_entries(node.properties));
    lemma_value_is_element("Name"@, ValueModel::String { value: node.name });
    lemma_element_balanced(display);
    lemma_properties_balanced(sorted_entries(node.properties));
    lemma_balanced_concat(display, stored);
    lemma_wrap(block, display + stored);
    let properties = seq![block] + (display + stored) + seq![TokenModel::Close];
    lemma_element_balanced(properties);
    lemma_balanced_concat(properties, inner);
    lemma_wrap(item, properties + inner);
    assert(item_tokens(node, inner) =~= seq![item] + (properties + inner) + seq![
        TokenModel::Close,
    ]);
}

/// Every encoding of an instance is one whole `Item` element, and the
/// encodings of several instances in a row are balanced.
pub proof fn lemma_encodings_nest(tree: Map<RbxId, Node>, ids: Seq<RbxId>, fuel: nat)
    ensures
        forest_tokens(tree, ids, fuel) is Ok ==> balanced(forest_tokens(tree, ids, fuel).unwrap()),
        forall|i: int|
            0 <= i < ids.len() && (#[trigger] instance_tokens(tree, ids[i], fuel)) is Ok
                ==> is_element(instance_tokens(tree, ids[i], fuel).unwrap()),
    decreases fuel, ids.len(),
{
    assert forall|i: int|
        0 <= i < ids.len() && (#[trigger] instance_tokens(tree, ids[i], fuel)) is Ok implies is_element(
        instance_tokens(tree, ids[i], fuel).unwrap(),
    ) by {
        let node = tree[ids[i]];
        lemma_encodings_nest(tree, node.children, (fuel - 1) as nat);
        lemma_item_is_element(node, forest_tokens(tree, node.children, (fuel - 1) as nat).unwrap());
    }
    if ids.len() == 0 {
        lemma_balanced_empty();
    } else if forest_tokens(tree, ids, fuel) is Ok {
        lemma_encodings_nest(tree, ids.drop_last(), fuel);
        let last = instance_tokens(tree, ids[ids.len() - 1], fuel);
        assert(last is Ok);
        lemma_element_balanced(last.unwrap());
        lemma_balanced_concat(forest_tokens(tree, ids.drop_last(), fuel).unwrap(), last.unwrap());
    }
}

/// The encoding of an instance is one whole `Item` element that carries
/// the instance's class and identifier.
pub proof fn lemma_instance_is_element(tree: Map<RbxId, Node>, id: RbxId, fuel: nat)
    requires
        instance_tokens(tree, id, fuel) is Ok,
    ensures
        is_element(instance_tokens(tree, id, fuel).unwrap()),
        instance_tokens(tree, id, fuel).unwrap()[0] == open2(
            "Item"@,
            "class"@,
            tree[id].class_name,
            "referent"@,
            tree[id].referent,
        ),
{
    lemma_encodings_nest(tree, tree[id].children, (fuel - 1) as nat);
    lemma_item_is_element(
        tree[id],
        forest_tokens(tree, tree[id].children, (fuel - 1) as nat).unwrap(),
    );
}

/// A document is well formed: it is one whole element, the `roblox`
/// element of version 4, so that every element inside it is closed before
/// the root is, and nothing follows the root.
pub proof fn lemma_document_well_formed(tree: Map<RbxId, Node>, ids: Seq<RbxId>, fuel: nat)
    requires
        document_tokens(tree, ids, fuel) is Ok,
    ensures
        is_element(document_tokens(tree, ids, fuel).unwrap()),
        document_tokens(tree, ids, fuel).unwrap()[0] == open1("roblox"@, "version"@, "4"@),
{
    lemma_encodings_nest(tree, ids, fuel);
    lemma_wrap(open1("roblox"@, "version"@, "4"@), forest_tokens(tree, ids, fuel).unwrap());
}

} // verus!
