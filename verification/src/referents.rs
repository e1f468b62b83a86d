//! Which instances a document holds: the identifiers that its `Item`
//! elements carry, against the instances that the walk visits.

use vstd::prelude::*;
use rbx_tree::RbxId;
use crate::serializer::{
    document_tokens, forest_tokens, instance_tokens, item_head, item_tokens, properties_tokens,
};
use crate::sorting::sorted_entries;
use crate::token::{open0, open1, open2, AttributeModel, TokenModel};
use crate::tree::Node;
use crate::value::{value_tokens, PropertyModel, ValueModel};

verus! {

/// The value of the first attribute called `name`, if there is one.
pub open spec fn attribute_value(attributes: Seq<AttributeModel>, name: Seq<char>) -> Option<
    Seq<char>,
>
    decreases attributes.len(),
{
    if attributes.len() == 0 {
        None
    } else if attributes[0].name == name {
        Some(attributes[0].value)
    } else {
        attribute_value(attributes.drop_first(), name)
    }
}

/// The identifier that a token carries: the value of the attribute
/// `referent` of an element start.
pub open spec fn referent_of(token: TokenModel) -> Option<Seq<char>> {
    match token {
        TokenModel::Open { attributes, .. } => attribute_value(attributes, "referent"@),
        _ => None,
    }
}

/// The identifiers that `tokens` carry, in their order.
pub open spec fn referents(tokens: Seq<TokenModel>) -> Seq<Seq<char>>
    decreases tokens.len(),
{
    if tokens.len() == 0 {
        Seq::empty()
    } else {
        match referent_of(tokens.last()) {
            Some(referent) => referents(tokens.drop_last()).push(referent),
            None => referents(tokens.drop_last()),
        }
    }
}

/// The instances that the walk from `id` visits, in the order of the
/// visits: the instance itself, then what the walk from each child visits.
pub open spec fn visited_from(tree: Map<RbxId, Node>, id: RbxId, fuel: nat) -> Seq<RbxId>
    decreases fuel, 0nat, 0nat,
{
    if !tree.contains_key(id) || fuel == 0 {
        Seq::empty()
    } else {
        seq![id] + visited(tree, tree[id].children, (fuel - 1) as nat)
    }
}

/// The instances that the walks from `ids` visit, one walk after the other.
pub open spec fn visited(tree: Map<RbxId, Node>, ids: Seq<RbxId>, fuel: nat) -> Seq<RbxId>
    decreases fuel, 1nat, ids.len(),
{
    if ids.len() == 0 {
        Seq::empty()
    } else {
        visited(tree, ids.drop_last(), fuel) + visited_from(tree, ids.last(), fuel)
    }
}

/// The identifiers of the instances `ids`, written out, one for one.
pub open spec fn written_out(tree: Map<RbxId, Node>, ids: Seq<RbxId>) -> Seq<Seq<char>> {
    Seq::new(ids.len(), |i: int| tree[ids[i]].referent)
}

/// The identifiers of two joined sequences are those of the first and
/// then those of the second.
pub proof fn lemma_referents_concat(a: Seq<TokenModel>, b: Seq<TokenModel>)
    ensures
        referents(a + b) == referents(a) + referents(b),
    decreases b.len(),
{
    if b.len() == 0 {
        assert(a + b =~= a);
        assert(referents(a) + referents(b) =~= referents(a));
    } else {
        assert((a + b).drop_last() =~= a + b.drop_last());
        assert((a + b).last() == b.last());
        lemma_referents_concat(a, b.drop_last());
        assert(referents(a + b) =~= referents(a) + referents(b));
    }
}

/// A single token carries its own identifier, if any.
pub proof fn lemma_referents_single(token: TokenModel)
    ensures
        referents(seq![token]) == match referent_of(token) {
            Some(referent) => seq![referent],
            None => Seq::empty(),
        },
{
    let s = seq![token];
    assert(s.drop_last() =~= Seq::<TokenModel>::empty());
    assert(referents(s.drop_last()) =~= Seq::<Seq<char>>::empty());
    assert(s.last() == token);
    assert(Seq::<Seq<char>>::empty().push(referent_of(token).unwrap()) =~= seq![
        referent_of(token).unwrap(),
    ]);
}

/// The attribute `referent` is none of the other attributes that the
/// encoder writes.
proof fn lemma_attribute_names()
    ensures
        "referent"@ != "class"@,
        "referent"@ != "name"@,
        "referent"@ != "version"@,
{
    reveal_strlit("referent");
    reveal_strlit("class");
    reveal_strlit("name");
    reveal_strlit("version");
    assert("referent"@.len() == 8);
    assert("class"@.len() == 5);
    assert("name"@.len() == 4);
    assert("version"@.len() == 7);
}

/// The element of a property carries no identifier.
pub proof fn lemma_value_carries_none(name: Seq<char>, value: ValueModel)
    ensures
        referents(value_tokens(name, value)) == Seq::<Seq<char>>::empty(),
{
    lemma_attribute_names();
    let tokens = value_tokens(name, value);
    let start = tokens[0];
    assert(tokens =~= seq![start] + seq![tokens[1]] + seq![tokens[2]]);
    lemma_referents_concat(seq![start] + seq![tokens[1]], seq![tokens[2]]);
    lemma_referents_concat(seq![start], seq![tokens[1]]);
    lemma_referents_single(start);
    lemma_referents_single(tokens[1]);
    lemma_referents_single(tokens[2]);
    let attributes = start->attributes;
    assert(attributes.drop_first() =~= Seq::<AttributeModel>::empty());
    assert(attribute_value(attributes.drop_first(), "referent"@) is None);
    assert(referent_of(start) is None);
    assert(referents(tokens) =~= Seq::<Seq<char>>::empty());
}

/// The elements of properties carry no identifier.
pub proof fn lemma_properties_carry_none(entries: Seq<PropertyModel>)
    ensures
        referents(properties_tokens(entries)) == Seq::<Seq<char>>::empty(),
    decreases entries.len(),
{
    if entries.len() > 0 {
        lemma_properties_carry_none(entries.drop_last());
        lemma_value_carries_none(entries.last().name, entries.last().value);
        lemma_referents_concat(
            properties_tokens(entries.drop_last()),
            value_tokens(entries.last().name, entries.last().value),
        );
    }
}

/// The tokens of an instance carry the instance's identifier and then the
/// identifiers that the encodings of its children carry.
pub proof fn lemma_item_referents(node: Node, inner: Seq<TokenModel>)
    ensures
        referents(item_tokens(node, inner)) == seq![node.referent] + referents(inner),
{
    lemma_attribute_names();
    let item = open2("Item"@, "class"@, node.class_name, "referent"@, node.referent);
    let block = open0("Properties"@);
    let display = value_tokens("Name"@, ValueModel::String { value: node.name });
    let stored = properties_tokens(sorted_entries(node.properties));
    let close = seq![TokenModel::Close];
    lemma_referents_single(item);
    lemma_referents_single(block);
    lemma_referents_single(TokenModel::Close);
    lemma_value_carries_none("Name"@, ValueModel::String { value: node.name });
    lemma_properties_carry_none(sorted_entries(node.properties));
    let attributes = item->attributes;
    assert(attributes.drop_first()[0].name == "referent"@);
    assert(attribute_value(attributes.drop_first(), "referent"@) == Some(node.referent));
    assert(referent_of(item) == Some(node.referent));
    assert(block->attributes =~= Seq::<AttributeModel>::empty());
    assert(referent_of(block) is None);
    assert(item_head(node) =~= seq![item] + seq![block] + display);
    lemma_referents_concat(seq![item], seq![block]);
    lemma_referents_concat(seq![item] + seq![block], display);
    lemma_referents_concat(item_head(node), stored);
    lemma_referents_concat(item_head(node) + stored, close);
    lemma_referents_concat(item_head(node) + stored + close, inner);
    lemma_referents_concat(item_head(node) + stored + close + inner, close);
    assert(referents(item_tokens(node, inner)) =~= seq![node.referent] + referents(inner));
}


/// The encoding of an instance carries the identifiers of the instances
/// that the walk from it visits, in the order of the visits.
pub proof fn lemma_instance_referents(tree: Map<RbxId, Node>, id: RbxId, fuel: nat)
    requires
        instance_tokens(tree, id, fuel) is Ok,
    ensures
        referents(instance_tokens(tree, id, fuel).unwrap()) == written_out(
            tree,
            visited_from(tree, id, fuel),
        ),
    decreases fuel, 0nat, 0nat,
{
    let below = (fuel - 1) as nat;
    let inner = forest_tokens(tree, tree[id].children, below).unwrap();
    lemma_forest_referents(tree, tree[id].children, below);
    lemma_item_referents(tree[id], inner);
    assert(written_out(tree, seq![id] + visited(tree, tree[id].children, below)) =~= seq![
        tree[id].referent,
    ] + written_out(tree, visited(tree, tree[id].children, below)));
}

/// The encodings of several instances carry the identifiers of the
/// instances that the walks from them visit, in the order of the visits.
pub proof fn lemma_forest_referents(tree: Map<RbxId, Node>, ids: Seq<RbxId>, fuel: nat)
    requires
        forest_tokens(tree, ids, fuel) is Ok,
    ensures
        referents(forest_tokens(tree, ids, fuel).unwrap()) == written_out(
            tree,
            visited(tree, ids, fuel),
        ),
    decreases fuel, 1nat, ids.len(),
{
    if ids.len() == 0 {
        assert(written_out(tree, Seq::<RbxId>::empty()) =~= Seq::<Seq<char>>::empty());
    } else {
        let before = forest_tokens(tree, ids.drop_last(), fuel).unwrap();
        let item = instance_tokens(tree, ids.last(), fuel).unwrap();
        lemma_forest_referents(tree, ids.drop_last(), fuel);
        lemma_instance_referents(tree, ids.last(), fuel);
        lemma_referents_concat(before, item);
        assert(written_out(
            tree,
            visited(tree, ids.drop_last(), fuel) + visited_from(tree, ids.last(), fuel),
        ) =~= written_out(tree, visited(tree, ids.drop_last(), fuel)) + written_out(
            tree,
            visited_from(tree, ids.last(), fuel),
        ));
    }
}

/// The identifiers that a document carries are those of the instances
/// that the walks from the roots visit, each as often and in the order in
/// which it is visited.
pub proof fn lemma_document_referents(tree: Map<RbxId, Node>, ids: Seq<RbxId>, fuel: nat)
    requires
        document_tokens(tree, ids, fuel) is Ok,
    ensures
        referents(document_tokens(tree, ids, fuel).unwrap()) == written_out(
            tree,
            visited(tree, ids, fuel),
        ),
{
    lemma_attribute_names();
    let root = open1("roblox"@, "version"@, "4"@);
    let items = forest_tokens(tree, ids, fuel).unwrap();
    lemma_forest_referents(tree, ids, fuel);
    lemma_referents_single(root);
    lemma_referents_single(TokenModel::Close);
    assert((root->attributes).drop_first() =~= Seq::<AttributeModel>::empty());
    assert(attribute_value((root->attributes).drop_first(), "referent"@) is None);
    assert(referent_of(root) is None);
    lemma_referents_concat(seq![root], items);
    lemma_referents_concat(seq![root] + items, seq![TokenModel::Close]);
    assert(referents(document_tokens(tree, ids, fuel).unwrap()) =~= referents(items));
}

} // verus!
