//! The shape of an `Item` element: one `Properties` block, whose first
//! entry is the display name, and then the children.

use vstd::prelude::*;
use rbx_tree::RbxId;
use crate::serializer::{forest_tokens, instance_tokens, item_tokens, properties_tokens};
use crate::sorting::{lemma_sorted_entries_list, lists, names_of, sorted_entries};
use crate::token::{open0, open2, TokenModel};
use crate::tree::Node;
use crate::value::{element_tag, value_tokens, PropertyModel, ValueModel};

verus! {

/// The display name of an instance as a property: a string called `Name`.
pub open spec fn display_name(node: Node) -> PropertyModel {
    PropertyModel { name: "Name"@, value: ValueModel::String { value: node.name } }
}

/// The entries of the `Properties` block of an instance, in their order:
/// the display name, then the stored properties by name.
pub open spec fn block_entries(node: Node) -> Seq<PropertyModel> {
    seq![display_name(node)] + sorted_entries(node.properties)
}

/// The `Properties` block of an instance: one element for each entry.
pub open spec fn properties_block(node: Node) -> Seq<TokenModel> {
    seq![open0("Properties"@)] + properties_tokens(block_entries(node)) + seq![TokenModel::Close]
}

/// The elements of two joined lists of properties are those of the first
/// and then those of the second.
pub proof fn lemma_properties_concat(a: Seq<PropertyModel>, b: Seq<PropertyModel>)
    ensures
        properties_tokens(a + b) == properties_tokens(a) + properties_tokens(b),
    decreases b.len(),
{
    if b.len() == 0 {
        assert(a + b =~= a);
        assert(properties_tokens(a) + properties_tokens(b) =~= properties_tokens(a));
    } else {
        assert((a + b).drop_last() =~= a + b.drop_last());
        assert((a + b).last() == b.last());
        lemma_properties_concat(a, b.drop_last());
        assert(properties_tokens(a + b) =~= properties_tokens(a) + properties_tokens(b));
    }
}

/// The `Item` element of every encoded instance holds, after its start,
/// exactly one `Properties` block, then the encodings of its children,
/// then its end. The first entry of the block is the display name, as a
/// `string` element called `Name`; the entries after it are the stored
/// properties, each once; and unless a stored property is itself called
/// `Name`, no other entry of the block is. That the stored properties are
/// finitely many holds of every instance that `serialize_instance` has
/// encoded.
pub proof fn lemma_item_shape(tree: Map<RbxId, Node>, id: RbxId, fuel: nat)
    requires
        instance_tokens(tree, id, fuel) is Ok,
    ensures
        instance_tokens(tree, id, fuel).unwrap() == seq![
            open2("Item"@, "class"@, tree[id].class_name, "referent"@, tree[id].referent),
        ] + properties_block(tree[id]) + forest_tokens(
            tree,
            tree[id].children,
            (fuel - 1) as nat,
        ).unwrap() + seq![TokenModel::Close],
        block_entries(tree[id])[0] == display_name(tree[id]),
        element_tag(display_name(tree[id]).value) == Some("string"@),
        tree[id].properties.dom().finite() ==> lists(
            block_entries(tree[id]).drop_first(),
            tree[id].properties,
        ),
        tree[id].properties.dom().finite() && !tree[id].properties.contains_key("Name"@)
            ==> forall|i: int|
            0 < i < block_entries(tree[id]).len() ==> (#[trigger] block_entries(tree[id])[i]).name
                != "Name"@,
{
    let node = tree[id];
    let inner = forest_tokens(tree, node.children, (fuel - 1) as nat).unwrap();
    let stored = sorted_entries(node.properties);
    lemma_properties_concat(seq![display_name(node)], stored);
    let single = seq![display_name(node)];
    assert(single.drop_last() =~= Seq::<PropertyModel>::empty());
    assert(single.last() == display_name(node));
    assert(properties_tokens(single.drop_last()) =~= Seq::<TokenModel>::empty());
    assert(properties_tokens(single) == properties_tokens(single.drop_last()) + value_tokens(
        single.last().name,
        single.last().value,
    ));
    assert(properties_tokens(single) =~= value_tokens("Name"@, display_name(node).value));
    assert(item_tokens(node, inner) =~= seq![
        open2("Item"@, "class"@, node.class_name, "referent"@, node.referent),
    ] + properties_block(node) + inner + seq![TokenModel::Close]);
    assert(block_entries(node).drop_first() =~= stored);
    if node.properties.dom().finite() {
        lemma_sorted_entries_list(node.properties);
        if !node.properties.contains_key("Name"@) {
            assert forall|i: int| 0 < i < block_entries(node).len() implies (
            #[trigger] block_entries(node)[i]).name != "Name"@ by {
                assert(block_entries(node)[i] == stored[i - 1]);
                assert(names_of(stored)[i - 1] == stored[i - 1].name);
                assert(names_of(stored).contains(stored[i - 1].name));
            }
        }
    }
}

} // verus!
