//! What the encoder reads from a tree of instances.

use vstd::prelude::*;
use rbx_tree::{RbxId, RbxTree, RbxValue};
use crate::sorting::lists;
use crate::value::{property_models, Property, PropertyValue, ValueModel};

verus! {

/// `rbx_tree::RbxTree`, a tree of instances, of which Verus sees nothing
/// but what [`nodes`] says.
#[verifier::external_type_specification]
#[verifier::external_body]
pub struct ExRbxTree(RbxTree);

/// `rbx_tree::RbxId`, the identifier of an instance: a value that is
/// handed on and compared, never looked into.
#[verifier::external_type_specification]
#[verifier::external_body]
pub struct ExRbxId(RbxId);

/// An instance of a tree, as contracts see it.
pub struct Node {
    /// The class of the instance.
    pub class_name: Seq<char>,
    /// The display name of the instance.
    pub name: Seq<char>,
    /// The identifier that the instance carries, written out.
    pub referent: Seq<char>,
    /// The stored properties, by name.
    pub properties: Map<Seq<char>, ValueModel>,
    /// The identifiers of the children, in their order.
    pub children: Seq<RbxId>,
}

/// The instances that a tree holds, each under the identifier by which
/// the tree finds it.
pub uninterp spec fn nodes(tree: RbxTree) -> Map<RbxId, Node>;

/// Whether `instances` holds `count` instances, and no more.
pub open spec fn holds_exactly(instances: Map<RbxId, Node>, count: nat) -> bool {
    instances.dom().finite() && instances.dom().len() == count
}

/// An instance read out of a tree.
pub struct Instance {
    pub class_name: String,
    pub name: String,
    pub referent: String,
    /// The stored properties, in the order in which the tree handed them out.
    pub properties: Vec<Property>,
    pub children: Vec<RbxId>,
}

impl Instance {
    /// Whether this instance holds what `node` holds, its properties in
    /// any order.
    pub open spec fn describes(&self, node: Node) -> bool {
        &&& self.class_name@ == node.class_name
        &&& self.name@ == node.name
        &&& self.referent@ == node.referent
        &&& lists(property_models(self.properties@), node.properties)
        &&& self.children@ == node.children
    }
}

/// `RbxTree::get_instance`, with what it finds copied out field by field:
/// the two names, the identifier from `get_id` as `to_string` writes it,
/// each entry of the property map once, in the order in which the map is
/// walked, and the identifiers from `get_children_ids`.
#[verifier::external_body]
pub(crate) fn find_instance(tree: &RbxTree, id: RbxId) -> (found: Option<Instance>)
    ensures
        found is Some <==> nodes(*tree).contains_key(id),
        found is Some ==> found.unwrap().describes(nodes(*tree)[id]),
{
    tree.get_instance(id).map(|instance| Instance {
        class_name: instance.class_name.clone(),
        name: instance.name.clone(),
        referent: instance.get_id().to_string(),
        properties: instance.properties.iter().map(|(name, value)| Property {
            name: name.clone(),
            value: match value {
                RbxValue::String { value } => PropertyValue::String { value: value.clone() },
                RbxValue::Bool { value } => PropertyValue::Bool { value: *value },
                RbxValue::Vector3 { .. } => PropertyValue::Vector3,
            },
        }).collect(),
        children: instance.get_children_ids().to_vec(),
    })
}

/// `RbxTree::iter_all_ids`, counted: the number of instances in the tree,
/// which is finite.
#[verifier::external_body]
pub(crate) fn instance_count(tree: &RbxTree) -> (total: usize)
    ensures
        holds_exactly(nodes(*tree), total as nat),
{
    tree.iter_all_ids().count()
}

} // verus!
