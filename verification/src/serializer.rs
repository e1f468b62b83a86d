//! The walk over a tree: which tokens encode an instance, its properties
//! and its children, and the functions that produce them.

use vstd::prelude::*;
use rbx_tree::{RbxId, RbxTree};
use crate::error::EncodeError;
use crate::nesting::{lemma_document_well_formed, lemma_element_balanced};
use crate::referents::{visited, visited_from};
use crate::sorting::{
    lemma_listed_is_finite, lemma_sorted_listing, names_of, sort_by_name, sorted_entries,
};
use crate::token::{
    lemma_models_push, lemma_prefix_transitive, open0, open1, open2, token_models, Token,
    TokenModel,
};
use crate::tree::{find_instance, instance_count, nodes, Instance, Node};
use crate::value::{
    property_models, serialize_value, supported, value_tokens, Property, PropertyModel,
    PropertyValue, ValueModel,
};
use crate::writer::{render, rendered};

verus! {

/// The elements of the given properties, one after the other.
pub open spec fn properties_tokens(entries: Seq<PropertyModel>) -> Seq<TokenModel>
    decreases entries.len(),
{
    if entries.len() == 0 {
        Seq::empty()
    } else {
        properties_tokens(entries.drop_last()) + value_tokens(
            entries.last().name,
            entries.last().value,
        )
    }
}

/// Whether the format has an element for each of the given values.
pub open spec fn all_supported(properties: Map<Seq<char>, ValueModel>) -> bool {
    forall|name: Seq<char>| #[trigger]
        properties.contains_key(name) ==> supported(properties[name])
}

/// The start of the `Properties` block of an `Item` element, up to and
/// with the element that holds the display name.
pub open spec fn item_head(node: Node) -> Seq<TokenModel> {
    seq![
        open2("Item"@, "class"@, node.class_name, "referent"@, node.referent),
        open0("Properties"@),
    ] + value_tokens("Name"@, ValueModel::String { value: node.name })
}

/// The `Item` element of an instance whose children are encoded by
/// `inner`: the `Properties` block, which holds the display name as the
/// property `Name` and then the stored properties in the order of their
/// names, and after the block the children.
pub open spec fn item_tokens(node: Node, inner: Seq<TokenModel>) -> Seq<TokenModel> {
    item_head(node) + properties_tokens(sorted_entries(node.properties)) + seq![TokenModel::Close]
        + inner + seq![TokenModel::Close]
}

/// The encoding of the instance `id` and of all below it, or the first
/// failure on the way through them. `fuel` bounds how many instances may
/// nest inside each other.
pub open spec fn instance_tokens(tree: Map<RbxId, Node>, id: RbxId, fuel: nat) -> Result<
    Seq<TokenModel>,
    EncodeError,
>
    decreases fuel, 0nat, 0nat,
{
    if !tree.contains_key(id) {
        Err(EncodeError::MissingInstance)
    } else if fuel == 0 {
        Err(EncodeError::TooDeep)
    } else if !all_supported(tree[id].properties) {
        Err(EncodeError::UnsupportedValue)
    } else {
        match forest_tokens(tree, tree[id].children, (fuel - 1) as nat) {
            Ok(inner) => Ok(item_tokens(tree[id], inner)),
            Err(e) => Err(e),
        }
    }
}

/// The encodings of the instances `ids`, one after the other, or the first
/// failure among them.
pub open spec fn forest_tokens(tree: Map<RbxId, Node>, ids: Seq<RbxId>, fuel: nat) -> Result<
    Seq<TokenModel>,
    EncodeError,
>
    decreases fuel, 1nat, ids.len(),
{
    if ids.len() == 0 {
        Ok(Seq::empty())
    } else {
        match forest_tokens(tree, ids.drop_last(), fuel) {
            Ok(before) => match instance_tokens(tree, ids.last(), fuel) {
                Ok(item) => Ok(before + item),
                Err(e) => Err(e),
            },
            Err(e) => Err(e),
        }
    }
}

/// Whether each of the instances `ids` stores finitely many properties.
pub open spec fn finite_properties(tree: Map<RbxId, Node>, ids: Seq<RbxId>) -> bool {
    forall|i: int| 0 <= i < ids.len() ==> tree[#[trigger] ids[i]].properties.dom().finite()
}

/// The whole document for the instances `ids`: one `roblox` element of
/// version 4 around their encodings.
pub open spec fn document_tokens(tree: Map<RbxId, Node>, ids: Seq<RbxId>, fuel: nat) -> Result<
    Seq<TokenModel>,
    EncodeError,
> {
    match forest_tokens(tree, ids, fuel) {
        Ok(items) => Ok(
            seq![open1("roblox"@, "version"@, "4"@)] + items + seq![TokenModel::Close],
        ),
        Err(e) => Err(e),
    }
}


/// Appends to `tokens` the elements of `properties`, in their order. If
/// one of them holds a value without an element, the first such fails the
/// call, and `tokens` may then hold the elements of those before it.
fn serialize_properties(tokens: &mut Vec<Token>, properties: &Vec<Property>) -> (outcome: Result<
    (),
    EncodeError,
>)
    ensures
        old(tokens)@.is_prefix_of(final(tokens)@),
        outcome is Ok <==> forall|i: int|
            0 <= i < properties.len() ==> supported(#[trigger] property_models(properties@)[i].value),
        outcome is Ok ==> token_models(final(tokens)@) == token_models(old(tokens)@)
            + properties_tokens(property_models(properties@)),
        outcome is Err ==> outcome == Err::<(), EncodeError>(EncodeError::UnsupportedValue),
{
    let ghost entries = property_models(properties@);
    let ghost before = tokens@;
    let mut i: usize = 0;
    assert(entries.take(0) =~= Seq::<PropertyModel>::empty());
    while i < properties.len()
        invariant
            i <= properties.len(),
            entries == property_models(properties@),
            before == old(tokens)@,
            before.is_prefix_of(tokens@),
            token_models(tokens@) == token_models(before) + properties_tokens(
                entries.take(i as int),
            ),
            forall|j: int| 0 <= j < i ==> supported(#[trigger] entries[j].value),
        decreases properties.len() - i,
    {
        let property = &properties[i];
        let ghost here = tokens@;
        assert(property@ == entries[i as int]);
        match serialize_value(tokens, property.name.as_str(), &property.value) {
            Ok(_) => {},
            Err(e) => {
                assert(!supported(property_models(properties@)[i as int].value));
                return Err(e);
            },
        }
        proof {
            lemma_prefix_transitive(before, here, tokens@);
            let next = entries.take(i + 1);
            assert(next.drop_last() =~= entries.take(i as int));
            assert(next.last() == entries[i as int]);
        }
        i += 1;
    }
    assert(entries.take(properties.len() as int) =~= entries);
    Ok(())
}

/// Appends to `tokens` the `Item` element of the instance `id` of `tree`,
/// with all below it inside, going at most `depth_left` instances deep.
/// Where the encoding fails, `tokens` is left as it was. Where it does
/// not, each instance on the way stores finitely many properties, so that
/// the order of their elements is fixed.
pub fn serialize_instance(
    tokens: &mut Vec<Token>,
    tree: &RbxTree,
    id: RbxId,
    depth_left: usize,
) -> (outcome: Result<(), EncodeError>)
    ensures
        match instance_tokens(nodes(*tree), id, depth_left as nat) {
            Ok(item) => outcome is Ok && token_models(final(tokens)@) == token_models(
                old(tokens)@,
            ) + item && old(tokens)@.is_prefix_of(final(tokens)@) && finite_properties(
                nodes(*tree),
                visited_from(nodes(*tree), id, depth_left as nat),
            ),
            Err(e) => outcome == Err::<(), EncodeError>(e) && final(tokens)@ == old(tokens)@,
        },
    decreases depth_left,
{
    let ghost before = tokens@;
    let instance = match find_instance(tree, id) {
        Some(instance) => instance,
        None => {
            return Err(EncodeError::MissingInstance);
        },
    };
    let ghost node = nodes(*tree)[id];
    if depth_left == 0 {
        return Err(EncodeError::TooDeep);
    }
    let Instance { class_name, name, referent, properties, children } = instance;
    let ghost listed = property_models(properties@);
    let sorted = sort_by_name(properties);
    proof {
        lemma_listed_is_finite(listed, node.properties);
        lemma_sorted_listing(listed, property_models(sorted@), node.properties);
    }
    let mark = tokens.len();
    let item = Token::start_with_two(
        "Item",
        "class",
        class_name.as_str(),
        "referent",
        referent.as_str(),
    );
    let block = Token::start("Properties");
    tokens.push(item);
    tokens.push(block);
    let ghost opened = tokens@;
    proof {
        lemma_models_push(before, item);
        lemma_models_push(before.push(item), block);
        assert(before.is_prefix_of(opened));
    }
    let display = PropertyValue::String { value: name };
    match serialize_value(tokens, "Name", &display) {
        Ok(_) => {},
        Err(e) => {
            tokens.truncate(mark);
            assert(tokens@ =~= before);
            return Err(e);
        },
    }
    let ghost named = tokens@;
    proof {
        lemma_prefix_transitive(before, opened, named);
        assert(token_models(named) =~= token_models(before) + item_head(node));
    }
    let listing = serialize_properties(tokens, &sorted);
    proof {
        lemma_prefix_transitive(before, named, tokens@);
    }
    match listing {
        Ok(_) => {},
        Err(e) => {
            tokens.truncate(mark);
            proof {
                assert(tokens@ =~= before);
                let i = choose|i: int|
                    0 <= i < sorted.len() && !supported(
                        #[trigger] property_models(sorted@)[i].value,
                    );
                let entry = property_models(sorted@)[i];
                assert(names_of(property_models(sorted@))[i] == entry.name);
                assert(node.properties.contains_key(entry.name));
                assert(node.properties[entry.name] == entry.value);
            }
            return Err(e);
        },
    }
    proof {
        assert forall|key: Seq<char>| #[trigger]
            node.properties.contains_key(key) implies supported(node.properties[key]) by {
            let names = names_of(property_models(sorted@));
            assert(names.contains(key));
            let i = choose|i: int| 0 <= i < names.len() && names[i] == key;
            assert(supported(property_models(sorted@)[i].value));
        }
    }
    let ghost listed_all = tokens@;
    tokens.push(Token::Close);
    let ghost inside = tokens@;
    proof {
        assert(listed_all.is_prefix_of(inside));
        lemma_prefix_transitive(before, listed_all, inside);
        lemma_models_push(inside.drop_last(), Token::Close);
        assert(inside.drop_last().push(Token::Close) =~= inside);
        assert(token_models(inside) =~= token_models(before) + item_head(node) + properties_tokens(
            sorted_entries(node.properties),
        ) + seq![TokenModel::Close]);
    }
    let mut i: usize = 0;
    assert(children@.take(0) =~= Seq::<RbxId>::empty());
    while i < children.len()
        invariant
            i <= children.len(),
            depth_left > 0,
            before == old(tokens)@,
            nodes(*tree).contains_key(id),
            node == nodes(*tree)[id],
            children@ == node.children,
            all_supported(node.properties),
            finite_properties(
                nodes(*tree),
                visited(nodes(*tree), children@.take(i as int), (depth_left - 1) as nat),
            ),
            before.is_prefix_of(inside),
            inside.is_prefix_of(tokens@),
            mark == before.len(),
            match forest_tokens(nodes(*tree), children@.take(i as int), (depth_left - 1) as nat) {
                Ok(inner) => token_models(tokens@) == token_models(inside) + inner,
                Err(_) => false,
            },
        decreases children.len() - i,
    {
        let ghost here = tokens@;
        let outcome = serialize_instance(tokens, tree, children[i], depth_left - 1);
        proof {
            let next = children@.take(i + 1);
            assert(next.drop_last() =~= children@.take(i as int));
            assert(next.last() == children@[i as int]);
            lemma_prefix_transitive(inside, here, tokens@);
            lemma_prefix_transitive(before, inside, tokens@);
        }
        match outcome {
            Ok(_) => {},
            Err(e) => {
                tokens.truncate(mark);
                proof {
                    assert(tokens@ =~= before);
                    lemma_forest_prefix_fails(
                        nodes(*tree),
                        children@,
                        i + 1,
                        (depth_left - 1) as nat,
                    );
                }
                return Err(e);
            },
        }
        proof {
            let inner = forest_tokens(
                nodes(*tree),
                children@.take(i as int),
                (depth_left - 1) as nat,
            ).unwrap();
            let item = instance_tokens(
                nodes(*tree),
                children@[i as int],
                (depth_left - 1) as nat,
            ).unwrap();
            assert(token_models(tokens@) =~= token_models(inside) + (inner + item));
            lemma_finite_concat(
                nodes(*tree),
                visited(nodes(*tree), children@.take(i as int), (depth_left - 1) as nat),
                visited_from(nodes(*tree), children@[i as int], (depth_left - 1) as nat),
            );
        }
        i += 1;
    }
    assert(children@.take(children.len() as int) =~= children@);
    let ghost filled = tokens@;
    tokens.push(Token::Close);
    proof {
        lemma_prefix_transitive(before, inside, filled);
        assert(filled.is_prefix_of(tokens@));
        lemma_prefix_transitive(before, filled, tokens@);
        lemma_models_push(filled, Token::Close);
        let inner = forest_tokens(nodes(*tree), node.children, (depth_left - 1) as nat).unwrap();
        assert(token_models(tokens@) =~= token_models(before) + item_tokens(node, inner));
        lemma_finite_concat(
            nodes(*tree),
            seq![id],
            visited(nodes(*tree), node.children, (depth_left - 1) as nat),
        );
    }
    Ok(())
}

/// Where each of `a` and each of `b` stores finitely many properties, so
/// does each of `a + b`.
pub proof fn lemma_finite_concat(tree: Map<RbxId, Node>, a: Seq<RbxId>, b: Seq<RbxId>)
    requires
        finite_properties(tree, a),
        finite_properties(tree, b),
    ensures
        finite_properties(tree, a + b),
{
    assert forall|i: int| 0 <= i < (a + b).len() implies tree[#[trigger] (a + b)[i]].properties.dom().finite() by {
        if i < a.len() {
            assert((a + b)[i] == a[i]);
        } else {
            assert((a + b)[i] == b[i - a.len()]);
        }
    }
}

/// Where the encoding of the first `n` of `ids` fails, the encoding of all
/// of them fails in the same way.
pub proof fn lemma_forest_prefix_fails(tree: Map<RbxId, Node>, ids: Seq<RbxId>, n: int, fuel: nat)
    requires
        0 <= n <= ids.len(),
        forest_tokens(tree, ids.take(n), fuel) is Err,
    ensures
        forest_tokens(tree, ids, fuel) == forest_tokens(tree, ids.take(n), fuel),
    decreases ids.len(),
{
    if n < ids.len() {
        assert(ids.drop_last().take(n) =~= ids.take(n));
        lemma_forest_prefix_fails(tree, ids.drop_last(), n, fuel);
    } else {
        assert(ids.take(n) =~= ids);
    }
}


/// How many instances the tree holds.
pub open spec fn size(tree: Map<RbxId, Node>) -> nat {
    tree.dom().len()
}

/// The tokens of the document for the instances `ids` of `tree`, which
/// become the top-level items in that order. Fails with the first
/// identifier on the way that names no instance of the tree, the first
/// instance with a property whose value has no element, or the first
/// instance that lies deeper than the tree has instances.
pub fn encode_tokens(tree: &RbxTree, ids: &[RbxId]) -> (outcome: Result<Vec<Token>, EncodeError>)
    ensures
        match document_tokens(nodes(*tree), ids@, size(nodes(*tree))) {
            Ok(document) => outcome is Ok && token_models(outcome.unwrap()@) == document
                && finite_properties(
                nodes(*tree),
                visited(nodes(*tree), ids@, size(nodes(*tree))),
            ),
            Err(e) => outcome == Err::<Vec<Token>, EncodeError>(e),
        },
{
    let depth = instance_count(tree);
    let mut tokens: Vec<Token> = Vec::new();
    let root = Token::start_with("roblox", "version", "4");
    tokens.push(root);
    let ghost opened = tokens@;
    proof {
        lemma_models_push(Seq::empty(), root);
        assert(token_models(Seq::<Token>::empty()) =~= Seq::<TokenModel>::empty());
    }
    let mut i: usize = 0;
    assert(ids@.take(0) =~= Seq::<RbxId>::empty());
    while i < ids.len()
        invariant
            i <= ids.len(),
            depth == size(nodes(*tree)),
            token_models(opened) == seq![open1("roblox"@, "version"@, "4"@)],
            finite_properties(nodes(*tree), visited(nodes(*tree), ids@.take(i as int), depth as nat)),
            match forest_tokens(nodes(*tree), ids@.take(i as int), depth as nat) {
                Ok(items) => token_models(tokens@) == token_models(opened) + items,
                Err(_) => false,
            },
        decreases ids.len() - i,
    {
        let outcome = serialize_instance(&mut tokens, tree, ids[i], depth);
        proof {
            let next = ids@.take(i + 1);
            assert(next.drop_last() =~= ids@.take(i as int));
            assert(next.last() == ids@[i as int]);
        }
        match outcome {
            Ok(_) => {},
            Err(e) => {
                proof {
                    lemma_forest_prefix_fails(nodes(*tree), ids@, i + 1, depth as nat);
                }
                return Err(e);
            },
        }
        proof {
            let items = forest_tokens(nodes(*tree), ids@.take(i as int), depth as nat).unwrap();
            let item = instance_tokens(nodes(*tree), ids@[i as int], depth as nat).unwrap();
            assert(token_models(tokens@) =~= token_models(opened) + (items + item));
            lemma_finite_concat(
                nodes(*tree),
                visited(nodes(*tree), ids@.take(i as int), depth as nat),
                visited_from(nodes(*tree), ids@[i as int], depth as nat),
            );
        }
        i += 1;
    }
    assert(ids@.take(ids.len() as int) =~= ids@);
    let ghost filled = tokens@;
    tokens.push(Token::Close);
    proof {
        lemma_models_push(filled, Token::Close);
    }
    Ok(tokens)
}

/// Encodes the instances `ids` of `tree`, with all below them, as an XML
/// document and returns its bytes. Where the tokens of the document cannot
/// be made, the failure is that of [`encode_tokens`], and nothing has been
/// handed to the XML writer. Where they can, the writer takes them all,
/// and the bytes are what it renders them to.
pub fn encode(tree: &RbxTree, ids: &[RbxId]) -> (outcome: Result<Vec<u8>, EncodeError>)
    ensures
        match document_tokens(nodes(*tree), ids@, size(nodes(*tree))) {
            Ok(document) => outcome is Ok && outcome.unwrap()@ == rendered(document)
                && finite_properties(
                nodes(*tree),
                visited(nodes(*tree), ids@, size(nodes(*tree))),
            ),
            Err(e) => outcome == Err::<Vec<u8>, EncodeError>(e),
        },
{
    match encode_tokens(tree, ids) {
        Ok(tokens) => {
            proof {
                lemma_document_well_formed(nodes(*tree), ids@, size(nodes(*tree)));
                lemma_element_balanced(token_models(tokens@));
            }
            render(&tokens)
        },
        Err(e) => Err(e),
    }
}

} // verus!
