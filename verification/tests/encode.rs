use std::collections::HashMap;
use std::str;

use rbx_tree::{RbxId, RbxInstanceProperties, RbxTree, RbxValue};
use rbxmx::error::EncodeError;
use rbxmx::serializer::{encode, encode_tokens, serialize_instance};
use rbxmx::token::Token;

fn instance(name: &str, class_name: &str, properties: Vec<(&str, RbxValue)>) -> RbxInstanceProperties {
    let mut map = HashMap::new();
    for (key, value) in properties {
        map.insert(key.to_string(), value);
    }
    RbxInstanceProperties {
        name: name.to_string(),
        class_name: class_name.to_string(),
        properties: map,
    }
}

fn text(value: &str) -> RbxValue {
    RbxValue::String { value: value.to_string() }
}

fn flag(value: bool) -> RbxValue {
    RbxValue::Bool { value }
}

/// The tree of the end-to-end scenario, with the identifiers of the root
/// and of its one child.
fn data_model() -> (RbxTree, RbxId, RbxId) {
    let root = instance("DataModel", "DataModel", vec![("SomethingEnabled", text("Yes Please"))]);
    let child = instance("Workspace", "Workspace", vec![("StreamingEnabled", flag(true))]);
    let mut tree = RbxTree::new(root);
    let root_id = tree.get_root_id();
    let child_id = tree.insert_instance(child, root_id);
    (tree, root_id, child_id)
}

fn encoded(tree: &RbxTree, ids: &[RbxId]) -> String {
    String::from_utf8(encode(tree, ids).unwrap()).unwrap()
}

#[test]
fn serialize() {
    let mut properties = HashMap::new();
    properties.insert("SomethingEnabled".to_string(), RbxValue::String {
        value: "Yes Please".to_string(),
    });

    let root_instance = RbxInstanceProperties {
        name: "DataModel".to_string(),
        class_name: "DataModel".to_string(),
        properties,
    };

    let mut child_properties = HashMap::new();
    child_properties.insert("StreamingEnabled".to_string(), RbxValue::Bool {
        value: true,
    });

    let child = RbxInstanceProperties {
        name: "Workspace".to_string(),
        class_name: "Workspace".to_string(),
        properties: child_properties,
    };

    let mut tree = RbxTree::new(root_instance);
    let root_id = tree.get_root_id();
    tree.insert_instance(child, root_id);

    let root = tree.get_instance(root_id).unwrap();

    let output = encode(&tree, &root.get_children_ids()).unwrap();
    let _as_str = str::from_utf8(&output).unwrap();
}

#[test]
fn child_as_sole_root_gives_one_item_without_nested_items() {
    let (tree, _root_id, child_id) = data_model();
    let expected = format!(
        "<?xml version=\"1.0\" encoding=\"UTF-8\"?>\n\
<roblox version=\"4\">\n\
\x20 <Item class=\"Workspace\" referent=\"{}\">\n\
\x20   <Properties>\n\
\x20     <string name=\"Name\">Workspace</string>\n\
\x20     <bool name=\"StreamingEnabled\">true</bool>\n\
\x20   </Properties>\n\
\x20 </Item>\n\
</roblox>",
        child_id
    );
    assert_eq!(encoded(&tree, &[child_id]), expected);
}

#[test]
fn root_nests_the_whole_child_item() {
    let (tree, root_id, child_id) = data_model();
    let expected = format!(
        "<?xml version=\"1.0\" encoding=\"UTF-8\"?>\n\
<roblox version=\"4\">\n\
\x20 <Item class=\"DataModel\" referent=\"{}\">\n\
\x20   <Properties>\n\
\x20     <string name=\"Name\">DataModel</string>\n\
\x20     <string name=\"SomethingEnabled\">Yes Please</string>\n\
\x20   </Properties>\n\
\x20   <Item class=\"Workspace\" referent=\"{}\">\n\
\x20     <Properties>\n\
\x20       <string name=\"Name\">Workspace</string>\n\
\x20       <bool name=\"StreamingEnabled\">true</bool>\n\
\x20     </Properties>\n\
\x20   </Item>\n\
\x20 </Item>\n\
</roblox>",
        root_id, child_id
    );
    assert_eq!(encoded(&tree, &[root_id]), expected);
}

#[test]
fn empty_roots_give_the_empty_root_element() {
    let (tree, _root_id, _child_id) = data_model();
    assert_eq!(
        encoded(&tree, &[]),
        "<?xml version=\"1.0\" encoding=\"UTF-8\"?>\n<roblox version=\"4\" />"
    );
    let tokens = encode_tokens(&tree, &[]).unwrap();
    assert_eq!(tokens, vec![Token::start_with("roblox", "version", "4"), Token::Close]);
}

#[test]
fn tokens_of_the_child_item() {
    let (tree, _root_id, child_id) = data_model();
    let referent = child_id.to_string();
    let tokens = encode_tokens(&tree, &[child_id]).unwrap();
    let expected = vec![
        Token::start_with("roblox", "version", "4"),
        Token::start_with_two("Item", "class", "Workspace", "referent", &referent),
        Token::start("Properties"),
        Token::start_with("string", "name", "Name"),
        Token::characters("Workspace"),
        Token::Close,
        Token::start_with("bool", "name", "StreamingEnabled"),
        Token::characters("true"),
        Token::Close,
        Token::Close,
        Token::Close,
        Token::Close,
    ];
    assert_eq!(tokens, expected);
}

#[test]
fn roots_are_encoded_in_the_given_order() {
    let (mut tree, root_id, first) = data_model();
    let second = tree.insert_instance(instance("Lighting", "Lighting", vec![]), root_id);
    let forward = encoded(&tree, &[first, second]);
    let backward = encoded(&tree, &[second, first]);
    assert!(forward.find("Workspace").unwrap() < forward.find("Lighting").unwrap());
    assert!(backward.find("Lighting").unwrap() < backward.find("Workspace").unwrap());
}

#[test]
fn children_follow_the_properties_in_the_order_of_the_tree() {
    let (mut tree, root_id, first) = data_model();
    let second = tree.insert_instance(instance("Lighting", "Lighting", vec![]), root_id);
    let third = tree.insert_instance(instance("Sky", "Sky", vec![]), second);
    let tokens = encode_tokens(&tree, &[root_id]).unwrap();
    let mut referents = Vec::new();
    for token in &tokens {
        if let Token::Open { tag, attributes } = token {
            if tag == "Item" {
                referents.push(attributes[1].value.clone());
            }
        }
    }
    assert_eq!(
        referents,
        vec![root_id.to_string(), first.to_string(), second.to_string(), third.to_string()]
    );
}

#[test]
fn stored_properties_come_in_the_order_of_their_names() {
    let root = instance(
        "Part",
        "Part",
        vec![
            ("Zeta", flag(false)),
            ("Anchored", flag(true)),
            ("Material", text("Plastic")),
            ("Anchor", text("a")),
            ("anchored", flag(false)),
            ("", text("empty")),
        ],
    );
    let tree = RbxTree::new(root);
    let tokens = encode_tokens(&tree, &[tree.get_root_id()]).unwrap();
    let mut names = Vec::new();
    for token in &tokens {
        if let Token::Open { tag, attributes } = token {
            if tag == "string" || tag == "bool" {
                names.push(attributes[0].value.clone());
            }
        }
    }
    assert_eq!(names, vec!["Name", "", "Anchor", "Anchored", "Material", "Zeta", "anchored"]);
}

#[test]
fn the_display_name_comes_first_even_beside_a_stored_property_called_name() {
    let root = instance("Shown", "Folder", vec![("Name", text("Stored")), ("Aaa", flag(true))]);
    let tree = RbxTree::new(root);
    let tokens = encode_tokens(&tree, &[tree.get_root_id()]).unwrap();
    assert_eq!(tokens[3], Token::start_with("string", "name", "Name"));
    assert_eq!(tokens[4], Token::characters("Shown"));
    assert_eq!(tokens[6], Token::start_with("bool", "name", "Aaa"));
    assert_eq!(tokens[9], Token::start_with("string", "name", "Name"));
    assert_eq!(tokens[10], Token::characters("Stored"));
}

#[test]
fn unsupported_value_fails_the_whole_encoding() {
    let (mut tree, root_id, child_id) = data_model();
    let part = instance(
        "Part",
        "Part",
        vec![("Anchored", flag(true)), ("Position", RbxValue::Vector3 { value: [1.0, 2.0, 3.0] })],
    );
    let part_id = tree.insert_instance(part, child_id);
    assert_eq!(encode(&tree, &[part_id]), Err(EncodeError::UnsupportedValue));
    assert_eq!(encode(&tree, &[root_id]), Err(EncodeError::UnsupportedValue));
    assert_eq!(encode_tokens(&tree, &[child_id]), Err(EncodeError::UnsupportedValue));
}

#[test]
fn failed_instance_leaves_the_tokens_as_they_were() {
    let (mut tree, root_id, child_id) = data_model();
    let part = instance("Part", "Part", vec![("Position", RbxValue::Vector3 { value: [0.0, 0.0, 0.0] })]);
    tree.insert_instance(part, child_id);
    let mut tokens = vec![Token::start("kept")];
    assert_eq!(serialize_instance(&mut tokens, &tree, root_id, 10), Err(EncodeError::UnsupportedValue));
    assert_eq!(tokens, vec![Token::start("kept")]);
}

#[test]
fn identifier_of_another_tree_is_missing() {
    let (tree, _root_id, child_id) = data_model();
    let (other, other_root, _other_child) = data_model();
    assert_eq!(encode(&tree, &[other_root]), Err(EncodeError::MissingInstance));
    assert_eq!(encode(&tree, &[child_id, other_root]), Err(EncodeError::MissingInstance));
    assert_eq!(encode_tokens(&other, &[child_id]), Err(EncodeError::MissingInstance));
}

#[test]
fn the_first_failure_on_the_way_is_reported() {
    let (mut tree, root_id, child_id) = data_model();
    let (_other, other_root, _other_child) = data_model();
    let part = instance("Part", "Part", vec![("Position", RbxValue::Vector3 { value: [0.0, 0.0, 0.0] })]);
    let part_id = tree.insert_instance(part, child_id);
    assert_eq!(encode(&tree, &[part_id, other_root]), Err(EncodeError::UnsupportedValue));
    assert_eq!(encode(&tree, &[other_root, part_id]), Err(EncodeError::MissingInstance));
    assert_eq!(encode(&tree, &[root_id, other_root]), Err(EncodeError::UnsupportedValue));
}

#[test]
fn depth_is_bounded_by_the_number_of_instances() {
    let mut tree = RbxTree::new(instance("A", "Folder", vec![]));
    let a = tree.get_root_id();
    let b = tree.insert_instance(instance("B", "Folder", vec![]), a);
    let c = tree.insert_instance(instance("C", "Folder", vec![]), b);
    assert!(encode(&tree, &[a]).is_ok());
    let mut tokens = Vec::new();
    assert_eq!(serialize_instance(&mut tokens, &tree, a, 3), Ok(()));
    assert_eq!(tokens.len(), 3 * 7);
    let mut tokens = Vec::new();
    assert_eq!(serialize_instance(&mut tokens, &tree, a, 2), Err(EncodeError::TooDeep));
    assert!(tokens.is_empty());
    assert_eq!(serialize_instance(&mut tokens, &tree, c, 0), Err(EncodeError::TooDeep));
    assert_eq!(serialize_instance(&mut tokens, &tree, c, 1), Ok(()));
}

#[test]
fn reserved_characters_are_escaped_by_the_writer() {
    let root = instance("a<b", "Fol\"der", vec![("Q&A", text("1 < 2 & 3 > 2"))]);
    let tree = RbxTree::new(root);
    let id = tree.get_root_id();
    let expected = format!(
        "<?xml version=\"1.0\" encoding=\"UTF-8\"?>\n\
<roblox version=\"4\">\n\
\x20 <Item class=\"Fol&quot;der\" referent=\"{}\">\n\
\x20   <Properties>\n\
\x20     <string name=\"Name\">a&lt;b</string>\n\
\x20     <string name=\"Q&amp;A\">1 &lt; 2 &amp; 3 &gt; 2</string>\n\
\x20   </Properties>\n\
\x20 </Item>\n\
</roblox>",
        id
    );
    assert_eq!(encoded(&tree, &[id]), expected);
}
