use std::collections::{HashMap, HashSet};

use rbx_tree::{RbxId, RbxInstanceProperties, RbxTree, RbxValue};
use rbxmx::token::Token;
use rbxmx::{encode, encode_tokens};

fn plain(name: &str, class_name: &str) -> RbxInstanceProperties {
    let mut properties = HashMap::new();
    properties.insert("Archivable".to_string(), RbxValue::Bool { value: true });
    properties.insert("Tag".to_string(), RbxValue::String { value: name.to_string() });
    RbxInstanceProperties { name: name.to_string(), class_name: class_name.to_string(), properties }
}

/// A tree of seven instances: a root with two children, of which the first
/// has three children and the second has one.
fn sample() -> (RbxTree, Vec<RbxId>) {
    let mut tree = RbxTree::new(plain("Game", "DataModel"));
    let root = tree.get_root_id();
    let a = tree.insert_instance(plain("A", "Folder"), root);
    let b = tree.insert_instance(plain("B", "Folder"), root);
    let a1 = tree.insert_instance(plain("A1", "Part"), a);
    let a2 = tree.insert_instance(plain("A2", "Part"), a);
    let a3 = tree.insert_instance(plain("A3", "Part"), a);
    let b1 = tree.insert_instance(plain("B1", "Part"), b);
    (tree, vec![root, a, b, a1, a2, a3, b1])
}

fn depths(tokens: &[Token]) -> Vec<i64> {
    let mut depth = 0;
    let mut all = Vec::new();
    for token in tokens {
        match token {
            Token::Open { .. } => depth += 1,
            Token::Text { .. } => {}
            Token::Close => depth -= 1,
        }
        all.push(depth);
    }
    all
}

fn referents(tokens: &[Token]) -> Vec<String> {
    let mut all = Vec::new();
    for token in tokens {
        if let Token::Open { attributes, .. } = token {
            for attribute in attributes {
                if attribute.name == "referent" {
                    all.push(attribute.value.clone());
                }
            }
        }
    }
    all
}

#[test]
fn document_is_one_root_element_with_balanced_tags() {
    let (tree, ids) = sample();
    for roots in [vec![], vec![ids[0]], vec![ids[1], ids[2]], vec![ids[6], ids[3]]] {
        let tokens = encode_tokens(&tree, &roots).unwrap();
        assert_eq!(tokens[0], Token::start_with("roblox", "version", "4"));
        let depths = depths(&tokens);
        assert_eq!(*depths.last().unwrap(), 0);
        assert!(depths[..depths.len() - 1].iter().all(|depth| *depth >= 1));
    }
}

#[test]
fn rendered_document_closes_every_element_it_opens() {
    let (tree, ids) = sample();
    let document = String::from_utf8(encode(&tree, &[ids[0]]).unwrap()).unwrap();
    assert_eq!(document.matches("<roblox ").count(), 1);
    assert_eq!(document.matches("</roblox>").count(), 1);
    assert!(document.ends_with("</roblox>"));
    assert_eq!(document.matches("<Item ").count(), 7);
    assert_eq!(document.matches("</Item>").count(), 7);
    assert_eq!(document.matches("<Properties>").count(), 7);
    assert_eq!(document.matches("</Properties>").count(), 7);
    assert_eq!(document.matches("<string ").count(), document.matches("</string>").count());
    assert_eq!(document.matches("<bool ").count(), document.matches("</bool>").count());
}

#[test]
fn every_item_starts_with_its_properties_block_and_the_display_name() {
    let (tree, ids) = sample();
    let tokens = encode_tokens(&tree, &[ids[0]]).unwrap();
    let names = ["Game", "A", "A1", "A2", "A3", "B", "B1"];
    let mut seen = 0;
    for (i, token) in tokens.iter().enumerate() {
        if let Token::Open { tag, .. } = token {
            if tag == "Item" {
                assert_eq!(tokens[i + 1], Token::start("Properties"));
                assert_eq!(tokens[i + 2], Token::start_with("string", "name", "Name"));
                assert_eq!(tokens[i + 3], Token::characters(names[seen]));
                assert_eq!(tokens[i + 4], Token::Close);
                assert_eq!(tokens[i + 5], Token::start_with("bool", "name", "Archivable"));
                assert_eq!(tokens[i + 8], Token::start_with("string", "name", "Tag"));
                assert_eq!(tokens[i + 11], Token::Close);
                seen += 1;
            }
        }
    }
    assert_eq!(seen, 7);
}

#[test]
fn referents_are_the_reachable_identifiers_each_once() {
    let (tree, ids) = sample();
    let all = referents(&encode_tokens(&tree, &[ids[0]]).unwrap());
    let expected: Vec<String> =
        [ids[0], ids[1], ids[3], ids[4], ids[5], ids[2], ids[6]].iter().map(|id| id.to_string()).collect();
    assert_eq!(all, expected);
    assert_eq!(all.iter().collect::<HashSet<_>>().len(), 7);

    let below_a = referents(&encode_tokens(&tree, &[ids[1]]).unwrap());
    let expected: Vec<String> =
        [ids[1], ids[3], ids[4], ids[5]].iter().map(|id| id.to_string()).collect();
    assert_eq!(below_a, expected);

    let apart = referents(&encode_tokens(&tree, &[ids[6], ids[1]]).unwrap());
    assert_eq!(apart.iter().collect::<HashSet<_>>().len(), apart.len());
    assert_eq!(apart.len(), 5);
}

#[test]
fn root_below_another_root_is_carried_twice() {
    let (tree, ids) = sample();
    let all = referents(&encode_tokens(&tree, &[ids[1], ids[3]]).unwrap());
    assert_eq!(all.len(), 5);
    assert_eq!(all.iter().filter(|r| **r == ids[3].to_string()).count(), 2);
}

#[test]
fn whole_tree_is_never_too_deep() {
    let mut tree = RbxTree::new(plain("0", "Folder"));
    let mut last = tree.get_root_id();
    for i in 1..40 {
        last = tree.insert_instance(plain(&i.to_string(), "Folder"), last);
    }
    let tokens = encode_tokens(&tree, &[tree.get_root_id()]).unwrap();
    assert_eq!(referents(&tokens).len(), 40);
    assert_eq!(referents(&tokens)[39], last.to_string());
}
