use rbxmx::error::EncodeError;
use rbxmx::sorting::sort_by_name;
use rbxmx::token::{Attribute, Token};
use rbxmx::value::{serialize_value, Property, PropertyValue};
use rbxmx::writer::render;

fn rendered(tokens: &Vec<Token>) -> String {
    String::from_utf8(render(tokens).unwrap()).unwrap()
}

const DECLARATION: &str = "<?xml version=\"1.0\" encoding=\"UTF-8\"?>\n";

#[test]
fn string_value_becomes_a_string_element() {
    let mut tokens = Vec::new();
    let value = PropertyValue::String { value: "Yes Please".to_string() };
    assert_eq!(serialize_value(&mut tokens, "SomethingEnabled", &value), Ok(()));
    assert_eq!(
        tokens,
        vec![
            Token::Open {
                tag: "string".to_string(),
                attributes: vec![Attribute {
                    name: "name".to_string(),
                    value: "SomethingEnabled".to_string(),
                }],
            },
            Token::Text { content: "Yes Please".to_string() },
            Token::Close,
        ]
    );
    assert_eq!(
        rendered(&tokens),
        format!("{}<string name=\"SomethingEnabled\">Yes Please</string>", DECLARATION)
    );
}

#[test]
fn true_becomes_a_bool_element() {
    let mut tokens = Vec::new();
    let value = PropertyValue::Bool { value: true };
    assert_eq!(serialize_value(&mut tokens, "StreamingEnabled", &value), Ok(()));
    assert_eq!(
        rendered(&tokens),
        format!("{}<bool name=\"StreamingEnabled\">true</bool>", DECLARATION)
    );
}

#[test]
fn false_has_the_payload_false() {
    let mut tokens = Vec::new();
    let value = PropertyValue::Bool { value: false };
    assert_eq!(serialize_value(&mut tokens, "StreamingEnabled", &value), Ok(()));
    assert_eq!(tokens[1], Token::characters("false"));
    assert_eq!(
        rendered(&tokens),
        format!("{}<bool name=\"StreamingEnabled\">false</bool>", DECLARATION)
    );
}

#[test]
fn value_is_appended_after_what_is_there() {
    let mut tokens = vec![Token::start("Properties")];
    let value = PropertyValue::String { value: String::new() };
    assert_eq!(serialize_value(&mut tokens, "Empty", &value), Ok(()));
    assert_eq!(
        tokens,
        vec![
            Token::start("Properties"),
            Token::start_with("string", "name", "Empty"),
            Token::characters(""),
            Token::Close,
        ]
    );
}

#[test]
fn vector_is_refused_and_nothing_is_appended() {
    let mut tokens = vec![Token::start("Properties")];
    assert_eq!(
        serialize_value(&mut tokens, "Position", &PropertyValue::Vector3),
        Err(EncodeError::UnsupportedValue)
    );
    assert_eq!(tokens, vec![Token::start("Properties")]);
}

#[test]
fn token_constructors_fill_the_attributes_in_order() {
    assert_eq!(Token::start("a"), Token::Open { tag: "a".to_string(), attributes: vec![] });
    assert_eq!(
        Token::start_with_two("a", "k1", "v1", "k2", "v2"),
        Token::Open {
            tag: "a".to_string(),
            attributes: vec![
                Attribute { name: "k1".to_string(), value: "v1".to_string() },
                Attribute { name: "k2".to_string(), value: "v2".to_string() },
            ],
        }
    );
    assert_eq!(Token::characters("x"), Token::Text { content: "x".to_string() });
}

#[test]
fn render_indents_nested_elements_and_joins_empty_ones() {
    let tokens = vec![
        Token::start_with_two("outer", "a", "1", "b", "2"),
        Token::start("inner"),
        Token::Close,
        Token::start("named"),
        Token::characters("text"),
        Token::Close,
        Token::Close,
    ];
    assert_eq!(
        rendered(&tokens),
        format!(
            "{}<outer a=\"1\" b=\"2\">\n  <inner />\n  <named>text</named>\n</outer>",
            DECLARATION
        )
    );
}

#[test]
fn render_of_nothing_is_empty() {
    assert_eq!(render(&Vec::new()), Ok(Vec::new()));
}

#[test]
fn render_reports_a_close_without_an_open_element() {
    assert_eq!(render(&vec![Token::Close]), Err(EncodeError::Sink));
    assert_eq!(
        render(&vec![Token::start("a"), Token::Close, Token::Close]),
        Err(EncodeError::Sink)
    );
}

fn named(name: &str) -> Property {
    Property { name: name.to_string(), value: PropertyValue::Bool { value: name.len() % 2 == 0 } }
}

#[test]
fn sort_by_name_orders_by_code_points_with_prefixes_first() {
    let sorted = sort_by_name(vec![
        named("b"),
        named("ab"),
        named("B"),
        named("a"),
        named(""),
        named("\u{e9}"),
        named("abc"),
        named("z"),
    ]);
    let names: Vec<&str> = sorted.iter().map(|p| p.name.as_str()).collect();
    assert_eq!(names, vec!["", "B", "a", "ab", "abc", "b", "z", "\u{e9}"]);
    assert_eq!(sorted[3], named("ab"));
}

#[test]
fn sort_by_name_keeps_each_value_with_its_name() {
    let sorted = sort_by_name(vec![
        Property { name: "y".to_string(), value: PropertyValue::Vector3 },
        Property { name: "x".to_string(), value: PropertyValue::String { value: "y".to_string() } },
    ]);
    assert_eq!(
        sorted,
        vec![
            Property { name: "x".to_string(), value: PropertyValue::String { value: "y".to_string() } },
            Property { name: "y".to_string(), value: PropertyValue::Vector3 },
        ]
    );
    assert_eq!(sort_by_name(Vec::new()), Vec::new());
}

#[test]
fn render_takes_every_sequence_that_closes_only_open_elements() {
    assert!(render(&vec![Token::start("a")]).is_ok());
    assert!(render(&vec![Token::characters("loose")]).is_ok());
    assert!(render(&vec![Token::start("a"), Token::Close, Token::start("b"), Token::Close]).is_ok());
    assert!(render(&vec![Token::start("a"), Token::characters("x"), Token::start("b")]).is_ok());
    assert_eq!(
        rendered(&vec![Token::start("a"), Token::Close, Token::start("b"), Token::Close]),
        format!("{}<a />\n<b />", DECLARATION)
    );
}

#[test]
fn render_fails_at_the_first_close_with_nothing_open() {
    assert_eq!(
        render(&vec![Token::start("a"), Token::Close, Token::Close, Token::start("b")]),
        Err(EncodeError::Sink)
    );
    assert_eq!(
        render(&vec![Token::characters("x"), Token::Close]),
        Err(EncodeError::Sink)
    );
}
