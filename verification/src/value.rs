//! Property values and the element that each kind of value becomes.

use vstd::prelude::*;
use crate::error::EncodeError;
use crate::token::{lemma_models_push, open1, text, token_models, Token, TokenModel};

verus! {

/// The value of a property: one variant for each kind that a tree can hold.
#[derive(Clone, Debug, PartialEq, Eq)]
pub enum PropertyValue {
    String { value: String },
    Bool { value: bool },
    /// A vector of three components. The components are not kept: the
    /// format has no element for this kind yet.
    Vector3,
}

/// What a [`PropertyValue`] stands for in contracts.
pub enum ValueModel {
    String { value: Seq<char> },
    Bool { value: bool },
    Vector3,
}

impl View for PropertyValue {
    type V = ValueModel;

    open spec fn view(&self) -> ValueModel {
        match self {
            PropertyValue::String { value } => ValueModel::String { value: value@ },
            PropertyValue::Bool { value } => ValueModel::Bool { value: *value },
            PropertyValue::Vector3 => ValueModel::Vector3,
        }
    }
}

/// A property of an instance: its name and its value.
#[derive(Clone, Debug, PartialEq, Eq)]
pub struct Property {
    pub name: String,
    pub value: PropertyValue,
}

/// What a [`Property`] stands for in contracts.
pub struct PropertyModel {
    pub name: Seq<char>,
    pub value: ValueModel,
}

impl View for Property {
    type V = PropertyModel;

    open spec fn view(&self) -> PropertyModel {
        PropertyModel { name: self.name@, value: self.value@ }
    }
}

/// The models of a sequence of properties, one for one.
pub open spec fn property_models(properties: Seq<Property>) -> Seq<PropertyModel> {
    Seq::new(properties.len(), |i: int| properties[i]@)
}

/// The tag of the element that holds a value of this kind, where the
/// format has one.
pub open spec fn element_tag(value: ValueModel) -> Option<Seq<char>> {
    match value {
        ValueModel::String { .. } => Some("string"@),
        ValueModel::Bool { .. } => Some("bool"@),
        ValueModel::Vector3 => None,
    }
}

/// The character data that stands for a value inside its element.
pub open spec fn payload(value: ValueModel) -> Seq<char> {
    match value {
        ValueModel::String { value } => value,
        ValueModel::Bool { value } => if value {
            "true"@
        } else {
            "false"@
        },
        ValueModel::Vector3 => Seq::empty(),
    }
}

/// Whether the format has an element for this kind of value.
pub open spec fn supported(value: ValueModel) -> bool {
    element_tag(value) is Some
}

/// The tokens of the element for one property: the start, with the
/// property's name in the attribute `name`, the payload, and the end.
pub open spec fn value_tokens(name: Seq<char>, value: ValueModel) -> Seq<TokenModel>
    recommends
        supported(value),
{
    seq![open1(element_tag(value).unwrap(), "name"@, name), text(payload(value)), TokenModel::Close]
}

/// Appends to `tokens` the element for the property `name` with the given
/// value. A value of a kind without an element is refused, and `tokens` is
/// left as it was.
pub fn serialize_value(tokens: &mut Vec<Token>, name: &str, value: &PropertyValue) -> (outcome:
    Result<(), EncodeError>)
    ensures
        outcome is Ok <==> supported(value@),
        outcome is Ok ==> token_models(final(tokens)@) == token_models(old(tokens)@) + value_tokens(
            name@,
            value@,
        ),
        outcome is Ok ==> old(tokens)@.is_prefix_of(final(tokens)@),
        outcome is Err ==> outcome == Err::<(), EncodeError>(EncodeError::UnsupportedValue)
            && final(tokens)@ == old(tokens)@,
{
    let ghost before = tokens@;
    let (start, data) = match value {
        PropertyValue::String { value } => (
            Token::start_with("string", "name", name),
            Token::characters(value.as_str()),
        ),
        PropertyValue::Bool { value } => (
            Token::start_with("bool", "name", name),
            Token::characters(
                if *value {
                    "true"
                } else {
                    "false"
                },
            ),
        ),
        PropertyValue::Vector3 => {
            return Err(EncodeError::UnsupportedValue);
        },
    };
    tokens.push(start);
    tokens.push(data);
    tokens.push(Token::Close);
    proof {
        lemma_models_push(before, start);
        lemma_models_push(before.push(start), data);
        lemma_models_push(before.push(start).push(data), Token::Close);
        assert(token_models(tokens@) =~= token_models(before) + value_tokens(name@, value@));
    }
    Ok(())
}

} // verus!
