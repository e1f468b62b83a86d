//! XML tokens: the events that make up a document, in the order in which a
//! writer receives them.

use vstd::prelude::*;

verus! {

/// An attribute of an element.
#[derive(Clone, Debug, PartialEq, Eq)]
pub struct Attribute {
    pub name: String,
    pub value: String,
}

/// What an [`Attribute`] stands for in contracts.
pub struct AttributeModel {
    pub name: Seq<char>,
    pub value: Seq<char>,
}

impl View for Attribute {
    type V = AttributeModel;

    open spec fn view(&self) -> AttributeModel {
        AttributeModel { name: self.name@, value: self.value@ }
    }
}

/// One event of an XML document.
#[derive(Clone, Debug, PartialEq, Eq)]
pub enum Token {
    /// The start of an element, with its attributes in order.
    Open { tag: String, attributes: Vec<Attribute> },
    /// Character data inside the innermost open element.
    Text { content: String },
    /// The end of the innermost open element.
    Close,
}

/// What a [`Token`] stands for in contracts.
pub enum TokenModel {
    Open { tag: Seq<char>, attributes: Seq<AttributeModel> },
    Text { content: Seq<char> },
    Close,
}

/// The models of a sequence of attributes, one for one.
pub open spec fn attribute_models(attributes: Seq<Attribute>) -> Seq<AttributeModel> {
    Seq::new(attributes.len(), |i: int| attributes[i]@)
}

/// The models of a sequence of tokens, one for one.
pub open spec fn token_models(tokens: Seq<Token>) -> Seq<TokenModel> {
    Seq::new(tokens.len(), |i: int| tokens[i]@)
}

impl View for Token {
    type V = TokenModel;

    open spec fn view(&self) -> TokenModel {
        match self {
            Token::Open { tag, attributes } => TokenModel::Open {
                tag: tag@,
                attributes: attribute_models(attributes@),
            },
            Token::Text { content } => TokenModel::Text { content: content@ },
            Token::Close => TokenModel::Close,
        }
    }
}

/// By how much a token changes the number of open elements.
pub open spec fn step(token: TokenModel) -> int {
    match token {
        TokenModel::Open { .. } => 1,
        TokenModel::Text { .. } => 0,
        TokenModel::Close => -1,
    }
}

/// The number of elements left open after `tokens`, counted from none open.
pub open spec fn depth(tokens: Seq<TokenModel>) -> int
    decreases tokens.len(),
{
    if tokens.len() == 0 {
        0
    } else {
        depth(tokens.drop_last()) + step(tokens.last())
    }
}

/// Whether `tokens` never closes an element where none is open.
pub open spec fn never_below(tokens: Seq<TokenModel>) -> bool {
    forall|k: int| 0 <= k <= tokens.len() ==> depth(#[trigger] tokens.take(k)) >= 0
}

/// An element start with no attribute.
pub open spec fn open0(tag: Seq<char>) -> TokenModel {
    TokenModel::Open { tag, attributes: seq![] }
}

/// An element start with one attribute.
pub open spec fn open1(tag: Seq<char>, name: Seq<char>, value: Seq<char>) -> TokenModel {
    TokenModel::Open { tag, attributes: seq![AttributeModel { name, value }] }
}

/// An element start with two attributes.
pub open spec fn open2(
    tag: Seq<char>,
    name1: Seq<char>,
    value1: Seq<char>,
    name2: Seq<char>,
    value2: Seq<char>,
) -> TokenModel {
    TokenModel::Open {
        tag,
        attributes: seq![
            AttributeModel { name: name1, value: value1 },
            AttributeModel { name: name2, value: value2 },
        ],
    }
}

/// The text token with the given content.
pub open spec fn text(content: Seq<char>) -> TokenModel {
    TokenModel::Text { content }
}

impl Token {
    /// Starts an element that has no attribute.
    pub fn start(tag: &str) -> (token: Token)
        ensures
            token@ == open0(tag@),
    {
        let token = Token::Open { tag: tag.to_owned(), attributes: Vec::new() };
        assert(attribute_models(Seq::<Attribute>::empty()) =~= Seq::<AttributeModel>::empty());
        token
    }

    /// Starts an element that has one attribute.
    pub fn start_with(tag: &str, name: &str, value: &str) -> (token: Token)
        ensures
            token@ == open1(tag@, name@, value@),
    {
        let mut attributes: Vec<Attribute> = Vec::new();
        attributes.push(Attribute { name: name.to_owned(), value: value.to_owned() });
        assert(attribute_models(attributes@) =~= seq![AttributeModel { name: name@, value: value@ }]);
        Token::Open { tag: tag.to_owned(), attributes }
    }

    /// Starts an element that has two attributes.
    pub fn start_with_two(tag: &str, name1: &str, value1: &str, name2: &str, value2: &str) -> (token:
        Token)
        ensures
            token@ == open2(tag@, name1@, value1@, name2@, value2@),
    {
        let mut attributes: Vec<Attribute> = Vec::new();
        attributes.push(Attribute { name: name1.to_owned(), value: value1.to_owned() });
        attributes.push(Attribute { name: name2.to_owned(), value: value2.to_owned() });
        assert(attribute_models(attributes@) =~= seq![
            AttributeModel { name: name1@, value: value1@ },
            AttributeModel { name: name2@, value: value2@ },
        ]);
        Token::Open { tag: tag.to_owned(), attributes }
    }

    /// Character data with the given content.
    pub fn characters(content: &str) -> (token: Token)
        ensures
            token@ == text(content@),
    {
        Token::Text { content: content.to_owned() }
    }
}


/// A start of a start of a sequence is a start of the sequence.
pub proof fn lemma_prefix_transitive(a: Seq<Token>, b: Seq<Token>, c: Seq<Token>)
    requires
        a.is_prefix_of(b),
        b.is_prefix_of(c),
    ensures
        a.is_prefix_of(c),
{
    assert forall|i: int| 0 <= i < a.len() implies a[i] == c[i] by {
        assert(a[i] == b.subrange(0, a.len() as int)[i]);
        assert(b[i] == c.subrange(0, b.len() as int)[i]);
    }
    assert(a =~= c.subrange(0, a.len() as int));
}

/// Appending a token appends its model.
pub proof fn lemma_models_push(tokens: Seq<Token>, token: Token)
    ensures
        token_models(tokens.push(token)) == token_models(tokens).push(token@),
{
    assert(token_models(tokens.push(token)) =~= token_models(tokens).push(token@));
}

} // verus!
