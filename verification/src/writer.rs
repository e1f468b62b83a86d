//! Handing tokens to the XML writer.

use vstd::prelude::*;
use xml::writer::{EmitterConfig, EventWriter, XmlEvent};
use crate::error::EncodeError;
use crate::token::{depth, never_below, step, token_models, Token, TokenModel};

verus! {

/// `xml::writer::EventWriter`, the XML writer, here always over a byte
/// vector. Verus sees of it what [`accepted`] says.
#[verifier::external_type_specification]
#[verifier::external_body]
#[verifier::reject_recursive_types(W)]
pub struct ExEventWriter<W>(EventWriter<W>);

/// `xml::writer::Error`, the error of the XML writer. It is only told
/// apart from success.
#[verifier::external_type_specification]
#[verifier::external_body]
pub struct ExEmitterError(xml::writer::Error);

/// The tokens that a writer over a byte vector has taken, oldest first,
/// since it was made.
pub uninterp spec fn accepted(writer: EventWriter<Vec<u8>>) -> Seq<TokenModel>;

/// The bytes that an indenting writer with otherwise default settings has
/// put into its byte vector once it has taken exactly `tokens`, in order.
pub uninterp spec fn rendered(tokens: Seq<TokenModel>) -> Seq<u8>;

/// `EmitterConfig::new().perform_indent(true).create_writer(..)` over an
/// empty byte vector: an indenting writer that has taken no token yet.
#[verifier::external_body]
fn indenting_writer() -> (writer: EventWriter<Vec<u8>>)
    ensures
        accepted(writer) == Seq::<TokenModel>::empty(),
{
    EmitterConfig::new().perform_indent(true).create_writer(Vec::new())
}

/// `EventWriter::write` with the event that `token` describes. Over a
/// byte vector, to which a write only appends, the writer has one reason
/// to refuse one of these events: the end of an element where none is
/// open. It then has written nothing and is as it was. Every other token
/// it takes after those it had.
#[verifier::external_body]
fn emit(writer: &mut EventWriter<Vec<u8>>, token: &Token) -> (outcome: Result<
    (),
    xml::writer::Error,
>)
    ensures
        outcome is Err <==> token@ is Close && depth(accepted(*old(writer))) == 0,
        outcome is Ok ==> accepted(*final(writer)) == accepted(*old(writer)).push(token@),
        outcome is Err ==> accepted(*final(writer)) == accepted(*old(writer)),
{
    match token {
        Token::Open { tag, attributes } => writer.write(
            attributes.iter().fold(
                XmlEvent::start_element(tag.as_str()),
                |element, a| element.attr(a.name.as_str(), a.value.as_str()),
            ),
        ),
        Token::Text { content } => writer.write(XmlEvent::characters(content.as_str())),
        Token::Close => writer.write(XmlEvent::end_element()),
    }
}

/// `EventWriter::into_inner`: the byte vector that the writer wrote into,
/// which holds the rendering of the tokens it has taken.
#[verifier::external_body]
fn into_bytes(writer: EventWriter<Vec<u8>>) -> (bytes: Vec<u8>)
    ensures
        bytes@ == rendered(accepted(writer)),
{
    writer.into_inner()
}

/// Writes `tokens`, in order, through a fresh indenting XML writer and
/// returns the bytes of the document. The writer takes the tokens unless
/// one of them closes an element where none is open; at the first such
/// token the call fails with `Sink`.
pub fn render(tokens: &Vec<Token>) -> (outcome: Result<Vec<u8>, EncodeError>)
    ensures
        outcome is Ok <==> never_below(token_models(tokens@)),
        match outcome {
            Ok(bytes) => bytes@ == rendered(token_models(tokens@)),
            Err(e) => e == EncodeError::Sink,
        },
{
    let ghost all = token_models(tokens@);
    let mut writer = indenting_writer();
    let mut i: usize = 0;
    assert(all.take(0) =~= Seq::<TokenModel>::empty());
    while i < tokens.len()
        invariant
            i <= tokens.len(),
            all == token_models(tokens@),
            accepted(writer) == all.take(i as int),
            forall|k: int| 0 <= k <= i ==> depth(#[trigger] all.take(k)) >= 0,
        decreases tokens.len() - i,
    {
        proof {
            let next = all.take(i + 1);
            assert(next.drop_last() =~= all.take(i as int));
            assert(next.last() == tokens[i as int]@);
            assert(all.take(i as int).push(tokens[i as int]@) =~= next);
            assert(depth(next) == depth(all.take(i as int)) + step(tokens[i as int]@));
        }
        match emit(&mut writer, &tokens[i]) {
            Ok(_) => {},
            Err(_) => {
                assert(depth(all.take(i + 1)) < 0);
                return Err(EncodeError::Sink);
            },
        }
        i += 1;
    }
    proof {
        assert(all.take(tokens.len() as int) =~= all);
    }
    Ok(into_bytes(writer))
}

} // verus!
