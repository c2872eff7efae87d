//! Pull-based reading of the tokens of a document held in memory.
//!
//! The parsing itself is the work of the `xml` crate. What this module adds is
//! the [`Token`], which keeps beside each parsed event the little that the
//! splice has to know about it, and the contracts under which the rest of the
//! library reads a document token by token.

use crate::helpers::same_text;
use vstd::prelude::*;
use xml::reader::Events;
use xml::reader::XmlEvent;

verus! {

/// An event as the `xml` crate's reader hands it out. It is carried through
/// as it is: only the making of a token looks at it.
#[verifier::external_type_specification]
#[verifier::external_body]
pub struct ExXmlEvent(XmlEvent);

/// What a token is. The element tokens carry the element's local name.
#[derive(Debug, PartialEq, Eq)]
pub enum TokenKind {
    /// The start of the document, with or without a written header.
    StartDocument,
    /// The end of the document.
    EndDocument,
    /// A processing instruction.
    ProcessingInstruction,
    /// An opening tag.
    StartElement(String),
    /// A closing tag.
    EndElement(String),
    /// A stretch of unparsed character data.
    CData,
    /// A comment.
    Comment,
    /// Text between tags.
    Characters,
    /// Whitespace between tags.
    Whitespace,
}

/// One token of a document: the parsed event and its kind. Tokens are made by
/// reading a document and in no other way, so the kind always is that of the
/// event.
pub struct Token {
    pub(crate) kind: TokenKind,
    pub(crate) event: XmlEvent,
}

impl Token {
    /// The kind of this token.
    pub closed spec fn spec_kind(&self) -> &TokenKind {
        &self.kind
    }

    /// This token starts a document.
    pub open spec fn spec_is_start_document(&self) -> bool {
        self.spec_kind() is StartDocument
    }

    /// This token can be written out again: every token can, but the one that
    /// ends a document.
    pub open spec fn spec_is_writable(&self) -> bool {
        !(self.spec_kind() is EndDocument)
    }

    /// This token closes an element whose local name is `marker`.
    pub open spec fn spec_closes(&self, marker: &str) -> bool {
        match self.spec_kind() {
            TokenKind::EndElement(name) => name@ == marker@,
            _ => false,
        }
    }

    /// The kind of this token.
    #[verifier::when_used_as_spec(spec_kind)]
    pub fn kind(&self) -> (kind: &TokenKind)
        ensures
            kind == self.spec_kind(),
    {
        &self.kind
    }

    /// Whether this token starts a document.
    #[verifier::when_used_as_spec(spec_is_start_document)]
    pub fn is_start_document(&self) -> (starts: bool)
        ensures
            starts == self.spec_is_start_document(),
    {
        match &self.kind {
            TokenKind::StartDocument => true,
            _ => false,
        }
    }

    /// Whether this token can be written out again.
    #[verifier::when_used_as_spec(spec_is_writable)]
    pub fn is_writable(&self) -> (writable: bool)
        ensures
            writable == self.spec_is_writable(),
    {
        match &self.kind {
            TokenKind::EndDocument => false,
            _ => true,
        }
    }

    /// Whether this token closes an element whose local name is `marker`.
    #[verifier::when_used_as_spec(spec_closes)]
    pub fn closes(&self, marker: &str) -> (closes: bool)
        ensures
            closes == self.spec_closes(marker),
    {
        match &self.kind {
            TokenKind::EndElement(name) => same_text(name.as_str(), marker),
            _ => false,
        }
    }
}

/// A reader over the bytes of one document, which hands out its tokens one by
/// one. It is the `xml` crate's iterator over the events of a byte slice. The
/// type of that iterator is bounded by `std::io::Read`, a trait that Verus has
/// no declaration of, so the iterator is kept in here, where Verus does not
/// look.
#[verifier::external_body]
pub struct TokenReader<'a> {
    events: Events<&'a [u8]>,
}

/// The tokens of the document that `bytes` holds, in order: every event that
/// the `xml` crate's reader produces from a fresh start on `bytes`, up to and
/// including the end of the document, or up to its first error, which is left
/// out.
pub uninterp spec fn parsed(bytes: Seq<u8>) -> Seq<Token>;

/// The tokens that `reader` has yet to hand out.
pub uninterp spec fn pending(reader: TokenReader) -> Seq<Token>;

/// Opens a reader at the start of `bytes`, through `xml::EventReader::new` and
/// its `into_iter`. No byte is read yet: what the reader will hand out is what
/// parsing `bytes` gives. The `xml` crate's reader hands out the start of the
/// document before any other event, so that is what the tokens begin with,
/// where there are any.
#[verifier::external_body]
pub(crate) fn open_reader<'a>(bytes: &'a [u8]) -> (reader: TokenReader<'a>)
    ensures
        pending(reader) == parsed(bytes@),
        pending(reader).len() > 0 ==> pending(reader)[0].is_start_document(),
{
    TokenReader { events: xml::EventReader::new(bytes).into_iter() }
}

/// Pulls the next token, through `next` of `xml::reader::Events`. That
/// iterator yields each event once and stops after the end of the document or
/// after an error; an error is dropped here, so the stream ends before it. The
/// kind is read off the event's variant, and the local name off an element's
/// name.
#[verifier::external_body]
pub(crate) fn next_token(reader: &mut TokenReader) -> (token: Option<Token>)
    ensures
        match token {
            Some(t) => pending(*old(reader)).len() > 0 && t == pending(*old(reader))[0]
                && pending(*final(reader)) == pending(*old(reader)).skip(1),
            None => pending(*old(reader)).len() == 0 && pending(*final(reader)).len() == 0,
        },
{
    let event = reader.events.next()?.ok()?;
    let kind = match &event {
        XmlEvent::StartDocument { .. } => TokenKind::StartDocument,
        XmlEvent::EndDocument => TokenKind::EndDocument,
        XmlEvent::ProcessingInstruction { .. } => TokenKind::ProcessingInstruction,
        XmlEvent::StartElement { name, .. } => TokenKind::StartElement(name.local_name.clone()),
        XmlEvent::EndElement { name } => TokenKind::EndElement(name.local_name.clone()),
        XmlEvent::CData(_) => TokenKind::CData,
        XmlEvent::Comment(_) => TokenKind::Comment,
        XmlEvent::Characters(_) => TokenKind::Characters,
        XmlEvent::Whitespace(_) => TokenKind::Whitespace,
    };
    Some(Token { kind, event })
}

/// Reads all the tokens of the document that `bytes` holds.
pub fn tokens(bytes: &[u8]) -> (all: Vec<Token>)
    ensures
        all@ == parsed(bytes@),
        all.len() > 0 ==> all@[0].is_start_document(),
{
    let mut reader = open_reader(bytes);
    let mut all: Vec<Token> = Vec::new();
    loop
        invariant
            parsed(bytes@) == all@ + pending(reader),
            parsed(bytes@).len() > 0 ==> parsed(bytes@)[0].is_start_document(),
        decreases pending(reader).len(),
    {
        match next_token(&mut reader) {
            Some(token) => {
                all.push(token);
            },
            None => {
                return all;
            },
        }
    }
}

} // verus!
