//! The serializer that tokens are written through, and what this library
//! states about it.
//!
//! The serializer is the `xml` crate's `EventWriter` over a byte vector. It
//! keeps a state of its own (how deep it is indented, which elements are
//! open), so what it writes for a token depends on everything that it was
//! handed before, and on the layout that it was made with. The contracts
//! therefore speak of three things: the layout of a serializer, the items that
//! it has been handed so far, and the bytes that it holds.

use crate::reader::Token;
use vstd::prelude::*;
use vstd::string::StringSliceAdditionalSpecFns;
use xml::EmitterConfig;
use xml::EventWriter;

verus! {

/// The `xml` crate's serializer. What it holds is known by the names below
/// only.
#[verifier::external_type_specification]
#[verifier::external_body]
#[verifier::reject_recursive_types(W)]
pub struct ExEventWriter<W>(EventWriter<W>);

/// Whether the output is indented.
pub const PERFORM_INDENT: bool = true;

/// What one level of indentation is made of: two spaces.
pub const INDENT_STRING: &'static str = "  ";

/// What separates the lines of the output: a line feed.
pub const LINE_SEPARATOR: &'static str = "\n";

/// How a serializer lays out what it writes.
pub struct Layout {
    /// Whether it indents.
    pub indent: bool,
    /// What it writes for one level of indentation.
    pub indent_string: Seq<char>,
    /// What it writes between lines.
    pub line_separator: Seq<char>,
}

/// The layout of the output of this library.
pub open spec fn house_layout() -> Layout {
    Layout {
        indent: PERFORM_INDENT,
        indent_string: INDENT_STRING@,
        line_separator: LINE_SEPARATOR@,
    }
}

/// One thing handed to a serializer.
pub enum Item {
    /// A token, for the serializer to write in its own form.
    Token(Token),
    /// Bytes to be taken over as they are.
    Raw(Seq<u8>),
}

/// The items that `writer` has been handed since it was made, in order,
/// whether it took them or refused them.
pub uninterp spec fn fed(writer: EventWriter<Vec<u8>>) -> Seq<Item>;

/// The bytes that `writer` holds.
pub uninterp spec fn written(writer: EventWriter<Vec<u8>>) -> Seq<u8>;

/// The layout that `writer` was made with.
pub uninterp spec fn layout_of(writer: EventWriter<Vec<u8>>) -> Layout;

/// What a serializer made by [`create_writer`] with `layout` answers when,
/// after it has been handed `before`, it is handed `token`: the bytes that it
/// writes for the token where it takes it, or its complaint where it refuses.
pub uninterp spec fn serialized(layout: Layout, before: Seq<Item>, token: Token) -> Result<
    Seq<u8>,
    Seq<char>,
>;

/// The bytes that a serializer with the layout of this library writes for
/// `token` after `before`: none where it refuses the token.
pub open spec fn emitted(before: Seq<Item>, token: Token) -> Seq<u8> {
    match serialized(house_layout(), before, token) {
        Ok(bytes) => bytes,
        Err(_) => Seq::empty(),
    }
}

/// The complaint with which a serializer with the layout of this library
/// refuses `token` after `before`, or `None` where it takes the token.
pub open spec fn refusal(before: Seq<Item>, token: Token) -> Option<Seq<char>> {
    match serialized(house_layout(), before, token) {
        Ok(_) => None,
        Err(complaint) => Some(complaint),
    }
}

/// The serializer takes `item` after it has been handed `before`: a token
/// where it has no complaint, and bytes always, since they go into the byte
/// vector as they are.
pub open spec fn taken(before: Seq<Item>, item: Item) -> bool {
    match item {
        Item::Token(token) => refusal(before, token) is None,
        Item::Raw(_) => true,
    }
}

/// The serializer takes each of `items` when, after `before`, it is handed
/// them one by one.
pub open spec fn all_taken(before: Seq<Item>, items: Seq<Item>) -> bool
    decreases items.len(),
{
    items.len() == 0 || (all_taken(before, items.drop_last()) && taken(
        before + items.drop_last(),
        items.last(),
    ))
}

/// The bytes that one item adds to the output.
pub open spec fn item_bytes(before: Seq<Item>, item: Item) -> Seq<u8> {
    match item {
        Item::Token(token) => emitted(before, token),
        Item::Raw(bytes) => bytes,
    }
}

/// The bytes that a serializer writes when, after `before`, it is handed
/// `items` one by one and takes each of them.
pub open spec fn rendered(before: Seq<Item>, items: Seq<Item>) -> Seq<u8>
    decreases items.len(),
{
    if items.len() == 0 {
        Seq::empty()
    } else {
        rendered(before, items.drop_last()) + item_bytes(
            before + items.drop_last(),
            items.last(),
        )
    }
}

/// Writing two runs of items one after the other gives the bytes of the first
/// run followed by those of the second.
pub proof fn lemma_rendered_concat(before: Seq<Item>, first: Seq<Item>, second: Seq<Item>)
    ensures
        rendered(before, first + second) == rendered(before, first) + rendered(
            before + first,
            second,
        ),
    decreases second.len(),
{
    if second.len() == 0 {
        assert(first + second =~= first);
    } else {
        lemma_rendered_concat(before, first, second.drop_last());
        assert((first + second).drop_last() =~= first + second.drop_last());
        assert(before + (first + second.drop_last()) =~= (before + first) + second.drop_last());
        assert((first + second).last() == second.last());
    }
}

/// Two runs of items are taken one after the other where the first is taken
/// and then the second.
pub proof fn lemma_all_taken_concat(before: Seq<Item>, first: Seq<Item>, second: Seq<Item>)
    ensures
        all_taken(before, first + second) == (all_taken(before, first) && all_taken(
            before + first,
            second,
        )),
    decreases second.len(),
{
    if second.len() == 0 {
        assert(first + second =~= first);
    } else {
        lemma_all_taken_concat(before, first, second.drop_last());
        assert((first + second).drop_last() =~= first + second.drop_last());
        assert(before + (first + second.drop_last()) =~= (before + first) + second.drop_last());
        assert((first + second).last() == second.last());
    }
}

/// Makes a serializer over `destination`, through `xml::EmitterConfig`, with
/// the layout given: whether it indents (`perform_indent`), what one level of
/// indentation is (`indent_string`), and what stands between lines
/// (`line_separator`). Making it writes nothing, so the serializer holds what
/// `destination` held and has been handed nothing.
#[verifier::external_body]
pub(crate) fn create_writer(
    destination: Vec<u8>,
    indent: bool,
    indent_string: &'static str,
    line_separator: &'static str,
) -> (writer: EventWriter<Vec<u8>>)
    ensures
        fed(writer) == Seq::<Item>::empty(),
        written(writer) == destination@,
        layout_of(writer) == (Layout {
            indent,
            indent_string: indent_string@,
            line_separator: line_separator@,
        }),
{
    EmitterConfig::new().perform_indent(indent).indent_string(indent_string).line_separator(
        line_separator,
    ).create_writer(destination)
}

/// Hands `token` to the serializer, through `as_writer_event` of the reader's
/// event and `write` of `xml::EventWriter`. The only event without a form for
/// the writer is the end of the document: for it nothing happens and `None`
/// comes back. Every other token counts as handed over. What the serializer
/// answers depends on nothing but its layout, what it was handed before and
/// the token: where it takes the token, its bytes for it follow those it held;
/// where it refuses, its complaint comes back as text. Either way the bytes
/// that it held stay in front, since a byte vector is only ever written
/// behind, and the layout stays what it was.
#[verifier::external_body]
pub(crate) fn write_token(writer: &mut EventWriter<Vec<u8>>, token: &Token) -> (outcome: Option<
    Result<(), String>,
>)
    ensures
        outcome is None <==> !token.is_writable(),
        outcome is None ==> *final(writer) == *old(writer),
        outcome is Some ==> fed(*final(writer)) == fed(*old(writer)).push(Item::Token(*token)),
        layout_of(*final(writer)) == layout_of(*old(writer)),
        written(*old(writer)).is_prefix_of(written(*final(writer))),
        outcome matches Some(Ok(_)) ==> serialized(
            layout_of(*old(writer)),
            fed(*old(writer)),
            *token,
        ) is Ok,
        outcome matches Some(Ok(_)) ==> written(*final(writer)) == written(*old(writer))
            + serialized(layout_of(*old(writer)), fed(*old(writer)), *token)->Ok_0,
        outcome matches Some(Err(complaint)) ==> serialized(
            layout_of(*old(writer)),
            fed(*old(writer)),
            *token,
        ) is Err && serialized(layout_of(*old(writer)), fed(*old(writer)), *token)->Err_0
            == complaint@,
{
    match token.event.as_writer_event() {
        Some(event) => Some(writer.write(event).map_err(|e| e.to_string())),
        None => None,
    }
}

/// Puts `text` into the serializer's bytes as it is, through `inner_mut` of
/// `xml::EventWriter` and `extend_from_slice` of the byte vector, which
/// appends and cannot fail. The text counts as handed over, its bytes follow
/// those that the serializer held, and the layout stays what it was.
#[verifier::external_body]
pub(crate) fn write_raw(writer: &mut EventWriter<Vec<u8>>, text: &str)
    ensures
        fed(*final(writer)) == fed(*old(writer)).push(Item::Raw(text.spec_bytes())),
        written(*final(writer)) == written(*old(writer)) + text.spec_bytes(),
        layout_of(*final(writer)) == layout_of(*old(writer)),
{
    writer.inner_mut().extend_from_slice(text.as_bytes())
}

/// The bytes that the serializer holds, through `inner_ref` of
/// `xml::EventWriter`.
#[verifier::external_body]
pub(crate) fn written_bytes(writer: &EventWriter<Vec<u8>>) -> (bytes: &[u8])
    ensures
        bytes@ == written(*writer),
{
    writer.inner_ref().as_slice()
}

} // verus!
