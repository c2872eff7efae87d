//! What an injection hands to the serializer, and in which order.
//!
//! The source document is copied token by token. Directly after a token that
//! starts a document comes the declaration line, where the source has one.
//! Directly before the first token that closes the marker element comes the
//! fragment: the tokens of the injected document, without the one that starts
//! it.

use crate::reader::Token;
use crate::writer::Item;
use vstd::prelude::*;

verus! {

/// The part of the work that a step belongs to.
#[derive(Clone, Copy, Debug, PartialEq, Eq, Structural)]
pub enum Phase {
    /// Copying a token of the source document.
    Source,
    /// Copying a token of the injected fragment.
    Injection,
    /// Putting in the declaration line.
    Declaration,
}

/// One step of an injection: what is handed to the serializer, and the part
/// of the work that it belongs to.
pub struct Step {
    pub phase: Phase,
    pub item: Item,
}

/// The step that copies `token` from the source document.
pub open spec fn source_step(token: Token) -> Step {
    Step { phase: Phase::Source, item: Item::Token(token) }
}

/// The step that copies `token` from the injected fragment.
pub open spec fn injection_step(token: Token) -> Step {
    Step { phase: Phase::Injection, item: Item::Token(token) }
}

/// The step that puts in the declaration `line`.
pub open spec fn declaration_step(line: Seq<u8>) -> Step {
    Step { phase: Phase::Declaration, item: Item::Raw(line) }
}

/// The steps for one token of the source document: the token itself where it
/// can be written, and after a start of document the declaration, if any.
pub open spec fn copy_of(token: Token, declaration: Option<Seq<u8>>) -> Seq<Step> {
    let copy = if token.is_writable() {
        seq![source_step(token)]
    } else {
        Seq::empty()
    };
    if token.is_start_document() && declaration is Some {
        copy.push(declaration_step(declaration->0))
    } else {
        copy
    }
}

/// The steps for a run of tokens of the source document.
pub open spec fn copied(tokens: Seq<Token>, declaration: Option<Seq<u8>>) -> Seq<Step>
    decreases tokens.len(),
{
    if tokens.len() == 0 {
        Seq::empty()
    } else {
        copied(tokens.drop_last(), declaration) + copy_of(tokens.last(), declaration)
    }
}

/// The steps for one token of the injected document: none for a start of
/// document, and none for a token that cannot be written.
pub open spec fn inject_of(token: Token) -> Seq<Step> {
    if token.is_writable() && !token.is_start_document() {
        seq![injection_step(token)]
    } else {
        Seq::empty()
    }
}

/// The steps for the injected document.
pub open spec fn fragment(injection: Seq<Token>) -> Seq<Step>
    decreases injection.len(),
{
    if injection.len() == 0 {
        Seq::empty()
    } else {
        fragment(injection.drop_last()) + inject_of(injection.last())
    }
}

/// Where the fragment goes: the index of the first token of `base` that
/// closes an element named `marker`, or the length of `base` where no token
/// does.
pub open spec fn splice_point(base: Seq<Token>, marker: &str) -> int
    decreases base.len(),
{
    if base.len() == 0 {
        0
    } else {
        let earlier = splice_point(base.drop_last(), marker);
        if earlier < base.len() - 1 || base.last().closes(marker) {
            earlier
        } else {
            base.len() as int
        }
    }
}

/// All the steps of an injection, in order.
pub open spec fn plan(
    base: Seq<Token>,
    injection: Seq<Token>,
    declaration: Option<Seq<u8>>,
    marker: &str,
) -> Seq<Step> {
    let at = splice_point(base, marker);
    if at < base.len() {
        copied(base.take(at), declaration) + fragment(injection) + copied(
            base.skip(at),
            declaration,
        )
    } else {
        copied(base, declaration)
    }
}

/// The items of a run of steps.
pub open spec fn items(steps: Seq<Step>) -> Seq<Item> {
    steps.map_values(|step: Step| step.item)
}

/// The tokens that the steps of `phase` hand over, in order.
pub open spec fn tokens_in(steps: Seq<Step>, phase: Phase) -> Seq<Token>
    decreases steps.len(),
{
    if steps.len() == 0 {
        Seq::empty()
    } else {
        let earlier = tokens_in(steps.drop_last(), phase);
        match steps.last().item {
            Item::Token(token) => if steps.last().phase == phase {
                earlier.push(token)
            } else {
                earlier
            },
            Item::Raw(_) => earlier,
        }
    }
}

/// The tokens of `tokens` that can be written, in order.
pub open spec fn writable(tokens: Seq<Token>) -> Seq<Token>
    decreases tokens.len(),
{
    if tokens.len() == 0 {
        Seq::empty()
    } else if tokens.last().is_writable() {
        writable(tokens.drop_last()).push(tokens.last())
    } else {
        writable(tokens.drop_last())
    }
}

/// The tokens of an injected document that go into the output, in order: those
/// that can be written and do not start a document.
pub open spec fn insertable(tokens: Seq<Token>) -> Seq<Token>
    decreases tokens.len(),
{
    if tokens.len() == 0 {
        Seq::empty()
    } else if tokens.last().is_writable() && !tokens.last().is_start_document() {
        insertable(tokens.drop_last()).push(tokens.last())
    } else {
        insertable(tokens.drop_last())
    }
}

/// The splice point is the first index at which a token closes the marker
/// element.
pub proof fn lemma_splice_point(base: Seq<Token>, marker: &str)
    ensures
        0 <= splice_point(base, marker) <= base.len(),
        forall|i: int| 0 <= i < splice_point(base, marker) ==> !(#[trigger] base[i]).closes(marker),
        splice_point(base, marker) < base.len() ==> base[splice_point(base, marker)].closes(
            marker,
        ),
    decreases base.len(),
{
    if base.len() > 0 {
        let front = base.drop_last();
        lemma_splice_point(front, marker);
        assert(forall|i: int| 0 <= i < front.len() ==> front[i] == base[i]);
    }
}

/// Copying two runs of tokens one after the other gives the steps of the
/// first run followed by those of the second.
pub proof fn lemma_copied_concat(
    first: Seq<Token>,
    second: Seq<Token>,
    declaration: Option<Seq<u8>>,
)
    ensures
        copied(first + second, declaration) == copied(first, declaration) + copied(
            second,
            declaration,
        ),
    decreases second.len(),
{
    if second.len() == 0 {
        assert(first + second =~= first);
    } else {
        lemma_copied_concat(first, second.drop_last(), declaration);
        assert((first + second).drop_last() =~= first + second.drop_last());
        assert((first + second).last() == second.last());
    }
}

/// One more token of the source document adds its own steps to the plan, and
/// before them the fragment where it is the first to close the marker element.
pub proof fn lemma_plan_push(
    base: Seq<Token>,
    token: Token,
    injection: Seq<Token>,
    declaration: Option<Seq<u8>>,
    marker: &str,
)
    ensures
        plan(base.push(token), injection, declaration, marker) == plan(
            base,
            injection,
            declaration,
            marker,
        ) + (if splice_point(base, marker) == base.len() && token.closes(marker) {
            fragment(injection)
        } else {
            Seq::empty()
        }) + copy_of(token, declaration),
{
    let longer = base.push(token);
    let at = splice_point(base, marker);
    lemma_splice_point(base, marker);
    assert(longer.drop_last() =~= base);
    assert(longer.last() == token);
    assert(copied(longer, declaration) == copied(base, declaration) + copy_of(token, declaration));
    if at < base.len() {
        assert(splice_point(longer, marker) == at);
        assert(longer.take(at) =~= base.take(at));
        assert(longer.skip(at) =~= base.skip(at).push(token));
        assert(base.skip(at).push(token).drop_last() =~= base.skip(at));
    } else if token.closes(marker) {
        assert(splice_point(longer, marker) == at);
        assert(longer.take(at) =~= base);
        let single = longer.skip(at);
        assert(single.drop_last() =~= Seq::<Token>::empty());
        assert(single.last() == token);
        assert(copied(single.drop_last(), declaration) =~= Seq::<Step>::empty());
        assert(copied(single, declaration) =~= copy_of(token, declaration));
    } else {
        assert(splice_point(longer, marker) == longer.len());
    }
}

/// The plan for the first tokens of a document is the start of the plan for
/// the whole document.
pub proof fn lemma_plan_grows(
    base: Seq<Token>,
    seen: int,
    injection: Seq<Token>,
    declaration: Option<Seq<u8>>,
    marker: &str,
)
    requires
        0 <= seen <= base.len(),
    ensures
        plan(base.take(seen), injection, declaration, marker).is_prefix_of(
            plan(base, injection, declaration, marker),
        ),
    decreases base.len() - seen,
{
    if seen == base.len() {
        assert(base.take(seen) =~= base);
    } else {
        lemma_plan_grows(base, seen + 1, injection, declaration, marker);
        lemma_plan_push(base.take(seen), base[seen], injection, declaration, marker);
        assert(base.take(seen).push(base[seen]) =~= base.take(seen + 1));
    }
}

/// The fragment of the first tokens of a document is the start of the
/// fragment of the whole document.
pub proof fn lemma_fragment_grows(injection: Seq<Token>, seen: int)
    requires
        0 <= seen <= injection.len(),
    ensures
        fragment(injection.take(seen)).is_prefix_of(fragment(injection)),
    decreases injection.len() - seen,
{
    if seen == injection.len() {
        assert(injection.take(seen) =~= injection);
    } else {
        lemma_fragment_grows(injection, seen + 1);
        assert(injection.take(seen + 1).drop_last() =~= injection.take(seen));
    }
}

} // verus!
