//! What holds of every plan: where the fragment goes, where the declaration
//! goes, and that the source document passes through untouched.

use crate::plan::copied;
use crate::plan::copy_of;
use crate::plan::declaration_step;
use crate::plan::fragment;
use crate::plan::insertable;
use crate::plan::items;
use crate::plan::lemma_copied_concat;
use crate::plan::lemma_splice_point;
use crate::plan::plan;
use crate::plan::source_step;
use crate::plan::splice_point;
use crate::plan::tokens_in;
use crate::plan::writable;
use crate::plan::Phase;
use crate::plan::Step;
use crate::reader::Token;
use crate::writer::emitted;
use crate::writer::rendered;
use crate::writer::Item;
use vstd::prelude::*;

verus! {

/// The tokens of two runs of steps are those of the first run followed by
/// those of the second.
pub proof fn lemma_tokens_in_concat(first: Seq<Step>, second: Seq<Step>, phase: Phase)
    ensures
        tokens_in(first + second, phase) == tokens_in(first, phase) + tokens_in(second, phase),
    decreases second.len(),
{
    if second.len() == 0 {
        assert(first + second =~= first);
        assert(tokens_in(first, phase) + tokens_in(second, phase) =~= tokens_in(first, phase));
    } else {
        lemma_tokens_in_concat(first, second.drop_last(), phase);
        assert((first + second).drop_last() =~= first + second.drop_last());
        assert((first + second).last() == second.last());
        let earlier = tokens_in(first, phase) + tokens_in(second.drop_last(), phase);
        match second.last().item {
            Item::Token(token) => {
                if second.last().phase == phase {
                    assert(earlier.push(token) =~= tokens_in(first, phase) + tokens_in(
                        second.drop_last(),
                        phase,
                    ).push(token));
                }
            },
            Item::Raw(_) => {},
        }
    }
}

/// Copying a run of tokens hands over those of them that can be written, in
/// order and as steps of the source, and no step of the injection.
pub proof fn lemma_copied_tokens(tokens: Seq<Token>, declaration: Option<Seq<u8>>)
    ensures
        tokens_in(copied(tokens, declaration), Phase::Source) == writable(tokens),
        tokens_in(copied(tokens, declaration), Phase::Injection) == Seq::<Token>::empty(),
        forall|i: int|
            0 <= i < copied(tokens, declaration).len() ==> (#[trigger] copied(
                tokens,
                declaration,
            )[i]).phase != Phase::Injection,
    decreases tokens.len(),
{
    if tokens.len() > 0 {
        let front = tokens.drop_last();
        let last = tokens.last();
        let own = copy_of(last, declaration);
        lemma_copied_tokens(front, declaration);
        lemma_tokens_in_concat(copied(front, declaration), own, Phase::Source);
        lemma_tokens_in_concat(copied(front, declaration), own, Phase::Injection);
        lemma_copy_of_tokens(last, declaration);
        if last.is_writable() {
            assert(writable(front) + seq![last] =~= writable(front).push(last));
        } else {
            assert(writable(front) + Seq::<Token>::empty() =~= writable(front));
        }
        assert(Seq::<Token>::empty() + Seq::<Token>::empty() =~= Seq::<Token>::empty());
    }
}

/// The steps for one token of the source hand over that token where it can
/// be written, and nothing for the injection.
proof fn lemma_copy_of_tokens(token: Token, declaration: Option<Seq<u8>>)
    ensures
        tokens_in(copy_of(token, declaration), Phase::Source) == if token.is_writable() {
            seq![token]
        } else {
            Seq::<Token>::empty()
        },
        tokens_in(copy_of(token, declaration), Phase::Injection) == Seq::<Token>::empty(),
{
    let own = copy_of(token, declaration);
    let nothing = Seq::<Step>::empty();
    let first = seq![source_step(token)];
    assert(first.drop_last() =~= nothing);
    assert(tokens_in(nothing, Phase::Source) =~= Seq::<Token>::empty());
    assert(tokens_in(nothing, Phase::Injection) =~= Seq::<Token>::empty());
    assert(tokens_in(first, Phase::Source) =~= seq![token]);
    assert(tokens_in(first, Phase::Injection) =~= Seq::<Token>::empty());
    if token.is_start_document() && declaration is Some {
        assert(own.drop_last() =~= first);
    }
}

/// A fragment hands over the tokens of the injected document that go into
/// the output, in order and as steps of the injection, and no step of the
/// source.
pub proof fn lemma_fragment_tokens(injection: Seq<Token>)
    ensures
        tokens_in(fragment(injection), Phase::Injection) == insertable(injection),
        tokens_in(fragment(injection), Phase::Source) == Seq::<Token>::empty(),
        forall|i: int|
            0 <= i < fragment(injection).len() ==> {
                &&& (#[trigger] fragment(injection)[i]).phase == Phase::Injection
                &&& fragment(injection)[i].item matches Item::Token(token)
                &&& token.is_writable()
                &&& !token.is_start_document()
            },
    decreases injection.len(),
{
    if injection.len() > 0 {
        let front = injection.drop_last();
        let last = injection.last();
        let own = crate::plan::inject_of(last);
        lemma_fragment_tokens(front);
        lemma_tokens_in_concat(fragment(front), own, Phase::Injection);
        lemma_tokens_in_concat(fragment(front), own, Phase::Source);
        let nothing = Seq::<Step>::empty();
        assert(tokens_in(nothing, Phase::Source) =~= Seq::<Token>::empty());
        assert(tokens_in(nothing, Phase::Injection) =~= Seq::<Token>::empty());
        if last.is_writable() && !last.is_start_document() {
            assert(own.drop_last() =~= nothing);
            assert(tokens_in(own, Phase::Injection) =~= seq![last]);
            assert(tokens_in(own, Phase::Source) =~= Seq::<Token>::empty());
            assert(insertable(front) + seq![last] =~= insertable(front).push(last));
        } else {
            assert(insertable(front) + Seq::<Token>::empty() =~= insertable(front));
        }
        assert(Seq::<Token>::empty() + Seq::<Token>::empty() =~= Seq::<Token>::empty());
    }
}

/// The source document passes through: whatever is injected, the tokens
/// copied from the source are all its tokens that can be written, in their
/// order.
pub proof fn lemma_source_passes_through(
    base: Seq<Token>,
    injection: Seq<Token>,
    declaration: Option<Seq<u8>>,
    marker: &str,
)
    ensures
        tokens_in(plan(base, injection, declaration, marker), Phase::Source) == writable(base),
{
    let at = splice_point(base, marker);
    lemma_splice_point(base, marker);
    lemma_copied_tokens(base, declaration);
    if at < base.len() {
        let before = copied(base.take(at), declaration);
        let after = copied(base.skip(at), declaration);
        assert(base.take(at) + base.skip(at) =~= base);
        lemma_copied_concat(base.take(at), base.skip(at), declaration);
        lemma_fragment_tokens(injection);
        lemma_tokens_in_concat(before, fragment(injection), Phase::Source);
        lemma_tokens_in_concat(before + fragment(injection), after, Phase::Source);
        lemma_tokens_in_concat(before, after, Phase::Source);
        assert(tokens_in(before, Phase::Source) + Seq::<Token>::empty() =~= tokens_in(
            before,
            Phase::Source,
        ));
    }
}

/// An injected document that holds nothing but its start and its end changes
/// nothing: the plan is the copy of the source document, and no step of it
/// belongs to the injection.
pub proof fn lemma_empty_fragment_changes_nothing(
    base: Seq<Token>,
    injection: Seq<Token>,
    declaration: Option<Seq<u8>>,
    marker: &str,
)
    requires
        forall|i: int|
            0 <= i < injection.len() ==> (#[trigger] injection[i]).is_start_document()
                || !injection[i].is_writable(),
    ensures
        plan(base, injection, declaration, marker) == copied(base, declaration),
        tokens_in(plan(base, injection, declaration, marker), Phase::Source) == writable(base),
        tokens_in(plan(base, injection, declaration, marker), Phase::Injection) == Seq::<
            Token,
        >::empty(),
{
    let at = splice_point(base, marker);
    lemma_splice_point(base, marker);
    lemma_nothing_insertable(injection);
    lemma_copied_tokens(base, declaration);
    if at < base.len() {
        assert(base.take(at) + base.skip(at) =~= base);
        lemma_copied_concat(base.take(at), base.skip(at), declaration);
        assert(copied(base.take(at), declaration) + Seq::<Step>::empty() =~= copied(
            base.take(at),
            declaration,
        ));
    }
}

/// A document that holds nothing but its start and its end has an empty
/// fragment.
proof fn lemma_nothing_insertable(injection: Seq<Token>)
    requires
        forall|i: int|
            0 <= i < injection.len() ==> (#[trigger] injection[i]).is_start_document()
                || !injection[i].is_writable(),
    ensures
        fragment(injection) == Seq::<Step>::empty(),
    decreases injection.len(),
{
    if injection.len() > 0 {
        let front = injection.drop_last();
        assert(forall|i: int| 0 <= i < front.len() ==> front[i] == injection[i]);
        lemma_nothing_insertable(front);
        assert(injection.last() == injection[injection.len() - 1]);
        assert(Seq::<Step>::empty() + Seq::<Step>::empty() =~= Seq::<Step>::empty());
    }
}

/// Copying a run of tokens starts with the copy of its first token.
proof fn lemma_copied_first(tokens: Seq<Token>, declaration: Option<Seq<u8>>)
    requires
        tokens.len() > 0,
    ensures
        copied(tokens, declaration) == copy_of(tokens[0], declaration) + copied(
            tokens.skip(1),
            declaration,
        ),
{
    let first = seq![tokens[0]];
    assert(first + tokens.skip(1) =~= tokens);
    lemma_copied_concat(first, tokens.skip(1), declaration);
    assert(first.drop_last() =~= Seq::<Token>::empty());
    assert(copied(first.drop_last(), declaration) =~= Seq::<Step>::empty());
    assert(copied(first, declaration) =~= copy_of(tokens[0], declaration));
}

/// The splice happens once: where a token of the source closes the marker
/// element, the fragment stands directly before the copy of the first such
/// token, and no step elsewhere belongs to the injection. Where no token does,
/// no step at all belongs to the injection.
pub proof fn lemma_spliced_once(
    base: Seq<Token>,
    injection: Seq<Token>,
    declaration: Option<Seq<u8>>,
    marker: &str,
)
    ensures
        ({
            let at = splice_point(base, marker);
            let steps = plan(base, injection, declaration, marker);
            let start = copied(base.take(at), declaration).len() as int;
            let inserted = fragment(injection);
            &&& 0 <= at <= base.len()
            &&& forall|i: int| 0 <= i < at ==> !(#[trigger] base[i]).closes(marker)
            &&& at < base.len() ==> {
                &&& base[at].closes(marker)
                &&& start + inserted.len() < steps.len()
                &&& steps.subrange(start, start + inserted.len()) == inserted
                &&& steps[start + inserted.len()] == source_step(base[at])
                &&& forall|i: int|
                    0 <= i < steps.len() && (#[trigger] steps[i]).phase == Phase::Injection
                        ==> start <= i < start + inserted.len()
            }
            &&& at == base.len() ==> forall|i: int|
                0 <= i < steps.len() ==> (#[trigger] steps[i]).phase != Phase::Injection
        }),
{
    let at = splice_point(base, marker);
    let steps = plan(base, injection, declaration, marker);
    lemma_splice_point(base, marker);
    lemma_copied_tokens(base, declaration);
    if at < base.len() {
        let before = copied(base.take(at), declaration);
        let after = copied(base.skip(at), declaration);
        let inserted = fragment(injection);
        lemma_copied_tokens(base.take(at), declaration);
        lemma_copied_tokens(base.skip(at), declaration);
        lemma_fragment_tokens(injection);
        lemma_copied_first(base.skip(at), declaration);
        assert(base.skip(at)[0] == base[at]);
        assert(copy_of(base[at], declaration)[0] == source_step(base[at]));
        assert(after[0] == source_step(base[at]));
        assert(steps.subrange(before.len() as int, (before.len() + inserted.len()) as int) =~= inserted);
        assert forall|i: int|
            0 <= i < steps.len() && (#[trigger] steps[i]).phase
                == Phase::Injection implies before.len() <= i < before.len() + inserted.len() by {
            if i < before.len() {
                assert(steps[i] == before[i]);
            } else if i >= before.len() + inserted.len() {
                assert(steps[i] == after[i - before.len() - inserted.len()]);
            }
        }
    }
}

/// The step at `at` is in its place: a token is copied from the source, or it
/// is injected, can be written and does not start a document; bytes taken
/// over as they are, are the declaration line and stand directly behind the
/// copy of a token that starts a document.
pub open spec fn in_place(steps: Seq<Step>, at: int, declaration: Option<Seq<u8>>) -> bool {
    match steps[at].item {
        Item::Token(token) => {
            ||| steps[at].phase == Phase::Source
            ||| steps[at].phase == Phase::Injection && token.is_writable()
                && !token.is_start_document()
        },
        Item::Raw(line) => {
            &&& steps[at].phase == Phase::Declaration
            &&& declaration == Some(line)
            &&& at >= 1
            &&& steps[at - 1].phase == Phase::Source
            &&& steps[at - 1].item matches Item::Token(token)
            &&& token.is_start_document()
        },
    }
}

/// Every step is in its place.
pub open spec fn orderly(steps: Seq<Step>, declaration: Option<Seq<u8>>) -> bool {
    forall|at: int| 0 <= at < steps.len() ==> #[trigger] in_place(steps, at, declaration)
}

/// Two orderly runs of steps make an orderly run.
proof fn lemma_orderly_concat(first: Seq<Step>, second: Seq<Step>, declaration: Option<Seq<u8>>)
    requires
        orderly(first, declaration),
        orderly(second, declaration),
    ensures
        orderly(first + second, declaration),
{
    let both = first + second;
    assert forall|at: int| 0 <= at < both.len() implies #[trigger] in_place(
        both,
        at,
        declaration,
    ) by {
        if at < first.len() {
            assert(in_place(first, at, declaration));
            assert(both[at] == first[at]);
            if at >= 1 {
                assert(both[at - 1] == first[at - 1]);
            }
        } else {
            let shifted = at - first.len();
            assert(in_place(second, shifted, declaration));
            assert(both[at] == second[shifted]);
            if shifted >= 1 {
                assert(both[at - 1] == second[shifted - 1]);
            }
        }
    }
}

/// The copy of a run of tokens is orderly.
proof fn lemma_copied_orderly(tokens: Seq<Token>, declaration: Option<Seq<u8>>)
    ensures
        orderly(copied(tokens, declaration), declaration),
    decreases tokens.len(),
{
    if tokens.len() > 0 {
        let own = copy_of(tokens.last(), declaration);
        lemma_copied_orderly(tokens.drop_last(), declaration);
        assert forall|at: int| 0 <= at < own.len() implies #[trigger] in_place(
            own,
            at,
            declaration,
        ) by {}
        lemma_orderly_concat(copied(tokens.drop_last(), declaration), own, declaration);
    }
}

/// A fragment is orderly.
proof fn lemma_fragment_orderly(injection: Seq<Token>, declaration: Option<Seq<u8>>)
    ensures
        orderly(fragment(injection), declaration),
    decreases injection.len(),
{
    if injection.len() > 0 {
        let own = crate::plan::inject_of(injection.last());
        lemma_fragment_orderly(injection.drop_last(), declaration);
        assert forall|at: int| 0 <= at < own.len() implies #[trigger] in_place(
            own,
            at,
            declaration,
        ) by {}
        lemma_orderly_concat(fragment(injection.drop_last()), own, declaration);
    }
}

/// Every step of a plan is in its place.
pub proof fn lemma_plan_orderly(
    base: Seq<Token>,
    injection: Seq<Token>,
    declaration: Option<Seq<u8>>,
    marker: &str,
)
    ensures
        orderly(plan(base, injection, declaration, marker), declaration),
{
    let at = splice_point(base, marker);
    lemma_splice_point(base, marker);
    lemma_copied_orderly(base, declaration);
    if at < base.len() {
        let before = copied(base.take(at), declaration);
        let after = copied(base.skip(at), declaration);
        lemma_copied_orderly(base.take(at), declaration);
        lemma_copied_orderly(base.skip(at), declaration);
        lemma_fragment_orderly(injection, declaration);
        lemma_orderly_concat(before, fragment(injection), declaration);
        lemma_orderly_concat(before + fragment(injection), after, declaration);
    }
}

/// The start of the injected document never reaches the output: every token
/// that starts a document is copied from the source, and the tokens injected
/// are those of the injected document that can be written and do not start a
/// document, where a token of the source closes the marker element, and none
/// where no token does.
pub proof fn lemma_fragment_start_stripped(
    base: Seq<Token>,
    injection: Seq<Token>,
    declaration: Option<Seq<u8>>,
    marker: &str,
)
    ensures
        forall|at: int|
            #![trigger plan(base, injection, declaration, marker)[at]]
            0 <= at < plan(base, injection, declaration, marker).len() ==> {
                let step = plan(base, injection, declaration, marker)[at];
                step.item matches Item::Token(token) && token.is_start_document() ==> step.phase
                    == Phase::Source
            },
        tokens_in(plan(base, injection, declaration, marker), Phase::Injection) == if splice_point(
            base,
            marker,
        ) < base.len() {
            insertable(injection)
        } else {
            Seq::<Token>::empty()
        },
{
    let at = splice_point(base, marker);
    let steps = plan(base, injection, declaration, marker);
    lemma_splice_point(base, marker);
    lemma_plan_orderly(base, injection, declaration, marker);
    assert forall|i: int| 0 <= i < steps.len() implies ({
        let step = #[trigger] steps[i];
        step.item matches Item::Token(token) && token.is_start_document() ==> step.phase
            == Phase::Source
    }) by {
        assert(in_place(steps, i, declaration));
    }
    lemma_copied_tokens(base, declaration);
    if at < base.len() {
        let before = copied(base.take(at), declaration);
        let after = copied(base.skip(at), declaration);
        let inserted = fragment(injection);
        lemma_fragment_tokens(injection);
        lemma_copied_tokens(base.take(at), declaration);
        lemma_copied_tokens(base.skip(at), declaration);
        lemma_tokens_in_concat(before, inserted, Phase::Injection);
        lemma_tokens_in_concat(before + inserted, after, Phase::Injection);
        assert(Seq::<Token>::empty() + insertable(injection) + Seq::<Token>::empty()
            =~= insertable(injection));
    }
}

/// The declaration is kept where it belongs: a step of a plan that belongs to
/// the declaration hands over the declaration line as it is, and stands
/// directly behind the copy of a token that starts a document. A source
/// without a declaration line gives a plan without such a step.
pub proof fn lemma_declaration_kept(
    base: Seq<Token>,
    injection: Seq<Token>,
    declaration: Option<Seq<u8>>,
    marker: &str,
)
    ensures
        forall|at: int|
            #![trigger plan(base, injection, declaration, marker)[at]]
            0 <= at < plan(base, injection, declaration, marker).len() ==> {
                let steps = plan(base, injection, declaration, marker);
                steps[at].phase == Phase::Declaration ==> {
                    &&& declaration is Some
                    &&& steps[at] == declaration_step(declaration->0)
                    &&& at >= 1
                    &&& steps[at - 1].phase == Phase::Source
                    &&& steps[at - 1].item matches Item::Token(token)
                    &&& token.is_start_document()
                }
            },
{
    let steps = plan(base, injection, declaration, marker);
    lemma_plan_orderly(base, injection, declaration, marker);
    assert forall|at: int|
        0 <= at < steps.len() && (#[trigger] steps[at]).phase == Phase::Declaration implies {
        &&& declaration is Some
        &&& steps[at] == declaration_step(declaration->0)
        &&& at >= 1
        &&& steps[at - 1].phase == Phase::Source
        &&& steps[at - 1].item matches Item::Token(token)
        &&& token.is_start_document()
    } by {
        assert(in_place(steps, at, declaration));
    }
}

/// Where the source starts with the start of a document and has a declaration
/// line, the output starts with what the serializer writes for that start, and
/// the line follows it byte for byte.
pub proof fn lemma_declaration_follows_start(
    base: Seq<Token>,
    injection: Seq<Token>,
    line: Seq<u8>,
    marker: &str,
    before: Seq<Item>,
)
    requires
        base.len() > 0,
        base[0].is_start_document(),
    ensures
        ({
            let steps = plan(base, injection, Some(line), marker);
            &&& steps.len() >= 2
            &&& steps[0] == source_step(base[0])
            &&& steps[1] == declaration_step(line)
            &&& rendered(before, items(steps.take(2))) == emitted(before, base[0]) + line
        }),
{
    let declaration = Some(line);
    let at = splice_point(base, marker);
    let steps = plan(base, injection, declaration, marker);
    let own = copy_of(base[0], declaration);
    lemma_splice_point(base, marker);
    assert(own =~= seq![source_step(base[0]), declaration_step(line)]);
    if at < base.len() {
        assert(at >= 1) by {
            if at == 0 {
                assert(base[0].closes(marker));
            }
        }
        lemma_copied_first(base.take(at), declaration);
        assert(base.take(at)[0] == base[0]);
    } else {
        lemma_copied_first(base, declaration);
    }
    assert(steps[0] == own[0]);
    assert(steps[1] == own[1]);
    let two = items(steps.take(2));
    let one = two.drop_last();
    assert(two =~= seq![Item::Token(base[0]), Item::Raw(line)]);
    assert(one =~= seq![Item::Token(base[0])]);
    assert(one.drop_last() =~= Seq::<Item>::empty());
    assert(before + one.drop_last() =~= before);
    assert(rendered(before, one.drop_last()) =~= Seq::<u8>::empty());
    assert(rendered(before, one) =~= emitted(before, base[0]));
}

} // verus!
