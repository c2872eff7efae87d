//! The injector: it copies a source document into a buffer of its own and
//! puts the fragment and the declaration line in on the way.

use crate::errors::CLOSING_QUOTE;
use crate::errors::ERR_COPY_DOCTYPE;
use crate::errors::ERR_COPY_INJECTION;
use crate::errors::ERR_COPY_SOURCE;
use crate::helpers::doctype_line;
use crate::helpers::get_doctype_str;
use crate::laws::lemma_declaration_follows_start;
use crate::laws::lemma_empty_fragment_changes_nothing;
use crate::plan::copied;
use crate::plan::copy_of;
use crate::plan::declaration_step;
use crate::plan::fragment;
use crate::plan::inject_of;
use crate::plan::items;
use crate::plan::lemma_fragment_grows;
use crate::plan::lemma_plan_grows;
use crate::plan::lemma_plan_push;
use crate::plan::lemma_splice_point;
use crate::plan::plan;
use crate::plan::splice_point;
use crate::plan::Phase;
use crate::plan::Step;
use crate::reader::next_token;
use crate::reader::open_reader;
use crate::reader::parsed;
use crate::reader::pending;
use crate::reader::Token;
use crate::writer::all_taken;
use crate::writer::create_writer;
use crate::writer::emitted;
use crate::writer::fed;
use crate::writer::house_layout;
use crate::writer::item_bytes;
use crate::writer::layout_of;
use crate::writer::lemma_all_taken_concat;
use crate::writer::lemma_rendered_concat;
use crate::writer::refusal;
use crate::writer::rendered;
use crate::writer::taken;
use crate::writer::write_raw;
use crate::writer::write_token;
use crate::writer::written;
use crate::writer::written_bytes;
use crate::writer::Item;
use crate::writer::Layout;
use crate::writer::INDENT_STRING;
use crate::writer::LINE_SEPARATOR;
use crate::writer::PERFORM_INDENT;
use vstd::prelude::*;
use vstd::slice::slice_subrange;
use vstd::string::StringSliceAdditionalSpecFns;
use vstd::utf8::encode_utf8;
use vstd::utf8::valid_utf8;
use xml::EventWriter;

verus! {

/// The XML key to check for before injecting properties.
pub const XML_DICT_KEY: &'static str = "dict";

/// The declaration line of a source document held as bytes: none where the
/// bytes are no text at all.
pub open spec fn declaration_of(source: Seq<u8>) -> Option<Seq<u8>> {
    if valid_utf8(source) {
        doctype_line(source)
    } else {
        None
    }
}

/// The bytes of a declaration line held as text, if there is one.
pub open spec fn line_bytes(line: Option<String>) -> Option<Seq<u8>> {
    match line {
        Some(found) => Some(encode_utf8(found@)),
        None => None,
    }
}

/// The message for a write that failed in `phase`, with the serializer's own
/// `details`.
pub open spec fn copy_error_text(phase: Phase, details: Seq<char>) -> Seq<char> {
    (match phase {
        Phase::Source => ERR_COPY_SOURCE@,
        Phase::Injection => ERR_COPY_INJECTION@,
        Phase::Declaration => ERR_COPY_DOCTYPE@,
    }) + details + CLOSING_QUOTE@
}

/// `message` is the message for `step`, refused after the serializer has been
/// handed `before`. Only a token can be refused, and the details of the
/// message are the serializer's complaint.
pub open spec fn is_refusal(before: Seq<Item>, step: Step, message: Seq<char>) -> bool {
    match step.item {
        Item::Token(token) => {
            &&& refusal(before, token) is Some
            &&& message == copy_error_text(step.phase, refusal(before, token)->0)
        },
        Item::Raw(_) => false,
    }
}

/// One of the steps puts in the declaration line.
pub open spec fn declares(steps: Seq<Step>) -> bool
    decreases steps.len(),
{
    steps.len() > 0 && (declares(steps.drop_last()) || steps.last().phase == Phase::Declaration)
}

/// The step for one token handed over in `phase`: none for a token that
/// cannot be written.
pub open spec fn token_steps(token: Token, phase: Phase) -> Seq<Step> {
    if token.is_writable() {
        seq![Step { phase, item: Item::Token(token) }]
    } else {
        Seq::empty()
    }
}

/// The steps for one token of the source document: before its copy the
/// fragment, where the token closes the marker element and nothing was
/// spliced before.
pub open spec fn steps_for(
    token: Token,
    spliced: bool,
    injection: Seq<Token>,
    declaration: Option<Seq<u8>>,
) -> Seq<Step> {
    (if !spliced && token.closes(XML_DICT_KEY) {
        fragment(injection)
    } else {
        Seq::empty()
    }) + copy_of(token, declaration)
}

/// The text of `bytes`, through `std::str::from_utf8`: there is one where the
/// bytes are well-formed UTF-8, and it is made of those bytes.
#[verifier::external_body]
fn text_of(bytes: &[u8]) -> (text: Option<&str>)
    ensures
        text is Some <==> valid_utf8(bytes@),
        text matches Some(t) ==> t.spec_bytes() == bytes@,
{
    std::str::from_utf8(bytes).ok()
}

/// Builds the message for a write that failed in `phase`.
pub fn copy_error(phase: Phase, details: &str) -> (message: String)
    ensures
        message@ == copy_error_text(phase, details@),
{
    let mut message = String::from_str(
        match phase {
            Phase::Source => ERR_COPY_SOURCE,
            Phase::Injection => ERR_COPY_INJECTION,
            Phase::Declaration => ERR_COPY_DOCTYPE,
        },
    );
    message.append(details);
    message.append(CLOSING_QUOTE);
    message
}

/// Finds the declaration line of a source document held as bytes.
pub fn find_declaration(source: &[u8]) -> (line: Option<String>)
    ensures
        line_bytes(line) == declaration_of(source@),
{
    match text_of(source) {
        Some(text) => get_doctype_str(text),
        None => None,
    }
}

/// Two runs of steps put in the declaration line where one of them does.
proof fn lemma_declares_concat(first: Seq<Step>, second: Seq<Step>)
    ensures
        declares(first + second) == (declares(first) || declares(second)),
    decreases second.len(),
{
    if second.len() == 0 {
        assert(first + second =~= first);
    } else {
        lemma_declares_concat(first, second.drop_last());
        assert((first + second).drop_last() =~= first + second.drop_last());
        assert((first + second).last() == second.last());
    }
}

/// Where the serializer takes every item of a run, it takes the one at `at`
/// after those before it.
proof fn lemma_all_taken_at(before: Seq<Item>, run: Seq<Item>, at: int)
    requires
        0 <= at < run.len(),
        all_taken(before, run),
    ensures
        all_taken(before, run.take(at)),
        taken(before + run.take(at), run[at]),
    decreases run.len(),
{
    if at == run.len() - 1 {
        assert(run.take(at) =~= run.drop_last());
    } else {
        lemma_all_taken_at(before, run.drop_last(), at);
        assert(run.drop_last().take(at) =~= run.take(at));
    }
}

/// Where the injected document comes from: bytes yet to be read, or tokens
/// read already.
enum Fragment<'a> {
    Bytes(&'a [u8]),
    Tokens(&'a [Token]),
}

impl Fragment<'_> {
    /// The tokens of the injected document.
    spec fn tokens(&self) -> Seq<Token> {
        match self {
            Fragment::Bytes(bytes) => parsed(bytes@),
            Fragment::Tokens(tokens) => tokens@,
        }
    }
}

/// Type for injecting XML properties into an XML source, writing to an internal
/// buffer.
pub struct XMLInjector {
    /// The serializer, over the destination.
    writer: EventWriter<Vec<u8>>,
    /// How many bytes the destination held when the injector was made: the
    /// buffer of the injector starts behind them.
    start: usize,
    /// Whether a declaration line has been put in.
    noted: bool,
}

impl XMLInjector {
    /// This injector is well formed: its buffer starts inside what its
    /// serializer holds, and the serializer has the layout of this library.
    /// Every injector is: `new` makes it so, and what an injector does keeps
    /// it so.
    pub closed spec fn wf(&self) -> bool {
        &&& self.start <= written(self.writer).len()
        &&& layout_of(self.writer) == house_layout()
    }

    /// What this injector has handed to its serializer so far.
    pub closed spec fn history(&self) -> Seq<Item> {
        fed(self.writer)
    }

    /// The bytes in the buffer of this injector: what it has written itself,
    /// without what its destination held before.
    pub closed spec fn output(&self) -> Seq<u8> {
        if self.start <= written(self.writer).len() {
            written(self.writer).skip(self.start as int)
        } else {
            Seq::empty()
        }
    }

    /// The layout that this injector writes in.
    pub closed spec fn layout(&self) -> Layout {
        layout_of(self.writer)
    }

    /// This injector has put in a declaration line.
    pub closed spec fn declared(&self) -> bool {
        self.noted
    }

    /// This injector is what a well-formed `before` becomes by carrying out
    /// `steps` in order with the given outcome: it is well formed again, and
    /// the steps were carried out.
    pub open spec fn follows(
        &self,
        before: &Self,
        steps: Seq<Step>,
        outcome: Result<(), String>,
    ) -> bool {
        before.wf() ==> self.wf() && self.carried(before, steps, outcome)
    }

    /// The steps were carried out in order with the given outcome.
    ///
    /// Whatever the outcome, the steps up to some point were handed to the
    /// serializer, and nothing else. On success all of them were, the
    /// serializer took each, and the buffer has grown by what it writes for
    /// them. On failure the serializer took each step but the last one handed
    /// over, a token that it refused, and the message is the message for that
    /// step; what the buffer held before is still at its start.
    pub open spec fn carried(
        &self,
        before: &Self,
        steps: Seq<Step>,
        outcome: Result<(), String>,
    ) -> bool {
        let count = self.history().len() - before.history().len();
        &&& 0 <= count <= steps.len()
        &&& self.history() == before.history() + items(steps.take(count))
        &&& self.declared() == (before.declared() || declares(steps.take(count)))
        &&& match outcome {
            Ok(_) => {
                &&& count == steps.len()
                &&& all_taken(before.history(), items(steps))
                &&& self.output() == before.output() + rendered(before.history(), items(steps))
            },
            Err(message) => {
                &&& count >= 1
                &&& before.output().is_prefix_of(self.output())
                &&& all_taken(before.history(), items(steps.take(count - 1)))
                &&& is_refusal(
                    before.history() + items(steps.take(count - 1)),
                    steps[count - 1],
                    message@,
                )
            },
        }
    }

    /// Nothing done is no step carried out.
    proof fn lemma_follows_nothing(&self)
        ensures
            self.follows(self, Seq::empty(), Ok(())),
    {
        let none = Seq::<Step>::empty();
        assert(none.take(0) =~= none);
        assert(self.history() + items(none) =~= self.history());
        assert(self.output() + rendered(self.history(), items(none)) =~= self.output());
        assert(self.output().is_prefix_of(self.output()));
    }

    /// One step carried out is a run of one step: where the history has grown
    /// by the item of `step` and the declaration is noted with it, and either
    /// the serializer took the item and its bytes stand behind those of the
    /// buffer, or it refused the item with the message given.
    proof fn lemma_follows_one(&self, before: &Self, step: Step, outcome: Result<(), String>)
        requires
            self.history() == before.history().push(step.item),
            self.declared() == (before.declared() || step.phase == Phase::Declaration),
            match outcome {
                Ok(_) => taken(before.history(), step.item) && self.output() == before.output()
                    + item_bytes(before.history(), step.item),
                Err(message) => before.output().is_prefix_of(self.output()) && is_refusal(
                    before.history(),
                    step,
                    message@,
                ),
            },
        ensures
            self.carried(before, seq![step], outcome),
    {
        let run = seq![step];
        let history = before.history();
        assert(run.take(1) =~= run);
        assert(run.take(0) =~= Seq::<Step>::empty());
        assert(items(run) =~= seq![step.item]);
        assert(items(run).drop_last() =~= Seq::<Item>::empty());
        assert(items(Seq::<Step>::empty()) =~= Seq::<Item>::empty());
        assert(history + Seq::<Item>::empty() =~= history);
        assert(history + items(run) =~= history.push(step.item));
        assert(run.drop_last() =~= Seq::<Step>::empty());
        assert(!declares(run.drop_last()));
        assert(all_taken(history, Seq::<Item>::empty()));
        assert(rendered(history, Seq::<Item>::empty()) =~= Seq::<u8>::empty());
        assert(before.output() + (Seq::<u8>::empty() + item_bytes(history, step.item))
            =~= before.output() + item_bytes(history, step.item));
    }

    /// Steps carried out with success and then further steps, with whatever
    /// outcome, are the two runs of steps carried out one after the other.
    proof fn lemma_follows_then(
        &self,
        between: &Self,
        before: &Self,
        first: Seq<Step>,
        second: Seq<Step>,
        outcome: Result<(), String>,
    )
        requires
            between.follows(before, first, Ok(())),
            self.follows(between, second, outcome),
        ensures
            self.follows(before, first + second, outcome),
    {
        if before.wf() {
            let count = self.history().len() - between.history().len();
            assert(first.take(first.len() as int) =~= first);
            assert(items(first).len() == first.len());
            assert(items(second.take(count)).len() == count);
            assert((first + second).take(first.len() + count) =~= first + second.take(count));
            assert(items(first + second.take(count)) =~= items(first) + items(second.take(count)));
            assert(before.history() + (items(first) + items(second.take(count))) =~= before.history()
                + items(first) + items(second.take(count)));
            lemma_declares_concat(first, second.take(count));
            match outcome {
                Ok(_) => {
                    lemma_rendered_concat(before.history(), items(first), items(second));
                    lemma_all_taken_concat(before.history(), items(first), items(second));
                    assert(items(first + second) =~= items(first) + items(second));
                    assert(before.output() + (rendered(before.history(), items(first)) + rendered(
                        before.history() + items(first),
                        items(second),
                    )) =~= before.output() + rendered(before.history(), items(first)) + rendered(
                        before.history() + items(first),
                        items(second),
                    ));
                },
                Err(_) => {
                    let passed = second.take(count - 1);
                    assert((first + second)[first.len() + count - 1] == second[count - 1]);
                    assert((first + second).take(first.len() + count - 1) =~= first + passed);
                    assert(items(first + passed) =~= items(first) + items(passed));
                    lemma_all_taken_concat(before.history(), items(first), items(passed));
                    assert(before.history() + (items(first) + items(passed)) =~= before.history()
                        + items(first) + items(passed));
                },
            }
        }
    }

    /// Steps that ended in a failure also are the start of any longer run of
    /// steps, ended in that failure.
    proof fn lemma_follows_short(
        &self,
        before: &Self,
        steps: Seq<Step>,
        longer: Seq<Step>,
        message: String,
    )
        requires
            self.follows(before, steps, Err(message)),
            steps.is_prefix_of(longer),
        ensures
            self.follows(before, longer, Err(message)),
    {
        let count = self.history().len() - before.history().len();
        if before.wf() {
            assert(longer.take(count) =~= steps.take(count));
            assert(longer.take(count - 1) =~= steps.take(count - 1));
        }
    }

    /// One more token of the injected document: after the fragment of the
    /// tokens before it, with success, and then the steps of the token itself,
    /// the fragment of the tokens up to it has been carried out; and on
    /// failure that is where the fragment of the whole document ends.
    proof fn lemma_fragment_advance(
        &self,
        between: &Self,
        before: &Self,
        injection: Seq<Token>,
        seen: int,
        outcome: Result<(), String>,
    )
        requires
            0 <= seen < injection.len(),
            between.follows(before, fragment(injection.take(seen)), Ok(())),
            self.follows(between, inject_of(injection[seen]), outcome),
        ensures
            self.follows(before, fragment(injection.take(seen + 1)), outcome),
            outcome is Err ==> self.follows(before, fragment(injection), outcome),
    {
        let done = fragment(injection.take(seen));
        assert(injection.take(seen + 1).drop_last() =~= injection.take(seen));
        assert(injection.take(seen + 1).last() == injection[seen]);
        lemma_fragment_grows(injection, seen + 1);
        self.lemma_follows_then(between, before, done, inject_of(injection[seen]), outcome);
        if let Err(message) = outcome {
            self.lemma_follows_short(
                before,
                fragment(injection.take(seen + 1)),
                fragment(injection),
                message,
            );
        }
    }

    /// One more token of the source document: after the plan for the tokens
    /// before it, with success, and then the steps for the token itself, the
    /// plan for the tokens up to it has been carried out; and on failure that
    /// is where the plan for the whole document ends.
    proof fn lemma_plan_advance(
        &self,
        between: &Self,
        before: &Self,
        base: Seq<Token>,
        seen: int,
        spliced: bool,
        injection: Seq<Token>,
        declaration: Option<Seq<u8>>,
        outcome: Result<(), String>,
    )
        requires
            0 <= seen < base.len(),
            spliced <==> splice_point(base.take(seen), XML_DICT_KEY) < seen,
            between.follows(
                before,
                plan(base.take(seen), injection, declaration, XML_DICT_KEY),
                Ok(()),
            ),
            self.follows(between, steps_for(base[seen], spliced, injection, declaration), outcome),
        ensures
            self.follows(
                before,
                plan(base.take(seen + 1), injection, declaration, XML_DICT_KEY),
                outcome,
            ),
            outcome is Err ==> self.follows(
                before,
                plan(base, injection, declaration, XML_DICT_KEY),
                outcome,
            ),
            (spliced || base[seen].closes(XML_DICT_KEY)) <==> splice_point(
                base.take(seen + 1),
                XML_DICT_KEY,
            ) < seen + 1,
    {
        let front = base.take(seen);
        let token = base[seen];
        let done = plan(front, injection, declaration, XML_DICT_KEY);
        let ahead = steps_for(token, spliced, injection, declaration);
        assert(front.push(token) =~= base.take(seen + 1));
        assert(base.take(seen + 1).drop_last() =~= front);
        lemma_splice_point(front, XML_DICT_KEY);
        lemma_plan_push(front, token, injection, declaration, XML_DICT_KEY);
        lemma_plan_grows(base, seen + 1, injection, declaration, XML_DICT_KEY);
        assert(plan(base.take(seen + 1), injection, declaration, XML_DICT_KEY) =~= done + ahead);
        self.lemma_follows_then(between, before, done, ahead, outcome);
        if let Err(message) = outcome {
            self.lemma_follows_short(
                before,
                done + ahead,
                plan(base, injection, declaration, XML_DICT_KEY),
                message,
            );
        }
    }

    /// Success is owed where the serializer takes every step: an injector that
    /// has carried out steps has succeeded exactly when the serializer takes
    /// each of them, handed over after those before it. All the steps have
    /// then been handed over.
    pub proof fn lemma_success_owed(
        &self,
        before: &Self,
        steps: Seq<Step>,
        outcome: Result<(), String>,
    )
        requires
            before.wf(),
            self.follows(before, steps, outcome),
        ensures
            outcome is Ok <==> all_taken(before.history(), items(steps)),
            outcome is Ok ==> self.history() == before.history() + items(steps),
    {
        if outcome is Err {
            let count = self.history().len() - before.history().len();
            if all_taken(before.history(), items(steps)) {
                lemma_all_taken_at(before.history(), items(steps), count - 1);
                assert(items(steps).take(count - 1) =~= items(steps.take(count - 1)));
            }
        } else {
            assert(steps.take(steps.len() as int) =~= steps);
        }
    }

    /// An injected document that holds nothing but its start and its end
    /// changes nothing: where the serializer takes the copy of the source, the
    /// injection succeeds, and what it has handed over and written is that
    /// copy and nothing else.
    pub proof fn lemma_empty_fragment_injected(
        &self,
        before: &Self,
        base: Seq<Token>,
        injection: Seq<Token>,
        declaration: Option<Seq<u8>>,
        marker: &str,
        outcome: Result<(), String>,
    )
        requires
            before.wf(),
            self.follows(before, plan(base, injection, declaration, marker), outcome),
            forall|i: int|
                0 <= i < injection.len() ==> (#[trigger] injection[i]).is_start_document()
                    || !injection[i].is_writable(),
            all_taken(before.history(), items(copied(base, declaration))),
        ensures
            outcome is Ok,
            self.history() == before.history() + items(copied(base, declaration)),
            self.output() == before.output() + rendered(
                before.history(),
                items(copied(base, declaration)),
            ),
    {
        lemma_empty_fragment_changes_nothing(base, injection, declaration, marker);
        self.lemma_success_owed(before, plan(base, injection, declaration, marker), outcome);
    }

    /// A missing place for the fragment is no failure: where no token of the
    /// source closes the marker element and the serializer takes the copy of
    /// the source, the injection succeeds, and what it has handed over and
    /// written is that copy, with nothing of the injected document in it.
    pub proof fn lemma_unmarked_source_injected(
        &self,
        before: &Self,
        base: Seq<Token>,
        injection: Seq<Token>,
        declaration: Option<Seq<u8>>,
        marker: &str,
        outcome: Result<(), String>,
    )
        requires
            before.wf(),
            self.follows(before, plan(base, injection, declaration, marker), outcome),
            forall|i: int| 0 <= i < base.len() ==> !(#[trigger] base[i]).closes(marker),
            all_taken(before.history(), items(copied(base, declaration))),
        ensures
            outcome is Ok,
            self.history() == before.history() + items(copied(base, declaration)),
            self.output() == before.output() + rendered(
                before.history(),
                items(copied(base, declaration)),
            ),
    {
        lemma_splice_point(base, marker);
        self.lemma_success_owed(before, plan(base, injection, declaration, marker), outcome);
    }

    /// The fragment goes in once: where a token of the source closes the
    /// marker element and the serializer takes every step, the injection
    /// succeeds, and what it has handed over is the copy of the tokens before
    /// the first such token, then the fragment, then the copy of that token
    /// and of those behind it.
    pub proof fn lemma_fragment_injected(
        &self,
        before: &Self,
        base: Seq<Token>,
        injection: Seq<Token>,
        declaration: Option<Seq<u8>>,
        marker: &str,
        outcome: Result<(), String>,
    )
        requires
            before.wf(),
            self.follows(before, plan(base, injection, declaration, marker), outcome),
            splice_point(base, marker) < base.len(),
            all_taken(before.history(), items(plan(base, injection, declaration, marker))),
        ensures
            outcome is Ok,
            self.history() == before.history() + items(
                copied(base.take(splice_point(base, marker)), declaration),
            ) + items(fragment(injection)) + items(
                copied(base.skip(splice_point(base, marker)), declaration),
            ),
    {
        let at = splice_point(base, marker);
        let first = copied(base.take(at), declaration);
        let last = copied(base.skip(at), declaration);
        self.lemma_success_owed(before, plan(base, injection, declaration, marker), outcome);
        assert(items(first + fragment(injection) + last) =~= items(first) + items(
            fragment(injection),
        ) + items(last));
        assert(before.history() + (items(first) + items(fragment(injection)) + items(last))
            =~= before.history() + items(first) + items(fragment(injection)) + items(last));
    }

    /// Where the source starts with the start of a document and has a
    /// declaration line, a successful injection leaves the line in the buffer
    /// byte for byte, directly behind what the serializer writes for that
    /// start: the buffer begins with what it held before, then come the bytes
    /// for the start, then the line.
    pub proof fn lemma_declaration_in_output(
        &self,
        before: &Self,
        base: Seq<Token>,
        injection: Seq<Token>,
        line: Seq<u8>,
        marker: &str,
    )
        requires
            before.wf(),
            base.len() > 0,
            base[0].is_start_document(),
            self.follows(before, plan(base, injection, Some(line), marker), Ok(())),
        ensures
            (before.output() + emitted(before.history(), base[0]) + line).is_prefix_of(
                self.output(),
            ),
    {
        let steps = plan(base, injection, Some(line), marker);
        let history = before.history();
        lemma_declaration_follows_start(base, injection, line, marker, history);
        assert(steps.take(2) + steps.skip(2) =~= steps);
        assert(items(steps) =~= items(steps.take(2)) + items(steps.skip(2)));
        lemma_rendered_concat(history, items(steps.take(2)), items(steps.skip(2)));
        let head = before.output() + emitted(history, base[0]) + line;
        let tail = rendered(history + items(steps.take(2)), items(steps.skip(2)));
        assert(self.output() =~= head + tail);
    }

    /// Creates a new `XMLInjector` which will write behind what
    /// `write_destination` holds. Nothing is written yet: the buffer of the
    /// new injector is empty, whatever the destination holds.
    pub fn new(write_destination: Vec<u8>) -> (injector: Self)
        ensures
            injector.wf(),
            injector.history() == Seq::<Item>::empty(),
            injector.output() == Seq::<u8>::empty(),
            injector.layout() == house_layout(),
            !injector.declared(),
    {
        let start = write_destination.len();
        let writer = create_writer(
            write_destination,
            PERFORM_INDENT,
            INDENT_STRING,
            LINE_SEPARATOR,
        );
        assert(written(writer).skip(start as int) =~= Seq::<u8>::empty());
        Self { writer, start, noted: false }
    }

    /// Copies the XML contents of `source` into an internal buffer, and injects
    /// the XML contents of `injection` where appropriate.
    ///
    /// The steps are those of the plan for the tokens of the two documents and
    /// the declaration line of the source, in order. The injector stops at the
    /// first token that the serializer refuses, and then returns the message
    /// for that step; it succeeds where the serializer takes every token.
    /// Both documents are read token by token, the injected one only when the
    /// place for it has been reached.
    pub fn inject(&mut self, source: &[u8], injection: &[u8]) -> (outcome: Result<(), String>)
        ensures
            final(self).follows(
                old(self),
                plan(parsed(source@), parsed(injection@), declaration_of(source@), XML_DICT_KEY),
                outcome,
            ),
            final(self).layout() == old(self).layout(),
            parsed(source@).len() > 0 ==> parsed(source@)[0].is_start_document(),
    {
        // the declaration line is looked for in the whole source text first:
        // the loop below reads the source token by token, and no token holds
        // the declaration.
        let doctype_str = find_declaration(source);
        let injected = Fragment::Bytes(injection);
        let ghost base = parsed(source@);
        let ghost inserted = parsed(injection@);
        let ghost declaration = declaration_of(source@);
        let ghost mut seen: int = 0;
        let mut source_reader = open_reader(source);
        let mut spliced = false;
        proof {
            assert(base.skip(0) =~= base);
            assert(base.take(0) =~= Seq::<Token>::empty());
            self.lemma_follows_nothing();
        }
        loop
            invariant
                0 <= seen <= base.len(),
                pending(source_reader) == base.skip(seen),
                spliced <==> splice_point(base.take(seen), XML_DICT_KEY) < seen,
                self.follows(
                    old(self),
                    plan(base.take(seen), inserted, declaration, XML_DICT_KEY),
                    Ok(()),
                ),
                self.layout() == old(self).layout(),
                base == parsed(source@),
                inserted == injected.tokens(),
                inserted == parsed(injection@),
                declaration == line_bytes(doctype_str),
                declaration == declaration_of(source@),
                base.len() > 0 ==> base[0].is_start_document(),
            decreases pending(source_reader).len(),
        {
            let token = match next_token(&mut source_reader) {
                Some(token) => token,
                None => {
                    assert(base.take(seen) =~= base);
                    return Ok(());
                },
            };
            proof {
                assert(token == base[seen]);
                assert(base.skip(seen).skip(1) =~= base.skip(seen + 1));
            }
            let ghost at_token = *self;
            let outcome = self.step(&token, spliced, &injected, &doctype_str);
            proof {
                self.lemma_plan_advance(
                    &at_token,
                    old(self),
                    base,
                    seen,
                    spliced,
                    inserted,
                    declaration,
                    outcome,
                );
                seen = seen + 1;
            }
            if outcome.is_err() {
                return outcome;
            }
            spliced = spliced || token.closes(XML_DICT_KEY);
        }
    }

    /// Does what [`XMLInjector::inject`] does, on documents that have been
    /// read already: copies the tokens of `source` into the internal buffer,
    /// puts `doctype_str` behind a start of document, and injects the tokens
    /// of `injection` where appropriate.
    pub fn inject_tokens(
        &mut self,
        source: &[Token],
        injection: &[Token],
        doctype_str: &Option<String>,
    ) -> (outcome: Result<(), String>)
        ensures
            final(self).follows(
                old(self),
                plan(source@, injection@, line_bytes(*doctype_str), XML_DICT_KEY),
                outcome,
            ),
            final(self).layout() == old(self).layout(),
    {
        let injected = Fragment::Tokens(injection);
        let ghost base = source@;
        let ghost inserted = injection@;
        let ghost declaration = line_bytes(*doctype_str);
        let mut spliced = false;
        let mut seen: usize = 0;
        proof {
            assert(base.take(0) =~= Seq::<Token>::empty());
            self.lemma_follows_nothing();
        }
        while seen < source.len()
            invariant
                0 <= seen <= base.len(),
                spliced <==> splice_point(base.take(seen as int), XML_DICT_KEY) < seen,
                self.follows(
                    old(self),
                    plan(base.take(seen as int), inserted, declaration, XML_DICT_KEY),
                    Ok(()),
                ),
                self.layout() == old(self).layout(),
                base == source@,
                inserted == injected.tokens(),
                inserted == injection@,
                declaration == line_bytes(*doctype_str),
            decreases source.len() - seen,
        {
            let token = &source[seen];
            let ghost at_token = *self;
            let outcome = self.step(token, spliced, &injected, doctype_str);
            proof {
                self.lemma_plan_advance(
                    &at_token,
                    old(self),
                    base,
                    seen as int,
                    spliced,
                    inserted,
                    declaration,
                    outcome,
                );
            }
            if outcome.is_err() {
                return outcome;
            }
            spliced = spliced || token.closes(XML_DICT_KEY);
            seen += 1;
        }
        assert(base.take(seen as int) =~= base);
        Ok(())
    }

    /// Returns a reference to the internal buffer.
    pub fn buffer(&self) -> (bytes: &[u8])
        ensures
            bytes@ == self.output(),
    {
        let all = written_bytes(&self.writer);
        if self.start <= all.len() {
            slice_subrange(all, self.start, all.len())
        } else {
            slice_subrange(all, 0, 0)
        }
    }

    /// Tells whether this injector has put a declaration line into its
    /// buffer.
    pub fn wrote_declaration(&self) -> (wrote: bool)
        ensures
            wrote == self.declared(),
    {
        self.noted
    }

    /// Does for one token of the source document what there is to do: the
    /// first end element of the target key is where the fragment goes; the
    /// token itself follows, and after the start of the document the
    /// declaration line.
    fn step(
        &mut self,
        token: &Token,
        spliced: bool,
        injected: &Fragment,
        doctype_str: &Option<String>,
    ) -> (outcome: Result<(), String>)
        ensures
            final(self).follows(
                old(self),
                steps_for(*token, spliced, injected.tokens(), line_bytes(*doctype_str)),
                outcome,
            ),
            final(self).layout() == old(self).layout(),
    {
        let ghost insertion = if !spliced && token.closes(XML_DICT_KEY) {
            fragment(injected.tokens())
        } else {
            Seq::<Step>::empty()
        };
        let ghost own = copy_of(*token, line_bytes(*doctype_str));
        if !spliced && token.closes(XML_DICT_KEY) {
            let inserting = match injected {
                Fragment::Bytes(bytes) => self.inject_here(bytes),
                Fragment::Tokens(tokens) => self.insert_tokens(tokens),
            };
            if let Err(message) = inserting {
                proof {
                    self.lemma_follows_short(old(self), insertion, insertion + own, message);
                }
                return Err(message);
            }
        } else {
            proof {
                self.lemma_follows_nothing();
            }
        }
        let ghost at_copy = *self;
        let copying = self.copy(token, doctype_str);
        proof {
            self.lemma_follows_then(&at_copy, old(self), insertion, own, copying);
        }
        copying
    }

    /// Method which copies from the injection source to the internal buffer.
    fn inject_here(&mut self, injection: &[u8]) -> (outcome: Result<(), String>)
        ensures
            final(self).follows(old(self), fragment(parsed(injection@)), outcome),
            final(self).layout() == old(self).layout(),
    {
        let ghost inserted = parsed(injection@);
        let ghost mut seen: int = 0;
        let mut reader = open_reader(injection);
        proof {
            assert(inserted.skip(0) =~= inserted);
            assert(inserted.take(0) =~= Seq::<Token>::empty());
            self.lemma_follows_nothing();
        }
        loop
            invariant
                0 <= seen <= inserted.len(),
                pending(reader) == inserted.skip(seen),
                self.follows(old(self), fragment(inserted.take(seen)), Ok(())),
                self.layout() == old(self).layout(),
                inserted == parsed(injection@),
            decreases pending(reader).len(),
        {
            let token = match next_token(&mut reader) {
                Some(token) => token,
                None => {
                    assert(inserted.take(seen) =~= inserted);
                    return Ok(());
                },
            };
            proof {
                assert(token == inserted[seen]);
                assert(inserted.skip(seen).skip(1) =~= inserted.skip(seen + 1));
            }
            let ghost at_token = *self;
            let outcome = self.insert(&token);
            proof {
                self.lemma_fragment_advance(&at_token, old(self), inserted, seen, outcome);
                seen = seen + 1;
            }
            if outcome.is_err() {
                return outcome;
            }
        }
    }

    /// Copies the tokens of an injected document that has been read already
    /// to the internal buffer.
    fn insert_tokens(&mut self, injection: &[Token]) -> (outcome: Result<(), String>)
        ensures
            final(self).follows(old(self), fragment(injection@), outcome),
            final(self).layout() == old(self).layout(),
    {
        let ghost inserted = injection@;
        let mut seen: usize = 0;
        proof {
            assert(inserted.take(0) =~= Seq::<Token>::empty());
            self.lemma_follows_nothing();
        }
        while seen < injection.len()
            invariant
                0 <= seen <= inserted.len(),
                self.follows(old(self), fragment(inserted.take(seen as int)), Ok(())),
                self.layout() == old(self).layout(),
                inserted == injection@,
            decreases injection.len() - seen,
        {
            let ghost at_token = *self;
            let outcome = self.insert(&injection[seen]);
            proof {
                self.lemma_fragment_advance(&at_token, old(self), inserted, seen as int, outcome);
            }
            if outcome.is_err() {
                return outcome;
            }
            seen += 1;
        }
        assert(inserted.take(seen as int) =~= inserted);
        Ok(())
    }

    /// Copies one token of the injected document, unless it starts a
    /// document.
    fn insert(&mut self, token: &Token) -> (outcome: Result<(), String>)
        ensures
            final(self).follows(old(self), inject_of(*token), outcome),
            final(self).layout() == old(self).layout(),
    {
        if token.is_start_document() {
            proof {
                self.lemma_follows_nothing();
            }
            return Ok(());
        }
        self.write(token, Phase::Injection)
    }

    /// Copies one token of the source document, and after a start of document
    /// the declaration line, if there is one.
    fn copy(&mut self, token: &Token, doctype_str: &Option<String>) -> (outcome: Result<
        (),
        String,
    >)
        ensures
            final(self).follows(old(self), copy_of(*token, line_bytes(*doctype_str)), outcome),
            final(self).layout() == old(self).layout(),
    {
        let ghost declaration = line_bytes(*doctype_str);
        let ghost first = token_steps(*token, Phase::Source);
        let writing = self.write(token, Phase::Source);
        if let Err(message) = writing {
            proof {
                assert(first.is_prefix_of(copy_of(*token, declaration)));
                self.lemma_follows_short(old(self), first, copy_of(*token, declaration), message);
            }
            return Err(message);
        }
        if token.is_start_document() {
            if let Some(tag) = doctype_str {
                let ghost at_tag = *self;
                let ghost second = seq![declaration_step(encode_utf8(tag@))];
                self.declare(tag.as_str());
                proof {
                    self.lemma_follows_then(&at_tag, old(self), first, second, Ok(()));
                    assert(first + second =~= copy_of(*token, declaration));
                }
            }
        }
        Ok(())
    }

    /// Hands one token to the serializer, as a step of `phase`.
    fn write(&mut self, token: &Token, phase: Phase) -> (outcome: Result<(), String>)
        requires
            phase != Phase::Declaration,
        ensures
            final(self).follows(old(self), token_steps(*token, phase), outcome),
            final(self).layout() == old(self).layout(),
    {
        proof {
            self.lemma_follows_nothing();
        }
        let ghost step = Step { phase, item: Item::Token(*token) };
        let outcome = match write_token(&mut self.writer, token) {
            Some(Err(details)) => Err(copy_error(phase, details.as_str())),
            Some(Ok(())) => Ok(()),
            None => {
                return Ok(());
            },
        };
        proof {
            let held = written(old(self).writer);
            let holds = written(self.writer);
            assert(holds.take(held.len() as int) =~= held);
            if !old(self).wf() {
            } else if outcome is Ok {
                assert(holds.skip(self.start as int) =~= held.skip(self.start as int) + emitted(
                    old(self).history(),
                    *token,
                ));
            } else {
                assert(held.skip(self.start as int) =~= holds.skip(self.start as int).subrange(
                    0,
                    held.len() - self.start,
                ));
            }
            if old(self).wf() {
                self.lemma_follows_one(old(self), step, outcome);
            }
        }
        outcome
    }

    /// Puts the declaration line into the buffer as it is.
    fn declare(&mut self, tag: &str)
        ensures
            final(self).follows(old(self), seq![declaration_step(encode_utf8(tag@))], Ok(())),
            final(self).layout() == old(self).layout(),
    {
        write_raw(&mut self.writer, tag);
        self.noted = true;
        proof {
            let held = written(old(self).writer);
            if old(self).wf() {
                assert(written(self.writer).skip(self.start as int) =~= held.skip(
                    self.start as int,
                ) + encode_utf8(tag@));
                self.lemma_follows_one(old(self), declaration_step(encode_utf8(tag@)), Ok(()));
            }
        }
    }
}

} // verus!
