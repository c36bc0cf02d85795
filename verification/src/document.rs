use vstd::prelude::*;
use vstd::std_specs::convert::FromSpecImpl;
use vstd::utf8::encode_utf8;

use quick_xml::events::{BytesEnd, BytesStart, BytesText, Event};
use quick_xml::Reader;

use crate::attr_scanner::Attributes;
use crate::content::{Content, ParseContent};
use crate::node::WithMetadata;
use crate::content::content_bytes;
use crate::scoped_reader::{
    closes_scope, element_bytes, laid_out, lemma_scope_content_writes_back, scope_closed, track,
    woven, ContentScope, EmptyElementBuilder, EventHead, TagStack,
};
use crate::WriteXml;

verus! {

#[verifier::external_type_specification]
#[verifier::external_body]
#[verifier::reject_recursive_types(R)]
pub struct ExXmlReader<R>(Reader<R>);

#[verifier::external_type_specification]
#[verifier::external_body]
pub struct ExXmlError(quick_xml::Error);

#[verifier::external_type_specification]
#[verifier::external_body]
pub struct ExBytesStart<'a>(BytesStart<'a>);

#[verifier::external_type_specification]
#[verifier::external_body]
pub struct ExBytesEnd<'a>(BytesEnd<'a>);

#[verifier::external_type_specification]
#[verifier::external_body]
pub struct ExBytesText<'a>(BytesText<'a>);

#[verifier::external_type_specification]
#[verifier::external_body]
pub struct ExEvent<'a>(Event<'a>);

/// One event of a document, as the reading logic tells events apart.
pub enum XmlEvent {
    /// A start tag `<name ...>` (not self-closing).
    Start(BytesStart<'static>),
    /// An end tag `</name>`.
    End(BytesEnd<'static>),
    /// A self-closing tag `<name .../>`.
    Empty(BytesStart<'static>),
    /// Text between markup.
    Text(BytesText<'static>),
    /// The end of the input.
    Eof,
    /// Any other markup (comment, CDATA section, declaration, processing
    /// instruction, document type).
    Other(Event<'static>),
}

/// Whether an event is markup, written between `<` and `>`.
pub open spec fn is_markup(e: XmlEvent) -> bool {
    !(e is Text) && !(e is Eof)
}

/// The bytes of an event whose text (what the reader gives of it) is `text`:
/// markup with its `<` and `>` around the text, other events as the text itself.
pub open spec fn event_bytes(e: XmlEvent, text: Seq<u8>) -> Seq<u8> {
    if is_markup(e) {
        seq![0x3cu8] + text + seq![0x3eu8]
    } else {
        text
    }
}


/// What the reader gives of an event fits its kind: text is not empty and holds
/// no `<`; an end tag starts with `/`; a self-closing tag ends with `/`; a start
/// tag neither ends with `/` nor starts with `/`, `!` or `?`; other markup starts
/// with `!` or `?`; the end of the input gives nothing.
pub open spec fn text_fits(e: XmlEvent, text: Seq<u8>) -> bool {
    match e {
        XmlEvent::Text(_) => text.len() > 0 && !text.contains(0x3cu8),
        XmlEvent::End(_) => text.len() > 0 && text[0] == 0x2fu8,
        XmlEvent::Empty(_) => text.len() > 0 && text.last() == 0x2fu8 && text[0] != 0x2fu8,
        XmlEvent::Start(_) => !(text.len() > 0 && (text.last() == 0x2fu8 || text[0] == 0x2fu8
            || text[0] == 0x21u8 || text[0] == 0x3fu8)),
        XmlEvent::Other(_) => text.len() > 0 && (text[0] == 0x21u8 || text[0] == 0x3fu8),
        XmlEvent::Eof => text.len() == 0,
    }
}

/// White space as the reader sees it in tags: space, tab, carriage return, line feed.
pub open spec fn is_xml_space(b: u8) -> bool {
    b == 0x20u8 || b == 0x09u8 || b == 0x0du8 || b == 0x0au8
}

/// The first position at or after `i` that holds white space (or the end).
pub open spec fn name_end_at(text: Seq<u8>, i: int) -> int
    decreases text.len() - i,
{
    if i < 0 || i >= text.len() || is_xml_space(text[i]) {
        i
    } else {
        name_end_at(text, i + 1)
    }
}

/// The name at the start of a tag's text: up to the first white space.
pub open spec fn tag_name(text: Seq<u8>) -> Seq<u8> {
    text.take(name_end_at(text, 0))
}

/// What the reading logic takes of an event whose text is `text`: start and end
/// tags with their names, the kind of the others.
pub open spec fn head_fits(h: EventHead, e: XmlEvent, text: Seq<u8>) -> bool {
    match h {
        EventHead::Start(name) => e is Start && name@ == tag_name(text),
        EventHead::End(name) => e is End && name@ == tag_name(text.skip(1)),
        EventHead::Empty => e is Empty,
        EventHead::Eof => e is Eof,
        EventHead::Other => e is Text || e is Other,
    }
}

/// The input without the UTF-8 byte order mark it may start with, which a reader
/// passes over.
pub open spec fn without_bom(input: Seq<u8>) -> Seq<u8> {
    if input.len() >= 3 && input[0] == 0xefu8 && input[1] == 0xbbu8 && input[2] == 0xbfu8 {
        input.skip(3)
    } else {
        input
    }
}

/// A `quick_xml` reader over bytes, with the part of its input it has not given
/// out as events yet, and whether a read failed.
pub struct XmlReader<'i> {
    reader: Reader<&'i [u8]>,
    rest: Ghost<Seq<u8>>,
    failed: Ghost<bool>,
}

impl<'i> XmlReader<'i> {
    /// A reader over `input`, configured as `quick_xml` configures it by default,
    /// none of its input read yet.
    ///
    /// Trusted: calls `quick_xml::Reader::from_reader`. The contract claims that the
    /// input the reader will give out is `input` without a UTF-8 byte order mark it
    /// may start with (which the reader passes over at its first read, as the
    /// source shows: `remove_utf8_bom` in `src/reader/buffered_reader.rs`).
    #[verifier::external_body]
    fn new(input: &'i [u8]) -> (r: Self)
        ensures
            r.rest@ == without_bom(input@),
            !r.failed@,
    {
        XmlReader { reader: Reader::from_reader(input), rest: Ghost(without_bom(input@)), failed: Ghost(false) }
    }
}

/// Reads the next event into the empty `buf`.
///
/// Trusted: calls `quick_xml::Reader::read_event_into` and tells the event's kinds
/// apart. The contract claims, of a reader made by `XmlReader::new` (its fields are
/// private, so every reader is) with the default configuration, what the source
/// shows (`src/reader/buffered_reader.rs`, `src/reader/mod.rs`,
/// `src/reader/state.rs`): until a read fails, each event is the next part of the
/// input: text up to the next `<`, or markup from `<` to its `>`, of which the
/// reader gives the bytes between `<` and `>`; the end of the input comes when
/// nothing is left; and the bytes fit the event's kind (`text_fits`). After a
/// failed read nothing is claimed of later events.
#[verifier::external_body]
fn next_event<'i>(x: &mut XmlReader<'i>, buf: &mut Vec<u8>) -> (r: Result<XmlEvent, quick_xml::Error>)
    requires
        old(buf)@.len() == 0,
    ensures
        final(x).failed@ == (old(x).failed@ || r is Err),
        r matches Ok(e) ==> text_fits(e, final(buf)@),
        !old(x).failed@ ==> (r matches Ok(e) ==> old(x).rest@ == event_bytes(e, final(buf)@)
            + final(x).rest@),
        !old(x).failed@ ==> (r matches Ok(e) ==> (e is Eof <==> old(x).rest@.len() == 0)),
{
    match x.reader.read_event_into(buf) {
        Ok(Event::Start(e)) => Ok(XmlEvent::Start(e.into_owned())),
        Ok(Event::End(e)) => Ok(XmlEvent::End(e.into_owned())),
        Ok(Event::Empty(e)) => Ok(XmlEvent::Empty(e.into_owned())),
        Ok(Event::Text(e)) => Ok(XmlEvent::Text(e.into_owned())),
        Ok(Event::Eof) => Ok(XmlEvent::Eof),
        Ok(other) => Ok(XmlEvent::Other(other.into_owned())),
        Err(e) => Err(e),
    }
}

/// The name at the start of `text` from position `from` on.
fn tag_name_from(text: &Vec<u8>, from: usize) -> (r: Vec<u8>)
    requires
        from <= text@.len(),
    ensures
        r@ == tag_name(text@.skip(from as int)),
{
    let ghost t = text@.skip(from as int);
    let mut r: Vec<u8> = Vec::new();
    let mut i: usize = from;
    while i < text.len()
        invariant
            from <= i <= text@.len(),
            t == text@.skip(from as int),
            name_end_at(t, (i - from) as int) == name_end_at(t, 0),
            r@ == t.take((i - from) as int),
        decreases text@.len() - i,
    {
        let b = text[i];
        assert(t[(i - from) as int] == b);
        if b == 0x20u8 || b == 0x09u8 || b == 0x0du8 || b == 0x0au8 {
            assert(name_end_at(t, (i - from) as int) == (i - from) as int);
            assert(r@ =~= tag_name(t));
            return r;
        }
        r.push(b);
        i = i + 1;
        assert(r@ =~= t.take((i - from) as int));
    }
    assert(name_end_at(t, (i - from) as int) == (i - from) as int);
    assert(r@ =~= tag_name(t));
    r
}

/// The reads a document of `n` bytes is given: one per byte and one more. Every
/// event but the end of the input takes at least one byte of it, and reading the
/// end of the input spends nothing, so this is never spent before the end.
pub open spec fn read_budget(n: nat) -> nat {
    n + 1
}

/// What the reading logic knows of an `ElementBuilder`: the input not yet read,
/// whether a read failed, the open tags, and the reads left.
pub struct BuilderState {
    pub rest: Seq<u8>,
    pub failed: bool,
    pub tags: Seq<Seq<u8>>,
    pub budget: nat,
}

/// One read, from `s0` to `s1`: it spends one read of the budget (none for the
/// end of the input), takes the event
/// into account in the open tags, and, unless a read failed before, gives the
/// next part of the input, `bytes`, as `e` (the end of the input exactly when
/// nothing is left).
pub open spec fn one_read(s0: BuilderState, s1: BuilderState, e: XmlEvent, h: EventHead, bytes: Seq<u8>) -> bool {
    &&& s0.budget > 0
    &&& s1.budget == if e is Eof {
        s0.budget as int
    } else {
        s0.budget - 1
    }
    &&& s1.failed == s0.failed
    &&& s1.tags == track(s0.tags, h)
    &&& exists|text: Seq<u8>| #[trigger] event_bytes(e, text) == bytes && text_fits(e, text) && head_fits(h, e, text)
    &&& !s0.failed ==> s0.rest == bytes + s1.rest && (e is Eof <==> s0.rest.len() == 0)
}

/// Reads one after the other, through `states`: read `k` goes from `states[k]`
/// to `states[k + 1]`.
pub open spec fn reads_run(
    states: Seq<BuilderState>,
    events: Seq<XmlEvent>,
    heads: Seq<EventHead>,
    pieces: Seq<Seq<u8>>,
) -> bool {
    &&& states.len() == heads.len() + 1
    &&& events.len() == heads.len()
    &&& pieces.len() == heads.len()
    &&& forall|k: int|
        0 <= k < heads.len() ==> #[trigger] one_read(states[k], states[k + 1], events[k], heads[k], pieces[k])
}

/// The reads stop at the first event that ends the scope opened at depth `entry`,
/// or where the budget is spent.
pub open spec fn stops_at_end(states: Seq<BuilderState>, heads: Seq<EventHead>, entry: int) -> bool {
    &&& forall|k: int|
        0 <= k < heads.len() - 1 ==> !closes_scope(#[trigger] heads[k], states[k + 1].tags.len() as int, entry)
    &&& (heads.len() > 0 && closes_scope(heads.last(), states.last().tags.len() as int, entry))
        || states.last().budget == 0
}

/// Reads the content of elements from a document, keeping track of the tags that
/// are open.
///
/// Reading is bounded by a budget of one read per byte of the document and one
/// more: every event but the end of the input takes at least one byte and one
/// read, and the end of the input takes none, so a document never needs more
/// (`lemma_document_read_to_end`). Once the budget is spent, reading ends as at
/// the end of the input.
pub struct ElementBuilder<'i> {
    reader: XmlReader<'i>,
    tags: TagStack,
    budget: u128,
}

impl<'i> View for ElementBuilder<'i> {
    type V = BuilderState;

    closed spec fn view(&self) -> BuilderState {
        BuilderState {
            rest: self.reader.rest@,
            failed: self.reader.failed@,
            tags: self.tags@,
            budget: self.budget as nat,
        }
    }
}

impl<'i> ElementBuilder<'i> {
    /// Reads the document `input` from its start (after a byte order mark), no tag
    /// open yet.
    pub fn new(input: &'i [u8]) -> (r: Self)
        ensures
            r@ == (BuilderState {
                rest: without_bom(input@),
                failed: false,
                tags: Seq::empty(),
                budget: read_budget(input@.len()),
            }),
    {
        let budget: u128 = input.len() as u128 + 1;
        ElementBuilder { reader: XmlReader::new(input), tags: TagStack::new(), budget }
    }

    /// Reads one event, appending its bytes to `buf` (markup with its `<` and
    /// `>`), and takes it into account in the open tags.
    fn read(&mut self, buf: &mut Vec<u8>) -> (r: Result<(XmlEvent, EventHead), quick_xml::Error>)
        requires
            old(self)@.budget > 0,
        ensures
            r matches Ok((e, h)) ==> one_read(old(self)@, final(self)@, e, h, final(buf)@.skip(old(buf)@.len() as int)),
            r is Ok ==> final(buf)@.take(old(buf)@.len() as int) == old(buf)@,
            r is Ok ==> old(buf)@.len() <= final(buf)@.len(),
            r is Err ==> final(self)@.failed && final(self)@.budget == old(self)@.budget
                && final(self)@.tags == old(self)@.tags && final(buf)@ == old(buf)@,
    {
        let mut text: Vec<u8> = Vec::new();
        let event = next_event(&mut self.reader, &mut text)?;
        if !matches!(event, XmlEvent::Eof) {
            self.budget = self.budget - 1;
        }
        let ghost text0 = text@;
        let ghost before = buf@;
        let head = match &event {
            XmlEvent::Start(_) => EventHead::Start(tag_name_from(&text, 0)),
            XmlEvent::End(_) => EventHead::End(tag_name_from(&text, 1)),
            XmlEvent::Empty(_) => EventHead::Empty,
            XmlEvent::Eof => EventHead::Eof,
            _ => EventHead::Other,
        };
        assert(text0.skip(0) =~= text0);
        let markup = match &event {
            XmlEvent::Text(_) => false,
            XmlEvent::Eof => false,
            _ => true,
        };
        if markup {
            buf.push(0x3cu8);
            buf.append(&mut text);
            buf.push(0x3eu8);
        } else {
            buf.append(&mut text);
        }
        self.tags.observe(&head);
        proof {
            assert(buf@ =~= before + event_bytes(event, text0));
            assert(buf@.take(before.len() as int) =~= before);
            assert(buf@.skip(before.len() as int) =~= event_bytes(event, text0));
            assert(head_fits(head, event, text0));
        }
        Ok((event, head))
    }

    /// Reads up to the end tag that brings the open tags back to `entry` of them,
    /// or to the end of the input, appending the bytes of the events to `buf`.
    fn read_to_end(&mut self, buf: &mut Vec<u8>, entry: usize) -> (r: Result<(), quick_xml::Error>)
        ensures
            r is Ok ==> exists|states: Seq<BuilderState>, events: Seq<XmlEvent>, heads: Seq<EventHead>, pieces: Seq<Seq<u8>>|
                #[trigger] reads_run(states, events, heads, pieces) && states[0] == old(self)@
                    && states.last() == final(self)@ && final(buf)@ == old(buf)@ + pieces.flatten_alt()
                    && stops_at_end(states, heads, entry as int),
    {
        let ghost buf0 = buf@;
        let ghost mut states: Seq<BuilderState> = seq![self@];
        let ghost mut events: Seq<XmlEvent> = seq![];
        let ghost mut heads: Seq<EventHead> = seq![];
        let ghost mut pieces: Seq<Seq<u8>> = seq![];
        loop
            invariant
                buf0 == old(buf)@,
                reads_run(states, events, heads, pieces),
                states[0] == old(self)@,
                states.last() == self@,
                buf@ == buf0 + pieces.flatten_alt(),
                forall|k: int| 0 <= k < heads.len() ==> !closes_scope(#[trigger] heads[k], states[k + 1].tags.len() as int, entry as int),
            decreases self@.budget,
        {
            if self.budget == 0 {
                assert(stops_at_end(states, heads, entry as int));
                return Ok(());
            }
            let ghost s0 = self@;
            let ghost before = buf@;
            let (event, head) = self.read(buf)?;
            proof {
                let piece = buf@.skip(before.len() as int);
                let old_states = states;
                let old_events = events;
                let old_heads = heads;
                let old_pieces = pieces;
                states = states.push(self@);
                events = events.push(event);
                heads = heads.push(head);
                pieces = pieces.push(piece);
                assert(pieces.drop_last() =~= old_pieces);
                assert(buf@ =~= before + piece);
                assert(buf@ == buf0 + pieces.flatten_alt());
                assert forall|k: int| 0 <= k < heads.len() implies #[trigger] one_read(states[k], states[k + 1], events[k], heads[k], pieces[k]) by {
                    if k < old_heads.len() {
                        assert(states[k] == old_states[k] && states[k + 1] == old_states[k + 1]);
                        assert(one_read(old_states[k], old_states[k + 1], old_events[k], old_heads[k], old_pieces[k]));
                    }
                }
                assert forall|k: int| 0 <= k < heads.len() - 1 implies !closes_scope(#[trigger] heads[k], states[k + 1].tags.len() as int, entry as int) by {
                    assert(heads[k] == old_heads[k]);
                    assert(states[k + 1] == old_states[k + 1]);
                }
                assert(states.last() == self@);
            }
            if scope_closed(&head, self.tags.depth(), entry) {
                assert(stops_at_end(states, heads, entry as int));
                assert(reads_run(states, events, heads, pieces));
                assert(states[0] == old(self)@);
                assert(states.last() == self@);
                assert(buf@ == old(buf)@ + pieces.flatten_alt());
                return Ok(());
            }
            proof {
                assert forall|k: int| 0 <= k < heads.len() implies !closes_scope(#[trigger] heads[k], states[k + 1].tags.len() as int, entry as int) by {
                }
            }
        }
    }
}

/// One event offered while a scope is read: read from the state `start` as
/// `event` (`head`) with the bytes `bytes`, offered to the caller in the state
/// `offered`, answered `answer`, and handed back in the state `returned`; then,
/// for a start tag no one claimed, the reads that skip the element, from
/// `returned` on.
pub struct ScopeStep<T> {
    pub start: BuilderState,
    pub event: XmlEvent,
    pub head: EventHead,
    pub bytes: Seq<u8>,
    pub offered: BuilderState,
    pub answer: Option<WithMetadata<T>>,
    pub returned: BuilderState,
    pub skip_states: Seq<BuilderState>,
    pub skip_events: Seq<XmlEvent>,
    pub skip_heads: Seq<EventHead>,
    pub skip_pieces: Seq<Seq<u8>>,
}

/// The event that ended a scope, and its bytes.
pub struct ScopeClose {
    pub event: XmlEvent,
    pub head: EventHead,
    pub bytes: Seq<u8>,
}

/// The state after an offered event and the skip that followed it.
pub open spec fn step_done<T>(step: ScopeStep<T>) -> BuilderState {
    step.skip_states.last()
}

/// One offered event of a scope opened at depth `entry`: it was read, it did not
/// end the scope, and a start tag that was not claimed was skipped up to its own
/// end tag (the one that brings the open tags back to where they were before it).
pub open spec fn step_ok<T>(step: ScopeStep<T>, entry: int) -> bool {
    &&& one_read(step.start, step.offered, step.event, step.head, step.bytes)
    &&& !closes_scope(step.head, step.offered.tags.len() as int, entry)
    &&& reads_run(step.skip_states, step.skip_events, step.skip_heads, step.skip_pieces)
    &&& step.skip_states[0] == step.returned
    &&& if step.answer is None && step.head is Start {
        stops_at_end(step.skip_states, step.skip_heads, step.start.tags.len() as int)
    } else {
        step.skip_heads.len() == 0
    }
}

/// The state after the offered events `steps`, from `s0`.
pub open spec fn state_after<T>(s0: BuilderState, steps: Seq<ScopeStep<T>>) -> BuilderState {
    if steps.len() == 0 {
        s0
    } else {
        step_done(steps.last())
    }
}

/// How a scope opened at depth `entry` was read, from the state `s0` to `s1`: the
/// offered events `steps` one after the other, and then either the event that
/// ended the scope (`close`), or, with no read, the end of the budget (or a
/// caller that handed back a builder with no fewer reads left).
pub open spec fn scope_run<T>(
    s0: BuilderState,
    s1: BuilderState,
    entry: int,
    steps: Seq<ScopeStep<T>>,
    close: Option<ScopeClose>,
) -> bool {
    &&& forall|k: int| 0 <= k < steps.len() ==> step_ok(#[trigger] steps[k], entry)
    &&& forall|k: int| 0 <= k < steps.len() ==> (#[trigger] steps[k]).start == state_after(s0, steps.take(k))
    &&& match close {
        Some(c) => one_read(state_after(s0, steps), s1, c.event, c.head, c.bytes)
            && closes_scope(c.head, s1.tags.len() as int, entry),
        None => s1 == state_after(s0, steps) && (s1.budget == 0 || (steps.len() > 0
            && s1.budget >= steps.last().start.budget)),
    }
}

/// The bytes of the events no one claimed, in order: each with the bytes of the
/// element it opened, when it was skipped.
pub open spec fn unclaimed_of<T>(steps: Seq<ScopeStep<T>>) -> Seq<u8>
    decreases steps.len(),
{
    if steps.len() == 0 {
        seq![]
    } else {
        let last = steps.last();
        unclaimed_of(steps.drop_last()) + if last.answer is None {
            last.bytes + last.skip_pieces.flatten_alt()
        } else {
            seq![]
        }
    }
}

/// The elements claimed, in order.
pub open spec fn claimed_of<T>(steps: Seq<ScopeStep<T>>) -> Seq<WithMetadata<T>>
    decreases steps.len(),
{
    if steps.len() == 0 {
        seq![]
    } else {
        match steps.last().answer {
            Some(w) => claimed_of(steps.drop_last()).push(w),
            None => claimed_of(steps.drop_last()),
        }
    }
}

/// For each claimed element, the number of unclaimed bytes before it.
pub open spec fn marks_of<T>(steps: Seq<ScopeStep<T>>) -> Seq<int>
    decreases steps.len(),
{
    if steps.len() == 0 {
        seq![]
    } else {
        match steps.last().answer {
            Some(_) => marks_of(steps.drop_last()).push(unclaimed_of(steps.drop_last()).len() as int),
            None => marks_of(steps.drop_last()),
        }
    }
}

/// Each offered event was answered as `f`, the caller's function, answered it.
pub open spec fn answered_by<'i, T, F: FnMut(&mut ElementBuilder<'i>, XmlEvent) -> Result<Option<WithMetadata<T>>, quick_xml::Error>>(
    f: F,
    steps: Seq<ScopeStep<T>>,
) -> bool {
    forall|k: int| 0 <= k < steps.len() ==> #[trigger] answered(f, steps[k])
}

/// The caller's function `f` answered the offered event of `step` as recorded.
pub open spec fn answered<'i, T, F: FnMut(&mut ElementBuilder<'i>, XmlEvent) -> Result<Option<WithMetadata<T>>, quick_xml::Error>>(
    f: F,
    step: ScopeStep<T>,
) -> bool {
    exists|b: &mut ElementBuilder<'i>| #[trigger] call_ensures(f, (b, step.event), Ok(step.answer))
}

/// A type that can be read from XML elements.
pub trait ParseXml: Sized {
    /// Offered a start tag; may read the element's content through `builder` and
    /// claim the element.
    fn parse_start<'i>(
        start: &BytesStart<'static>,
        builder: &mut ElementBuilder<'i>,
    ) -> Result<Option<WithMetadata<Self>>, quick_xml::Error>;

    /// Offered a self-closing tag; may claim the element.
    fn parse_empty(
        start: &BytesStart<'static>,
        builder: &EmptyElementBuilder,
    ) -> Result<Option<WithMetadata<Self>>, quick_xml::Error>;
}

impl<'i> ElementBuilder<'i> {
    /// Reads the children of the current element, up to the end tag that closes
    /// it (or the end of the input). Each event is offered to `read_event`, which
    /// may claim it as an element; a start tag no one claims is skipped with
    /// everything up to its own end tag. The content holds, in turn, the bytes of
    /// the events no one claimed and the claimed elements, in document order.
    pub(crate) fn parse_content<T, C: ParseContent<T>, F>(&mut self, read_event: &mut F) -> (r: Result<C, quick_xml::Error>)
        where
            F: FnMut(&mut ElementBuilder<'i>, XmlEvent) -> Result<Option<WithMetadata<T>>, quick_xml::Error>,
        requires
            forall|b: &mut ElementBuilder<'i>, e: XmlEvent| call_requires(*old(read_event), (b, e)),
        ensures
            r matches Ok(c) ==> exists|steps: Seq<ScopeStep<T>>, close: Option<ScopeClose>|
                #[trigger] scope_run(old(self)@, final(self)@, old(self)@.tags.len() as int, steps, close)
                && laid_out(c.pushed(), unclaimed_of(steps), marks_of(steps), claimed_of(steps))
                && answered_by(*old(read_event), steps),
    {
        let ghost f0 = *read_event;
        let ghost s0 = self@;
        let ghost entry = s0.tags.len() as int;
        let mut scope: ContentScope<T, C> = ContentScope::open(self.tags.depth());
        let mut event_bytes: Vec<u8> = Vec::new();
        let ghost mut steps: Seq<ScopeStep<T>> = seq![];
        loop
            invariant
                s0 == old(self)@,
                entry == s0.tags.len(),
                scope.wf(),
                scope.entry() == entry,
                forall|b: &mut ElementBuilder<'i>, e: XmlEvent| call_requires(*read_event, (b, e)),
                *read_event == f0,
                f0 == *old(read_event),
                answered_by(f0, steps),
                event_bytes@.len() == 0,
                forall|k: int| 0 <= k < steps.len() ==> step_ok(#[trigger] steps[k], entry),
                forall|k: int| 0 <= k < steps.len() ==> (#[trigger] steps[k]).start == state_after(s0, steps.take(k)),
                state_after(s0, steps) == self@,
                scope.unclaimed_bytes() == unclaimed_of(steps),
                scope.claim_marks() == marks_of(steps),
                scope.claimed_elements() == claimed_of(steps),
            decreases self@.budget,
        {
            let budget = self.budget;
            let depth = self.tags.depth();
            if budget == 0 {
                let content = scope.close();
                assert(scope_run(s0, self@, entry, steps, None));
                return Ok(content);
            }
            let ghost start = self@;
            let (event, head) = self.read(&mut event_bytes)?;
            let ghost offered = self@;
            let ghost ev = event;
            let ghost bytes = event_bytes@;
            assert(event_bytes@.skip(0) =~= bytes);
            if scope.closes(&head, self.tags.depth()) {
                let content = scope.close();
                let ghost close = ScopeClose { event: ev, head, bytes };
                assert(scope_run(s0, self@, entry, steps, Some(close)));
                return Ok(content);
            }
            let is_start = head.is_start();
            let ghost hd = head;
            let ghost mut step: ScopeStep<T>;
            let res = read_event(self, event);
            assert(exists|b: &mut ElementBuilder<'i>| #[trigger] call_ensures(f0, (b, ev), res));
            match res? {
                Some(data) => {
                    let ghost returned = self@;
                    let ghost d = data;
                    scope.accept(data);
                    event_bytes.clear();
                    proof {
                        step = ScopeStep {
                            start,
                            event: ev,
                            head: hd,
                            bytes,
                            offered,
                            answer: Some(d),
                            returned,
                            skip_states: seq![returned],
                            skip_events: seq![],
                            skip_heads: seq![],
                            skip_pieces: seq![],
                        };
                    }
                },
                None => {
                    let ghost returned = self@;
                    if is_start {
                        self.read_to_end(&mut event_bytes, depth)?;
                        proof {
                            let (ss, se, sh, sp) = choose|ss: Seq<BuilderState>, se: Seq<XmlEvent>, sh: Seq<EventHead>, sp: Seq<Seq<u8>>|
                                #[trigger] reads_run(ss, se, sh, sp) && ss[0] == returned
                                    && ss.last() == self@ && event_bytes@ == bytes + sp.flatten_alt()
                                    && stops_at_end(ss, sh, depth as int);
                            step = ScopeStep {
                                start,
                                event: ev,
                                head: hd,
                                bytes,
                                offered,
                                answer: None,
                                returned,
                                skip_states: ss,
                                skip_events: se,
                                skip_heads: sh,
                                skip_pieces: sp,
                            };
                        }
                    } else {
                        proof {
                            step = ScopeStep {
                                start,
                                event: ev,
                                head: hd,
                                bytes,
                                offered,
                                answer: None,
                                returned,
                                skip_states: seq![returned],
                                skip_events: seq![],
                                skip_heads: seq![],
                                skip_pieces: seq![],
                            };
                            assert(seq![returned].last() == returned);
                            assert(Seq::<Seq<u8>>::empty().flatten_alt() =~= Seq::<u8>::empty());
                            assert(event_bytes@ =~= bytes + step.skip_pieces.flatten_alt());
                        }
                    }
                    scope.keep_raw(&mut event_bytes);
                },
            }
            proof {
                let old_steps = steps;
                steps = steps.push(step);
                assert(steps.drop_last() =~= old_steps);
                assert(step_ok(step, entry));
                assert forall|k: int| 0 <= k < steps.len() implies (#[trigger] steps[k]).start == state_after(s0, steps.take(k)) by {
                    if k < old_steps.len() {
                        assert(steps.take(k) =~= old_steps.take(k));
                        assert(steps[k] == old_steps[k]);
                    } else {
                        assert(steps.take(k) =~= old_steps);
                    }
                }
                assert forall|k: int| 0 <= k < steps.len() implies step_ok(#[trigger] steps[k], entry) by {
                    if k < old_steps.len() {
                        assert(steps[k] == old_steps[k]);
                    }
                }
                assert forall|k: int| 0 <= k < steps.len() implies #[trigger] answered(f0, steps[k]) by {
                    if k < old_steps.len() {
                        assert(steps[k] == old_steps[k]);
                    }
                }
            }
            if self.budget >= budget {
                let content = scope.close();
                assert(scope_run(s0, self@, entry, steps, None));
                return Ok(content);
            }
        }
    }

    /// Reads the content of the current element and makes it, with `attributes`,
    /// into an element by `finalize`, which gets the content `parse_content` read.
    pub fn build<S, T, C: ParseContent<T>, F1, F2>(
        &mut self,
        attributes: Attributes,
        read_event: F1,
        finalize: F2,
    ) -> (r: Result<WithMetadata<S>, quick_xml::Error>)
        where
            F1: FnMut(&mut ElementBuilder<'i>, XmlEvent) -> Result<Option<WithMetadata<T>>, quick_xml::Error>,
            F2: FnOnce(C) -> S,
        requires
            forall|b: &mut ElementBuilder<'i>, e: XmlEvent| call_requires(read_event, (b, e)),
            forall|c: C| call_requires(finalize, (c,)),
        ensures
            r matches Ok(w) ==> w.attributes == attributes && exists|c: C, steps: Seq<ScopeStep<T>>, close: Option<ScopeClose>|
                #![trigger scope_run(old(self)@, final(self)@, old(self)@.tags.len() as int, steps, close), call_ensures(finalize, (c,), w.element)]
                scope_run(old(self)@, final(self)@, old(self)@.tags.len() as int, steps, close)
                && laid_out(c.pushed(), unclaimed_of(steps), marks_of(steps), claimed_of(steps))
                && answered_by(read_event, steps)
                && call_ensures(finalize, (c,), w.element),
    {
        let ghost s0 = self@;
        let ghost f0 = read_event;
        let mut read_event = read_event;
        let content: C = self.parse_content(&mut read_event)?;
        let ghost c = content;
        let ghost run = choose|steps: Seq<ScopeStep<T>>, close: Option<ScopeClose>|
            #[trigger] scope_run(s0, self@, s0.tags.len() as int, steps, close)
            && laid_out(c.pushed(), unclaimed_of(steps), marks_of(steps), claimed_of(steps))
            && answered_by(f0, steps);
        let element = finalize(content);
        let w = EmptyElementBuilder.build(attributes, element);
        assert(scope_run(s0, self@, s0.tags.len() as int, run.0, run.1)
            && laid_out(c.pushed(), unclaimed_of(run.0), marks_of(run.0), claimed_of(run.0))
            && answered_by(f0, run.0)
            && call_ensures(finalize, (c,), w.element));
        Ok(w)
    }
}

impl<'a, 'i> From<&'a mut ElementBuilder<'i>> for EmptyElementBuilder {
    fn from(builder: &'a mut ElementBuilder<'i>) -> (r: Self) {
        EmptyElementBuilder
    }
}

impl<'a, 'i> FromSpecImpl<&'a mut ElementBuilder<'i>> for EmptyElementBuilder {
    open spec fn obeys_from_spec() -> bool {
        true
    }

    open spec fn from_spec(builder: &'a mut ElementBuilder<'i>) -> Self {
        EmptyElementBuilder
    }
}

/// The state in which a document is read: all of it (after a byte order mark)
/// left, no read failed, no tag open.
pub open spec fn document_start(input: Seq<u8>) -> BuilderState {
    BuilderState {
        rest: without_bom(input),
        failed: false,
        tags: Seq::empty(),
        budget: read_budget(input.len()),
    }
}

/// Only start tags and self-closing tags are claimed.
pub open spec fn tags_claimed<T>(steps: Seq<ScopeStep<T>>) -> bool {
    forall|k: int| 0 <= k < steps.len() ==> (#[trigger] steps[k]).answer is Some ==> (steps[k].event is Start
        || steps[k].event is Empty)
}

/// Reads a whole document held in bytes: the elements `T` claims from the start
/// tags offered to `T::parse_start` and the self-closing tags offered to
/// `T::parse_empty`, and the bytes of the rest between them.
pub fn parse_bytes<T: ParseXml>(input: &[u8]) -> (r: Result<Content<T>, quick_xml::Error>)
    ensures
        r matches Ok(c) ==> exists|s1: BuilderState, steps: Seq<ScopeStep<T>>, close: Option<ScopeClose>|
            #[trigger] scope_run(document_start(input@), s1, 0, steps, close)
            && laid_out(c@, unclaimed_of(steps), marks_of(steps), claimed_of(steps))
            && tags_claimed(steps),
{
    let mut builder = ElementBuilder::new(input);
    let mut offer = |s: &mut ElementBuilder, event: XmlEvent| -> (r: Result<Option<WithMetadata<T>>, quick_xml::Error>)
            ensures
                !(event is Start) && !(event is Empty) ==> r == Ok::<Option<WithMetadata<T>>, quick_xml::Error>(None),
            {
                match event {
                    XmlEvent::Start(e) => T::parse_start(&e, s),
                    XmlEvent::Empty(e) => T::parse_empty(&e, &EmptyElementBuilder::from(s)),
                    _ => Ok(None),
                }
            };
    let ghost f0 = offer;
    let r: Result<Content<T>, quick_xml::Error> = builder.parse_content(&mut offer);
    match r {
        Ok(c) => {
            proof {
                let run = choose|steps: Seq<ScopeStep<T>>, close: Option<ScopeClose>|
                    #[trigger] scope_run(document_start(input@), builder@, 0, steps, close)
                    && laid_out(c@, unclaimed_of(steps), marks_of(steps), claimed_of(steps))
                    && answered_by(f0, steps);
                let steps = run.0;
                assert forall|k: int| 0 <= k < steps.len() implies (#[trigger] steps[k]).answer is Some ==> (
                    steps[k].event is Start || steps[k].event is Empty) by {
                    assert(answered(f0, steps[k]));
                    let b = choose|b: &mut ElementBuilder| #[trigger] call_ensures(f0, (b, steps[k].event), Ok(steps[k].answer));
                }
                assert(scope_run(document_start(input@), builder@, 0, run.0, run.1));
            }
            Ok(c)
        },
        Err(e) => Err(e),
    }
}

/// Reads a whole document held in a string, as `parse_bytes` reads its bytes.
pub fn parse_str<T: ParseXml>(s: &str) -> (r: Result<Content<T>, quick_xml::Error>)
    ensures
        r matches Ok(c) ==> exists|s1: BuilderState, steps: Seq<ScopeStep<T>>, close: Option<ScopeClose>|
            #[trigger] scope_run(document_start(encode_utf8(s@)), s1, 0, steps, close)
            && laid_out(c@, unclaimed_of(steps), marks_of(steps), claimed_of(steps))
            && tags_claimed(steps),
{
    parse_bytes(s.as_bytes())
}

/// Reads that start where no read failed give out their bytes in order: the
/// input left before them is their bytes and then the input left after them.
proof fn lemma_reads_consume(
    states: Seq<BuilderState>,
    events: Seq<XmlEvent>,
    heads: Seq<EventHead>,
    pieces: Seq<Seq<u8>>,
)
    requires
        reads_run(states, events, heads, pieces),
        !states[0].failed,
    ensures
        states[0].rest == pieces.flatten_alt() + states.last().rest,
        !states.last().failed,
    decreases heads.len(),
{
    let n = heads.len() as int;
    if n == 0 {
        assert(pieces.flatten_alt() =~= Seq::<u8>::empty());
        assert(states[0].rest =~= pieces.flatten_alt() + states.last().rest);
    } else {
        let st = states.drop_last();
        assert(reads_run(st, events.drop_last(), heads.drop_last(), pieces.drop_last())) by {
            assert forall|k: int| 0 <= k < heads.len() - 1 implies #[trigger] one_read(
                st[k],
                st[k + 1],
                events.drop_last()[k],
                heads.drop_last()[k],
                pieces.drop_last()[k],
            ) by {
                assert(one_read(states[k], states[k + 1], events[k], heads[k], pieces[k]));
            }
        }
        lemma_reads_consume(st, events.drop_last(), heads.drop_last(), pieces.drop_last());
        assert(one_read(states[n - 1], states[n], events[n - 1], heads[n - 1], pieces[n - 1]));
        assert(st.last() == states[n - 1]);
        assert(states[0].rest =~= pieces.flatten_alt() + states.last().rest);
    }
}

/// The claim marks of offered events lie within their unclaimed bytes.
proof fn lemma_marks_bound<T>(steps: Seq<ScopeStep<T>>)
    ensures
        marks_of(steps).len() == claimed_of(steps).len(),
        forall|i: int| 0 <= i < marks_of(steps).len() ==> 0 <= #[trigger] marks_of(steps)[i] <= unclaimed_of(steps).len(),
    decreases steps.len(),
{
    if steps.len() > 0 {
        lemma_marks_bound(steps.drop_last());
    }
}

/// Bytes added after all the claim marks come after all the inserts.
proof fn lemma_woven_append(u: Seq<u8>, m: Seq<int>, ins: Seq<Seq<u8>>, p: Seq<u8>)
    requires
        m.len() == ins.len(),
        forall|i: int| 0 <= i < m.len() ==> 0 <= #[trigger] m[i] <= u.len(),
    ensures
        woven(u + p, m, ins) == woven(u, m, ins) + p,
{
    if ins.len() == 0 {
    } else {
        let n = ins.len() - 1;
        assert(0 <= m[n] <= u.len());
        assert((u + p).take(m[n]) =~= u.take(m[n]));
        assert((u + p).skip(m[n]) =~= u.skip(m[n]) + p);
        assert(woven(u + p, m, ins) =~= woven(u, m, ins) + p);
    }
}

/// Where a scope was read with no failed read, every caller that declined an
/// event read nothing, and every claimed element writes back exactly the input
/// read for it (its start tag and what its caller read), the input read before
/// the offered events is what the content writes of them, then the input left.
#[verifier::rlimit(50)]
proof fn lemma_steps_consume<T: WriteXml>(s0: BuilderState, entry: int, steps: Seq<ScopeStep<T>>)
    requires
        !s0.failed,
        forall|k: int| 0 <= k < steps.len() ==> step_ok(#[trigger] steps[k], entry),
        forall|k: int| 0 <= k < steps.len() ==> (#[trigger] steps[k]).start == state_after(s0, steps.take(k)),
        forall|k: int| 0 <= k < steps.len() ==> step_reads_back(#[trigger] steps[k]),
    ensures
        s0.rest == woven(unclaimed_of(steps), marks_of(steps), element_bytes(claimed_of(steps)))
            + state_after(s0, steps).rest,
        !state_after(s0, steps).failed,
    decreases steps.len(),
{
    if steps.len() == 0 {
        assert(element_bytes(claimed_of(steps)).len() == 0);
    } else {
        let n = steps.len() - 1;
        let prev = steps.drop_last();
        assert forall|k: int| 0 <= k < prev.len() implies (#[trigger] prev[k]).start == state_after(s0, prev.take(k)) by {
            assert(prev.take(k) =~= steps.take(k));
            assert(steps[k].start == state_after(s0, steps.take(k)));
        }
        assert forall|k: int| 0 <= k < prev.len() implies step_ok(#[trigger] prev[k], entry) by {
            assert(step_ok(steps[k], entry));
        }
        assert forall|k: int| 0 <= k < prev.len() implies step_reads_back(#[trigger] prev[k]) by {
            assert(step_reads_back(steps[k]));
        }
        lemma_steps_consume(s0, entry, prev);
        let step = steps[n];
        assert(steps.take(n) =~= prev);
        assert(step.start == state_after(s0, prev));
        assert(step_ok(step, entry));
        assert(step_reads_back(step));
        lemma_marks_bound(prev);
        let u = unclaimed_of(prev);
        let m = marks_of(prev);
        let e = element_bytes(claimed_of(prev));
        assert(m.len() == e.len());
        match step.answer {
            Some(w) => {
                assert(step.skip_states.len() == 1);
                assert(unclaimed_of(steps) == u);
                assert(marks_of(steps) == m.push(u.len() as int));
                assert(claimed_of(steps) == claimed_of(prev).push(w));
                let e2 = element_bytes(claimed_of(steps));
                assert(e2 =~= e.push(w.element.xml_bytes(w.attributes)));
                assert(e2.take(e.len() as int) =~= e);
                assert(m.push(u.len() as int).take(m.len() as int) =~= m);
                assert(u.take(u.len() as int) =~= u);
                assert(u.skip(u.len() as int) =~= Seq::<u8>::empty());
                assert(woven(u, m.push(u.len() as int), e2) =~= woven(u, m, e) + w.element.xml_bytes(w.attributes));
            },
            None => {
                lemma_reads_consume(step.skip_states, step.skip_events, step.skip_heads, step.skip_pieces);
                let piece = step.bytes + step.skip_pieces.flatten_alt();
                assert(unclaimed_of(steps) == u + piece);
                assert(marks_of(steps) == m);
                assert(claimed_of(steps) == claimed_of(prev));
                lemma_woven_append(u, m, e, piece);
            },
        }
    }
}

/// What a claimed element, or a caller that declined an event, must do for the
/// document to be written back as it was read: the caller leaves no failed read;
/// declining, it reads nothing; claiming, the element writes back exactly the
/// input read from its start tag up to where the caller handed the builder back.
pub open spec fn step_reads_back<T: WriteXml>(step: ScopeStep<T>) -> bool {
    &&& !step.returned.failed
    &&& match step.answer {
        None => step.returned.rest == step.offered.rest,
        Some(w) => step.start.rest == w.element.xml_bytes(w.attributes) + step.returned.rest,
    }
}

/// Reading a document and writing it back gives the document (without a byte
/// order mark it may start with), when it was read to its end and each claimed
/// element writes back exactly the input read for it, while no caller that
/// declined an event read anything (see `step_reads_back`).
pub proof fn lemma_document_round_trip<T: WriteXml>(
    input: Seq<u8>,
    s1: BuilderState,
    steps: Seq<ScopeStep<T>>,
    close: Option<ScopeClose>,
    nodes: Seq<crate::node::Node<T>>,
)
    requires
        scope_run(document_start(input), s1, 0, steps, close),
        laid_out(nodes, unclaimed_of(steps), marks_of(steps), claimed_of(steps)),
        close matches Some(c) && c.head is Eof,
        forall|k: int| 0 <= k < steps.len() ==> step_reads_back(#[trigger] steps[k]),
    ensures
        content_bytes(nodes) == without_bom(input),
{
    let s0 = document_start(input);
    lemma_steps_consume(s0, 0, steps);
    let last = state_after(s0, steps);
    let c = close->0;
    assert(one_read(last, s1, c.event, c.head, c.bytes));
    let text = choose|text: Seq<u8>| #[trigger] event_bytes(c.event, text) == c.bytes && text_fits(c.event, text)
        && head_fits(c.head, c.event, text);
    assert(c.event is Eof);
    assert(last.rest.len() == 0);
    lemma_scope_content_writes_back(nodes, unclaimed_of(steps), marks_of(steps), claimed_of(steps));
    assert(s0.rest =~= woven(unclaimed_of(steps), marks_of(steps), element_bytes(claimed_of(steps))));
}

/// The budget covers the input left: more reads are left than bytes, unless a read
/// failed.
pub open spec fn budget_covers(s: BuilderState) -> bool {
    s.failed || s.budget > s.rest.len()
}

/// A caller handed the builder back fairly: with no failed read, its budget still
/// covering the input left, and no more reads left than it was offered with.
pub open spec fn fair_return<T>(step: ScopeStep<T>) -> bool {
    &&& !step.returned.failed
    &&& budget_covers(step.returned)
    &&& step.returned.budget <= step.offered.budget
}

/// A read keeps the budget covering the input left; every read but the end of the
/// input spends one.
proof fn lemma_one_read_covers(s0: BuilderState, s1: BuilderState, e: XmlEvent, h: EventHead, bytes: Seq<u8>)
    requires
        one_read(s0, s1, e, h, bytes),
        !s0.failed,
        budget_covers(s0),
    ensures
        !s1.failed,
        budget_covers(s1),
        s1.budget <= s0.budget,
        !(e is Eof) ==> s1.budget < s0.budget,
{
    let text = choose|text: Seq<u8>| #[trigger] event_bytes(e, text) == bytes && text_fits(e, text)
        && head_fits(h, e, text);
    if !(e is Eof) {
        assert(bytes.len() >= 1);
        assert(s0.rest.len() == bytes.len() + s1.rest.len());
    } else {
        assert(bytes.len() == 0);
        assert(s0.rest.len() == bytes.len() + s1.rest.len());
    }
}

/// Reads keep the budget covering the input left, and spend reads.
proof fn lemma_reads_cover(
    states: Seq<BuilderState>,
    events: Seq<XmlEvent>,
    heads: Seq<EventHead>,
    pieces: Seq<Seq<u8>>,
)
    requires
        reads_run(states, events, heads, pieces),
        !states[0].failed,
        budget_covers(states[0]),
    ensures
        !states.last().failed,
        budget_covers(states.last()),
        states.last().budget <= states[0].budget,
    decreases heads.len(),
{
    let n = heads.len() as int;
    if n > 0 {
        let st = states.drop_last();
        assert(reads_run(st, events.drop_last(), heads.drop_last(), pieces.drop_last())) by {
            assert forall|k: int| 0 <= k < heads.len() - 1 implies #[trigger] one_read(
                st[k],
                st[k + 1],
                events.drop_last()[k],
                heads.drop_last()[k],
                pieces.drop_last()[k],
            ) by {
                assert(one_read(states[k], states[k + 1], events[k], heads[k], pieces[k]));
            }
        }
        lemma_reads_cover(st, events.drop_last(), heads.drop_last(), pieces.drop_last());
        assert(one_read(states[n - 1], states[n], events[n - 1], heads[n - 1], pieces[n - 1]));
        lemma_one_read_covers(states[n - 1], states[n], events[n - 1], heads[n - 1], pieces[n - 1]);
    }
}

/// Offered events handed back fairly keep the budget covering the input left, and
/// each spends at least one read.
proof fn lemma_steps_cover<T>(s0: BuilderState, entry: int, steps: Seq<ScopeStep<T>>)
    requires
        !s0.failed,
        budget_covers(s0),
        forall|k: int| 0 <= k < steps.len() ==> step_ok(#[trigger] steps[k], entry),
        forall|k: int| 0 <= k < steps.len() ==> (#[trigger] steps[k]).start == state_after(s0, steps.take(k)),
        forall|k: int| 0 <= k < steps.len() ==> fair_return(#[trigger] steps[k]),
    ensures
        !state_after(s0, steps).failed,
        budget_covers(state_after(s0, steps)),
        state_after(s0, steps).budget <= s0.budget,
        steps.len() > 0 ==> state_after(s0, steps).budget < steps.last().start.budget,
    decreases steps.len(),
{
    if steps.len() > 0 {
        let n = steps.len() - 1;
        let prev = steps.drop_last();
        assert forall|k: int| 0 <= k < prev.len() implies (#[trigger] prev[k]).start == state_after(s0, prev.take(k)) by {
            assert(prev.take(k) =~= steps.take(k));
            assert(steps[k].start == state_after(s0, steps.take(k)));
        }
        assert forall|k: int| 0 <= k < prev.len() implies step_ok(#[trigger] prev[k], entry) by {
            assert(step_ok(steps[k], entry));
        }
        assert forall|k: int| 0 <= k < prev.len() implies fair_return(#[trigger] prev[k]) by {
            assert(fair_return(steps[k]));
        }
        lemma_steps_cover(s0, entry, prev);
        let step = steps[n];
        assert(steps.take(n) =~= prev);
        assert(step.start == state_after(s0, prev));
        assert(step_ok(step, entry));
        assert(fair_return(step));
        lemma_one_read_covers(step.start, step.offered, step.event, step.head, step.bytes);
        let text = choose|text: Seq<u8>| #[trigger] event_bytes(step.event, text) == step.bytes
            && text_fits(step.event, text) && head_fits(step.head, step.event, text);
        assert(!(step.event is Eof));
        lemma_reads_cover(step.skip_states, step.skip_events, step.skip_heads, step.skip_pieces);
    }
}

/// A scope whose callers hand the builder back fairly, started with no failed read
/// and a budget covering the input left, is ended by the event that closes it
/// (its end tag, or the end of the input), never by the budget; and the budget
/// still covers the input left afterwards, with no reads gained.
pub proof fn lemma_scope_reads_to_close<T>(
    s0: BuilderState,
    s1: BuilderState,
    entry: int,
    steps: Seq<ScopeStep<T>>,
    close: Option<ScopeClose>,
)
    requires
        scope_run(s0, s1, entry, steps, close),
        !s0.failed,
        budget_covers(s0),
        forall|k: int| 0 <= k < steps.len() ==> fair_return(#[trigger] steps[k]),
    ensures
        close is Some,
        !s1.failed,
        budget_covers(s1),
        s1.budget <= s0.budget,
{
    lemma_steps_cover(s0, entry, steps);
    let last = state_after(s0, steps);
    match close {
        Some(c) => {
            lemma_one_read_covers(last, s1, c.event, c.head, c.bytes);
        },
        None => {
            assert(false);
        },
    }
}

/// A document is read to its end: every scope `parse_bytes` runs over it from the
/// start, whose callers hand the builder back fairly, ends with its closing event
/// (the end tag, or the end of the input), never because the budget ran out.
pub proof fn lemma_document_read_to_end<T>(
    input: Seq<u8>,
    s1: BuilderState,
    steps: Seq<ScopeStep<T>>,
    close: Option<ScopeClose>,
)
    requires
        scope_run(document_start(input), s1, 0, steps, close),
        forall|k: int| 0 <= k < steps.len() ==> fair_return(#[trigger] steps[k]),
    ensures
        close is Some,
{
    assert(without_bom(input).len() <= input.len());
    lemma_scope_reads_to_close(document_start(input), s1, 0, steps, close);
}

/// The name read from a tag's text stops at the first white space (space, tab,
/// carriage return or line feed), and a text without white space is a name as a
/// whole.
pub proof fn lemma_tag_name_stops_at_space(name: Seq<u8>, b: u8, rest: Seq<u8>)
    requires
        forall|i: int|
            0 <= i < name.len() ==> #[trigger] name[i] != 0x20u8 && name[i] != 0x09u8 && name[i]
                != 0x0du8 && name[i] != 0x0au8,
        b == 0x20u8 || b == 0x09u8 || b == 0x0du8 || b == 0x0au8,
    ensures
        tag_name(name + seq![b] + rest) == name,
        tag_name(name) == name,
{
    let t = name + seq![b] + rest;
    assert(t.take(name.len() as int) =~= name);
    assert(name.take(name.len() as int) =~= name);
    lemma_name_end_skips(t, name, 0);
    lemma_name_end_skips(name, name, 0);
    assert(t[name.len() as int] == b);
}

/// Positions of `t` that hold `name`, which has no white space, are passed over.
proof fn lemma_name_end_skips(t: Seq<u8>, name: Seq<u8>, i: int)
    requires
        0 <= i <= name.len() <= t.len(),
        t.take(name.len() as int) == name,
        forall|j: int|
            0 <= j < name.len() ==> #[trigger] name[j] != 0x20u8 && name[j] != 0x09u8 && name[j]
                != 0x0du8 && name[j] != 0x0au8,
    ensures
        name_end_at(t, i) == name_end_at(t, name.len() as int),
    decreases name.len() - i,
{
    if i < name.len() {
        assert(t[i] == t.take(name.len() as int)[i]);
        assert(t[i] == name[i]);
        lemma_name_end_skips(t, name, i + 1);
    }
}

/// A start tag and the end tag written for it carry the same name, whatever white
/// space follows the name in either: so the end tag closes what the start tag
/// opened (`lemma_end_tag_closes_start`).
pub proof fn lemma_start_and_end_names_match(name: Seq<u8>, b1: u8, attrs: Seq<u8>, b2: u8, trail: Seq<u8>)
    requires
        forall|i: int|
            0 <= i < name.len() ==> #[trigger] name[i] != 0x20u8 && name[i] != 0x09u8 && name[i]
                != 0x0du8 && name[i] != 0x0au8,
        b1 == 0x20u8 || b1 == 0x09u8 || b1 == 0x0du8 || b1 == 0x0au8,
        b2 == 0x20u8 || b2 == 0x09u8 || b2 == 0x0du8 || b2 == 0x0au8,
    ensures
        tag_name(name + seq![b1] + attrs) == tag_name((seq![0x2fu8] + name + seq![b2] + trail).skip(1)),
        tag_name(name) == tag_name((seq![0x2fu8] + name).skip(1)),
{
    lemma_tag_name_stops_at_space(name, b1, attrs);
    lemma_tag_name_stops_at_space(name, b2, trail);
    assert((seq![0x2fu8] + name + seq![b2] + trail).skip(1) =~= name + seq![b2] + trail);
    assert((seq![0x2fu8] + name).skip(1) =~= name);
}

} // verus!
