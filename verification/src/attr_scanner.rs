use vstd::prelude::*;
use vstd::slice::{slice_subrange, slice_to_vec};
use vstd::utf8::encode_utf8;
use std::borrow::Cow;

use crate::utils::{escape_chars, escape_with_quote, spec_unescape_xml, unescape_xml};

verus! {

/// XML white space as `u8::is_ascii_whitespace` sees it: space, tab, line feed,
/// form feed and carriage return.
pub open spec fn is_space(b: u8) -> bool {
    b == 0x20u8 || b == 0x09u8 || b == 0x0au8 || b == 0x0cu8 || b == 0x0du8
}

/// The first position at or after `i` that holds no white space (or the end).
pub open spec fn skip_space(s: Seq<u8>, i: int) -> int
    decreases s.len() - i,
{
    if i < 0 || i >= s.len() || !is_space(s[i]) {
        i
    } else {
        skip_space(s, i + 1)
    }
}

/// The first position at or after `i` that holds `=` or white space (or the end):
/// where an attribute name that starts at `i` stops.
pub open spec fn name_end(s: Seq<u8>, i: int) -> int
    decreases s.len() - i,
{
    if i < 0 || i >= s.len() || s[i] == 0x3du8 || is_space(s[i]) {
        i
    } else {
        name_end(s, i + 1)
    }
}

/// The first position at or after `i` that holds `b` (or the end).
pub open spec fn find_byte(s: Seq<u8>, i: int, b: u8) -> int
    decreases s.len() - i,
{
    if i < 0 || i >= s.len() || s[i] == b {
        i
    } else {
        find_byte(s, i + 1, b)
    }
}

pub proof fn lemma_skip_space(s: Seq<u8>, i: int)
    requires
        0 <= i <= s.len(),
    ensures
        i <= skip_space(s, i) <= s.len(),
        forall|k: int| i <= k < skip_space(s, i) ==> is_space(#[trigger] s[k]),
        skip_space(s, i) < s.len() ==> !is_space(s[skip_space(s, i)]),
    decreases s.len() - i,
{
    if i < s.len() && is_space(s[i]) {
        lemma_skip_space(s, i + 1);
    }
}

pub proof fn lemma_name_end(s: Seq<u8>, i: int)
    requires
        0 <= i <= s.len(),
    ensures
        i <= name_end(s, i) <= s.len(),
        forall|k: int| i <= k < name_end(s, i) ==> #[trigger] s[k] != 0x3du8 && !is_space(s[k]),
        name_end(s, i) < s.len() ==> s[name_end(s, i)] == 0x3du8 || is_space(s[name_end(s, i)]),
    decreases s.len() - i,
{
    if i < s.len() && s[i] != 0x3du8 && !is_space(s[i]) {
        lemma_name_end(s, i + 1);
    }
}

pub proof fn lemma_find_byte(s: Seq<u8>, i: int, b: u8)
    requires
        0 <= i <= s.len(),
    ensures
        i <= find_byte(s, i, b) <= s.len(),
        forall|k: int| i <= k < find_byte(s, i, b) ==> #[trigger] s[k] != b,
        find_byte(s, i, b) < s.len() ==> s[find_byte(s, i, b)] == b,
    decreases s.len() - i,
{
    if i < s.len() && s[i] != b {
        lemma_find_byte(s, i + 1, b);
    }
}

/// Where the parts of one attribute lie in the input: it starts at `start` (with
/// its leading white space), its name is `key_start..key_end`, its value starts
/// right after the opening quote at `value_start`, and it ends at `end`, just past
/// the closing quote (or at the end of the input when no closing quote follows).
pub struct AttrSpan {
    pub start: int,
    pub key_start: int,
    pub key_end: int,
    pub value_start: int,
    pub end: int,
    pub quote: u8,
}

/// The attribute that starts at `p`.
pub open spec fn span_at(s: Seq<u8>, p: int) -> AttrSpan {
    let key_start = skip_space(s, p);
    let key_end = name_end(s, key_start);
    let eq = skip_space(s, key_end);
    let q = skip_space(s, eq + 1);
    let close = find_byte(s, q + 1, s[q]);
    AttrSpan {
        start: p,
        key_start,
        key_end,
        value_start: q + 1,
        end: if close < s.len() {
            close + 1
        } else {
            s.len() as int
        },
        quote: s[q],
    }
}

/// Nothing but white space is left from `p` on.
pub open spec fn only_space_from(s: Seq<u8>, p: int) -> bool {
    skip_space(s, p) >= s.len()
}

/// An attribute can be read at `p`: its name is followed (after white space) by
/// `=`, and that (after white space) by a quote with at least one byte after it.
pub open spec fn span_ok(s: Seq<u8>, p: int) -> bool {
    let key_end = name_end(s, skip_space(s, p));
    let eq = skip_space(s, key_end);
    &&& eq < s.len()
    &&& s[eq] == 0x3du8
    &&& skip_space(s, eq + 1) + 1 < s.len()
}

pub proof fn lemma_span_at(s: Seq<u8>, p: int)
    requires
        0 <= p <= s.len(),
        span_ok(s, p),
    ensures
        p <= span_at(s, p).key_start <= span_at(s, p).key_end < span_at(s, p).value_start,
        span_at(s, p).value_start < span_at(s, p).end <= s.len(),
{
    let key_start = skip_space(s, p);
    lemma_skip_space(s, p);
    lemma_name_end(s, key_start);
    let key_end = name_end(s, key_start);
    lemma_skip_space(s, key_end);
    let eq = skip_space(s, key_end);
    lemma_skip_space(s, eq + 1);
    let q = skip_space(s, eq + 1);
    lemma_find_byte(s, q + 1, s[q]);
}

/// The attributes found from `p` on, in order.
pub open spec fn spans_from(s: Seq<u8>, p: int) -> Seq<AttrSpan>
    decreases s.len() - p,
{
    if p < 0 || p > s.len() || only_space_from(s, p) || !span_ok(s, p) {
        seq![]
    } else {
        proof {
            lemma_span_at(s, p);
        }
        seq![span_at(s, p)] + spans_from(s, span_at(s, p).end)
    }
}

/// Where the white space after the last attribute found from `p` on starts.
pub open spec fn trailing_from(s: Seq<u8>, p: int) -> int
    decreases s.len() - p,
{
    if p < 0 || p > s.len() || only_space_from(s, p) || !span_ok(s, p) {
        p
    } else {
        proof {
            lemma_span_at(s, p);
        }
        trailing_from(s, span_at(s, p).end)
    }
}

/// Every attribute from `p` on can be read, so that the scan meets the end of the
/// input only in white space. (Where this fails, the scan panics.)
pub open spec fn scan_ok_from(s: Seq<u8>, p: int) -> bool
    decreases s.len() - p,
{
    if p < 0 || p > s.len() {
        false
    } else if only_space_from(s, p) {
        true
    } else if !span_ok(s, p) {
        false
    } else {
        proof {
            lemma_span_at(s, p);
        }
        scan_ok_from(s, span_at(s, p).end)
    }
}

/// The attributes of a whole attribute list.
pub open spec fn attr_spans(s: Seq<u8>) -> Seq<AttrSpan> {
    spans_from(s, 0)
}

/// The attribute list can be scanned.
pub open spec fn attrs_well_formed(s: Seq<u8>) -> bool {
    scan_ok_from(s, 0)
}

/// One attribute as the library keeps it.
#[derive(Clone, Debug, PartialEq, Eq)]
pub enum AttrSlot {
    /// An attribute that the caller maps: what stood before its value (white
    /// space, name, `=`, opening quote), its name, and the quote byte it was read with.
    Defined { prefix: Vec<u8>, key: Vec<u8>, quote: u8 },
    /// An attribute kept as it was written, byte for byte.
    Raw(Vec<u8>),
}

/// The mathematical value of an `AttrSlot`.
pub enum AttrSlotView {
    Defined { prefix: Seq<u8>, key: Seq<u8>, quote: u8 },
    Raw(Seq<u8>),
}

impl View for AttrSlot {
    type V = AttrSlotView;

    open spec fn view(&self) -> AttrSlotView {
        match self {
            AttrSlot::Defined { prefix, key, quote } => AttrSlotView::Defined {
                prefix: prefix@,
                key: key@,
                quote: *quote,
            },
            AttrSlot::Raw(data) => AttrSlotView::Raw(data@),
        }
    }
}

/// The attribute list of a start tag: the attributes in order and the white space
/// that follows the last one.
#[derive(Clone, Debug, PartialEq, Eq)]
pub struct Attributes {
    pub slots: Vec<AttrSlot>,
    pub trailing_space: Vec<u8>,
}

/// The mathematical value of `Attributes`.
pub struct AttributesView {
    pub slots: Seq<AttrSlotView>,
    pub trailing_space: Seq<u8>,
}

impl View for Attributes {
    type V = AttributesView;

    open spec fn view(&self) -> AttributesView {
        AttributesView {
            slots: self.slots@.map_values(|slot: AttrSlot| slot@),
            trailing_space: self.trailing_space@,
        }
    }
}

/// The slot kept for the attribute `sp` of `s`: `Defined` when the caller maps it,
/// else `Raw` with its whole text.
pub open spec fn slot_model(s: Seq<u8>, sp: AttrSpan, mapped: bool) -> AttrSlotView {
    if mapped {
        AttrSlotView::Defined {
            prefix: s.subrange(sp.start, sp.value_start),
            key: s.subrange(sp.key_start, sp.key_end),
            quote: sp.quote,
        }
    } else {
        AttrSlotView::Raw(s.subrange(sp.start, sp.end))
    }
}

/// The attributes kept for the attribute list `s` when the caller maps attribute
/// `i` exactly where `mapped[i]` holds.
pub open spec fn attributes_model(s: Seq<u8>, mapped: Seq<bool>) -> AttributesView {
    let spans = attr_spans(s);
    AttributesView {
        slots: Seq::new(spans.len(), |i: int| slot_model(s, spans[i], mapped[i])),
        trailing_space: s.subrange(trailing_from(s, 0), s.len() as int),
    }
}

/// The value handed to the caller for the attribute `sp`: the bytes between the
/// quotes (the last byte of the attribute left out), decoded by `unescape_xml`.
pub open spec fn span_value(s: Seq<u8>, sp: AttrSpan) -> Seq<char> {
    spec_unescape_xml(s.subrange(sp.value_start, sp.end - 1))
}

/// `f`, asked about the attribute `sp` of `s` (its name and decoded value), may answer `answer`.
pub open spec fn answers_mapping<F: FnMut(&[u8], String) -> bool>(
    f: F,
    s: Seq<u8>,
    sp: AttrSpan,
    answer: bool,
) -> bool {
    exists|k: &[u8], v: String|
        #![trigger call_ensures(f, (k, v), answer)]
        k@ == s.subrange(sp.key_start, sp.key_end) && v@ == span_value(s, sp) && call_ensures(
            f,
            (k, v),
            answer,
        )
}

/// Whether `u8::is_ascii_whitespace` holds of `b`.
fn is_ascii_whitespace(b: u8) -> (r: bool)
    ensures
        r == is_space(b),
{
    b == 0x20u8 || b == 0x09u8 || b == 0x0au8 || b == 0x0cu8 || b == 0x0du8
}

/// A cursor over an attribute list.
struct AttrScanner<'a> {
    input: &'a [u8],
    pos: usize,
}

impl<'a> AttrScanner<'a> {
    fn new(input: &'a [u8]) -> (r: Self)
        ensures
            r.input@ == input@,
            r.pos == 0,
    {
        Self { input, pos: 0 }
    }

    fn peek(&self) -> (r: Option<u8>)
        requires
            self.pos <= self.input@.len(),
        ensures
            r == (if self.pos < self.input@.len() {
                Some(self.input@[self.pos as int])
            } else {
                None
            }),
    {
        if self.pos < self.input.len() {
            Some(self.input[self.pos])
        } else {
            None
        }
    }

    fn consume(&mut self) -> (r: Option<u8>)
        requires
            old(self).pos <= old(self).input@.len(),
        ensures
            final(self).input == old(self).input,
            r == (if old(self).pos < old(self).input@.len() {
                Some(old(self).input@[old(self).pos as int])
            } else {
                None
            }),
            final(self).pos == (if r is Some {
                old(self).pos + 1
            } else {
                old(self).pos as int
            }),
    {
        let b = self.peek();
        if b.is_some() {
            let len = self.input.len();
            assert(self.pos < len);
            self.pos = self.pos + 1;
        }
        b
    }

    fn consume_whitespace(&mut self) -> (r: Vec<u8>)
        requires
            old(self).pos <= old(self).input@.len(),
        ensures
            final(self).input == old(self).input,
            final(self).pos == skip_space(old(self).input@, old(self).pos as int),
            r@ == old(self).input@.subrange(old(self).pos as int, final(self).pos as int),
    {
        let start = self.pos;
        proof {
            lemma_skip_space(self.input@, start as int);
        }
        loop
            invariant
                self.input == old(self).input,
                start == old(self).pos,
                start <= self.pos <= self.input@.len(),
                skip_space(self.input@, self.pos as int) == skip_space(
                    self.input@,
                    start as int,
                ),
            ensures
                self.input == old(self).input,
                self.pos == skip_space(self.input@, start as int),
                start <= self.pos <= self.input@.len(),
            decreases self.input@.len() - self.pos,
        {
            match self.peek() {
                Some(b) => {
                    if is_ascii_whitespace(b) {
                        self.consume();
                    } else {
                        break ;
                    }
                },
                None => {
                    break ;
                },
            }
        }
        slice_to_vec(slice_subrange(self.input, start, self.pos))
    }
}

impl<'a> AttrScanner<'a> {
    /// Moves past an attribute name: up to `=`, white space or the end.
    fn skip_name(&mut self)
        requires
            old(self).pos <= old(self).input@.len(),
        ensures
            final(self).input == old(self).input,
            final(self).pos == name_end(old(self).input@, old(self).pos as int),
    {
        let ghost s = self.input@;
        let ghost start = self.pos as int;
        proof {
            lemma_name_end(s, start);
        }
        loop
            invariant
                self.input == old(self).input,
                self.input@ == s,
                start <= self.pos <= s.len(),
                name_end(s, self.pos as int) == name_end(s, start),
            ensures
                self.input == old(self).input,
                self.pos == name_end(s, start),
            decreases s.len() - self.pos,
        {
            match self.peek() {
                Some(b) => {
                    if b == 0x3du8 || is_ascii_whitespace(b) {
                        break ;
                    }
                    self.consume();
                },
                None => {
                    break ;
                },
            }
        }
    }

    /// Moves past a value opened with `quote`: just past its closing quote, or to
    /// the end when none follows.
    fn skip_value(&mut self, quote: u8)
        requires
            old(self).pos <= old(self).input@.len(),
        ensures
            final(self).input == old(self).input,
            final(self).pos == ({
                let close = find_byte(old(self).input@, old(self).pos as int, quote);
                if close < old(self).input@.len() {
                    close + 1
                } else {
                    old(self).input@.len() as int
                }
            }),
    {
        let ghost s = self.input@;
        let ghost start = self.pos as int;
        proof {
            lemma_find_byte(s, start, quote);
        }
        loop
            invariant_except_break
                find_byte(s, self.pos as int, quote) == find_byte(s, start, quote),
            invariant
                self.input == old(self).input,
                self.input@ == s,
                start <= self.pos <= s.len(),
            ensures
                self.input == old(self).input,
                self.pos == (if find_byte(s, start, quote) < s.len() {
                    find_byte(s, start, quote) + 1
                } else {
                    s.len() as int
                }),
            decreases s.len() - self.pos,
        {
            match self.consume() {
                Some(b) => {
                    if b == quote {
                        break ;
                    }
                },
                None => {
                    break ;
                },
            }
        }
    }
}

/// Whether `Attributes::new` can read the attribute list `input`: every attribute
/// in it has a name followed by `=` and an opening quote with at least one byte
/// after it.
pub fn attrs_ok(input: &[u8]) -> (r: bool)
    ensures
        r == attrs_well_formed(input@),
{
    let ghost s = input@;
    let mut sc = AttrScanner::new(input);
    loop
        invariant
            sc.input@ == s,
            s == input@,
            sc.pos <= s.len(),
            scan_ok_from(s, sc.pos as int) == scan_ok_from(s, 0),
        decreases s.len() - sc.pos,
    {
        let start = sc.pos;
        sc.consume_whitespace();
        proof {
            lemma_skip_space(s, start as int);
        }
        if sc.peek().is_none() {
            assert(only_space_from(s, start as int));
            assert(scan_ok_from(s, start as int));
            return true;
        }
        proof {
            lemma_name_end(s, sc.pos as int);
        }
        sc.skip_name();
        proof {
            lemma_skip_space(s, sc.pos as int);
        }
        sc.consume_whitespace();
        match sc.peek() {
            Some(b) => {
                if b != 0x3du8 {
                    assert(!span_ok(s, start as int));
                    return false;
                }
            },
            None => {
                assert(!span_ok(s, start as int));
                return false;
            },
        }
        sc.consume();
        proof {
            lemma_skip_space(s, sc.pos as int);
        }
        sc.consume_whitespace();
        if input.len() - sc.pos <= 1 {
            assert(!span_ok(s, start as int));
            return false;
        }
        proof {
            lemma_span_at(s, start as int);
        }
        let quote = match sc.consume() {
            Some(b) => b,
            None => 0x22u8,
        };
        sc.skip_value(quote);
    }
}

impl<'a> AttrScanner<'a> {
    /// Reads every attribute from the cursor on, asking `f` of each (with its name
    /// and decoded value) whether the caller maps it; returns the slots and the
    /// white space left at the end.
    fn scan<F>(&mut self, mut f: F) -> (r: (Vec<AttrSlot>, Vec<u8>))
        where
            F: FnMut(&[u8], String) -> bool,
        requires
            scan_ok_from(old(self).input@, old(self).pos as int),
            forall|k: &[u8], v: String| call_requires(f, (k, v)),
        ensures
            ({
                let s = old(self).input@;
                let spans = spans_from(s, old(self).pos as int);
                &&& r.0@.len() == spans.len()
                &&& forall|i: int|
                    #![trigger r.0@[i]]
                    0 <= i < spans.len() ==> r.0@[i]@ == slot_model(
                        s,
                        spans[i],
                        r.0@[i]@ is Defined,
                    ) && answers_mapping(f, s, spans[i], r.0@[i]@ is Defined)
                &&& r.1@ == s.subrange(trailing_from(s, old(self).pos as int), s.len() as int)
            }),
            final(self).input == old(self).input,
            final(self).pos <= final(self).input@.len(),
    {
        let ghost s = self.input@;
        let ghost p0 = self.pos as int;
        let ghost f0 = f;
        let ghost mut done: Seq<AttrSpan> = seq![];
        let mut slots: Vec<AttrSlot> = Vec::new();
        let trailing_space: Vec<u8>;
        loop
            invariant_except_break
                scan_ok_from(s, self.pos as int),
                done + spans_from(s, self.pos as int) == spans_from(s, p0),
                trailing_from(s, self.pos as int) == trailing_from(s, p0),
                slots@.len() == done.len(),
                forall|i: int|
                    #![trigger slots@[i]]
                    0 <= i < done.len() ==> slots@[i]@ == slot_model(
                        s,
                        done[i],
                        slots@[i]@ is Defined,
                    ) && answers_mapping(f, s, done[i], slots@[i]@ is Defined),
            invariant
                self.input@ == s,
                self.input == old(self).input,
                s == old(self).input@,
                p0 == old(self).pos,
                self.pos <= s.len(),
                f == f0,
                forall|k: &[u8], v: String| call_requires(f, (k, v)),
            ensures
                self.input == old(self).input,
                self.pos <= s.len(),
                slots@.len() == spans_from(s, p0).len(),
                forall|i: int|
                    #![trigger slots@[i]]
                    0 <= i < spans_from(s, p0).len() ==> slots@[i]@ == slot_model(
                        s,
                        spans_from(s, p0)[i],
                        slots@[i]@ is Defined,
                    ) && answers_mapping(f, s, spans_from(s, p0)[i], slots@[i]@ is Defined),
                trailing_space@ == s.subrange(trailing_from(s, p0), s.len() as int),
            decreases s.len() - self.pos,
        {
            let start_pos = self.pos;
            let leading = self.consume_whitespace();
            proof {
                lemma_skip_space(s, start_pos as int);
            }
            // Reaching the end with no name begun: what was read is the trailing space.
            let name_start = self.pos;
            if self.peek().is_none() {
                assert(spans_from(s, start_pos as int) =~= seq![]);
                assert(done =~= done + spans_from(s, start_pos as int));
                trailing_space = leading;
                break ;
            }
            let ghost sp = span_at(s, start_pos as int);
            proof {
                lemma_span_at(s, start_pos as int);
                lemma_name_end(s, name_start as int);
            }
            // The attribute name.
            loop
                invariant
                    self.input@ == s,
                    self.input == old(self).input,
                    name_start <= self.pos <= s.len(),
                    name_end(s, self.pos as int) == name_end(s, name_start as int),
                ensures
                    self.input@ == s,
                    self.input == old(self).input,
                    self.pos == name_end(s, name_start as int),
                decreases s.len() - self.pos,
            {
                match self.peek() {
                    Some(b) => {
                        if b == 0x3du8 || is_ascii_whitespace(b) {
                            break ;
                        }
                        self.consume();
                    },
                    None => {
                        break ;
                    },
                }
            }
            let key = slice_to_vec(slice_subrange(self.input, name_start, self.pos));
            self.consume_whitespace();
            // The `=`, which `scan_ok_from` guarantees.
            self.consume();
            self.consume_whitespace();
            let quote = match self.consume() {
                Some(b) => b,
                None => 0x22u8,
            };
            // The value, up to and including the closing quote (or to the end).
            let value_start = self.pos;
            proof {
                lemma_find_byte(s, value_start as int, quote);
                assert(value_start == sp.value_start);
                assert(quote == sp.quote);
            }
            loop
                invariant_except_break
                    find_byte(s, self.pos as int, quote) == find_byte(
                        s,
                        value_start as int,
                        quote,
                    ),
                invariant
                    self.input@ == s,
                    self.input == old(self).input,
                    value_start <= self.pos <= s.len(),
                    value_start == sp.value_start,
                    quote == sp.quote,
                    sp == span_at(s, start_pos as int),
                    sp.quote == s[sp.value_start - 1],
                ensures
                    self.input@ == s,
                    self.input == old(self).input,
                    self.pos == sp.end,
                decreases s.len() - self.pos,
            {
                match self.consume() {
                    Some(b) => {
                        if b == quote {
                            break ;
                        }
                    },
                    None => {
                        break ;
                    },
                }
            }
            let value_end_with_quote = self.pos;
            let value = unescape_xml(slice_subrange(self.input, value_start, value_end_with_quote - 1));
            let ghost value_copy = value;
            let key_ref = key.as_slice();
            let mapped = f(key_ref, value);
            proof {
                assert(call_ensures(f, (key_ref, value_copy), mapped));
                assert(answers_mapping(f, s, sp, mapped));
            }
            if mapped {
                let prefix = slice_to_vec(slice_subrange(self.input, start_pos, value_start));
                slots.push(AttrSlot::Defined { prefix, key, quote });
            } else {
                slots.push(
                    AttrSlot::Raw(slice_to_vec(slice_subrange(self.input, start_pos, value_end_with_quote))),
                );
            }
            proof {
                assert(slots@.last()@ == slot_model(s, sp, mapped));
                assert(spans_from(s, start_pos as int) == seq![sp] + spans_from(s, sp.end));
                done = done.push(sp);
                assert(done + spans_from(s, sp.end) =~= (done.drop_last() + spans_from(
                    s,
                    start_pos as int,
                )));
            }
        }
        (slots, trailing_space)
    }
}

/// The character that a value closed by the byte `q` escapes: `"` and `'` for
/// themselves. Other quote bytes escape nothing more than `&`, `<` and `>`, so
/// they stand for `<`, which is escaped anyway.
pub open spec fn quote_char(q: u8) -> char {
    if q == 0x22u8 {
        '"'
    } else if q == 0x27u8 {
        '\''
    } else {
        '<'
    }
}

/// The bytes that `Attributes::write` writes for a mapped value `v` of an
/// attribute opened with the quote byte `q`: the value escaped for that quote, as
/// UTF-8, then the quote.
pub open spec fn written_value(v: Seq<char>, q: u8) -> Seq<u8> {
    encode_utf8(escape_chars(v, quote_char(q))) + seq![q]
}

/// What is written for one slot, given the value the caller supplies for it
/// (`None`: the attribute is left out).
pub open spec fn render_slot(slot: AttrSlotView, value: Option<Seq<char>>) -> Seq<u8> {
    match slot {
        AttrSlotView::Defined { prefix, quote, .. } => match value {
            Some(v) => prefix + written_value(v, quote),
            None => seq![],
        },
        AttrSlotView::Raw(data) => data,
    }
}

/// What is written for the slots, slot `i` with the value `values[i]`.
pub open spec fn render_slots(slots: Seq<AttrSlotView>, values: Seq<Option<Seq<char>>>) -> Seq<u8>
    decreases slots.len(),
{
    if slots.len() == 0 {
        seq![]
    } else {
        render_slots(slots.drop_last(), values) + render_slot(
            slots.last(),
            values[slots.len() - 1],
        )
    }
}

/// What `Attributes::write` writes for `a` when the caller supplies `values`.
pub open spec fn render_attributes(a: AttributesView, values: Seq<Option<Seq<char>>>) -> Seq<u8> {
    render_slots(a.slots, values) + a.trailing_space
}

/// `f`, asked about the attribute named `key`, may answer with the value `value`.
pub open spec fn answers_value<'a, F: FnMut(&[u8]) -> Option<Cow<'a, str>>>(
    f: F,
    key: Seq<u8>,
    value: Option<Seq<char>>,
) -> bool {
    exists|k: &[u8], r: Option<Cow<'a, str>>|
        #![trigger call_ensures(f, (k,), r)]
        k@ == key && call_ensures(f, (k,), r) && value == answer_view(r)
}

/// The text of an answer to `Attributes::write`, if any.
pub open spec fn answer_view<'a>(r: Option<Cow<'a, str>>) -> Option<Seq<char>> {
    match r {
        Some(c) => Some(c@),
        None => None,
    }
}

/// The name of a slot the caller maps.
pub open spec fn slot_key(slot: AttrSlotView) -> Seq<u8> {
    match slot {
        AttrSlotView::Defined { key, .. } => key,
        AttrSlotView::Raw(_) => seq![],
    }
}

impl Attributes {
    /// Reads an attribute list (the text of a start tag after its name). For each
    /// attribute, `f` gets its name and its value decoded by `unescape_xml`; where
    /// `f` answers `true` the attribute is kept as `Defined`, so that its value can
    /// be written anew, else as `Raw`, byte for byte. The white space after the last
    /// attribute is kept too.
    pub fn new<F>(input: &[u8], f: F) -> (r: Self)
        where
            F: FnMut(&[u8], String) -> bool,
        requires
            attrs_well_formed(input@),
            forall|k: &[u8], v: String| call_requires(f, (k, v)),
        ensures
            exists|mapped: Seq<bool>|
                #![trigger attributes_model(input@, mapped)]
                {
                    &&& mapped.len() == attr_spans(input@).len()
                    &&& r@ == attributes_model(input@, mapped)
                    &&& forall|i: int|
                        0 <= i < mapped.len() ==> answers_mapping(
                            f,
                            input@,
                            attr_spans(input@)[i],
                            #[trigger] mapped[i],
                        )
                },
    {
        let (slots, trailing_space) = AttrScanner::new(input).scan(f);
        let r = Self { slots, trailing_space };
        proof {
            let spans = attr_spans(input@);
            let mapped = Seq::new(spans.len(), |i: int| r.slots@[i]@ is Defined);
            let model = attributes_model(input@, mapped);
            assert(r@.slots =~= model.slots);
            assert(r@ == model);
            assert forall|i: int| 0 <= i < mapped.len() implies answers_mapping(
                f,
                input@,
                spans[i],
                #[trigger] mapped[i],
            ) by {
                assert(r.slots@[i]@ is Defined == mapped[i]);
            }
        }
        r
    }

    /// Writes the attribute list to `writer`. Each `Raw` slot is written as it was
    /// read. For each `Defined` slot, `f` gets the attribute's name; when it answers
    /// with a value, the slot's prefix is written, then the value escaped for the
    /// quote the attribute was opened with, then that quote; when it answers
    /// `None` the attribute is left out. The trailing white space comes last.
    pub fn write<'a, F>(&self, writer: &mut Vec<u8>, f: F)
        where
            F: FnMut(&[u8]) -> Option<Cow<'a, str>>,
        requires
            forall|k: &[u8]| call_requires(f, (k,)),
        ensures
            exists|values: Seq<Option<Seq<char>>>|
                #![trigger render_attributes(self@, values)]
                {
                    &&& values.len() == self@.slots.len()
                    &&& forall|i: int|
                        0 <= i < values.len() && #[trigger] self@.slots[i] is Defined
                            ==> answers_value(f, slot_key(self@.slots[i]), values[i])
                    &&& final(writer)@ == old(writer)@ + render_attributes(self@, values)
                },
    {
        let mut f = f;
        let ghost f0 = f;
        let ghost mut values: Seq<Option<Seq<char>>> = seq![];
        let n = self.slots.len();
        let mut i: usize = 0;
        while i < n
            invariant
                n == self.slots@.len(),
                i <= n,
                f == f0,
                forall|k: &[u8]| call_requires(f, (k,)),
                values.len() == i,
                forall|j: int|
                    0 <= j < i && #[trigger] self@.slots[j] is Defined ==> answers_value(
                        f,
                        slot_key(self@.slots[j]),
                        values[j],
                    ),
                writer@ == old(writer)@ + render_slots(self@.slots.take(i as int), values),
            decreases n - i,
        {
            let ghost mut value: Option<Seq<char>> = None;
            match &self.slots[i] {
                AttrSlot::Defined { prefix, key, quote } => {
                    let key_ref = key.as_slice();
                    let answer = f(key_ref);
                    proof {
                        value = answer_view(answer);
                        assert(call_ensures(f, (key_ref,), answer));
                    }
                    if let Some(text) = answer {
                        let text_ref: &str = match &text {
                            Cow::Borrowed(b) => b,
                            Cow::Owned(o) => o.as_str(),
                        };
                        assert(text_ref@ == text@);
                        let quote_ch = if *quote == 0x22u8 {
                            '"'
                        } else if *quote == 0x27u8 {
                            '\''
                        } else {
                            '<'
                        };
                        let escaped = escape_with_quote(text_ref, quote_ch);
                        writer.extend_from_slice(prefix.as_slice());
                        writer.extend_from_slice(escaped.as_str().as_bytes());
                        writer.push(*quote);
                    }
                },
                AttrSlot::Raw(data) => {
                    writer.extend_from_slice(data.as_slice());
                },
            }
            proof {
                let old_values = values;
                values = values.push(value);
                lemma_render_slots_prefix(self@.slots, old_values, values, i as int);
                let prefix = self@.slots.take(i + 1);
                assert(prefix.drop_last() =~= self@.slots.take(i as int));
                assert(writer@ =~= old(writer)@ + render_slots(prefix, values));
            }
            i = i + 1;
        }
        writer.extend_from_slice(self.trailing_space.as_slice());
        proof {
            assert(self@.slots.take(n as int) =~= self@.slots);
            assert(writer@ =~= old(writer)@ + render_attributes(self@, values));
        }
    }
}

/// `render_slots` over the first `n` slots reads no value past index `n`.
pub proof fn lemma_render_slots_prefix(
    slots: Seq<AttrSlotView>,
    a: Seq<Option<Seq<char>>>,
    b: Seq<Option<Seq<char>>>,
    n: int,
)
    requires
        0 <= n <= slots.len(),
        n <= a.len(),
        n <= b.len(),
        forall|j: int| 0 <= j < n ==> a[j] == b[j],
    ensures
        render_slots(slots.take(n), a) == render_slots(slots.take(n), b),
    decreases n,
{
    if n > 0 {
        let p = slots.take(n);
        assert(p.drop_last() =~= slots.take(n - 1));
        lemma_render_slots_prefix(slots, a, b, n - 1);
    }
}

/// The attributes found from `p` on lie one after the other: the first starts at
/// `p`, each starts where the one before ends, the trailing white space starts
/// where the last ends, and inside each the parts are in order.
pub proof fn lemma_spans_layout(s: Seq<u8>, p: int)
    requires
        0 <= p <= s.len(),
        scan_ok_from(s, p),
    ensures
        ({
            let sps = spans_from(s, p);
            &&& sps.len() > 0 ==> sps[0].start == p
            &&& forall|i: int| 0 < i < sps.len() ==> (#[trigger] sps[i]).start == sps[i - 1].end
            &&& forall|i: int|
                0 <= i < sps.len() ==> p <= (#[trigger] sps[i]).start <= sps[i].key_start
                    <= sps[i].key_end < sps[i].value_start < sps[i].end <= s.len()
            &&& trailing_from(s, p) == if sps.len() == 0 {
                p
            } else {
                sps[sps.len() - 1].end
            }
            &&& trailing_from(s, p) <= s.len()
        }),
    decreases s.len() - p,
{
    if !only_space_from(s, p) {
        lemma_span_at(s, p);
        let sp = span_at(s, p);
        lemma_spans_layout(s, sp.end);
        let rest = spans_from(s, sp.end);
        let sps = spans_from(s, p);
        assert(sps == seq![sp] + rest);
        assert forall|i: int| 0 < i < sps.len() implies (#[trigger] sps[i]).start == sps[i
            - 1].end by {
            assert(sps[i] == rest[i - 1]);
            if i > 1 {
                assert(sps[i - 1] == rest[i - 2]);
            }
        }
        assert forall|i: int| 0 <= i < sps.len() implies p <= (#[trigger] sps[i]).start
            <= sps[i].key_start <= sps[i].key_end < sps[i].value_start < sps[i].end
            <= s.len() by {
            if i > 0 {
                assert(sps[i] == rest[i - 1]);
            }
        }
    }
}

/// What the first `n` slots of `attributes_model(s, mapped)` write is the input up
/// to the end of attribute `n - 1`, provided every mapped attribute is given back a
/// value that is written exactly as it stood.
proof fn lemma_render_prefix(
    s: Seq<u8>,
    mapped: Seq<bool>,
    values: Seq<Option<Seq<char>>>,
    n: int,
)
    requires
        attrs_well_formed(s),
        mapped.len() == attr_spans(s).len(),
        values.len() == attr_spans(s).len(),
        0 <= n <= attr_spans(s).len(),
        forall|i: int|
            0 <= i < mapped.len() && #[trigger] mapped[i] ==> values[i] is Some && written_value(
                values[i]->0,
                attr_spans(s)[i].quote,
            ) == s.subrange(attr_spans(s)[i].value_start, attr_spans(s)[i].end),
    ensures
        render_slots(attributes_model(s, mapped).slots.take(n), values) == s.subrange(
            0,
            if n == 0 {
                0
            } else {
                attr_spans(s)[n - 1].end
            },
        ),
    decreases n,
{
    if n > 0 {
        lemma_render_prefix(s, mapped, values, n - 1);
        let sps = attr_spans(s);
        let slots = attributes_model(s, mapped).slots;
        let p = slots.take(n);
        assert(p.drop_last() =~= slots.take(n - 1));
        let sp = sps[n - 1];
        let start = if n - 1 == 0 {
            0
        } else {
            sps[n - 2].end
        };
        assert(sp.start == start && 0 <= start <= sp.value_start < sp.end <= s.len()) by {
            lemma_spans_layout(s, 0);
        }
        assert(p.last() == slot_model(s, sp, mapped[n - 1]));
        let piece = render_slot(p.last(), values[n - 1]);
        assert(piece == s.subrange(sp.start, sp.end)) by {
            if mapped[n - 1] {
                assert(s.subrange(sp.start, sp.value_start) + s.subrange(sp.value_start, sp.end)
                    =~= s.subrange(sp.start, sp.end));
            }
        }
        assert(render_slots(p, values) == render_slots(slots.take(n - 1), values) + piece);
        assert(s.subrange(0, start) + s.subrange(start, sp.end) =~= s.subrange(0, sp.end));
    }
}

/// Reading an attribute list and writing it back gives the same bytes, provided
/// every attribute the caller maps is given back a value that escapes to the text
/// it had (in particular, when the caller maps none).
pub proof fn lemma_attributes_round_trip(
    s: Seq<u8>,
    mapped: Seq<bool>,
    values: Seq<Option<Seq<char>>>,
)
    requires
        attrs_well_formed(s),
        mapped.len() == attr_spans(s).len(),
        values.len() == attr_spans(s).len(),
        forall|i: int|
            0 <= i < mapped.len() && #[trigger] mapped[i] ==> values[i] is Some && written_value(
                values[i]->0,
                attr_spans(s)[i].quote,
            ) == s.subrange(attr_spans(s)[i].value_start, attr_spans(s)[i].end),
    ensures
        render_attributes(attributes_model(s, mapped), values) == s,
{
    let sps = attr_spans(s);
    let n = sps.len() as int;
    let t = trailing_from(s, 0);
    assert(0 <= t <= s.len() && t == if n == 0 {
        0
    } else {
        sps[n - 1].end
    }) by {
        lemma_spans_layout(s, 0);
    }
    lemma_render_prefix(s, mapped, values, n);
    let model = attributes_model(s, mapped);
    assert(model.slots.take(n) =~= model.slots);
    assert(model.trailing_space == s.subrange(t, s.len() as int));
    assert(s.subrange(0, t) + s.subrange(t, s.len() as int) =~= s);
}

} // verus!
