use vstd::prelude::*;
use vstd::utf8::{char_is_scalar, char_u32_cast, decode_utf8, encode_scalar, encode_utf8};

use crate::attr_scanner::{
    attr_spans, attributes_model, attrs_well_formed, find_byte, is_space, lemma_find_byte,
    lemma_name_end, lemma_skip_space, lemma_span_at, lemma_spans_layout, name_end,
    only_space_from, render_attributes, render_slot, render_slots, scan_ok_from, skip_space,
    slot_model, span_at, span_ok, span_value, spans_from, trailing_from, written_value, quote_char,
    AttrSpan,
};
use crate::utils::{escape_chars, lemma_escape_avoids_quote, lemma_escaped_value_reads_back};

verus! {

/// The byte of a quote character `"` or `'`.
pub open spec fn quote_byte(q: char) -> u8 {
    if q == '"' {
        0x22u8
    } else {
        0x27u8
    }
}

proof fn lemma_encode_concat(a: Seq<char>, b: Seq<char>)
    ensures
        encode_utf8(a + b) == encode_utf8(a) + encode_utf8(b),
    decreases a.len(),
{
    if a.len() > 0 {
        lemma_encode_concat(a.drop_first(), b);
        assert((a + b).drop_first() =~= a.drop_first() + b);
        assert((a + b)[0] == a[0]);
        assert(encode_utf8(a + b) =~= encode_utf8(a) + encode_utf8(b));
    } else {
        assert(a + b =~= b);
    }
}

proof fn lemma_encode_quote(q: char)
    requires
        q == '"' || q == '\'',
    ensures
        encode_utf8(seq![q]) == seq![quote_byte(q)],
{
    assert(seq![q].drop_first() =~= Seq::<char>::empty());
    assert(encode_utf8(Seq::<char>::empty()) =~= Seq::<u8>::empty());
    assert(encode_utf8(seq![q]) == encode_scalar(q as u32) + encode_utf8(Seq::<char>::empty()));
    if q == '"' {
        assert(q as u32 == 34u32);
        assert((34u32 & 0x7Fu32) == 34u32) by (bit_vector);
        assert(encode_scalar(q as u32) =~= seq![0x22u8]);
    } else {
        assert(q as u32 == 39u32);
        assert((39u32 & 0x7Fu32) == 39u32) by (bit_vector);
        assert(encode_scalar(q as u32) =~= seq![0x27u8]);
    }
    assert(encode_utf8(seq![q]) =~= seq![quote_byte(q)]);
}

/// The UTF-8 encoding of a character holds an ASCII byte only when the character is it.
proof fn lemma_encode_scalar_ascii(c: char, b: u8)
    requires
        b < 0x80,
        c as u32 != b as u32,
    ensures
        !encode_scalar(c as u32).contains(b),
{
    let u = c as u32;
    char_is_scalar(c);
    let e = encode_scalar(u);
    assert forall|k: int| 0 <= k < e.len() implies e[k] != b by {
        if u <= 0x7F {
            assert(u <= 0x7F ==> (u & 0x7Fu32) == u) by (bit_vector);
        } else {
            assert(forall|x: u8| (0xC0u8 | x) >= 0x80u8) by (bit_vector);
            assert(forall|x: u8| (0xE0u8 | x) >= 0x80u8) by (bit_vector);
            assert(forall|x: u8| (0xF0u8 | x) >= 0x80u8) by (bit_vector);
            assert(forall|x: u8| (0x80u8 | x) >= 0x80u8) by (bit_vector);
        }
    }
}

/// Text without the ASCII character `b` encodes to bytes without `b`.
proof fn lemma_encode_avoids(x: Seq<char>, b: u8)
    requires
        b < 0x80,
        forall|i: int| 0 <= i < x.len() ==> x[i] as u32 != b as u32,
    ensures
        !encode_utf8(x).contains(b),
    decreases x.len(),
{
    if x.len() > 0 {
        lemma_encode_scalar_ascii(x[0], b);
        lemma_encode_avoids(x.drop_first(), b);
        let e = encode_scalar(x[0] as u32);
        let r = encode_utf8(x.drop_first());
        assert(encode_utf8(x) == e + r);
        assert forall|k: int| 0 <= k < (e + r).len() implies (e + r)[k] != b by {
            if k < e.len() {
                assert((e + r)[k] == e[k]);
            } else {
                assert((e + r)[k] == r[k - e.len()]);
            }
        }
    }
}

proof fn lemma_skip_space_window(x: Seq<u8>, i: int, y: Seq<u8>, j: int, n: int)
    requires
        0 <= i,
        i + n <= x.len(),
        0 <= j,
        j + n <= y.len(),
        0 <= n,
        x.subrange(i, i + n) == y.subrange(j, j + n),
        skip_space(x, i) < i + n || (i + n == x.len() && j + n == y.len()),
    ensures
        skip_space(y, j) - j == skip_space(x, i) - i,
    decreases n,
{
    lemma_skip_space(x, i);
    if n > 0 {
        assert(x[i] == x.subrange(i, i + n)[0]);
        assert(y[j] == y.subrange(j, j + n)[0]);
        if is_space(x[i]) {
            assert(x.subrange(i + 1, i + n) =~= x.subrange(i, i + n).skip(1));
            assert(y.subrange(j + 1, j + n) =~= y.subrange(j, j + n).skip(1));
            lemma_skip_space_window(x, i + 1, y, j + 1, n - 1);
        }
    }
}

proof fn lemma_name_end_window(x: Seq<u8>, i: int, y: Seq<u8>, j: int, n: int)
    requires
        0 <= i,
        i + n <= x.len(),
        0 <= j,
        j + n <= y.len(),
        0 <= n,
        x.subrange(i, i + n) == y.subrange(j, j + n),
        name_end(x, i) < i + n || (i + n == x.len() && j + n == y.len()),
    ensures
        name_end(y, j) - j == name_end(x, i) - i,
    decreases n,
{
    lemma_name_end(x, i);
    if n > 0 {
        assert(x[i] == x.subrange(i, i + n)[0]);
        assert(y[j] == y.subrange(j, j + n)[0]);
        if x[i] != 0x3du8 && !is_space(x[i]) {
            assert(x.subrange(i + 1, i + n) =~= x.subrange(i, i + n).skip(1));
            assert(y.subrange(j + 1, j + n) =~= y.subrange(j, j + n).skip(1));
            lemma_name_end_window(x, i + 1, y, j + 1, n - 1);
        }
    }
}

proof fn lemma_find_byte_window(x: Seq<u8>, i: int, y: Seq<u8>, j: int, n: int, b: u8)
    requires
        0 <= i,
        i + n <= x.len(),
        0 <= j,
        j + n <= y.len(),
        0 <= n,
        x.subrange(i, i + n) == y.subrange(j, j + n),
        find_byte(x, i, b) < i + n || (i + n == x.len() && j + n == y.len()),
    ensures
        find_byte(y, j, b) - j == find_byte(x, i, b) - i,
    decreases n,
{
    lemma_find_byte(x, i, b);
    if n > 0 {
        assert(x[i] == x.subrange(i, i + n)[0]);
        assert(y[j] == y.subrange(j, j + n)[0]);
        if x[i] != b {
            assert(x.subrange(i + 1, i + n) =~= x.subrange(i, i + n).skip(1));
            assert(y.subrange(j + 1, j + n) =~= y.subrange(j, j + n).skip(1));
            lemma_find_byte_window(x, i + 1, y, j + 1, n - 1, b);
        }
    }
}

proof fn lemma_find_byte_at(y: Seq<u8>, i: int, k: int, b: u8)
    requires
        0 <= i <= k < y.len(),
        forall|m: int| i <= m < k ==> y[m] != b,
        y[k] == b,
    ensures
        find_byte(y, i, b) == k,
    decreases k - i,
{
    if i < k {
        lemma_find_byte_at(y, i + 1, k, b);
    }
}

/// Whether `q` is one of the quote bytes `"` and `'`.
pub open spec fn is_quote(q: u8) -> bool {
    q == 0x22u8 || q == 0x27u8
}

/// The value text written for `v` closed by the quote `q` never holds `q`.
proof fn lemma_written_value_layout(v: Seq<char>, q: u8)
    requires
        is_quote(q),
    ensures
        written_value(v, q) == encode_utf8(escape_chars(v, quote_char(q))) + seq![q],
        !encode_utf8(escape_chars(v, quote_char(q))).contains(q),
{
    let qc = quote_char(q);
    let e = escape_chars(v, qc);
    assert(quote_byte(qc) == q);
    lemma_escape_avoids_quote(v, qc);
    assert forall|i: int| 0 <= i < e.len() implies e[i] as u32 != quote_byte(qc) as u32 by {
        assert(e[i] != qc);
        if qc == '"' {
            assert(qc as u32 == 34);
        } else {
            assert(qc as u32 == 39);
        }
        if e[i] as u32 == quote_byte(qc) as u32 {
            char_u32_cast(e[i], e[i] as u32);
            char_u32_cast(qc, qc as u32);
        }
    }
    lemma_encode_avoids(e, quote_byte(qc));
}

/// An attribute read at `p` in `s` and written (as `render_slot` says) at `o` in
/// `out` is read again at `o`: same name, same text before the value, same quote,
/// and it ends where its written text ends; a mapped attribute holds the value
/// text that was written for it.
proof fn lemma_piece_span(
    s: Seq<u8>,
    p: int,
    mapped: bool,
    value: Option<Seq<char>>,
    out: Seq<u8>,
    o: int,
)
    requires
        0 <= p <= s.len(),
        span_ok(s, p),
        0 <= o,
        o + render_slot(slot_model(s, span_at(s, p), mapped), value).len() <= out.len(),
        out.subrange(o, o + render_slot(slot_model(s, span_at(s, p), mapped), value).len())
            == render_slot(slot_model(s, span_at(s, p), mapped), value),
        mapped ==> value is Some && is_quote(span_at(s, p).quote),
        !mapped && find_byte(s, span_at(s, p).value_start, span_at(s, p).quote) == s.len() ==> o
            + render_slot(slot_model(s, span_at(s, p), mapped), value).len() == out.len(),
    ensures
        ({
            let sp = span_at(s, p);
            let sp2 = span_at(out, o);
            let piece = render_slot(slot_model(s, sp, mapped), value);
            &&& !only_space_from(out, o)
            &&& span_ok(out, o)
            &&& sp2.start == o
            &&& sp2.key_start - o == sp.key_start - p
            &&& sp2.key_end - o == sp.key_end - p
            &&& sp2.value_start - o == sp.value_start - p
            &&& sp2.end == o + piece.len()
            &&& sp2.quote == sp.quote
            &&& out.subrange(o, sp2.value_start) == s.subrange(p, sp.value_start)
            &&& mapped ==> out.subrange(sp2.value_start, sp2.end - 1) == encode_utf8(
                escape_chars(value->0, quote_char(sp.quote)),
            )
            &&& !mapped ==> piece == s.subrange(p, sp.end)
        }),
{
    let sp = span_at(s, p);
    let piece = render_slot(slot_model(s, sp, mapped), value);
    lemma_span_at(s, p);
    let ks = sp.key_start;
    let ke = sp.key_end;
    let vs = sp.value_start;
    let eq = skip_space(s, ke);
    let qp = vs - 1;
    lemma_skip_space(s, ke);
    lemma_skip_space(s, eq + 1);
    assert(qp == skip_space(s, eq + 1));
    let n = vs - p;
    // The text before the value is the same in both.
    let head = s.subrange(p, vs);
    assert(piece.len() > n);
    assert(piece.subrange(0, n) == head) by {
        if mapped {
            assert(piece == s.subrange(p, vs) + written_value(value->0, sp.quote));
            assert(piece.subrange(0, n) =~= head);
        } else {
            assert(piece.subrange(0, n) =~= head);
        }
    }
    assert(out.subrange(o, o + n) == head) by {
        assert(out.subrange(o, o + n) =~= out.subrange(o, o + piece.len()).subrange(0, n));
    }
    let d = o - p;
    // Name start.
    lemma_skip_space_window(s, p, out, o, n);
    let ks2 = skip_space(out, o);
    assert(ks2 == ks + d);
    // Name end.
    assert(s.subrange(ks, vs) == out.subrange(ks2, ks2 + (vs - ks))) by {
        assert(s.subrange(ks, vs) =~= head.subrange(ks - p, n));
        assert(out.subrange(ks2, ks2 + (vs - ks)) =~= out.subrange(o, o + n).subrange(
            ks - p,
            n,
        ));
    }
    lemma_name_end_window(s, ks, out, ks2, vs - ks);
    let ke2 = name_end(out, ks2);
    assert(ke2 == ke + d);
    // The `=`.
    assert(s.subrange(ke, vs) == out.subrange(ke2, ke2 + (vs - ke))) by {
        assert(s.subrange(ke, vs) =~= head.subrange(ke - p, n));
        assert(out.subrange(ke2, ke2 + (vs - ke)) =~= out.subrange(o, o + n).subrange(
            ke - p,
            n,
        ));
    }
    lemma_skip_space_window(s, ke, out, ke2, vs - ke);
    let eq2 = skip_space(out, ke2);
    assert(eq2 == eq + d);
    assert(out[eq2] == s[eq]) by {
        assert(out[eq2] == out.subrange(o, o + n)[eq - p]);
        assert(s[eq] == head[eq - p]);
    }
    // The opening quote.
    assert(s.subrange(eq + 1, vs) == out.subrange(eq2 + 1, eq2 + 1 + (vs - eq - 1))) by {
        assert(s.subrange(eq + 1, vs) =~= head.subrange(eq + 1 - p, n));
        assert(out.subrange(eq2 + 1, eq2 + 1 + (vs - eq - 1)) =~= out.subrange(o, o + n).subrange(
            eq + 1 - p,
            n,
        ));
    }
    lemma_skip_space_window(s, eq + 1, out, eq2 + 1, vs - eq - 1);
    let qp2 = skip_space(out, eq2 + 1);
    assert(qp2 == qp + d);
    assert(out[qp2] == s[qp]) by {
        assert(out[qp2] == out.subrange(o, o + n)[qp - p]);
        assert(s[qp] == head[qp - p]);
    }
    let vs2 = qp2 + 1;
    assert(vs2 < out.len());
    lemma_skip_space(out, o);
    assert(!only_space_from(out, o));
    assert(span_ok(out, o));
    let sp2 = span_at(out, o);
    assert(sp2.key_start == ks2 && sp2.key_end == ke2 && sp2.value_start == vs2);
    assert(sp2.quote == sp.quote);
    assert(out.subrange(o, vs2) == s.subrange(p, vs));
    let q = sp.quote;
    if mapped {
        let v = value->0;
        let enc = encode_utf8(escape_chars(v, quote_char(q)));
        lemma_written_value_layout(v, q);
        assert(piece == head + enc + seq![q]);
        let close2 = vs2 + enc.len();
        assert(close2 < out.len());
        assert(out.subrange(vs2, close2) == enc) by {
            assert(out.subrange(vs2, close2) =~= out.subrange(o, o + piece.len()).subrange(
                n,
                n + enc.len(),
            ));
            assert(piece.subrange(n, n + enc.len()) =~= enc);
        }
        assert(out[close2] == q) by {
            assert(out[close2] == out.subrange(o, o + piece.len())[n + enc.len()]);
        }
        assert forall|m: int| vs2 <= m < close2 implies out[m] != q by {
            assert(out[m] == out.subrange(vs2, close2)[m - vs2]);
            assert(!enc.contains(q));
        }
        lemma_find_byte_at(out, vs2, close2, q);
        assert(sp2.end == close2 + 1);
        assert(sp2.end == o + piece.len());
    } else {
        assert(piece == s.subrange(p, sp.end));
        let close = find_byte(s, vs, q);
        lemma_find_byte(s, vs, q);
        let m = sp.end - vs;
        assert(s.subrange(vs, sp.end) == out.subrange(vs2, vs2 + m)) by {
            assert(s.subrange(vs, sp.end) =~= piece.subrange(n, piece.len() as int));
            assert(out.subrange(vs2, vs2 + m) =~= out.subrange(o, o + piece.len()).subrange(
                n,
                piece.len() as int,
            ));
        }
        lemma_find_byte_window(s, vs, out, vs2, m, q);
        if close < s.len() {
            assert(sp2.end == close + 1 + d);
        } else {
            assert(sp2.end == out.len());
        }
    }
}

/// Each attribute found is one that `span_at` reads where it starts, and the
/// trailing text is white space only.
proof fn lemma_spans_are_spans(s: Seq<u8>, p: int)
    requires
        0 <= p <= s.len(),
        scan_ok_from(s, p),
    ensures
        forall|i: int|
            0 <= i < spans_from(s, p).len() ==> {
                let sp = #[trigger] spans_from(s, p)[i];
                &&& 0 <= sp.start <= s.len()
                &&& span_ok(s, sp.start)
                &&& !only_space_from(s, sp.start)
                &&& sp == span_at(s, sp.start)
            },
        only_space_from(s, trailing_from(s, p)),
    decreases s.len() - p,
{
    if !only_space_from(s, p) {
        lemma_span_at(s, p);
        let sp = span_at(s, p);
        lemma_spans_are_spans(s, sp.end);
        let rest = spans_from(s, sp.end);
        assert(spans_from(s, p) == seq![sp] + rest);
        assert forall|i: int| 0 <= i < spans_from(s, p).len() implies {
            let x = #[trigger] spans_from(s, p)[i];
            &&& 0 <= x.start <= s.len()
            &&& span_ok(s, x.start)
            &&& !only_space_from(s, x.start)
            &&& x == span_at(s, x.start)
        } by {
            if i > 0 {
                assert(spans_from(s, p)[i] == rest[i - 1]);
            }
        }
    }
}

/// What is written for the first `i` attributes of the list `s`.
pub open spec fn written_prefix(
    s: Seq<u8>,
    mapped: Seq<bool>,
    values: Seq<Option<Seq<char>>>,
    i: int,
) -> Seq<u8> {
    render_slots(attributes_model(s, mapped).slots.take(i), values)
}

proof fn lemma_written_prefix_step(
    s: Seq<u8>,
    mapped: Seq<bool>,
    values: Seq<Option<Seq<char>>>,
    i: int,
)
    requires
        0 <= i < attr_spans(s).len(),
    ensures
        written_prefix(s, mapped, values, i + 1) == written_prefix(s, mapped, values, i)
            + render_slot(slot_model(s, attr_spans(s)[i], mapped[i]), values[i]),
{
    let slots = attributes_model(s, mapped).slots;
    let p = slots.take(i + 1);
    assert(p.drop_last() =~= slots.take(i));
    assert(p.last() == slot_model(s, attr_spans(s)[i], mapped[i]));
}

proof fn lemma_written_prefix_grows(
    s: Seq<u8>,
    mapped: Seq<bool>,
    values: Seq<Option<Seq<char>>>,
    i: int,
    k: int,
)
    requires
        0 <= i <= k <= attr_spans(s).len(),
    ensures
        written_prefix(s, mapped, values, i).len() <= written_prefix(s, mapped, values, k).len(),
        written_prefix(s, mapped, values, k).take(written_prefix(s, mapped, values, i).len() as int)
            == written_prefix(s, mapped, values, i),
    decreases k - i,
{
    if i < k {
        lemma_written_prefix_grows(s, mapped, values, i, k - 1);
        lemma_written_prefix_step(s, mapped, values, k - 1);
        let a = written_prefix(s, mapped, values, i);
        let b = written_prefix(s, mapped, values, k - 1);
        let c = written_prefix(s, mapped, values, k);
        assert(c.take(a.len() as int) =~= b.take(a.len() as int));
    } else {
        let a = written_prefix(s, mapped, values, i);
        assert(a.take(a.len() as int) =~= a);
    }
}

/// The conditions under which written attributes are read back.
pub open spec fn writes_back(s: Seq<u8>, mapped: Seq<bool>, values: Seq<Option<Seq<char>>>) -> bool {
    &&& attrs_well_formed(s)
    &&& mapped.len() == attr_spans(s).len()
    &&& values.len() == attr_spans(s).len()
    &&& forall|i: int|
        0 <= i < mapped.len() && #[trigger] mapped[i] ==> values[i] is Some
            && is_quote(attr_spans(s)[i].quote)
}

/// Where attribute `i` is written in the output, and that, when it is kept raw
/// and runs to the end of the input, it also ends the output.
#[verifier::rlimit(50)]
#[verifier::spinoff_prover]
proof fn lemma_piece_in_out(s: Seq<u8>, mapped: Seq<bool>, values: Seq<Option<Seq<char>>>, i: int)
    requires
        writes_back(s, mapped, values),
        0 <= i < attr_spans(s).len(),
    ensures
        ({
            let out = render_attributes(attributes_model(s, mapped), values);
            let sp = attr_spans(s)[i];
            let piece = render_slot(slot_model(s, sp, mapped[i]), values[i]);
            let o = written_prefix(s, mapped, values, i).len() as int;
            let o1 = written_prefix(s, mapped, values, i + 1).len() as int;
            &&& o1 == o + piece.len()
            &&& o1 <= out.len()
            &&& out.subrange(o, o1) == piece
            &&& (!mapped[i] && find_byte(s, sp.value_start, sp.quote) == s.len() ==> o1
                == out.len())
            &&& 0 <= sp.start <= s.len()
            &&& span_ok(s, sp.start)
            &&& sp == span_at(s, sp.start)
        }),
{
    let model = attributes_model(s, mapped);
    let out = render_attributes(model, values);
    let sps = attr_spans(s);
    let n = sps.len() as int;
    let t = trailing_from(s, 0);
    let whole = written_prefix(s, mapped, values, n);
    assert(model.slots.take(n) =~= model.slots);
    assert(out == whole + s.subrange(t, s.len() as int));
    lemma_spans_layout(s, 0);
    lemma_spans_are_spans(s, 0);
    let sp = sps[i];
    let piece = render_slot(slot_model(s, sp, mapped[i]), values[i]);
    let o = written_prefix(s, mapped, values, i).len() as int;
    lemma_written_prefix_step(s, mapped, values, i);
    lemma_written_prefix_grows(s, mapped, values, i + 1, n);
    let o1 = written_prefix(s, mapped, values, i + 1).len() as int;
    assert(out.subrange(o, o1) == piece) by {
        let w1 = written_prefix(s, mapped, values, i + 1);
        assert(out.subrange(o, o1) =~= w1.subrange(o, o1));
    }
    if !mapped[i] && find_byte(s, sp.value_start, sp.quote) == s.len() {
        assert(sp.end == s.len());
        if i + 1 < n {
            assert(sps[i + 1].start == sp.end);
            assert(sps[i + 1].start < sps[i + 1].end);
        }
        assert(t == s.len());
        assert(i + 1 == n);
    }
}

/// Reading the written list again from where attribute `i` was written finds
/// the remaining attributes where they were written.
proof fn lemma_rescan(s: Seq<u8>, mapped: Seq<bool>, values: Seq<Option<Seq<char>>>, i: int)
    requires
        writes_back(s, mapped, values),
        0 <= i <= attr_spans(s).len(),
    ensures
        ({
            let out = render_attributes(attributes_model(s, mapped), values);
            let n = attr_spans(s).len() as int;
            let o = written_prefix(s, mapped, values, i).len() as int;
            &&& scan_ok_from(out, o)
            &&& spans_from(out, o).len() == n - i
            &&& forall|j: int|
                0 <= j < n - i ==> #[trigger] spans_from(out, o)[j] == span_at(
                    out,
                    written_prefix(s, mapped, values, i + j).len() as int,
                )
            &&& trailing_from(out, o) == written_prefix(s, mapped, values, n).len()
        }),
    decreases attr_spans(s).len() - i,
{
    let model = attributes_model(s, mapped);
    let out = render_attributes(model, values);
    let sps = attr_spans(s);
    let n = sps.len() as int;
    let t = trailing_from(s, 0);
    let whole = written_prefix(s, mapped, values, n);
    assert(model.slots.take(n) =~= model.slots);
    assert(out == whole + s.subrange(t, s.len() as int));
    lemma_spans_layout(s, 0);
    lemma_spans_are_spans(s, 0);
    let o = written_prefix(s, mapped, values, i).len() as int;
    lemma_written_prefix_grows(s, mapped, values, i, n);
    if i == n {
        // Only the trailing white space is left.
        let rest = s.subrange(t, s.len() as int);
        assert(out.subrange(o, out.len() as int) == rest);
        lemma_skip_space_window(s, t, out, o, rest.len() as int);
        lemma_skip_space(out, o);
        assert(only_space_from(out, o));
        assert(spans_from(out, o) =~= Seq::<AttrSpan>::empty());
    } else {
        let sp = sps[i];
        let o1 = written_prefix(s, mapped, values, i + 1).len() as int;
        lemma_piece_in_out(s, mapped, values, i);
        lemma_piece_span(s, sp.start, mapped[i], values[i], out, o);
        lemma_rescan(s, mapped, values, i + 1);
        let sp2 = span_at(out, o);
        assert(sp2.end == o1);
        let rest = spans_from(out, o1);
        assert(spans_from(out, o) == seq![sp2] + rest);
        assert forall|j: int| 0 <= j < n - i implies #[trigger] spans_from(out, o)[j] == span_at(
            out,
            written_prefix(s, mapped, values, i + j).len() as int,
        ) by {
            if j > 0 {
                assert(spans_from(out, o)[j] == rest[j - 1]);
                assert(i + 1 + (j - 1) == i + j);
            }
        }
    }
}

/// One attribute read back from the written list is kept as it was read first.
proof fn lemma_slot_read_back(
    s: Seq<u8>,
    mapped: Seq<bool>,
    values: Seq<Option<Seq<char>>>,
    i: int,
)
    requires
        writes_back(s, mapped, values),
        0 <= i < attr_spans(s).len(),
    ensures
        ({
            let out = render_attributes(attributes_model(s, mapped), values);
            let sp2 = span_at(out, written_prefix(s, mapped, values, i).len() as int);
            let sp = attr_spans(s)[i];
            &&& slot_model(out, sp2, mapped[i]) == slot_model(s, sp, mapped[i])
            &&& mapped[i] ==> out.subrange(sp2.value_start, sp2.end - 1) == encode_utf8(
                escape_chars(values[i]->0, quote_char(sp.quote)),
            )
        }),
{
    let out = render_attributes(attributes_model(s, mapped), values);
    let sp = attr_spans(s)[i];
    let o = written_prefix(s, mapped, values, i).len() as int;
    lemma_piece_in_out(s, mapped, values, i);
    lemma_piece_span(s, sp.start, mapped[i], values[i], out, o);
    let sp2 = span_at(out, o);
    let head2 = out.subrange(o, sp2.value_start);
    let head = s.subrange(sp.start, sp.value_start);
    assert(out.subrange(sp2.key_start, sp2.key_end) == s.subrange(sp.key_start, sp.key_end)) by {
        lemma_span_at(s, sp.start);
        assert(out.subrange(sp2.key_start, sp2.key_end) =~= head2.subrange(
            sp2.key_start - o,
            sp2.key_end - o,
        ));
        assert(s.subrange(sp.key_start, sp.key_end) =~= head.subrange(
            sp.key_start - sp.start,
            sp.key_end - sp.start,
        ));
    }
}

/// Writing an attribute list and reading what was written again gives the same
/// attributes: each mapped attribute is `Defined` with the same name, text before
/// its value and quote, each other one is `Raw` with the same text, and the
/// trailing white space is the same. The value text of a mapped attribute is its
/// value escaped for its quote, so it reads back as that value. This holds when
/// every mapped attribute is given a value and was opened with `"` or `'`.
pub proof fn lemma_written_attributes_read_back(
    s: Seq<u8>,
    mapped: Seq<bool>,
    values: Seq<Option<Seq<char>>>,
)
    requires
        writes_back(s, mapped, values),
    ensures
        ({
            let out = render_attributes(attributes_model(s, mapped), values);
            &&& attrs_well_formed(out)
            &&& attr_spans(out).len() == attr_spans(s).len()
            &&& attributes_model(out, mapped) == attributes_model(s, mapped)
            &&& forall|i: int|
                0 <= i < mapped.len() && #[trigger] mapped[i] ==> out.subrange(
                    attr_spans(out)[i].value_start,
                    attr_spans(out)[i].end - 1,
                ) == encode_utf8(escape_chars(values[i]->0, quote_char(attr_spans(s)[i].quote)))
            &&& forall|i: int|
                0 <= i < mapped.len() && #[trigger] mapped[i]
                    ==> span_value(out, attr_spans(out)[i]) == values[i]->0
        }),
{
    let model = attributes_model(s, mapped);
    let out = render_attributes(model, values);
    let sps = attr_spans(s);
    let n = sps.len() as int;
    let t = trailing_from(s, 0);
    lemma_rescan(s, mapped, values, 0);
    assert(model.slots.take(0) =~= Seq::<crate::attr_scanner::AttrSlotView>::empty());
    assert(written_prefix(s, mapped, values, 0).len() == 0);
    let osps = attr_spans(out);
    assert(osps.len() == n);
    assert forall|i: int| 0 <= i < n implies #[trigger] osps[i] == span_at(
        out,
        written_prefix(s, mapped, values, i).len() as int,
    ) by {
        assert(0 + i == i);
    }
    let model2 = attributes_model(out, mapped);
    assert forall|i: int| 0 <= i < n implies model2.slots[i] == model.slots[i] by {
        lemma_slot_read_back(s, mapped, values, i);
    }
    assert(model2.slots =~= model.slots);
    // The trailing white space.
    let whole = written_prefix(s, mapped, values, n);
    assert(model.slots.take(n) =~= model.slots);
    assert(out == whole + s.subrange(t, s.len() as int));
    assert(trailing_from(out, 0) == whole.len());
    assert(out.subrange(whole.len() as int, out.len() as int) =~= s.subrange(t, s.len() as int));
    assert(model2 == model);
    assert forall|i: int| 0 <= i < mapped.len() && #[trigger] mapped[i] implies out.subrange(
        osps[i].value_start,
        osps[i].end - 1,
    ) == encode_utf8(escape_chars(values[i]->0, quote_char(sps[i].quote))) by {
        lemma_slot_read_back(s, mapped, values, i);
    }
    assert forall|i: int| 0 <= i < mapped.len() && #[trigger] mapped[i] implies span_value(
        out,
        osps[i],
    ) == values[i]->0 by {
        lemma_slot_read_back(s, mapped, values, i);
        lemma_escaped_value_reads_back(values[i]->0, quote_char(sps[i].quote));
    }
}

} // verus!
