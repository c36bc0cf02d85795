use vstd::prelude::*;
use vstd::std_specs::iter::IteratorSpec;
use vstd::utf8::{decode_utf8, encode_utf8, encode_utf8_decode_utf8, encode_utf8_valid_utf8, valid_utf8};

verus! {

/// What `String::from_utf8_lossy` makes of a byte string: its UTF-8 decoding,
/// with each invalid sequence replaced by U+FFFD.
pub uninterp spec fn utf8_lossy(bytes: Seq<u8>) -> Seq<char>;

/// Decodes bytes as UTF-8, replacing invalid sequences.
///
/// Trusted: calls `String::from_utf8_lossy`. The contract claims that the result is
/// the named decoding of the bytes, and, as the std documentation says, that valid
/// UTF-8 decodes to exactly the characters it encodes.
#[verifier::external_body]
fn decode_lossy(bytes: &[u8]) -> (s: String)
    ensures
        s@ == utf8_lossy(bytes@),
        valid_utf8(bytes@) ==> s@ == decode_utf8(bytes@),
{
    String::from_utf8_lossy(bytes).into_owned()
}

/// Appends one character to a string.
///
/// Trusted: calls `String::push`, which appends `c` to the end of the string;
/// the contract states exactly that of the characters the string holds.
#[verifier::external_body]
pub(crate) fn push_char(s: &mut String, c: char)
    ensures
        final(s)@ == old(s)@.push(c),
{
    s.push(c)
}

/// The characters of a string slice, in order.
pub fn chars_of(s: &str) -> (v: Vec<char>)
    ensures
        v@ == s@,
{
    let mut v: Vec<char> = Vec::new();
    let mut it = s.chars();
    loop
        invariant
            it.remaining() == s@.skip(v@.len() as int),
            v@ == s@.take(v@.len() as int),
            v@.len() <= s@.len(),
        ensures
            v@ == s@,
        decreases s@.len() - v@.len(),
    {
        match it.next() {
            Some(c) => {
                v.push(c);
            },
            None => {
                break ;
            },
        }
    }
    v
}

/// A string holding the given characters.
pub fn string_from_chars(v: &Vec<char>) -> (s: String)
    ensures
        s@ == v@,
{
    let mut s = String::new();
    let mut i: usize = 0;
    while i < v.len()
        invariant
            i <= v@.len(),
            s@ == v@.take(i as int),
        decreases v@.len() - i,
    {
        push_char(&mut s, v[i]);
        i = i + 1;
        assert(s@ =~= v@.take(i as int));
    }
    assert(v@.take(v@.len() as int) =~= v@);
    s
}

/// The entity `&amp;`.
pub open spec fn amp_entity() -> Seq<char> {
    seq!['&', 'a', 'm', 'p', ';']
}

/// The entity `&lt;`.
pub open spec fn lt_entity() -> Seq<char> {
    seq!['&', 'l', 't', ';']
}

/// The entity `&gt;`.
pub open spec fn gt_entity() -> Seq<char> {
    seq!['&', 'g', 't', ';']
}

/// The entity `&quot;`.
pub open spec fn quot_entity() -> Seq<char> {
    seq!['&', 'q', 'u', 'o', 't', ';']
}

/// The entity `&apos;`.
pub open spec fn apos_entity() -> Seq<char> {
    seq!['&', 'a', 'p', 'o', 's', ';']
}


/// Whether `s` begins with `w`.
pub open spec fn starts_with(s: Seq<char>, w: Seq<char>) -> bool {
    w.len() <= s.len() && s.take(w.len() as int) == w
}

/// The five predefined entities `&amp;`, `&lt;`, `&gt;`, `&quot;` and `&apos;`
/// resolved, each where it stands, from left to right: what an entity resolves
/// to is not read again.
pub open spec fn unescape_chars(s: Seq<char>) -> Seq<char>
    decreases s.len(),
{
    if s.len() == 0 {
        s
    } else if starts_with(s, amp_entity()) {
        seq!['&'] + unescape_chars(s.skip(5))
    } else if starts_with(s, lt_entity()) {
        seq!['<'] + unescape_chars(s.skip(4))
    } else if starts_with(s, gt_entity()) {
        seq!['>'] + unescape_chars(s.skip(4))
    } else if starts_with(s, quot_entity()) {
        seq!['"'] + unescape_chars(s.skip(6))
    } else if starts_with(s, apos_entity()) {
        seq!['\''] + unescape_chars(s.skip(6))
    } else {
        seq![s[0]] + unescape_chars(s.skip(1))
    }
}

/// The text of the given bytes as `String::from_utf8_lossy` reads them: the
/// characters they encode when they are valid UTF-8.
pub open spec fn decoded_text(bytes: Seq<u8>) -> Seq<char> {
    if valid_utf8(bytes) {
        decode_utf8(bytes)
    } else {
        utf8_lossy(bytes)
    }
}

/// What `unescape_xml` returns for the given bytes.
pub open spec fn spec_unescape_xml(input: Seq<u8>) -> Seq<char> {
    unescape_chars(decoded_text(input))
}

/// The quote that `escape_xml` picks: `'` when the text holds `"`, else `"`.
pub open spec fn escape_quote(s: Seq<char>) -> char {
    if s.contains('"') {
        '\''
    } else {
        '"'
    }
}

/// How one character is written inside a value quoted by `quote`.
pub open spec fn escape_char(c: char, quote: char) -> Seq<char> {
    if c == '&' {
        amp_entity()
    } else if c == '<' {
        lt_entity()
    } else if c == '>' {
        gt_entity()
    } else if c == '"' && quote == '"' {
        quot_entity()
    } else if c == '\'' && quote == '\'' {
        apos_entity()
    } else {
        seq![c]
    }
}

/// Each character of `s` written as `escape_char` says.
pub open spec fn escape_chars(s: Seq<char>, quote: char) -> Seq<char>
    decreases s.len(),
{
    if s.len() == 0 {
        seq![]
    } else {
        escape_chars(s.drop_last(), quote) + escape_char(s.last(), quote)
    }
}

/// Whether `pat` occurs in `s` at position `i`.
fn occurs_at(s: &Vec<char>, i: usize, pat: &Vec<char>) -> (r: bool)
    requires
        i + pat@.len() <= s@.len(),
    ensures
        r == (s@.skip(i as int).take(pat@.len() as int) == pat@),
{
    let mut j: usize = 0;
    let n = s.len();
    while j < pat.len()
        invariant
            n == s@.len(),
            j <= pat@.len(),
            i + pat@.len() <= s@.len(),
            forall|k: int| 0 <= k < j ==> s@[i + k] == pat@[k],
        decreases pat@.len() - j,
    {
        assert(i + j < s@.len());
        if s[i + j] != pat[j] {
            assert(s@.skip(i as int).take(pat@.len() as int)[j as int] != pat@[j as int]);
            return false;
        }
        j = j + 1;
    }
    assert(s@.skip(i as int).take(pat@.len() as int) =~= pat@);
    true
}


/// Whether `s` holds `pat` at position `i` (with room for it).
fn entity_at(s: &Vec<char>, i: usize, pat: &Vec<char>) -> (r: bool)
    requires
        i <= s@.len(),
    ensures
        r == starts_with(s@.skip(i as int), pat@),
{
    if pat.len() > s.len() - i {
        return false;
    }
    let r = occurs_at(s, i, pat);
    assert(s@.skip(i as int).take(pat@.len() as int) =~= s@.skip(i as int).take(pat@.len() as int));
    r
}

/// Decodes an attribute value: the bytes are read as UTF-8 (invalid sequences
/// become U+FFFD) and each of the entities `&amp;`, `&lt;`, `&gt;`, `&quot;`,
/// `&apos;` is resolved where it stands; what an entity resolves to is not read
/// again.
pub fn unescape_xml(input: &[u8]) -> (r: String)
    ensures
        r@ == spec_unescape_xml(input@),
{
    proof {
        reveal_strlit("&amp;");
        reveal_strlit("&lt;");
        reveal_strlit("&gt;");
        reveal_strlit("&quot;");
        reveal_strlit("&apos;");
        assert("&amp;"@ =~= amp_entity());
        assert("&lt;"@ =~= lt_entity());
        assert("&gt;"@ =~= gt_entity());
        assert("&quot;"@ =~= quot_entity());
        assert("&apos;"@ =~= apos_entity());
    }
    let text = decode_lossy(input);
    let s = chars_of(text.as_str());
    let amp = chars_of("&amp;");
    let lt = chars_of("&lt;");
    let gt = chars_of("&gt;");
    let quot = chars_of("&quot;");
    let apos = chars_of("&apos;");
    let mut out: Vec<char> = Vec::new();
    let mut i: usize = 0;
    let n = s.len();
    assert(s@.skip(0) =~= s@);
    while i < n
        invariant
            n == s@.len(),
            i <= n,
            amp@ == amp_entity(),
            lt@ == lt_entity(),
            gt@ == gt_entity(),
            quot@ == quot_entity(),
            apos@ == apos_entity(),
            out@ + unescape_chars(s@.skip(i as int)) == unescape_chars(s@),
        decreases n - i,
    {
        let ghost rest = s@.skip(i as int);
        let ghost before = out@;
        let step: usize;
        if entity_at(&s, i, &amp) {
            out.push('&');
            step = 5;
        } else if entity_at(&s, i, &lt) {
            out.push('<');
            step = 4;
        } else if entity_at(&s, i, &gt) {
            out.push('>');
            step = 4;
        } else if entity_at(&s, i, &quot) {
            out.push('"');
            step = 6;
        } else if entity_at(&s, i, &apos) {
            out.push('\'');
            step = 6;
        } else {
            assert(rest[0] == s@[i as int]);
            out.push(s[i]);
            step = 1;
        }
        assert(rest.skip(step as int) =~= s@.skip(i + step));
        assert(unescape_chars(rest) == out@.skip(before.len() as int) + unescape_chars(rest.skip(step as int))) by {
            assert(out@.skip(before.len() as int) =~= seq![out@.last()]);
        }
        assert(out@ =~= before + out@.skip(before.len() as int));
        i = i + step;
    }
    assert(s@.skip(n as int) =~= Seq::<char>::empty());
    assert(out@ + unescape_chars(s@.skip(n as int)) =~= out@);
    string_from_chars(&out)
}

/// Appends the characters of `text` to `out`.
fn push_str_chars(out: &mut Vec<char>, text: &str)
    ensures
        final(out)@ == old(out)@ + text@,
{
    let mut more = chars_of(text);
    out.append(&mut more);
}

/// Whether `s` holds the character `c`.
fn holds_char(s: &Vec<char>, c: char) -> (r: bool)
    ensures
        r == s@.contains(c),
{
    let mut i: usize = 0;
    while i < s.len()
        invariant
            i <= s@.len(),
            forall|k: int| 0 <= k < i ==> s@[k] != c,
        decreases s@.len() - i,
    {
        if s[i] == c {
            return true;
        }
        i = i + 1;
    }
    false
}


/// The text escaped for a value closed by `quote`: `&`, `<` and `>` always become
/// entities, and so does `quote` where it is `"` or `'`; every other character
/// is kept.
pub fn escape_with_quote(input: &str, quote: char) -> (r: String)
    ensures
        r@ == escape_chars(input@, quote),
{
    proof {
        reveal_strlit("&amp;");
        reveal_strlit("&lt;");
        reveal_strlit("&gt;");
        reveal_strlit("&quot;");
        reveal_strlit("&apos;");
        assert("&amp;"@ =~= amp_entity());
        assert("&lt;"@ =~= lt_entity());
        assert("&gt;"@ =~= gt_entity());
        assert("&quot;"@ =~= quot_entity());
        assert("&apos;"@ =~= apos_entity());
    }
    let s = chars_of(input);
    let mut out: Vec<char> = Vec::new();
    let mut i: usize = 0;
    while i < s.len()
        invariant
            i <= s@.len(),
            out@ == escape_chars(s@.take(i as int), quote),
            "&amp;"@ == amp_entity(),
            "&lt;"@ == lt_entity(),
            "&gt;"@ == gt_entity(),
            "&quot;"@ == quot_entity(),
            "&apos;"@ == apos_entity(),
        decreases s@.len() - i,
    {
        let c = s[i];
        if c == '&' {
            push_str_chars(&mut out, "&amp;");
        } else if c == '<' {
            push_str_chars(&mut out, "&lt;");
        } else if c == '>' {
            push_str_chars(&mut out, "&gt;");
        } else if c == '"' && quote == '"' {
            push_str_chars(&mut out, "&quot;");
        } else if c == '\'' && quote == '\'' {
            push_str_chars(&mut out, "&apos;");
        } else {
            out.push(c);
        }
        proof {
            let prefix = s@.take(i + 1);
            assert(prefix.drop_last() =~= s@.take(i as int));
            assert(prefix.last() == c);
            assert(escape_chars(prefix, quote) == escape_chars(s@.take(i as int), quote)
                + escape_char(c, quote));
        }
        i = i + 1;
    }
    assert(s@.take(s@.len() as int) =~= s@);
    string_from_chars(&out)
}

/// Escapes text for use as an attribute value. The quote returned is `'` when the
/// text holds `"`, else `"`; `&`, `<` and `>` always become entities, and so does
/// the chosen quote character where it occurs; every other character is kept.
pub fn escape_xml(input: &str) -> (r: (String, char))
    ensures
        r.1 == escape_quote(input@),
        r.0@ == escape_chars(input@, r.1),
{
    let s = chars_of(input);
    let quote = if holds_char(&s, '"') {
        '\''
    } else {
        '"'
    };
    (escape_with_quote(input, quote), quote)
}

/// Escaped text starts with the escaped first character.
proof fn lemma_escape_front(s: Seq<char>, q: char)
    requires
        s.len() > 0,
    ensures
        escape_chars(s, q) == escape_char(s[0], q) + escape_chars(s.skip(1), q),
    decreases s.len(),
{
    if s.len() == 1 {
        assert(s.drop_last() =~= Seq::<char>::empty());
        assert(s.skip(1) =~= Seq::<char>::empty());
        assert(escape_chars(Seq::<char>::empty(), q) =~= Seq::<char>::empty());
        assert(escape_chars(s, q) =~= escape_char(s[0], q));
        assert(escape_char(s[0], q) + Seq::<char>::empty() =~= escape_char(s[0], q));
    } else {
        lemma_escape_front(s.drop_last(), q);
        assert(s.drop_last().skip(1) =~= s.skip(1).drop_last());
        assert(s.skip(1).last() == s.last());
        assert(escape_chars(s.skip(1), q) == escape_chars(s.skip(1).drop_last(), q)
            + escape_char(s.skip(1).last(), q));
        assert(escape_chars(s, q) =~= escape_char(s[0], q) + escape_chars(s.skip(1), q));
    }
}

/// Unescaping a written character, whatever follows it, gives the character back
/// and goes on after it.
proof fn lemma_unescape_piece(c: char, q: char, rest: Seq<char>)
    ensures
        unescape_chars(escape_char(c, q) + rest) == seq![c] + unescape_chars(rest),
{
    let e = escape_char(c, q);
    let t = e + rest;
    if c == '&' {
        assert(t.take(5) =~= amp_entity());
        assert(t.skip(5) =~= rest);
    } else if c == '<' {
        assert(t.take(4) =~= lt_entity());
        assert(t.skip(4) =~= rest);
        assert(!starts_with(t, amp_entity())) by {
            if starts_with(t, amp_entity()) {
                assert(t.take(5)[1] == amp_entity()[1]);
            }
        }
    } else if c == '>' {
        assert(t.take(4) =~= gt_entity());
        assert(t.skip(4) =~= rest);
        assert(!starts_with(t, amp_entity())) by {
            if starts_with(t, amp_entity()) {
                assert(t.take(5)[1] == amp_entity()[1]);
            }
        }
        assert(!starts_with(t, lt_entity())) by {
            if starts_with(t, lt_entity()) {
                assert(t.take(4)[1] == lt_entity()[1]);
            }
        }
    } else if c == '"' && q == '"' {
        assert(t.take(6) =~= quot_entity());
        assert(t.skip(6) =~= rest);
        assert(!starts_with(t, amp_entity())) by {
            if starts_with(t, amp_entity()) {
                assert(t.take(5)[1] == amp_entity()[1]);
            }
        }
        assert(!starts_with(t, lt_entity())) by {
            if starts_with(t, lt_entity()) {
                assert(t.take(4)[1] == lt_entity()[1]);
            }
        }
        assert(!starts_with(t, gt_entity())) by {
            if starts_with(t, gt_entity()) {
                assert(t.take(4)[1] == gt_entity()[1]);
            }
        }
    } else if c == '\'' && q == '\'' {
        assert(t.take(6) =~= apos_entity());
        assert(t.skip(6) =~= rest);
        assert(!starts_with(t, amp_entity())) by {
            if starts_with(t, amp_entity()) {
                assert(t.take(5)[2] == amp_entity()[2]);
            }
        }
        assert(!starts_with(t, lt_entity())) by {
            if starts_with(t, lt_entity()) {
                assert(t.take(4)[1] == lt_entity()[1]);
            }
        }
        assert(!starts_with(t, gt_entity())) by {
            if starts_with(t, gt_entity()) {
                assert(t.take(4)[1] == gt_entity()[1]);
            }
        }
        assert(!starts_with(t, quot_entity())) by {
            if starts_with(t, quot_entity()) {
                assert(t.take(6)[1] == quot_entity()[1]);
            }
        }
    } else {
        assert(e =~= seq![c]);
        assert(t[0] == c);
        assert(t.skip(1) =~= rest);
        assert(!starts_with(t, amp_entity())) by {
            if starts_with(t, amp_entity()) {
                assert(t.take(5)[0] == amp_entity()[0]);
            }
        }
        assert(!starts_with(t, lt_entity())) by {
            if starts_with(t, lt_entity()) {
                assert(t.take(4)[0] == lt_entity()[0]);
            }
        }
        assert(!starts_with(t, gt_entity())) by {
            if starts_with(t, gt_entity()) {
                assert(t.take(4)[0] == gt_entity()[0]);
            }
        }
        assert(!starts_with(t, quot_entity())) by {
            if starts_with(t, quot_entity()) {
                assert(t.take(6)[0] == quot_entity()[0]);
            }
        }
        assert(!starts_with(t, apos_entity())) by {
            if starts_with(t, apos_entity()) {
                assert(t.take(6)[0] == apos_entity()[0]);
            }
        }
    }
}

/// Unescaping gives back escaped text, whatever the text and the quote.
pub proof fn lemma_unescape_escape(s: Seq<char>, q: char)
    ensures
        unescape_chars(escape_chars(s, q)) == s,
    decreases s.len(),
{
    if s.len() == 0 {
        assert(escape_chars(s, q) =~= Seq::<char>::empty());
    } else {
        lemma_escape_front(s, q);
        lemma_unescape_piece(s[0], q, escape_chars(s.skip(1), q));
        lemma_unescape_escape(s.skip(1), q);
        assert(seq![s[0]] + s.skip(1) =~= s);
    }
}

/// Text escaped for a value closed by `"` or `'` never holds that quote, so the
/// quote closes the value.
pub proof fn lemma_escape_avoids_quote(s: Seq<char>, q: char)
    requires
        q == '"' || q == '\'',
    ensures
        !escape_chars(s, q).contains(q),
{
    lemma_escape_avoids_quote_prefix(s, q, s.len() as int);
    assert(s.take(s.len() as int) =~= s);
}

proof fn lemma_escape_avoids_quote_prefix(s: Seq<char>, q: char, n: int)
    requires
        q == '"' || q == '\'',
        0 <= n <= s.len(),
    ensures
        !escape_chars(s.take(n), q).contains(q),
    decreases n,
{
    if n > 0 {
        lemma_escape_avoids_quote_prefix(s, q, n - 1);
        let p = s.take(n);
        assert(p.drop_last() =~= s.take(n - 1));
        let c = p.last();
        let e = escape_char(c, q);
        assert(!e.contains(q));
        let whole = escape_chars(p, q);
        assert(whole == escape_chars(s.take(n - 1), q) + e);
        assert forall|i: int| 0 <= i < whole.len() implies whole[i] != q by {
            if i < escape_chars(s.take(n - 1), q).len() {
                assert(whole[i] == escape_chars(s.take(n - 1), q)[i]);
            } else {
                assert(whole[i] == e[i - escape_chars(s.take(n - 1), q).len()]);
            }
        }
    } else {
        assert(escape_chars(s.take(0), q) =~= Seq::<char>::empty());
    }
}

/// A value escaped for any quote and read back by `unescape_xml` is the value
/// itself.
pub proof fn lemma_escaped_value_reads_back(v: Seq<char>, q: char)
    ensures
        spec_unescape_xml(encode_utf8(escape_chars(v, q))) == v,
{
    let e = escape_chars(v, q);
    encode_utf8_valid_utf8(e);
    encode_utf8_decode_utf8(e);
    lemma_unescape_escape(v, q);
}

/// Whether `t` starts with one of the five entities.
pub open spec fn starts_with_entity(t: Seq<char>) -> bool {
    ||| starts_with(t, amp_entity())
    ||| starts_with(t, lt_entity())
    ||| starts_with(t, gt_entity())
    ||| starts_with(t, quot_entity())
    ||| starts_with(t, apos_entity())
}

/// Escaped text is well formed in an attribute value: it holds no `<` and no `>`,
/// and each `&` in it starts one of the five entities.
pub proof fn lemma_escape_well_formed(s: Seq<char>, q: char)
    ensures
        !escape_chars(s, q).contains('<'),
        !escape_chars(s, q).contains('>'),
        forall|i: int|
            0 <= i < escape_chars(s, q).len() && #[trigger] escape_chars(s, q)[i] == '&'
                ==> starts_with_entity(escape_chars(s, q).skip(i)),
    decreases s.len(),
{
    if s.len() > 0 {
        let a = escape_chars(s.drop_last(), q);
        let b = escape_char(s.last(), q);
        lemma_escape_well_formed(s.drop_last(), q);
        let e = escape_chars(s, q);
        assert(e == a + b);
        assert(!b.contains('<') && !b.contains('>'));
        assert forall|i: int| 0 <= i < e.len() implies e[i] != '<' && e[i] != '>' by {
            if i < a.len() {
                assert(e[i] == a[i]);
            } else {
                assert(e[i] == b[i - a.len()]);
            }
        }
        assert forall|i: int| 0 <= i < e.len() && #[trigger] e[i] == '&' implies starts_with_entity(e.skip(i)) by {
            if i < a.len() {
                assert(e[i] == a[i]);
                assert(starts_with_entity(a.skip(i)));
                lemma_entity_stays(a, b, i);
            } else {
                assert(e[i] == b[i - a.len()]);
                assert(i == a.len());
                assert(e.skip(i) =~= b);
                if s.last() == '&' {
                    assert(b.take(5) =~= amp_entity());
                } else if s.last() == '<' {
                    assert(b.take(4) =~= lt_entity());
                } else if s.last() == '>' {
                    assert(b.take(4) =~= gt_entity());
                } else if s.last() == '"' && q == '"' {
                    assert(b.take(6) =~= quot_entity());
                } else if s.last() == '\'' && q == '\'' {
                    assert(b.take(6) =~= apos_entity());
                } else {
                    assert(b[0] == s.last());
                }
            }
        }
    }
}

/// An entity that starts inside `a` still starts there once more text follows.
proof fn lemma_entity_stays(a: Seq<char>, b: Seq<char>, i: int)
    requires
        0 <= i < a.len(),
        starts_with_entity(a.skip(i)),
    ensures
        starts_with_entity((a + b).skip(i)),
{
    let t = a.skip(i);
    let u = (a + b).skip(i);
    assert forall|k: int| 0 <= k <= t.len() implies #[trigger] u.take(k) == t.take(k) by {
        assert(u.take(k) =~= t.take(k));
    }
    if starts_with(t, amp_entity()) {
        assert(u.take(5) == t.take(5));
    } else if starts_with(t, lt_entity()) {
        assert(u.take(4) == t.take(4));
    } else if starts_with(t, gt_entity()) {
        assert(u.take(4) == t.take(4));
    } else if starts_with(t, quot_entity()) {
        assert(u.take(6) == t.take(6));
    } else {
        assert(u.take(6) == t.take(6));
    }
}

/// Unescaping keeps a character that does not start an entity, and goes on after
/// it.
pub proof fn lemma_unescape_keeps_plain(s: Seq<char>)
    requires
        s.len() > 0,
        s[0] != '&',
    ensures
        unescape_chars(s) == seq![s[0]] + unescape_chars(s.skip(1)),
{
    assert(!starts_with(s, amp_entity())) by {
        if starts_with(s, amp_entity()) {
            assert(s.take(5)[0] == amp_entity()[0]);
        }
    }
    assert(!starts_with(s, lt_entity())) by {
        if starts_with(s, lt_entity()) {
            assert(s.take(4)[0] == lt_entity()[0]);
        }
    }
    assert(!starts_with(s, gt_entity())) by {
        if starts_with(s, gt_entity()) {
            assert(s.take(4)[0] == gt_entity()[0]);
        }
    }
    assert(!starts_with(s, quot_entity())) by {
        if starts_with(s, quot_entity()) {
            assert(s.take(6)[0] == quot_entity()[0]);
        }
    }
    assert(!starts_with(s, apos_entity())) by {
        if starts_with(s, apos_entity()) {
            assert(s.take(6)[0] == apos_entity()[0]);
        }
    }
}

/// Text without `&` is its own unescaping: every character is kept.
pub proof fn lemma_unescape_plain_text(s: Seq<char>)
    requires
        !s.contains('&'),
    ensures
        unescape_chars(s) == s,
    decreases s.len(),
{
    if s.len() > 0 {
        assert(s[0] != '&');
        lemma_unescape_keeps_plain(s);
        assert(!s.skip(1).contains('&')) by {
            assert forall|i: int| 0 <= i < s.skip(1).len() implies s.skip(1)[i] != '&' by {
                assert(s.skip(1)[i] == s[i + 1]);
            }
        }
        lemma_unescape_plain_text(s.skip(1));
        assert(seq![s[0]] + s.skip(1) =~= s);
    }
}

/// `unescape_xml` gives back valid UTF-8 text without `&` as the characters it
/// encodes.
pub proof fn lemma_unescape_xml_plain(input: Seq<u8>)
    requires
        valid_utf8(input),
        !decode_utf8(input).contains('&'),
    ensures
        spec_unescape_xml(input) == decode_utf8(input),
{
    lemma_unescape_plain_text(decode_utf8(input));
}

} // verus!
