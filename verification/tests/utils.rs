use preserve_xml::utils::escape_with_quote;
use preserve_xml::{escape_xml, unescape_xml};

#[test]
fn escape_empty() {
    assert_eq!(escape_xml(""), (String::new(), '"'));
}

#[test]
fn escape_markup_characters() {
    assert_eq!(escape_xml("a<b>&c"), ("a&lt;b&gt;&amp;c".to_string(), '"'));
}

#[test]
fn escape_picks_single_quote_when_double_quote_present() {
    assert_eq!(
        escape_xml("say \"hi\" it's"),
        ("say \"hi\" it&apos;s".to_string(), '\'')
    );
}

#[test]
fn escape_keeps_apostrophe_under_double_quote() {
    assert_eq!(escape_xml("it's"), ("it's".to_string(), '"'));
}

#[test]
fn escape_keeps_non_ascii() {
    assert_eq!(escape_xml("日本<"), ("日本&lt;".to_string(), '"'));
}

#[test]
fn unescape_all_entities() {
    assert_eq!(unescape_xml(b"a&lt;b&gt;c&amp;d&quot;e&apos;f"), "a<b>c&d\"e'f");
}

#[test]
fn unescape_resolves_each_entity_once() {
    // Each entity is resolved once: what it yields is not read again.
    assert_eq!(unescape_xml(b"&amp;lt;"), "&lt;");
    assert_eq!(unescape_xml(b"&amp;amp;"), "&amp;");
}

#[test]
fn unescape_keeps_unknown_entities() {
    assert_eq!(unescape_xml(b"&unknown; &lt"), "&unknown; &lt");
}

#[test]
fn unescape_replaces_invalid_utf8() {
    assert_eq!(unescape_xml(b"a\xffb"), "a\u{FFFD}b");
}

#[test]
fn unescape_decodes_utf8() {
    assert_eq!(unescape_xml("値&gt;".as_bytes()), "値>");
}

#[test]
fn escaped_value_reads_back() {
    for v in ["", "plain", "a<b & c>", "quote \" and ' apostrophe", "it's", "&amp; stays"] {
        let (escaped, _) = escape_xml(v);
        assert_eq!(unescape_xml(escaped.as_bytes()), v);
    }
}

#[test]
fn escaped_entity_text_reads_back() {
    let (escaped, _) = escape_xml("&lt;");
    assert_eq!(escaped, "&amp;lt;");
    assert_eq!(unescape_xml(escaped.as_bytes()), "&lt;");
}

#[test]
fn escaped_value_never_holds_its_quote() {
    for v in ["a\"b", "a'b", "\"'\"'", "none"] {
        let (escaped, quote) = escape_xml(v);
        assert!(!escaped.contains(quote));
    }
}

#[test]
fn escape_for_a_given_quote() {
    assert_eq!(escape_with_quote("a'b\"c", '\''), "a&apos;b\"c");
    assert_eq!(escape_with_quote("a'b\"c", '"'), "a'b&quot;c");
    assert_eq!(escape_with_quote("<&>", '<'), "&lt;&amp;&gt;");
}

#[test]
fn every_escaped_value_reads_back() {
    for v in ["&lt;", "&amp;amp;", "&quot;'\"", "x < y > z & w", ""] {
        for q in ['"', '\''] {
            assert_eq!(unescape_xml(escape_with_quote(v, q).as_bytes()), v);
        }
    }
}
