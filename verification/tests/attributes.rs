use preserve_xml::attr_scanner::attrs_ok;
use preserve_xml::{AttrSlot, Attributes};
use std::borrow::Cow;

fn raw(s: &[u8]) -> AttrSlot {
    AttrSlot::Raw(s.to_vec())
}

fn defined(prefix: &[u8], key: &[u8], quote: u8) -> AttrSlot {
    AttrSlot::Defined { prefix: prefix.to_vec(), key: key.to_vec(), quote }
}

fn write_back(attrs: &Attributes) -> Vec<u8> {
    let mut out = Vec::new();
    attrs.write(&mut out, |_| None);
    out
}

#[test]
fn empty_list() {
    let attrs = Attributes::new(b"", |_, _| false);
    assert!(attrs.slots.is_empty());
    assert!(attrs.trailing_space.is_empty());
}

#[test]
fn only_space() {
    let attrs = Attributes::new(b" \t\n", |_, _| false);
    assert!(attrs.slots.is_empty());
    assert_eq!(attrs.trailing_space, b" \t\n".to_vec());
}

#[test]
fn raw_attributes_are_split_with_their_leading_space() {
    let input = b" a=\"1\"  b='x y' ";
    let attrs = Attributes::new(input, |_, _| false);
    assert_eq!(attrs.slots, vec![raw(b" a=\"1\""), raw(b"  b='x y'")]);
    assert_eq!(attrs.trailing_space, b" ".to_vec());
}

#[test]
fn raw_attributes_are_written_back_unchanged() {
    let input = b" a=\"1\"  b='x y' \n";
    let attrs = Attributes::new(input, |_, _| false);
    assert_eq!(write_back(&attrs), input.to_vec());
}

#[test]
fn callback_gets_name_and_unescaped_value() {
    let input = b" value=\"foo\" other = 'b&amp;r'";
    let mut seen = Vec::new();
    let attrs = Attributes::new(input, |k, v| {
        seen.push((k.to_vec(), v));
        k == b"value"
    });
    assert_eq!(
        seen,
        vec![
            (b"value".to_vec(), "foo".to_string()),
            (b"other".to_vec(), "b&r".to_string())
        ]
    );
    assert_eq!(
        attrs.slots,
        vec![defined(b" value=\"", b"value", b'"'), raw(b" other = 'b&amp;r'")]
    );
    assert!(attrs.trailing_space.is_empty());
}

#[test]
fn unterminated_value_runs_to_the_end() {
    let mut seen = Vec::new();
    let attrs = Attributes::new(b" a=\"xyz", |k, v| {
        seen.push((k.to_vec(), v));
        false
    });
    // The value handed over leaves out the last byte of the attribute.
    assert_eq!(seen, vec![(b"a".to_vec(), "xy".to_string())]);
    assert_eq!(attrs.slots, vec![raw(b" a=\"xyz")]);
    assert!(attrs.trailing_space.is_empty());
}

#[test]
fn empty_name() {
    let mut seen = Vec::new();
    let attrs = Attributes::new(b"=\"v\"", |k, v| {
        seen.push((k.to_vec(), v));
        true
    });
    assert_eq!(seen, vec![(Vec::new(), "v".to_string())]);
    assert_eq!(attrs.slots, vec![defined(b"=\"", b"", b'"')]);
}

#[test]
fn any_byte_opens_a_value() {
    let mut seen = Vec::new();
    let attrs = Attributes::new(b"a=b c", |k, v| {
        seen.push((k.to_vec(), v));
        false
    });
    assert_eq!(seen, vec![(b"a".to_vec(), " ".to_string())]);
    assert_eq!(attrs.slots, vec![raw(b"a=b c")]);
}

#[test]
fn all_kinds_of_white_space() {
    let input = b"\n\ta\r\n=\n'1'\x0c";
    let attrs = Attributes::new(input, |_, _| true);
    assert_eq!(attrs.slots, vec![defined(b"\n\ta\r\n=\n'", b"a", b'\'')]);
    assert_eq!(attrs.trailing_space, b"\x0c".to_vec());
}

#[test]
fn mapped_value_is_written_escaped() {
    let attrs = Attributes::new(b" value=\"foo\" x=\"1\"", |k, _| k == b"value");
    let mut out = Vec::new();
    attrs.write(&mut out, |k| match k {
        b"value" => Some(Cow::Borrowed("b<r")),
        _ => None,
    });
    assert_eq!(out, b" value=\"b&lt;r\" x=\"1\"".to_vec());
}

#[test]
fn mapped_value_without_answer_is_left_out() {
    let attrs = Attributes::new(b" value=\"foo\" x=\"1\" ", |k, _| k == b"value");
    assert_eq!(write_back(&attrs), b" x=\"1\" ".to_vec());
}

#[test]
fn value_is_closed_by_the_quote_it_was_opened_with() {
    let attrs = Attributes::new(b" value=\"foo\"", |_, _| true);
    let mut out = Vec::new();
    attrs.write(&mut out, |_| Some(Cow::Owned("a\"b'c".to_string())));
    assert_eq!(out, b" value=\"a&quot;b'c\"".to_vec());

    let attrs = Attributes::new(b" a='x'", |_, _| true);
    let mut out = Vec::new();
    attrs.write(&mut out, |_| Some(Cow::Borrowed("x")));
    assert_eq!(out, b" a='x'".to_vec());

    let attrs = Attributes::new(b" a='x'", |_, _| true);
    let mut out = Vec::new();
    attrs.write(&mut out, |_| Some(Cow::Borrowed("it's \"q\"")));
    assert_eq!(out, b" a='it&apos;s \"q\"'".to_vec());
}

#[test]
fn single_quoted_values_round_trip() {
    let input = b" a='say \"hi\"' b=\"it's\"";
    let mut values = Vec::new();
    let attrs = Attributes::new(input, |_, v| {
        values.push(v);
        true
    });
    assert_eq!(values, vec!["say \"hi\"".to_string(), "it's".to_string()]);
    let mut out = Vec::new();
    attrs.write(&mut out, |k| match k {
        b"a" => Some(Cow::Borrowed(values[0].as_str())),
        _ => Some(Cow::Borrowed(values[1].as_str())),
    });
    assert_eq!(out, input.to_vec());
}

#[test]
fn mapped_attributes_round_trip_with_same_values() {
    let input = b" value=\"multiple\n    lines\" 01=\"bar\" other='x'  ";
    let mut values = Vec::new();
    let attrs = Attributes::new(input, |k, v| {
        if k == b"value" {
            values.push(v);
            true
        } else {
            false
        }
    });
    let mut out = Vec::new();
    attrs.write(&mut out, |k| match k {
        b"value" => Some(Cow::Borrowed(values[0].as_str())),
        _ => None,
    });
    assert_eq!(out, input.to_vec());
}

#[test]
fn writing_appends_to_the_writer() {
    let attrs = Attributes::new(b" a=\"1\"", |_, _| false);
    let mut out = b"<tag".to_vec();
    attrs.write(&mut out, |_| None);
    assert_eq!(out, b"<tag a=\"1\"".to_vec());
}

#[test]
fn written_attributes_read_back_with_the_values_written() {
    let input = b" a=\"1\" value=\"old\" b='2' ";
    let attrs = Attributes::new(input, |k, _| k == b"value");
    let mut out = Vec::new();
    attrs.write(&mut out, |k| match k {
        b"value" => Some(Cow::Borrowed("x<y & 'z'")),
        _ => None,
    });
    assert_eq!(out, b" a=\"1\" value=\"x&lt;y &amp; 'z'\" b='2' ".to_vec());
    let mut read = Vec::new();
    let again = Attributes::new(&out, |k, v| {
        if k == b"value" {
            read.push(v);
            true
        } else {
            false
        }
    });
    assert_eq!(again, attrs);
    assert_eq!(read, vec!["x<y & 'z'".to_string()]);
}

#[test]
fn lists_that_can_be_read_are_recognised() {
    assert!(attrs_ok(b""));
    assert!(attrs_ok(b"  \n"));
    assert!(attrs_ok(b" a=\"1\" b = '2' "));
    assert!(attrs_ok(b" a=\"xyz"));
    assert!(attrs_ok(b"=\"v\""));
}

#[test]
fn lists_that_cannot_be_read_are_refused() {
    // A name without `=`.
    assert!(!attrs_ok(b" a"));
    assert!(!attrs_ok(b" a b=\"1\""));
    // `=` with nothing after it, or only the opening quote.
    assert!(!attrs_ok(b" a="));
    assert!(!attrs_ok(b" a=\""));
    assert!(!attrs_ok(b" a=\"1\" b"));
}
