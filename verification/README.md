# preserve-xml

Non-destructive XML mapping: XML is read into typed Rust values while every
attribute and every child element that the types do not map is kept as raw
bytes and written back unchanged.

The library in `src/` is verified with Verus:

- `attr_scanner`: reading an attribute list into slots (mapped or raw) and
  writing it back, each mapped value escaped for, and closed by, the quote the
  attribute was opened with. The laws: a list read and written back gives the
  same bytes when each mapped value is given back a value that escapes to the
  text it had; and a written list reads back as the same slots, each mapped
  value as the value written, for attributes opened with `"` or `'`.
- `attr_round_trip`: the proof of the second of those laws.
- `utils`: `escape_xml` and `unescape_xml` (each entity resolved once), with the
  law that an escaped value reads back as itself.
- `content`, `node`: the content of an element (mapped elements and raw bytes in
  document order) and how it is written back.
- `scoped_reader`: tracking the open tags, the bookkeeping of one scope while
  its events are read, and the law that content is written back with its
  unclaimed bytes in place and each claimed element where it was claimed.
- `document`: reading a document with `quick_xml` (`parse_str`, `parse_bytes`,
  `ElementBuilder`): which events were read from the input, offered and
  skipped, and the law that a document read to its end and written back is the
  document, when each claimed element writes back the input read for it.

`app/` reads documents from any `BufRead` source and turns written content into
strings.
