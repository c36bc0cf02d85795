use vstd::prelude::*;

pub mod attr_round_trip;
pub mod attr_scanner;
pub mod content;
pub mod document;
pub mod node;
pub mod scoped_reader;
pub mod utils;

pub use attr_scanner::{AttrSlot, Attributes};
pub use content::{Content, ParseContent, SerializeContent};
pub use document::{parse_bytes, parse_str, ElementBuilder, ParseXml, XmlEvent};
pub use node::{Node, WithMetadata};
pub use scoped_reader::{ContentScope, EmptyElementBuilder, EventHead, TagStack};
pub use utils::{escape_xml, unescape_xml};
pub use quick_xml::events::{BytesStart, Event};

verus! {

/// A type whose elements can be written back as XML.
pub trait WriteXml {
    /// The bytes that `write_xml` writes for this element with these attributes.
    spec fn xml_bytes(&self, attributes: Attributes) -> Seq<u8>;

    /// Writes this element, with the given attribute list, to `writer`.
    fn write_xml(&self, attributes: &Attributes, writer: &mut Vec<u8>)
        ensures
            final(writer)@ == old(writer)@ + self.xml_bytes(*attributes),
    ;
}

impl WriteXml for () {
    /// Nothing.
    open spec fn xml_bytes(&self, attributes: Attributes) -> Seq<u8> {
        Seq::empty()
    }

    /// Writes nothing.
    fn write_xml(&self, attributes: &Attributes, writer: &mut Vec<u8>) {
        assert(writer@ =~= writer@ + Seq::<u8>::empty());
    }
}

} // verus!
