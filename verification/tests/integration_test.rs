use preserve_xml::{
    parse_bytes, parse_str, Attributes, BytesStart, Content, ElementBuilder, EmptyElementBuilder,
    Node, ParseXml, SerializeContent, WithMetadata, WriteXml, XmlEvent,
};

#[derive(Debug)]
struct Root {
    value: String,
    content: Content<Leaf>,
}

#[derive(Debug)]
struct Leaf {
    value: i32,
    content: Content<()>,
}

impl ParseXml for Root {
    fn parse_start<'i>(
        start: &BytesStart<'static>,
        builder: &mut ElementBuilder<'i>,
    ) -> Result<Option<WithMetadata<Self>>, quick_xml::Error> {
        if start.name().as_ref() != b"root" {
            return Ok(None);
        }

        let mut value = Default::default();
        let attributes = Attributes::new(start.attributes_raw(), |k, v| match k {
            b"value" => {
                value = v;
                true
            }
            _ => false,
        });

        let el = builder.build(
            attributes,
            |s, event| {
                match event {
                    XmlEvent::Start(e) => {
                        if let Some(res) = Leaf::parse_start(&e, s)? {
                            return Ok(Some(res));
                        }
                    }
                    XmlEvent::Empty(e) => {
                        if let Some(res) = Leaf::parse_empty(&e, &(s.into()))? {
                            return Ok(Some(res));
                        }
                    }
                    _ => {}
                }
                Ok(None)
            },
            |content| Root { value, content },
        )?;

        Ok(Some(el))
    }

    fn parse_empty(
        start: &BytesStart<'static>,
        builder: &EmptyElementBuilder,
    ) -> Result<Option<WithMetadata<Self>>, quick_xml::Error> {
        if start.name().as_ref() != b"root" {
            return Ok(None);
        }

        let mut value = Default::default();
        let attributes = Attributes::new(start.attributes_raw(), |k, v| match k {
            b"value" => {
                value = v;
                true
            }
            _ => false,
        });

        let el = builder.build(
            attributes,
            Root {
                value,
                content: Content::default(),
            },
        );

        Ok(Some(el))
    }
}

impl WriteXml for Root {
    fn xml_bytes(&self, _attributes: Attributes) -> vstd::seq::Seq<u8> {
        unreachable!()
    }

    fn write_xml(&self, attributes: &Attributes, writer: &mut Vec<u8>) {
        writer.extend_from_slice(b"<root");
        attributes.write(writer, |k| match k {
            b"value" => Some((&self.value).into()),
            _ => None,
        });
        if self.content.is_empty() {
            writer.extend_from_slice(b"/>");
        } else {
            writer.extend_from_slice(b">");
            self.content.write_all(writer);
            writer.extend_from_slice(b"</root>");
        }
    }
}

impl ParseXml for Leaf {
    fn parse_start<'i>(
        start: &BytesStart<'static>,
        builder: &mut ElementBuilder<'i>,
    ) -> Result<Option<WithMetadata<Self>>, quick_xml::Error> {
        if start.name().as_ref() != b"leaf" {
            return Ok(None);
        }

        let mut value = Default::default();
        let attributes = Attributes::new(start.attributes_raw(), |k, v| match k {
            b"value" => {
                value = v.parse().unwrap();
                true
            }
            _ => false,
        });

        let el = builder.build(
            attributes,
            |_, _| Ok(None),
            |content| Leaf { value, content },
        )?;

        Ok(Some(el))
    }

    fn parse_empty(
        start: &BytesStart<'static>,
        builder: &EmptyElementBuilder,
    ) -> Result<Option<WithMetadata<Self>>, quick_xml::Error> {
        if start.name().as_ref() != b"leaf" {
            return Ok(None);
        }

        let mut value = Default::default();
        let attributes = Attributes::new(start.attributes_raw(), |k, v| match k {
            b"value" => {
                value = v.parse().unwrap();
                true
            }
            _ => false,
        });

        let el = builder.build(
            attributes,
            Leaf {
                value,
                content: Content::default(),
            },
        );

        Ok(Some(el))
    }
}

impl WriteXml for Leaf {
    fn xml_bytes(&self, _attributes: Attributes) -> vstd::seq::Seq<u8> {
        unreachable!()
    }

    fn write_xml(&self, attributes: &Attributes, writer: &mut Vec<u8>) {
        writer.extend_from_slice(b"<leaf");
        attributes.write(writer, |k| match k {
            b"value" => Some(format!("{}", self.value).into()),
            _ => None,
        });
        if self.content.is_empty() {
            writer.extend_from_slice(b"/>");
        } else {
            writer.extend_from_slice(b">");
            self.content.write_all(writer);
            writer.extend_from_slice(b"</leaf>");
        }
    }
}

#[test]
fn case1() {
    let xml_str = "\
<?xml version=\"1.0\" encoding=\"UTF-8\"?>
<root value=\"foo\" uninterested_attribute=\"bar\"/>
<!-- hogehoge -->
";
    let tree = parse_str::<Root>(xml_str).unwrap();
    assert_eq!(xml_str, &tree.write_to_string());
}

#[test]
fn case2() {
    let xml_str = "\
<?xml version=\"1.0\" encoding=\"UTF-8\"?>
<root value=\"multiple
    lines\" 01=\"bar\">
    <leaf value=\"123\" />
    <leaf
        value = \"456\">hoge</leaf>
    <uninterested value=\"789\">
        <leaf />
    </uninterested>
</root>
";
    let tree = parse_str::<Root>(xml_str).unwrap();
    assert_eq!(xml_str, &tree.write_to_string());
}

#[test]
fn mapped_values_are_read() {
    let tree = parse_str::<Root>("<root value=\"a&amp;b\"><leaf value=\"7\"/></root>").unwrap();
    let roots = tree.iter();
    assert_eq!(roots.len(), 1);
    assert_eq!(roots[0].value, "a&b");
    let leaves = roots[0].content.iter();
    assert_eq!(leaves.len(), 1);
    assert_eq!(leaves[0].value, 7);
}

#[test]
fn unclaimed_nested_elements_are_kept_whole() {
    let xml = "<root><u><x></x><leaf value=\"1\"/></u><leaf value=\"2\"/></root>";
    let tree = parse_str::<Root>(xml).unwrap();
    let roots = tree.iter();
    // `<u>` is skipped up to its own end tag: the leaf inside it stays raw.
    let leaves = roots[0].content.iter();
    assert_eq!(leaves.len(), 1);
    assert_eq!(leaves[0].value, 2);
    assert_eq!(tree.write_to_string(), xml);
}

#[test]
fn documents_in_bytes_read_the_same() {
    let xml = "<!-- c --><root value=\"v\"/>tail";
    let tree = parse_bytes::<Root>(xml.as_bytes()).unwrap();
    assert_eq!(tree.all_nodes().len(), 3);
    assert!(matches!(&tree.all_nodes()[0], Node::Raw(b) if b == b"<!-- c -->"));
    assert!(matches!(&tree.all_nodes()[2], Node::Raw(b) if b == b"tail"));
    assert_eq!(tree.write_to_string(), xml);
}

#[test]
fn ill_formed_documents_are_refused() {
    assert!(parse_str::<Root>("<root></leaf>").is_err());
}
