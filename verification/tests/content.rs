use preserve_xml::{
    Attributes, Content, ContentScope, ElementBuilder, EmptyElementBuilder, EventHead, Node,
    ParseContent, SerializeContent, TagStack, WithMetadata, WriteXml,
};
use preserve_xml::scoped_reader::scope_closed;

fn no_attributes() -> Attributes {
    Attributes::new(b"", |_, _| false)
}

fn element<T>(value: T) -> WithMetadata<T> {
    let mut builder = ElementBuilder::new(b"");
    EmptyElementBuilder::from(&mut builder).build(no_attributes(), value)
}

#[test]
fn default_content_is_empty() {
    let content: Content<()> = Content::default();
    assert!(content.is_empty());
    assert!(content.all_nodes().is_empty());
    assert!(content.iter().is_empty());
}

#[test]
fn pushes_are_kept_in_order() {
    let mut content: Content<u32> = <Content<u32> as ParseContent<u32>>::new();
    content.push_raw(b"ab".to_vec());
    content.push(element(7));
    content.push_raw(b"cd".to_vec());
    content.push(element(9));
    let nodes = content.all_nodes();
    assert_eq!(nodes.len(), 4);
    assert!(matches!(&nodes[0], Node::Raw(b) if b == b"ab"));
    assert!(matches!(&nodes[1], Node::Typed(d) if d.element == 7));
    assert!(matches!(&nodes[2], Node::Raw(b) if b == b"cd"));
    assert_eq!(content.iter(), vec![&7, &9]);
}

#[test]
fn raw_bytes_are_written_back() {
    let mut content: Content<()> = Content::default();
    content.push_raw(b"<a/>".to_vec());
    content.push(element(()));
    content.push_raw(b" tail".to_vec());
    assert!(!content.is_empty());
    let mut out = b">".to_vec();
    content.write_all(&mut out);
    assert_eq!(out, b"><a/> tail".to_vec());
}

#[test]
fn unit_elements_write_nothing_between_raw_bytes() {
    let mut content: Content<()> = Content::default();
    content.push_raw(b"ab".to_vec());
    content.push(element(()));
    content.push_raw(b"cd".to_vec());
    let mut out = Vec::new();
    content.write_all(&mut out);
    assert_eq!(out, b"abcd".to_vec());
}

struct Leaf(&'static str);

impl WriteXml for Leaf {
    fn xml_bytes(&self, _attributes: Attributes) -> vstd::seq::Seq<u8> {
        unreachable!()
    }

    fn write_xml(&self, attributes: &Attributes, writer: &mut Vec<u8>) {
        writer.extend_from_slice(b"<leaf");
        attributes.write(writer, |_| None);
        writer.extend_from_slice(b">");
        writer.extend_from_slice(self.0.as_bytes());
        writer.extend_from_slice(b"</leaf>");
    }
}

#[test]
fn mapped_elements_are_written_by_their_type() {
    let mut content: Content<Leaf> = Content::default();
    content.push_raw(b"<r>".to_vec());
    let attrs = Attributes::new(b" id=\"x\"", |_, _| false);
    let mut builder = ElementBuilder::new(b"");
    content.push(EmptyElementBuilder::from(&mut builder).build(attrs, Leaf("hi")));
    content.push_raw(b"</r>".to_vec());
    let mut out = Vec::new();
    content.write_all(&mut out);
    assert_eq!(out, b"<r><leaf id=\"x\">hi</leaf></r>".to_vec());
}

#[test]
fn unit_writes_nothing() {
    let mut out = b"x".to_vec();
    ().write_xml(&no_attributes(), &mut out);
    assert_eq!(out, b"x".to_vec());
}

#[test]
fn empty_element_builder_keeps_attributes_and_element() {
    let attrs = Attributes::new(b" a=\"1\"", |_, _| false);
    let mut builder = ElementBuilder::new(b"");
    let data = EmptyElementBuilder::from(&mut builder).build(attrs.clone(), "leaf");
    assert_eq!(data.attributes, attrs);
    assert_eq!(data.element, "leaf");
}

#[test]
fn tag_stack_tracks_open_tags() {
    let mut tags = TagStack::new();
    assert_eq!(tags.depth(), 0);
    tags.observe(&EventHead::Start(b"root".to_vec()));
    tags.observe(&EventHead::Start(b"leaf".to_vec()));
    assert_eq!(tags.depth(), 2);
    tags.observe(&EventHead::Empty);
    tags.observe(&EventHead::Other);
    assert_eq!(tags.depth(), 2);
    // An end tag with another name closes nothing.
    tags.observe(&EventHead::End(b"root".to_vec()));
    assert_eq!(tags.depth(), 2);
    tags.observe(&EventHead::End(b"leaf".to_vec()));
    assert_eq!(tags.depth(), 1);
    tags.observe(&EventHead::End(b"root".to_vec()));
    assert_eq!(tags.depth(), 0);
    tags.observe(&EventHead::End(b"root".to_vec()));
    assert_eq!(tags.depth(), 0);
}

#[test]
fn scopes_close_on_end_tags_at_their_depth_and_at_end_of_input() {
    assert!(scope_closed(&EventHead::End(b"a".to_vec()), 1, 1));
    assert!(scope_closed(&EventHead::End(b"a".to_vec()), 0, 1));
    assert!(!scope_closed(&EventHead::End(b"a".to_vec()), 2, 1));
    assert!(scope_closed(&EventHead::Eof, 5, 1));
    assert!(!scope_closed(&EventHead::Start(b"a".to_vec()), 0, 1));
    assert!(!scope_closed(&EventHead::Empty, 0, 1));
    assert!(!scope_closed(&EventHead::Other, 0, 1));
}

#[test]
fn start_is_recognised() {
    assert!(EventHead::Start(Vec::new()).is_start());
    assert!(!EventHead::End(Vec::new()).is_start());
    assert!(!EventHead::Eof.is_start());
}

#[test]
fn content_scope_keeps_unclaimed_bytes_around_claimed_elements() {
    let mut scope: ContentScope<u8, Content<u8>> = ContentScope::open(1);
    assert!(scope.closes(&EventHead::End(b"x".to_vec()), 1));
    assert!(!scope.closes(&EventHead::End(b"x".to_vec()), 2));
    let mut bytes = b"text".to_vec();
    scope.keep_raw(&mut bytes);
    assert!(bytes.is_empty());
    let mut more = b"<!-- c -->".to_vec();
    scope.keep_raw(&mut more);
    scope.accept(element(1));
    scope.accept(element(2));
    let mut last = b"tail".to_vec();
    scope.keep_raw(&mut last);
    let content = scope.close();
    let nodes = content.all_nodes();
    assert_eq!(nodes.len(), 5);
    assert!(matches!(&nodes[0], Node::Raw(b) if b == b"text<!-- c -->"));
    assert!(matches!(&nodes[1], Node::Typed(d) if d.element == 1));
    assert!(matches!(&nodes[2], Node::Raw(b) if b.is_empty()));
    assert!(matches!(&nodes[3], Node::Typed(d) if d.element == 2));
    assert!(matches!(&nodes[4], Node::Raw(b) if b == b"tail"));
}

#[test]
fn closing_an_untouched_scope_gives_one_empty_raw_node() {
    let scope: ContentScope<u8, Content<u8>> = ContentScope::open(0);
    let content = scope.close();
    let nodes = content.all_nodes();
    assert_eq!(nodes.len(), 1);
    assert!(matches!(&nodes[0], Node::Raw(b) if b.is_empty()));
}

#[test]
fn scope_content_writes_unclaimed_bytes_back_around_elements() {
    let mut scope: ContentScope<Leaf, Content<Leaf>> = ContentScope::open(0);
    let mut before = b"<r>\n  ".to_vec();
    scope.keep_raw(&mut before);
    scope.accept(element(Leaf("a")));
    let mut between = b"<!-- kept -->".to_vec();
    scope.keep_raw(&mut between);
    let mut more = b"<x/>".to_vec();
    scope.keep_raw(&mut more);
    scope.accept(element(Leaf("b")));
    scope.accept(element(Leaf("c")));
    let mut after = b"</r>".to_vec();
    scope.keep_raw(&mut after);
    let content = scope.close();
    let mut out = Vec::new();
    content.write_all(&mut out);
    assert_eq!(
        out,
        b"<r>\n  <leaf>a</leaf><!-- kept --><x/><leaf>b</leaf><leaf>c</leaf></r>".to_vec()
    );
}
