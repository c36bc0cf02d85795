use vstd::prelude::*;
use vstd::utf8::{decode_utf8, valid_utf8};

use crate::node::{Node, WithMetadata};
use crate::WriteXml;

verus! {

/// What content is built up from while a scope is read: the nodes of the scope
/// are handed to it one by one, in document order.
pub trait ParseContent<T>: Sized {
    /// The nodes handed to this content so far, in order.
    spec fn pushed(&self) -> Seq<Node<T>>;

    fn new() -> (r: Self)
        ensures
            r.pushed() == Seq::<Node<T>>::empty(),
    ;

    fn push(&mut self, value: WithMetadata<T>)
        ensures
            final(self).pushed() == old(self).pushed().push(Node::Typed(value)),
    ;

    fn push_raw(&mut self, value: Vec<u8>)
        ensures
            final(self).pushed() == old(self).pushed().push(Node::Raw(value)),
    ;
}

/// Content that can be written back.
pub trait SerializeContent<T> {
    fn is_empty(&self) -> bool;

    /// Writes the content to `writer`.
    fn write_all(&self, writer: &mut Vec<u8>) where T: WriteXml;
}

/// Whether `pieces` is what is written for `nodes`, one piece per node: a raw
/// node writes its bytes as they are, a mapped element what its type's
/// `write_xml` writes for it with its attribute list.
pub open spec fn written_pieces<T: WriteXml>(nodes: Seq<Node<T>>, pieces: Seq<Seq<u8>>) -> bool {
    &&& pieces.len() == nodes.len()
    &&& forall|i: int|
        0 <= i < nodes.len() ==> #[trigger] pieces[i] == node_bytes(nodes[i])
}

/// What is written for one node.
pub open spec fn node_bytes<T: WriteXml>(node: Node<T>) -> Seq<u8> {
    match node {
        Node::Raw(bytes) => bytes@,
        Node::Typed(data) => data.element.xml_bytes(data.attributes),
    }
}

/// What is written for `nodes`: the piece of each node, in order.
pub open spec fn content_bytes<T: WriteXml>(nodes: Seq<Node<T>>) -> Seq<u8> {
    Seq::new(nodes.len(), |i: int| node_bytes(nodes[i])).flatten()
}

/// The mapped elements among the nodes, in order.
pub open spec fn typed_elements<T>(nodes: Seq<Node<T>>) -> Seq<T>
    decreases nodes.len(),
{
    if nodes.len() == 0 {
        seq![]
    } else {
        let rest = typed_elements(nodes.drop_last());
        match nodes.last() {
            Node::Typed(data) => rest.push(data.element),
            Node::Raw(_) => rest,
        }
    }
}

/// Any number of elements of type `T` mixed with raw bytes, in document order.
#[derive(Clone, Debug)]
pub struct Content<T> {
    nodes: Vec<Node<T>>,
}

impl<T> View for Content<T> {
    type V = Seq<Node<T>>;

    closed spec fn view(&self) -> Seq<Node<T>> {
        self.nodes@
    }
}

impl<T> Default for Content<T> {
    fn default() -> (r: Self)
        ensures
            r@ == Seq::<Node<T>>::empty(),
    {
        Self { nodes: Vec::new() }
    }
}

/// Decodes UTF-8 bytes into a string.
///
/// Trusted: calls `String::from_utf8`, which, as its documentation says, succeeds
/// exactly when the bytes are valid UTF-8, and then holds the characters they
/// encode.
#[verifier::external_body]
fn string_from_utf8(bytes: Vec<u8>) -> (r: Option<String>)
    ensures
        r is Some <==> valid_utf8(bytes@),
        r matches Some(s) ==> s@ == decode_utf8(bytes@),
{
    String::from_utf8(bytes).ok()
}

impl<T: WriteXml> Content<T> {
    /// The content written back, as a string. What is written must be UTF-8.
    pub fn write_to_string(&self) -> (r: String)
        requires
            valid_utf8(content_bytes(self@)),
        ensures
            r@ == decode_utf8(content_bytes(self@)),
    {
        let mut bytes: Vec<u8> = Vec::new();
        self.write_all(&mut bytes);
        assert(bytes@ =~= content_bytes(self@));
        match string_from_utf8(bytes) {
            Some(s) => s,
            None => String::new(),
        }
    }
}

impl<T> Content<T> {
    /// The mapped elements, in order (raw bytes left out).
    pub fn iter(&self) -> (r: Vec<&T>)
        ensures
            r@.len() == typed_elements(self@).len(),
            forall|i: int| 0 <= i < r@.len() ==> *r@[i] == typed_elements(self@)[i],
    {
        let mut r: Vec<&T> = Vec::new();
        let mut i: usize = 0;
        while i < self.nodes.len()
            invariant
                i <= self.nodes@.len(),
                r@.len() == typed_elements(self.nodes@.take(i as int)).len(),
                forall|j: int|
                    0 <= j < r@.len() ==> *r@[j] == typed_elements(self.nodes@.take(i as int))[j],
            decreases self.nodes@.len() - i,
        {
            let ghost before = self.nodes@.take(i as int);
            assert(self.nodes@.take(i + 1).drop_last() =~= before);
            match &self.nodes[i] {
                Node::Typed(data) => {
                    r.push(&data.element);
                },
                Node::Raw(_) => {},
            }
            i = i + 1;
        }
        assert(self.nodes@.take(self.nodes@.len() as int) =~= self.nodes@);
        r
    }

    /// All the nodes, in order.
    pub fn all_nodes(&self) -> (r: &[Node<T>])
        ensures
            r@ == self@,
    {
        self.nodes.as_slice()
    }
}

impl<T> ParseContent<T> for Content<T> {
    open spec fn pushed(&self) -> Seq<Node<T>> {
        self@
    }

    fn new() -> (r: Self)
        ensures
            r@ == Seq::<Node<T>>::empty(),
    {
        Self::default()
    }

    fn push(&mut self, value: WithMetadata<T>)
        ensures
            final(self)@ == old(self)@.push(Node::Typed(value)),
    {
        self.nodes.push(Node::Typed(value));
    }

    fn push_raw(&mut self, value: Vec<u8>)
        ensures
            final(self)@ == old(self)@.push(Node::Raw(value)),
    {
        self.nodes.push(Node::Raw(value));
    }
}

impl<T> SerializeContent<T> for Content<T> {
    fn is_empty(&self) -> (r: bool)
        ensures
            r == (self@.len() == 0),
    {
        self.nodes.is_empty()
    }

    /// Writes the nodes in order: raw bytes as they are, each mapped element as its
    /// type writes it with its attribute list.
    fn write_all(&self, writer: &mut Vec<u8>) where T: WriteXml
        ensures
            final(writer)@ == old(writer)@ + content_bytes(self@),
    {
        let ghost pieces = Seq::new(self@.len(), |i: int| node_bytes(self@[i]));
        let mut i: usize = 0;
        while i < self.nodes.len()
            invariant
                i <= self.nodes@.len(),
                pieces == Seq::new(self@.len(), |i: int| node_bytes(self@[i])),
                self@ == self.nodes@,
                writer@ == old(writer)@ + pieces.take(i as int).flatten_alt(),
            decreases self.nodes@.len() - i,
        {
            match &self.nodes[i] {
                Node::Raw(bytes) => {
                    writer.extend_from_slice(bytes.as_slice());
                },
                Node::Typed(data) => {
                    data.element.write_xml(&data.attributes, writer);
                },
            }
            proof {
                assert(pieces.take(i + 1).drop_last() =~= pieces.take(i as int));
                assert(writer@ =~= old(writer)@ + pieces.take(i + 1).flatten_alt());
            }
            i = i + 1;
        }
        proof {
            assert(pieces.take(self.nodes@.len() as int) =~= pieces);
            pieces.lemma_flatten_and_flatten_alt_are_equivalent();
        }
    }
}

/// One more node adds its element to the mapped elements when it is a mapped
/// element, and nothing when it is raw bytes.
pub proof fn lemma_typed_elements_push<T>(nodes: Seq<Node<T>>, node: Node<T>)
    ensures
        typed_elements(nodes.push(node)) == match node {
            Node::Typed(w) => typed_elements(nodes).push(w.element),
            Node::Raw(_) => typed_elements(nodes),
        },
{
    assert(nodes.push(node).drop_last() =~= nodes);
}

/// The mapped elements of nodes one after the other are those of the first, then
/// those of the second.
pub proof fn lemma_typed_elements_append<T>(a: Seq<Node<T>>, b: Seq<Node<T>>)
    ensures
        typed_elements(a + b) == typed_elements(a) + typed_elements(b),
    decreases b.len(),
{
    if b.len() == 0 {
        assert(a + b =~= a);
        assert(typed_elements(a) + typed_elements(b) =~= typed_elements(a));
    } else {
        lemma_typed_elements_append(a, b.drop_last());
        assert((a + b).drop_last() =~= a + b.drop_last());
        assert((a + b).last() == b.last());
        match b.last() {
            Node::Typed(w) => {
                assert(typed_elements(a) + typed_elements(b) =~= (typed_elements(a) + typed_elements(
                    b.drop_last(),
                )).push(w.element));
            },
            Node::Raw(_) => {},
        }
    }
}

/// There are as many mapped elements as mapped nodes.
pub proof fn lemma_typed_elements_count<T>(nodes: Seq<Node<T>>)
    ensures
        typed_elements(nodes).len() == nodes.filter(|n: Node<T>| n is Typed).len(),
    decreases nodes.len(),
{
    if nodes.len() > 0 {
        lemma_typed_elements_count(nodes.drop_last());
        nodes.drop_last().lemma_filter_push(nodes.last(), |n: Node<T>| n is Typed);
        assert(nodes.drop_last().push(nodes.last()) =~= nodes);
    } else {
        assert(nodes.filter(|n: Node<T>| n is Typed) =~= Seq::<Node<T>>::empty());
    }
}

} // verus!
