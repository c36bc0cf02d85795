use vstd::prelude::*;
use vstd::slice::slice_to_vec;

use crate::attr_scanner::Attributes;
use crate::content::{content_bytes, node_bytes, written_pieces, ParseContent};
use crate::WriteXml;
use crate::node::{Node, WithMetadata};

verus! {

/// What the reading logic needs to know of an XML event: its kind, and for start
/// and end tags the tag's name.
#[derive(Clone, Debug)]
pub enum EventHead {
    /// A start tag `<name ...>` (not self-closing).
    Start(Vec<u8>),
    /// An end tag `</name>`.
    End(Vec<u8>),
    /// A self-closing tag `<name .../>`.
    Empty,
    /// The end of the input.
    Eof,
    /// Any other event (text, comment, declaration, ...).
    Other,
}

impl EventHead {
    /// Whether this is a start tag.
    pub fn is_start(&self) -> (r: bool)
        ensures
            r == self is Start,
    {
        match self {
            EventHead::Start(_) => true,
            _ => false,
        }
    }
}

/// The open tags after an event: a start tag is pushed; an end tag pops the
/// innermost open tag when it carries the same name, and changes nothing otherwise.
pub open spec fn track(tags: Seq<Seq<u8>>, head: EventHead) -> Seq<Seq<u8>> {
    match head {
        EventHead::Start(name) => tags.push(name@),
        EventHead::End(name) => if tags.len() > 0 && tags.last() == name@ {
            tags.drop_last()
        } else {
            tags
        },
        _ => tags,
    }
}

/// Whether an event ends a scope opened at nesting depth `entry`, the depth being
/// `depth` once the event is taken into account: an end tag that leaves the depth
/// at or below `entry`, or the end of the input.
pub open spec fn closes_scope(head: EventHead, depth: int, entry: int) -> bool {
    (head is End && depth <= entry) || head is Eof
}

/// The names of the tags that are open, outermost first.
#[derive(Debug)]
pub struct TagStack {
    stack: Vec<Vec<u8>>,
}

impl View for TagStack {
    type V = Seq<Seq<u8>>;

    closed spec fn view(&self) -> Seq<Seq<u8>> {
        self.stack@.map_values(|name: Vec<u8>| name@)
    }
}

/// Whether two byte strings are equal.
fn same_bytes(a: &[u8], b: &[u8]) -> (r: bool)
    ensures
        r == (a@ == b@),
{
    if a.len() != b.len() {
        return false;
    }
    let mut i: usize = 0;
    while i < a.len()
        invariant
            a@.len() == b@.len(),
            i <= a@.len(),
            forall|k: int| 0 <= k < i ==> a@[k] == b@[k],
        decreases a@.len() - i,
    {
        if a[i] != b[i] {
            return false;
        }
        i = i + 1;
    }
    assert(a@ =~= b@);
    true
}

impl TagStack {
    /// No tag open.
    pub fn new() -> (r: Self)
        ensures
            r@ == Seq::<Seq<u8>>::empty(),
    {
        TagStack { stack: Vec::new() }
    }

    /// The number of open tags.
    pub fn depth(&self) -> (r: usize)
        ensures
            r == self@.len(),
    {
        self.stack.len()
    }

    /// Takes an event into account, as `track` says.
    pub fn observe(&mut self, head: &EventHead)
        ensures
            final(self)@ == track(old(self)@, *head),
    {
        match head {
            EventHead::Start(name) => {
                self.stack.push(slice_to_vec(name.as_slice()));
                assert(self@ =~= old(self)@.push(name@));
            },
            EventHead::End(name) => {
                let n = self.stack.len();
                if n > 0 && same_bytes(self.stack[n - 1].as_slice(), name.as_slice()) {
                    self.stack.pop();
                    assert(self@ =~= old(self)@.drop_last());
                }
            },
            _ => {},
        }
    }
}

/// Whether the event `head` ends a scope opened at depth `entry`, `depth` being
/// the depth once the event is taken into account.
pub fn scope_closed(head: &EventHead, depth: usize, entry: usize) -> (r: bool)
    ensures
        r == closes_scope(*head, depth as int, entry as int),
{
    match head {
        EventHead::End(_) => depth <= entry,
        EventHead::Eof => true,
        _ => false,
    }
}

/// The claim marks lie in order within the unclaimed bytes.
pub open spec fn marks_in_order(unclaimed: Seq<u8>, marks: Seq<int>) -> bool {
    forall|i: int, j: int|
        0 <= i <= j < marks.len() ==> 0 <= #[trigger] marks[i] <= #[trigger] marks[j]
            <= unclaimed.len()
}

/// The unclaimed bytes between claimed element `k - 1` and claimed element `k`
/// (from the start for `k == 0`, to the end for the last), each element marked
/// by the number of unclaimed bytes that came before it.
pub open spec fn segment(unclaimed: Seq<u8>, marks: Seq<int>, k: int) -> Seq<u8> {
    let from = if k == 0 {
        0
    } else {
        marks[k - 1]
    };
    let to = if k < marks.len() {
        marks[k]
    } else {
        unclaimed.len() as int
    };
    unclaimed.subrange(from, to)
}

/// Node `i` is where a scope puts it: at even positions the unclaimed bytes
/// before the next claimed element, at odd positions the claimed elements.
pub open spec fn node_in_place<T>(
    node: Node<T>,
    i: int,
    unclaimed: Seq<u8>,
    marks: Seq<int>,
    claimed: Seq<WithMetadata<T>>,
) -> bool {
    if i % 2 == 0 {
        node matches Node::Raw(bytes) && bytes@ == segment(unclaimed, marks, i / 2)
    } else {
        node == Node::Typed(claimed[i / 2])
    }
}

/// `nodes` are the content of a scope that saw the bytes `unclaimed` go unclaimed
/// and claimed the elements `claimed`, element `k` after the first `marks[k]`
/// unclaimed bytes: unclaimed bytes and claimed elements take turns, unclaimed
/// bytes first and last.
pub open spec fn laid_out<T>(
    nodes: Seq<Node<T>>,
    unclaimed: Seq<u8>,
    marks: Seq<int>,
    claimed: Seq<WithMetadata<T>>,
) -> bool {
    &&& marks.len() == claimed.len()
    &&& marks_in_order(unclaimed, marks)
    &&& nodes.len() == 2 * claimed.len() + 1
    &&& forall|i: int|
        0 <= i < nodes.len() ==> node_in_place(#[trigger] nodes[i], i, unclaimed, marks, claimed)
}

/// The bytes `unclaimed` with `inserts[k]` put in after the first `marks[k]` of
/// them, for each `k`.
pub open spec fn woven(unclaimed: Seq<u8>, marks: Seq<int>, inserts: Seq<Seq<u8>>) -> Seq<u8>
    decreases inserts.len(),
{
    if inserts.len() == 0 {
        unclaimed
    } else {
        let n = inserts.len() - 1;
        woven(unclaimed.take(marks[n]), marks.take(n), inserts.take(n)) + inserts[n]
            + unclaimed.skip(marks[n])
    }
}

/// The pieces written for the claimed elements of a scope's content: those at odd
/// positions.
pub open spec fn element_pieces(pieces: Seq<Seq<u8>>) -> Seq<Seq<u8>> {
    Seq::new(((pieces.len() - 1) / 2) as nat, |k: int| pieces[2 * k + 1])
}

/// The content of one scope while it is being read: the bytes of the events that
/// no caller claimed since the last claimed element wait in `pending`.
pub struct ContentScope<T, C> {
    entry_depth: usize,
    pending: Vec<u8>,
    content: C,
    unclaimed: Ghost<Seq<u8>>,
    marks: Ghost<Seq<int>>,
    claimed: Ghost<Seq<WithMetadata<T>>>,
}

impl<T, C: ParseContent<T>> ContentScope<T, C> {
    /// The depth at which the scope was opened.
    pub closed spec fn entry(&self) -> nat {
        self.entry_depth as nat
    }

    /// The bytes of all unclaimed events handed in so far, in order.
    pub closed spec fn unclaimed_bytes(&self) -> Seq<u8> {
        self.unclaimed@
    }

    /// For each claimed element, the number of unclaimed bytes handed in before it.
    pub closed spec fn claim_marks(&self) -> Seq<int> {
        self.marks@
    }

    /// The elements claimed so far, in order.
    pub closed spec fn claimed_elements(&self) -> Seq<WithMetadata<T>> {
        self.claimed@
    }

    /// The scope's state is consistent: the content holds, in turn, the unclaimed
    /// bytes before each claimed element and that element, and the bytes handed in
    /// since the last claimed element are pending.
    pub closed spec fn wf(&self) -> bool {
        let pushed = self.content.pushed();
        let n = self.claimed@.len();
        &&& self.marks@.len() == n
        &&& marks_in_order(self.unclaimed@, self.marks@)
        &&& pushed.len() == 2 * n
        &&& forall|i: int|
            0 <= i < pushed.len() ==> node_in_place(
                #[trigger] pushed[i],
                i,
                self.unclaimed@,
                self.marks@,
                self.claimed@,
            )
        &&& self.pending@ == segment(self.unclaimed@, self.marks@, n as int)
    }

    /// Opens a scope at depth `entry_depth`.
    pub fn open(entry_depth: usize) -> (r: Self)
        ensures
            r.wf(),
            r.entry() == entry_depth,
            r.unclaimed_bytes() == Seq::<u8>::empty(),
            r.claim_marks() == Seq::<int>::empty(),
            r.claimed_elements() == Seq::<WithMetadata<T>>::empty(),
    {
        let r = ContentScope {
            entry_depth,
            pending: Vec::new(),
            content: C::new(),
            unclaimed: Ghost(Seq::empty()),
            marks: Ghost(Seq::empty()),
            claimed: Ghost(Seq::empty()),
        };
        assert(r.pending@ =~= segment(r.unclaimed@, r.marks@, 0));
        r
    }

    /// Whether `head` ends this scope, `depth` being the depth once the event is
    /// taken into account.
    pub fn closes(&self, head: &EventHead, depth: usize) -> (r: bool)
        ensures
            r == closes_scope(*head, depth as int, self.entry() as int),
    {
        scope_closed(head, depth, self.entry_depth)
    }

    /// A caller claimed an element: the bytes waiting so far become a raw node,
    /// then the element follows.
    pub fn accept(&mut self, data: WithMetadata<T>)
        requires
            old(self).wf(),
        ensures
            final(self).wf(),
            final(self).entry() == old(self).entry(),
            final(self).unclaimed_bytes() == old(self).unclaimed_bytes(),
            final(self).claim_marks() == old(self).claim_marks().push(
                old(self).unclaimed_bytes().len() as int,
            ),
            final(self).claimed_elements() == old(self).claimed_elements().push(data),
    {
        let ghost pushed0 = self.content.pushed();
        let ghost data0 = data;
        let ghost n = self.claimed@.len() as int;
        let ghost marks0 = self.marks@;
        let mut pending: Vec<u8> = Vec::new();
        std::mem::swap(&mut pending, &mut self.pending);
        self.content.push_raw(pending);
        self.content.push(data);
        proof {
            let u = self.unclaimed@;
            self.claimed@ = self.claimed@.push(data0);
            self.marks@ = self.marks@.push(u.len() as int);
            let marks = self.marks@;
            let claimed = self.claimed@;
            let pushed = self.content.pushed();
            assert forall|k: int| 0 <= k <= n implies segment(u, marks, k) == segment(
                u,
                marks0,
                k,
            ) by {}
            assert forall|i: int| 0 <= i < pushed.len() implies node_in_place(
                #[trigger] pushed[i],
                i,
                u,
                marks,
                claimed,
            ) by {
                if i < 2 * n {
                    assert(pushed[i] == pushed0[i]);
                    assert(node_in_place(pushed0[i], i, u, marks0, claimed.drop_last()));
                    if i % 2 == 1 {
                        assert(claimed[i / 2] == claimed.drop_last()[i / 2]);
                    }
                } else if i == 2 * n {
                    assert(i / 2 == n);
                } else {
                    assert(i / 2 == n);
                }
            }
            assert(self.pending@ =~= segment(u, marks, n + 1));
        }
    }

    /// No caller claimed the event: its bytes join the waiting bytes (and `bytes`
    /// is left empty).
    pub fn keep_raw(&mut self, bytes: &mut Vec<u8>)
        requires
            old(self).wf(),
        ensures
            final(self).wf(),
            final(self).entry() == old(self).entry(),
            final(self).unclaimed_bytes() == old(self).unclaimed_bytes() + old(bytes)@,
            final(self).claim_marks() == old(self).claim_marks(),
            final(self).claimed_elements() == old(self).claimed_elements(),
            final(bytes)@ == Seq::<u8>::empty(),
    {
        let ghost u0 = self.unclaimed@;
        self.pending.append(bytes);
        proof {
            self.unclaimed@ = self.unclaimed@ + old(bytes)@;
            let u = self.unclaimed@;
            let marks = self.marks@;
            let n = self.claimed@.len() as int;
            let pushed = self.content.pushed();
            assert forall|k: int| 0 <= k < n implies segment(u, marks, k) == segment(
                u0,
                marks,
                k,
            ) by {
                assert(segment(u, marks, k) =~= segment(u0, marks, k));
            }
            assert forall|i: int| 0 <= i < pushed.len() implies node_in_place(
                #[trigger] pushed[i],
                i,
                u,
                marks,
                self.claimed@,
            ) by {
                assert(node_in_place(pushed[i], i, u0, marks, self.claimed@));
                if i % 2 == 0 {
                    assert(segment(u, marks, i / 2) == segment(u0, marks, i / 2));
                }
            }
            assert(self.pending@ =~= segment(u, marks, n));
        }
    }

    /// Ends the scope and hands back the content: the unclaimed bytes before each
    /// claimed element, that element, and so on, and the unclaimed bytes after the
    /// last claimed element.
    pub fn close(self) -> (r: C)
        requires
            self.wf(),
        ensures
            laid_out(r.pushed(), self.unclaimed_bytes(), self.claim_marks(), self.claimed_elements()),
    {
        let ContentScope { entry_depth, pending, content, unclaimed, marks, claimed } = self;
        let ghost pushed0 = content.pushed();
        let mut content = content;
        content.push_raw(pending);
        proof {
            let pushed = content.pushed();
            let n = claimed@.len() as int;
            assert forall|i: int| 0 <= i < pushed.len() implies node_in_place(
                #[trigger] pushed[i],
                i,
                unclaimed@,
                marks@,
                claimed@,
            ) by {
                if i < 2 * n {
                    assert(pushed[i] == pushed0[i]);
                } else {
                    assert(i / 2 == n);
                }
            }
        }
        content
    }
}

/// Makes elements that have no content of their own (self-closing tags).
#[derive(Debug)]
#[non_exhaustive]
pub struct EmptyElementBuilder;

impl EmptyElementBuilder {
    /// The element `element` with the attribute list `attributes`.
    pub fn build<T>(&self, attributes: Attributes, element: T) -> (r: WithMetadata<T>)
        ensures
            r.attributes == attributes,
            r.element == element,
    {
        WithMetadata::new(attributes, element)
    }
}

/// An end tag closes the tag that its start tag opened: the open tags are as before.
pub proof fn lemma_end_tag_closes_start(tags: Seq<Seq<u8>>, start: EventHead, end: EventHead)
    requires
        start matches EventHead::Start(a) && end matches EventHead::End(b) && a@ == b@,
    ensures
        track(track(tags, start), end) == tags,
{
    assert(track(tags, start).drop_last() =~= tags);
}

/// What the claimed elements write, each with its attribute list.
pub open spec fn element_bytes<T: WriteXml>(claimed: Seq<WithMetadata<T>>) -> Seq<Seq<u8>> {
    Seq::new(claimed.len(), |k: int| claimed[k].element.xml_bytes(claimed[k].attributes))
}

/// Content that a scope hands back writes back every unclaimed byte, in order,
/// with what each claimed element writes put in where that element was claimed.
pub proof fn lemma_scope_content_writes_back<T: WriteXml>(
    nodes: Seq<Node<T>>,
    unclaimed: Seq<u8>,
    marks: Seq<int>,
    claimed: Seq<WithMetadata<T>>,
)
    requires
        laid_out(nodes, unclaimed, marks, claimed),
    ensures
        content_bytes(nodes) == woven(unclaimed, marks, element_bytes(claimed)),
{
    let pieces = Seq::new(nodes.len(), |i: int| node_bytes(nodes[i]));
    lemma_weave_pieces(nodes, unclaimed, marks, claimed, pieces);
    pieces.lemma_flatten_and_flatten_alt_are_equivalent();
    assert forall|k: int| 0 <= k < claimed.len() implies #[trigger] element_pieces(pieces)[k]
        == element_bytes(claimed)[k] by {
        assert(node_in_place(nodes[2 * k + 1], 2 * k + 1, unclaimed, marks, claimed));
        assert((2 * k + 1) / 2 == k);
    }
    assert(element_pieces(pieces) =~= element_bytes(claimed));
}

/// Content in which no element was claimed writes back exactly the bytes that were
/// handed to it, in order.
pub proof fn lemma_unclaimed_content_writes_back<T: WriteXml>(
    nodes: Seq<Node<T>>,
    unclaimed: Seq<u8>,
)
    requires
        laid_out(nodes, unclaimed, Seq::empty(), Seq::empty()),
    ensures
        content_bytes(nodes) == unclaimed,
{
    lemma_scope_content_writes_back(nodes, unclaimed, Seq::empty(), Seq::<WithMetadata<T>>::empty());
}

proof fn lemma_weave_pieces<T: WriteXml>(
    nodes: Seq<Node<T>>,
    unclaimed: Seq<u8>,
    marks: Seq<int>,
    claimed: Seq<WithMetadata<T>>,
    pieces: Seq<Seq<u8>>,
)
    requires
        laid_out(nodes, unclaimed, marks, claimed),
        written_pieces(nodes, pieces),
    ensures
        pieces.flatten_alt() == woven(unclaimed, marks, element_pieces(pieces)),
    decreases claimed.len(),
{
    let n = claimed.len() as int;
    let last = 2 * n;
    assert(node_in_place(nodes[last], last, unclaimed, marks, claimed));
    assert(last / 2 == n);
    assert(pieces[last] == node_bytes(nodes[last]));
    assert(pieces.drop_last().len() == last);
    if n == 0 {
        assert(pieces.drop_last().flatten_alt() == Seq::<u8>::empty());
        assert(unclaimed.subrange(0, unclaimed.len() as int) =~= unclaimed);
        assert(element_pieces(pieces).len() == 0);
    } else {
        let m = n - 1;
        let mark = marks[m];
        let u2 = unclaimed.take(mark);
        let marks2 = marks.take(m);
        let claimed2 = claimed.take(m);
        let nodes2 = nodes.take(2 * m + 1);
        let pieces2 = pieces.take(2 * m + 1);
        assert(0 <= mark <= unclaimed.len()) by {
            assert(0 <= marks[m] <= marks[m] <= unclaimed.len());
        }
        assert(marks_in_order(u2, marks2)) by {
            assert forall|i: int, j: int| 0 <= i <= j < marks2.len() implies 0
                <= #[trigger] marks2[i] <= #[trigger] marks2[j] <= u2.len() by {
                assert(0 <= marks[i] <= marks[j] <= unclaimed.len());
                assert(0 <= marks[j] <= marks[m] <= unclaimed.len());
            }
        }
        assert forall|k: int| 0 <= k <= m implies #[trigger] segment(u2, marks2, k) == segment(
            unclaimed,
            marks,
            k,
        ) by {
            if k > 0 {
                assert(0 <= marks[k - 1] <= marks[m] <= unclaimed.len());
            }
            if k < m {
                assert(0 <= marks[k] <= marks[m] <= unclaimed.len());
            }
            assert(segment(u2, marks2, k) =~= segment(unclaimed, marks, k));
        }
        assert(laid_out(nodes2, u2, marks2, claimed2)) by {
            assert forall|i: int| 0 <= i < nodes2.len() implies node_in_place(
                #[trigger] nodes2[i],
                i,
                u2,
                marks2,
                claimed2,
            ) by {
                assert(nodes2[i] == nodes[i]);
                assert(node_in_place(nodes[i], i, unclaimed, marks, claimed));
                assert(segment(u2, marks2, i / 2) == segment(unclaimed, marks, i / 2));
                if i % 2 == 1 {
                    assert(claimed2[i / 2] == claimed[i / 2]);
                }
            }
        }
        assert(written_pieces(nodes2, pieces2)) by {
            assert forall|i: int| 0 <= i < nodes2.len() implies #[trigger] pieces2[i] == node_bytes(
                nodes2[i],
            ) by {
                assert(nodes2[i] == nodes[i]);
                assert(pieces2[i] == pieces[i]);
            }
        }
        lemma_weave_pieces(nodes2, u2, marks2, claimed2, pieces2);
        let e = element_pieces(pieces);
        assert(element_pieces(pieces2) =~= e.take(m));
        assert(pieces.drop_last().drop_last() =~= pieces2);
        assert(pieces.drop_last().flatten_alt() == pieces2.flatten_alt() + pieces[last - 1]);
        assert(e[m] == pieces[last - 1]);
        assert(segment(unclaimed, marks, n) =~= unclaimed.skip(mark));
    }
}

} // verus!
