//! The document tree, its mathematical model, and the builder that turns a
//! stream of tokenizer events into a tree.
use vstd::prelude::*;
use crate::attrs::{normalize, normalized};

verus! {

/// The upstream tokenizer's error, carried unchanged through a failed build.
#[verifier::external_type_specification]
#[verifier::external_body]
pub struct ExXmlError(xml::reader::Error);

/// A node of a document: an element with its attributes and ordered
/// children, or a run of text. The attributes are a mapping from names to
/// values: the builder keeps them in ascending order of name, each name once
/// (see `attrs`), and markup writes them in that order whatever the list.
#[derive(Debug, PartialEq)]
pub enum XmlNode {
    Tag { name: String, attributes: Vec<(String, String)>, children: Vec<XmlNode> },
    Text(String),
}

/// The mathematical value of a node.
pub enum Node {
    Element { name: Seq<char>, attributes: Seq<(Seq<char>, Seq<char>)>, children: Seq<Node> },
    Text { content: Seq<char> },
}

pub open spec fn attrs_view(a: Seq<(String, String)>) -> Seq<(Seq<char>, Seq<char>)> {
    a.map_values(|p: (String, String)| (p.0@, p.1@))
}

pub open spec fn node_view(n: XmlNode) -> Node
    decreases n,
{
    match n {
        XmlNode::Tag { name, attributes, children } => Node::Element {
            name: name@,
            attributes: attrs_view(attributes@),
            children: nodes_view(children@),
        },
        XmlNode::Text(s) => Node::Text { content: s@ },
    }
}

pub open spec fn nodes_view(s: Seq<XmlNode>) -> Seq<Node>
    decreases s,
{
    if s.len() == 0 {
        Seq::empty()
    } else {
        nodes_view(s.drop_last()).push(node_view(s.last()))
    }
}

impl View for XmlNode {
    type V = Node;

    open spec fn view(&self) -> Node {
        node_view(*self)
    }
}

/// The text held directly by a sequence of sibling nodes: the contents of its
/// text nodes, concatenated in order; elements among them add nothing.
pub open spec fn direct_text(s: Seq<Node>) -> Seq<char>
    decreases s.len(),
{
    if s.len() == 0 {
        Seq::empty()
    } else {
        match s.last() {
            Node::Text { content } => direct_text(s.drop_last()) + content,
            Node::Element { .. } => direct_text(s.drop_last()),
        }
    }
}

/// The text of a node: its own content, or the text that an element holds
/// directly.
pub open spec fn node_text(n: Node) -> Seq<char> {
    match n {
        Node::Text { content } => content,
        Node::Element { children, .. } => direct_text(children),
    }
}

/// All text below a node, at every depth, in document order.
pub open spec fn node_text_rec(n: Node) -> Seq<char>
    decreases n,
{
    match n {
        Node::Text { content } => content,
        Node::Element { children, .. } => nodes_text_rec(children),
    }
}

/// All text below a sequence of sibling nodes, in document order.
pub open spec fn nodes_text_rec(s: Seq<Node>) -> Seq<char>
    decreases s,
{
    if s.len() == 0 {
        Seq::empty()
    } else {
        nodes_text_rec(s.drop_last()) + node_text_rec(s.last())
    }
}

/// Attributes written as markup: ` name="value"` for each, in order.
pub open spec fn render_attrs(a: Seq<(Seq<char>, Seq<char>)>) -> Seq<char>
    decreases a.len(),
{
    if a.len() == 0 {
        Seq::empty()
    } else {
        render_attrs(a.drop_last()) + " "@ + a.last().0 + "=\""@ + a.last().1 + "\""@
    }
}

/// A node written as markup: a text verbatim; an element as a start tag,
/// its children and an end tag, or as one self-closing tag when it has no
/// children.
pub open spec fn render(n: Node) -> Seq<char>
    decreases n,
{
    match n {
        Node::Text { content } => content,
        Node::Element { name, attributes, children } => "<"@ + name + render_attrs(normalize(attributes)) + if children.len()
            > 0 {
            ">"@ + render_all(children) + "</"@ + name + ">"@
        } else {
            " />"@
        },
    }
}

/// Sibling nodes written as markup, one after another.
pub open spec fn render_all(s: Seq<Node>) -> Seq<char>
    decreases s,
{
    if s.len() == 0 {
        Seq::empty()
    } else {
        render_all(s.drop_last()) + render(s.last())
    }
}

/// One event of the markup tokenizer, in document order.
#[derive(Debug)]
pub enum ParseEvent {
    StartDocument,
    EndDocument,
    ProcessingInstruction,
    StartElement { name: String, attributes: Vec<(String, String)> },
    EndElement { name: String },
    Characters(String),
    CData(String),
    Whitespace(String),
    Comment(String),
    Error(xml::reader::Error),
}

/// Why a tree could not be built.
#[derive(Debug, PartialEq)]
pub enum BuildError {
    /// The tokenizer reported malformed markup.
    Upstream(xml::reader::Error),
    /// An end tag came with no element open.
    Underflow,
}

/// The element that seeds the builder's stack: no name, no attributes, no children.
pub open spec fn synthetic_root() -> Node {
    Node::Element { name: Seq::empty(), attributes: Seq::empty(), children: Seq::empty() }
}

/// Appends `c` to the children of the element on top of `stack`.
pub open spec fn add_child(stack: Seq<Node>, c: Node) -> Seq<Node> {
    match stack.last() {
        Node::Element { name, attributes, children } => stack.drop_last().push(
            Node::Element { name, attributes, children: children.push(c) },
        ),
        Node::Text { .. } => stack,
    }
}

/// The stack of open elements after the builder has consumed `evs`, starting
/// from `stack`; processing ends early at the first end-of-document event.
pub open spec fn build_run(stack: Seq<Node>, evs: Seq<ParseEvent>) -> Result<Seq<Node>, BuildError>
    decreases evs.len(),
{
    if evs.len() == 0 {
        Ok(stack)
    } else {
        let rest = evs.drop_first();
        match evs[0] {
            ParseEvent::StartElement { name, attributes } => build_run(
                stack.push(
                    Node::Element {
                        name: name@,
                        attributes: normalize(attrs_view(attributes@)),
                        children: Seq::empty(),
                    },
                ),
                rest,
            ),
            ParseEvent::EndElement { .. } => {
                if stack.len() < 2 {
                    Err(BuildError::Underflow)
                } else {
                    build_run(add_child(stack.drop_last(), stack.last()), rest)
                }
            },
            ParseEvent::Characters(s) => build_run(add_child(stack, Node::Text { content: s@ }), rest),
            ParseEvent::CData(s) => build_run(add_child(stack, Node::Text { content: s@ }), rest),
            ParseEvent::EndDocument => Ok(stack),
            ParseEvent::Error(e) => Err(BuildError::Upstream(e)),
            _ => build_run(stack, rest),
        }
    }
}

/// The top-level nodes of the document that `evs` describes: the children of
/// the synthetic root once every event has been consumed.
pub open spec fn top_level(evs: Seq<ParseEvent>) -> Result<Seq<Node>, BuildError> {
    match build_run(seq![synthetic_root()], evs) {
        Ok(stack) => Ok(stack[0]->Element_children),
        Err(e) => Err(e),
    }
}

/// An element under construction.
struct Frame {
    name: String,
    attributes: Vec<(String, String)>,
    children: Vec<XmlNode>,
}

spec fn frame_view(f: Frame) -> Node {
    Node::Element { name: f.name@, attributes: attrs_view(f.attributes@), children: nodes_view(f.children@) }
}

spec fn frames_view(s: Seq<Frame>) -> Seq<Node> {
    s.map_values(|f: Frame| frame_view(f))
}

fn push_child(stack: &mut Vec<Frame>, c: XmlNode)
    requires
        old(stack)@.len() >= 1,
    ensures
        final(stack)@.len() == old(stack)@.len(),
        frames_view(final(stack)@) == add_child(frames_view(old(stack)@), c@),
{
    let mut top = stack.pop().unwrap();
    proof {
        assert(top.children@.push(c).drop_last() =~= top.children@);
    }
    let ghost before = frames_view(old(stack)@);
    top.children.push(c);
    stack.push(top);
    assert(frames_view(stack@) =~= add_child(before, c@));
}

proof fn lemma_nodes_view_prefix(s: Seq<XmlNode>, i: int)
    requires
        0 <= i < s.len(),
    ensures
        nodes_view(s.subrange(0, i + 1)) == nodes_view(s.subrange(0, i)).push(s[i]@),
{
    assert(s.subrange(0, i + 1).drop_last() =~= s.subrange(0, i));
}

pub(crate) proof fn lemma_nodes_view_index(s: Seq<XmlNode>)
    ensures
        nodes_view(s).len() == s.len(),
        forall|j: int| 0 <= j < s.len() ==> #[trigger] nodes_view(s)[j] == s[j]@,
    decreases s.len(),
{
    if s.len() > 0 {
        lemma_nodes_view_index(s.drop_last());
    }
}

/// The first element among `s`, if there is one.
pub open spec fn first_element(s: Seq<Node>) -> Option<Node>
    decreases s.len(),
{
    if s.len() == 0 {
        None
    } else if s[0] is Element {
        Some(s[0])
    } else {
        first_element(s.drop_first())
    }
}

/// The root of a document whose top level holds `s`: its first element, or,
/// where the top level holds no element, an unnamed element around `s`.
pub open spec fn document_root(s: Seq<Node>) -> Node {
    match first_element(s) {
        Some(n) => n,
        None => Node::Element { name: Seq::empty(), attributes: Seq::empty(), children: s },
    }
}

/// What building a tree from `evs` gives: the document's root, or the first
/// failure.
pub open spec fn build_spec(evs: Seq<ParseEvent>) -> Result<Node, BuildError> {
    match top_level(evs) {
        Ok(s) => Ok(document_root(s)),
        Err(e) => Err(e),
    }
}

impl XmlNode {
    /// This node written as markup. Texts and attribute values are written
    /// verbatim, with no escaping.
    pub fn to_string(&self) -> (r: String)
        ensures
            r@ == render(self@),
        decreases self,
    {
        match self {
            XmlNode::Text(s) => s.clone(),
            XmlNode::Tag { name, attributes, children } => {
                let mut out = String::new();
                out.append("<");
                out.append(name.as_str());
                let sorted = normalized(attributes);
                let ghost av = attrs_view(sorted@);
                let ghost head = out@;
                let mut i: usize = 0;
                assert(av.subrange(0, 0) =~= Seq::<(Seq<char>, Seq<char>)>::empty());
                while i < sorted.len()
                    invariant
                        i <= sorted.len(),
                        av == attrs_view(sorted@),
                        av.len() == sorted@.len(),
                        out@ == head + render_attrs(av.subrange(0, i as int)),
                    decreases sorted.len() - i,
                {
                    let pair = &sorted[i];
                    assert(av.subrange(0, i + 1).drop_last() =~= av.subrange(0, i as int));
                    assert(av[i as int] == (pair.0@, pair.1@));
                    out.append(" ");
                    out.append(pair.0.as_str());
                    out.append("=\"");
                    out.append(pair.1.as_str());
                    out.append("\"");
                    assert(out@ =~= head + render_attrs(av.subrange(0, i + 1)));
                    i += 1;
                }
                assert(av.subrange(0, av.len() as int) =~= av);
                if children.len() > 0 {
                    out.append(">");
                    let ghost mid = out@;
                    proof {
                        lemma_nodes_view_index(children@);
                    }
                    let mut j: usize = 0;
                    assert(children@.subrange(0, 0) =~= Seq::<XmlNode>::empty());
                    while j < children.len()
                        invariant
                            j <= children.len(),
                            out@ == mid + render_all(nodes_view(children@.subrange(0, j as int))),
                            *self == (XmlNode::Tag { name: *name, attributes: *attributes, children: *children }),
                        decreases children.len() - j,
                    {
                        proof {
                            lemma_nodes_view_prefix(children@, j as int);
                            let pre = nodes_view(children@.subrange(0, j as int));
                            assert(pre.push(children@[j as int]@).drop_last() =~= pre);
                            let cs = *children;
                            assert(decreases_to!(cs => cs[j as int])) by {
                                broadcast use vstd::std_specs::vec::axiom_vec_index_decreases;
                            }
                            let me = *self;
                            assert(decreases_to!(me => me->Tag_children));
                            assert(decreases_to!(*self => cs[j as int]));
                        }
                        let part = children[j].to_string();
                        out.append(part.as_str());
                        assert(out@ =~= mid + render_all(nodes_view(children@.subrange(0, j + 1))));
                        j += 1;
                    }
                    assert(children@.subrange(0, children.len() as int) =~= children@);
                    out.append("</");
                    out.append(name.as_str());
                    out.append(">");
                    proof {
                        lemma_nodes_view_index(children@);
                    }
                } else {
                    out.append(" />");
                    proof {
                        lemma_nodes_view_index(children@);
                    }
                }
                out
            },
        }
    }

    /// Builds the tree of a document from its tokenizer events and returns its
    /// root: the first top-level element, or, where there is none, an unnamed
    /// element holding the top level.
    pub fn build(events: Vec<ParseEvent>) -> (r: Result<XmlNode, BuildError>)
        ensures
            match (r, build_spec(events@)) {
                (Ok(n), Ok(m)) => n@ == m,
                (Err(e), Err(f)) => e == f,
                _ => false,
            },
    {
        let ghost evs = events@;
        match XmlNode::from_xml(events) {
            Err(e) => Err(e),
            Ok(mut top) => {
                let ghost v = nodes_view(top@);
                assert(top_level(evs) == Ok::<Seq<Node>, BuildError>(v));
                proof {
                    lemma_nodes_view_index(top@);
                    assert(v.subrange(0, v.len() as int) =~= v);
                }
                let mut i: usize = 0;
                while i < top.len()
                    invariant
                        i <= top.len(),
                        v == nodes_view(top@),
                        v.len() == top@.len(),
                        forall|j: int| 0 <= j < top@.len() ==> #[trigger] v[j] == top@[j]@,
                        first_element(v) == first_element(v.subrange(i as int, v.len() as int)),
                        top_level(evs) == Ok::<Seq<Node>, BuildError>(v),
                        evs == events@,
                    decreases top.len() - i,
                {
                    let ghost rest = v.subrange(i as int, v.len() as int);
                    assert(rest.drop_first() =~= v.subrange(i + 1, v.len() as int));
                    assert(rest[0] == v[i as int]);
                    if let XmlNode::Tag { .. } = &top[i] {
                        assert(v[i as int] is Element);
                        assert(first_element(rest) == Some(v[i as int]));
                        let ghost old_top = top@;
                        let n = top.remove(i);
                        assert(n == old_top[i as int]);
                        assert(document_root(v) == v[i as int]);
                        assert(n@ == v[i as int]);
                        assert(build_spec(evs) == Ok::<Node, BuildError>(n@));
                        return Ok(n);
                    }
                    i += 1;
                }
                let r = XmlNode::Tag { name: String::new(), attributes: Vec::new(), children: top };
                assert(v.subrange(v.len() as int, v.len() as int) =~= Seq::<Node>::empty());
                assert(attrs_view(Seq::<(String, String)>::empty()) =~= Seq::empty());
                Ok(r)
            },
        }
    }

    /// An element with no name, no attributes and no children.
    pub fn empty() -> (r: XmlNode)
        ensures
            r@ == synthetic_root(),
    {
        let r = XmlNode::Tag { name: String::new(), attributes: Vec::new(), children: Vec::new() };
        assert(nodes_view(Seq::<XmlNode>::empty()) =~= Seq::<Node>::empty());
        assert(attrs_view(Seq::<(String, String)>::empty()) =~= Seq::empty());
        r
    }

    /// The text of this node: a text node's content, or the concatenated text
    /// children of an element.
    pub fn text(&self) -> (r: String)
        ensures
            r@ == node_text(self@),
    {
        match self {
            XmlNode::Text(s) => s.clone(),
            XmlNode::Tag { children, .. } => {
                let mut result = String::new();
                let mut i: usize = 0;
                assert(children@.subrange(0, 0) =~= Seq::<XmlNode>::empty());
                while i < children.len()
                    invariant
                        i <= children.len(),
                        result@ == direct_text(nodes_view(children@.subrange(0, i as int))),
                    decreases children.len() - i,
                {
                    proof {
                        lemma_nodes_view_prefix(children@, i as int);
                        let pre = nodes_view(children@.subrange(0, i as int));
                        assert(pre.push(children@[i as int]@).drop_last() =~= pre);
                    }
                    match &children[i] {
                        XmlNode::Text(t) => {
                            result.append(t.as_str());
                        },
                        XmlNode::Tag { .. } => {},
                    }
                    i += 1;
                }
                assert(children@.subrange(0, children.len() as int) =~= children@);
                result
            },
        }
    }

    /// All text below this node, at every depth, in document order.
    pub fn text_rec(&self) -> (r: String)
        ensures
            r@ == node_text_rec(self@),
        decreases self,
    {
        match self {
            XmlNode::Text(s) => s.clone(),
            XmlNode::Tag { name, attributes, children } => {
                let mut result = String::new();
                let mut i: usize = 0;
                assert(children@.subrange(0, 0) =~= Seq::<XmlNode>::empty());
                while i < children.len()
                    invariant
                        i <= children.len(),
                        result@ == nodes_text_rec(nodes_view(children@.subrange(0, i as int))),
                        *self == (XmlNode::Tag { name: *name, attributes: *attributes, children: *children }),
                    decreases children.len() - i,
                {
                    proof {
                        lemma_nodes_view_prefix(children@, i as int);
                        let pre = nodes_view(children@.subrange(0, i as int));
                        assert(pre.push(children@[i as int]@).drop_last() =~= pre);
                    }
                    proof {
                        let cs = *children;
                        assert(decreases_to!(cs => cs[i as int])) by {
                            broadcast use vstd::std_specs::vec::axiom_vec_index_decreases;
                        }
                        assert(*self == XmlNode::Tag { name: *name, attributes: *attributes, children: cs });
                        let me = *self;
                        assert(me->Tag_children == cs);
                        assert(decreases_to!(me => me->Tag_children));
                        assert(decreases_to!(*self => cs[i as int]));
                    }
                    let t = children[i].text_rec();
                    result.append(t.as_str());
                    i += 1;
                }
                assert(children@.subrange(0, children.len() as int) =~= children@);
                result
            },
        }
    }

    /// Builds the top-level nodes of a document from its tokenizer events.
    /// Each element's attributes are put in ascending order of name, the last
    /// value of a repeated name holding.
    pub fn from_xml(events: Vec<ParseEvent>) -> (r: Result<Vec<XmlNode>, BuildError>)
        ensures
            match (r, top_level(events@)) {
                (Ok(v), Ok(t)) => nodes_view(v@) == t,
                (Err(e), Err(f)) => e == f,
                _ => false,
            },
    {
        let mut stack: Vec<Frame> = Vec::new();
        stack.push(Frame { name: String::new(), attributes: Vec::new(), children: Vec::new() });
        let ghost evs = events@;
        assert(nodes_view(stack@[0].children@) =~= Seq::<Node>::empty());
        assert(attrs_view(stack@[0].attributes@) =~= Seq::empty());
        assert(frames_view(stack@) =~= seq![synthetic_root()]);
        assert(evs.subrange(0, evs.len() as int) =~= evs);
        let mut ended = false;
        for ev in it: events
            invariant
                evs == it.seq(),
                stack@.len() >= 1,
                !ended ==> build_run(seq![synthetic_root()], evs) == build_run(
                    frames_view(stack@),
                    evs.subrange(it.index() as int, evs.len() as int),
                ),
                ended ==> build_run(seq![synthetic_root()], evs) == Ok::<Seq<Node>, BuildError>(frames_view(stack@)),
        {
            if !ended {
                let ghost rest = evs.subrange(it.index() + 1, evs.len() as int);
                let ghost before = frames_view(stack@);
                assert(evs.subrange(it.index() as int, evs.len() as int).drop_first() =~= rest);
                match ev {
                    ParseEvent::StartElement { name, attributes } => {
                        let f = Frame { name, attributes: normalized(&attributes), children: Vec::new() };
                        assert(nodes_view(f.children@) =~= Seq::<Node>::empty());
                        stack.push(f);
                        assert(frames_view(stack@) =~= before.push(frame_view(f)));
                    },
                    ParseEvent::EndElement { .. } => {
                        if stack.len() < 2 {
                            return Err(BuildError::Underflow);
                        }
                        let top = stack.pop().unwrap();
                        let node = XmlNode::Tag {
                            name: top.name,
                            attributes: top.attributes,
                            children: top.children,
                        };
                        assert(frames_view(stack@) =~= before.drop_last());
                        push_child(&mut stack, node);
                    },
                    ParseEvent::Characters(t) => {
                        push_child(&mut stack, XmlNode::Text(t));
                    },
                    ParseEvent::CData(t) => {
                        push_child(&mut stack, XmlNode::Text(t));
                    },
                    ParseEvent::EndDocument => {
                        ended = true;
                    },
                    ParseEvent::Error(e) => {
                        return Err(BuildError::Upstream(e));
                    },
                    _ => {},
                }
            }
        }
        let root = stack.remove(0);
        Ok(root.children)
    }
}

} // verus!
