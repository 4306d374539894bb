//! The decode engine: reads scalars at a cursor node and moves the cursor
//! through records, fields, tuples, variants, optional values, sequences and
//! maps. A cursor is a node of a finished tree; nothing here changes the tree.
use vstd::prelude::*;
use crate::node::{direct_text, lemma_nodes_view_index, nodes_view, Node, XmlNode};
use crate::scalar::FromText;

verus! {

/// Why a decode failed.
#[derive(Debug, PartialEq)]
pub enum XmlDecodeError {
    /// A name did not match, a required field was missing, or a text did not
    /// read as the requested scalar.
    InvalidFormat,
    /// The cursor is the wrong kind of node for the operation.
    UnexpectedTag,
    /// A failure reported by the caller.
    CustomError(String),
}

/// Whether any of `s` is an element.
pub open spec fn has_element(s: Seq<Node>) -> bool {
    exists|i: int| 0 <= i < s.len() && (#[trigger] s[i]) is Element
}

/// The text that a scalar is read from: a text node's content, or the text
/// of an element that holds no element; an element that holds elements has
/// none.
pub open spec fn scalar_text(n: Node) -> Result<Seq<char>, XmlDecodeError> {
    match n {
        Node::Text { content } => Ok(content),
        Node::Element { children, .. } => if has_element(children) {
            Err(XmlDecodeError::UnexpectedTag)
        } else {
            Ok(direct_text(children))
        },
    }
}

/// Whether any of `s` is a text.
pub open spec fn has_text(s: Seq<Node>) -> bool {
    exists|i: int| 0 <= i < s.len() && (#[trigger] s[i]) is Text
}

/// The string at node `n`: a text node's content, or the text that an
/// element holds directly, also beside child elements. An element with child
/// elements and no text has none; an element with no children at all holds
/// the empty string, so that a present but empty element reads as empty.
pub open spec fn spec_str(n: Node) -> Result<Seq<char>, XmlDecodeError> {
    match n {
        Node::Text { content } => Ok(content),
        Node::Element { children, .. } => if has_element(children) && !has_text(children) {
            Err(XmlDecodeError::UnexpectedTag)
        } else {
            Ok(direct_text(children))
        },
    }
}

/// The scalar of type `T` at node `n`.
pub open spec fn spec_read<T: FromText>(n: Node) -> Result<T, XmlDecodeError> {
    match scalar_text(n) {
        Err(e) => Err(e),
        Ok(t) => match T::spec_from_text(t) {
            Some(v) => Ok(v),
            None => Err(XmlDecodeError::InvalidFormat),
        },
    }
}

/// Whether `n` is an element named `name`.
pub open spec fn is_named(n: Node, name: Seq<char>) -> bool {
    n matches Node::Element { name: m, .. } && m == name
}

/// The elements among `s` named `name`, in document order.
pub open spec fn named_children(s: Seq<Node>, name: Seq<char>) -> Seq<Node>
    decreases s.len(),
{
    if s.len() == 0 {
        Seq::empty()
    } else if is_named(s[0], name) {
        seq![s[0]] + named_children(s.drop_first(), name)
    } else {
        named_children(s.drop_first(), name)
    }
}

/// The first element among `s` named `name`, if any.
pub open spec fn first_named(s: Seq<Node>, name: Seq<char>) -> Option<Node>
    decreases s.len(),
{
    if s.len() == 0 {
        None
    } else if is_named(s[0], name) {
        Some(s[0])
    } else {
        first_named(s.drop_first(), name)
    }
}

/// The children of `n`, or nothing for a text node.
pub open spec fn children_of(n: Node) -> Seq<Node> {
    match n {
        Node::Element { children, .. } => children,
        Node::Text { .. } => Seq::empty(),
    }
}

/// The name that selects a variant at `n`: an element's name or a text's
/// content.
pub open spec fn variant_tag(n: Node) -> Seq<char> {
    match n {
        Node::Element { name, .. } => name,
        Node::Text { content } => content,
    }
}

/// The model of a cursor that an operation hands back.
pub open spec fn view_result(r: Result<&XmlNode, XmlDecodeError>) -> Result<Node, XmlDecodeError> {
    match r {
        Ok(c) => Ok(c@),
        Err(e) => Err(e),
    }
}

/// The model of an optional cursor that an operation hands back.
pub open spec fn view_option_result(r: Result<Option<&XmlNode>, XmlDecodeError>) -> Result<Option<Node>, XmlDecodeError> {
    match r {
        Ok(Some(c)) => Ok(Some(c@)),
        Ok(None) => Ok(None),
        Err(e) => Err(e),
    }
}

/// Entering a record named `name` at `n`.
pub open spec fn spec_struct(n: Node, name: Seq<char>) -> Result<(), XmlDecodeError> {
    match n {
        Node::Text { .. } => Err(XmlDecodeError::UnexpectedTag),
        Node::Element { name: m, .. } => if m == name {
            Ok(())
        } else {
            Err(XmlDecodeError::InvalidFormat)
        },
    }
}

/// Entering an enumeration named `name` at `n`.
pub open spec fn spec_enum(n: Node, name: Seq<char>) -> Result<(), XmlDecodeError> {
    if is_named(n, name) {
        Ok(())
    } else {
        Err(XmlDecodeError::UnexpectedTag)
    }
}

/// The child at position `idx` of `n`.
pub open spec fn spec_child(n: Node, idx: int) -> Result<Node, XmlDecodeError> {
    match n {
        Node::Element { children, .. } => if 0 <= idx < children.len() {
            Ok(children[idx])
        } else {
            Err(XmlDecodeError::UnexpectedTag)
        },
        Node::Text { .. } => Err(XmlDecodeError::UnexpectedTag),
    }
}

/// Entering a tuple of `len` members at `n`.
pub open spec fn spec_tuple(n: Node, len: int) -> Result<(), XmlDecodeError> {
    match n {
        Node::Element { children, .. } => if children.len() == len {
            Ok(())
        } else {
            Err(XmlDecodeError::UnexpectedTag)
        },
        Node::Text { .. } => Err(XmlDecodeError::UnexpectedTag),
    }
}

/// The field `name` of the record at `n`: its first child element of that name.
pub open spec fn spec_field(n: Node, name: Seq<char>) -> Result<Node, XmlDecodeError> {
    match n {
        Node::Text { .. } => Err(XmlDecodeError::UnexpectedTag),
        Node::Element { children, .. } => match first_named(children, name) {
            Some(c) => Ok(c),
            None => Err(XmlDecodeError::InvalidFormat),
        },
    }
}

/// The optional field `name` of the record at `n`: absent when no child
/// element has that name.
pub open spec fn spec_option(n: Node, name: Seq<char>) -> Result<Option<Node>, XmlDecodeError> {
    match n {
        Node::Text { .. } => Err(XmlDecodeError::UnexpectedTag),
        Node::Element { children, .. } => Ok(first_named(children, name)),
    }
}

/// The number of members of the sequence field `name` of the record at `n`.
pub open spec fn spec_seq(n: Node, name: Seq<char>) -> Result<nat, XmlDecodeError> {
    match n {
        Node::Text { .. } => Err(XmlDecodeError::UnexpectedTag),
        Node::Element { children, .. } => Ok(named_children(children, name).len()),
    }
}

/// Member `idx` of the sequence field `name` of the record at `n`.
pub open spec fn spec_seq_elt(n: Node, name: Seq<char>, idx: int) -> Result<Node, XmlDecodeError> {
    match n {
        Node::Text { .. } => Err(XmlDecodeError::UnexpectedTag),
        Node::Element { children, .. } => {
            let m = named_children(children, name);
            if 0 <= idx < m.len() {
                Ok(m[idx])
            } else {
                Err(XmlDecodeError::InvalidFormat)
            }
        },
    }
}

/// Part `which` (0 for the key, 1 for the value) of entry `idx` of the map
/// field `name` of the record at `n`; an entry is an element of two children.
pub open spec fn spec_map_part(n: Node, name: Seq<char>, idx: int, which: int) -> Result<Node, XmlDecodeError> {
    match spec_seq_elt(n, name, idx) {
        Err(e) => Err(e),
        Ok(entry) => if children_of(entry).len() == 2 && entry is Element {
            Ok(children_of(entry)[which])
        } else {
            Err(XmlDecodeError::UnexpectedTag)
        },
    }
}

/// Whether `t` is `names[i]` and no earlier candidate.
pub open spec fn is_first_match(names: Seq<&str>, t: Seq<char>, i: int) -> bool {
    &&& 0 <= i < names.len()
    &&& names[i]@ == t
    &&& forall|j: int| 0 <= j < i ==> names[j]@ != t
}

/// Whether no candidate in `names` is `t`.
pub open spec fn no_match(names: Seq<&str>, t: Seq<char>) -> bool {
    forall|j: int| 0 <= j < names.len() ==> names[j]@ != t
}

/// Whether the texts `a` and `b` are equal.
pub fn same_text(a: &str, b: &str) -> (r: bool)
    ensures
        r == (a@ == b@),
{
    let n = a.unicode_len();
    if n != b.unicode_len() {
        return false;
    }
    let mut i: usize = 0;
    while i < n
        invariant
            i <= n,
            n == a@.len(),
            n == b@.len(),
            forall|j: int| 0 <= j < i ==> a@[j] == b@[j],
        decreases n - i,
    {
        if a.get_char(i) != b.get_char(i) {
            return false;
        }
        i += 1;
    }
    assert(a@ =~= b@);
    true
}

fn node_is_named(n: &XmlNode, name: &str) -> (r: bool)
    ensures
        r == is_named(n@, name@),
{
    match n {
        XmlNode::Tag { name: m, .. } => same_text(m.as_str(), name),
        XmlNode::Text(_) => false,
    }
}

impl XmlNode {
    /// The text that a scalar is read from at this node; an element that
    /// holds elements has none.
    pub fn scalar_text(&self) -> (r: Result<String, XmlDecodeError>)
        ensures
            match (r, scalar_text(self@)) {
                (Ok(t), Ok(u)) => t@ == u,
                (Err(e), Err(f)) => e == f,
                _ => false,
            },
    {
        match self {
            XmlNode::Text(s) => Ok(s.clone()),
            XmlNode::Tag { children, .. } => {
                proof {
                    lemma_nodes_view_index(children@);
                }
                let mut i: usize = 0;
                while i < children.len()
                    invariant
                        i <= children.len(),
                        nodes_view(children@).len() == children@.len(),
                        forall|j: int| 0 <= j < children@.len() ==> #[trigger] nodes_view(children@)[j] == children@[j]@,
                        forall|j: int| 0 <= j < i ==> !(#[trigger] nodes_view(children@)[j] is Element),
                        self@ is Element,
                        self@->Element_children == nodes_view(children@),
                    decreases children.len() - i,
                {
                    if let XmlNode::Tag { .. } = &children[i] {
                        assert(nodes_view(children@)[i as int] is Element);
                        assert(has_element(nodes_view(children@)));
                        return Err(XmlDecodeError::UnexpectedTag);
                    }
                    i += 1;
                }
                Ok(self.text())
            },
        }
    }

    /// Reads the scalar of type `T` at this node.
    pub fn parse<T: FromText>(&self) -> (r: Result<T, XmlDecodeError>)
        ensures
            r == spec_read::<T>(self@),
    {
        match self.scalar_text() {
            Err(e) => Err(e),
            Ok(t) => match T::from_text(t.as_str()) {
                Some(v) => Ok(v),
                None => Err(XmlDecodeError::InvalidFormat),
            },
        }
    }

    /// The unit value: always read.
    pub fn read_nil(&self) -> (r: Result<(), XmlDecodeError>)
        ensures
            r == Ok::<(), XmlDecodeError>(()),
    {
        Ok(())
    }

    pub fn read_u64(&self) -> (r: Result<u64, XmlDecodeError>)
        ensures
            r == spec_read::<u64>(self@),
    {
        self.parse::<u64>()
    }

    /// Reads a 64-bit value and keeps its low bits.
    pub fn read_usize(&self) -> (r: Result<usize, XmlDecodeError>)
        ensures
            match spec_read::<u64>(self@) {
                Ok(v) => r == Ok::<usize, XmlDecodeError>(v as usize),
                Err(e) => r == Err::<usize, XmlDecodeError>(e),
            },
    {
        match self.read_u64() {
            Ok(v) => Ok(v as usize),
            Err(e) => Err(e),
        }
    }

    /// Reads a 64-bit value and keeps its low 32 bits.
    pub fn read_u32(&self) -> (r: Result<u32, XmlDecodeError>)
        ensures
            match spec_read::<u64>(self@) {
                Ok(v) => r == Ok::<u32, XmlDecodeError>(v as u32),
                Err(e) => r == Err::<u32, XmlDecodeError>(e),
            },
    {
        match self.read_u64() {
            Ok(v) => Ok(v as u32),
            Err(e) => Err(e),
        }
    }

    /// Reads a 64-bit value and keeps its low 16 bits.
    pub fn read_u16(&self) -> (r: Result<u16, XmlDecodeError>)
        ensures
            match spec_read::<u64>(self@) {
                Ok(v) => r == Ok::<u16, XmlDecodeError>(v as u16),
                Err(e) => r == Err::<u16, XmlDecodeError>(e),
            },
    {
        match self.read_u64() {
            Ok(v) => Ok(v as u16),
            Err(e) => Err(e),
        }
    }

    /// Reads a 64-bit value and keeps its low 8 bits.
    pub fn read_u8(&self) -> (r: Result<u8, XmlDecodeError>)
        ensures
            match spec_read::<u64>(self@) {
                Ok(v) => r == Ok::<u8, XmlDecodeError>(v as u8),
                Err(e) => r == Err::<u8, XmlDecodeError>(e),
            },
    {
        match self.read_u64() {
            Ok(v) => Ok(v as u8),
            Err(e) => Err(e),
        }
    }

    pub fn read_i64(&self) -> (r: Result<i64, XmlDecodeError>)
        ensures
            r == spec_read::<i64>(self@),
    {
        self.parse::<i64>()
    }

    /// Reads a signed 64-bit value and keeps its low bits.
    pub fn read_isize(&self) -> (r: Result<isize, XmlDecodeError>)
        ensures
            match spec_read::<i64>(self@) {
                Ok(v) => r == Ok::<isize, XmlDecodeError>(v as isize),
                Err(e) => r == Err::<isize, XmlDecodeError>(e),
            },
    {
        match self.read_i64() {
            Ok(v) => Ok(v as isize),
            Err(e) => Err(e),
        }
    }

    /// Reads a signed 64-bit value and keeps its low 32 bits.
    pub fn read_i32(&self) -> (r: Result<i32, XmlDecodeError>)
        ensures
            match spec_read::<i64>(self@) {
                Ok(v) => r == Ok::<i32, XmlDecodeError>(v as i32),
                Err(e) => r == Err::<i32, XmlDecodeError>(e),
            },
    {
        match self.read_i64() {
            Ok(v) => Ok(v as i32),
            Err(e) => Err(e),
        }
    }

    /// Reads a signed 64-bit value and keeps its low 16 bits.
    pub fn read_i16(&self) -> (r: Result<i16, XmlDecodeError>)
        ensures
            match spec_read::<i64>(self@) {
                Ok(v) => r == Ok::<i16, XmlDecodeError>(v as i16),
                Err(e) => r == Err::<i16, XmlDecodeError>(e),
            },
    {
        match self.read_i64() {
            Ok(v) => Ok(v as i16),
            Err(e) => Err(e),
        }
    }

    /// Reads a signed 64-bit value and keeps its low 8 bits.
    pub fn read_i8(&self) -> (r: Result<i8, XmlDecodeError>)
        ensures
            match spec_read::<i64>(self@) {
                Ok(v) => r == Ok::<i8, XmlDecodeError>(v as i8),
                Err(e) => r == Err::<i8, XmlDecodeError>(e),
            },
    {
        match self.read_i64() {
            Ok(v) => Ok(v as i8),
            Err(e) => Err(e),
        }
    }

    /// Reads a boolean written as a byte: true when the byte is not zero. This
    /// narrow encoding is kept for compatibility: the texts `true` and
    /// `false` are not booleans here.
    pub fn read_bool(&self) -> (r: Result<bool, XmlDecodeError>)
        ensures
            match spec_read::<u64>(self@) {
                Ok(v) => r == Ok::<bool, XmlDecodeError>(v as u8 != 0),
                Err(e) => r == Err::<bool, XmlDecodeError>(e),
            },
    {
        match self.read_u8() {
            Ok(v) => Ok(v != 0),
            Err(e) => Err(e),
        }
    }

    pub fn read_char(&self) -> (r: Result<char, XmlDecodeError>)
        ensures
            r == spec_read::<char>(self@),
    {
        self.parse::<char>()
    }

    /// Reads the string at this node, verbatim: a text's content, or the
    /// text an element holds directly, also beside child elements. Fails with
    /// `UnexpectedTag` on an element that holds elements and no text; an
    /// element with no children at all reads as the empty string, so that a
    /// present but empty element gives an empty value.
    pub fn read_str(&self) -> (r: Result<String, XmlDecodeError>)
        ensures
            match (r, spec_str(self@)) {
                (Ok(t), Ok(u)) => t@ == u,
                (Err(e), Err(f)) => e == f,
                _ => false,
            },
    {
        match self {
            XmlNode::Text(s) => Ok(s.clone()),
            XmlNode::Tag { children, .. } => {
                proof {
                    lemma_nodes_view_index(children@);
                }
                let mut seen_element = false;
                let mut i: usize = 0;
                while i < children.len()
                    invariant
                        i <= children.len(),
                        nodes_view(children@).len() == children@.len(),
                        forall|j: int| 0 <= j < children@.len() ==> #[trigger] nodes_view(children@)[j] == children@[j]@,
                        forall|j: int| 0 <= j < i ==> !(#[trigger] nodes_view(children@)[j] is Text),
                        seen_element == exists|j: int| 0 <= j < i && (#[trigger] nodes_view(children@)[j]) is Element,
                        self@ is Element,
                        self@->Element_children == nodes_view(children@),
                    decreases children.len() - i,
                {
                    match &children[i] {
                        XmlNode::Text(_) => {
                            assert(nodes_view(children@)[i as int] is Text);
                            assert(has_text(nodes_view(children@)));
                            return Ok(self.text());
                        },
                        XmlNode::Tag { .. } => {
                            assert(nodes_view(children@)[i as int] is Element);
                            seen_element = true;
                        },
                    }
                    i += 1;
                }
                if seen_element {
                    assert(has_element(nodes_view(children@)));
                    Err(XmlDecodeError::UnexpectedTag)
                } else {
                    assert(!has_element(nodes_view(children@)));
                    Ok(self.text())
                }
            },
        }
    }

    /// The child at position `idx`.
    fn child_at(&self, idx: usize) -> (r: Result<&XmlNode, XmlDecodeError>)
        ensures
            view_result(r) == spec_child(self@, idx as int),
    {
        match self {
            XmlNode::Text(_) => Err(XmlDecodeError::UnexpectedTag),
            XmlNode::Tag { children, .. } => {
                proof {
                    lemma_nodes_view_index(children@);
                }
                if idx < children.len() {
                    Ok(&children[idx])
                } else {
                    Err(XmlDecodeError::UnexpectedTag)
                }
            },
        }
    }

    /// The first child element named `name`, if any.
    fn first_named_child(&self, name: &str) -> (r: Option<&XmlNode>)
        requires
            self@ is Element,
        ensures
            match (r, first_named(children_of(self@), name@)) {
                (Some(c), Some(m)) => c@ == m,
                (None, None) => true,
                _ => false,
            },
    {
        match self {
            XmlNode::Text(_) => None,
            XmlNode::Tag { children, .. } => {
                let ghost cs = nodes_view(children@);
                proof {
                    lemma_nodes_view_index(children@);
                    assert(cs.subrange(0, cs.len() as int) =~= cs);
                }
                let mut i: usize = 0;
                while i < children.len()
                    invariant
                        i <= children.len(),
                        cs == nodes_view(children@),
                        cs == children_of(self@),
                        cs.len() == children@.len(),
                        forall|j: int| 0 <= j < children@.len() ==> #[trigger] cs[j] == children@[j]@,
                        first_named(cs, name@) == first_named(cs.subrange(i as int, cs.len() as int), name@),
                    decreases children.len() - i,
                {
                    let ghost rest = cs.subrange(i as int, cs.len() as int);
                    assert(rest.drop_first() =~= cs.subrange(i + 1, cs.len() as int));
                    assert(rest[0] == cs[i as int]);
                    if node_is_named(&children[i], name) {
                        return Some(&children[i]);
                    }
                    i += 1;
                }
                None
            },
        }
    }

    /// The number of child elements named `name`, and the one at position
    /// `idx` among them, if there is one.
    fn nth_named_child(&self, name: &str, idx: usize) -> (r: (usize, Option<&XmlNode>))
        requires
            self@ is Element,
        ensures
            ({
                let m = named_children(children_of(self@), name@);
                &&& r.0 == m.len()
                &&& match r.1 {
                    Some(c) => idx < m.len() && c@ == m[idx as int],
                    None => idx >= m.len(),
                }
            }),
    {
        match self {
            XmlNode::Text(_) => (0, None),
            XmlNode::Tag { children, .. } => {
                let ghost cs = nodes_view(children@);
                let ghost m = named_children(cs, name@);
                proof {
                    lemma_nodes_view_index(children@);
                    assert(cs.subrange(0, cs.len() as int) =~= cs);
                    assert(m.subrange(0, m.len() as int) =~= m);
                }
                let mut found: Option<&XmlNode> = None;
                let mut k: usize = 0;
                let mut i: usize = 0;
                while i < children.len()
                    invariant
                        i <= children.len(),
                        cs == nodes_view(children@),
                        cs == children_of(self@),
                        m == named_children(cs, name@),
                        cs.len() == children@.len(),
                        forall|j: int| 0 <= j < children@.len() ==> #[trigger] cs[j] == children@[j]@,
                        k <= m.len(),
                        k <= i,
                        named_children(cs.subrange(i as int, cs.len() as int), name@) == m.subrange(k as int, m.len() as int),
                        match found {
                            Some(c) => idx < k && c@ == m[idx as int],
                            None => idx >= k,
                        },
                    decreases children.len() - i,
                {
                    let ghost rest = cs.subrange(i as int, cs.len() as int);
                    assert(rest.drop_first() =~= cs.subrange(i + 1, cs.len() as int));
                    assert(rest[0] == cs[i as int]);
                    if node_is_named(&children[i], name) {
                        assert(named_children(rest, name@) == seq![rest[0]] + named_children(rest.drop_first(), name@));
                        assert(m.subrange(k as int, m.len() as int).len() > 0);
                        assert(m.subrange(k as int, m.len() as int)[0] == m[k as int]);
                        assert(m.subrange(k as int, m.len() as int).drop_first() =~= m.subrange(k + 1, m.len() as int));
                        if k == idx {
                            found = Some(&children[i]);
                        }
                        k += 1;
                    }
                    i += 1;
                }
                assert(cs.subrange(i as int, cs.len() as int) =~= Seq::<Node>::empty());
                (k, found)
            },
        }
    }

    /// Enters a record named `s_name`; the cursor stays on this node. The
    /// number of fields plays no part.
    pub fn read_struct(&self, s_name: &str, _len: usize) -> (r: Result<(), XmlDecodeError>)
        ensures
            r == spec_struct(self@, s_name@),
    {
        match self {
            XmlNode::Text(_) => Err(XmlDecodeError::UnexpectedTag),
            XmlNode::Tag { name, .. } => if same_text(name.as_str(), s_name) {
                Ok(())
            } else {
                Err(XmlDecodeError::InvalidFormat)
            },
        }
    }

    /// Enters a tuple record: the same as a record.
    pub fn read_tuple_struct(&self, s_name: &str, len: usize) -> (r: Result<(), XmlDecodeError>)
        ensures
            r == spec_struct(self@, s_name@),
    {
        self.read_struct(s_name, len)
    }

    /// The field `f_name` of this record: the first child element of that
    /// name, wherever it stands. The field's position plays no part.
    pub fn read_struct_field(&self, f_name: &str, _f_idx: usize) -> (r: Result<&XmlNode, XmlDecodeError>)
        ensures
            view_result(r) == spec_field(self@, f_name@),
    {
        match self {
            XmlNode::Text(_) => Err(XmlDecodeError::UnexpectedTag),
            XmlNode::Tag { .. } => match self.first_named_child(f_name) {
                Some(c) => Ok(c),
                None => Err(XmlDecodeError::InvalidFormat),
            },
        }
    }

    /// A field of a record-like variant: the same as a record's field.
    pub fn read_enum_struct_variant_field(&self, f_name: &str, f_idx: usize) -> (r: Result<&XmlNode, XmlDecodeError>)
        ensures
            view_result(r) == spec_field(self@, f_name@),
    {
        self.read_struct_field(f_name, f_idx)
    }

    /// The optional field `f_name` of this record: `None` when absent, the
    /// field's node when present, even if that node is empty. Presence is
    /// all the encoding shows, so a present value can never be null: an empty
    /// element is an empty value, not an absent one.
    pub fn read_option(&self, f_name: &str) -> (r: Result<Option<&XmlNode>, XmlDecodeError>)
        ensures
            view_option_result(r) == spec_option(self@, f_name@),
    {
        match self {
            XmlNode::Text(_) => Err(XmlDecodeError::UnexpectedTag),
            XmlNode::Tag { .. } => Ok(self.first_named_child(f_name)),
        }
    }

    /// Enters a tuple of `len` members: this element must have exactly `len`
    /// children.
    pub fn read_tuple(&self, len: usize) -> (r: Result<(), XmlDecodeError>)
        ensures
            r == spec_tuple(self@, len as int),
    {
        match self {
            XmlNode::Tag { children, .. } => {
                proof {
                    lemma_nodes_view_index(children@);
                }
                if children.len() == len {
                    Ok(())
                } else {
                    Err(XmlDecodeError::UnexpectedTag)
                }
            },
            XmlNode::Text(_) => Err(XmlDecodeError::UnexpectedTag),
        }
    }

    /// Member `a_idx` of a tuple: the child at that position.
    pub fn read_tuple_arg(&self, a_idx: usize) -> (r: Result<&XmlNode, XmlDecodeError>)
        ensures
            view_result(r) == spec_child(self@, a_idx as int),
    {
        self.child_at(a_idx)
    }

    /// Member `a_idx` of a tuple record: the child at that position.
    pub fn read_tuple_struct_arg(&self, a_idx: usize) -> (r: Result<&XmlNode, XmlDecodeError>)
        ensures
            view_result(r) == spec_child(self@, a_idx as int),
    {
        self.child_at(a_idx)
    }

    /// Enters an enumeration named `n`; the cursor stays on this node.
    pub fn read_enum(&self, n: &str) -> (r: Result<(), XmlDecodeError>)
        ensures
            r == spec_enum(self@, n@),
    {
        if node_is_named(self, n) {
            Ok(())
        } else {
            Err(XmlDecodeError::UnexpectedTag)
        }
    }

    /// Selects a variant: the position of the first candidate that equals
    /// this element's name, or this text; none is an error.
    pub fn read_enum_variant(&self, names: &[&str]) -> (r: Result<usize, XmlDecodeError>)
        ensures
            match r {
                Ok(i) => is_first_match(names@, variant_tag(self@), i as int),
                Err(e) => e == XmlDecodeError::InvalidFormat && no_match(names@, variant_tag(self@)),
            },
    {
        let tag: &str = match self {
            XmlNode::Tag { name, .. } => name.as_str(),
            XmlNode::Text(s) => s.as_str(),
        };
        let mut i: usize = 0;
        while i < names.len()
            invariant
                i <= names@.len(),
                tag@ == variant_tag(self@),
                forall|j: int| 0 <= j < i ==> names@[j]@ != tag@,
            decreases names.len() - i,
        {
            if same_text(names[i], tag) {
                return Ok(i);
            }
            i += 1;
        }
        Err(XmlDecodeError::InvalidFormat)
    }

    /// Selects a record-like variant: the same as any variant.
    pub fn read_enum_struct_variant(&self, names: &[&str]) -> (r: Result<usize, XmlDecodeError>)
        ensures
            match r {
                Ok(i) => is_first_match(names@, variant_tag(self@), i as int),
                Err(e) => e == XmlDecodeError::InvalidFormat && no_match(names@, variant_tag(self@)),
            },
    {
        self.read_enum_variant(names)
    }

    /// Payload `a_idx` of a variant: the child at that position.
    pub fn read_enum_variant_arg(&self, a_idx: usize) -> (r: Result<&XmlNode, XmlDecodeError>)
        ensures
            view_result(r) == spec_child(self@, a_idx as int),
    {
        self.child_at(a_idx)
    }

    /// The length of the sequence field `name` of this record: the number of
    /// child elements of that name.
    pub fn read_seq(&self, name: &str) -> (r: Result<usize, XmlDecodeError>)
        ensures
            match (r, spec_seq(self@, name@)) {
                (Ok(n), Ok(m)) => n == m,
                (Err(e), Err(f)) => e == f,
                _ => false,
            },
    {
        match self {
            XmlNode::Text(_) => Err(XmlDecodeError::UnexpectedTag),
            XmlNode::Tag { .. } => Ok(self.nth_named_child(name, 0).0),
        }
    }

    /// Member `idx` of the sequence field `name` of this record: the child
    /// element at that position among those of that name.
    pub fn read_seq_elt(&self, name: &str, idx: usize) -> (r: Result<&XmlNode, XmlDecodeError>)
        ensures
            view_result(r) == spec_seq_elt(self@, name@, idx as int),
    {
        match self {
            XmlNode::Text(_) => Err(XmlDecodeError::UnexpectedTag),
            XmlNode::Tag { .. } => match self.nth_named_child(name, idx).1 {
                Some(c) => Ok(c),
                None => Err(XmlDecodeError::InvalidFormat),
            },
        }
    }

    /// The number of entries of the map field `name` of this record: the
    /// number of child elements of that name.
    pub fn read_map(&self, name: &str) -> (r: Result<usize, XmlDecodeError>)
        ensures
            match (r, spec_seq(self@, name@)) {
                (Ok(n), Ok(m)) => n == m,
                (Err(e), Err(f)) => e == f,
                _ => false,
            },
    {
        self.read_seq(name)
    }

    fn map_part(&self, name: &str, idx: usize, which: usize) -> (r: Result<&XmlNode, XmlDecodeError>)
        requires
            which < 2,
        ensures
            view_result(r) == spec_map_part(self@, name@, idx as int, which as int),
    {
        match self.read_seq_elt(name, idx) {
            Err(e) => Err(e),
            Ok(entry) => match entry {
                XmlNode::Tag { children, .. } => {
                    proof {
                        lemma_nodes_view_index(children@);
                    }
                    if children.len() == 2 {
                        Ok(&children[which])
                    } else {
                        Err(XmlDecodeError::UnexpectedTag)
                    }
                },
                XmlNode::Text(_) => Err(XmlDecodeError::UnexpectedTag),
            },
        }
    }

    /// The key of entry `idx` of the map field `name`: the first of the
    /// entry's two children.
    pub fn read_map_elt_key(&self, name: &str, idx: usize) -> (r: Result<&XmlNode, XmlDecodeError>)
        ensures
            view_result(r) == spec_map_part(self@, name@, idx as int, 0),
    {
        self.map_part(name, idx, 0)
    }

    /// The value of entry `idx` of the map field `name`: the second of the
    /// entry's two children.
    pub fn read_map_elt_val(&self, name: &str, idx: usize) -> (r: Result<&XmlNode, XmlDecodeError>)
        ensures
            view_result(r) == spec_map_part(self@, name@, idx as int, 1),
    {
        self.map_part(name, idx, 1)
    }

    /// A failure reported by the caller, with its message.
    pub fn error(&self, err: &str) -> (r: XmlDecodeError)
        ensures
            r matches XmlDecodeError::CustomError(m) && m@ == err@,
    {
        XmlDecodeError::CustomError(String::from_str(err))
    }
}

} // verus!
