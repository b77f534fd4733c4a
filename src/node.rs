use vstd::prelude::*;
use vstd::string::StrSliceExecFns;

verus! {

/// Handle of a node in a `DomTree`.
///
/// It packs the slot index and the slot's generation, so an identifier of a
/// node that was destroyed never resolves to a node created later in the
/// same slot.
#[derive(Clone, Copy, PartialEq, Eq, Structural, Debug, Hash)]
pub struct NodeId {
    bits: u64,
}

impl NodeId {
    /// Identifiers handed out by the store always carry an odd generation.
    pub closed spec fn is_canonical(self) -> bool {
        (self.bits >> 32u64) & 1u64 == 1u64
    }

    pub(crate) fn check_canonical(&self) -> (r: bool)
        ensures
            r == self.is_canonical(),
    {
        (self.bits >> 32u64) & 1u64 == 1u64
    }

    pub(crate) fn from_bits(bits: u64) -> (r: NodeId)
        ensures
            r.bits() == bits,
    {
        NodeId { bits }
    }

    pub(crate) fn to_bits(&self) -> (r: u64)
        ensures
            r == self.bits(),
    {
        self.bits
    }

    pub closed spec fn bits(self) -> u64 {
        self.bits
    }
}

/// The errors of the tree engine.
#[derive(Clone, Copy, PartialEq, Eq, Structural, Debug)]
pub enum DomError {
    /// An operation referenced an identifier that is not live in this tree.
    UnknownNode,
    /// The operation would make a node a descendant of itself.
    CycleDetected,
    /// The engine does not implement this operation.
    UnsupportedOperation,
    /// The operation stream ended.
    ChannelClosed,
}

/// A qualified name: namespace prefix, namespace URL and local name.
#[derive(Clone, Debug)]
pub struct QualifiedName {
    pub prefix: Option<String>,
    pub ns: String,
    pub local: String,
}

pub struct NameView {
    pub prefix: Option<Seq<char>>,
    pub ns: Seq<char>,
    pub local: Seq<char>,
}

impl View for QualifiedName {
    type V = NameView;

    open spec fn view(&self) -> NameView {
        NameView {
            prefix: match self.prefix {
                Some(p) => Some(p@),
                None => None,
            },
            ns: self.ns@,
            local: self.local@,
        }
    }
}

/// One attribute of an element.
#[derive(Clone, Debug)]
pub struct Attribute {
    pub name: QualifiedName,
    pub value: String,
}

impl View for Attribute {
    type V = (NameView, Seq<char>);

    open spec fn view(&self) -> (NameView, Seq<char>) {
        (self.name@, self.value@)
    }
}

/// What a node is.
#[derive(Debug)]
pub enum NodeKind {
    Document,
    Element { name: QualifiedName, attrs: Vec<Attribute> },
    Comment { content: String },
    Text { contents: String },
}

pub enum KindView {
    Document,
    Element { name: NameView, attrs: Seq<(NameView, Seq<char>)> },
    Comment { content: Seq<char> },
    Text { contents: Seq<char> },
}

impl View for NodeKind {
    type V = KindView;

    open spec fn view(&self) -> KindView {
        match self {
            NodeKind::Document => KindView::Document,
            NodeKind::Element { name, attrs } => KindView::Element {
                name: name@,
                attrs: attrs@.map_values(|a: Attribute| a@),
            },
            NodeKind::Comment { content } => KindView::Comment { content: content@ },
            NodeKind::Text { contents } => KindView::Text { contents: contents@ },
        }
    }
}

/// A node of the tree: its kind, its parent and its children in document order.
#[derive(Debug)]
pub struct Node {
    pub parent: Option<NodeId>,
    pub children: Vec<NodeId>,
    pub kind: NodeKind,
}

pub struct NodeView {
    pub parent: Option<NodeId>,
    pub children: Seq<NodeId>,
    pub kind: KindView,
}

impl View for Node {
    type V = NodeView;

    open spec fn view(&self) -> NodeView {
        NodeView { parent: self.parent, children: self.children@, kind: self.kind@ }
    }
}

/// Whether two strings hold the same characters.
pub fn same_chars(a: &str, b: &str) -> (r: bool)
    ensures
        r == (a@ == b@),
{
    let n = a.unicode_len();
    if n != b.unicode_len() {
        return false;
    }
    let mut i: usize = 0;
    while i < n
        invariant
            n == a@.len(),
            n == b@.len(),
            i <= n,
            forall|k: int| 0 <= k < i ==> a@[k] == b@[k],
        decreases n - i,
    {
        if a.get_char(i) != b.get_char(i) {
            return false;
        }
        i = i + 1;
    }
    assert(a@ =~= b@);
    true
}

impl QualifiedName {
    /// Whether two names are the same name.
    pub fn same_as(&self, other: &QualifiedName) -> (r: bool)
        ensures
            r == (self@ == other@),
    {
        let prefix_same = match (&self.prefix, &other.prefix) {
            (Some(a), Some(b)) => same_chars(a.as_str(), b.as_str()),
            (None, None) => true,
            _ => false,
        };
        prefix_same && same_chars(self.ns.as_str(), other.ns.as_str()) && same_chars(
            self.local.as_str(),
            other.local.as_str(),
        )
    }
}

/// Some attribute of `s` has the name `n`.
pub open spec fn has_attr(s: Seq<(NameView, Seq<char>)>, n: NameView) -> bool {
    exists|i: int| 0 <= i < s.len() && #[trigger] s[i].0 == n
}

/// `existing`, followed by each attribute of `added` whose name is not yet
/// there, in order.
pub open spec fn add_missing(existing: Seq<(NameView, Seq<char>)>, added: Seq<(NameView, Seq<char>)>) -> Seq<
    (NameView, Seq<char>),
>
    decreases added.len(),
{
    if added.len() == 0 {
        existing
    } else {
        let prev = add_missing(existing, added.drop_last());
        if has_attr(prev, added.last().0) {
            prev
        } else {
            prev.push(added.last())
        }
    }
}

pub open spec fn attrs_view(v: Seq<Attribute>) -> Seq<(NameView, Seq<char>)> {
    v.map_values(|a: Attribute| a@)
}

/// Whether some attribute of `attrs` has the name `name`.
fn contains_attr(attrs: &Vec<Attribute>, name: &QualifiedName) -> (r: bool)
    ensures
        r == has_attr(attrs_view(attrs@), name@),
{
    let ghost s = attrs_view(attrs@);
    let mut i: usize = 0;
    while i < attrs.len()
        invariant
            s == attrs_view(attrs@),
            i <= attrs@.len(),
            forall|k: int| 0 <= k < i ==> s[k].0 != name@,
        decreases attrs@.len() - i,
    {
        if attrs[i].name.same_as(name) {
            assert(s[i as int].0 == name@);
            return true;
        }
        i = i + 1;
    }
    false
}

/// Appends to `existing` each attribute of `added` whose name it does not
/// hold yet.
pub fn add_missing_attrs(existing: &mut Vec<Attribute>, added: Vec<Attribute>)
    ensures
        attrs_view(final(existing)@) == add_missing(attrs_view(old(existing)@), attrs_view(added@)),
{
    let ghost e0 = attrs_view(existing@);
    let ghost a0 = attrs_view(added@);
    let mut rest = added;
    let ghost mut i: int = 0;
    while rest.len() > 0
        invariant
            0 <= i <= a0.len(),
            attrs_view(rest@) == a0.skip(i),
            attrs_view(existing@) == add_missing(e0, a0.take(i)),
        decreases rest@.len(),
    {
        let ghost r0 = rest@;
        assert(attrs_view(r0).len() == r0.len());
        assert(i < a0.len());
        assert(attrs_view(r0)[0] == r0[0]@);
        let a = rest.remove(0);
        proof {
            assert(a0.take(i + 1).drop_last() =~= a0.take(i));
            assert(a@ == a0[i]);
            assert(rest@ =~= r0.remove(0));
            assert forall|k: int| 0 <= k < rest@.len() implies attrs_view(rest@)[k] == a0.skip(i + 1)[k] by {
                assert(rest@[k] == r0[k + 1]);
                assert(attrs_view(r0)[k + 1] == a0.skip(i)[k + 1]);
            }
            assert(attrs_view(rest@) =~= a0.skip(i + 1));
        }
        if !contains_attr(existing, &a.name) {
            existing.push(a);
            proof {
                assert(attrs_view(existing@) =~= add_missing(e0, a0.take(i)).push(a0[i]));
            }
        }
        proof {
            i = i + 1;
        }
    }
    proof {
        assert(a0.take(i) =~= a0);
    }
}

} // verus!
