use vstd::prelude::*;
use crate::model::{
    descends, detached, keeps_nontext, lemma_fresh_not_ancestor, lemma_moved_keeps, with_kind, Nodes,
};
use crate::node::{
    add_missing, attrs_view, Attribute, DomError, KindView, NodeId, NodeView, QualifiedName,
};
use crate::parser::{Doctype, ParseOperation, ParserHandle, ParserNodeOrText, QuirksMode};
use crate::slots::SLOT_CAPACITY;
use crate::traversal::ForwardDomIterator;
use crate::tree::{
    appended, attach_error, fresh_view, lemma_fold_keeps, outcome, placed_before, reparent_fold,
    sibling_error, DomTree,
};

verus! {

/// Where a child goes.
#[derive(Clone, Copy, PartialEq, Eq, Structural, Debug)]
pub enum Place {
    /// Last among the children of the node.
    Last(NodeId),
    /// Among the children of the first node, right before the second.
    Before(NodeId, NodeId),
}

/// The state of a document load.
#[derive(Clone, Copy, PartialEq, Eq, Structural, Debug)]
pub enum LoadState {
    /// No load has started.
    NotLoaded,
    /// Operations are being applied.
    Loading,
    /// The tokenizer finished and every operation was applied.
    Loaded,
    /// The load was aborted; the tree must not be used.
    Failed(DomError),
}

pub open spec fn resolved(hs: Seq<NodeId>, h: ParserHandle) -> Option<NodeId> {
    if h < hs.len() {
        Some(hs[h as int])
    } else {
        None
    }
}

/// The state after `c` goes to `place`.
pub open spec fn placed(m: Nodes, place: Place, c: NodeId) -> Nodes {
    match place {
        Place::Last(p) => appended(m, p, c),
        Place::Before(p, s) => placed_before(m, p, s, c),
    }
}

/// The error, if any, of moving `c` to `place`.
pub open spec fn place_error(m: Nodes, root: NodeId, place: Place, c: NodeId) -> Option<DomError> {
    match place {
        Place::Last(p) => attach_error(m, root, p, c),
        Place::Before(p, s) => sibling_error(m, root, p, s, c),
    }
}

/// The error, if any, of putting a new text node at `place`.
pub open spec fn text_place_error(m: Nodes, place: Place) -> Option<DomError> {
    match place {
        Place::Last(p) => if !m.contains_key(p) {
            Some(DomError::UnknownNode)
        } else {
            None
        },
        Place::Before(p, s) => if !m.contains_key(s) || m[s].parent != Some(p) {
            Some(DomError::UnknownNode)
        } else {
            None
        },
    }
}

/// `m2` and `r` are what putting `child` at `place` in `m` gives.
pub open spec fn child_placed(
    m: Nodes,
    root: NodeId,
    hs: Seq<NodeId>,
    place: Place,
    child: ParserNodeOrText,
    m2: Nodes,
    r: Result<(), DomError>,
) -> bool {
    match child {
        ParserNodeOrText::Node(h) => match resolved(hs, h) {
            None => r == Err::<(), DomError>(DomError::UnknownNode) && m2 == m,
            Some(c) => r == outcome(place_error(m, root, place, c)) && m2 == if r is Ok {
                placed(m, place, c)
            } else {
                m
            },
        },
        ParserNodeOrText::Text(s) => r == outcome(text_place_error(m, place)) && if r is Ok {
            exists|t: NodeId|
                !m.contains_key(t) && m2 == placed(
                    m.insert(t, fresh_view(KindView::Text { contents: s@ })),
                    place,
                    t,
                )
        } else {
            m2 == m
        },
    }
}

/// Where append-before-sibling puts a child: before `sibling`, in its parent.
pub open spec fn before_place(m: Nodes, hs: Seq<NodeId>, sibling: ParserHandle) -> Option<Place> {
    match resolved(hs, sibling) {
        Some(s) => match m[s].parent {
            Some(p) => Some(Place::Before(p, s)),
            None => None,
        },
        None => None,
    }
}

/// Where append-based-on-parent-node puts a child: before `element` where it
/// has a parent, else last in `prev_element`.
pub open spec fn based_place(m: Nodes, hs: Seq<NodeId>, element: ParserHandle, prev: ParserHandle) -> Option<
    Place,
> {
    match resolved(hs, element) {
        Some(e) => match m[e].parent {
            Some(p) => Some(Place::Before(p, e)),
            None => match resolved(hs, prev) {
                Some(q) => Some(Place::Last(q)),
                None => None,
            },
        },
        None => None,
    }
}

/// `child` goes to `place`, or the operation names an unknown node.
pub open spec fn placed_at(
    m: Nodes,
    root: NodeId,
    hs: Seq<NodeId>,
    place: Option<Place>,
    child: ParserNodeOrText,
    m2: Nodes,
    r: Result<(), DomError>,
) -> bool {
    match place {
        None => r == Err::<(), DomError>(DomError::UnknownNode) && m2 == m,
        Some(pl) => child_placed(m, root, hs, pl, child, m2, r),
    }
}

/// A new node of view `v` gets the handle `node`, which must be the next one.
pub open spec fn created(
    m: Nodes,
    hs: Seq<NodeId>,
    node: ParserHandle,
    v: NodeView,
    m2: Nodes,
    hs2: Seq<NodeId>,
    r: Result<(), DomError>,
) -> bool {
    if node == hs.len() {
        r is Ok && exists|t: NodeId| !m.contains_key(t) && hs2 == hs.push(t) && m2 == m.insert(t, v)
    } else {
        r == Err::<(), DomError>(DomError::UnknownNode) && m2 == m && hs2 == hs
    }
}

/// `m2`, `hs2` and `r` are what applying `op` to the tree `m` with the
/// handles `hs` gives.
pub open spec fn applied(
    m: Nodes,
    root: NodeId,
    hs: Seq<NodeId>,
    op: ParseOperation,
    m2: Nodes,
    hs2: Seq<NodeId>,
    r: Result<(), DomError>,
) -> bool {
    match op {
        ParseOperation::CreateElement { node, name, attrs } => created(
            m,
            hs,
            node,
            fresh_view(
                KindView::Element { name: name@, attrs: add_missing(Seq::empty(), attrs_view(attrs@)) },
            ),
            m2,
            hs2,
            r,
        ),
        ParseOperation::CreateComment { node, text } => created(
            m,
            hs,
            node,
            fresh_view(KindView::Comment { content: text@ }),
            m2,
            hs2,
            r,
        ),
        ParseOperation::Append { parent, child } => hs2 == hs && placed_at(
            m,
            root,
            hs,
            match resolved(hs, parent) {
                Some(p) => Some(Place::Last(p)),
                None => None,
            },
            child,
            m2,
            r,
        ),
        ParseOperation::AppendBeforeSibling { sibling, child } => hs2 == hs && placed_at(
            m,
            root,
            hs,
            before_place(m, hs, sibling),
            child,
            m2,
            r,
        ),
        ParseOperation::AppendBasedOnParentNode { element, prev_element, child } => hs2 == hs
            && placed_at(m, root, hs, based_place(m, hs, element, prev_element), child, m2, r),
        ParseOperation::AddAttrsIfMissing { target, attrs } => hs2 == hs && match resolved(
            hs,
            target,
        ) {
            None => r == Err::<(), DomError>(DomError::UnknownNode) && m2 == m,
            Some(t) => match m[t].kind {
                KindView::Element { name, attrs: old_attrs } => r is Ok && m2 == m.insert(
                    t,
                    with_kind(
                        m[t],
                        KindView::Element {
                            name: name,
                            attrs: add_missing(old_attrs, attrs_view(attrs@)),
                        },
                    ),
                ),
                _ => r == Err::<(), DomError>(DomError::UnsupportedOperation) && m2 == m,
            },
        },
        ParseOperation::RemoveFromParent { target } => hs2 == hs && match resolved(hs, target) {
            None => r == Err::<(), DomError>(DomError::UnknownNode) && m2 == m,
            Some(t) => r is Ok && m2 == detached(m, t),
        },
        ParseOperation::ReparentChildren { node, new_parent } => hs2 == hs && match (
            resolved(hs, node),
            resolved(hs, new_parent),
        ) {
            (Some(n), Some(np)) => (m2, r) == reparent_fold(m, root, np, m[n].children),
            _ => r == Err::<(), DomError>(DomError::UnknownNode) && m2 == m,
        },
        ParseOperation::GetTemplateContents { .. } | ParseOperation::AssociateWithForm { .. }
        | ParseOperation::CreatePI { .. } => hs2 == hs && m2 == m && r == Err::<(), DomError>(
            DomError::UnsupportedOperation,
        ),
        _ => hs2 == hs && m2 == m && r is Ok,
    }
}

/// The load state after an operation of a running load ends with `r`.
pub open spec fn next_state(finish: bool, r: Result<(), DomError>) -> LoadState {
    match r {
        Ok(_) => if finish {
            LoadState::Loaded
        } else {
            LoadState::Loading
        },
        Err(DomError::UnsupportedOperation) => LoadState::Loading,
        Err(e) => LoadState::Failed(e),
    }
}

/// The owner of a document tree: it applies the tokenizer's operations in
/// order, keeps the correlation between parser handles and node
/// identifiers, and tracks how the load is going.
pub struct MjDom {
    tree: DomTree,
    handles: Vec<NodeId>,
    state: LoadState,
    incomplete: bool,
    quirks_mode: QuirksMode,
    current_line: u64,
    doctype: Option<Doctype>,
}

impl MjDom {
    pub closed spec fn tree_spec(&self) -> DomTree {
        self.tree
    }

    pub closed spec fn handles_spec(&self) -> Seq<NodeId> {
        self.handles@
    }

    pub closed spec fn state_spec(&self) -> LoadState {
        self.state
    }

    pub closed spec fn incomplete_spec(&self) -> bool {
        self.incomplete
    }

    pub closed spec fn quirks_spec(&self) -> QuirksMode {
        self.quirks_mode
    }

    pub closed spec fn line_spec(&self) -> u64 {
        self.current_line
    }

    pub closed spec fn doctype_spec(&self) -> Option<Doctype> {
        self.doctype
    }

    /// The invariant: a well-formed tree, handle 0 for the document, and
    /// each handle naming a live node that is not a text node.
    pub open spec fn inv(&self) -> bool {
        let hs = self.handles_spec();
        let m = self.tree_spec()@;
        &&& self.tree_spec().wf()
        &&& hs.len() > 0
        &&& hs[0] == self.tree_spec().root_id()
        &&& forall|h: int| 0 <= h < hs.len() ==> m.contains_key(#[trigger] hs[h]) && !(m[hs[h]].kind is Text)
    }

    /// A document owner before any load: an empty document.
    pub fn init() -> (r: MjDom)
        ensures
            r.inv(),
            r.state_spec() == LoadState::NotLoaded,
            !r.incomplete_spec(),
            r.doctype_spec() is None,
            r.tree_spec()@.dom() == set![r.tree_spec().root_id()],
            r.handles_spec() == seq![r.tree_spec().root_id()],
    {
        let tree = DomTree::new();
        let mut handles: Vec<NodeId> = Vec::new();
        handles.push(tree.root());
        MjDom {
            tree,
            handles,
            state: LoadState::NotLoaded,
            incomplete: false,
            quirks_mode: QuirksMode::NoQuirks,
            current_line: 1,
            doctype: None,
        }
    }

    /// Starts a new load on an empty document.
    pub fn start_load(&mut self)
        ensures
            final(self).inv(),
            final(self).state_spec() == LoadState::Loading,
            !final(self).incomplete_spec(),
            final(self).doctype_spec() is None,
            final(self).tree_spec()@.dom() == set![final(self).tree_spec().root_id()],
            final(self).handles_spec() == seq![final(self).tree_spec().root_id()],
    {
        *self = MjDom::init();
        self.state = LoadState::Loading;
    }

    /// The operation stream ended. A load that had not finished is aborted.
    pub fn channel_closed(&mut self)
        requires
            old(self).inv(),
        ensures
            final(self).inv(),
            final(self).tree_spec() == old(self).tree_spec(),
            final(self).state_spec() == if old(self).state_spec() == LoadState::Loading {
                LoadState::Failed(DomError::ChannelClosed)
            } else {
                old(self).state_spec()
            },
    {
        if self.state == LoadState::Loading {
            self.state = LoadState::Failed(DomError::ChannelClosed);
        }
    }

    /// A pre-order walk over the whole document.
    pub fn iter(&self) -> (r: ForwardDomIterator)
        requires
            self.inv(),
        ensures
            r.start_spec() == self.tree_spec().root_id(),
            r.next_spec() == Some(self.tree_spec().root_id()),
            r.remaining_spec() == self.tree_spec()@.len(),
            r.valid_for(self.tree_spec()@),
    {
        ForwardDomIterator::starting_at(&self.tree, self.tree.root())
    }

    /// The tree as it stands.
    pub fn tree(&self) -> (r: &DomTree)
        ensures
            *r == self.tree_spec(),
    {
        &self.tree
    }

    pub fn state(&self) -> (r: LoadState)
        ensures
            r == self.state_spec(),
    {
        self.state
    }

    /// Whether some operation was not supported, so the tree may lack part
    /// of the document.
    pub fn is_incomplete(&self) -> (r: bool)
        ensures
            r == self.incomplete_spec(),
    {
        self.incomplete
    }

    /// Whether the tree holds a whole document that consumers may use.
    pub fn is_usable(&self) -> (r: bool)
        ensures
            r == (self.state_spec() == LoadState::Loaded),
    {
        self.state == LoadState::Loaded
    }

    pub fn quirks_mode(&self) -> (r: QuirksMode)
        ensures
            r == self.quirks_spec(),
    {
        self.quirks_mode
    }

    pub fn current_line(&self) -> (r: u64)
        ensures
            r == self.line_spec(),
    {
        self.current_line
    }

    /// The doctype that the document declared, if any.
    pub fn doctype(&self) -> (r: &Option<Doctype>)
        ensures
            *r == self.doctype_spec(),
    {
        &self.doctype
    }

    /// The node that a parser handle names.
    pub fn node_of(&self, h: ParserHandle) -> (r: Option<NodeId>)
        ensures
            r == resolved(self.handles_spec(), h),
    {
        if h < self.handles.len() {
            Some(self.handles[h])
        } else {
            None
        }
    }

    /// Stores a new node under the next handle.
    fn create(&mut self, node: ParserHandle, name: Option<QualifiedName>, attrs: Vec<Attribute>, text: String) -> (r: Result<(), DomError>)
        requires
            old(self).inv(),
            old(self).tree_spec()@.len() < SLOT_CAPACITY,
        ensures
            final(self).inv(),
            final(self).tree_spec().root_id() == old(self).tree_spec().root_id(),
            final(self).state_spec() == old(self).state_spec(),
            final(self).incomplete_spec() == old(self).incomplete_spec(),
            final(self).quirks_spec() == old(self).quirks_spec(),
            final(self).line_spec() == old(self).line_spec(),
            final(self).doctype_spec() == old(self).doctype_spec(),
            created(
                old(self).tree_spec()@,
                old(self).handles_spec(),
                node,
                match name {
                    Some(n) => fresh_view(
                        KindView::Element { name: n@, attrs: add_missing(Seq::empty(), attrs_view(attrs@)) },
                    ),
                    None => fresh_view(KindView::Comment { content: text@ }),
                },
                final(self).tree_spec()@,
                final(self).handles_spec(),
                r,
            ),
    {
        if node != self.handles.len() {
            return Err(DomError::UnknownNode);
        }
        let ghost m = self.tree@;
        let id = match name {
            Some(n) => self.tree.add_element(n, attrs),
            None => self.tree.add_comment(text),
        };
        self.handles.push(id);
        proof {
            let hs = self.handles@;
            assert forall|h: int| 0 <= h < hs.len() implies self.tree@.contains_key(#[trigger] hs[h])
                && !(self.tree@[hs[h]].kind is Text) by {
                if h < hs.len() - 1 {
                    assert(hs[h] == old(self).handles@[h]);
                }
            }
        }
        Ok(())
    }

    proof fn lemma_handles_kept(&self, m: Nodes, hs: Seq<NodeId>)
        requires
            self.tree_spec().wf(),
            hs == self.handles_spec(),
            hs.len() > 0,
            hs[0] == self.tree_spec().root_id(),
            forall|h: int| 0 <= h < hs.len() ==> m.contains_key(#[trigger] hs[h]) && !(m[hs[h]].kind is Text),
            keeps_nontext(m, self.tree_spec()@),
        ensures
            self.inv(),
    {
        let m2 = self.tree_spec()@;
        assert forall|h: int| 0 <= h < hs.len() implies m2.contains_key(#[trigger] hs[h]) && !(m2[hs[h]].kind is Text) by {
            assert(m.contains_key(hs[h]) && !(m[hs[h]].kind is Text));
        }
    }

    /// Moves the node `c` to `place`.
    fn move_node(&mut self, place: Place, c: NodeId) -> (r: Result<(), DomError>)
        requires
            old(self).inv(),
        ensures
            final(self).inv(),
            final(self).tree_spec().root_id() == old(self).tree_spec().root_id(),
            final(self).handles_spec() == old(self).handles_spec(),
            final(self).state_spec() == old(self).state_spec(),
            final(self).incomplete_spec() == old(self).incomplete_spec(),
            final(self).quirks_spec() == old(self).quirks_spec(),
            final(self).line_spec() == old(self).line_spec(),
            final(self).doctype_spec() == old(self).doctype_spec(),
            r == outcome(place_error(old(self).tree_spec()@, old(self).tree_spec().root_id(), place, c)),
            final(self).tree_spec()@ == if r is Ok {
                placed(old(self).tree_spec()@, place, c)
            } else {
                old(self).tree_spec()@
            },
    {
        let ghost m = self.tree@;
        let ghost hs = self.handles@;
        let ghost root = self.tree.root_id();
        let r = match place {
            Place::Last(p) => self.tree.append_child(p, c),
            Place::Before(p, s) => self.tree.insert_before(p, s, c),
        };
        proof {
            if r is Ok {
                match place {
                    Place::Last(p) => {
                        lemma_moved_keeps(m, root, p, c, crate::model::detached(m, c)[p].children.len() as int);
                    },
                    Place::Before(p, s) => {
                        lemma_moved_keeps(m, root, p, c, crate::model::detached(m, c)[p].children.index_of(s));
                    },
                }
            }
            self.lemma_handles_kept(m, hs);
        }
        r
    }

    /// Puts `child` at `place`: a node that a handle names, or a new text
    /// node holding the raw text.
    fn put_child(&mut self, place: Place, child: ParserNodeOrText) -> (r: Result<(), DomError>)
        requires
            old(self).inv(),
            old(self).tree_spec()@.len() < SLOT_CAPACITY,
        ensures
            final(self).inv(),
            final(self).tree_spec().root_id() == old(self).tree_spec().root_id(),
            final(self).handles_spec() == old(self).handles_spec(),
            final(self).state_spec() == old(self).state_spec(),
            final(self).incomplete_spec() == old(self).incomplete_spec(),
            final(self).quirks_spec() == old(self).quirks_spec(),
            final(self).line_spec() == old(self).line_spec(),
            final(self).doctype_spec() == old(self).doctype_spec(),
            child_placed(
                old(self).tree_spec()@,
                old(self).tree_spec().root_id(),
                old(self).handles_spec(),
                place,
                child,
                final(self).tree_spec()@,
                r,
            ),
    {
        match child {
            ParserNodeOrText::Node(h) => match self.node_of(h) {
                None => Err(DomError::UnknownNode),
                Some(c) => self.move_node(place, c),
            },
            ParserNodeOrText::Text(text) => {
                let ghost m = self.tree@;
                let ghost root = self.tree.root_id();
                match place {
                    Place::Last(p) => {
                        if !self.tree.contains(p) {
                            return Err(DomError::UnknownNode);
                        }
                    },
                    Place::Before(p, s) => {
                        match self.tree.parent_of(s) {
                            Ok(Some(q)) => {
                                if q != p {
                                    return Err(DomError::UnknownNode);
                                }
                            },
                            _ => {
                                return Err(DomError::UnknownNode);
                            },
                        }
                    },
                }
                let ghost s_view = text@;
                let t = self.tree.add_text(text);
                proof {
                    let m1 = self.tree@;
                    let v = fresh_view(KindView::Text { contents: s_view });
                    assert(m1 == m.insert(t, v));
                    let pp = match place {
                        Place::Last(p) => p,
                        Place::Before(p, s) => p,
                    };
                    if let Place::Before(p, s) = place {
                        assert(m[p].children.contains(s));
                    }
                    if descends(m1, pp, t) {
                        let k = choose|k: nat| crate::model::on_chain(m1, t, pp, k);
                        lemma_fresh_not_ancestor(m, root, t, v, pp, k);
                    }
                    assert(keeps_nontext(m, m1));
                    self.lemma_handles_kept(m, self.handles@);
                }
                self.move_node(place, t)
            },
        }
    }

    /// Where append-before-sibling puts a child.
    fn before_of(&self, sibling: ParserHandle) -> (r: Option<Place>)
        requires
            self.inv(),
        ensures
            r == before_place(self.tree_spec()@, self.handles_spec(), sibling),
    {
        match self.node_of(sibling) {
            None => None,
            Some(s) => match self.tree.parent_of(s) {
                Ok(Some(p)) => Some(Place::Before(p, s)),
                _ => None,
            },
        }
    }

    /// Where append-based-on-parent-node puts a child.
    fn based_of(&self, element: ParserHandle, prev: ParserHandle) -> (r: Option<Place>)
        requires
            self.inv(),
        ensures
            r == based_place(self.tree_spec()@, self.handles_spec(), element, prev),
    {
        match self.node_of(element) {
            None => None,
            Some(e) => match self.tree.parent_of(e) {
                Ok(Some(p)) => Some(Place::Before(p, e)),
                _ => match self.node_of(prev) {
                    Some(q) => Some(Place::Last(q)),
                    None => None,
                },
            },
        }
    }

    /// Applies one operation to the tree.
    fn apply(&mut self, op: ParseOperation) -> (r: Result<(), DomError>)
        requires
            old(self).inv(),
            old(self).tree_spec()@.len() < SLOT_CAPACITY,
        ensures
            final(self).inv(),
            final(self).tree_spec().root_id() == old(self).tree_spec().root_id(),
            final(self).state_spec() == old(self).state_spec(),
            final(self).incomplete_spec() == old(self).incomplete_spec(),
            applied(
                old(self).tree_spec()@,
                old(self).tree_spec().root_id(),
                old(self).handles_spec(),
                op,
                final(self).tree_spec()@,
                final(self).handles_spec(),
                r,
            ),
            final(self).quirks_spec() == match op {
                ParseOperation::SetQuirksMode { mode } => mode,
                _ => old(self).quirks_spec(),
            },
            final(self).line_spec() == match op {
                ParseOperation::SetCurrentLine { line } => line,
                _ => old(self).line_spec(),
            },
            final(self).doctype_spec() == match op {
                ParseOperation::AppendDoctypeToDocument(d) => Some(d),
                _ => old(self).doctype_spec(),
            },
    {
        let ghost m = self.tree@;
        let ghost hs = self.handles@;
        match op {
            ParseOperation::CreateElement { node, name, attrs } => self.create(
                node,
                Some(name),
                attrs,
                String::new(),
            ),
            ParseOperation::CreateComment { node, text } => self.create(node, None, Vec::new(), text),
            ParseOperation::Append { parent, child } => match self.node_of(parent) {
                None => Err(DomError::UnknownNode),
                Some(p) => self.put_child(Place::Last(p), child),
            },
            ParseOperation::AppendBeforeSibling { sibling, child } => match self.before_of(sibling) {
                None => Err(DomError::UnknownNode),
                Some(place) => self.put_child(place, child),
            },
            ParseOperation::AppendBasedOnParentNode { element, prev_element, child } => match self.based_of(
                element,
                prev_element,
            ) {
                None => Err(DomError::UnknownNode),
                Some(place) => self.put_child(place, child),
            },
            ParseOperation::AddAttrsIfMissing { target, attrs } => match self.node_of(target) {
                None => Err(DomError::UnknownNode),
                Some(t) => {
                    let r = self.tree.add_attrs_if_missing(t, attrs);
                    proof {
                        self.lemma_handles_kept(m, hs);
                    }
                    r
                },
            },
            ParseOperation::RemoveFromParent { target } => match self.node_of(target) {
                None => Err(DomError::UnknownNode),
                Some(t) => {
                    let r = self.tree.detach(t);
                    proof {
                        lemma_moved_keeps(m, self.tree.root_id(), t, t, 0);
                        self.lemma_handles_kept(m, hs);
                    }
                    r
                },
            },
            ParseOperation::AppendDoctypeToDocument(d) => {
                self.doctype = Some(d);
                Ok(())
            },
            ParseOperation::SetQuirksMode { mode } => {
                self.quirks_mode = mode;
                Ok(())
            },
            ParseOperation::SetCurrentLine { line } => {
                self.current_line = line;
                Ok(())
            },
            ParseOperation::MarkScriptAlreadyStarted { .. } => Ok(()),
            ParseOperation::FinishedParsing => Ok(()),
            ParseOperation::ReparentChildren { node, new_parent } => match (
                self.node_of(node),
                self.node_of(new_parent),
            ) {
                (Some(n), Some(np)) => {
                    let r = self.tree.reparent_children(n, np);
                    proof {
                        lemma_fold_keeps(m, self.tree.root_id(), np, m[n].children);
                        self.lemma_handles_kept(m, hs);
                    }
                    r
                },
                _ => Err(DomError::UnknownNode),
            },
            ParseOperation::GetTemplateContents { .. } => Err(DomError::UnsupportedOperation),
            ParseOperation::AssociateWithForm { .. } => Err(DomError::UnsupportedOperation),
            ParseOperation::CreatePI { .. } => Err(DomError::UnsupportedOperation),
        }
    }

    /// Applies the next operation of the stream, in order. A missing or
    /// foreign node, or a cycle, aborts the load; an operation that the
    /// engine does not support is reported and marks the document
    /// incomplete; the end of parsing completes the load. Outside a running
    /// load nothing is applied.
    pub fn recv(&mut self, op: ParseOperation) -> (r: Result<(), DomError>)
        requires
            old(self).inv(),
            old(self).tree_spec()@.len() < SLOT_CAPACITY,
        ensures
            final(self).inv(),
            old(self).state_spec() != LoadState::Loading ==> {
                &&& r == Err::<(), DomError>(DomError::ChannelClosed)
                &&& *final(self) == *old(self)
            },
            old(self).state_spec() == LoadState::Loading ==> {
                &&& applied(
                    old(self).tree_spec()@,
                    old(self).tree_spec().root_id(),
                    old(self).handles_spec(),
                    op,
                    final(self).tree_spec()@,
                    final(self).handles_spec(),
                    r,
                )
                &&& final(self).state_spec() == next_state(op is FinishedParsing, r)
                &&& final(self).incomplete_spec() == (old(self).incomplete_spec() || r == Err::<
                    (),
                    DomError,
                >(DomError::UnsupportedOperation))
                &&& final(self).quirks_spec() == match op {
                    ParseOperation::SetQuirksMode { mode } => mode,
                    _ => old(self).quirks_spec(),
                }
                &&& final(self).line_spec() == match op {
                    ParseOperation::SetCurrentLine { line } => line,
                    _ => old(self).line_spec(),
                }
                &&& final(self).doctype_spec() == match op {
                    ParseOperation::AppendDoctypeToDocument(d) => Some(d),
                    _ => old(self).doctype_spec(),
                }
            },
    {
        if self.state != LoadState::Loading {
            return Err(DomError::ChannelClosed);
        }
        let finish = match op {
            ParseOperation::FinishedParsing => true,
            _ => false,
        };
        let r = self.apply(op);
        match r {
            Ok(_) => {
                if finish {
                    self.state = LoadState::Loaded;
                }
            },
            Err(DomError::UnsupportedOperation) => {
                self.incomplete = true;
            },
            Err(e) => {
                self.state = LoadState::Failed(e);
            },
        }
        r
    }
}

} // verus!
