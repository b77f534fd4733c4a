use vstd::prelude::*;
use vstd::string::StringExecFns;
use crate::model::{
    adjacent_texts, child_links, coalesce, coalesce_around, coalesced, descends, detached, is_text,
    keeps_nontext, lemma_acyclic_kept, lemma_chain_back, lemma_chain_bounded, lemma_child_descends,
    lemma_coalesce_around, lemma_detached, lemma_index_of, lemma_link, lemma_moved,
    lemma_moved_keeps, lemma_no_descendant_left, lemma_pruned, lemma_rekind, lemma_unlink, link,
    merge, moved, next_sibling_is, on_chain, parent_links, parents_kept, pruned, reaches_top,
    rooted, unlink, well_formed, well_linked, with_kind, Nodes, parent_kept_or_lost,
    released,
};
use crate::node::{
    add_missing, add_missing_attrs, attrs_view, same_chars, Attribute, DomError, KindView, Node,
    NodeId, NodeKind, NodeView, QualifiedName,
};
use crate::slots::{
    slot_contents, slots_contains, slots_index, slots_index_mut, slots_insert, slots_len, slots_new,
    slots_remove, NodeSlots, SLOT_CAPACITY,
};

verus! {

/// The node store: every node of one document, addressed by `NodeId`, and
/// the identifier of its document node.
pub struct DomTree {
    root: NodeId,
    slots: NodeSlots,
}

impl View for DomTree {
    type V = Nodes;

    closed spec fn view(&self) -> Nodes {
        slot_contents(self.slots).map_values(|n: Node| n@)
    }
}

/// The error, if any, of making `c` a child of `p`.
pub open spec fn attach_error(m: Nodes, root: NodeId, p: NodeId, c: NodeId) -> Option<DomError> {
    if !m.contains_key(p) || !m.contains_key(c) {
        Some(DomError::UnknownNode)
    } else if descends(m, p, c) {
        Some(DomError::CycleDetected)
    } else if c == root {
        Some(DomError::UnsupportedOperation)
    } else {
        None
    }
}

/// The error, if any, of placing `c` next to the child `s` of `p`.
pub open spec fn sibling_error(m: Nodes, root: NodeId, p: NodeId, s: NodeId, c: NodeId) -> Option<
    DomError,
> {
    if !m.contains_key(s) || m[s].parent != Some(p) {
        Some(DomError::UnknownNode)
    } else {
        attach_error(m, root, p, c)
    }
}

pub open spec fn outcome(e: Option<DomError>) -> Result<(), DomError> {
    match e {
        Some(e) => Err(e),
        None => Ok(()),
    }
}

/// `c` is moved under `p` at position `i` of what remains after detaching
/// it. Where detaching `c` merged `p` itself away (a text node right after
/// `c`, with text right before it), nothing is left to link `c` under and it
/// stays detached.
pub open spec fn moved_or_detached(m: Nodes, p: NodeId, c: NodeId, i: int) -> Nodes {
    if detached(m, c).contains_key(p) {
        moved(m, p, c, i)
    } else {
        detached(m, c)
    }
}

/// The state after `c` becomes the last child of `p`.
pub open spec fn appended(m: Nodes, p: NodeId, c: NodeId) -> Nodes {
    moved_or_detached(m, p, c, detached(m, c)[p].children.len() as int)
}

/// The state after `c` becomes the first child of `p`.
pub open spec fn prepended(m: Nodes, p: NodeId, c: NodeId) -> Nodes {
    moved_or_detached(m, p, c, 0)
}

/// The state after `c` is placed right before the child `s` of `p`.
pub open spec fn placed_before(m: Nodes, p: NodeId, s: NodeId, c: NodeId) -> Nodes {
    let ch = m[p].children;
    if c == s || (m[c].parent == Some(p) && ch.index_of(c) + 1 == ch.index_of(s)) {
        m
    } else {
        moved_or_detached(m, p, c, detached(m, c)[p].children.index_of(s))
    }
}

/// The state after `c` is placed right after the child `s` of `p`.
pub open spec fn placed_after(m: Nodes, p: NodeId, s: NodeId, c: NodeId) -> Nodes {
    let ch = m[p].children;
    let i = ch.index_of(s);
    if c == s {
        m
    } else if i + 1 == ch.len() {
        appended(m, p, c)
    } else if ch[i + 1] == c {
        m
    } else {
        moved_or_detached(m, p, c, detached(m, c)[p].children.index_of(ch[i + 1]))
    }
}

/// `id` is an element whose local name is `local`.
pub open spec fn is_element_named(m: Nodes, id: NodeId, local: Seq<char>) -> bool {
    m.contains_key(id) && match m[id].kind {
        KindView::Element { name, .. } => name.local == local,
        _ => false,
    }
}

/// The first of `s[i..]` that is an element named `local`.
pub open spec fn first_named_from(m: Nodes, s: Seq<NodeId>, local: Seq<char>, i: int) -> Option<
    NodeId,
>
    decreases s.len() - i,
{
    if i < 0 || i >= s.len() {
        None
    } else if is_element_named(m, s[i], local) {
        Some(s[i])
    } else {
        first_named_from(m, s, local, i + 1)
    }
}

/// The first child of `p` that is an element named `local`.
pub open spec fn child_named(m: Nodes, p: NodeId, local: Seq<char>) -> Option<NodeId> {
    first_named_from(m, m[p].children, local, 0)
}

/// The first child named `local` of the node `p`, if there is one.
pub open spec fn child_named_of(m: Nodes, p: Option<NodeId>, local: Seq<char>) -> Option<NodeId> {
    match p {
        Some(q) => child_named(m, q, local),
        None => None,
    }
}

pub proof fn lemma_first_named_live(m: Nodes, s: Seq<NodeId>, local: Seq<char>, i: int)
    ensures
        first_named_from(m, s, local, i) is Some ==> m.contains_key(
            first_named_from(m, s, local, i)->0,
        ),
    decreases s.len() - i,
{
    if 0 <= i < s.len() && !is_element_named(m, s[i], local) {
        lemma_first_named_live(m, s, local, i + 1);
    }
}

/// The sibling right after `y`, if it has one.
pub open spec fn next_sibling(m: Nodes, y: NodeId) -> Option<NodeId> {
    match m[y].parent {
        None => None,
        Some(p) => {
            let ch = m[p].children;
            let i = ch.index_of(y);
            if i + 1 < ch.len() {
                Some(ch[i + 1])
            } else {
                None
            }
        },
    }
}

/// The sibling right before `y`, if it has one.
pub open spec fn previous_sibling(m: Nodes, y: NodeId) -> Option<NodeId> {
    match m[y].parent {
        None => None,
        Some(p) => {
            let ch = m[p].children;
            let i = ch.index_of(y);
            if i > 0 {
                Some(ch[i - 1])
            } else {
                None
            }
        },
    }
}

/// Each node of `s` in turn becomes the last child of `np`; the first that
/// cannot ends the moves with its error.
pub open spec fn reparent_fold(m: Nodes, root: NodeId, np: NodeId, s: Seq<NodeId>) -> (Nodes, Result<
    (),
    DomError,
>)
    decreases s.len(),
{
    if s.len() == 0 {
        (m, Ok(()))
    } else {
        match attach_error(m, root, np, s[0]) {
            Some(e) => (m, Err(e)),
            None => reparent_fold(appended(m, np, s[0]), root, np, s.drop_first()),
        }
    }
}

/// The moves of `reparent_fold` keep the invariant, and every node that is
/// not a text node.
pub proof fn lemma_fold_keeps(m: Nodes, root: NodeId, np: NodeId, s: Seq<NodeId>)
    requires
        well_formed(m, root),
    ensures
        well_formed(reparent_fold(m, root, np, s).0, root),
        keeps_nontext(m, reparent_fold(m, root, np, s).0),
    decreases s.len(),
{
    if s.len() > 0 && attach_error(m, root, np, s[0]) is None {
        let c = s[0];
        lemma_detached(m, root, c);
        let i = detached(m, c)[np].children.len() as int;
        if detached(m, c).contains_key(np) {
            lemma_moved(m, root, np, c, i);
        }
        lemma_moved_keeps(m, root, np, c, i);
        let m1 = appended(m, np, c);
        lemma_fold_keeps(m1, root, np, s.drop_first());
        let m2 = reparent_fold(m, root, np, s).0;
        assert forall|y: NodeId| #[trigger] m.contains_key(y) && !(m[y].kind is Text) implies m2.contains_key(y)
            && !(m2[y].kind is Text) by {
            assert(m1.contains_key(y) && !(m1[y].kind is Text));
        }
    }
}

/// The view of a new node without parent or children.
pub open spec fn fresh_view(k: KindView) -> NodeView {
    NodeView { parent: None, children: Seq::empty(), kind: k }
}

impl DomTree {
    /// The identifier of the document node.
    pub closed spec fn root_id(&self) -> NodeId {
        self.root
    }

    /// The invariant of the store.
    pub open spec fn wf(&self) -> bool {
        well_formed(self@, self.root_id())
    }

    proof fn lemma_view(&self)
        ensures
            self@.dom() == slot_contents(self.slots).dom(),
            forall|id: NodeId| #[trigger] self@.contains_key(id) ==> self@[id] == slot_contents(
                self.slots,
            )[id]@,
    {
        assert(self@.dom() =~= slot_contents(self.slots).dom());
    }

    /// A tree that holds only its document node.
    pub fn new() -> (t: DomTree)
        ensures
            t.wf(),
            t@.dom() == set![t.root_id()],
            t@[t.root_id()] == fresh_view(KindView::Document),
    {
        let mut slots = slots_new();
        let root = slots_insert(
            &mut slots,
            Node { parent: None, children: Vec::new(), kind: NodeKind::Document },
        );
        let t = DomTree { root, slots };
        proof {
            t.lemma_view();
            assert(t@.dom() =~= set![root]);
            assert(t@[root] =~= fresh_view(KindView::Document));
            let m = t@;
            assert forall|x: NodeId| #[trigger] m.contains_key(x) implies exists|k: nat|
                reaches_top(m, x, k) by {
                assert(reaches_top(m, x, 0));
            }
            assert(t@.dom().finite());
        }
        t
    }

    /// The identifier of the document node.
    pub fn root(&self) -> (r: NodeId)
        ensures
            r == self.root_id(),
    {
        self.root
    }

    /// The number of live nodes.
    pub fn len(&self) -> (r: usize)
        requires
            self.wf(),
        ensures
            r as nat == self@.len(),
    {
        proof {
            self.lemma_view();
        }
        slots_len(&self.slots)
    }

    /// Whether `id` names a live node of this tree.
    pub fn contains(&self, id: NodeId) -> (r: bool)
        requires
            self.wf(),
        ensures
            r == self@.contains_key(id),
    {
        proof {
            self.lemma_view();
        }
        if id.check_canonical() {
            slots_contains(&self.slots, id)
        } else {
            false
        }
    }

    /// The node named by `id`, if it is live.
    pub fn node(&self, id: NodeId) -> (r: Option<&Node>)
        requires
            self.wf(),
        ensures
            match r {
                Some(n) => self@.contains_key(id) && n@ == self@[id],
                None => !self@.contains_key(id),
            },
    {
        proof {
            self.lemma_view();
        }
        if self.contains(id) {
            Some(slots_index(&self.slots, id))
        } else {
            None
        }
    }

    fn get(&self, id: NodeId) -> (r: &Node)
        requires
            self.wf(),
            self@.contains_key(id),
        ensures
            r@ == self@[id],
    {
        proof {
            self.lemma_view();
        }
        slots_index(&self.slots, id)
    }

    /// The parent of a live node.
    pub fn parent_of(&self, id: NodeId) -> (r: Result<Option<NodeId>, DomError>)
        requires
            self.wf(),
        ensures
            r == if self@.contains_key(id) {
                Ok(self@[id].parent)
            } else {
                Err::<Option<NodeId>, DomError>(DomError::UnknownNode)
            },
    {
        match self.node(id) {
            Some(n) => Ok(n.parent),
            None => Err(DomError::UnknownNode),
        }
    }

    /// The children of a live node, in document order.
    pub fn children_of(&self, id: NodeId) -> (r: Result<&Vec<NodeId>, DomError>)
        requires
            self.wf(),
        ensures
            match r {
                Ok(v) => self@.contains_key(id) && v@ == self@[id].children,
                Err(e) => !self@.contains_key(id) && e == DomError::UnknownNode,
            },
    {
        match self.node(id) {
            Some(n) => Ok(&n.children),
            None => Err(DomError::UnknownNode),
        }
    }

    /// Stores a new parentless node of the given kind.
    fn add_node(&mut self, kind: NodeKind) -> (r: NodeId)
        requires
            old(self).wf(),
            old(self)@.len() < SLOT_CAPACITY,
            !(kind is Document),
        ensures
            final(self).wf(),
            final(self).root_id() == old(self).root_id(),
            !old(self)@.contains_key(r),
            final(self)@ == old(self)@.insert(r, fresh_view(kind@)),
    {
        proof {
            self.lemma_view();
        }
        let ghost m = self@;
        let node = Node { parent: None, children: Vec::new(), kind };
        let r = slots_insert(&mut self.slots, node);
        proof {
            let m2 = self@;
            assert(m2 =~= m.insert(r, fresh_view(kind@)));
            assert(rooted(m2, self.root));
            assert(parents_kept(m, m2));
            lemma_acyclic_kept(m, m2);
            assert forall|p: NodeId, j: int| !#[trigger] adjacent_texts(m2, p, j) by {
                if adjacent_texts(m2, p, j) && p != r {
                    assert(m.contains_key(m[p].children[j]));
                    assert(m.contains_key(m[p].children[j + 1]));
                    assert(adjacent_texts(m, p, j));
                }
            }
            assert(child_links(m2)) by {
                assert forall|x: NodeId, k: int|
                    m2.contains_key(x) && 0 <= k < m2[x].children.len() implies m2.contains_key(
                    #[trigger] m2[x].children[k],
                ) && m2[m2[x].children[k]].parent == Some(x) by {
                    assert(m.contains_key(m[x].children[k]));
                }
            }
            assert(parent_links(m2));
            assert(m2.dom().finite());
        }
        r
    }

    /// Creates a parentless comment node.
    pub fn add_comment(&mut self, content: String) -> (r: NodeId)
        requires
            old(self).wf(),
            old(self)@.len() < SLOT_CAPACITY,
        ensures
            final(self).wf(),
            final(self).root_id() == old(self).root_id(),
            !old(self)@.contains_key(r),
            final(self)@ == old(self)@.insert(r, fresh_view(KindView::Comment { content: content@ })),
    {
        self.add_node(NodeKind::Comment { content })
    }

    /// Creates a parentless text node.
    pub fn add_text(&mut self, contents: String) -> (r: NodeId)
        requires
            old(self).wf(),
            old(self)@.len() < SLOT_CAPACITY,
        ensures
            final(self).wf(),
            final(self).root_id() == old(self).root_id(),
            !old(self)@.contains_key(r),
            final(self)@ == old(self)@.insert(r, fresh_view(KindView::Text { contents: contents@ })),
    {
        self.add_node(NodeKind::Text { contents })
    }

    /// The position of `c` among the children of `p`.
    fn position_of(&self, p: NodeId, c: NodeId) -> (i: usize)
        requires
            self.wf(),
            self@.contains_key(p),
            self@[p].children.contains(c),
        ensures
            i == self@[p].children.index_of(c),
            i < self@[p].children.len(),
            self@[p].children[i as int] == c,
    {
        let ch = &self.get(p).children;
        let ghost s = self@[p].children;
        assert(s.no_duplicates());
        let mut i: usize = 0;
        while i < ch.len()
            invariant
                s == ch@,
                s == self@[p].children,
                s.contains(c),
                s.no_duplicates(),
                i <= s.len(),
                forall|k: int| 0 <= k < i ==> s[k] != c,
            decreases s.len() - i,
        {
            if ch[i] == c {
                proof {
                    let j = s.index_of(c);
                    assert(s[j] == c);
                }
                return i;
            }
            i = i + 1;
        }
        proof {
            let j = choose|j: int| 0 <= j < s.len() && s[j] == c;
            assert(s[j] != c);
        }
        0
    }

    /// Removes `c` from the children of its parent and clears its parent.
    /// Returns the position it had.
    fn unlink_exec(&mut self, c: NodeId) -> (i: usize)
        requires
            old(self).wf(),
            old(self)@.contains_key(c),
            old(self)@[c].parent is Some,
        ensures
            final(self).root_id() == old(self).root_id(),
            final(self)@ == unlink(old(self)@, c),
            i == old(self)@[old(self)@[c].parent->0].children.index_of(c),
    {
        let ghost m = self@;
        proof {
            self.lemma_view();
            lemma_unlink(m, self.root, c);
        }
        let p = self.get(c).parent.unwrap();
        proof {
            assert(m[p].children.contains(c));
        }
        let i = self.position_of(p, c);
        {
            let pn = slots_index_mut(&mut self.slots, p);
            pn.children.remove(i);
        }
        {
            let cn = slots_index_mut(&mut self.slots, c);
            cn.parent = None;
        }
        proof {
            assert(self@ =~= unlink(m, c));
        }
        i
    }

    /// Makes the parentless `c` the child of `p` at position `i`.
    fn link_exec(&mut self, p: NodeId, i: usize, c: NodeId)
        requires
            old(self)@.dom().finite(),
            old(self)@.contains_key(p),
            old(self)@.contains_key(c),
            p != c,
            i <= old(self)@[p].children.len(),
        ensures
            final(self).root_id() == old(self).root_id(),
            final(self)@ == link(old(self)@, p, i as int, c),
    {
        let ghost m = self@;
        proof {
            self.lemma_view();
        }
        {
            let pn = slots_index_mut(&mut self.slots, p);
            pn.children.insert(i, c);
        }
        {
            let cn = slots_index_mut(&mut self.slots, c);
            cn.parent = Some(p);
        }
        proof {
            assert(self@ =~= link(m, p, i as int, c));
        }
    }

    /// Merges the text children of `p` at `j` and `j + 1`.
    fn merge_exec(&mut self, p: NodeId, j: usize)
        requires
            well_linked(old(self)@, old(self).root_id()),
            adjacent_texts(old(self)@, p, j as int),
        ensures
            final(self).root_id() == old(self).root_id(),
            final(self)@ == merge(old(self)@, p, j as int),
    {
        let ghost m = self@;
        proof {
            self.lemma_view();
        }
        let pn = slots_index(&self.slots, p);
        assert(pn.children@ == m[p].children);
        let len = pn.children.len();
        assert(j + 1 < len);
        let l = pn.children[j];
        let r = pn.children[j + 1];
        proof {
            assert(m[p].children.no_duplicates());
            assert(l != r);
        }
        proof {
            crate::model::lemma_parent_differs(m, l);
            crate::model::lemma_parent_differs(m, r);
            let kr = choose|k: nat| reaches_top(m, r, k);
            crate::model::lemma_no_two_cycle(m, r, p, kr);
            assert forall|y: NodeId| m[r].children.contains(y) implies m.contains_key(y) && y != l
                && y != p && y != r by {
                let k = choose|k: int| 0 <= k < m[r].children.len() && m[r].children[k] == y;
                assert(m[m[r].children[k]].parent == Some(r));
            }
        }
        let removed = slots_remove(&mut self.slots, r).unwrap();
        let Node { parent: _, children: kids, kind } = removed;
        let tail = match kind {
            NodeKind::Text { contents } => contents,
            _ => String::new(),
        };
        {
            let ln = slots_index_mut(&mut self.slots, l);
            match &mut ln.kind {
                NodeKind::Text { contents } => contents.append(tail.as_str()),
                _ => {},
            }
        }
        {
            let pn = slots_index_mut(&mut self.slots, p);
            pn.children.remove(j + 1);
        }
        let ghost base = self@;
        proof {
            assert(base =~= m.insert(
                l,
                crate::model::with_kind(
                    m[l],
                    KindView::Text { contents: crate::model::text_of(m[l].kind) + crate::model::text_of(m[r].kind) },
                ),
            ).insert(p, crate::model::with_children(m[p], m[p].children.remove(j + 1))).remove(r));
            assert(self@ =~= released(base, kids@.take(0)));
        }
        let mut i: usize = 0;
        while i < kids.len()
            invariant
                kids@ == m[r].children,
                kids@.no_duplicates(),
                i <= kids@.len(),
                forall|y: NodeId| kids@.contains(y) ==> base.contains_key(y),
                self.root == old(self).root,
                self@ == released(base, kids@.take(i as int)),
            decreases kids@.len() - i,
        {
            let k = kids[i];
            proof {
                self.lemma_view();
                assert(kids@.contains(k));
                assert(!kids@.take(i as int).contains(k)) by {
                    if kids@.take(i as int).contains(k) {
                        let q = choose|q: int| 0 <= q < i && kids@.take(i as int)[q] == k;
                        assert(kids@[q] == kids@[i as int]);
                    }
                }
            }
            let ghost before = self@;
            {
                let kn = slots_index_mut(&mut self.slots, k);
                kn.parent = None;
            }
            proof {
                self.lemma_view();
                assert(kids@.take(i + 1) =~= kids@.take(i as int).push(k));
                let t1 = kids@.take(i + 1);
                let t0 = kids@.take(i as int);
                assert forall|y: NodeId| #[trigger] t1.contains(y) <==> (t0.contains(y) || y == k) by {
                    if t1.contains(y) {
                        let q = choose|q: int| 0 <= q < t1.len() && t1[q] == y;
                        if q < i {
                            assert(t0[q] == y);
                        }
                    }
                    if t0.contains(y) {
                        let q = choose|q: int| 0 <= q < t0.len() && t0[q] == y;
                        assert(t1[q] == y);
                    }
                    if y == k {
                        assert(t1[i as int] == k);
                    }
                }
                assert(self@ =~= before.insert(k, crate::model::with_parent(before[k], None)));
                assert(self@ =~= released(base, kids@.take(i + 1)));
            }
            i = i + 1;
        }
        proof {
            assert(kids@.take(i as int) =~= kids@);
            assert(self@ =~= merge(m, p, j as int));
        }
    }

    /// Whether the child of `p` at `j` is a text node.
    fn text_at(&self, p: NodeId, j: usize) -> (r: bool)
        requires
            well_linked(self@, self.root_id()),
            self@.contains_key(p),
            j < self@[p].children.len(),
        ensures
            r == is_text(self@, self@[p].children[j as int]),
    {
        proof {
            self.lemma_view();
        }
        let pn = slots_index(&self.slots, p);
        let c = pn.children[j];
        assert(self@.contains_key(c));
        match slots_index(&self.slots, c).kind {
            NodeKind::Text { .. } => true,
            _ => false,
        }
    }

    fn adjacent_texts_exec(&self, p: NodeId, j: usize) -> (r: bool)
        requires
            well_linked(self@, self.root_id()),
            self@.contains_key(p),
        ensures
            r == adjacent_texts(self@, p, j as int),
    {
        proof {
            self.lemma_view();
        }
        let len = slots_index(&self.slots, p).children.len();
        if j < len && len - j > 1 {
            self.text_at(p, j) && self.text_at(p, j + 1)
        } else {
            false
        }
    }

    fn coalesce_exec(&mut self, p: NodeId, j: usize)
        requires
            well_linked(old(self)@, old(self).root_id()),
            old(self)@.contains_key(p),
        ensures
            final(self).root_id() == old(self).root_id(),
            final(self)@ == coalesce(old(self)@, p, j as int),
    {
        if self.adjacent_texts_exec(p, j) {
            self.merge_exec(p, j);
        }
    }

    fn coalesce_around_exec(&mut self, p: NodeId, j: usize)
        requires
            well_linked(old(self)@, old(self).root_id()),
            old(self)@.contains_key(p),
        ensures
            final(self).root_id() == old(self).root_id(),
            final(self)@ == coalesce_around(old(self)@, p, j as int),
    {
        if j > 0 && self.adjacent_texts_exec(p, j - 1) {
            self.merge_exec(p, j - 1);
        } else {
            self.coalesce_exec(p, j);
        }
    }

    /// Takes `c` out of its parent's children, if it has a parent, and
    /// coalesces the siblings that this makes adjacent.
    fn detach_exec(&mut self, c: NodeId)
        requires
            old(self).wf(),
            old(self)@.contains_key(c),
        ensures
            final(self).wf(),
            final(self).root_id() == old(self).root_id(),
            final(self)@ == detached(old(self)@, c),
    {
        let ghost m = self@;
        proof {
            lemma_detached(m, self.root, c);
        }
        match self.get(c).parent {
            None => {},
            Some(p) => {
                proof {
                    lemma_unlink(m, self.root, c);
                }
                let i = self.unlink_exec(c);
                if i > 0 {
                    self.coalesce_exec(p, i - 1);
                }
            },
        }
    }

    /// Whether `x` is `a` or one of its descendants.
    fn descends_exec(&self, x: NodeId, a: NodeId) -> (r: bool)
        requires
            self.wf(),
            self@.contains_key(x),
        ensures
            r == descends(self@, x, a),
    {
        let ghost m = self@;
        let ghost k0 = choose|k: nat| reaches_top(m, x, k);
        let ghost mut k = k0;
        let mut cur = x;
        loop
            invariant
                self.wf(),
                m == self@,
                reaches_top(m, x, k0),
                reaches_top(m, cur, k),
                on_chain(m, a, x, k0) == on_chain(m, a, cur, k),
            decreases k,
        {
            if cur == a {
                return true;
            }
            match self.get(cur).parent {
                None => {
                    proof {
                        if descends(m, x, a) {
                            let j = choose|j: nat| on_chain(m, a, x, j);
                            lemma_chain_bounded(m, a, x, j, k0);
                        }
                    }
                    return false;
                },
                Some(q) => {
                    cur = q;
                    proof {
                        k = (k - 1) as nat;
                    }
                },
            }
        }
    }

    /// Links the parentless `c` under `p` at `i` and coalesces it with its
    /// new neighbours.
    fn place(&mut self, p: NodeId, c: NodeId, i: usize)
        requires
            old(self).wf(),
            old(self)@.contains_key(p),
            old(self)@.contains_key(c),
            old(self)@[c].parent is None,
            c != old(self).root_id(),
            !descends(old(self)@, p, c),
            i <= old(self)@[p].children.len(),
        ensures
            final(self).wf(),
            final(self).root_id() == old(self).root_id(),
            final(self)@ == coalesce_around(link(old(self)@, p, i as int, c), p, i as int),
    {
        let ghost m = self@;
        proof {
            lemma_link(m, self.root, p, i as int, c);
            lemma_coalesce_around(link(m, p, i as int, c), self.root, p, i as int);
            if p == c {
                assert(on_chain(m, c, p, 0));
            }
        }
        self.link_exec(p, i, c);
        self.coalesce_around_exec(p, i);
    }

    /// Checks what making `c` a child of `p` asks of them.
    fn check_attach(&self, p: NodeId, c: NodeId) -> (r: Result<(), DomError>)
        requires
            self.wf(),
        ensures
            r == outcome(attach_error(self@, self.root_id(), p, c)),
    {
        if !self.contains(p) || !self.contains(c) {
            return Err(DomError::UnknownNode);
        }
        if self.descends_exec(p, c) {
            return Err(DomError::CycleDetected);
        }
        if c == self.root {
            return Err(DomError::UnsupportedOperation);
        }
        Ok(())
    }

    proof fn lemma_detach_for_place(&self, m: Nodes, p: NodeId, c: NodeId)
        requires
            well_formed(m, self.root_id()),
            self@ == detached(m, c),
            attach_error(m, self.root_id(), p, c) is None,
        ensures
            self.wf(),
            self@.contains_key(c),
            self@[c].parent is None,
            !descends(self@, p, c),
    {
        lemma_detached(m, self.root, c);
        if descends(self@, p, c) {
            let k = choose|k: nat| on_chain(self@, c, p, k);
            lemma_chain_back(m, self@, c, p, k);
        }
    }

    /// Makes `child` the last child of `parent`, taking it out of its
    /// former parent first. Fails, changing nothing, with `UnknownNode` when
    /// either is not live, with `CycleDetected` when `parent` is `child` or
    /// one of its descendants, and with `UnsupportedOperation` when `child`
    /// is the document node. Text siblings made adjacent are coalesced: the
    /// earlier keeps its identity and takes the later one's text; the later
    /// is destroyed and its children, if any, stay live and parentless.
    pub fn append_child(&mut self, parent: NodeId, child: NodeId) -> (r: Result<(), DomError>)
        requires
            old(self).wf(),
        ensures
            final(self).wf(),
            final(self).root_id() == old(self).root_id(),
            r == outcome(attach_error(old(self)@, old(self).root_id(), parent, child)),
            final(self)@ == if r is Ok {
                appended(old(self)@, parent, child)
            } else {
                old(self)@
            },
    {
        let ghost m = self@;
        self.check_attach(parent, child)?;
        self.detach_exec(child);
        proof {
            self.lemma_detach_for_place(m, parent, child);
        }
        if !self.contains(parent) {
            return Ok(());
        }
        let len = self.get(parent).children.len();
        self.place(parent, child, len);
        Ok(())
    }

    /// Makes `child` the first child of `parent`, taking it out of its
    /// former parent first. Fails as `append_child` does.
    pub fn prepend_child(&mut self, parent: NodeId, child: NodeId) -> (r: Result<(), DomError>)
        requires
            old(self).wf(),
        ensures
            final(self).wf(),
            final(self).root_id() == old(self).root_id(),
            r == outcome(attach_error(old(self)@, old(self).root_id(), parent, child)),
            final(self)@ == if r is Ok {
                prepended(old(self)@, parent, child)
            } else {
                old(self)@
            },
    {
        let ghost m = self@;
        self.check_attach(parent, child)?;
        self.detach_exec(child);
        proof {
            self.lemma_detach_for_place(m, parent, child);
        }
        if !self.contains(parent) {
            return Ok(());
        }
        self.place(parent, child, 0);
        Ok(())
    }

    /// Removes `child` from its parent's children and clears its parent.
    /// Its subtree stays as it is. Text siblings that this makes adjacent
    /// are coalesced.
    pub fn detach(&mut self, child: NodeId) -> (r: Result<(), DomError>)
        requires
            old(self).wf(),
        ensures
            final(self).wf(),
            final(self).root_id() == old(self).root_id(),
            r == if old(self)@.contains_key(child) {
                Ok::<(), DomError>(())
            } else {
                Err(DomError::UnknownNode)
            },
            final(self)@ == if r is Ok {
                detached(old(self)@, child)
            } else {
                old(self)@
            },
    {
        if !self.contains(child) {
            return Err(DomError::UnknownNode);
        }
        self.detach_exec(child);
        Ok(())
    }

    /// Checks what placing `c` next to the child `s` of `p` asks of them.
    fn check_sibling(&self, p: NodeId, s: NodeId, c: NodeId) -> (r: Result<(), DomError>)
        requires
            self.wf(),
        ensures
            r == outcome(sibling_error(self@, self.root_id(), p, s, c)),
            r is Ok ==> self@[p].children.contains(s),
    {
        if !self.contains(s) {
            return Err(DomError::UnknownNode);
        }
        match self.get(s).parent {
            Some(q) => {
                if q != p {
                    return Err(DomError::UnknownNode);
                }
            },
            None => {
                return Err(DomError::UnknownNode);
            },
        }
        self.check_attach(p, c)
    }

    /// Detaches `c`, then links it under `p` right before `anchor`, a child
    /// of `p` that the detaching keeps.
    fn move_before(&mut self, p: NodeId, anchor: NodeId, c: NodeId)
        requires
            old(self).wf(),
            attach_error(old(self)@, old(self).root_id(), p, c) is None,
            old(self)@.contains_key(anchor),
            old(self)@[anchor].parent == Some(p),
            anchor != c,
            !next_sibling_is(old(self)@, c, anchor),
        ensures
            final(self).wf(),
            final(self).root_id() == old(self).root_id(),
            final(self)@ == moved_or_detached(
                old(self)@,
                p,
                c,
                detached(old(self)@, c)[p].children.index_of(anchor),
            ),
    {
        let ghost m = self@;
        proof {
            lemma_detached(m, self.root, c);
        }
        self.detach_exec(c);
        proof {
            self.lemma_detach_for_place(m, p, c);
        }
        if !self.contains(p) {
            return;
        }
        proof {
            assert(self@.contains_key(anchor));
            assert(parent_kept_or_lost(m, self@, anchor));
            assert(self@[anchor].parent == Some(p));
            assert(self@[p].children.contains(anchor));
        }
        let i = self.position_of(p, anchor);
        self.place(p, c, i);
    }

    /// Makes `child` the sibling right before `sibling`, a child of `parent`.
    /// Fails with `UnknownNode` when `sibling` is not a live child of
    /// `parent`, and otherwise as `append_child` does.
    pub fn insert_before(&mut self, parent: NodeId, sibling: NodeId, child: NodeId) -> (r: Result<
        (),
        DomError,
    >)
        requires
            old(self).wf(),
        ensures
            final(self).wf(),
            final(self).root_id() == old(self).root_id(),
            r == outcome(sibling_error(old(self)@, old(self).root_id(), parent, sibling, child)),
            final(self)@ == if r is Ok {
                placed_before(old(self)@, parent, sibling, child)
            } else {
                old(self)@
            },
    {
        let ghost m = self@;
        self.check_sibling(parent, sibling, child)?;
        if child == sibling {
            return Ok(());
        }
        match self.get(child).parent {
            Some(q) => {
                if q == parent {
                    let ic = self.position_of(parent, child);
                    let is = self.position_of(parent, sibling);
                    if is > 0 && ic == is - 1 {
                        return Ok(());
                    }
                }
            },
            None => {},
        }
        proof {
            let ch = m[parent].children;
            if next_sibling_is(m, child, sibling) {
                assert(ch.contains(child));
                lemma_index_of(ch, child);
                lemma_index_of(ch, sibling);
            }
        }
        self.move_before(parent, sibling, child);
        Ok(())
    }

    /// Makes `child` the sibling right after `sibling`, a child of `parent`.
    /// Fails as `insert_before` does.
    pub fn insert_after(&mut self, parent: NodeId, sibling: NodeId, child: NodeId) -> (r: Result<
        (),
        DomError,
    >)
        requires
            old(self).wf(),
        ensures
            final(self).wf(),
            final(self).root_id() == old(self).root_id(),
            r == outcome(sibling_error(old(self)@, old(self).root_id(), parent, sibling, child)),
            final(self)@ == if r is Ok {
                placed_after(old(self)@, parent, sibling, child)
            } else {
                old(self)@
            },
    {
        let ghost m = self@;
        self.check_sibling(parent, sibling, child)?;
        if child == sibling {
            return Ok(());
        }
        let is = self.position_of(parent, sibling);
        let len = self.get(parent).children.len();
        if len - is == 1 {
            self.detach_exec(child);
            proof {
                self.lemma_detach_for_place(m, parent, child);
            }
            if !self.contains(parent) {
                return Ok(());
            }
            let l = self.get(parent).children.len();
            self.place(parent, child, l);
            return Ok(());
        }
        let next = self.get(parent).children[is + 1];
        if next == child {
            return Ok(());
        }
        proof {
            let ch = m[parent].children;
            assert(ch.contains(next));
            assert(ch.no_duplicates());
            lemma_index_of(ch, next);
            assert(m[next].parent == Some(parent));
            if next_sibling_is(m, child, next) {
                assert(ch.contains(child));
                lemma_index_of(ch, child);
            }
        }
        self.move_before(parent, next, child);
        Ok(())
    }

    /// Frees `node` and all its descendants, after detaching it. Their
    /// identifiers stop resolving.
    pub fn destroy_subtree(&mut self, node: NodeId) -> (r: Result<(), DomError>)
        requires
            old(self).wf(),
        ensures
            final(self).wf(),
            final(self).root_id() == old(self).root_id(),
            r == if !old(self)@.contains_key(node) {
                Err(DomError::UnknownNode)
            } else if node == old(self).root_id() {
                Err(DomError::UnsupportedOperation)
            } else {
                Ok::<(), DomError>(())
            },
            final(self)@ == if r is Ok {
                pruned(detached(old(self)@, node), node)
            } else {
                old(self)@
            },
    {
        if !self.contains(node) {
            return Err(DomError::UnknownNode);
        }
        if node == self.root {
            return Err(DomError::UnsupportedOperation);
        }
        proof {
            lemma_detached(self@, self.root, node);
        }
        self.detach_exec(node);
        let ghost m1 = self@;
        let ghost root = self.root;
        proof {
            self.lemma_view();
            lemma_pruned(m1, root, node);
            assert(on_chain(m1, node, node, 0));
        }
        let mut work: Vec<NodeId> = Vec::new();
        work.push(node);
        assert(work@[0] == node);
        while work.len() > 0
            invariant
                well_formed(m1, root),
                self.root == root,
                m1[node].parent is None,
                self@.dom().finite(),
                self@.dom() == slot_contents(self.slots).dom(),
                forall|id: NodeId| #[trigger] self@.contains_key(id) ==> self@[id] == slot_contents(
                    self.slots,
                )[id]@,
                forall|y: NodeId| #[trigger] self@.contains_key(y) ==> m1.contains_key(y) && self@[y]
                    == m1[y],
                forall|y: NodeId| #[trigger] m1.contains_key(y) && !self@.contains_key(y) ==> descends(
                    m1,
                    y,
                    node,
                ),
                forall|y: NodeId| #[trigger] m1.contains_key(y) && !self@.contains_key(y) ==> (
                m1[y].parent is None || !self@.contains_key(m1[y].parent->0)),
                work@.no_duplicates(),
                forall|i: int| 0 <= i < work@.len() ==> self@.contains_key(#[trigger] work@[i])
                    && descends(m1, work@[i], node) && (m1[work@[i]].parent is None
                    || !self@.contains_key(m1[work@[i]].parent->0)),
                forall|y: NodeId| #[trigger] self@.contains_key(y) && m1[y].parent is Some
                    && !self@.contains_key(m1[y].parent->0) ==> work@.contains(y),
                self@.contains_key(node) ==> work@.contains(node),
            decreases self@.len(),
        {
            let ghost w0 = work@;
            let w = work.pop().unwrap();
            let ghost before = self@;
            let ghost wk = work@;
            let removed = slots_remove(&mut self.slots, w).unwrap();
            let mut kids = removed.children;
            proof {
                assert(self@.dom() =~= slot_contents(self.slots).dom());
                assert(self@.dom() =~= before.dom().remove(w));
                let ks = m1[w].children;
                assert(kids@ == ks);
                assert(ks.no_duplicates());
                assert forall|i: int| 0 <= i < ks.len() implies self@.contains_key(#[trigger] ks[i])
                    && !wk.contains(ks[i]) && m1[ks[i]].parent == Some(w) by {
                    assert(m1.contains_key(ks[i]));
                    if !before.contains_key(ks[i]) {
                        assert(m1[ks[i]].parent == Some(w));
                    }
                    if wk.contains(ks[i]) {
                        let k = choose|k: int| 0 <= k < wk.len() && wk[k] == ks[i];
                        assert(w0[k] == ks[i]);
                    }
                }
                let kw = choose|k: nat| on_chain(m1, node, w, k);
                assert forall|i: int| 0 <= i < ks.len() implies descends(m1, #[trigger] ks[i], node) by {
                    lemma_child_descends(m1, node, w, ks[i], kw);
                }
            }
            work.append(&mut kids);
            proof {
                let ks = m1[w].children;
                assert forall|i: int| 0 <= i < work@.len() implies self@.contains_key(#[trigger] work@[i])
                    && descends(m1, work@[i], node) && (m1[work@[i]].parent is None
                    || !self@.contains_key(m1[work@[i]].parent->0)) by {
                    if i >= wk.len() {
                        assert(work@[i] == ks[i - wk.len()]);
                    } else {
                        assert(work@[i] == w0[i]);
                    }
                }
                assert(work@.no_duplicates()) by {
                    assert forall|a: int, b: int| 0 <= a < b < work@.len() implies work@[a] != work@[b] by {
                        if b >= wk.len() && a < wk.len() {
                            assert(work@[b] == ks[b - wk.len()]);
                            assert(wk.contains(work@[a]));
                        } else if a >= wk.len() {
                            assert(work@[a] == ks[a - wk.len()]);
                            assert(work@[b] == ks[b - wk.len()]);
                        } else {
                            assert(work@[a] == w0[a] && work@[b] == w0[b]);
                        }
                    }
                }
                assert forall|y: NodeId| #[trigger] self@.contains_key(y) && m1[y].parent is Some
                    && !self@.contains_key(m1[y].parent->0) implies work@.contains(y) by {
                    let q = m1[y].parent->0;
                    if q == w {
                        assert(m1[w].children.contains(y));
                        let k = choose|k: int| 0 <= k < ks.len() && ks[k] == y;
                        assert(work@[wk.len() + k] == y);
                    } else {
                        assert(w0.contains(y));
                        let k = choose|k: int| 0 <= k < w0.len() && w0[k] == y;
                        assert(y != w);
                        assert(k < wk.len());
                        assert(work@[k] == y);
                    }
                }
                if self@.contains_key(node) {
                    assert(w0.contains(node));
                    let k = choose|k: int| 0 <= k < w0.len() && w0[k] == node;
                    assert(k < wk.len());
                    assert(work@[k] == node);
                }
            }
        }
        proof {
            let m2 = self@;
            let mp = pruned(m1, node);
            assert forall|y: NodeId| #[trigger] m2.contains_key(y) implies !descends(m1, y, node) by {
                if descends(m1, y, node) {
                    let k = choose|k: nat| on_chain(m1, node, y, k);
                    lemma_no_descendant_left(m1, m2, node, y, k);
                }
            }
            assert(m2 =~= mp);
        }
        Ok(())
    }

    /// Creates a parentless element. Of attributes with the same name, the
    /// first is kept.
    pub fn add_element(&mut self, name: QualifiedName, attrs: Vec<Attribute>) -> (r: NodeId)
        requires
            old(self).wf(),
            old(self)@.len() < SLOT_CAPACITY,
        ensures
            final(self).wf(),
            final(self).root_id() == old(self).root_id(),
            !old(self)@.contains_key(r),
            final(self)@ == old(self)@.insert(
                r,
                fresh_view(
                    KindView::Element {
                        name: name@,
                        attrs: add_missing(Seq::empty(), attrs_view(attrs@)),
                    },
                ),
            ),
    {
        let mut kept: Vec<Attribute> = Vec::new();
        proof {
            assert(attrs_view(kept@) =~= Seq::empty());
        }
        add_missing_attrs(&mut kept, attrs);
        self.add_node(NodeKind::Element { name, attrs: kept })
    }

    /// Adds to the element `target` each attribute whose name it does not
    /// have yet.
    pub fn add_attrs_if_missing(&mut self, target: NodeId, attrs: Vec<Attribute>) -> (r: Result<
        (),
        DomError,
    >)
        requires
            old(self).wf(),
        ensures
            final(self).wf(),
            final(self).root_id() == old(self).root_id(),
            r == if !old(self)@.contains_key(target) {
                Err(DomError::UnknownNode)
            } else if !(old(self)@[target].kind is Element) {
                Err(DomError::UnsupportedOperation)
            } else {
                Ok::<(), DomError>(())
            },
            final(self)@ == match (r, old(self)@[target].kind) {
                (Ok(_), KindView::Element { name, attrs: old_attrs }) => old(self)@.insert(
                    target,
                    with_kind(
                        old(self)@[target],
                        KindView::Element {
                            name: name,
                            attrs: add_missing(old_attrs, attrs_view(attrs@)),
                        },
                    ),
                ),
                _ => old(self)@,
            },
    {
        if !self.contains(target) {
            return Err(DomError::UnknownNode);
        }
        match self.get(target).kind {
            NodeKind::Element { .. } => {},
            _ => {
                return Err(DomError::UnsupportedOperation);
            },
        }
        let ghost m = self@;
        proof {
            self.lemma_view();
        }
        let ghost added = attrs_view(attrs@);
        {
            let n = slots_index_mut(&mut self.slots, target);
            match &mut n.kind {
                NodeKind::Element { attrs: existing, .. } => add_missing_attrs(existing, attrs),
                _ => {},
            }
        }
        proof {
            let k = match m[target].kind {
                KindView::Element { name, attrs: old_attrs } => KindView::Element {
                    name: name,
                    attrs: add_missing(old_attrs, added),
                },
                _ => m[target].kind,
            };
            assert(self@ =~= m.insert(target, with_kind(m[target], k)));
            lemma_rekind(m, self.root, target, k);
        }
        Ok(())
    }

    /// The first direct child of `parent` that is an element whose local
    /// name is `local`.
    pub fn find_child_by_tag(&self, parent: NodeId, local: &str) -> (r: Result<
        Option<NodeId>,
        DomError,
    >)
        requires
            self.wf(),
        ensures
            r == if self@.contains_key(parent) {
                Ok(child_named(self@, parent, local@))
            } else {
                Err::<Option<NodeId>, DomError>(DomError::UnknownNode)
            },
    {
        if !self.contains(parent) {
            return Err(DomError::UnknownNode);
        }
        let ch = &self.get(parent).children;
        let ghost s = ch@;
        let mut i: usize = 0;
        while i < ch.len()
            invariant
                self.wf(),
                s == ch@,
                s == self@[parent].children,
                self@.contains_key(parent),
                i <= s.len(),
                child_named(self@, parent, local@) == first_named_from(self@, s, local@, i as int),
            decreases s.len() - i,
        {
            let c = ch[i];
            assert(self@.contains_key(c));
            let named = match &self.get(c).kind {
                NodeKind::Element { name, .. } => same_chars(name.local.as_str(), local),
                _ => false,
            };
            if named {
                return Ok(Some(c));
            }
            i = i + 1;
        }
        Ok(None)
    }

    /// The document's root element: the first child of the document node
    /// named `html`.
    pub fn html(&self) -> (r: Option<NodeId>)
        requires
            self.wf(),
        ensures
            r == child_named(self@, self.root_id(), "html"@),
    {
        match self.find_child_by_tag(self.root, "html") {
            Ok(h) => h,
            Err(_) => None,
        }
    }

    /// The first child of the root element named `head`.
    pub fn head(&self) -> (r: Option<NodeId>)
        requires
            self.wf(),
        ensures
            r == child_named_of(self@, child_named(self@, self.root_id(), "html"@), "head"@),
    {
        self.child_of_html("head")
    }

    /// The first child of the root element named `body`.
    pub fn body(&self) -> (r: Option<NodeId>)
        requires
            self.wf(),
        ensures
            r == child_named_of(self@, child_named(self@, self.root_id(), "html"@), "body"@),
    {
        self.child_of_html("body")
    }

    fn child_of_html(&self, local: &str) -> (r: Option<NodeId>)
        requires
            self.wf(),
        ensures
            r == child_named_of(self@, child_named(self@, self.root_id(), "html"@), local@),
    {
        match self.html() {
            Some(h) => {
                proof {
                    lemma_first_named_live(self@, self@[self.root].children, "html"@, 0);
                }
                match self.find_child_by_tag(h, local) {
                    Ok(b) => b,
                    Err(_) => None,
                }
            },
            None => None,
        }
    }

    /// The sibling right after `id`, if `id` is live and has one.
    pub fn next_sibling_of(&self, id: NodeId) -> (r: Option<NodeId>)
        requires
            self.wf(),
        ensures
            r == if self@.contains_key(id) {
                next_sibling(self@, id)
            } else {
                None
            },
            r is Some ==> self@.contains_key(r->0),
    {
        if !self.contains(id) {
            return None;
        }
        match self.get(id).parent {
            None => None,
            Some(p) => {
                proof {
                    assert(self@[p].children.contains(id));
                }
                let i = self.position_of(p, id);
                let ch = &self.get(p).children;
                if ch.len() - i > 1 {
                    let n = ch[i + 1];
                    assert(self@.contains_key(n));
                    Some(n)
                } else {
                    None
                }
            },
        }
    }

    /// The sibling right before `id`, if `id` is live and has one.
    pub fn previous_sibling_of(&self, id: NodeId) -> (r: Option<NodeId>)
        requires
            self.wf(),
        ensures
            r == if self@.contains_key(id) {
                previous_sibling(self@, id)
            } else {
                None
            },
    {
        if !self.contains(id) {
            return None;
        }
        match self.get(id).parent {
            None => None,
            Some(p) => {
                proof {
                    assert(self@[p].children.contains(id));
                }
                let i = self.position_of(p, id);
                if i > 0 {
                    Some(self.get(p).children[i - 1])
                } else {
                    None
                }
            },
        }
    }

    /// Moves every child of `node`, in order, to the end of the children of
    /// `new_parent`. The first child that cannot move ends the moves with
    /// its error; the ones before it stay moved.
    pub fn reparent_children(&mut self, node: NodeId, new_parent: NodeId) -> (r: Result<(), DomError>)
        requires
            old(self).wf(),
        ensures
            final(self).wf(),
            final(self).root_id() == old(self).root_id(),
            !old(self)@.contains_key(node) || !old(self)@.contains_key(new_parent) ==> r == Err::<
                (),
                DomError,
            >(DomError::UnknownNode) && final(self)@ == old(self)@,
            old(self)@.contains_key(node) && old(self)@.contains_key(new_parent) ==> (
            final(self)@, r) == reparent_fold(
                old(self)@,
                old(self).root_id(),
                new_parent,
                old(self)@[node].children,
            ),
    {
        if !self.contains(node) || !self.contains(new_parent) {
            return Err(DomError::UnknownNode);
        }
        let ghost m0 = self@;
        let ghost root = self.root;
        let kids = copy_ids(&self.get(node).children);
        let ghost s = kids@;
        assert(s.skip(0) =~= s);
        let mut i: usize = 0;
        while i < kids.len()
            invariant
                self.wf(),
                self.root_id() == root,
                root == old(self).root_id(),
                m0 == old(self)@,
                m0.contains_key(node),
                m0.contains_key(new_parent),
                s == m0[node].children,
                s == kids@,
                i <= s.len(),
                reparent_fold(m0, root, new_parent, s) == reparent_fold(
                    self@,
                    root,
                    new_parent,
                    s.skip(i as int),
                ),
            decreases s.len() - i,
        {
            proof {
                assert(s.skip(i as int)[0] == s[i as int]);
                assert(s.skip(i as int).drop_first() =~= s.skip(i + 1));
            }
            match self.append_child(new_parent, kids[i]) {
                Err(e) => {
                    return Err(e);
                },
                Ok(()) => {},
            }
            i = i + 1;
        }
        proof {
            assert(s.skip(i as int).len() == 0);
        }
        Ok(())
    }
}

/// A copy of a list of identifiers.
fn copy_ids(v: &Vec<NodeId>) -> (r: Vec<NodeId>)
    ensures
        r@ == v@,
{
    let mut r: Vec<NodeId> = Vec::new();
    let mut i: usize = 0;
    while i < v.len()
        invariant
            i <= v@.len(),
            r@ == v@.take(i as int),
        decreases v@.len() - i,
    {
        r.push(v[i]);
        i = i + 1;
        assert(r@ =~= v@.take(i as int));
    }
    assert(v@.take(i as int) =~= v@);
    r
}

} // verus!
