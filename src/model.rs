use vstd::prelude::*;
use crate::node::{KindView, NodeId, NodeView};

verus! {

/// The abstract state of a tree: the view of each live node, by identifier.
pub type Nodes = Map<NodeId, NodeView>;

pub open spec fn is_text(m: Nodes, id: NodeId) -> bool {
    m.contains_key(id) && m[id].kind is Text
}

pub open spec fn text_of(k: KindView) -> Seq<char> {
    match k {
        KindView::Text { contents } => contents,
        _ => Seq::empty(),
    }
}

pub open spec fn with_children(n: NodeView, s: Seq<NodeId>) -> NodeView {
    NodeView { parent: n.parent, children: s, kind: n.kind }
}

pub open spec fn with_parent(n: NodeView, p: Option<NodeId>) -> NodeView {
    NodeView { parent: p, children: n.children, kind: n.kind }
}

pub open spec fn with_kind(n: NodeView, k: KindView) -> NodeView {
    NodeView { parent: n.parent, children: n.children, kind: k }
}

/// `x` reaches a parentless node in at most `k` steps up, through live nodes.
pub open spec fn reaches_top(m: Nodes, x: NodeId, k: nat) -> bool
    decreases k,
{
    m.contains_key(x) && match m[x].parent {
        None => true,
        Some(p) => k > 0 && reaches_top(m, p, (k - 1) as nat),
    }
}

/// `a` is `x` or one of its first `k` ancestors.
pub open spec fn on_chain(m: Nodes, a: NodeId, x: NodeId, k: nat) -> bool
    decreases k,
{
    x == a || (k > 0 && m.contains_key(x) && m[x].parent is Some && on_chain(
        m,
        a,
        m[x].parent->0,
        (k - 1) as nat,
    ))
}

/// `x` is `a` or a descendant of `a`.
pub open spec fn descends(m: Nodes, x: NodeId, a: NodeId) -> bool {
    exists|k: nat| on_chain(m, a, x, k)
}

/// Every ancestor chain ends: no node is its own ancestor.
pub open spec fn acyclic(m: Nodes) -> bool {
    forall|x: NodeId| #[trigger] m.contains_key(x) ==> exists|k: nat| reaches_top(m, x, k)
}

/// A node's parent lists it among its children.
pub open spec fn parent_links(m: Nodes) -> bool {
    forall|c: NodeId|
        #[trigger] m.contains_key(c) && m[c].parent is Some ==> m.contains_key(m[c].parent->0)
            && m[m[c].parent->0].children.contains(c)
}

/// Every child is live and names its parent.
pub open spec fn child_links(m: Nodes) -> bool {
    forall|p: NodeId, i: int|
        m.contains_key(p) && 0 <= i < m[p].children.len() ==> m.contains_key(
            #[trigger] m[p].children[i],
        ) && m[m[p].children[i]].parent == Some(p)
}

pub open spec fn unique_children(m: Nodes) -> bool {
    forall|p: NodeId| #[trigger] m.contains_key(p) ==> m[p].children.no_duplicates()
}

/// The children at `j` and `j + 1` of `p` are both text nodes.
pub open spec fn adjacent_texts(m: Nodes, p: NodeId, j: int) -> bool {
    m.contains_key(p) && 0 <= j && j + 1 < m[p].children.len() && is_text(m, m[p].children[j])
        && is_text(m, m[p].children[j + 1])
}

/// No two adjacent siblings are both text nodes, but perhaps the pairs at
/// positions `lo..=hi` under `q`.
pub open spec fn coalesced_except(m: Nodes, q: NodeId, lo: int, hi: int) -> bool {
    forall|p: NodeId, j: int| #[trigger] adjacent_texts(m, p, j) ==> p == q && lo <= j <= hi
}

/// No two adjacent siblings are both text nodes.
pub open spec fn coalesced(m: Nodes) -> bool {
    forall|p: NodeId, j: int| !#[trigger] adjacent_texts(m, p, j)
}

/// The document node is live, parentless and the only document node.
pub open spec fn rooted(m: Nodes, root: NodeId) -> bool {
    &&& m.contains_key(root)
    &&& m[root].kind is Document
    &&& m[root].parent is None
    &&& forall|x: NodeId| #[trigger] m.contains_key(x) && m[x].kind is Document ==> x == root
}

pub open spec fn canonical_ids(m: Nodes) -> bool {
    forall|x: NodeId| #[trigger] m.contains_key(x) ==> x.is_canonical()
}

/// All that holds of a tree but the coalescing of text.
pub open spec fn well_linked(m: Nodes, root: NodeId) -> bool {
    &&& m.dom().finite()
    &&& rooted(m, root)
    &&& canonical_ids(m)
    &&& parent_links(m)
    &&& child_links(m)
    &&& unique_children(m)
    &&& acyclic(m)
}

/// The invariant of a tree.
pub open spec fn well_formed(m: Nodes, root: NodeId) -> bool {
    well_linked(m, root) && coalesced(m)
}

// ---------------------------------------------------------------------------
// Acyclicity under changes of parent pointers

/// Each live node of `m2` is parentless, or has the parent it had in `m1`,
/// and that parent is live in `m2`.
pub open spec fn parents_kept(m1: Nodes, m2: Nodes) -> bool {
    forall|y: NodeId| #[trigger] m2.contains_key(y) ==> (m2[y].parent is None || (m1.contains_key(y)
        && m2[y].parent == m1[y].parent && m2.contains_key(m2[y].parent->0)))
}

pub proof fn lemma_reach_kept(m1: Nodes, m2: Nodes, x: NodeId, k: nat)
    requires
        reaches_top(m1, x, k),
        m2.contains_key(x),
        parents_kept(m1, m2),
    ensures
        reaches_top(m2, x, k),
    decreases k,
{
    if m2[x].parent is Some {
        let q = m2[x].parent->0;
        lemma_reach_kept(m1, m2, q, (k - 1) as nat);
    }
}

pub proof fn lemma_acyclic_kept(m1: Nodes, m2: Nodes)
    requires
        acyclic(m1),
        parents_kept(m1, m2),
    ensures
        acyclic(m2),
{
    assert forall|x: NodeId| #[trigger] m2.contains_key(x) implies exists|k: nat|
        reaches_top(m2, x, k) by {
        if m2[x].parent is None {
            assert(reaches_top(m2, x, 0));
        } else {
            assert(m1.contains_key(x));
            let k = choose|k: nat| reaches_top(m1, x, k);
            lemma_reach_kept(m1, m2, x, k);
        }
    }
}

/// Once the chain from `x` ends within `k1` steps, looking further finds no
/// more ancestors.
pub proof fn lemma_chain_bounded(m: Nodes, a: NodeId, x: NodeId, k: nat, k1: nat)
    requires
        reaches_top(m, x, k1),
        on_chain(m, a, x, k),
    ensures
        on_chain(m, a, x, k1),
    decreases k,
{
    if x != a {
        let p = m[x].parent->0;
        lemma_chain_bounded(m, a, p, (k - 1) as nat, (k1 - 1) as nat);
    }
}

/// `m2` gives `c` the parent `p` and keeps every other parent; `p` is not in
/// the subtree of `c`.
pub proof fn lemma_reach_relinked(m1: Nodes, m2: Nodes, p: NodeId, c: NodeId, y: NodeId, k: nat)
    requires
        reaches_top(m1, y, k),
        !on_chain(m1, c, y, k),
        m2.dom() == m1.dom(),
        forall|z: NodeId| #[trigger] m1.contains_key(z) && z != c ==> m2[z].parent == m1[z].parent,
    ensures
        reaches_top(m2, y, k),
    decreases k,
{
    if m1[y].parent is Some {
        lemma_reach_relinked(m1, m2, p, c, m1[y].parent->0, (k - 1) as nat);
    }
}

pub proof fn lemma_reach_linked(m1: Nodes, m2: Nodes, p: NodeId, c: NodeId, x: NodeId, k: nat)
    requires
        acyclic(m1),
        reaches_top(m1, x, k),
        m1.contains_key(p),
        m1.contains_key(c),
        !descends(m1, p, c),
        m2.dom() == m1.dom(),
        m2[c].parent == Some(p),
        forall|z: NodeId| #[trigger] m1.contains_key(z) && z != c ==> m2[z].parent == m1[z].parent,
    ensures
        exists|k2: nat| reaches_top(m2, x, k2),
    decreases k,
{
    if x == c {
        let kp = choose|kp: nat| reaches_top(m1, p, kp);
        lemma_reach_relinked(m1, m2, p, c, p, kp);
        assert(reaches_top(m2, c, kp + 1));
    } else if m1[x].parent is Some {
        let q = m1[x].parent->0;
        lemma_reach_linked(m1, m2, p, c, q, (k - 1) as nat);
        let k2 = choose|k2: nat| reaches_top(m2, q, k2);
        assert(reaches_top(m2, x, k2 + 1));
    } else {
        assert(reaches_top(m2, x, 0));
    }
}

/// Giving the parentless `c` the parent `p`, which does not descend from
/// `c`, keeps the tree acyclic.
pub proof fn lemma_acyclic_linked(m1: Nodes, m2: Nodes, p: NodeId, c: NodeId)
    requires
        acyclic(m1),
        m1.contains_key(p),
        m1.contains_key(c),
        !descends(m1, p, c),
        m2.dom() == m1.dom(),
        m2[c].parent == Some(p),
        forall|z: NodeId| #[trigger] m1.contains_key(z) && z != c ==> m2[z].parent == m1[z].parent,
    ensures
        acyclic(m2),
{
    assert forall|x: NodeId| #[trigger] m2.contains_key(x) implies exists|k: nat|
        reaches_top(m2, x, k) by {
        let k = choose|k: nat| reaches_top(m1, x, k);
        lemma_reach_linked(m1, m2, p, c, x, k);
    }
}

// ---------------------------------------------------------------------------
// Edits of the abstract state

/// `c` leaves the children of its parent and becomes parentless.
pub open spec fn unlink(m: Nodes, c: NodeId) -> Nodes {
    let p = m[c].parent->0;
    let i = m[p].children.index_of(c);
    m.insert(p, with_children(m[p], m[p].children.remove(i))).insert(c, with_parent(m[c], None))
}

/// The parentless `c` becomes the child of `p` at position `i`.
pub open spec fn link(m: Nodes, p: NodeId, i: int, c: NodeId) -> Nodes {
    m.insert(p, with_children(m[p], m[p].children.insert(i, c))).insert(
        c,
        with_parent(m[c], Some(p)),
    )
}

/// Each node of `s` that `m` holds becomes parentless.
pub open spec fn released(m: Nodes, s: Seq<NodeId>) -> Nodes {
    Map::new(
        |y: NodeId| m.contains_key(y),
        |y: NodeId|
            if s.contains(y) {
                with_parent(m[y], None)
            } else {
                m[y]
            },
    )
}

/// The text children of `p` at `j` and `j + 1` become one: the first keeps
/// its identity and takes the text of the second, which is destroyed. The
/// children of the destroyed node stay live, with their subtrees, and
/// become parentless.
pub open spec fn merge(m: Nodes, p: NodeId, j: int) -> Nodes {
    let l = m[p].children[j];
    let r = m[p].children[j + 1];
    released(
        m.insert(
            l,
            with_kind(m[l], KindView::Text { contents: text_of(m[l].kind) + text_of(m[r].kind) }),
        ).insert(p, with_children(m[p], m[p].children.remove(j + 1))).remove(r),
        m[r].children,
    )
}

/// Merges the children of `p` at `j` and `j + 1` where both are text nodes.
pub open spec fn coalesce(m: Nodes, p: NodeId, j: int) -> Nodes {
    if adjacent_texts(m, p, j) {
        merge(m, p, j)
    } else {
        m
    }
}

/// Coalesces the child of `p` at `j` with the sibling before it, or else
/// with the sibling after it.
pub open spec fn coalesce_around(m: Nodes, p: NodeId, j: int) -> Nodes {
    if adjacent_texts(m, p, j - 1) {
        merge(m, p, j - 1)
    } else {
        coalesce(m, p, j)
    }
}

/// `c` leaves its parent, if it has one; the siblings that this makes
/// adjacent are coalesced.
pub open spec fn detached(m: Nodes, c: NodeId) -> Nodes {
    match m[c].parent {
        None => m,
        Some(p) => coalesce(unlink(m, c), p, m[p].children.index_of(c) - 1),
    }
}

/// `c` is detached and then becomes the child of `p` at position `i` of
/// what remains, coalesced with its neighbours.
pub open spec fn moved(m: Nodes, p: NodeId, c: NodeId, i: int) -> Nodes {
    coalesce_around(link(detached(m, c), p, i, c), p, i)
}

// ---------------------------------------------------------------------------
// The edits keep the invariant

pub proof fn lemma_remove_no_dup(s: Seq<NodeId>, i: int)
    requires
        s.no_duplicates(),
        0 <= i < s.len(),
    ensures
        s.remove(i).no_duplicates(),
        forall|x: NodeId| s.contains(x) && x != s[i] ==> #[trigger] s.remove(i).contains(x),
        !s.remove(i).contains(s[i]),
{
    s.remove_ensures(i);
    let t = s.remove(i);
    assert forall|a: int, b: int| 0 <= a < b < t.len() implies t[a] != t[b] by {
        let a1 = if a < i { a } else { a + 1 };
        let b1 = if b < i { b } else { b + 1 };
        assert(t[a] == s[a1] && t[b] == s[b1]);
    }
    assert forall|x: NodeId| s.contains(x) && x != s[i] implies #[trigger] t.contains(x) by {
        let k = choose|k: int| 0 <= k < s.len() && s[k] == x;
        if k < i {
            assert(t[k] == x);
        } else {
            assert(t[k - 1] == x);
        }
    }
    if t.contains(s[i]) {
        let k = choose|k: int| 0 <= k < t.len() && t[k] == s[i];
        let k1 = if k < i { k } else { k + 1 };
        assert(t[k] == s[k1]);
    }
}

pub proof fn lemma_insert_no_dup(s: Seq<NodeId>, i: int, c: NodeId)
    requires
        s.no_duplicates(),
        !s.contains(c),
        0 <= i <= s.len(),
    ensures
        s.insert(i, c).no_duplicates(),
        forall|x: NodeId| #[trigger] s.insert(i, c).contains(x) <==> (s.contains(x) || x == c),
{
    s.insert_ensures(i, c);
    let t = s.insert(i, c);
    assert forall|a: int, b: int| 0 <= a < b < t.len() implies t[a] != t[b] by {
        if a != i && b != i {
            let a1 = if a < i { a } else { a - 1 };
            let b1 = if b < i { b } else { b - 1 };
            assert(t[a] == s[a1] && t[b] == s[b1]);
        } else if a == i {
            let b1 = if b < i { b } else { b - 1 };
            assert(t[b] == s[b1]);
        } else {
            let a1 = if a < i { a } else { a - 1 };
            assert(t[a] == s[a1]);
        }
    }
    assert forall|x: NodeId| #[trigger] t.contains(x) <==> (s.contains(x) || x == c) by {
        if t.contains(x) {
            let k = choose|k: int| 0 <= k < t.len() && t[k] == x;
            if k < i {
                assert(s[k] == x);
            } else if k > i {
                assert(s[k - 1] == x);
            }
        }
        if s.contains(x) {
            let k = choose|k: int| 0 <= k < s.len() && s[k] == x;
            if k < i {
                assert(t[k] == x);
            } else {
                assert(t[k + 1] == x);
            }
        }
        if x == c {
            assert(t[i] == c);
        }
    }
}

pub proof fn lemma_index_of(s: Seq<NodeId>, c: NodeId)
    requires
        s.contains(c),
    ensures
        0 <= s.index_of(c) < s.len(),
        s[s.index_of(c)] == c,
{
}

pub proof fn lemma_not_own_parent(m: Nodes, x: NodeId, k: nat)
    requires
        reaches_top(m, x, k),
    ensures
        m[x].parent != Some(x),
    decreases k,
{
    if m[x].parent == Some(x) {
        lemma_not_own_parent(m, x, (k - 1) as nat);
    }
}

pub proof fn lemma_parent_differs(m: Nodes, x: NodeId)
    requires
        acyclic(m),
        m.contains_key(x),
    ensures
        m[x].parent != Some(x),
{
    let k = choose|k: nat| reaches_top(m, x, k);
    lemma_not_own_parent(m, x, k);
}

pub proof fn lemma_unlink(m: Nodes, root: NodeId, c: NodeId)
    requires
        well_formed(m, root),
        m.contains_key(c),
        m[c].parent is Some,
    ensures
        well_linked(unlink(m, c), root),
        coalesced_except(
            unlink(m, c),
            m[c].parent->0,
            m[m[c].parent->0].children.index_of(c) - 1,
            m[m[c].parent->0].children.index_of(c) - 1,
        ),
        unlink(m, c).dom() == m.dom(),
{
    let p = m[c].parent->0;
    let s = m[p].children;
    assert(s.contains(c));
    lemma_index_of(s, c);
    let i = s.index_of(c);
    let t = s.remove(i);
    s.remove_ensures(i);
    lemma_remove_no_dup(s, i);
    let m2 = unlink(m, c);
    lemma_parent_differs(m, c);
    assert(m2.dom() =~= m.dom());
    assert(c != root);
    assert(parent_links(m2)) by {
        assert forall|y: NodeId| #[trigger] m2.contains_key(y) && m2[y].parent is Some implies m2.contains_key(
            m2[y].parent->0,
        ) && m2[m2[y].parent->0].children.contains(y) by {
            assert(m.contains_key(y));
            let q = m[y].parent->0;
            if q == p {
                assert(s.contains(y));
            }
        }
    }
    assert(child_links(m2)) by {
        assert forall|x: NodeId, k: int|
            m2.contains_key(x) && 0 <= k < m2[x].children.len() implies m2.contains_key(
            #[trigger] m2[x].children[k],
        ) && m2[m2[x].children[k]].parent == Some(x) by {
            if x == p {
                let k1 = if k < i { k } else { k + 1 };
                assert(t[k] == s[k1]);
                assert(m.contains_key(s[k1]));
            } else {
                assert(m.contains_key(m[x].children[k]));
            }
        }
    }
    assert(unique_children(m2));
    assert(rooted(m2, root));
    assert(parents_kept(m, m2));
    lemma_acyclic_kept(m, m2);
    assert forall|x: NodeId, j: int| #[trigger] adjacent_texts(m2, x, j) implies x == p && i - 1 <= j
        <= i - 1 by {
        if x != p {
            assert(adjacent_texts(m, x, j));
        } else if j < i - 1 {
            assert(adjacent_texts(m, x, j));
        } else if j >= i {
            assert(t[j] == s[j + 1] && t[j + 1] == s[j + 2]);
            assert(adjacent_texts(m, x, j + 1));
        }
    }
}

/// Two nodes are not each other's parent.
pub proof fn lemma_no_two_cycle(m: Nodes, a: NodeId, b: NodeId, k: nat)
    requires
        reaches_top(m, a, k),
    ensures
        !(m[a].parent == Some(b) && m[b].parent == Some(a)),
    decreases k,
{
    if m[a].parent == Some(b) && m[b].parent == Some(a) {
        assert(reaches_top(m, b, (k - 1) as nat));
        assert(reaches_top(m, a, (k - 2) as nat));
        lemma_no_two_cycle(m, a, b, (k - 2) as nat);
    }
}

/// A node `y` of the merge keeps its parent, or is a child of the destroyed
/// node and has none now.
pub open spec fn merge_parent_ok(m: Nodes, m2: Nodes, r: NodeId, y: NodeId) -> bool {
    m2[y].parent == m[y].parent || (m2[y].parent is None && m[y].parent == Some(r))
}

pub proof fn lemma_merge(m: Nodes, root: NodeId, p: NodeId, j: int)
    requires
        well_linked(m, root),
        coalesced_except(m, p, j, j),
        adjacent_texts(m, p, j),
    ensures
        well_formed(merge(m, p, j), root),
        merge(m, p, j).dom() == m.dom().remove(m[p].children[j + 1]),
        forall|y: NodeId| #[trigger] merge(m, p, j).contains_key(y) ==> merge_parent_ok(
            m,
            merge(m, p, j),
            m[p].children[j + 1],
            y,
        ),
        forall|y: NodeId| #[trigger] merge(m, p, j).contains_key(y) && y != m[p].children[j]
            ==> merge(m, p, j)[y].kind == m[y].kind,
        forall|y: NodeId| #[trigger] merge(m, p, j).contains_key(y) && y != p ==> merge(
            m,
            p,
            j,
        )[y].children == m[y].children,
{
    let s = m[p].children;
    let l = s[j];
    let r = s[j + 1];
    let t = s.remove(j + 1);
    let kids = m[r].children;
    s.remove_ensures(j + 1);
    lemma_remove_no_dup(s, j + 1);
    let m2 = merge(m, p, j);
    assert(m.contains_key(l) && m.contains_key(r));
    assert(l != r);
    lemma_parent_differs(m, l);
    lemma_parent_differs(m, r);
    assert(p != l && p != r);
    let kr = choose|k: nat| reaches_top(m, r, k);
    lemma_no_two_cycle(m, r, p, kr);
    // a node is a child of r exactly when r is its parent
    assert forall|y: NodeId| #[trigger] m.contains_key(y) implies (kids.contains(y) <==> m[y].parent
        == Some(r)) by {
        if kids.contains(y) {
            let k = choose|k: int| 0 <= k < kids.len() && kids[k] == y;
            assert(m[kids[k]].parent == Some(r));
        }
    }
    assert(!kids.contains(p) && !kids.contains(l) && !kids.contains(r));
    assert(m2.dom() =~= m.dom().remove(r));
    assert(forall|y: NodeId| #[trigger] m2.contains_key(y) && !kids.contains(y) ==> m2[y].parent == m[y].parent);
    assert(forall|y: NodeId| #[trigger] m2.contains_key(y) && kids.contains(y) ==> m2[y].parent is None);
    assert(parent_links(m2)) by {
        assert forall|y: NodeId| #[trigger] m2.contains_key(y) && m2[y].parent is Some implies m2.contains_key(
            m2[y].parent->0,
        ) && m2[m2[y].parent->0].children.contains(y) by {
            assert(m.contains_key(y));
            assert(!kids.contains(y));
            let q = m[y].parent->0;
            assert(m[q].children.contains(y));
            if q == p {
                assert(s.contains(y));
            }
        }
    }
    assert(child_links(m2)) by {
        assert forall|x: NodeId, k: int|
            m2.contains_key(x) && 0 <= k < m2[x].children.len() implies m2.contains_key(
            #[trigger] m2[x].children[k],
        ) && m2[m2[x].children[k]].parent == Some(x) by {
            if x == p {
                let k1 = if k <= j { k } else { k + 1 };
                assert(t[k] == s[k1]);
                assert(m.contains_key(s[k1]));
                assert(m[s[k1]].parent == Some(p));
            } else {
                let ch = m[x].children[k];
                assert(m.contains_key(ch));
                assert(m[ch].parent == Some(x));
            }
        }
    }
    assert(unique_children(m2));
    assert(rooted(m2, root)) by {
        if kids.contains(root) {
            assert(m[root].parent == Some(r));
        }
    }
    assert(parents_kept(m, m2));
    lemma_acyclic_kept(m, m2);
    assert(forall|y: NodeId| #[trigger] m2.contains_key(y) ==> (is_text(m2, y) == is_text(m, y)));
    assert forall|x: NodeId, k: int| !#[trigger] adjacent_texts(m2, x, k) by {
        if adjacent_texts(m2, x, k) {
            if x != p {
                assert(m2[x].children == m[x].children);
                assert(m.contains_key(m[x].children[k]));
                assert(m.contains_key(m[x].children[k + 1]));
                assert(adjacent_texts(m, x, k));
            } else if k < j {
                assert(t[k] == s[k] && t[k + 1] == s[k + 1]);
                assert(adjacent_texts(m, x, k));
            } else if k == j {
                assert(t[k + 1] == s[k + 2]);
                assert(adjacent_texts(m, x, k + 1));
            } else {
                assert(t[k] == s[k + 1] && t[k + 1] == s[k + 2]);
                assert(adjacent_texts(m, x, k + 1));
            }
        }
    }
}

/// `y` keeps the parent it had in `m1`, or has none in `m2` where that
/// parent is gone.
pub open spec fn parent_kept_or_lost(m1: Nodes, m2: Nodes, y: NodeId) -> bool {
    m2[y].parent == m1[y].parent || (m2[y].parent is None && !m2.contains_key(m1[y].parent->0))
}

pub proof fn lemma_coalesce(m: Nodes, root: NodeId, p: NodeId, j: int)
    requires
        well_linked(m, root),
        coalesced_except(m, p, j, j),
    ensures
        well_formed(coalesce(m, p, j), root),
        coalesce(m, p, j).dom() <= m.dom(),
        forall|y: NodeId| #[trigger] coalesce(m, p, j).contains_key(y) ==> parent_kept_or_lost(
            m,
            coalesce(m, p, j),
            y,
        ),
        forall|y: NodeId| #[trigger] coalesce(m, p, j).contains_key(y) && (!is_text(m, y) || m[y].parent
            != Some(p)) ==> coalesce(m, p, j)[y].kind == m[y].kind,
        forall|y: NodeId| #[trigger] coalesce(m, p, j).contains_key(y) && y != p ==> coalesce(
            m,
            p,
            j,
        )[y].children == m[y].children,
{
    if adjacent_texts(m, p, j) {
        lemma_merge(m, root, p, j);
        assert(m[m[p].children[j]].parent == Some(p));
    }
}

pub proof fn lemma_coalesce_around(m: Nodes, root: NodeId, p: NodeId, j: int)
    requires
        well_linked(m, root),
        coalesced_except(m, p, j - 1, j),
        !(adjacent_texts(m, p, j - 1) && adjacent_texts(m, p, j)),
    ensures
        well_formed(coalesce_around(m, p, j), root),
        coalesce_around(m, p, j).dom() <= m.dom(),
{
    if adjacent_texts(m, p, j - 1) {
        lemma_merge(m, root, p, j - 1);
    } else {
        lemma_coalesce(m, root, p, j);
    }
}

pub proof fn lemma_link(m: Nodes, root: NodeId, p: NodeId, i: int, c: NodeId)
    requires
        well_formed(m, root),
        m.contains_key(p),
        m.contains_key(c),
        m[c].parent is None,
        c != root,
        !descends(m, p, c),
        0 <= i <= m[p].children.len(),
    ensures
        well_linked(link(m, p, i, c), root),
        coalesced_except(link(m, p, i, c), p, i - 1, i),
        !(adjacent_texts(link(m, p, i, c), p, i - 1) && adjacent_texts(link(m, p, i, c), p, i)),
        link(m, p, i, c).dom() == m.dom(),
{
    let s = m[p].children;
    let t = s.insert(i, c);
    if p == c {
        assert(on_chain(m, c, p, 0));
    }
    assert(!s.contains(c)) by {
        if s.contains(c) {
            let k = choose|k: int| 0 <= k < s.len() && s[k] == c;
            assert(m[s[k]].parent == Some(p));
        }
    }
    s.insert_ensures(i, c);
    lemma_insert_no_dup(s, i, c);
    let m2 = link(m, p, i, c);
    assert(m2.dom() =~= m.dom());
    assert(parent_links(m2)) by {
        assert forall|y: NodeId| #[trigger] m2.contains_key(y) && m2[y].parent is Some implies m2.contains_key(
            m2[y].parent->0,
        ) && m2[m2[y].parent->0].children.contains(y) by {
            if y != c {
                let q = m[y].parent->0;
                if q == p {
                    assert(s.contains(y));
                }
            } else {
                assert(t.contains(c));
            }
        }
    }
    assert(child_links(m2)) by {
        assert forall|x: NodeId, k: int|
            m2.contains_key(x) && 0 <= k < m2[x].children.len() implies m2.contains_key(
            #[trigger] m2[x].children[k],
        ) && m2[m2[x].children[k]].parent == Some(x) by {
            if x == p {
                if k != i {
                    let k1 = if k < i { k } else { k - 1 };
                    assert(t[k] == s[k1]);
                    assert(m.contains_key(s[k1]));
                }
            } else {
                assert(m.contains_key(m[x].children[k]));
            }
        }
    }
    assert(unique_children(m2));
    assert(rooted(m2, root));
    lemma_acyclic_linked(m, m2, p, c);
    assert(forall|y: NodeId| #[trigger] m2.contains_key(y) ==> (is_text(m2, y) == is_text(m, y)));
    assert forall|x: NodeId, k: int| #[trigger] adjacent_texts(m2, x, k) implies x == p && i - 1 <= k
        <= i by {
        if x != p {
            assert(m2[x].children == m[x].children);
            assert(m.contains_key(m[x].children[k]));
            assert(m.contains_key(m[x].children[k + 1]));
            assert(adjacent_texts(m, x, k));
        } else if k < i - 1 {
            assert(t[k] == s[k] && t[k + 1] == s[k + 1]);
            assert(adjacent_texts(m, x, k));
        } else if k > i {
            assert(t[k] == s[k - 1] && t[k + 1] == s[k]);
            assert(adjacent_texts(m, x, k - 1));
        }
    }
    if adjacent_texts(m2, p, i - 1) && adjacent_texts(m2, p, i) {
        assert(t[i - 1] == s[i - 1] && t[i + 1] == s[i]);
        assert(adjacent_texts(m, p, i - 1));
    }
}

/// Each live node of `m2` is parentless or has the parent it had in `m1`.
pub open spec fn parents_shrunk(m1: Nodes, m2: Nodes) -> bool {
    forall|y: NodeId| #[trigger] m2.contains_key(y) ==> (m2[y].parent is None || (m1.contains_key(y)
        && m2[y].parent == m1[y].parent))
}

pub proof fn lemma_chain_back(m1: Nodes, m2: Nodes, a: NodeId, x: NodeId, k: nat)
    requires
        parents_shrunk(m1, m2),
        on_chain(m2, a, x, k),
    ensures
        on_chain(m1, a, x, k),
    decreases k,
{
    if x != a {
        lemma_chain_back(m1, m2, a, m2[x].parent->0, (k - 1) as nat);
    }
}

/// `y` is the sibling right after `c`.
pub open spec fn next_sibling_is(m: Nodes, c: NodeId, y: NodeId) -> bool {
    &&& m[c].parent is Some
    &&& m[c].parent == m[y].parent
    &&& m[m[c].parent->0].children.index_of(c) + 1 == m[m[c].parent->0].children.index_of(y)
}

pub proof fn lemma_detached(m: Nodes, root: NodeId, c: NodeId)
    requires
        well_formed(m, root),
        m.contains_key(c),
    ensures
        well_formed(detached(m, c), root),
        detached(m, c).dom() <= m.dom(),
        detached(m, c).contains_key(c),
        detached(m, c)[c].parent is None,
        detached(m, c)[c].kind == m[c].kind,
        detached(m, c)[c].children == m[c].children,
        parents_shrunk(m, detached(m, c)),
        forall|y: NodeId| #[trigger] detached(m, c).contains_key(y) && !(m[y].kind is Text) ==> detached(m, c)[y].kind == m[y].kind,
        forall|y: NodeId| #[trigger] m.contains_key(y) && !(m[y].kind is Text) ==> detached(m, c).contains_key(y),
        forall|y: NodeId| #[trigger] m.contains_key(y) && !detached(m, c).contains_key(y) ==> next_sibling_is(m, c, y),
        forall|y: NodeId| #[trigger] detached(m, c).contains_key(y) && y != c ==> parent_kept_or_lost(m, detached(m, c), y),
        forall|y: NodeId| #[trigger] detached(m, c).contains_key(y) && Some(y) != m[c].parent ==> detached(m, c)[y].children == m[y].children,
        forall|y: NodeId| #[trigger] detached(m, c).contains_key(y) && m[y].parent != m[c].parent ==> detached(m, c)[y].kind == m[y].kind,
{
    if m[c].parent is Some {
        let p = m[c].parent->0;
        let i = m[p].children.index_of(c);
        lemma_unlink(m, root, c);
        let m1 = unlink(m, c);
        lemma_coalesce(m1, root, p, i - 1);
        let m2 = detached(m, c);
        let sp = m[p].children;
        sp.remove_ensures(i);
        if adjacent_texts(m1, p, i - 1) {
            let r = m1[p].children[i];
            assert(m1[r].parent == Some(p));
            assert(r != c);
            lemma_merge(m1, root, p, i - 1);
            assert(r == sp[i + 1]);
            assert(sp.no_duplicates());
            assert(m[r].parent == Some(p));
            assert forall|y: NodeId| #[trigger] m.contains_key(y) && !m2.contains_key(y) implies next_sibling_is(m, c, y) by {
                assert(y == r);
                assert(sp[i + 1] == r);
                assert(sp.contains(r));
                lemma_index_of(sp, r);
            }
        }
    }
}

pub proof fn lemma_moved(m: Nodes, root: NodeId, p: NodeId, c: NodeId, i: int)
    requires
        well_formed(m, root),
        m.contains_key(p),
        m.contains_key(c),
        c != root,
        !descends(m, p, c),
        detached(m, c).contains_key(p),
        0 <= i <= detached(m, c)[p].children.len(),
    ensures
        well_formed(moved(m, p, c, i), root),
{
    lemma_detached(m, root, c);
    let m1 = detached(m, c);
    if descends(m1, p, c) {
        let k = choose|k: nat| on_chain(m1, c, p, k);
        lemma_chain_back(m, m1, c, p, k);
    }
    lemma_link(m1, root, p, i, c);
    lemma_coalesce_around(link(m1, p, i, c), root, p, i);
}

/// What remains of `m` once `x` and all its descendants are gone.
pub open spec fn pruned(m: Nodes, x: NodeId) -> Nodes {
    Map::new(|y: NodeId| m.contains_key(y) && !descends(m, y, x), |y: NodeId| m[y])
}

pub proof fn lemma_child_descends(m: Nodes, a: NodeId, p: NodeId, c: NodeId, k: nat)
    requires
        on_chain(m, a, p, k),
        m.contains_key(c),
        m[c].parent == Some(p),
    ensures
        on_chain(m, a, c, k + 1),
{
}

pub proof fn lemma_pruned(m: Nodes, root: NodeId, x: NodeId)
    requires
        well_formed(m, root),
        m.contains_key(x),
        m[x].parent is None,
        x != root,
    ensures
        well_formed(pruned(m, x), root),
{
    let m2 = pruned(m, x);
    assert(m2.dom() =~= m.dom().filter(|y: NodeId| !descends(m, y, x)));
    assert(!descends(m, root, x)) by {
        if descends(m, root, x) {
            let k = choose|k: nat| on_chain(m, x, root, k);
            assert(on_chain(m, x, root, k));
        }
    }
    assert forall|y: NodeId| #[trigger] m2.contains_key(y) && m[y].parent is Some implies m2.contains_key(
        m[y].parent->0,
    ) by {
        let q = m[y].parent->0;
        if descends(m, q, x) {
            let k = choose|k: nat| on_chain(m, x, q, k);
            lemma_child_descends(m, x, q, y, k);
        }
    }
    assert(parent_links(m2));
    assert(child_links(m2)) by {
        assert forall|p: NodeId, i: int|
            m2.contains_key(p) && 0 <= i < m2[p].children.len() implies m2.contains_key(
            #[trigger] m2[p].children[i],
        ) && m2[m2[p].children[i]].parent == Some(p) by {
            let c = m[p].children[i];
            assert(m.contains_key(c));
            if descends(m, c, x) {
                let k = choose|k: nat| on_chain(m, x, c, k);
                assert(on_chain(m, x, p, (k - 1) as nat));
            }
        }
    }
    assert(unique_children(m2));
    assert(rooted(m2, root));
    assert(parents_kept(m, m2));
    lemma_acyclic_kept(m, m2);
    assert forall|p: NodeId, j: int| !#[trigger] adjacent_texts(m2, p, j) by {
        if adjacent_texts(m2, p, j) {
            assert(adjacent_texts(m, p, j));
        }
    }
}

/// No live node of `m2` descends from `x`, which `m2` has lost, when every
/// live node of `m2` keeps a live parent or none.
pub proof fn lemma_no_descendant_left(m1: Nodes, m2: Nodes, x: NodeId, y: NodeId, k: nat)
    requires
        m2.contains_key(y),
        !m2.contains_key(x),
        forall|z: NodeId| #[trigger] m2.contains_key(z) ==> m2[z] == m1[z],
        forall|z: NodeId| #[trigger] m2.contains_key(z) && m1[z].parent is Some ==> m2.contains_key(
            m1[z].parent->0,
        ),
    ensures
        !on_chain(m1, x, y, k),
    decreases k,
{
    if k > 0 && m1[y].parent is Some {
        lemma_no_descendant_left(m1, m2, x, m1[y].parent->0, (k - 1) as nat);
    }
}

/// An element's kind may change to another element kind.
pub proof fn lemma_rekind(m: Nodes, root: NodeId, x: NodeId, k: KindView)
    requires
        well_formed(m, root),
        m.contains_key(x),
        m[x].kind is Element,
        k is Element,
    ensures
        well_formed(m.insert(x, with_kind(m[x], k)), root),
{
    let m2 = m.insert(x, with_kind(m[x], k));
    assert(m2.dom() =~= m.dom());
    assert(parents_kept(m, m2));
    lemma_acyclic_kept(m, m2);
    assert(forall|y: NodeId| #[trigger] m2.contains_key(y) ==> (is_text(m2, y) == is_text(m, y)));
    assert forall|p: NodeId, j: int| !#[trigger] adjacent_texts(m2, p, j) by {
        if adjacent_texts(m2, p, j) {
            assert(m.contains_key(m[p].children[j]));
            assert(m.contains_key(m[p].children[j + 1]));
            assert(adjacent_texts(m, p, j));
        }
    }
    assert(child_links(m2)) by {
        assert forall|q: NodeId, i: int|
            m2.contains_key(q) && 0 <= i < m2[q].children.len() implies m2.contains_key(
            #[trigger] m2[q].children[i],
        ) && m2[m2[q].children[i]].parent == Some(q) by {
            assert(m.contains_key(m[q].children[i]));
        }
    }
    assert(rooted(m2, root));
}

/// Every node of `m1` that is not a text node is still live in `m2`, and
/// still not a text node.
pub open spec fn keeps_nontext(m1: Nodes, m2: Nodes) -> bool {
    forall|y: NodeId| #[trigger] m1.contains_key(y) && !(m1[y].kind is Text) ==> m2.contains_key(y)
        && !(m2[y].kind is Text)
}

pub proof fn lemma_merge_keeps(m: Nodes, p: NodeId, j: int)
    requires
        adjacent_texts(m, p, j),
    ensures
        keeps_nontext(m, merge(m, p, j)),
        keeps_nontext(m, coalesce(m, p, j)),
        keeps_nontext(m, coalesce_around(m, p, j + 1)),
{
}

pub proof fn lemma_moved_keeps(m: Nodes, root: NodeId, p: NodeId, c: NodeId, i: int)
    requires
        well_formed(m, root),
        m.contains_key(c),
    ensures
        keeps_nontext(m, detached(m, c)),
        keeps_nontext(m, moved(m, p, c, i)),
{
    lemma_detached(m, root, c);
    let m1 = detached(m, c);
    assert(keeps_nontext(m, m1));
    let m2 = link(m1, p, i, c);
    assert(keeps_nontext(m1, m2));
    if adjacent_texts(m2, p, i - 1) {
        lemma_merge_keeps(m2, p, i - 1);
    } else if adjacent_texts(m2, p, i) {
        lemma_merge_keeps(m2, p, i);
    }
    assert(keeps_nontext(m2, moved(m, p, c, i)));
}

/// A node that was not in `m` is no ancestor of a node of `m`.
pub proof fn lemma_fresh_not_ancestor(m: Nodes, root: NodeId, t: NodeId, v: NodeView, x: NodeId, k: nat)
    requires
        well_formed(m, root),
        !m.contains_key(t),
        m.contains_key(x),
    ensures
        !on_chain(m.insert(t, v), t, x, k),
    decreases k,
{
    if k > 0 && m[x].parent is Some {
        lemma_fresh_not_ancestor(m, root, t, v, m[x].parent->0, (k - 1) as nat);
    }
}

} // verus!
