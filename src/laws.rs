use vstd::prelude::*;
use crate::model::{
    adjacent_texts, descends, detached, is_text, lemma_detached, link,
    next_sibling_is, on_chain, parent_kept_or_lost, pruned, reaches_top, text_of, well_formed, Nodes,
};
use crate::node::{DomError, KindView, NodeId};
use crate::tree::{appended, attach_error, fresh_view, sibling_error};

verus! {

proof fn lemma_reach_more(m: Nodes, y: NodeId, n: nat)
    requires
        reaches_top(m, y, n),
    ensures
        reaches_top(m, y, n + 1),
    decreases n,
{
    if m[y].parent is Some {
        lemma_reach_more(m, m[y].parent->0, (n - 1) as nat);
    }
}

/// An ancestor reaches the top in no more steps than its descendant.
proof fn lemma_ancestor_reach(m: Nodes, a: NodeId, x: NodeId, k: nat, n: nat)
    requires
        on_chain(m, a, x, k),
        reaches_top(m, x, n),
    ensures
        reaches_top(m, a, n),
    decreases k,
{
    if x != a {
        let p = m[x].parent->0;
        lemma_ancestor_reach(m, a, p, (k - 1) as nat, (n - 1) as nat);
        lemma_reach_more(m, a, (n - 1) as nat);
    }
}

proof fn lemma_no_loop(m: Nodes, x: NodeId, q: NodeId, k: nat, n: nat)
    requires
        m.contains_key(x),
        m[x].parent == Some(q),
        reaches_top(m, x, n),
    ensures
        !on_chain(m, x, q, k),
    decreases n,
{
    if on_chain(m, x, q, k) {
        lemma_ancestor_reach(m, x, q, k, (n - 1) as nat);
        lemma_no_loop(m, x, q, k, (n - 1) as nat);
    }
}

/// What every tree of the store satisfies: exactly one document node, which
/// is nobody's child; a node is among its parent's children exactly when it
/// names that parent, and at most once; no node descends from its own child;
/// no two adjacent siblings are both text nodes.
pub proof fn law_tree_invariants(m: Nodes, root: NodeId)
    requires
        well_formed(m, root),
    ensures
        forall|x: NodeId| #[trigger] m.contains_key(x) ==> (m[x].kind is Document <==> x == root),
        m[root].parent is None,
        forall|p: NodeId, c: NodeId|
            m.contains_key(p) && m.contains_key(c) ==> (#[trigger] m[p].children.contains(c)
                <==> #[trigger] m[c].parent == Some(p)),
        forall|p: NodeId| #[trigger] m.contains_key(p) ==> m[p].children.no_duplicates(),
        forall|x: NodeId|
            #[trigger] m.contains_key(x) && m[x].parent is Some ==> !descends(m, m[x].parent->0, x),
        forall|p: NodeId, j: int| !#[trigger] adjacent_texts(m, p, j),
{
    assert forall|p: NodeId, c: NodeId|
        m.contains_key(p) && m.contains_key(c) implies (#[trigger] m[p].children.contains(c)
        <==> #[trigger] m[c].parent == Some(p)) by {
        if m[p].children.contains(c) {
            let i = choose|i: int| 0 <= i < m[p].children.len() && m[p].children[i] == c;
            assert(m[m[p].children[i]].parent == Some(p));
        }
    }
    assert forall|x: NodeId| #[trigger] m.contains_key(x) && m[x].parent is Some implies !descends(
        m,
        m[x].parent->0,
        x,
    ) by {
        let q = m[x].parent->0;
        if descends(m, q, x) {
            let k = choose|k: nat| on_chain(m, x, q, k);
            let n = choose|n: nat| reaches_top(m, x, n);
            lemma_no_loop(m, x, q, k, n);
        }
    }
}

/// Appending a node that is not a text node makes it the last child, after
/// the children that were there, in their order.
pub proof fn law_append_keeps_order(m: Nodes, root: NodeId, p: NodeId, c: NodeId)
    requires
        well_formed(m, root),
        attach_error(m, root, p, c) is None,
        !(m[c].kind is Text),
        detached(m, c).contains_key(p),
    ensures
        appended(m, p, c)[p].children == detached(m, c)[p].children.push(c),
        appended(m, p, c)[c].parent == Some(p),
{
    lemma_detached(m, root, c);
    if p == c {
        assert(on_chain(m, c, p, 0));
    }
    let m1 = detached(m, c);
    let n = m1[p].children.len() as int;
    m1[p].children.insert_ensures(n, c);
    let m2 = link(m1, p, n, c);
    assert(!is_text(m2, c));
    assert(m2[p].children[n] == c);
    assert(!adjacent_texts(m2, p, n - 1));
    assert(!adjacent_texts(m2, p, n));
    assert(m1[p].children.insert(n, c) =~= m1[p].children.push(c));
}

/// Appending text to a parent whose last child is a text node adds the text
/// to that node: its identity stays, the children stay as they were, and the
/// new text node is gone.
pub proof fn law_text_appends_coalesce(m: Nodes, root: NodeId, p: NodeId, t: NodeId, b: Seq<char>)
    requires
        well_formed(m, root),
        m.contains_key(p),
        m[p].children.len() > 0,
        is_text(m, m[p].children.last()),
        !m.contains_key(t),
    ensures
        ({
            let m2 = appended(m.insert(t, fresh_view(KindView::Text { contents: b })), p, t);
            let l = m[p].children.last();
            &&& m2[p].children == m[p].children
            &&& m2.contains_key(l)
            &&& m2[l].kind == KindView::Text { contents: text_of(m[l].kind) + b }
            &&& !m2.contains_key(t)
        }),
{
    let v = fresh_view(KindView::Text { contents: b });
    let m1 = m.insert(t, v);
    let s = m[p].children;
    let l = s.last();
    let n = s.len() as int;
    assert(m1[t].parent is None);
    assert(detached(m1, t) == m1);
    let m2 = link(m1, p, n, t);
    assert(m2[p].children == s.insert(n, t));
    assert(s.insert(n, t)[n - 1] == l);
    assert(s.insert(n, t)[n] == t);
    assert(m.contains_key(l));
    assert(l != t);
    assert(m[l].parent == Some(p));
    crate::model::lemma_parent_differs(m, l);
    assert(adjacent_texts(m2, p, n - 1));
    assert(s.insert(n, t).remove(n) =~= s);
    assert(m2[t].children.len() == 0);
    assert(!m2[t].children.contains(l) && !m2[t].children.contains(p));
}

/// Once a subtree is destroyed, its identifiers are unknown to every
/// operation: none of them is live, and placing a node next to, under or as
/// one of them fails with `UnknownNode`.
pub proof fn law_destroyed_ids_unknown(m: Nodes, root: NodeId, x: NodeId, y: NodeId, other: NodeId)
    requires
        descends(detached(m, x), y, x),
    ensures
        !pruned(detached(m, x), x).contains_key(y),
        attach_error(pruned(detached(m, x), x), root, y, other) == Some(DomError::UnknownNode),
        attach_error(pruned(detached(m, x), x), root, other, y) == Some(DomError::UnknownNode),
        sibling_error(pruned(detached(m, x), x), root, other, y, other) == Some(
            DomError::UnknownNode,
        ),
        sibling_error(pruned(detached(m, x), x), root, other, other, y) is Some,
{
}

/// Making a node the child of one of its descendants, or of itself, fails
/// with `CycleDetected`.
pub proof fn law_cycle_rejected(m: Nodes, root: NodeId, x: NodeId, y: NodeId)
    requires
        m.contains_key(x),
        m.contains_key(y),
        descends(m, x, y),
    ensures
        attach_error(m, root, x, y) == Some(DomError::CycleDetected),
{
}

/// Detaching a node leaves its subtree as it was: every node of the subtree
/// stays live, with the same kind and children, and every one but the
/// detached node keeps its parent.
pub proof fn law_detach_keeps_subtree(m: Nodes, root: NodeId, c: NodeId, y: NodeId)
    requires
        well_formed(m, root),
        m.contains_key(c),
        m.contains_key(y),
        descends(m, y, c),
    ensures
        detached(m, c).contains_key(y),
        detached(m, c)[y].children == m[y].children,
        detached(m, c)[y].kind == m[y].kind,
        y != c ==> detached(m, c)[y].parent == m[y].parent,
{
    law_tree_invariants(m, root);
    lemma_detached(m, root, c);
    let m2 = detached(m, c);
    if y != c {
        let j = choose|j: nat| on_chain(m, c, y, j);
        let z = m[y].parent->0;
        assert(on_chain(m, c, z, (j - 1) as nat));
        assert(m[z].children.contains(y));
        if m[c].parent is Some {
            let q = m[c].parent->0;
            if m[y].parent == m[c].parent {
                assert(descends(m, q, c));
            }
            if !m2.contains_key(y) {
                assert(next_sibling_is(m, c, y));
            }
            if !m2.contains_key(z) {
                assert(next_sibling_is(m, c, z));
                if z == c {
                    assert(m[q].children.contains(c));
                } else {
                    let jz = choose|jz: nat| on_chain(m, c, z, jz);
                    assert(on_chain(m, c, q, (jz - 1) as nat));
                }
            }
            if y == q {
                assert(descends(m, q, c));
            }
        } else {
            assert(m2 == m);
        }
        assert(parent_kept_or_lost(m, m2, y));
    }
}

} // verus!
