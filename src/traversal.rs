use vstd::prelude::*;
use crate::laws::law_tree_invariants;
use crate::model::{
    child_links, descends, lemma_index_of, on_chain, reaches_top, well_formed, Nodes,
};
use crate::node::{DomError, NodeId};
use crate::tree::{next_sibling, DomTree};

verus! {

/// Going up from `y` towards `start`, the first next sibling found; none
/// once `start` is reached. `k` bounds the steps.
pub open spec fn climb(m: Nodes, start: NodeId, y: NodeId, k: nat) -> Option<NodeId>
    decreases k,
{
    if y == start {
        None
    } else {
        match next_sibling(m, y) {
            Some(n) => Some(n),
            None => match m[y].parent {
                Some(p) => if k > 0 {
                    climb(m, start, p, (k - 1) as nat)
                } else {
                    None
                },
                None => None,
            },
        }
    }
}

/// The node that follows `cur` in the pre-order walk of the subtree of
/// `start`: its first child, or else the next sibling of it or of its
/// nearest ancestor below `start` that has one.
pub open spec fn preorder_step(m: Nodes, start: NodeId, cur: NodeId) -> Option<NodeId> {
    if m[cur].children.len() > 0 {
        Some(m[cur].children[0])
    } else {
        climb(m, start, cur, choose|k: nat| reaches_top(m, cur, k))
    }
}

proof fn lemma_climb_inside(m: Nodes, root: NodeId, start: NodeId, y: NodeId, k: nat)
    requires
        well_formed(m, root),
        m.contains_key(y),
        descends(m, y, start),
    ensures
        climb(m, start, y, k) is Some ==> descends(m, climb(m, start, y, k)->0, start),
    decreases k,
{
    if y != start {
        let j = choose|j: nat| on_chain(m, start, y, j);
        let p = m[y].parent->0;
        assert(on_chain(m, start, p, (j - 1) as nat));
        assert(m.contains_key(p));
        match next_sibling(m, y) {
            Some(n) => {
                let ch = m[p].children;
                assert(ch.contains(y));
                let i = ch.index_of(y);
                assert(0 <= i + 1 < ch.len());
                assert(child_links(m));
                assert(m[ch[i + 1]].parent == Some(p));
                if n != start {
                    assert(on_chain(m, start, n, j));
                } else {
                    assert(on_chain(m, start, n, 0));
                }
            },
            None => {
                if k > 0 {
                    lemma_climb_inside(m, root, start, p, (k - 1) as nat);
                }
            },
        }
    }
}

/// Each step of a walk from `start` that is inside the subtree of `start`
/// stays inside it.
pub proof fn law_walk_stays_inside(m: Nodes, root: NodeId, start: NodeId, cur: NodeId)
    requires
        well_formed(m, root),
        m.contains_key(cur),
        descends(m, cur, start),
    ensures
        preorder_step(m, start, cur) is Some ==> descends(m, preorder_step(m, start, cur)->0, start),
{
    if m[cur].children.len() > 0 {
        let c = m[cur].children[0];
        assert(m[c].parent == Some(cur));
        let j = choose|j: nat| on_chain(m, start, cur, j);
        if c != start {
            assert(on_chain(m, start, c, j + 1));
        } else {
            assert(on_chain(m, start, c, 0));
        }
    } else {
        lemma_climb_inside(m, root, start, cur, choose|k: nat| reaches_top(m, cur, k));
    }
}

/// The child positions on the way down from `start` to `x`, looking at
/// most `k` steps up from `x`.
pub open spec fn path(m: Nodes, start: NodeId, x: NodeId, k: nat) -> Seq<int>
    decreases k,
{
    if x == start || k == 0 {
        Seq::empty()
    } else {
        match m[x].parent {
            None => Seq::empty(),
            Some(p) => path(m, start, p, (k - 1) as nat).push(m[p].children.index_of(x)),
        }
    }
}

/// The child positions on the way down from `start` to `x`.
pub open spec fn position(m: Nodes, start: NodeId, x: NodeId) -> Seq<int> {
    path(m, start, x, choose|k: nat| reaches_top(m, x, k))
}

/// `a` comes strictly before `b` in lexicographic order.
pub open spec fn lex_lt(a: Seq<int>, b: Seq<int>) -> bool
    decreases a.len(),
{
    if b.len() == 0 {
        false
    } else if a.len() == 0 {
        true
    } else if a[0] < b[0] {
        true
    } else if a[0] == b[0] {
        lex_lt(a.drop_first(), b.drop_first())
    } else {
        false
    }
}

proof fn lemma_lex_irreflexive(a: Seq<int>)
    ensures
        !lex_lt(a, a),
    decreases a.len(),
{
    if a.len() > 0 {
        lemma_lex_irreflexive(a.drop_first());
    }
}

proof fn lemma_lex_trans(a: Seq<int>, b: Seq<int>, c: Seq<int>)
    requires
        lex_lt(a, b),
        lex_lt(b, c),
    ensures
        lex_lt(a, c),
    decreases a.len(),
{
    if a.len() > 0 && b.len() > 0 && c.len() > 0 && a[0] == b[0] && b[0] == c[0] {
        lemma_lex_trans(a.drop_first(), b.drop_first(), c.drop_first());
    }
}

/// `q` followed by `i` and anything comes before `q` followed by `i + 1`;
/// `q` comes before any longer sequence that starts with it.
proof fn lemma_lex_steps(q: Seq<int>, i: int, r: Seq<int>)
    ensures
        lex_lt(q.push(i) + r, q.push(i + 1)),
        lex_lt(q, q.push(i)),
    decreases q.len(),
{
    if q.len() > 0 {
        lemma_lex_steps(q.drop_first(), i, r);
        assert((q.push(i) + r).drop_first() =~= q.drop_first().push(i) + r);
        assert(q.push(i + 1).drop_first() =~= q.drop_first().push(i + 1));
        assert(q.push(i).drop_first() =~= q.drop_first().push(i));
    }
}

proof fn lemma_path_fuel(m: Nodes, start: NodeId, x: NodeId, k1: nat, k2: nat)
    requires
        reaches_top(m, x, k1),
        reaches_top(m, x, k2),
    ensures
        path(m, start, x, k1) == path(m, start, x, k2),
    decreases k1,
{
    if x != start && m[x].parent is Some {
        lemma_path_fuel(m, start, m[x].parent->0, (k1 - 1) as nat, (k2 - 1) as nat);
    }
}

/// The position of a node below `start` extends its parent's by its index.
proof fn lemma_position_child(m: Nodes, root: NodeId, start: NodeId, x: NodeId)
    requires
        well_formed(m, root),
        m.contains_key(x),
        x != start,
        m[x].parent is Some,
    ensures
        position(m, start, x) == position(m, start, m[x].parent->0).push(
            m[m[x].parent->0].children.index_of(x),
        ),
{
    let p = m[x].parent->0;
    let k = choose|k: nat| reaches_top(m, x, k);
    assert(reaches_top(m, x, k));
    assert(reaches_top(m, p, (k - 1) as nat));
    let kp = choose|kp: nat| reaches_top(m, p, kp);
    lemma_path_fuel(m, start, p, (k - 1) as nat, kp);
}

/// A node of the subtree of `start` other than `start` has its parent in
/// that subtree, and `start` is not its child.
proof fn lemma_inside_parent(m: Nodes, root: NodeId, start: NodeId, y: NodeId)
    requires
        well_formed(m, root),
        m.contains_key(y),
        descends(m, y, start),
        y != start,
    ensures
        m[y].parent is Some,
        descends(m, m[y].parent->0, start),
{
    let j = choose|j: nat| on_chain(m, start, y, j);
    assert(on_chain(m, start, m[y].parent->0, (j - 1) as nat));
}

proof fn lemma_climb_after(m: Nodes, root: NodeId, start: NodeId, cur: NodeId, y: NodeId, r: Seq<int>, k: nat)
    requires
        well_formed(m, root),
        m.contains_key(y),
        descends(m, y, start),
        position(m, start, cur) == position(m, start, y) + r,
    ensures
        climb(m, start, y, k) is Some ==> lex_lt(
            position(m, start, cur),
            position(m, start, climb(m, start, y, k)->0),
        ),
    decreases k,
{
    if y != start {
        lemma_inside_parent(m, root, start, y);
        let p = m[y].parent->0;
        let ch = m[p].children;
        assert(ch.contains(y));
        let i = ch.index_of(y);
        lemma_position_child(m, root, start, y);
        match next_sibling(m, y) {
            Some(n) => {
                assert(0 <= i + 1 < ch.len());
                assert(m[ch[i + 1]].parent == Some(p));
                law_tree_invariants(m, root);
                if n == start {
                    assert(!descends(m, p, start));
                }
                lemma_position_child(m, root, start, n);
                assert(ch.index_of(n) == i + 1) by {
                    assert(ch.no_duplicates());
                    assert(ch.contains(n));
                }
                lemma_lex_steps(position(m, start, p), i, r);
            },
            None => {
                if k > 0 {
                    assert(m.contains_key(p));
                    let r2 = seq![i] + r;
                    assert(position(m, start, y) + r =~= position(m, start, p) + r2);
                    lemma_climb_after(m, root, start, cur, p, r2, (k - 1) as nat);
                }
            },
        }
    }
}

/// Each step of a walk inside the subtree of `start` goes to a node whose
/// position comes later: a walk never comes back to a node.
pub proof fn law_walk_moves_forward(m: Nodes, root: NodeId, start: NodeId, cur: NodeId)
    requires
        well_formed(m, root),
        m.contains_key(cur),
        descends(m, cur, start),
    ensures
        preorder_step(m, start, cur) is Some ==> lex_lt(
            position(m, start, cur),
            position(m, start, preorder_step(m, start, cur)->0),
        ),
{
    if m[cur].children.len() > 0 {
        let c = m[cur].children[0];
        assert(m[c].parent == Some(cur));
        law_tree_invariants(m, root);
        if c == start {
            assert(!descends(m, cur, start));
        }
        lemma_position_child(m, root, start, c);
        assert(m[cur].children.index_of(c) == 0) by {
            assert(m[cur].children.no_duplicates());
            assert(m[cur].children.contains(c));
        }
        lemma_lex_steps(position(m, start, cur), 0, Seq::empty());
    } else {
        assert(position(m, start, cur) =~= position(m, start, cur) + Seq::<int>::empty());
        lemma_climb_after(m, root, start, cur, cur, Seq::empty(), choose|k: nat| reaches_top(m, cur, k));
    }
}

proof fn lemma_lex_total(a: Seq<int>, b: Seq<int>)
    requires
        a != b,
    ensures
        lex_lt(a, b) || lex_lt(b, a),
    decreases a.len(),
{
    if a.len() == 0 && b.len() == 0 {
        assert(a =~= b);
    }
    if a.len() > 0 && b.len() > 0 && a[0] == b[0] {
        if a.drop_first() == b.drop_first() {
            assert(a.drop_first().len() == a.len() - 1);
            assert(b.drop_first().len() == b.len() - 1);
            assert(a.len() == b.len());
            assert(a =~= b) by {
                assert forall|i: int| 0 <= i < a.len() implies a[i] == b[i] by {
                    if i > 0 {
                        assert(a[i] == a.drop_first()[i - 1]);
                        assert(b[i] == b.drop_first()[i - 1]);
                    }
                }
            }
        }
        lemma_lex_total(a.drop_first(), b.drop_first());
    }
}

proof fn lemma_lex_asym(a: Seq<int>, b: Seq<int>)
    requires
        lex_lt(a, b),
    ensures
        !lex_lt(b, a),
{
    if lex_lt(b, a) {
        lemma_lex_trans(a, b, a);
        lemma_lex_irreflexive(a);
    }
}

/// No sequence comes after one of its prefixes.
proof fn lemma_lex_prefix(q: Seq<int>, t: int)
    requires
        0 <= t <= q.len(),
    ensures
        !lex_lt(q, q.take(t)),
    decreases t,
{
    if t > 0 {
        assert(q.take(t).drop_first() =~= q.drop_first().take(t - 1));
        lemma_lex_prefix(q.drop_first(), t - 1);
    }
}

/// Sequences that agree before `d` and differ at `d` are ordered there.
proof fn lemma_lex_diverge(a: Seq<int>, b: Seq<int>, d: int)
    requires
        0 <= d < a.len(),
        d < b.len(),
        a.take(d) == b.take(d),
        a[d] < b[d],
    ensures
        lex_lt(a, b),
    decreases d,
{
    if d > 0 {
        assert(a[0] == a.take(d)[0] && b[0] == b.take(d)[0]);
        assert(a.drop_first().take(d - 1) =~= a.take(d).drop_first());
        assert(b.drop_first().take(d - 1) =~= b.take(d).drop_first());
        lemma_lex_diverge(a.drop_first(), b.drop_first(), d - 1);
    }
}

/// Where `a` comes before `b`: either `a` is a proper prefix of `b`, or
/// they first differ at the returned index.
proof fn lemma_lex_cases(a: Seq<int>, b: Seq<int>) -> (d: int)
    requires
        lex_lt(a, b),
    ensures
        (d == a.len() && a.len() < b.len() && b.take(d) == a) || (0 <= d < a.len() && d < b.len()
            && a.take(d) == b.take(d) && a[d] < b[d]),
    decreases a.len(),
{
    if a.len() == 0 {
        assert(b.take(0) =~= a);
        0
    } else if a[0] < b[0] {
        assert(a.take(0) =~= b.take(0));
        0
    } else {
        let d1 = lemma_lex_cases(a.drop_first(), b.drop_first());
        if d1 == a.len() - 1 {
            assert(b.take(d1 + 1) =~= seq![b[0]] + b.drop_first().take(d1));
            assert(a =~= seq![a[0]] + a.drop_first());
            assert(b.take(d1 + 1) =~= a);
        } else {
            assert(a.take(d1 + 1) =~= seq![a[0]] + a.drop_first().take(d1));
            assert(b.take(d1 + 1) =~= seq![b[0]] + b.drop_first().take(d1));
        }
        d1 + 1
    }
}

proof fn lemma_position_start(m: Nodes, start: NodeId)
    ensures
        position(m, start, start) == Seq::<int>::empty(),
{
}

/// Two nodes of the subtree of `start` with the same position are the same.
proof fn lemma_position_injective(m: Nodes, root: NodeId, start: NodeId, x: NodeId, y: NodeId)
    requires
        well_formed(m, root),
        m.contains_key(x),
        m.contains_key(y),
        descends(m, x, start),
        descends(m, y, start),
        position(m, start, x) == position(m, start, y),
    ensures
        x == y,
    decreases position(m, start, x).len(),
{
    lemma_position_start(m, start);
    if x != start {
        lemma_inside_parent(m, root, start, x);
        lemma_position_child(m, root, start, x);
    }
    if y != start {
        lemma_inside_parent(m, root, start, y);
        lemma_position_child(m, root, start, y);
    }
    if x != start && y != start {
        let px = m[x].parent->0;
        let py = m[y].parent->0;
        assert(position(m, start, px) =~= position(m, start, x).drop_last());
        assert(position(m, start, py) =~= position(m, start, y).drop_last());
        lemma_position_injective(m, root, start, px, py);
        let ch = m[px].children;
        assert(ch.contains(x) && ch.contains(y));
        lemma_index_of(ch, x);
        lemma_index_of(ch, y);
        assert(position(m, start, x).last() == ch.index_of(x));
        assert(position(m, start, y).last() == ch.index_of(y));
    }
}

/// The ancestor of `x` whose position is the first `t` entries of `x`'s.
proof fn lemma_ancestor_at(m: Nodes, root: NodeId, start: NodeId, x: NodeId, t: int) -> (z: NodeId)
    requires
        well_formed(m, root),
        m.contains_key(x),
        descends(m, x, start),
        0 <= t <= position(m, start, x).len(),
    ensures
        m.contains_key(z),
        descends(m, z, start),
        position(m, start, z) == position(m, start, x).take(t),
    decreases position(m, start, x).len(),
{
    if t == position(m, start, x).len() {
        assert(position(m, start, x).take(t) =~= position(m, start, x));
        x
    } else {
        lemma_position_start(m, start);
        lemma_inside_parent(m, root, start, x);
        lemma_position_child(m, root, start, x);
        let p = m[x].parent->0;
        let z = lemma_ancestor_at(m, root, start, p, t);
        assert(position(m, start, p).take(t) =~= position(m, start, x).take(t));
        z
    }
}

/// The position of a child of `p` at index `i`, a node that is not `start`.
proof fn lemma_child_position(m: Nodes, root: NodeId, start: NodeId, p: NodeId, i: int)
    requires
        well_formed(m, root),
        m.contains_key(p),
        descends(m, p, start),
        0 <= i < m[p].children.len(),
    ensures
        m[p].children[i] != start,
        descends(m, m[p].children[i], start),
        m.contains_key(m[p].children[i]),
        position(m, start, m[p].children[i]) == position(m, start, p).push(i),
{
    let c = m[p].children[i];
    assert(m.contains_key(c) && m[c].parent == Some(p));
    law_tree_invariants(m, root);
    if c == start {
        assert(!descends(m, p, start));
    }
    let j = choose|j: nat| on_chain(m, start, p, j);
    assert(on_chain(m, start, c, j + 1));
    lemma_position_child(m, root, start, c);
    assert(m[p].children.contains(c));
    lemma_index_of(m[p].children, c);
}

proof fn lemma_climb_successor(m: Nodes, root: NodeId, start: NodeId, x: NodeId, y: NodeId, fuel: nat, d: int)
    requires
        well_formed(m, root),
        m.contains_key(x),
        m.contains_key(y),
        descends(m, x, start),
        descends(m, y, start),
        reaches_top(m, y, fuel),
        0 <= d < position(m, start, y).len(),
        d < position(m, start, x).len(),
        position(m, start, y).take(d) == position(m, start, x).take(d),
        position(m, start, y)[d] < position(m, start, x)[d],
    ensures
        climb(m, start, y, fuel) is Some,
        !lex_lt(position(m, start, x), position(m, start, climb(m, start, y, fuel)->0)),
    decreases fuel,
{
    let q = position(m, start, x);
    let py = position(m, start, y);
    lemma_position_start(m, start);
    lemma_inside_parent(m, root, start, y);
    lemma_position_child(m, root, start, y);
    let g = m[y].parent->0;
    let ch = m[g].children;
    assert(ch.contains(y));
    lemma_index_of(ch, y);
    let i = ch.index_of(y);
    let k = py.len();
    assert(position(m, start, g) =~= py.drop_last());
    if k - 1 == d {
        let b = lemma_ancestor_at(m, root, start, x, d + 1);
        assert(position(m, start, b).len() == d + 1);
        lemma_inside_parent(m, root, start, b);
        lemma_position_child(m, root, start, b);
        let gb = m[b].parent->0;
        assert(position(m, start, gb) =~= q.take(d + 1).drop_last());
        assert(q.take(d + 1).drop_last() =~= q.take(d));
        assert(py.drop_last() =~= py.take(d));
        lemma_position_injective(m, root, start, gb, g);
        assert(ch.contains(b));
        lemma_index_of(ch, b);
        assert(position(m, start, b)[d] == q[d]);
        assert(ch.index_of(b) == q[d]);
        assert(i + 1 < ch.len());
    }
    match next_sibling(m, y) {
        Some(n) => {
            assert(n == ch[i + 1]);
            lemma_child_position(m, root, start, g, i + 1);
            let pn = position(m, start, n);
            assert(pn == position(m, start, g).push(i + 1));
            if k - 1 == d {
                if i + 1 == q[d] {
                    assert(pn =~= q.take(d + 1));
                    lemma_lex_prefix(q, d + 1);
                } else {
                    assert(pn.take(d) =~= q.take(d));
                    lemma_lex_diverge(pn, q, d);
                    lemma_lex_asym(pn, q);
                }
            } else {
                assert(pn.take(d) =~= py.take(d));
                assert(pn[d] == py[d]);
                lemma_lex_diverge(pn, q, d);
                lemma_lex_asym(pn, q);
            }
        },
        None => {
            let pg = position(m, start, g);
            assert(pg.take(d) =~= py.take(d));
            assert(pg[d] == py[d]);
            lemma_climb_successor(m, root, start, x, g, (fuel - 1) as nat, d);
        },
    }
}

/// From a node of the subtree of `start`, the walk goes on to a node whose
/// position comes no later than that of any node of the subtree after it.
proof fn lemma_successor(m: Nodes, root: NodeId, start: NodeId, cur: NodeId, x: NodeId)
    requires
        well_formed(m, root),
        m.contains_key(cur),
        m.contains_key(x),
        descends(m, cur, start),
        descends(m, x, start),
        lex_lt(position(m, start, cur), position(m, start, x)),
    ensures
        preorder_step(m, start, cur) is Some,
        !lex_lt(position(m, start, x), position(m, start, preorder_step(m, start, cur)->0)),
{
    let p = position(m, start, cur);
    let q = position(m, start, x);
    let d = lemma_lex_cases(p, q);
    if d == p.len() {
        let z = lemma_ancestor_at(m, root, start, x, d + 1);
        lemma_position_start(m, start);
        assert(position(m, start, z).len() == d + 1);
        lemma_inside_parent(m, root, start, z);
        lemma_position_child(m, root, start, z);
        let pz = m[z].parent->0;
        assert(position(m, start, pz) =~= q.take(d + 1).drop_last());
        assert(q.take(d + 1).drop_last() =~= q.take(d));
        lemma_position_injective(m, root, start, pz, cur);
        assert(m[cur].children.contains(z));
        lemma_index_of(m[cur].children, z);
        lemma_child_position(m, root, start, cur, 0);
        assert(position(m, start, z)[d] == q[d]);
        assert(q[d] == m[cur].children.index_of(z));
        let pc = p.push(0);
        if q[d] == 0 {
            assert(pc =~= q.take(d + 1));
            lemma_lex_prefix(q, d + 1);
        } else {
            assert(pc.take(d) =~= q.take(d));
            lemma_lex_diverge(pc, q, d);
            lemma_lex_asym(pc, q);
        }
    } else if m[cur].children.len() > 0 {
        lemma_child_position(m, root, start, cur, 0);
        let pc = p.push(0);
        assert(pc.take(d) =~= p.take(d));
        lemma_lex_diverge(pc, q, d);
        lemma_lex_asym(pc, q);
    } else {
        let fuel = choose|k: nat| reaches_top(m, cur, k);
        assert(reaches_top(m, cur, fuel));
        lemma_climb_successor(m, root, start, x, cur, fuel, d);
    }
}

/// A pre-order walk over the subtree of a node: each node comes before its
/// children, and children in document order. It yields at most as many
/// nodes as the tree held when the walk began, and it reads the tree anew at
/// each step, which must not change in between.
pub struct ForwardDomIterator {
    start: NodeId,
    next: Option<NodeId>,
    remaining: usize,
}

impl ForwardDomIterator {
    pub closed spec fn start_spec(&self) -> NodeId {
        self.start
    }

    pub closed spec fn next_spec(&self) -> Option<NodeId> {
        self.next
    }

    pub closed spec fn remaining_spec(&self) -> nat {
        self.remaining as nat
    }

    /// The walk can take its next step on a tree in the state `m`.
    pub open spec fn valid_for(&self, m: Nodes) -> bool {
        self.next_spec() is Some ==> m.contains_key(self.next_spec()->0)
    }

    /// A walk over the subtree of `start`.
    pub fn init(tree: &DomTree, start: NodeId) -> (r: Result<ForwardDomIterator, DomError>)
        requires
            tree.wf(),
        ensures
            match r {
                Ok(it) => {
                    &&& tree@.contains_key(start)
                    &&& it.start_spec() == start
                    &&& it.next_spec() == Some(start)
                    &&& it.remaining_spec() == tree@.len()
                    &&& it.valid_for(tree@)
                },
                Err(e) => !tree@.contains_key(start) && e == DomError::UnknownNode,
            },
    {
        if !tree.contains(start) {
            return Err(DomError::UnknownNode);
        }
        Ok(ForwardDomIterator::starting_at(tree, start))
    }

    /// A walk over the subtree of the live node `start`.
    pub fn starting_at(tree: &DomTree, start: NodeId) -> (it: ForwardDomIterator)
        requires
            tree.wf(),
            tree@.contains_key(start),
        ensures
            it.start_spec() == start,
            it.next_spec() == Some(start),
            it.remaining_spec() == tree@.len(),
            it.valid_for(tree@),
    {
        ForwardDomIterator { start, next: Some(start), remaining: tree.len() }
    }

    /// The next node of the walk, if any.
    pub fn next(&mut self, tree: &DomTree) -> (r: Option<NodeId>)
        requires
            tree.wf(),
            old(self).valid_for(tree@),
        ensures
            r == if old(self).remaining_spec() == 0 {
                None
            } else {
                old(self).next_spec()
            },
            final(self).start_spec() == old(self).start_spec(),
            final(self).valid_for(tree@),
            final(self).next_spec() == match r {
                Some(cur) => preorder_step(tree@, old(self).start_spec(), cur),
                None => None,
            },
            r is Some ==> final(self).remaining_spec() == old(self).remaining_spec() - 1,
    {
        if self.remaining == 0 {
            self.next = None;
            return None;
        }
        match self.next {
            None => None,
            Some(cur) => {
                self.next = step(tree, self.start, cur);
                self.remaining = self.remaining - 1;
                Some(cur)
            },
        }
    }
}

/// The step of the walk of the subtree of `start` that follows `cur`.
pub fn step(tree: &DomTree, start: NodeId, cur: NodeId) -> (r: Option<NodeId>)
    requires
        tree.wf(),
        tree@.contains_key(cur),
    ensures
        r == preorder_step(tree@, start, cur),
        r is Some ==> tree@.contains_key(r->0),
{
    let ghost m = tree@;
    let kids = tree.children_of(cur);
    match kids {
        Ok(v) => {
            if v.len() > 0 {
                proof {
                    assert(m.contains_key(v@[0]));
                }
                return Some(v[0]);
            }
        },
        Err(_) => {},
    }
    let ghost k0 = choose|k: nat| reaches_top(m, cur, k);
    assert(reaches_top(m, cur, k0));
    assert(preorder_step(m, start, cur) == climb(m, start, cur, k0));
    let ghost mut k = k0;
    let mut y = cur;
    loop
        invariant
            tree.wf(),
            m == tree@,
            m[cur].children.len() == 0,
            reaches_top(m, cur, k0),
            preorder_step(m, start, cur) == climb(m, start, cur, k0),
            reaches_top(m, y, k),
            climb(m, start, cur, k0) == climb(m, start, y, k),
        decreases k,
    {
        if y == start {
            return None;
        }
        match tree.next_sibling_of(y) {
            Some(n) => {
                return Some(n);
            },
            None => {},
        }
        match tree.parent_of(y) {
            Ok(Some(p)) => {
                y = p;
                proof {
                    k = (k - 1) as nat;
                }
            },
            _ => {
                return None;
            },
        }
    }
}

impl DomTree {
    /// The nodes of the subtree of `start` in pre-order, as the walk from
    /// `start` yields them: every node of the subtree, each exactly once,
    /// the walk ending where it has no next step.
    pub fn preorder(&self, start: NodeId) -> (r: Result<Vec<NodeId>, DomError>)
        requires
            self.wf(),
        ensures
            match r {
                Ok(v) => {
                    &&& self@.contains_key(start)
                    &&& 0 < v@.len() <= self@.len()
                    &&& v@[0] == start
                    &&& forall|i: int|
                        0 <= i < v@.len() - 1 ==> preorder_step(self@, start, #[trigger] v@[i])
                            == Some(v@[i + 1])
                    &&& preorder_step(self@, start, v@.last()) is None
                    &&& v@.no_duplicates()
                    &&& forall|i: int| 0 <= i < v@.len() ==> descends(self@, #[trigger] v@[i], start)
                    &&& forall|x: NodeId|
                        self@.contains_key(x) && descends(self@, x, start) ==> #[trigger] v@.contains(x)
                },
                Err(e) => !self@.contains_key(start) && e == DomError::UnknownNode,
            },
    {
        let mut it = ForwardDomIterator::init(self, start)?;
        assert(on_chain(self@, start, start, 0));
        assert(self@.len() > 0) by {
            assert(self@.dom().contains(start));
        }
        let mut out: Vec<NodeId> = Vec::new();
        let ghost n = self@.len();
        loop
            invariant
                self.wf(),
                it.valid_for(self@),
                it.start_spec() == start,
                self@.contains_key(start),
                out@.len() + it.remaining_spec() == n,
                n == self@.len(),
                n > 0,
                out@.len() == 0 ==> it.next_spec() == Some(start),
                out@.len() > 0 ==> out@[0] == start,
                out@.len() > 0 ==> it.next_spec() == preorder_step(self@, start, out@.last()),
                forall|i: int| 0 <= i < out@.len() - 1 ==> preorder_step(self@, start, #[trigger] out@[i]) == Some(out@[i + 1]),
                forall|i: int| 0 <= i < out@.len() ==> self@.contains_key(#[trigger] out@[i]) && descends(self@, out@[i], start),
                forall|i: int, j: int| 0 <= i < j < out@.len() ==> lex_lt(position(self@, start, #[trigger] out@[i]), position(self@, start, #[trigger] out@[j])),
                it.next_spec() is Some ==> descends(self@, it.next_spec()->0, start),
                it.next_spec() is Some ==> forall|i: int| 0 <= i < out@.len() ==> lex_lt(position(self@, start, #[trigger] out@[i]), position(self@, start, it.next_spec()->0)),
                forall|x: NodeId| self@.contains_key(x) && descends(self@, x, start) ==> #[trigger] out@.contains(x) || (it.next_spec() is Some && !lex_lt(position(self@, start, x), position(self@, start, it.next_spec()->0))),
            decreases it.remaining_spec(),
        {
            let ghost before = out@;
            proof {
                if it.next_spec() is Some {
                    let z = it.next_spec()->0;
                    let sq = out@.push(z);
                    assert(sq.no_duplicates()) by {
                        assert forall|i: int, j: int| 0 <= i < j < sq.len() implies sq[i] != sq[j] by {
                            if j < out@.len() {
                                assert(lex_lt(position(self@, start, out@[i]), position(self@, start, out@[j])));
                                lemma_lex_irreflexive(position(self@, start, out@[i]));
                            } else {
                                assert(sq[j] == z);
                                assert(lex_lt(position(self@, start, out@[i]), position(self@, start, z)));
                                lemma_lex_irreflexive(position(self@, start, z));
                            }
                        }
                    }
                    assert(sq.to_set().subset_of(self@.dom())) by {
                        assert forall|y: NodeId| sq.to_set().contains(y) implies self@.dom().contains(y) by {
                            let k = choose|k: int| 0 <= k < sq.len() && sq[k] == y;
                            if k < out@.len() {
                                assert(out@[k] == y);
                            }
                        }
                    }
                    sq.unique_seq_to_set();
                    vstd::set_lib::lemma_len_subset(sq.to_set(), self@.dom());
                }
            }
            match it.next(self) {
                Some(id) => {
                    proof {
                        let m = self@;
                        let root = self.root_id();
                        law_walk_stays_inside(m, root, start, id);
                        law_walk_moves_forward(m, root, start, id);
                        assert forall|x: NodeId| m.contains_key(x) && descends(m, x, start) && !before.contains(x) && x != id implies
                            preorder_step(m, start, id) is Some && !lex_lt(position(m, start, x), position(m, start, preorder_step(m, start, id)->0)) by {
                            assert(!lex_lt(position(m, start, x), position(m, start, id)));
                            if position(m, start, x) == position(m, start, id) {
                                lemma_position_injective(m, root, start, x, id);
                            }
                            lemma_lex_total(position(m, start, x), position(m, start, id));
                            lemma_successor(m, root, start, id, x);
                        }
                        if before.len() > 0 {
                            let last = before.last();
                            law_walk_moves_forward(self@, self.root_id(), start, last);
                            assert forall|i: int| 0 <= i < before.len() implies lex_lt(position(self@, start, #[trigger] before[i]), position(self@, start, id)) by {
                                if i < before.len() - 1 {
                                    lemma_lex_trans(position(self@, start, before[i]), position(self@, start, last), position(self@, start, id));
                                }
                            }
                        }
                    }
                    out.push(id);
                    proof {
                        assert forall|i: int, j: int| 0 <= i < j < out@.len() implies lex_lt(position(self@, start, #[trigger] out@[i]), position(self@, start, #[trigger] out@[j])) by {
                            assert(out@[i] == if i < before.len() { before[i] } else { id });
                            if j < before.len() {
                                assert(out@[j] == before[j]);
                            } else {
                                assert(out@[j] == id);
                            }
                        }
                        assert forall|i: int| 0 <= i < out@.len() implies self@.contains_key(#[trigger] out@[i]) && descends(self@, out@[i], start) by {
                            if i < before.len() {
                                assert(out@[i] == before[i]);
                            }
                        }
                        if it.next_spec() is Some {
                            let z2 = it.next_spec()->0;
                            assert forall|i: int| 0 <= i < out@.len() implies lex_lt(position(self@, start, #[trigger] out@[i]), position(self@, start, z2)) by {
                                if i < before.len() {
                                    assert(out@[i] == before[i]);
                                    lemma_lex_trans(position(self@, start, before[i]), position(self@, start, id), position(self@, start, z2));
                                } else {
                                    assert(out@[i] == id);
                                }
                            }
                        }
                        assert forall|x: NodeId| self@.contains_key(x) && descends(self@, x, start) implies #[trigger] out@.contains(x) || (it.next_spec() is Some && !lex_lt(position(self@, start, x), position(self@, start, it.next_spec()->0))) by {
                            if before.contains(x) {
                                let k = choose|k: int| 0 <= k < before.len() && before[k] == x;
                                assert(out@[k] == x);
                            } else if x == id {
                                assert(out@[before.len() as int] == x);
                            }
                        }
                        assert forall|i: int| 0 <= i < out@.len() - 1 implies preorder_step(self@, start, #[trigger] out@[i]) == Some(out@[i + 1]) by {
                            if i < before.len() - 1 {
                                assert(out@[i] == before[i] && out@[i + 1] == before[i + 1]);
                            } else {
                                assert(out@[i] == before.last());
                            }
                        }
                    }
                },
                None => {
                    assert(out@.len() > 0);
                    assert forall|i: int, j: int| 0 <= i < j < out@.len() implies out@[i] != out@[j] by {
                        assert(lex_lt(position(self@, start, out@[i]), position(self@, start, out@[j])));
                        lemma_lex_irreflexive(position(self@, start, out@[i]));
                    }
                    return Ok(out);
                },
            }
        }
    }
}

} // verus!
