use mj_dom::node::{Attribute, DomError, NodeId, NodeKind, QualifiedName};
use mj_dom::tree::DomTree;
use mj_dom::traversal::ForwardDomIterator;

fn qname(local: &str) -> QualifiedName {
    QualifiedName {
        prefix: None,
        ns: "http://www.w3.org/1999/xhtml".to_string(),
        local: local.to_string(),
    }
}

fn element(tree: &mut DomTree, local: &str) -> NodeId {
    tree.add_element(qname(local), Vec::new())
}

fn text_of(tree: &DomTree, id: NodeId) -> String {
    match &tree.node(id).expect("live node").kind {
        NodeKind::Text { contents } => contents.clone(),
        _ => panic!("not a text node"),
    }
}

fn walk(tree: &DomTree, start: NodeId) -> Vec<NodeId> {
    let mut it = ForwardDomIterator::init(tree, start).expect("live start");
    let mut out = Vec::new();
    while let Some(id) = it.next(tree) {
        out.push(id);
    }
    out
}

/// A(B(C, D), E) under the document, built by appends.
fn sample(tree: &mut DomTree) -> [NodeId; 5] {
    let a = element(tree, "a");
    let b = element(tree, "b");
    let c = element(tree, "c");
    let d = element(tree, "d");
    let e = element(tree, "e");
    let root = tree.root();
    tree.append_child(root, a).unwrap();
    tree.append_child(a, b).unwrap();
    tree.append_child(b, c).unwrap();
    tree.append_child(b, d).unwrap();
    tree.append_child(a, e).unwrap();
    [a, b, c, d, e]
}

#[test]
fn new_tree_holds_only_the_document() {
    let tree = DomTree::new();
    assert_eq!(tree.len(), 1);
    let root = tree.root();
    assert!(tree.contains(root));
    assert_eq!(tree.parent_of(root), Ok(None));
    assert!(tree.children_of(root).unwrap().is_empty());
    assert!(matches!(tree.node(root).unwrap().kind, NodeKind::Document));
}

#[test]
fn text_appended_twice_coalesces() {
    let mut tree = DomTree::new();
    let p = element(&mut tree, "p");
    let root = tree.root();
    tree.append_child(root, p).unwrap();
    let hello = tree.add_text("Hello".to_string());
    tree.append_child(p, hello).unwrap();
    let world = tree.add_text(" World".to_string());
    tree.append_child(p, world).unwrap();
    assert_eq!(tree.children_of(p).unwrap(), &vec![hello]);
    assert_eq!(text_of(&tree, hello), "Hello World");
    assert!(!tree.contains(world));
    assert_eq!(tree.parent_of(world), Err(DomError::UnknownNode));
}

#[test]
fn preorder_walk_visits_each_node_once() {
    let mut tree = DomTree::new();
    let [a, b, c, d, e] = sample(&mut tree);
    assert_eq!(walk(&tree, a), vec![a, b, c, d, e]);
    assert_eq!(tree.preorder(a).unwrap(), vec![a, b, c, d, e]);
    assert_eq!(walk(&tree, b), vec![b, c, d]);
    assert_eq!(walk(&tree, e), vec![e]);
}

#[test]
fn preorder_of_the_document_starts_at_the_root() {
    let mut tree = DomTree::new();
    let [a, b, c, d, e] = sample(&mut tree);
    let root = tree.root();
    assert_eq!(tree.preorder(root).unwrap(), vec![root, a, b, c, d, e]);
}

#[test]
fn detach_then_reattach_moves_the_subtree() {
    let mut tree = DomTree::new();
    let [a, b, c, d, e] = sample(&mut tree);
    let d_child = element(&mut tree, "span");
    tree.append_child(d, d_child).unwrap();
    tree.detach(d).unwrap();
    assert_eq!(walk(&tree, a), vec![a, b, c, e]);
    assert_eq!(tree.parent_of(d), Ok(None));
    assert_eq!(tree.children_of(d).unwrap(), &vec![d_child]);
    assert_eq!(tree.parent_of(d_child), Ok(Some(d)));
    tree.append_child(e, d).unwrap();
    assert_eq!(walk(&tree, a), vec![a, b, c, e, d, d_child]);
    assert_eq!(tree.parent_of(d), Ok(Some(e)));
}

#[test]
fn destroyed_ids_are_unknown_to_every_operation() {
    let mut tree = DomTree::new();
    let [a, b, c, d, e] = sample(&mut tree);
    let before = tree.len();
    tree.destroy_subtree(b).unwrap();
    assert_eq!(tree.len(), before - 3);
    for gone in [b, c, d] {
        assert!(!tree.contains(gone));
        assert_eq!(tree.append_child(a, gone), Err(DomError::UnknownNode));
        assert_eq!(tree.append_child(gone, e), Err(DomError::UnknownNode));
        assert_eq!(tree.prepend_child(gone, e), Err(DomError::UnknownNode));
        assert_eq!(tree.insert_before(a, gone, e), Err(DomError::UnknownNode));
        assert_eq!(tree.insert_after(a, e, gone), Err(DomError::UnknownNode));
        assert_eq!(tree.detach(gone), Err(DomError::UnknownNode));
        assert_eq!(tree.destroy_subtree(gone), Err(DomError::UnknownNode));
        assert_eq!(tree.add_attrs_if_missing(gone, Vec::new()), Err(DomError::UnknownNode));
    }
    assert_eq!(walk(&tree, a), vec![a, e]);
    let fresh = element(&mut tree, "fresh");
    assert!(fresh != b && fresh != c && fresh != d);
    assert!(!tree.contains(b));
}

#[test]
fn appending_an_ancestor_is_a_cycle_and_changes_nothing() {
    let mut tree = DomTree::new();
    let [a, b, c, d, e] = sample(&mut tree);
    assert_eq!(tree.append_child(c, a), Err(DomError::CycleDetected));
    assert_eq!(tree.append_child(b, b), Err(DomError::CycleDetected));
    assert_eq!(tree.append_child(d, tree.root()), Err(DomError::CycleDetected));
    assert_eq!(walk(&tree, a), vec![a, b, c, d, e]);
    assert_eq!(tree.parent_of(a), Ok(Some(tree.root())));
}

#[test]
fn the_document_cannot_become_a_child() {
    let mut tree = DomTree::new();
    let loose = element(&mut tree, "div");
    assert_eq!(tree.append_child(loose, tree.root()), Err(DomError::UnsupportedOperation));
    assert_eq!(tree.destroy_subtree(tree.root()), Err(DomError::UnsupportedOperation));
    assert_eq!(tree.detach(tree.root()), Ok(()));
}

#[test]
fn text_nodes_take_children() {
    let mut tree = DomTree::new();
    let t = tree.add_text("x".to_string());
    let div = element(&mut tree, "div");
    let span = element(&mut tree, "span");
    assert_eq!(tree.append_child(t, div), Ok(()));
    assert_eq!(tree.prepend_child(t, span), Ok(()));
    assert_eq!(tree.children_of(t).unwrap(), &vec![span, div]);
    assert_eq!(tree.parent_of(div), Ok(Some(t)));
}

#[test]
fn children_of_a_merged_away_text_node_become_parentless() {
    let mut tree = DomTree::new();
    let p = element(&mut tree, "p");
    let left = tree.add_text("a".to_string());
    let mid = element(&mut tree, "b");
    let right = tree.add_text("c".to_string());
    tree.append_child(p, left).unwrap();
    tree.append_child(p, mid).unwrap();
    tree.append_child(p, right).unwrap();
    let inner = element(&mut tree, "i");
    tree.append_child(right, inner).unwrap();
    tree.detach(mid).unwrap();
    assert_eq!(tree.children_of(p).unwrap(), &vec![left]);
    assert_eq!(text_of(&tree, left), "ac");
    assert!(!tree.contains(right));
    assert!(tree.contains(inner));
    assert_eq!(tree.parent_of(inner), Ok(None));
}

#[test]
fn moving_into_the_text_that_the_move_merges_away_leaves_the_node_detached() {
    let mut tree = DomTree::new();
    let p = element(&mut tree, "p");
    let left = tree.add_text("a".to_string());
    let mid = element(&mut tree, "b");
    let right = tree.add_text("c".to_string());
    tree.append_child(p, left).unwrap();
    tree.append_child(p, mid).unwrap();
    tree.append_child(p, right).unwrap();
    assert_eq!(tree.append_child(right, mid), Ok(()));
    assert!(!tree.contains(right));
    assert_eq!(tree.parent_of(mid), Ok(None));
    assert_eq!(tree.children_of(p).unwrap(), &vec![left]);
    assert_eq!(text_of(&tree, left), "ac");
}

#[test]
fn prepend_and_insert_keep_the_given_order() {
    let mut tree = DomTree::new();
    let ul = element(&mut tree, "ul");
    let one = element(&mut tree, "li");
    let two = element(&mut tree, "li");
    let three = element(&mut tree, "li");
    let zero = element(&mut tree, "li");
    tree.append_child(ul, two).unwrap();
    tree.prepend_child(ul, one).unwrap();
    tree.insert_after(ul, two, three).unwrap();
    tree.insert_before(ul, one, zero).unwrap();
    assert_eq!(tree.children_of(ul).unwrap(), &vec![zero, one, two, three]);
    assert_eq!(tree.next_sibling_of(one), Some(two));
    assert_eq!(tree.previous_sibling_of(one), Some(zero));
    assert_eq!(tree.next_sibling_of(three), None);
    // Moving a child within its parent.
    tree.insert_before(ul, zero, three).unwrap();
    assert_eq!(tree.children_of(ul).unwrap(), &vec![three, zero, one, two]);
    tree.insert_after(ul, two, zero).unwrap();
    assert_eq!(tree.children_of(ul).unwrap(), &vec![three, one, two, zero]);
    // Already in place: nothing changes.
    tree.insert_before(ul, one, three).unwrap();
    tree.insert_after(ul, three, one).unwrap();
    assert_eq!(tree.children_of(ul).unwrap(), &vec![three, one, two, zero]);
}

#[test]
fn insert_next_to_a_node_of_another_parent_is_unknown() {
    let mut tree = DomTree::new();
    let [a, b, c, _d, e] = sample(&mut tree);
    let x = element(&mut tree, "x");
    assert_eq!(tree.insert_before(a, c, x), Err(DomError::UnknownNode));
    assert_eq!(tree.insert_after(b, e, x), Err(DomError::UnknownNode));
    assert_eq!(tree.parent_of(x), Ok(None));
}

#[test]
fn inserted_text_merges_with_the_following_text() {
    let mut tree = DomTree::new();
    let p = element(&mut tree, "p");
    let tail = tree.add_text("tail".to_string());
    tree.append_child(p, tail).unwrap();
    let head = tree.add_text("head-".to_string());
    tree.insert_before(p, tail, head).unwrap();
    assert_eq!(tree.children_of(p).unwrap(), &vec![head]);
    assert_eq!(text_of(&tree, head), "head-tail");
    assert!(!tree.contains(tail));
}

#[test]
fn detach_joins_the_text_around_the_gap() {
    let mut tree = DomTree::new();
    let p = element(&mut tree, "p");
    let left = tree.add_text("left".to_string());
    let b = element(&mut tree, "b");
    let right = tree.add_text("right".to_string());
    tree.append_child(p, left).unwrap();
    tree.append_child(p, b).unwrap();
    tree.append_child(p, right).unwrap();
    assert_eq!(tree.children_of(p).unwrap(), &vec![left, b, right]);
    tree.detach(b).unwrap();
    assert_eq!(tree.children_of(p).unwrap(), &vec![left]);
    assert_eq!(text_of(&tree, left), "leftright");
    assert!(!tree.contains(right));
    assert!(tree.contains(b));
}

#[test]
fn lookup_by_tag_sees_direct_children_only() {
    let mut tree = DomTree::new();
    let root = tree.root();
    let html = element(&mut tree, "html");
    let head = element(&mut tree, "head");
    let body = element(&mut tree, "body");
    let inner = element(&mut tree, "body");
    tree.append_child(root, html).unwrap();
    tree.append_child(html, head).unwrap();
    tree.append_child(html, body).unwrap();
    tree.append_child(head, inner).unwrap();
    assert_eq!(tree.html(), Some(html));
    assert_eq!(tree.head(), Some(head));
    assert_eq!(tree.body(), Some(body));
    assert_eq!(tree.find_child_by_tag(root, "body"), Ok(None));
    assert_eq!(tree.find_child_by_tag(html, "body"), Ok(Some(body)));
}

#[test]
fn no_html_element_means_no_head_or_body() {
    let tree = DomTree::new();
    assert_eq!(tree.html(), None);
    assert_eq!(tree.head(), None);
    assert_eq!(tree.body(), None);
}

#[test]
fn attributes_keep_the_first_of_each_name() {
    let mut tree = DomTree::new();
    let attr = |n: &str, v: &str| Attribute { name: qname(n), value: v.to_string() };
    let div = tree.add_element(qname("div"), vec![attr("id", "one"), attr("class", "c"), attr("id", "two")]);
    tree.add_attrs_if_missing(div, vec![attr("class", "other"), attr("title", "t")]).unwrap();
    match &tree.node(div).unwrap().kind {
        NodeKind::Element { attrs, .. } => {
            let pairs: Vec<(String, String)> = attrs.iter().map(|a| (a.name.local.clone(), a.value.clone())).collect();
            assert_eq!(
                pairs,
                vec![
                    ("id".to_string(), "one".to_string()),
                    ("class".to_string(), "c".to_string()),
                    ("title".to_string(), "t".to_string()),
                ]
            );
        }
        _ => panic!("not an element"),
    }
    let t = tree.add_text("x".to_string());
    assert_eq!(tree.add_attrs_if_missing(t, Vec::new()), Err(DomError::UnsupportedOperation));
}

#[test]
fn walk_is_bounded_by_the_tree_size() {
    let mut tree = DomTree::new();
    let [a, ..] = sample(&mut tree);
    let mut it = ForwardDomIterator::init(&tree, a).unwrap();
    let mut n = 0;
    while it.next(&tree).is_some() {
        n += 1;
    }
    assert_eq!(n, 5);
    assert_eq!(it.next(&tree), None);
}

#[test]
fn reparent_moves_all_children_in_order() {
    let mut tree = DomTree::new();
    let [a, b, c, d, e] = sample(&mut tree);
    let target = element(&mut tree, "target");
    tree.reparent_children(b, target).unwrap();
    assert!(tree.children_of(b).unwrap().is_empty());
    assert_eq!(tree.children_of(target).unwrap(), &vec![c, d]);
    assert_eq!(tree.parent_of(c), Ok(Some(target)));
    assert_eq!(walk(&tree, a), vec![a, b, e]);
}

#[test]
fn reparent_into_a_descendant_is_a_cycle() {
    let mut tree = DomTree::new();
    let [a, b, c, _d, _e] = sample(&mut tree);
    assert_eq!(tree.reparent_children(a, c), Err(DomError::CycleDetected));
    assert_eq!(tree.parent_of(b), Ok(Some(a)));
}
