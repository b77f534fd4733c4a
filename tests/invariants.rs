use mj_dom::node::{DomError, NodeId, NodeKind, QualifiedName};
use mj_dom::tree::DomTree;

/// A small deterministic generator, so that failures reproduce.
struct Lcg(u64);

impl Lcg {
    fn next(&mut self) -> u64 {
        self.0 = self.0.wrapping_mul(6364136223846793005).wrapping_add(1442695040888963407);
        self.0 >> 33
    }

    fn below(&mut self, n: usize) -> usize {
        (self.next() % n as u64) as usize
    }
}

fn is_text(tree: &DomTree, id: NodeId) -> bool {
    matches!(tree.node(id).map(|n| &n.kind), Some(NodeKind::Text { .. }))
}

/// Checks the invariants of the tree over the nodes in `known` that are live.
fn check(tree: &DomTree, known: &[NodeId]) {
    let root = tree.root();
    assert!(matches!(tree.node(root).unwrap().kind, NodeKind::Document));
    assert_eq!(tree.parent_of(root), Ok(None));
    let live: Vec<NodeId> = known.iter().copied().filter(|id| tree.contains(*id)).collect();
    assert_eq!(live.len() + 1, tree.len());
    for &id in live.iter().chain(std::iter::once(&root)) {
        let node = tree.node(id).unwrap();
        if id != root {
            assert!(!matches!(node.kind, NodeKind::Document));
        }
        if let Some(p) = node.parent {
            let siblings = tree.children_of(p).unwrap();
            assert_eq!(siblings.iter().filter(|c| **c == id).count(), 1);
        }
        for (i, c) in node.children.iter().enumerate() {
            assert_eq!(tree.parent_of(*c), Ok(Some(id)));
            assert!(!node.children[..i].contains(c));
            if i > 0 {
                assert!(!(is_text(tree, node.children[i - 1]) && is_text(tree, *c)));
            }
        }
        let mut cur = id;
        let mut steps = 0;
        while let Ok(Some(p)) = tree.parent_of(cur) {
            assert_ne!(p, id);
            cur = p;
            steps += 1;
            assert!(steps <= tree.len());
        }
    }
}

fn run(seed: u64, steps: usize) {
    let mut rng = Lcg(seed);
    let mut tree = DomTree::new();
    let mut known: Vec<NodeId> = Vec::new();
    for _ in 0..steps {
        let mut pool: Vec<NodeId> = known.iter().copied().filter(|id| tree.contains(*id)).collect();
        pool.push(tree.root());
        let pick = |rng: &mut Lcg, pool: &Vec<NodeId>| pool[rng.below(pool.len())];
        match rng.below(8) {
            0 => {
                let name = QualifiedName { prefix: None, ns: String::new(), local: format!("e{}", known.len()) };
                known.push(tree.add_element(name, Vec::new()));
            }
            1 => known.push(tree.add_text(format!("t{}", known.len()))),
            2 | 3 => {
                let (p, c) = (pick(&mut rng, &pool), pick(&mut rng, &pool));
                let before = tree.len();
                match tree.append_child(p, c) {
                    Ok(()) => {}
                    Err(DomError::CycleDetected) | Err(DomError::UnsupportedOperation) => assert_eq!(tree.len(), before),
                    Err(e) => panic!("unexpected {:?}", e),
                }
            }
            4 => {
                let p = pick(&mut rng, &pool);
                let kids = tree.children_of(p).unwrap().clone();
                if !kids.is_empty() {
                    let s = kids[rng.below(kids.len())];
                    let c = pick(&mut rng, &pool);
                    let _ = tree.insert_before(p, s, c);
                }
            }
            5 => {
                let p = pick(&mut rng, &pool);
                let kids = tree.children_of(p).unwrap().clone();
                if !kids.is_empty() {
                    let s = kids[rng.below(kids.len())];
                    let c = pick(&mut rng, &pool);
                    let _ = tree.insert_after(p, s, c);
                }
            }
            6 => {
                let c = pick(&mut rng, &pool);
                assert_eq!(tree.detach(c), Ok(()));
                assert_eq!(tree.parent_of(c), Ok(None));
            }
            _ => {
                if rng.below(4) == 0 {
                    let c = pick(&mut rng, &pool);
                    let _ = tree.destroy_subtree(c);
                } else {
                    let (p, c) = (pick(&mut rng, &pool), pick(&mut rng, &pool));
                    let _ = tree.prepend_child(p, c);
                }
            }
        }
        check(&tree, &known);
    }
}

#[test]
fn random_edit_sequences_keep_the_invariants() {
    for seed in 1..40 {
        run(seed, 300);
    }
}
