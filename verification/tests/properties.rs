use linkcut::link_cut_tree::LinkCutTree;
use linkcut::splay_forest::NodeIdx;

/// The same forest kept as a plain parent table, to compare against.
struct Plain {
    parent: Vec<Option<usize>>,
}

impl Plain {
    fn root(&self, mut v: usize) -> usize {
        while let Some(p) = self.parent[v] {
            v = p;
        }
        v
    }
}

fn next(state: &mut u64) -> usize {
    *state = state.wrapping_mul(6364136223846793005).wrapping_add(1442695040888963407);
    (*state >> 33) as usize
}

#[test]
fn fresh_node_is_its_own_root() {
    let mut lct: LinkCutTree<u32> = LinkCutTree::new();
    for i in 0..5 {
        let v = lct.make_tree(i);
        assert_eq!(v.get(), i as usize);
        assert_eq!(lct.find_root(v), v);
    }
}

#[test]
fn asking_twice_gives_the_same_root() {
    let mut lct: LinkCutTree<u32> = LinkCutTree::new();
    let nodes: Vec<NodeIdx> = (0..6).map(|i| lct.make_tree(i)).collect();
    lct.link(nodes[0], nodes[1]);
    lct.link(nodes[1], nodes[2]);
    lct.link(nodes[1], nodes[3]);
    lct.link(nodes[4], nodes[5]);
    for &v in &nodes {
        let first = lct.find_root(v);
        let second = lct.find_root(v);
        assert_eq!(first, second);
    }
}

#[test]
fn link_gives_the_child_the_root_of_the_parent() {
    let mut lct: LinkCutTree<u32> = LinkCutTree::new();
    let a = lct.make_tree(0);
    let b = lct.make_tree(1);
    let c = lct.make_tree(2);
    let d = lct.make_tree(3);
    lct.link(a, b);
    lct.link(c, d);
    let before = lct.find_root(b);
    assert_eq!(before, a);
    lct.link(b, c);
    assert_eq!(lct.find_root(c), before);
    assert_eq!(lct.find_root(d), before);
    assert_eq!(lct.find_root(b), before);
    assert_eq!(lct.find_root(a), a);
}

#[test]
fn cut_after_link_gives_back_the_old_roots() {
    let mut lct: LinkCutTree<u32> = LinkCutTree::new();
    let a = lct.make_tree(0);
    let p = lct.make_tree(1);
    let c = lct.make_tree(2);
    lct.link(a, p);
    let before = lct.find_root(p);
    lct.link(p, c);
    lct.cut(c);
    assert_eq!(lct.find_root(c), c);
    assert_eq!(lct.find_root(p), before);
    assert_eq!(before, a);
}

#[test]
fn chain_has_its_first_node_as_root() {
    let mut lct: LinkCutTree<usize> = LinkCutTree::new();
    let chain: Vec<NodeIdx> = (0..26).map(|i| lct.make_tree(i)).collect();
    for i in 1..chain.len() {
        lct.link(chain[i - 1], chain[i]);
    }
    for &x in &chain {
        assert_eq!(lct.find_root(x), chain[0]);
    }
    for &x in chain.iter().rev() {
        assert_eq!(lct.find_root(x), chain[0]);
    }
}

#[test]
fn fan_in_has_the_parent_as_root() {
    let mut lct: LinkCutTree<usize> = LinkCutTree::new();
    let parent = lct.make_tree(0);
    let children: Vec<NodeIdx> = (1..20).map(|i| lct.make_tree(i)).collect();
    for &child in &children {
        lct.link(parent, child);
    }
    for &child in &children {
        assert_eq!(lct.find_root(child), parent);
    }
    assert_eq!(lct.find_root(parent), parent);
}

#[test]
fn values_stay_through_every_operation() {
    let mut lct: LinkCutTree<String> = LinkCutTree::new();
    let nodes: Vec<NodeIdx> = (0..8).map(|i| lct.make_tree(format!("value {}", i))).collect();
    for i in 1..nodes.len() {
        lct.link(nodes[i - 1], nodes[i]);
    }
    lct.access(nodes[5]);
    lct.cut(nodes[3]);
    lct.find_root(nodes[7]);
    lct.link(nodes[7], nodes[0]);
    lct.find_root(nodes[2]);
    for (i, &v) in nodes.iter().enumerate() {
        assert_eq!(*lct.get_val(v), format!("value {}", i));
    }
}

#[test]
fn unlinked_nodes_keep_different_roots() {
    let mut lct: LinkCutTree<u32> = LinkCutTree::new();
    let nodes: Vec<NodeIdx> = (0..5).map(|i| lct.make_tree(i)).collect();
    for _ in 0..3 {
        for (i, &u) in nodes.iter().enumerate() {
            assert_eq!(lct.find_root(u), u);
            for &v in &nodes[i + 1..] {
                assert_ne!(lct.find_root(u), lct.find_root(v));
            }
        }
    }
    lct.make_tree(99);
    for &u in &nodes {
        assert_eq!(lct.find_root(u), u);
    }
}

#[test]
fn cut_in_the_middle_parts_the_tree() {
    let mut lct: LinkCutTree<u32> = LinkCutTree::new();
    let a = lct.make_tree(0);
    let b = lct.make_tree(1);
    let c = lct.make_tree(2);
    let d = lct.make_tree(3);
    let side = lct.make_tree(4);
    lct.link(a, b);
    lct.link(b, c);
    lct.link(c, d);
    lct.link(b, side);
    lct.cut(c);
    assert_eq!(lct.find_root(d), c);
    assert_eq!(lct.find_root(c), c);
    assert_eq!(lct.find_root(b), a);
    assert_eq!(lct.find_root(side), a);
    assert_eq!(lct.find_root(a), a);
}

#[test]
fn cut_on_a_root_changes_nothing() {
    let mut lct: LinkCutTree<u32> = LinkCutTree::new();
    let a = lct.make_tree(0);
    let b = lct.make_tree(1);
    let c = lct.make_tree(2);
    lct.link(a, b);
    lct.link(b, c);
    lct.cut(a);
    assert_eq!(lct.find_root(a), a);
    assert_eq!(lct.find_root(b), a);
    assert_eq!(lct.find_root(c), a);
}

#[test]
fn access_keeps_every_root() {
    let mut lct: LinkCutTree<u32> = LinkCutTree::new();
    let nodes: Vec<NodeIdx> = (0..9).map(|i| lct.make_tree(i)).collect();
    lct.link(nodes[0], nodes[1]);
    lct.link(nodes[0], nodes[2]);
    lct.link(nodes[1], nodes[3]);
    lct.link(nodes[1], nodes[4]);
    lct.link(nodes[2], nodes[5]);
    lct.link(nodes[6], nodes[7]);
    for &v in &nodes {
        lct.access(v);
        for &u in &nodes[..6] {
            assert_eq!(lct.find_root(u), nodes[0]);
        }
        assert_eq!(lct.find_root(nodes[6]), nodes[6]);
        assert_eq!(lct.find_root(nodes[7]), nodes[6]);
        assert_eq!(lct.find_root(nodes[8]), nodes[8]);
    }
}

#[test]
fn relinking_below_another_tree() {
    let mut lct: LinkCutTree<u32> = LinkCutTree::new();
    let a = lct.make_tree(0);
    let b = lct.make_tree(1);
    let c = lct.make_tree(2);
    let x = lct.make_tree(3);
    let y = lct.make_tree(4);
    lct.link(a, b);
    lct.link(b, c);
    lct.link(x, y);
    lct.cut(b);
    lct.link(y, b);
    assert_eq!(lct.find_root(c), x);
    assert_eq!(lct.find_root(b), x);
    assert_eq!(lct.find_root(a), a);
}

#[test]
fn agrees_with_a_plain_parent_table() {
    let n = 40;
    let mut lct: LinkCutTree<usize> = LinkCutTree::new();
    let nodes: Vec<NodeIdx> = (0..n).map(|i| lct.make_tree(i)).collect();
    let mut plain = Plain { parent: vec![None; n] };
    let mut state = 0x2545F4914F6CDD1Du64;
    for _ in 0..4000 {
        let u = next(&mut state) % n;
        let v = next(&mut state) % n;
        match next(&mut state) % 4 {
            0 => {
                if plain.parent[v].is_none() && plain.root(u) != v {
                    lct.link(nodes[u], nodes[v]);
                    plain.parent[v] = Some(u);
                }
            }
            1 => {
                lct.cut(nodes[v]);
                plain.parent[v] = None;
            }
            2 => {
                lct.access(nodes[u]);
            }
            _ => {}
        }
        assert_eq!(lct.find_root(nodes[u]).get(), plain.root(u));
        assert_eq!(lct.find_root(nodes[v]).get(), plain.root(v));
    }
    for i in 0..n {
        assert_eq!(lct.find_root(nodes[i]).get(), plain.root(i));
        assert_eq!(*lct.get_val(nodes[i]), i);
    }
}
