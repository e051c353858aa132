use linkcut::splay_forest::{NodeIdx, SliceExt, SplayForest, Walk};

fn three_in_a_row() -> (SplayForest<&'static str>, NodeIdx, NodeIdx, NodeIdx) {
    let mut forest: SplayForest<&str> = SplayForest::new();
    let a = forest.add_node("a");
    let b = forest.add_node("b");
    let c = forest.add_node("c");
    forest.set_right(a, Some(b));
    forest.set_right(b, Some(c));
    (forest, a, b, c)
}

#[test]
fn node_idx_round_trip() {
    assert_eq!(NodeIdx::new(0).get(), 0);
    assert_eq!(NodeIdx::new(41).get(), 41);
    assert_eq!(NodeIdx::from(7usize), NodeIdx::new(7));
    assert_ne!(NodeIdx::new(1), NodeIdx::new(2));
}

#[test]
fn add_node_gives_dense_indices_and_isolated_nodes() {
    let mut forest: SplayForest<u32> = SplayForest::new();
    let a = forest.add_node(10);
    let b = forest.add_node(20);
    assert_eq!(a.get(), 0);
    assert_eq!(b.get(), 1);
    assert_eq!(*forest.get_value(a), 10);
    assert_eq!(*forest.get_value(b), 20);
    for n in [a, b] {
        assert_eq!(forest.get_parent(n), None);
        assert_eq!(forest.get_left(n), None);
        assert_eq!(forest.get_right(n), None);
        assert_eq!(forest.get_path_parent(n), None);
    }
}

#[test]
fn set_child_tells_the_child_its_parent() {
    let mut forest: SplayForest<u32> = SplayForest::new();
    let a = forest.add_node(1);
    let b = forest.add_node(2);
    let c = forest.add_node(3);
    forest.set_left(a, Some(b));
    forest.set_right(a, Some(c));
    assert_eq!(forest.get_left(a), Some(b));
    assert_eq!(forest.get_right(a), Some(c));
    assert_eq!(forest.get_parent(b), Some(a));
    assert_eq!(forest.get_parent(c), Some(a));
    assert_eq!(forest.get_parent(a), None);
}

#[test]
fn set_child_to_none_leaves_the_old_child_untold() {
    let mut forest: SplayForest<u32> = SplayForest::new();
    let a = forest.add_node(1);
    let b = forest.add_node(2);
    forest.set_left(a, Some(b));
    forest.set_left(a, None);
    assert_eq!(forest.get_left(a), None);
    assert_eq!(forest.get_parent(b), Some(a));
}

#[test]
fn walks_end_at_root_first_and_last() {
    let (forest, a, b, c) = three_in_a_row();
    for n in [a, b, c] {
        assert_eq!(forest.get_root(n), a);
        assert_eq!(forest.get_rightmost(n), c);
    }
    assert_eq!(forest.get_leftmost(a), a);
    assert_eq!(forest.get_leftmost(b), b);
    assert_eq!(forest.get_while_some(c, Walk::Parent), a);
    assert_eq!(forest.get_while_some(a, Walk::Right), c);
    assert_eq!(forest.get_while_some(a, Walk::Left), a);
}

#[test]
fn rotate_up_without_parent_changes_nothing() {
    let (mut forest, a, b, c) = three_in_a_row();
    forest.rotate_up(a);
    assert_eq!(forest.get_parent(a), None);
    assert_eq!(forest.get_right(a), Some(b));
    assert_eq!(forest.get_right(b), Some(c));
}

#[test]
fn rotate_up_right_child() {
    let (mut forest, a, b, c) = three_in_a_row();
    forest.rotate_up(b);
    assert_eq!(forest.get_parent(b), None);
    assert_eq!(forest.get_left(b), Some(a));
    assert_eq!(forest.get_right(b), Some(c));
    assert_eq!(forest.get_parent(a), Some(b));
    assert_eq!(forest.get_right(a), None);
    assert_eq!(forest.get_left(a), None);
    assert_eq!(forest.get_parent(c), Some(b));
}

#[test]
fn rotate_up_left_child_moves_the_inner_subtree() {
    let mut forest: SplayForest<u32> = SplayForest::new();
    let p = forest.add_node(0);
    let x = forest.add_node(1);
    let inner = forest.add_node(2);
    forest.set_left(p, Some(x));
    forest.set_right(x, Some(inner));
    forest.rotate_up(x);
    assert_eq!(forest.get_parent(x), None);
    assert_eq!(forest.get_right(x), Some(p));
    assert_eq!(forest.get_left(x), None);
    assert_eq!(forest.get_parent(p), Some(x));
    assert_eq!(forest.get_left(p), Some(inner));
    assert_eq!(forest.get_parent(inner), Some(p));
    assert_eq!(forest.get_right(p), None);
}

#[test]
fn rotate_up_below_a_grandparent_takes_the_slot_of_the_parent() {
    let (mut forest, a, b, c) = three_in_a_row();
    forest.rotate_up(c);
    assert_eq!(forest.get_right(a), Some(c));
    assert_eq!(forest.get_parent(c), Some(a));
    assert_eq!(forest.get_left(c), Some(b));
    assert_eq!(forest.get_parent(b), Some(c));
    assert_eq!(forest.get_right(b), None);
}

#[test]
fn rotate_down_prefers_the_left_child() {
    let mut forest: SplayForest<u32> = SplayForest::new();
    let p = forest.add_node(0);
    let l = forest.add_node(1);
    let r = forest.add_node(2);
    forest.set_left(p, Some(l));
    forest.set_right(p, Some(r));
    forest.rotate_down(p);
    assert_eq!(forest.get_parent(l), None);
    assert_eq!(forest.get_right(l), Some(p));
    assert_eq!(forest.get_right(p), Some(r));
    assert_eq!(forest.get_left(p), None);
}

#[test]
fn rotate_down_takes_the_right_child_when_there_is_no_left() {
    let (mut forest, a, b, c) = three_in_a_row();
    forest.rotate_down(a);
    assert_eq!(forest.get_parent(b), None);
    assert_eq!(forest.get_left(b), Some(a));
    assert_eq!(forest.get_right(b), Some(c));
}

#[test]
fn splay_zig() {
    let mut forest: SplayForest<u32> = SplayForest::new();
    let a = forest.add_node(0);
    let b = forest.add_node(1);
    forest.set_right(a, Some(b));
    forest.splay(b);
    assert_eq!(forest.get_parent(b), None);
    assert_eq!(forest.get_left(b), Some(a));
    assert_eq!(forest.get_parent(a), Some(b));
    assert_eq!(forest.get_right(a), None);
}

#[test]
fn splay_zig_zig_rotates_the_parent_first() {
    let (mut forest, a, b, c) = three_in_a_row();
    forest.splay(c);
    assert_eq!(forest.get_parent(c), None);
    assert_eq!(forest.get_left(c), Some(b));
    assert_eq!(forest.get_right(c), None);
    assert_eq!(forest.get_parent(b), Some(c));
    assert_eq!(forest.get_left(b), Some(a));
    assert_eq!(forest.get_right(b), None);
    assert_eq!(forest.get_parent(a), Some(b));
    assert_eq!(forest.get_left(a), None);
    assert_eq!(forest.get_right(a), None);
}

#[test]
fn splay_zig_zag_rotates_the_node_twice() {
    let mut forest: SplayForest<&str> = SplayForest::new();
    let top = forest.add_node("A");
    let mid = forest.add_node("B");
    let low = forest.add_node("C");
    forest.set_left(top, Some(mid));
    forest.set_right(mid, Some(low));
    forest.splay(low);
    assert_eq!(forest.get_parent(low), None);
    assert_eq!(forest.get_left(low), Some(mid));
    assert_eq!(forest.get_right(low), Some(top));
    assert_eq!(forest.get_parent(mid), Some(low));
    assert_eq!(forest.get_parent(top), Some(low));
    assert_eq!(forest.get_right(mid), None);
    assert_eq!(forest.get_left(top), None);
}

#[test]
fn splay_keeps_the_order_of_a_longer_tree() {
    let mut forest: SplayForest<usize> = SplayForest::new();
    let nodes: Vec<NodeIdx> = (0..7).map(|i| forest.add_node(i)).collect();
    for i in 0..6 {
        forest.set_right(nodes[i], Some(nodes[i + 1]));
    }
    for &target in &[nodes[6], nodes[2], nodes[4], nodes[0], nodes[3]] {
        forest.splay(target);
        assert_eq!(forest.get_parent(target), None);
        assert_eq!(forest.get_leftmost(target), nodes[0]);
        assert_eq!(forest.get_rightmost(target), nodes[6]);
        let mut in_order = Vec::new();
        let mut stack = Vec::new();
        let mut cur = Some(target);
        while cur.is_some() || !stack.is_empty() {
            while let Some(n) = cur {
                stack.push(n);
                cur = forest.get_left(n);
            }
            let n = stack.pop().unwrap();
            in_order.push(n);
            cur = forest.get_right(n);
        }
        assert_eq!(in_order, nodes);
    }
}

#[test]
fn split_right_leaves_a_path_parent_behind() {
    let (mut forest, a, b, c) = three_in_a_row();
    forest.split_right_and_attach_new(a, None);
    assert_eq!(forest.get_right(a), None);
    assert_eq!(forest.get_parent(b), None);
    assert_eq!(forest.get_path_parent(b), Some(a));
    assert_eq!(forest.get_right(b), Some(c));
    assert_eq!(forest.get_root(c), b);
}

#[test]
fn split_right_and_attach_new_switches_the_child() {
    let (mut forest, a, b, _c) = three_in_a_row();
    let d = forest.add_node("d");
    forest.split_right_and_attach_new(a, Some(d));
    assert_eq!(forest.get_right(a), Some(d));
    assert_eq!(forest.get_parent(d), Some(a));
    assert_eq!(forest.get_path_parent(d), None);
    assert_eq!(forest.get_parent(b), None);
    assert_eq!(forest.get_path_parent(b), Some(a));
}

#[test]
fn attaching_clears_the_path_parent_of_the_new_child() {
    let (mut forest, a, b, _c) = three_in_a_row();
    forest.split_right_and_attach_new(a, None);
    assert_eq!(forest.get_path_parent(b), Some(a));
    forest.split_right_and_attach_new(a, Some(b));
    assert_eq!(forest.get_path_parent(b), None);
    assert_eq!(forest.get_parent(b), Some(a));
    assert_eq!(forest.get_right(a), Some(b));
}

#[test]
fn the_path_parent_moves_to_the_new_root() {
    let (mut forest, a, b, c) = three_in_a_row();
    forest.split_right_and_attach_new(a, None);
    forest.rotate_up(c);
    assert_eq!(forest.get_parent(c), None);
    assert_eq!(forest.get_path_parent(c), Some(a));
    assert_eq!(forest.get_path_parent(b), None);
    assert_eq!(forest.get_parent(b), Some(c));
}

#[test]
fn splay_carries_the_path_parent_to_the_top() {
    let mut forest: SplayForest<u32> = SplayForest::new();
    let above = forest.add_node(0);
    let a = forest.add_node(1);
    let b = forest.add_node(2);
    let c = forest.add_node(3);
    forest.set_right(above, Some(a));
    forest.set_right(a, Some(b));
    forest.set_right(b, Some(c));
    forest.split_right_and_attach_new(above, None);
    forest.splay(c);
    assert_eq!(forest.get_parent(c), None);
    assert_eq!(forest.get_path_parent(c), Some(above));
    assert_eq!(forest.get_path_parent(a), None);
    assert_eq!(forest.get_path_parent(b), None);
    assert_eq!(forest.get_root(a), c);
    assert_eq!(forest.get_parent(above), None);
    assert_eq!(forest.get_right(above), None);
}

#[test]
fn split_left_clears_both_ends() {
    let mut forest: SplayForest<u32> = SplayForest::new();
    let a = forest.add_node(0);
    let b = forest.add_node(1);
    forest.set_left(a, Some(b));
    forest.split_left(a);
    assert_eq!(forest.get_left(a), None);
    assert_eq!(forest.get_parent(b), None);
    assert_eq!(forest.get_path_parent(b), None);
    forest.split_left(a);
    assert_eq!(forest.get_left(a), None);
}

#[test]
fn join_left_hangs_the_tree() {
    let mut forest: SplayForest<u32> = SplayForest::new();
    let a = forest.add_node(0);
    let b = forest.add_node(1);
    forest.join_left(a, b);
    assert_eq!(forest.get_left(a), Some(b));
    assert_eq!(forest.get_parent(b), Some(a));
    assert_eq!(forest.get_root(b), a);
    assert_eq!(forest.get_leftmost(a), b);
}

#[test]
fn picture_shows_every_tree_by_its_root() {
    let mut forest: SplayForest<&str> = SplayForest::new();
    let node1 = forest.add_node("alpha");
    let node2 = forest.add_node("bravo");
    let node3 = forest.add_node("charlie");
    let lone = forest.add_node("delta");
    forest.set_left(node1, Some(node2));
    forest.set_right(node2, Some(node3));
    forest.split_right_and_attach_new(node2, None);
    forest.set_right(lone, None);

    let roots = forest.debug_roots();
    assert_eq!(roots.len(), 3);

    assert_eq!(roots[0].idx, 0);
    assert_eq!(*roots[0].val, "alpha");
    assert_eq!(roots[0].path_parent, None);
    assert!(roots[0].right.is_none());
    let left = roots[0].left.as_ref().unwrap();
    assert_eq!(left.idx, 1);
    assert_eq!(*left.val, "bravo");
    assert!(left.left.is_none());
    assert!(left.right.is_none());

    assert_eq!(roots[1].idx, 2);
    assert_eq!(*roots[1].val, "charlie");
    assert_eq!(roots[1].path_parent, Some(1));
    assert!(roots[1].left.is_none());
    assert!(roots[1].right.is_none());

    assert_eq!(roots[2].idx, 3);
    assert_eq!(*roots[2].val, "delta");

    let below = forest.debug_node(node2);
    assert_eq!(below.idx, 1);
    assert!(below.left.is_none());
}

#[test]
fn picture_can_be_printed() {
    let mut forest: SplayForest<&str> = SplayForest::new();
    let a = forest.add_node("alpha");
    let b = forest.add_node("bravo");
    forest.set_right(a, Some(b));
    let text = format!("{:?}", forest.debug_roots());
    assert!(text.contains("alpha"));
    assert!(text.contains("bravo"));
    assert!(text.find("alpha").unwrap() < text.find("bravo").unwrap());
}

#[test]
fn picture_of_an_empty_forest_is_empty() {
    let forest: SplayForest<u8> = SplayForest::new();
    assert!(forest.debug_roots().is_empty());
}

#[test]
fn get_two_mut_gives_both_places() {
    let mut data = vec![10, 20, 30, 40];
    {
        let (x, y) = data.as_mut_slice().get_two_mut(3, 1);
        assert_eq!(*x, 40);
        assert_eq!(*y, 20);
        *x += 1;
        *y += 2;
    }
    assert_eq!(data, vec![10, 22, 30, 41]);
    {
        let (x, y) = data.as_mut_slice().get_two_mut(0, 2);
        std::mem::swap(x, y);
    }
    assert_eq!(data, vec![30, 22, 10, 41]);
}
