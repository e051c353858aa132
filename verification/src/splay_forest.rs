//! A forest of splay trees in one arena. Nodes refer to each other by index.
//! Each tree stands for a sequence of nodes, its in-order; the root of a tree
//! may carry a path-parent link into another tree.

pub use crate::slice_ext::SliceExt;

use crate::rotations::{
    is_left,
    lemma_reparented_in_bounds,
    lemma_rotate_left,
    lemma_rotate_right,
    lemma_splay_step,
    rearranged,
    reparented,
    rotated_down,
    rotated_left,
    rotated_right,
    rotated_up,
    splay_step,
    splayed,
};
use crate::shape::{
    bounded,
    in_bounds,
    isolated,
    lemma_grown,
    lemma_well_formed_in_bounds,
    lemma_with_child_in_bounds,
    node_ok,
    well_formed,
    with_left,
    with_right,
    Links,
    Shape,
};
use crate::splices::{
    attached_right,
    detached_left,
    detached_right,
    hangs_left,
    hangs_right,
    lemma_attach_left,
    lemma_attach_right,
    lemma_detach_left,
    lemma_detach_right,
    right_switched,
    switches_right,
};
use vstd::pervasive::runtime_assert;
use vstd::prelude::*;
use vstd::std_specs::convert::FromSpecImpl;

verus! {

/// The stable identifier of a node: its position in the arena.
#[derive(PartialEq, Eq, Structural, Copy, Clone, Hash, Debug)]
pub struct NodeIdx(usize);

impl View for NodeIdx {
    type V = int;

    closed spec fn view(&self) -> int {
        self.0 as int
    }
}

impl NodeIdx {
    /// The identifier that stands for position `idx`.
    pub closed spec fn at(idx: usize) -> NodeIdx {
        NodeIdx(idx)
    }

    /// The identifier of the node at position `idx`.
    pub fn new(idx: usize) -> (r: Self)
        ensures
            r == NodeIdx::at(idx),
            r@ == idx,
    {
        NodeIdx(idx)
    }

    /// The position that the identifier stands for.
    pub fn get(self) -> (r: usize)
        ensures
            r == self@,
    {
        self.0
    }

    /// Two identifiers are equal exactly when they stand for the same position.
    pub proof fn lemma_same_position(a: NodeIdx, b: NodeIdx)
        ensures
            a@ == b@ <==> a == b,
            0 <= a@ <= usize::MAX,
    {
    }

    /// `at` and the view are inverse to each other.
    pub proof fn lemma_at(idx: usize)
        ensures
            NodeIdx::at(idx)@ == idx,
    {
    }
}

impl From<usize> for NodeIdx {
    fn from(idx: usize) -> (r: Self) {
        NodeIdx::new(idx)
    }
}

impl FromSpecImpl<usize> for NodeIdx {
    open spec fn obeys_from_spec() -> bool {
        true
    }

    open spec fn from_spec(idx: usize) -> NodeIdx {
        NodeIdx::at(idx)
    }
}

/// The position behind an optional identifier.
pub open spec fn opt_index(o: Option<NodeIdx>) -> Option<int> {
    match o {
        None => None,
        Some(i) => Some(i@),
    }
}

/// A node of the arena: a value, and the links to other nodes.
pub struct Node<V> {
    value: V,
    path_parent: Option<NodeIdx>,
    parent: Option<NodeIdx>,
    left: Option<NodeIdx>,
    right: Option<NodeIdx>,
    my_idx: NodeIdx,
}

impl<V> Node<V> {
    /// The links of the node, as positions.
    pub closed spec fn links(&self) -> Links {
        Links {
            index: self.my_idx@,
            path_parent: opt_index(self.path_parent),
            parent: opt_index(self.parent),
            left: opt_index(self.left),
            right: opt_index(self.right),
        }
    }

    /// The value that the node holds.
    pub closed spec fn value(&self) -> V {
        self.value
    }

    /// A node at position `cur_idx` that stands alone.
    pub fn new(value: V, cur_idx: NodeIdx) -> (r: Self)
        ensures
            r.links() == isolated(cur_idx@),
            r.value() == value,
    {
        Node { value, path_parent: None, parent: None, left: None, right: None, my_idx: cur_idx }
    }
}

/// The link that a walk through a tree follows.
#[derive(PartialEq, Eq, Structural, Copy, Clone, Debug)]
pub enum Walk {
    /// Up, to the root of the tree.
    Parent,
    /// Down to the left, to the first node of the subtree.
    Left,
    /// Down to the right, to the last node of the subtree.
    Right,
}

/// The node that `i` names in the given direction.
pub open spec fn next(s: Seq<Links>, dir: Walk, i: int) -> Option<int> {
    match dir {
        Walk::Parent => s[i].parent,
        Walk::Left => s[i].left,
        Walk::Right => s[i].right,
    }
}

/// Where a walk from `i` in the given direction ends: at the root of the
/// tree, or at the first or the last node of the subtree below `i`.
pub open spec fn walk_end(shape: Shape, dir: Walk, i: int) -> int {
    match dir {
        Walk::Parent => shape.apex_of(i),
        Walk::Left => shape.order_of(i)[shape.lo[i]],
        Walk::Right => shape.order_of(i)[shape.hi[i] - 1],
    }
}

/// The configuration that one step of a splay finds above the node.
enum SplayType {
    NoSplay,
    Zig,
    ZigZig,
    ZigZag,
}

/// The arena of nodes, and what its trees stand for.
pub struct SplayForest<V> {
    /// The nodes, each at the position that its identifier names.
    pub forest: Vec<Node<V>>,
    /// The in-order of every tree. The operations keep it up to date as far
    /// as they say; it takes no room in the compiled forest.
    pub shape: Ghost<Shape>,
}

impl<V> SplayForest<V> {
    /// The links of all nodes, by position.
    pub open spec fn links(&self) -> Seq<Links> {
        Seq::new(self.forest@.len(), |i: int| self.forest@[i].links())
    }

    /// The values of all nodes, by position.
    pub open spec fn values(&self) -> Seq<V> {
        Seq::new(self.forest@.len(), |i: int| self.forest@[i].value())
    }

    /// `idx` names a node of this forest.
    pub open spec fn has(&self, idx: NodeIdx) -> bool {
        0 <= idx@ < self.links().len()
    }

    /// `idx`, if any, names a node of this forest.
    pub open spec fn has_opt(&self, idx: Option<NodeIdx>) -> bool {
        idx matches Some(i) ==> self.has(i)
    }

    /// The links form a forest of binary trees, and the shape gives the in-order of each.
    pub open spec fn wf(&self) -> bool {
        well_formed(self.links(), self.shape@)
    }

    /// The empty forest.
    pub fn new() -> (r: Self)
        ensures
            r.wf(),
            r.links() == Seq::<Links>::empty(),
            r.values() == Seq::<V>::empty(),
            r.shape@ == Shape::empty(),
            in_bounds(r.links()),
    {
        SplayForest { forest: Vec::new(), shape: Ghost(Shape::empty()) }
    }

    /// Appends a node that stands alone and returns its identifier.
    pub fn add_node(&mut self, node: V) -> (r: NodeIdx)
        ensures
            r@ == old(self).links().len(),
            final(self).links() == old(self).links().push(isolated(r@)),
            final(self).values() == old(self).values().push(node),
            final(self).shape@ == old(self).shape@.grown(r@),
            old(self).wf() ==> final(self).wf(),
            in_bounds(old(self).links()) ==> in_bounds(final(self).links()),
    {
        let cur_idx: NodeIdx = self.forest.len().into();
        let node = Node::new(node, cur_idx);
        self.forest.push(node);
        proof {
            self.shape@ = self.shape@.grown(cur_idx@);
            assert(self.links() =~= old(self).links().push(isolated(cur_idx@)));
            if old(self).wf() {
                lemma_grown(old(self).links(), old(self).shape@);
            }
            if in_bounds(old(self).links()) {
                assert forall|i: int| 0 <= i < self.links().len() implies bounded(
                    #[trigger] self.links()[i],
                    self.links().len(),
                ) by {
                    if i < old(self).links().len() {
                        assert(bounded(old(self).links()[i], old(self).links().len()));
                    }
                }
            }
        }
        cur_idx
    }

    /// The node at `node_idx`.
    fn get_node(&self, node_idx: NodeIdx) -> (r: &Node<V>)
        requires
            self.has(node_idx),
        ensures
            *r == self.forest@[node_idx@],
    {
        &self.forest[node_idx.get()]
    }

    /// The node at `node_idx`, for writing.
    fn get_node_mut(&mut self, node_idx: NodeIdx) -> (r: &mut Node<V>)
        requires
            old(self).has(node_idx),
        ensures
            *r == old(self).forest@[node_idx@],
            final(self).forest@ == old(self).forest@.update(node_idx@, *final(r)),
            final(self).shape == old(self).shape,
    {
        &mut self.forest[node_idx.get()]
    }

    /// The value of `node_idx`.
    pub fn get_value(&self, node_idx: NodeIdx) -> (r: &V)
        requires
            self.has(node_idx),
        ensures
            *r == self.values()[node_idx@],
    {
        &self.get_node(node_idx).value
    }

    /// The parent of `node_idx` in its splay tree.
    pub fn get_parent(&self, node_idx: NodeIdx) -> (r: Option<NodeIdx>)
        requires
            self.has(node_idx),
        ensures
            opt_index(r) == self.links()[node_idx@].parent,
    {
        self.get_node(node_idx).parent
    }

    /// The path-parent of `node_idx`: the node in another tree below which
    /// the tree of `node_idx` hangs, kept at the root of the tree.
    pub fn get_path_parent(&self, node_idx: NodeIdx) -> (r: Option<NodeIdx>)
        requires
            self.has(node_idx),
        ensures
            opt_index(r) == self.links()[node_idx@].path_parent,
    {
        self.get_node(node_idx).path_parent
    }

    /// The left child of `node_idx`.
    pub fn get_left(&self, node_idx: NodeIdx) -> (r: Option<NodeIdx>)
        requires
            self.has(node_idx),
        ensures
            opt_index(r) == self.links()[node_idx@].left,
    {
        self.get_node(node_idx).left
    }

    /// The right child of `node_idx`.
    pub fn get_right(&self, node_idx: NodeIdx) -> (r: Option<NodeIdx>)
        requires
            self.has(node_idx),
        ensures
            opt_index(r) == self.links()[node_idx@].right,
    {
        self.get_node(node_idx).right
    }

    /// Rewires the right slot of `node_idx`. The new child, if any, gets
    /// `node_idx` as its parent; whatever either end was linked to before is
    /// not told. Where the slot was empty and the new child is the root of
    /// another tree, without a path-parent, the forest stays well-formed and
    /// the in-order of that tree goes in right behind `node_idx`.
    pub fn set_right(&mut self, node_idx: NodeIdx, right_idx: Option<NodeIdx>)
        requires
            old(self).has(node_idx),
            old(self).has_opt(right_idx),
        ensures
            final(self).links() == with_right(old(self).links(), node_idx@, opt_index(right_idx)),
            final(self).values() == old(self).values(),
            final(self).shape@ == old(self).shape@.with_right(
                old(self).links(),
                node_idx@,
                opt_index(right_idx),
            ),
            in_bounds(old(self).links()) ==> in_bounds(final(self).links()),
            hangs_right(old(self).links(), old(self).shape@, node_idx@, opt_index(right_idx))
                ==> final(self).wf(),
    {
        proof {
            let s0 = self.links();
            let b = opt_index(right_idx);
            if in_bounds(s0) {
                lemma_with_child_in_bounds(s0, node_idx@, b);
            }
            if hangs_right(s0, self.shape@, node_idx@, b) {
                lemma_attach_right(s0, self.shape@, node_idx@, b->0);
                assert(with_right(s0, node_idx@, b) =~= attached_right(s0, node_idx@, b));
            }
            self.shape@ = self.shape@.with_right(s0, node_idx@, b);
        }
        self.forest[node_idx.get()].right = right_idx;
        match right_idx {
            None => {},
            Some(idx) => {
                self.forest[idx.get()].parent = Some(node_idx);
            },
        }
        assert(self.links() =~= with_right(old(self).links(), node_idx@, opt_index(right_idx)));
    }

    /// Rewires the left slot of `node_idx`. The new child, if any, gets
    /// `node_idx` as its parent; whatever either end was linked to before is
    /// not told. Where the slot was empty and the new child is the root of
    /// another tree, without a path-parent, the forest stays well-formed and
    /// the in-order of that tree goes in right before `node_idx`.
    pub fn set_left(&mut self, node_idx: NodeIdx, left_idx: Option<NodeIdx>)
        requires
            old(self).has(node_idx),
            old(self).has_opt(left_idx),
        ensures
            final(self).links() == with_left(old(self).links(), node_idx@, opt_index(left_idx)),
            final(self).values() == old(self).values(),
            final(self).shape@ == old(self).shape@.with_left(
                old(self).links(),
                node_idx@,
                opt_index(left_idx),
            ),
            in_bounds(old(self).links()) ==> in_bounds(final(self).links()),
            hangs_left(old(self).links(), old(self).shape@, node_idx@, opt_index(left_idx))
                ==> final(self).wf(),
    {
        proof {
            let s0 = self.links();
            let b = opt_index(left_idx);
            if in_bounds(s0) {
                lemma_with_child_in_bounds(s0, node_idx@, b);
            }
            if hangs_left(s0, self.shape@, node_idx@, b) {
                lemma_attach_left(s0, self.shape@, node_idx@, b->0);
            }
            self.shape@ = self.shape@.with_left(s0, node_idx@, b);
        }
        self.forest[node_idx.get()].left = left_idx;
        match left_idx {
            None => {},
            Some(idx) => {
                self.forest[idx.get()].parent = Some(node_idx);
            },
        }
        assert(self.links() =~= with_left(old(self).links(), node_idx@, opt_index(left_idx)));
    }

    /// Whether `node_idx` hangs to the left of its parent.
    fn is_left_child(&self, node_idx: NodeIdx) -> (r: bool)
        requires
            self.has(node_idx),
            in_bounds(self.links()),
        ensures
            r == is_left(self.links(), node_idx@),
    {
        assert(bounded(self.links()[node_idx@], self.links().len()));
        match self.get_parent(node_idx) {
            None => false,
            Some(parent_idx) => match self.get_node(parent_idx).left {
                None => false,
                Some(left_idx) => left_idx.get() == node_idx.get(),
            },
        }
    }

    /// Puts `new_root_idx` in the place of `old_root_idx`: below the same
    /// parent on the same side, or as a root with the same path-parent.
    fn update_parent(&mut self, old_root_idx: NodeIdx, new_root_idx: NodeIdx)
        requires
            old(self).has(old_root_idx),
            old(self).has(new_root_idx),
            in_bounds(old(self).links()),
        ensures
            final(self).links() == reparented(old(self).links(), old_root_idx@, new_root_idx@),
            final(self).values() == old(self).values(),
            final(self).shape == old(self).shape,
            in_bounds(final(self).links()),
    {
        assert(bounded(self.links()[old_root_idx@], self.links().len()));
        proof {
            lemma_reparented_in_bounds(self.links(), old_root_idx@, new_root_idx@);
        }
        let b_left = self.is_left_child(old_root_idx);
        match self.get_parent(old_root_idx) {
            None => {
                self.forest[new_root_idx.get()].parent = None;
                // Only a root carries a path-parent, so it moves along with the root.
                let moved = self.forest[old_root_idx.get()].path_parent;
                self.forest[new_root_idx.get()].path_parent = moved;
                self.forest[old_root_idx.get()].path_parent = None;
            },
            Some(parent_idx) => {
                if b_left {
                    self.set_left(parent_idx, Some(new_root_idx))
                } else {
                    self.set_right(parent_idx, Some(new_root_idx));
                }
            },
        }
        proof {
            self.shape@ = old(self).shape@;
        }
        assert(self.links() =~= reparented(old(self).links(), old_root_idx@, new_root_idx@));
    }

    /// Rotates the left child of `root_idx`, if any, above it.
    fn rotate_right(&mut self, root_idx: NodeIdx)
        requires
            old(self).has(root_idx),
            in_bounds(old(self).links()),
        ensures
            final(self).links() == rotated_right(old(self).links(), root_idx@),
            final(self).values() == old(self).values(),
            final(self).shape@ == old(self).shape@.rotated_right(old(self).links(), root_idx@),
            in_bounds(final(self).links()),
            old(self).wf() ==> final(self).wf(),
    {
        assert(bounded(self.links()[root_idx@], self.links().len()));
        let left_idx = self.get_node(root_idx).left;
        match left_idx {
            None => {},
            Some(new_root_idx) => {
                assert(bounded(self.links()[new_root_idx@], self.links().len()));
                let inner = self.get_node(new_root_idx).right;
                self.set_left(root_idx, inner);
                self.update_parent(root_idx, new_root_idx);
                self.set_right(new_root_idx, Some(root_idx));
                proof {
                    self.shape@ = old(self).shape@.rotated_right(old(self).links(), root_idx@);
                    if old(self).wf() {
                        lemma_rotate_right(old(self).links(), old(self).shape@, root_idx@);
                    }
                }
            },
        }
    }

    /// Rotates the right child of `root_idx`, if any, above it.
    fn rotate_left(&mut self, root_idx: NodeIdx)
        requires
            old(self).has(root_idx),
            in_bounds(old(self).links()),
        ensures
            final(self).links() == rotated_left(old(self).links(), root_idx@),
            final(self).values() == old(self).values(),
            final(self).shape@ == old(self).shape@.rotated_left(old(self).links(), root_idx@),
            in_bounds(final(self).links()),
            old(self).wf() ==> final(self).wf(),
    {
        assert(bounded(self.links()[root_idx@], self.links().len()));
        let right_idx = self.get_node(root_idx).right;
        match right_idx {
            None => {},
            Some(new_root_idx) => {
                assert(bounded(self.links()[new_root_idx@], self.links().len()));
                let inner = self.get_node(new_root_idx).left;
                self.set_right(root_idx, inner);
                self.update_parent(root_idx, new_root_idx);
                self.set_left(new_root_idx, Some(root_idx));
                proof {
                    self.shape@ = old(self).shape@.rotated_left(old(self).links(), root_idx@);
                    if old(self).wf() {
                        lemma_rotate_left(old(self).links(), old(self).shape@, root_idx@);
                    }
                }
            },
        }
    }

    /// One rotation that lifts `node_idx` above its parent. Which way it
    /// turns follows from the side on which `node_idx` hangs. Without a
    /// parent nothing changes. The in-order of every tree stays as it is.
    pub fn rotate_up(&mut self, node_idx: NodeIdx)
        requires
            old(self).has(node_idx),
            in_bounds(old(self).links()),
        ensures
            final(self).links() == rotated_up(old(self).links(), node_idx@),
            final(self).values() == old(self).values(),
            final(self).shape@ == old(self).shape@.rotated_up(old(self).links(), node_idx@),
            final(self).shape@.order == old(self).shape@.order,
            final(self).shape@.head == old(self).shape@.head,
            final(self).shape@.pos == old(self).shape@.pos,
            in_bounds(final(self).links()),
            old(self).wf() ==> final(self).wf(),
    {
        assert(bounded(self.links()[node_idx@], self.links().len()));
        let b_left = self.is_left_child(node_idx);
        let parent = self.get_parent(node_idx);

        match parent {
            None => {},
            Some(parent_idx) => {
                if b_left {
                    self.rotate_right(parent_idx);
                } else {
                    self.rotate_left(parent_idx);
                }
            },
        }
    }

    /// One rotation that lifts a child of `node_idx` above it: the left
    /// child if there is one, else the right child if there is one. The
    /// in-order of every tree stays as it is.
    pub fn rotate_down(&mut self, node_idx: NodeIdx)
        requires
            old(self).has(node_idx),
            in_bounds(old(self).links()),
        ensures
            final(self).links() == rotated_down(old(self).links(), node_idx@),
            final(self).values() == old(self).values(),
            final(self).shape@ == old(self).shape@.rotated_down(old(self).links(), node_idx@),
            final(self).shape@.order == old(self).shape@.order,
            final(self).shape@.head == old(self).shape@.head,
            final(self).shape@.pos == old(self).shape@.pos,
            in_bounds(final(self).links()),
            old(self).wf() ==> final(self).wf(),
    {
        if self.get_node(node_idx).left.is_some() {
            self.rotate_right(node_idx);
        } else if self.get_node(node_idx).right.is_some() {
            self.rotate_left(node_idx);
        }
    }

    /// Rotates `node_idx` up to the root of its tree: by one rotation below
    /// the root (zig), else parent first where node and parent hang on the
    /// same side (zig-zig), else the node twice (zig-zag). The in-order of
    /// the tree stays as it is, the path-parent of the old root passes to
    /// `node_idx`, and no other tree is touched.
    pub fn splay(&mut self, node_idx: NodeIdx)
        requires
            old(self).wf(),
            old(self).has(node_idx),
        ensures
            (final(self).links(), final(self).shape@) == splayed(
                old(self).links(),
                old(self).shape@,
                node_idx@,
            ),
            final(self).wf(),
            final(self).values() == old(self).values(),
            rearranged(
                old(self).links(),
                old(self).shape@,
                final(self).links(),
                final(self).shape@,
                node_idx@,
            ),
            final(self).links()[node_idx@].parent is None,
            final(self).shape@.apex_of(node_idx@) == node_idx@,
            in_bounds(final(self).links()),
    {
        let ghost x = node_idx@;
        loop
            invariant
                self.wf(),
                self.has(node_idx),
                x == node_idx@,
                splayed(self.links(), self.shape@, x) == splayed(
                    old(self).links(),
                    old(self).shape@,
                    x,
                ),
                self.values() == old(self).values(),
                rearranged(old(self).links(), old(self).shape@, self.links(), self.shape@, x),
            decreases self.shape@.room_above(x),
        {
            let ghost s0 = self.links();
            let ghost sh0 = self.shape@;
            proof {
                lemma_well_formed_in_bounds(s0, sh0);
                assert(bounded(s0[x], s0.len()));
                assert(node_ok(s0, sh0, x));
                if s0[x].parent is Some {
                    lemma_splay_step(old(self).links(), old(self).shape@, s0, sh0, x);
                }
            }
            let splay_type = match self.get_parent(node_idx) {
                None => SplayType::NoSplay,
                Some(parent_idx) => {
                    assert(bounded(s0[parent_idx@], s0.len()));
                    match self.get_parent(parent_idx) {
                        None => SplayType::Zig,
                        Some(_) => if self.is_left_child(node_idx) == self.is_left_child(
                            parent_idx,
                        ) {
                            SplayType::ZigZig
                        } else {
                            SplayType::ZigZag
                        },
                    }
                },
            };

            match splay_type {
                SplayType::NoSplay => {
                    return ;
                },
                SplayType::Zig => {
                    self.rotate_up(node_idx);
                },
                SplayType::ZigZag => {
                    self.rotate_up(node_idx);
                    self.rotate_up(node_idx);
                },
                SplayType::ZigZig => {
                    self.rotate_up(self.get_parent(node_idx).unwrap());
                    self.rotate_up(node_idx);
                },
            }
            assert(self.links() == splay_step(s0, x));
            assert(self.shape@ == sh0.splay_step(s0, x));
        }
    }

    /// Follows the links in one direction from `node_idx` until there is none.
    pub fn get_while_some(&self, node_idx: NodeIdx, dir: Walk) -> (r: NodeIdx)
        requires
            self.wf(),
            self.has(node_idx),
        ensures
            self.has(r),
            r@ == walk_end(self.shape@, dir, node_idx@),
            next(self.links(), dir, r@) is None,
            self.shape@.head[r@] == self.shape@.head[node_idx@],
    {
        let mut current_node_idx = node_idx;
        loop
            invariant
                self.wf(),
                self.has(node_idx),
                self.has(current_node_idx),
                self.shape@.head[current_node_idx@] == self.shape@.head[node_idx@],
                dir == Walk::Left ==> self.shape@.lo[current_node_idx@] == self.shape@.lo[node_idx@],
                dir == Walk::Right ==> self.shape@.hi[current_node_idx@]
                    == self.shape@.hi[node_idx@],
            decreases
                    if dir == Walk::Parent {
                        self.shape@.room_above(current_node_idx@)
                    } else {
                        self.shape@.hi[current_node_idx@] - self.shape@.lo[current_node_idx@]
                    },
        {
            proof {
                assert(node_ok(self.links(), self.shape@, current_node_idx@));
            }
            let step = match dir {
                Walk::Parent => self.get_parent(current_node_idx),
                Walk::Left => self.get_left(current_node_idx),
                Walk::Right => self.get_right(current_node_idx),
            };
            match step {
                None => {
                    return current_node_idx;
                },
                Some(next_node_idx) => {
                    proof {
                        assert(node_ok(self.links(), self.shape@, next_node_idx@));
                    }
                    current_node_idx = next_node_idx;
                },
            }
        }
    }

    /// The root of the tree that holds `node_idx`.
    pub fn get_root(&self, node_idx: NodeIdx) -> (r: NodeIdx)
        requires
            self.wf(),
            self.has(node_idx),
        ensures
            self.has(r),
            r@ == self.shape@.apex_of(node_idx@),
            self.links()[r@].parent is None,
    {
        self.get_while_some(node_idx, Walk::Parent)
    }

    /// The first node, in order, of the subtree below `node_idx`.
    pub fn get_leftmost(&self, node_idx: NodeIdx) -> (r: NodeIdx)
        requires
            self.wf(),
            self.has(node_idx),
        ensures
            self.has(r),
            r@ == self.shape@.order_of(node_idx@)[self.shape@.lo[node_idx@]],
            self.links()[r@].left is None,
            self.links()[node_idx@].parent is None ==> r@ == self.shape@.order_of(node_idx@).first(),
    {
        proof {
            assert(node_ok(self.links(), self.shape@, node_idx@));
        }
        self.get_while_some(node_idx, Walk::Left)
    }

    /// The last node, in order, of the subtree below `node_idx`.
    pub fn get_rightmost(&self, node_idx: NodeIdx) -> (r: NodeIdx)
        requires
            self.wf(),
            self.has(node_idx),
        ensures
            self.has(r),
            r@ == self.shape@.order_of(node_idx@)[self.shape@.hi[node_idx@] - 1],
            self.links()[r@].right is None,
            self.links()[node_idx@].parent is None ==> r@ == self.shape@.order_of(node_idx@).last(),
    {
        proof {
            assert(node_ok(self.links(), self.shape@, node_idx@));
        }
        self.get_while_some(node_idx, Walk::Right)
    }

    /// Switches what hangs to the right of `node_idx`. The right subtree, if
    /// any, is taken off: its root loses its parent and gets `node_idx` as
    /// its path-parent. Then `new_right_idx`, if any, becomes the right
    /// child and loses its path-parent. On a root, with another tree's root as
    /// the new child, the in-order of the tree is parted behind `node_idx` and
    /// the in-order of the new child's tree is put there.
    pub fn split_right_and_attach_new(&mut self, node_idx: NodeIdx, new_right_idx: Option<NodeIdx>)
        requires
            old(self).has(node_idx),
            old(self).has_opt(new_right_idx),
            in_bounds(old(self).links()),
        ensures
            final(self).links() == right_switched(
                old(self).links(),
                node_idx@,
                opt_index(new_right_idx),
            ),
            final(self).values() == old(self).values(),
            final(self).shape@ == old(self).shape@.right_switched(
                old(self).links(),
                node_idx@,
                opt_index(new_right_idx),
            ),
            in_bounds(final(self).links()),
            switches_right(
                old(self).links(),
                old(self).shape@,
                node_idx@,
                opt_index(new_right_idx),
            ) ==> final(self).wf(),
    {
        let ghost s0 = self.links();
        let ghost sh0 = self.shape@;
        let ghost w = node_idx@;
        assert(bounded(s0[w], s0.len()));
        if let Some(right_idx) = self.get_right(node_idx) {
            let right_node = self.get_node_mut(right_idx);
            right_node.path_parent = Some(node_idx);
            right_node.parent = None;
        }
        self.get_node_mut(node_idx).right = new_right_idx;
        if let Some(new_right_index) = new_right_idx {
            let new_right = self.get_node_mut(new_right_index);
            new_right.parent = Some(node_idx);
            new_right.path_parent = None;
        }
        proof {
            let s1 = detached_right(s0, w);
            let sh1 = sh0.detached_right(s0, w);
            let nr = opt_index(new_right_idx);
            self.shape@ = sh0.right_switched(s0, w, nr);
            assert(self.links() =~= right_switched(s0, w, nr));
            assert(self.values() =~= old(self).values());
            assert forall|i: int| 0 <= i < self.links().len() implies bounded(
                #[trigger] self.links()[i],
                self.links().len(),
            ) by {
                assert(bounded(s0[i], s0.len()));
            }
            if switches_right(s0, sh0, w, nr) {
                lemma_detach_right(s0, sh0, w);
                assert(node_ok(s0, sh0, w));
                if new_right_idx is Some {
                    let v = new_right_idx->0@;
                    assert(node_ok(s0, sh0, v));
                    if s0[w].right is Some {
                        assert(node_ok(s0, sh0, s0[w].right->0));
                    }
                    lemma_attach_right(s1, sh1, w, v);
                }
            }
        }
    }

    /// Takes the left subtree, if any, off `node_idx`: its root loses its
    /// parent. On a root the in-order of the tree is parted before `node_idx`.
    pub fn split_left(&mut self, node_idx: NodeIdx)
        requires
            old(self).has(node_idx),
            in_bounds(old(self).links()),
        ensures
            final(self).links() == detached_left(old(self).links(), node_idx@),
            final(self).values() == old(self).values(),
            final(self).shape@ == old(self).shape@.detached_left(old(self).links(), node_idx@),
            in_bounds(final(self).links()),
            old(self).wf() && old(self).links()[node_idx@].parent is None ==> final(self).wf(),
    {
        let ghost s0 = self.links();
        let ghost sh0 = self.shape@;
        assert(bounded(s0[node_idx@], s0.len()));
        if let Some(left_idx) = self.get_left(node_idx) {
            self.get_node_mut(left_idx).parent = None;
            self.get_node_mut(node_idx).left = None;
        }
        proof {
            self.shape@ = sh0.detached_left(s0, node_idx@);
            assert(self.links() =~= detached_left(s0, node_idx@));
            assert(self.values() =~= old(self).values());
            assert forall|i: int| 0 <= i < self.links().len() implies bounded(
                #[trigger] self.links()[i],
                self.links().len(),
            ) by {
                assert(bounded(s0[i], s0.len()));
            }
            if old(self).wf() && s0[node_idx@].parent is None {
                lemma_detach_left(s0, sh0, node_idx@);
            }
        }
    }

    /// Hangs `left_idx` to the left of `node_idx`, which has no left child.
    /// With two roots of different trees, and no path-parent on `left_idx`,
    /// the in-order of the tree of `node_idx` is put behind that of `left_idx`.
    pub fn join_left(&mut self, node_idx: NodeIdx, left_idx: NodeIdx)
        requires
            old(self).has(node_idx),
            old(self).has(left_idx),
            old(self).links()[node_idx@].left is None,
        ensures
            final(self).links() == with_left(old(self).links(), node_idx@, Some(left_idx@)),
            final(self).values() == old(self).values(),
            final(self).shape@ == old(self).shape@.attached_left(node_idx@, left_idx@),
            in_bounds(old(self).links()) ==> in_bounds(final(self).links()),
            hangs_left(old(self).links(), old(self).shape@, node_idx@, Some(left_idx@))
                ==> final(self).wf(),
    {
        let ghost s0 = self.links();
        let ghost sh0 = self.shape@;
        runtime_assert(self.get_left(node_idx).is_none());
        self.get_node_mut(node_idx).left = Some(left_idx);
        self.get_node_mut(left_idx).parent = Some(node_idx);
        proof {
            self.shape@ = sh0.attached_left(node_idx@, left_idx@);
            assert(self.links() =~= with_left(s0, node_idx@, Some(left_idx@)));
            assert(self.values() =~= old(self).values());
            if in_bounds(s0) {
                lemma_with_child_in_bounds(s0, node_idx@, Some(left_idx@));
            }
            if hangs_left(s0, sh0, node_idx@, Some(left_idx@)) {
                lemma_attach_left(s0, sh0, node_idx@, left_idx@);
            }
        }
    }
}

} // verus!
