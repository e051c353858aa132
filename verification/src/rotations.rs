//! Rotations and splaying, as functions on links and shapes, with the proof
//! that they keep a forest well-formed and every in-order as it is.

use crate::shape::{
    bounded,
    in_bounds,
    lemma_with_child_in_bounds,
    node_ok,
    slot_ok,
    well_formed,
    with_left,
    with_right,
    Links,
    Shape,
};
use vstd::prelude::*;

verus! {

/// `i` is the left child of the node it names as its parent.
pub open spec fn is_left(s: Seq<Links>, i: int) -> bool {
    s[i].parent matches Some(p) && s[p].left == Some(i)
}

/// The links after `new_root` is put in the place of `old_root`: below the
/// parent of `old_root`, on the side of `old_root`, or, where `old_root` is a
/// root, as a root that takes over its path-parent.
pub open spec fn reparented(s: Seq<Links>, old_root: int, new_root: int) -> Seq<Links> {
    match s[old_root].parent {
        None => {
            let s1 = s.update(
                new_root,
                Links { parent: None, path_parent: s[old_root].path_parent, ..s[new_root] },
            );
            s1.update(old_root, Links { path_parent: None, ..s1[old_root] })
        },
        Some(g) => if is_left(s, old_root) {
            with_left(s, g, Some(new_root))
        } else {
            with_right(s, g, Some(new_root))
        },
    }
}

/// The links after the left child of `p`, if any, is rotated above `p`.
pub open spec fn rotated_right(s: Seq<Links>, p: int) -> Seq<Links> {
    match s[p].left {
        None => s,
        Some(x) => with_right(reparented(with_left(s, p, s[x].right), p, x), x, Some(p)),
    }
}

/// The links after the right child of `p`, if any, is rotated above `p`.
pub open spec fn rotated_left(s: Seq<Links>, p: int) -> Seq<Links> {
    match s[p].right {
        None => s,
        Some(x) => with_left(reparented(with_right(s, p, s[x].left), p, x), x, Some(p)),
    }
}

/// The links after `x` is rotated above its parent, if it has one.
pub open spec fn rotated_up(s: Seq<Links>, x: int) -> Seq<Links> {
    match s[x].parent {
        None => s,
        Some(p) => if is_left(s, x) {
            rotated_right(s, p)
        } else {
            rotated_left(s, p)
        },
    }
}

impl Shape {
    /// The shape after the child `x` of `p` is rotated above `p`: `x` takes
    /// over the range of `p`, and `p` keeps the part on its own side of `x`.
    /// The in-order of the tree stays as it is.
    pub open spec fn lifted(self, x: int, p: int, p_was_root: bool) -> Shape {
        let x_left_of_p = self.pos[x] < self.pos[p];
        Shape {
            lo: self.lo.update(x, self.lo[p]).update(
                p,
                if x_left_of_p {
                    self.pos[x] + 1
                } else {
                    self.lo[p]
                },
            ),
            hi: self.hi.update(x, self.hi[p]).update(
                p,
                if x_left_of_p {
                    self.hi[p]
                } else {
                    self.pos[x]
                },
            ),
            apex: if p_was_root {
                self.apex.update(self.head[x], x)
            } else {
                self.apex
            },
            ..self
        }
    }

    /// The shape after the left child of `p`, if any, is rotated above `p`.
    pub open spec fn rotated_right(self, s: Seq<Links>, p: int) -> Shape {
        match s[p].left {
            None => self,
            Some(x) => self.lifted(x, p, s[p].parent is None),
        }
    }

    /// The shape after the right child of `p`, if any, is rotated above `p`.
    pub open spec fn rotated_left(self, s: Seq<Links>, p: int) -> Shape {
        match s[p].right {
            None => self,
            Some(x) => self.lifted(x, p, s[p].parent is None),
        }
    }

    /// The shape after `x` is rotated above its parent, if it has one.
    pub open spec fn rotated_up(self, s: Seq<Links>, x: int) -> Shape {
        match s[x].parent {
            None => self,
            Some(p) => if is_left(s, x) {
                self.rotated_right(s, p)
            } else {
                self.rotated_left(s, p)
            },
        }
    }
}

/// Putting one node in the place of another keeps all links in bounds.
pub proof fn lemma_reparented_in_bounds(s: Seq<Links>, old_root: int, new_root: int)
    requires
        in_bounds(s),
        0 <= old_root < s.len(),
        0 <= new_root < s.len(),
    ensures
        in_bounds(reparented(s, old_root, new_root)),
{
    let t = reparented(s, old_root, new_root);
    assert(bounded(s[old_root], s.len()));
    match s[old_root].parent {
        None => {
            assert forall|i: int| 0 <= i < t.len() implies bounded(#[trigger] t[i], t.len()) by {
                assert(bounded(s[i], s.len()));
            }
        },
        Some(g) => {
            lemma_with_child_in_bounds(s, g, Some(new_root));
        },
    }
}

/// What a right rotation at `p` does to each node of a well-formed forest.
pub proof fn lemma_rotated_right_links(s: Seq<Links>, shape: Shape, p: int)
    requires
        well_formed(s, shape),
        0 <= p < s.len(),
        s[p].left is Some,
    ensures
        ({
            let t = rotated_right(s, p);
            let x = s[p].left->0;
            &&& t.len() == s.len()
            &&& x != p
            &&& t[x] == Links {
                parent: s[p].parent,
                path_parent: s[p].path_parent,
                right: Some(p),
                ..s[x]
            }
            &&& t[p] == Links { parent: Some(x), path_parent: None, left: s[x].right, ..s[p] }
            &&& s[x].right matches Some(b) ==> b != x && b != p && t[b] == Links {
                parent: Some(p),
                ..s[b]
            }
            &&& s[p].parent matches Some(g) ==> g != x && g != p && s[x].right != Some(g) && t[g]
                == if s[g].left == Some(p) {
                Links { left: Some(x), ..s[g] }
            } else {
                Links { right: Some(x), ..s[g] }
            }
            &&& forall|i: int|
                0 <= i < s.len() && i != x && i != p && s[x].right != Some(i) && s[p].parent != Some(
                    i,
                ) ==> #[trigger] t[i] == s[i]
        }),
{
    let x = s[p].left->0;
    assert(node_ok(s, shape, p));
    assert(node_ok(s, shape, x));
    if s[x].right is Some {
        assert(node_ok(s, shape, s[x].right->0));
    }
    if s[p].parent is Some {
        assert(node_ok(s, shape, s[p].parent->0));
    }
}

/// A right rotation keeps a forest well-formed and the in-order of every tree.
pub proof fn lemma_rotate_right(s: Seq<Links>, shape: Shape, p: int)
    requires
        well_formed(s, shape),
        0 <= p < s.len(),
    ensures
        well_formed(rotated_right(s, p), shape.rotated_right(s, p)),
{
    if s[p].left is Some {
        let x = s[p].left->0;
        let t = rotated_right(s, p);
        let after = shape.rotated_right(s, p);
        lemma_rotated_right_links(s, shape, p);
        assert(node_ok(s, shape, p));
        assert(node_ok(s, shape, x));
        if s[x].right is Some {
            assert(node_ok(s, shape, s[x].right->0));
        }
        if s[p].parent is Some {
            assert(node_ok(s, shape, s[p].parent->0));
        }
        assert forall|i: int| 0 <= i < t.len() implies #[trigger] node_ok(t, after, i) by {
            assert(node_ok(s, shape, i));
            assert(node_ok(s, shape, shape.apex[shape.head[i]]));
            if s[i].left is Some {
                assert(node_ok(s, shape, s[i].left->0));
            }
            if s[i].right is Some {
                assert(node_ok(s, shape, s[i].right->0));
            }
            if s[i].parent is Some {
                assert(node_ok(s, shape, s[i].parent->0));
            }
        }
        assert forall|h: int, k: int|
            0 <= h < t.len() && after.head[h] == h && 0 <= k < after.order[h].len()
            implies #[trigger] slot_ok(t, after, h, k) by {
            assert(slot_ok(s, shape, h, k));
        }
    }
}

/// What a left rotation at `p` does to each node of a well-formed forest.
pub proof fn lemma_rotated_left_links(s: Seq<Links>, shape: Shape, p: int)
    requires
        well_formed(s, shape),
        0 <= p < s.len(),
        s[p].right is Some,
    ensures
        ({
            let t = rotated_left(s, p);
            let x = s[p].right->0;
            &&& t.len() == s.len()
            &&& x != p
            &&& t[x] == Links {
                parent: s[p].parent,
                path_parent: s[p].path_parent,
                left: Some(p),
                ..s[x]
            }
            &&& t[p] == Links { parent: Some(x), path_parent: None, right: s[x].left, ..s[p] }
            &&& s[x].left matches Some(b) ==> b != x && b != p && t[b] == Links {
                parent: Some(p),
                ..s[b]
            }
            &&& s[p].parent matches Some(g) ==> g != x && g != p && s[x].left != Some(g) && t[g]
                == if s[g].left == Some(p) {
                Links { left: Some(x), ..s[g] }
            } else {
                Links { right: Some(x), ..s[g] }
            }
            &&& forall|i: int|
                0 <= i < s.len() && i != x && i != p && s[x].left != Some(i) && s[p].parent != Some(
                    i,
                ) ==> #[trigger] t[i] == s[i]
        }),
{
    let x = s[p].right->0;
    assert(node_ok(s, shape, p));
    assert(node_ok(s, shape, x));
    if s[x].left is Some {
        assert(node_ok(s, shape, s[x].left->0));
    }
    if s[p].parent is Some {
        assert(node_ok(s, shape, s[p].parent->0));
    }
}

/// A left rotation keeps a forest well-formed and the in-order of every tree.
pub proof fn lemma_rotate_left(s: Seq<Links>, shape: Shape, p: int)
    requires
        well_formed(s, shape),
        0 <= p < s.len(),
    ensures
        well_formed(rotated_left(s, p), shape.rotated_left(s, p)),
{
    if s[p].right is Some {
        let x = s[p].right->0;
        let t = rotated_left(s, p);
        let after = shape.rotated_left(s, p);
        lemma_rotated_left_links(s, shape, p);
        assert(node_ok(s, shape, p));
        assert(node_ok(s, shape, x));
        if s[x].left is Some {
            assert(node_ok(s, shape, s[x].left->0));
        }
        if s[p].parent is Some {
            assert(node_ok(s, shape, s[p].parent->0));
        }
        assert forall|i: int| 0 <= i < t.len() implies #[trigger] node_ok(t, after, i) by {
            assert(node_ok(s, shape, i));
            assert(node_ok(s, shape, shape.apex[shape.head[i]]));
            if s[i].left is Some {
                assert(node_ok(s, shape, s[i].left->0));
            }
            if s[i].right is Some {
                assert(node_ok(s, shape, s[i].right->0));
            }
            if s[i].parent is Some {
                assert(node_ok(s, shape, s[i].parent->0));
            }
        }
        assert forall|h: int, k: int|
            0 <= h < t.len() && after.head[h] == h && 0 <= k < after.order[h].len()
            implies #[trigger] slot_ok(t, after, h, k) by {
            assert(slot_ok(s, shape, h, k));
        }
    }
}

/// What lifting `x` above its parent `p` does in a well-formed forest: the
/// forest stays well-formed, no in-order changes, `x` takes the place and the
/// range of `p`, and only `x`, `p`, the inner child of `x` and the parent of
/// `p` are touched, all of them in the tree of `x`.
pub proof fn lemma_rotated_up(s: Seq<Links>, shape: Shape, x: int)
    requires
        well_formed(s, shape),
        0 <= x < s.len(),
        s[x].parent is Some,
    ensures
        ({
            let t = rotated_up(s, x);
            let after = shape.rotated_up(s, x);
            let p = s[x].parent->0;
            let inner = if is_left(s, x) {
                s[x].right
            } else {
                s[x].left
            };
            &&& well_formed(t, after)
            &&& t.len() == s.len()
            &&& after.head == shape.head
            &&& after.pos == shape.pos
            &&& after.order == shape.order
            &&& 0 <= p < s.len() && p != x
            &&& shape.head[p] == shape.head[x]
            &&& t[x].parent == s[p].parent
            &&& t[x].path_parent == s[p].path_parent
            &&& t[p].parent == Some(x)
            &&& after.lo[x] == shape.lo[p]
            &&& after.hi[x] == shape.hi[p]
            &&& shape.lo[p] <= shape.lo[x]
            &&& shape.hi[x] <= shape.hi[p]
            &&& shape.hi[p] - shape.lo[p] > shape.hi[x] - shape.lo[x]
            &&& is_left(s, x) <==> s[p].left == Some(x)
            &&& !is_left(s, x) <==> s[p].right == Some(x)
            &&& after.apex == if s[p].parent is None {
                shape.apex.update(shape.head[x], x)
            } else {
                shape.apex
            }
            &&& t[after.apex_of(x)].path_parent == s[shape.apex_of(x)].path_parent
            &&& forall|i: int|
                0 <= i < s.len() && i != x && i != p ==> #[trigger] after.lo[i] == shape.lo[i]
            &&& forall|i: int|
                0 <= i < s.len() && i != x && i != p ==> #[trigger] after.hi[i] == shape.hi[i]
            &&& forall|i: int|
                0 <= i < s.len() && i != x && i != p && inner != Some(i) && s[p].parent != Some(i)
                    ==> #[trigger] t[i] == s[i]
            &&& forall|i: int|
                0 <= i < s.len() && shape.head[i] != shape.head[x] ==> #[trigger] t[i] == s[i]
        }),
{
    let p = s[x].parent->0;
    let t = rotated_up(s, x);
    assert(node_ok(s, shape, x));
    assert(node_ok(s, shape, p));
    assert(node_ok(s, shape, shape.apex[shape.head[x]]));
    if s[p].parent is Some {
        assert(node_ok(s, shape, s[p].parent->0));
    }
    if is_left(s, x) {
        lemma_rotated_right_links(s, shape, p);
        lemma_rotate_right(s, shape, p);
        if s[x].right is Some {
            assert(node_ok(s, shape, s[x].right->0));
        }
    } else {
        lemma_rotated_left_links(s, shape, p);
        lemma_rotate_left(s, shape, p);
        if s[x].left is Some {
            assert(node_ok(s, shape, s[x].left->0));
        }
    }
}

/// The links after the left child of `i`, or else its right child, is rotated above it.
pub open spec fn rotated_down(s: Seq<Links>, i: int) -> Seq<Links> {
    if s[i].left is Some {
        rotated_right(s, i)
    } else {
        rotated_left(s, i)
    }
}

impl Shape {
    /// The shape after the left child of `i`, or else its right child, is rotated above it.
    pub open spec fn rotated_down(self, s: Seq<Links>, i: int) -> Shape {
        if s[i].left is Some {
            self.rotated_right(s, i)
        } else {
            self.rotated_left(s, i)
        }
    }
}

/// From `(s0, shape0)` to `(s1, shape1)` nothing but the tree of `x` was
/// rearranged: every in-order is as it was, the path-parent of that tree is
/// with its root, and the nodes and roots of the other trees are as they were.
pub open spec fn rearranged(
    s0: Seq<Links>,
    shape0: Shape,
    s1: Seq<Links>,
    shape1: Shape,
    x: int,
) -> bool {
    &&& s1.len() == s0.len()
    &&& shape1.head == shape0.head
    &&& shape1.pos == shape0.pos
    &&& shape1.order == shape0.order
    &&& s1[shape1.apex_of(x)].path_parent == s0[shape0.apex_of(x)].path_parent
    &&& forall|i: int|
        0 <= i < s0.len() && shape0.head[i] != shape0.head[x] ==> #[trigger] s1[i] == s0[i]
    &&& forall|i: int|
        0 <= i < s0.len() && shape0.head[i] != shape0.head[x] ==> #[trigger] shape1.lo[i]
            == shape0.lo[i]
    &&& forall|i: int|
        0 <= i < s0.len() && shape0.head[i] != shape0.head[x] ==> #[trigger] shape1.hi[i]
            == shape0.hi[i]
    &&& forall|h: int|
        0 <= h < s0.len() && h != shape0.head[x] ==> #[trigger] shape1.apex[h] == shape0.apex[h]
}

/// One more rotation inside the tree of `x` still leaves all but that tree as it was.
pub proof fn lemma_rotated_up_rearranges(
    base: Seq<Links>,
    base_shape: Shape,
    s: Seq<Links>,
    shape: Shape,
    x: int,
    y: int,
)
    requires
        well_formed(s, shape),
        rearranged(base, base_shape, s, shape, x),
        0 <= x < s.len(),
        0 <= y < s.len(),
        shape.head[y] == shape.head[x],
        s[y].parent is Some,
    ensures
        rearranged(base, base_shape, rotated_up(s, y), shape.rotated_up(s, y), x),
{
    lemma_rotated_up(s, shape, y);
    let t = rotated_up(s, y);
    let after = shape.rotated_up(s, y);
    assert(node_ok(s, shape, y));
    assert(node_ok(s, shape, s[y].parent->0));
    assert forall|i: int|
        0 <= i < base.len() && base_shape.head[i] != base_shape.head[x] implies #[trigger] t[i]
        == base[i] by {
        assert(s[i] == base[i]);
    }
    assert forall|i: int|
        0 <= i < base.len() && base_shape.head[i] != base_shape.head[x] implies #[trigger] after.lo[i]
        == base_shape.lo[i] by {
        assert(shape.lo[i] == base_shape.lo[i]);
    }
    assert forall|i: int|
        0 <= i < base.len() && base_shape.head[i] != base_shape.head[x] implies #[trigger] after.hi[i]
        == base_shape.hi[i] by {
        assert(shape.hi[i] == base_shape.hi[i]);
    }
    assert forall|h: int|
        0 <= h < base.len() && h != base_shape.head[x] implies #[trigger] after.apex[h]
        == base_shape.apex[h] by {
        assert(shape.apex[h] == base_shape.apex[h]);
    }
}

/// The links after one step of a splay at `x`, which has a parent: one
/// rotation where the parent is the root (zig); the parent first, then `x`,
/// where both hang on the same side (zig-zig); else `x` twice (zig-zag).
pub open spec fn splay_step(s: Seq<Links>, x: int) -> Seq<Links> {
    let p = s[x].parent->0;
    if s[p].parent is None {
        rotated_up(s, x)
    } else if is_left(s, x) == is_left(s, p) {
        rotated_up(rotated_up(s, p), x)
    } else {
        rotated_up(rotated_up(s, x), x)
    }
}

impl Shape {
    /// The shape after one step of a splay at `x`, which has a parent.
    pub open spec fn splay_step(self, s: Seq<Links>, x: int) -> Shape {
        let p = s[x].parent->0;
        if s[p].parent is None {
            self.rotated_up(s, x)
        } else if is_left(s, x) == is_left(s, p) {
            self.rotated_up(s, p).rotated_up(rotated_up(s, p), x)
        } else {
            self.rotated_up(s, x).rotated_up(rotated_up(s, x), x)
        }
    }
}

/// The links and the shape after `x` is splayed to the root of its tree,
/// step by step as long as it has a parent.
pub open spec fn splayed(s: Seq<Links>, shape: Shape, x: int) -> (Seq<Links>, Shape)
    decreases shape.room_above(x),
{
    if s[x].parent is None {
        (s, shape)
    } else {
        let s1 = splay_step(s, x);
        let shape1 = shape.splay_step(s, x);
        if 0 <= shape1.room_above(x) < shape.room_above(x) {
            splayed(s1, shape1, x)
        } else {
            (s1, shape1)
        }
    }
}

/// One step of a splay at `x`, which has a parent, keeps the forest
/// well-formed, leaves all but the tree of `x` as it was, and brings `x`
/// closer to the root; the rest of the splay goes on from there.
pub proof fn lemma_splay_step(
    base: Seq<Links>,
    base_shape: Shape,
    s: Seq<Links>,
    shape: Shape,
    x: int,
)
    requires
        well_formed(s, shape),
        rearranged(base, base_shape, s, shape, x),
        0 <= x < s.len(),
        s[x].parent is Some,
    ensures
        well_formed(splay_step(s, x), shape.splay_step(s, x)),
        rearranged(base, base_shape, splay_step(s, x), shape.splay_step(s, x), x),
        0 <= shape.splay_step(s, x).room_above(x) < shape.room_above(x),
        splayed(s, shape, x) == splayed(splay_step(s, x), shape.splay_step(s, x), x),
{
    let p = s[x].parent->0;
    assert(node_ok(s, shape, x));
    assert(node_ok(s, shape, p));
    lemma_rotated_up(s, shape, x);
    if s[p].parent is None {
        lemma_rotated_up_rearranges(base, base_shape, s, shape, x, x);
    } else if is_left(s, x) == is_left(s, p) {
        // The parent goes up first; `x` hangs on its outer side and stays below it.
        assert(node_ok(s, shape, s[p].parent->0));
        lemma_rotated_up(s, shape, p);
        lemma_rotated_up_rearranges(base, base_shape, s, shape, x, p);
        let s1 = rotated_up(s, p);
        let shape1 = shape.rotated_up(s, p);
        assert(s1[x] == s[x]);
        lemma_rotated_up(s1, shape1, x);
        lemma_rotated_up_rearranges(base, base_shape, s1, shape1, x, x);
    } else {
        lemma_rotated_up_rearranges(base, base_shape, s, shape, x, x);
        let s1 = rotated_up(s, x);
        let shape1 = shape.rotated_up(s, x);
        lemma_rotated_up(s1, shape1, x);
        lemma_rotated_up_rearranges(base, base_shape, s1, shape1, x, x);
    }
    assert(node_ok(splay_step(s, x), shape.splay_step(s, x), x));
}

/// A splay that goes on from `(s, shape)` keeps the forest well-formed, ends
/// with `x` as a root, and leaves all but the tree of `x` as it was.
pub proof fn lemma_splayed_from(
    base: Seq<Links>,
    base_shape: Shape,
    s: Seq<Links>,
    shape: Shape,
    x: int,
)
    requires
        well_formed(s, shape),
        rearranged(base, base_shape, s, shape, x),
        0 <= x < s.len(),
    ensures
        well_formed(splayed(s, shape, x).0, splayed(s, shape, x).1),
        rearranged(base, base_shape, splayed(s, shape, x).0, splayed(s, shape, x).1, x),
        splayed(s, shape, x).0[x].parent is None,
        splayed(s, shape, x).1.apex_of(x) == x,
    decreases shape.room_above(x),
{
    assert(node_ok(s, shape, x));
    if s[x].parent is Some {
        lemma_splay_step(base, base_shape, s, shape, x);
        lemma_splayed_from(base, base_shape, splay_step(s, x), shape.splay_step(s, x), x);
    }
}

/// Splaying keeps a forest well-formed and every in-order as it is, makes
/// `x` the root of its tree with the path-parent of that tree, and touches
/// no other tree.
pub proof fn lemma_splayed(s: Seq<Links>, shape: Shape, x: int)
    requires
        well_formed(s, shape),
        0 <= x < s.len(),
    ensures
        well_formed(splayed(s, shape, x).0, splayed(s, shape, x).1),
        rearranged(s, shape, splayed(s, shape, x).0, splayed(s, shape, x).1, x),
        splayed(s, shape, x).0[x].parent is None,
        splayed(s, shape, x).1.apex_of(x) == x,
{
    lemma_splayed_from(s, shape, s, shape, x);
}

} // verus!
