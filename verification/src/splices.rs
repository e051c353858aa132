//! Taking a subtree off a node and hanging a tree below a node, as
//! functions on links and shapes: the in-order of a tree is parted, or one
//! in-order goes into another.

use crate::shape::{lemma_beside_apex, node_ok, slot_ok, well_formed, with_left, Links, Shape};
use vstd::prelude::*;

verus! {

/// The links after the right subtree of `w`, if any, is taken off: its root
/// loses its parent and gets `w` as its path-parent.
pub open spec fn detached_right(s: Seq<Links>, w: int) -> Seq<Links> {
    match s[w].right {
        None => s,
        Some(r) => {
            let s1 = s.update(r, Links { path_parent: Some(w), parent: None, ..s[r] });
            s1.update(w, Links { right: None, ..s1[w] })
        },
    }
}

/// The links after `nr`, if any, becomes the right child of `w`: it gets `w`
/// as its parent and loses its path-parent.
pub open spec fn attached_right(s: Seq<Links>, w: int, nr: Option<int>) -> Seq<Links> {
    match nr {
        None => s,
        Some(v) => {
            let s1 = s.update(w, Links { right: Some(v), ..s[w] });
            s1.update(v, Links { parent: Some(w), path_parent: None, ..s1[v] })
        },
    }
}

/// The links after the right subtree of `w` is taken off and `nr` is put in its place.
pub open spec fn right_switched(s: Seq<Links>, w: int, nr: Option<int>) -> Seq<Links> {
    attached_right(detached_right(s, w), w, nr)
}

/// The links after the left subtree of `v`, if any, is taken off: its root loses its parent.
pub open spec fn detached_left(s: Seq<Links>, v: int) -> Seq<Links> {
    match s[v].left {
        None => s,
        Some(l) => {
            let s1 = s.update(l, Links { parent: None, ..s[l] });
            s1.update(v, Links { left: None, ..s1[v] })
        },
    }
}

impl Shape {
    /// The shape after the tree with head `h` is parted before place `k`.
    /// The places before `k` stay a tree with head `h` and root `low_apex`;
    /// the places from `k` on become a tree of their own with root
    /// `high_apex`. The range of a node that reached across is cut to its part.
    pub open spec fn split(self, h: int, k: int, low_apex: int, high_apex: int) -> Shape {
        let n = self.head.len();
        let whole = self.order[h];
        let new_head = whole[k];
        Shape {
            head: Seq::new(
                n,
                |u: int|
                    if self.head[u] == h && self.pos[u] >= k {
                        new_head
                    } else {
                        self.head[u]
                    },
            ),
            pos: Seq::new(
                n,
                |u: int|
                    if self.head[u] == h && self.pos[u] >= k {
                        self.pos[u] - k
                    } else {
                        self.pos[u]
                    },
            ),
            lo: Seq::new(
                n,
                |u: int|
                    if self.head[u] == h && self.pos[u] >= k {
                        if self.lo[u] >= k {
                            self.lo[u] - k
                        } else {
                            0
                        }
                    } else {
                        self.lo[u]
                    },
            ),
            hi: Seq::new(
                n,
                |u: int|
                    if self.head[u] == h && self.pos[u] >= k {
                        self.hi[u] - k
                    } else if self.head[u] == h && self.hi[u] > k {
                        k
                    } else {
                        self.hi[u]
                    },
            ),
            order: self.order.update(h, whole.subrange(0, k)).update(
                new_head,
                whole.subrange(k, whole.len() as int),
            ),
            apex: self.apex.update(h, low_apex).update(new_head, high_apex),
        }
    }

    /// The shape after the tree with head `h2` is put into the tree with
    /// head `h1`, before place `q`. The places from `q` on move up to make
    /// room, and so does every end of a range from `from` on: with `from`
    /// equal to `q` the range that ended at `q` grows over the new places,
    /// with `q + 1` the range that began at `q` does. The new places come
    /// first where `q` is 0, and then the tree goes by the head `h2`.
    pub open spec fn spliced(self, h1: int, q: int, h2: int, from: int) -> Shape {
        let n = self.head.len();
        let m = self.order[h2].len() as int;
        let whole = self.order[h1];
        let new_head = if q == 0 {
            h2
        } else {
            h1
        };
        Shape {
            head: Seq::new(
                n,
                |u: int|
                    if self.head[u] == h1 || self.head[u] == h2 {
                        new_head
                    } else {
                        self.head[u]
                    },
            ),
            pos: Seq::new(
                n,
                |u: int|
                    if self.head[u] == h2 {
                        self.pos[u] + q
                    } else if self.head[u] == h1 && self.pos[u] >= q {
                        self.pos[u] + m
                    } else {
                        self.pos[u]
                    },
            ),
            lo: Seq::new(
                n,
                |u: int|
                    if self.head[u] == h2 {
                        self.lo[u] + q
                    } else if self.head[u] == h1 && self.lo[u] >= from {
                        self.lo[u] + m
                    } else {
                        self.lo[u]
                    },
            ),
            hi: Seq::new(
                n,
                |u: int|
                    if self.head[u] == h2 {
                        self.hi[u] + q
                    } else if self.head[u] == h1 && self.hi[u] >= from {
                        self.hi[u] + m
                    } else {
                        self.hi[u]
                    },
            ),
            order: self.order.update(
                new_head,
                whole.subrange(0, q) + self.order[h2] + whole.subrange(q, whole.len() as int),
            ),
            apex: self.apex.update(new_head, self.apex[h1]),
        }
    }

    /// The shape after the right subtree of the root `w`, if any, is taken off.
    pub open spec fn detached_right(self, s: Seq<Links>, w: int) -> Shape {
        match s[w].right {
            None => self,
            Some(r) => self.split(self.head[w], self.pos[w] + 1, w, r),
        }
    }

    /// The shape after the tree with root `nr`, if any, is hung to the
    /// right of `w`: its in-order goes in right behind `w`.
    pub open spec fn attached_right(self, w: int, nr: Option<int>) -> Shape {
        match nr {
            None => self,
            Some(v) => self.spliced(self.head[w], self.pos[w] + 1, self.head[v], self.pos[w] + 1),
        }
    }

    /// The shape after the right subtree of the root `w` is taken off and
    /// the tree with root `nr` is put in its place.
    pub open spec fn right_switched(self, s: Seq<Links>, w: int, nr: Option<int>) -> Shape {
        self.detached_right(s, w).attached_right(w, nr)
    }

    /// The shape after the left subtree of the root `v`, if any, is taken off.
    pub open spec fn detached_left(self, s: Seq<Links>, v: int) -> Shape {
        match s[v].left {
            None => self,
            Some(l) => self.split(self.head[v], self.pos[v], l, v),
        }
    }

    /// The shape after the tree with root `q` is hung to the left of `c`:
    /// its in-order goes in right before `c`.
    pub open spec fn attached_left(self, c: int, q: int) -> Shape {
        self.spliced(self.head[c], self.pos[c], self.head[q], self.pos[c] + 1)
    }
}

/// Taking the right subtree off a root keeps a forest well-formed.
pub proof fn lemma_detach_right(s: Seq<Links>, shape: Shape, w: int)
    requires
        well_formed(s, shape),
        0 <= w < s.len(),
        s[w].parent is None,
    ensures
        well_formed(detached_right(s, w), shape.detached_right(s, w)),
{
    if s[w].right is Some {
        let r = s[w].right->0;
        let h = shape.head[w];
        let k = shape.pos[w] + 1;
        let t = detached_right(s, w);
        let after = shape.detached_right(s, w);
        assert(node_ok(s, shape, w));
        assert(node_ok(s, shape, r));
        assert(slot_ok(s, shape, h, k));
        let nh = shape.order[h][k];
        assert(node_ok(s, shape, nh));
        assert forall|i: int| 0 <= i < t.len() implies #[trigger] node_ok(t, after, i) by {
            assert(node_ok(s, shape, i));
            assert(node_ok(s, shape, shape.apex_of(i)));
            lemma_beside_apex(s, shape, i);
            if s[i].left is Some {
                assert(node_ok(s, shape, s[i].left->0));
                lemma_beside_apex(s, shape, s[i].left->0);
            }
            if s[i].right is Some {
                assert(node_ok(s, shape, s[i].right->0));
                lemma_beside_apex(s, shape, s[i].right->0);
            }
            if s[i].parent is Some {
                assert(node_ok(s, shape, s[i].parent->0));
                lemma_beside_apex(s, shape, s[i].parent->0);
            }
        }
        assert forall|h2: int, k2: int|
            0 <= h2 < t.len() && after.head[h2] == h2 && 0 <= k2
                < after.order[h2].len() implies #[trigger] slot_ok(t, after, h2, k2) by {
            assert(node_ok(s, shape, h2));
            if h2 == nh {
                assert(slot_ok(s, shape, h, k2 + k));
            } else {
                assert(slot_ok(s, shape, h2, k2));
            }
        }
    }
}

/// Taking the left subtree off a root keeps a forest well-formed.
pub proof fn lemma_detach_left(s: Seq<Links>, shape: Shape, v: int)
    requires
        well_formed(s, shape),
        0 <= v < s.len(),
        s[v].parent is None,
    ensures
        well_formed(detached_left(s, v), shape.detached_left(s, v)),
{
    if s[v].left is Some {
        let l = s[v].left->0;
        let h = shape.head[v];
        let k = shape.pos[v];
        let t = detached_left(s, v);
        let after = shape.detached_left(s, v);
        assert(node_ok(s, shape, v));
        assert(node_ok(s, shape, l));
        assert(slot_ok(s, shape, h, k));
        assert(node_ok(s, shape, h));
        assert forall|i: int| 0 <= i < t.len() implies #[trigger] node_ok(t, after, i) by {
            assert(node_ok(s, shape, i));
            assert(node_ok(s, shape, shape.apex_of(i)));
            lemma_beside_apex(s, shape, i);
            if s[i].left is Some {
                assert(node_ok(s, shape, s[i].left->0));
                lemma_beside_apex(s, shape, s[i].left->0);
            }
            if s[i].right is Some {
                assert(node_ok(s, shape, s[i].right->0));
                lemma_beside_apex(s, shape, s[i].right->0);
            }
            if s[i].parent is Some {
                assert(node_ok(s, shape, s[i].parent->0));
                lemma_beside_apex(s, shape, s[i].parent->0);
            }
        }
        assert forall|h2: int, k2: int|
            0 <= h2 < t.len() && after.head[h2] == h2 && 0 <= k2
                < after.order[h2].len() implies #[trigger] slot_ok(t, after, h2, k2) by {
            assert(node_ok(s, shape, h2));
            if h2 == v {
                assert(slot_ok(s, shape, h, k2 + k));
            } else {
                assert(slot_ok(s, shape, h2, k2));
            }
        }
    }
}

/// A tree can be hung below `a`: `v` is the root of another tree.
pub open spec fn hangs_below(s: Seq<Links>, shape: Shape, a: int, v: int) -> bool {
    &&& well_formed(s, shape)
    &&& 0 <= a < s.len()
    &&& 0 <= v < s.len()
    &&& s[v].parent is None
    &&& shape.head[v] != shape.head[a]
}

/// What hangs to the right of `w` can be switched for `nr`: `w` is a root,
/// and `nr`, if any, is the root of another tree.
pub open spec fn switches_right(s: Seq<Links>, shape: Shape, w: int, nr: Option<int>) -> bool {
    &&& well_formed(s, shape)
    &&& 0 <= w < s.len()
    &&& s[w].parent is None
    &&& nr matches Some(v) ==> 0 <= v < s.len() && s[v].parent is None && shape.head[v]
        != shape.head[w]
}

/// Setting the right slot of `a` to `b` hangs a tree there: the slot is
/// empty, and `b` is the root of another tree and has no path-parent.
pub open spec fn hangs_right(s: Seq<Links>, shape: Shape, a: int, b: Option<int>) -> bool {
    b matches Some(v) && hangs_below(s, shape, a, v) && s[a].right is None
        && s[v].path_parent is None
}

/// Setting the left slot of `a` to `b` hangs a tree there: the slot is
/// empty, and `b` is the root of another tree and has no path-parent.
pub open spec fn hangs_left(s: Seq<Links>, shape: Shape, a: int, b: Option<int>) -> bool {
    b matches Some(v) && hangs_below(s, shape, a, v) && s[a].left is None
        && s[v].path_parent is None
}

impl Shape {
    /// The shape after the right slot of `a` is set to `b`: where that hangs
    /// a tree, its in-order goes in behind `a`; any other rewiring leaves
    /// the shape as it was, and the forest may then not agree with it.
    pub open spec fn with_right(self, s: Seq<Links>, a: int, b: Option<int>) -> Shape {
        if hangs_right(s, self, a, b) {
            self.attached_right(a, b)
        } else {
            self
        }
    }

    /// The shape after the left slot of `a` is set to `b`: where that hangs
    /// a tree, its in-order goes in before `a`; any other rewiring leaves
    /// the shape as it was, and the forest may then not agree with it.
    pub open spec fn with_left(self, s: Seq<Links>, a: int, b: Option<int>) -> Shape {
        if hangs_left(s, self, a, b) {
            self.attached_left(a, b->0)
        } else {
            self
        }
    }
}

/// Hanging a tree to the right of a node that has no right child keeps a forest well-formed.
pub proof fn lemma_attach_right(s: Seq<Links>, shape: Shape, w: int, v: int)
    requires
        hangs_below(s, shape, w, v),
        s[w].right is None,
    ensures
        well_formed(attached_right(s, w, Some(v)), shape.attached_right(w, Some(v))),
{
    let h1 = shape.head[w];
    let h2 = shape.head[v];
    let q = shape.pos[w] + 1;
    let m = shape.order[h2].len() as int;
    let t = attached_right(s, w, Some(v));
    let after = shape.attached_right(w, Some(v));
    assert(node_ok(s, shape, w));
    assert(node_ok(s, shape, v));
    assert(node_ok(s, shape, h1));
    assert forall|i: int| 0 <= i < t.len() implies #[trigger] node_ok(t, after, i) by {
        assert(node_ok(s, shape, i));
        assert(node_ok(s, shape, shape.apex_of(i)));
        if s[i].left is Some {
            assert(node_ok(s, shape, s[i].left->0));
        }
        if s[i].right is Some {
            assert(node_ok(s, shape, s[i].right->0));
        }
        if s[i].parent is Some {
            assert(node_ok(s, shape, s[i].parent->0));
        }
    }
    assert forall|h: int, k: int|
        0 <= h < t.len() && after.head[h] == h && 0 <= k < after.order[h].len()
        implies #[trigger] slot_ok(t, after, h, k) by {
        assert(node_ok(s, shape, h));
        if h == h1 {
            if k < q {
                assert(slot_ok(s, shape, h1, k));
            } else if k < q + m {
                assert(slot_ok(s, shape, h2, k - q));
            } else {
                assert(slot_ok(s, shape, h1, k - m));
            }
        } else {
            assert(slot_ok(s, shape, h, k));
        }
    }
}

/// Hanging a tree without a path-parent to the left of a node that has no
/// left child keeps a forest well-formed.
pub proof fn lemma_attach_left(s: Seq<Links>, shape: Shape, c: int, q: int)
    requires
        hangs_below(s, shape, c, q),
        s[c].left is None,
        s[q].path_parent is None,
    ensures
        well_formed(with_left(s, c, Some(q)), shape.attached_left(c, q)),
{
    let h1 = shape.head[c];
    let h2 = shape.head[q];
    let at = shape.pos[c];
    let m = shape.order[h2].len() as int;
    let t = with_left(s, c, Some(q));
    let after = shape.attached_left(c, q);
    let new_head = if at == 0 {
        h2
    } else {
        h1
    };
    assert(node_ok(s, shape, c));
    assert(node_ok(s, shape, q));
    assert(node_ok(s, shape, h1));
    assert(node_ok(s, shape, h2));
    assert forall|i: int| 0 <= i < t.len() implies #[trigger] node_ok(t, after, i) by {
        assert(node_ok(s, shape, i));
        assert(node_ok(s, shape, shape.apex_of(i)));
        if s[i].left is Some {
            assert(node_ok(s, shape, s[i].left->0));
        }
        if s[i].right is Some {
            assert(node_ok(s, shape, s[i].right->0));
        }
        if s[i].parent is Some {
            assert(node_ok(s, shape, s[i].parent->0));
        }
    }
    assert forall|h: int, k: int|
        0 <= h < t.len() && after.head[h] == h && 0 <= k < after.order[h].len()
        implies #[trigger] slot_ok(t, after, h, k) by {
        assert(node_ok(s, shape, h));
        if h == new_head {
            if k < at {
                assert(slot_ok(s, shape, h1, k));
            } else if k < at + m {
                assert(slot_ok(s, shape, h2, k - at));
            } else {
                assert(slot_ok(s, shape, h1, k - m));
            }
        } else {
            assert(slot_ok(s, shape, h, k));
        }
    }
}

} // verus!
