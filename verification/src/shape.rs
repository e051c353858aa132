//! What a forest of splay trees stands for: the links between the nodes, the
//! in-order of every tree, and the conditions under which the two agree.

use vstd::prelude::*;

verus! {

/// The links of one node, as positions.
pub struct Links {
    pub index: int,
    pub path_parent: Option<int>,
    pub parent: Option<int>,
    pub left: Option<int>,
    pub right: Option<int>,
}

/// The links of a node that stands alone at position `index`.
pub open spec fn isolated(index: int) -> Links {
    Links { index, path_parent: None, parent: None, left: None, right: None }
}

/// What the trees of a forest stand for. Each tree is named by its head, the
/// first node of its in-order.
pub struct Shape {
    /// The head of the tree that holds a node.
    pub head: Seq<int>,
    /// The place of a node in the in-order of its tree.
    pub pos: Seq<int>,
    /// The subtree below a node covers the places from `lo` up to, not including, `hi`.
    pub lo: Seq<int>,
    pub hi: Seq<int>,
    /// For a head, the in-order of its tree.
    pub order: Seq<Seq<int>>,
    /// For a head, the root of its tree.
    pub apex: Seq<int>,
}

impl Shape {
    /// The shape of the forest without nodes.
    pub open spec fn empty() -> Shape {
        Shape {
            head: Seq::empty(),
            pos: Seq::empty(),
            lo: Seq::empty(),
            hi: Seq::empty(),
            order: Seq::empty(),
            apex: Seq::empty(),
        }
    }

    /// The shape with one more tree, which holds the new node `n` alone.
    pub open spec fn grown(self, n: int) -> Shape {
        Shape {
            head: self.head.push(n),
            pos: self.pos.push(0),
            lo: self.lo.push(0),
            hi: self.hi.push(1),
            order: self.order.push(seq![n]),
            apex: self.apex.push(n),
        }
    }

    /// The in-order of the tree that holds `i`.
    pub open spec fn order_of(self, i: int) -> Seq<int> {
        self.order[self.head[i]]
    }

    /// The root of the tree that holds `i`.
    pub open spec fn apex_of(self, i: int) -> int {
        self.apex[self.head[i]]
    }

    /// By how many places the tree of `i` is wider than the subtree below `i`.
    pub open spec fn room_above(self, i: int) -> int {
        self.order_of(i).len() - (self.hi[i] - self.lo[i])
    }
}

/// Node `i` agrees with the shape: it sits at its place in the in-order of
/// its tree, its children cover the places before and after it inside its
/// own range, child and parent links mirror each other, and only a root
/// carries a path-parent.
pub open spec fn node_ok(links: Seq<Links>, shape: Shape, i: int) -> bool {
    let n = links.len();
    let h = shape.head[i];
    let k = shape.pos[i];
    let me = links[i];
    &&& me.index == i
    &&& 0 <= h < n
    &&& shape.head[h] == h
    &&& shape.pos[h] == 0
    &&& 0 <= shape.lo[i] <= k < shape.hi[i] <= shape.order[h].len()
    &&& shape.order[h][k] == i
    &&& 0 <= shape.apex[h] < n
    &&& shape.head[shape.apex[h]] == h
    &&& links[shape.apex[h]].parent is None
    &&& match me.left {
        None => shape.lo[i] == k,
        Some(l) => 0 <= l < n && links[l].parent == Some(i) && shape.head[l] == h && shape.lo[l]
            == shape.lo[i] && shape.hi[l] == k,
    }
    &&& match me.right {
        None => shape.hi[i] == k + 1,
        Some(r) => 0 <= r < n && links[r].parent == Some(i) && shape.head[r] == h && shape.lo[r]
            == k + 1 && shape.hi[r] == shape.hi[i],
    }
    &&& match me.parent {
        None => shape.lo[i] == 0 && shape.hi[i] == shape.order[h].len() && shape.apex[h] == i,
        Some(p) => 0 <= p < n && (links[p].left == Some(i) || links[p].right == Some(i))
            && me.path_parent is None,
    }
    &&& me.path_parent matches Some(w) ==> 0 <= w < n
}

/// Place `k` of the in-order of the tree with head `h` holds a node of that tree.
pub open spec fn slot_ok(links: Seq<Links>, shape: Shape, h: int, k: int) -> bool {
    let u = shape.order[h][k];
    0 <= u < links.len() && shape.head[u] == h && shape.pos[u] == k
}

/// The links form a forest of binary trees, and `shape` gives the in-order of each.
pub open spec fn well_formed(links: Seq<Links>, shape: Shape) -> bool {
    let n = links.len();
    &&& shape.head.len() == n
    &&& shape.pos.len() == n
    &&& shape.lo.len() == n
    &&& shape.hi.len() == n
    &&& shape.order.len() == n
    &&& shape.apex.len() == n
    &&& forall|i: int| 0 <= i < n ==> #[trigger] node_ok(links, shape, i)
    &&& forall|h: int, k: int|
        0 <= h < n && shape.head[h] == h && 0 <= k < shape.order[h].len() ==> #[trigger] slot_ok(
            links,
            shape,
            h,
            k,
        )
}

/// The links after the left slot of `a` is set to `b`, and `b`, if any, is told its parent.
pub open spec fn with_left(s: Seq<Links>, a: int, b: Option<int>) -> Seq<Links> {
    let s1 = s.update(a, Links { left: b, ..s[a] });
    match b {
        None => s1,
        Some(c) => s1.update(c, Links { parent: Some(a), ..s1[c] }),
    }
}

/// The links after the right slot of `a` is set to `b`, and `b`, if any, is told its parent.
pub open spec fn with_right(s: Seq<Links>, a: int, b: Option<int>) -> Seq<Links> {
    let s1 = s.update(a, Links { right: b, ..s[a] });
    match b {
        None => s1,
        Some(c) => s1.update(c, Links { parent: Some(a), ..s1[c] }),
    }
}

/// Every link of every node names a node.
pub open spec fn in_bounds(s: Seq<Links>) -> bool {
    forall|i: int| 0 <= i < s.len() ==> bounded(#[trigger] s[i], s.len())
}

/// Every link of `l` names one of `n` nodes.
pub open spec fn bounded(l: Links, n: nat) -> bool {
    &&& l.parent matches Some(j) ==> 0 <= j < n
    &&& l.left matches Some(j) ==> 0 <= j < n
    &&& l.right matches Some(j) ==> 0 <= j < n
    &&& l.path_parent matches Some(j) ==> 0 <= j < n
}

/// The in-order below `i` as the links give it: what hangs to the left of
/// `i`, then `i`, then what hangs to its right. A child whose range is not
/// narrower than that of `i`, which no well-formed forest has, counts as absent.
pub open spec fn in_order(links: Seq<Links>, shape: Shape, i: int) -> Seq<int>
    decreases shape.hi[i] - shape.lo[i],
{
    let wide = shape.hi[i] - shape.lo[i];
    let before = match links[i].left {
        None => Seq::empty(),
        Some(l) => if 0 <= shape.hi[l] - shape.lo[l] < wide {
            in_order(links, shape, l)
        } else {
            Seq::empty()
        },
    };
    let behind = match links[i].right {
        None => Seq::empty(),
        Some(r) => if 0 <= shape.hi[r] - shape.lo[r] < wide {
            in_order(links, shape, r)
        } else {
            Seq::empty()
        },
    };
    before.push(i) + behind
}

/// In a well-formed forest the shape tells the truth: the in-order below a
/// node, as the links give it, is the stretch of the in-order of its tree
/// that its range names, and below a root it is the whole of it.
pub proof fn lemma_in_order(s: Seq<Links>, shape: Shape, i: int)
    requires
        well_formed(s, shape),
        0 <= i < s.len(),
    ensures
        in_order(s, shape, i) == shape.order_of(i).subrange(shape.lo[i], shape.hi[i]),
        s[i].parent is None ==> in_order(s, shape, i) == shape.order_of(i),
    decreases shape.hi[i] - shape.lo[i],
{
    assert(node_ok(s, shape, i));
    if s[i].left is Some {
        let l = s[i].left->0;
        assert(node_ok(s, shape, l));
        lemma_in_order(s, shape, l);
    }
    if s[i].right is Some {
        let r = s[i].right->0;
        assert(node_ok(s, shape, r));
        lemma_in_order(s, shape, r);
    }
    assert(in_order(s, shape, i) =~= shape.order_of(i).subrange(shape.lo[i], shape.hi[i]));
    if s[i].parent is None {
        assert(shape.order_of(i).subrange(shape.lo[i], shape.hi[i]) =~= shape.order_of(i));
    }
}

/// A new node that stands alone keeps a forest well-formed.
pub proof fn lemma_grown(s: Seq<Links>, shape: Shape)
    requires
        well_formed(s, shape),
    ensures
        well_formed(s.push(isolated(s.len() as int)), shape.grown(s.len() as int)),
{
    let n = s.len() as int;
    let t = s.push(isolated(n));
    let after = shape.grown(n);
    assert forall|i: int| 0 <= i < t.len() implies #[trigger] node_ok(t, after, i) by {
        if i < n {
            assert(node_ok(s, shape, i));
        }
    }
    assert forall|h: int, k: int|
        0 <= h < t.len() && after.head[h] == h && 0 <= k < after.order[h].len()
        implies #[trigger] slot_ok(t, after, h, k) by {
        if h < n {
            assert(slot_ok(s, shape, h, k));
        }
    }
}

/// Setting a child slot to a node of the forest keeps all links in bounds.
pub proof fn lemma_with_child_in_bounds(s: Seq<Links>, a: int, b: Option<int>)
    requires
        in_bounds(s),
        0 <= a < s.len(),
        b matches Some(c) ==> 0 <= c < s.len(),
    ensures
        in_bounds(with_left(s, a, b)),
        in_bounds(with_right(s, a, b)),
{
    let l = with_left(s, a, b);
    let r = with_right(s, a, b);
    assert forall|i: int| 0 <= i < l.len() implies bounded(#[trigger] l[i], l.len()) by {
        assert(bounded(s[i], s.len()));
    }
    assert forall|i: int| 0 <= i < r.len() implies bounded(#[trigger] r[i], r.len()) by {
        assert(bounded(s[i], s.len()));
    }
}

/// A well-formed forest has all its links in bounds.
pub proof fn lemma_well_formed_in_bounds(s: Seq<Links>, shape: Shape)
    requires
        well_formed(s, shape),
    ensures
        in_bounds(s),
{
    assert forall|i: int| 0 <= i < s.len() implies bounded(#[trigger] s[i], s.len()) by {
        assert(node_ok(s, shape, i));
    }
}

/// Every node but the root of its tree lies, with all below it, wholly before
/// or wholly behind the root.
pub proof fn lemma_beside_apex(s: Seq<Links>, shape: Shape, u: int)
    requires
        well_formed(s, shape),
        0 <= u < s.len(),
    ensures
        u == shape.apex_of(u) || shape.hi[u] <= shape.pos[shape.apex_of(u)] || shape.lo[u]
            > shape.pos[shape.apex_of(u)],
    decreases shape.room_above(u),
{
    assert(node_ok(s, shape, u));
    if s[u].parent is Some {
        let p = s[u].parent->0;
        assert(node_ok(s, shape, p));
        if p != shape.apex_of(u) {
            lemma_beside_apex(s, shape, p);
        }
    }
}

} // verus!
