//! How a forest of rooted trees is read off a forest of splay trees. Each
//! splay tree holds one path of the represented forest, top first: a node's
//! represented parent is the node before it in the in-order of its splay
//! tree, and for the first node it is the path-parent of the tree's root.

use crate::rooted_forest::{
    height,
    is_forest,
    lemma_root_of_child,
    linked,
    ranked,
    root_of,
    severed,
};
use crate::rotations::{lemma_splayed, rearranged, splayed};
use crate::shape::{node_ok, slot_ok, well_formed, with_left, Links, Shape};
use crate::splices::{
    attached_right,
    detached_left,
    detached_right,
    lemma_attach_right,
    lemma_detach_right,
    right_switched,
};
use vstd::prelude::*;

verus! {

/// The represented parent of `v`.
pub open spec fn rep_parent(s: Seq<Links>, shape: Shape, v: int) -> Option<int> {
    if shape.pos[v] > 0 {
        Some(shape.order_of(v)[shape.pos[v] - 1])
    } else {
        s[shape.apex_of(v)].path_parent
    }
}

/// The represented forest: the represented parent of every node.
pub open spec fn rep_parents(s: Seq<Links>, shape: Shape) -> Seq<Option<int>> {
    Seq::new(s.len(), |v: int| rep_parent(s, shape, v))
}

/// `path` runs down the represented forest from a root to `v`.
pub open spec fn is_root_path(parents: Seq<Option<int>>, path: Seq<int>, v: int) -> bool {
    &&& path.len() > 0
    &&& path.last() == v
    &&& parents[path[0]] is None
    &&& forall|i: int| 0 < i < path.len() ==> parents[#[trigger] path[i]] == Some(path[i - 1])
}

/// One round of the walk up from `v`, the root of its tree, to its
/// path-parent `w`: `w` is splayed, what hung to its right is taken off, and
/// `v` is hung there. Gives the links, the shape and `w`.
pub open spec fn round_up(s: Seq<Links>, shape: Shape, v: int) -> (Seq<Links>, Shape, int) {
    let w = s[v].path_parent->0;
    let (s1, shape1) = splayed(s, shape, w);
    (right_switched(s1, w, Some(v)), shape1.right_switched(s1, w, Some(v)), w)
}

/// The walk up from `v`: rounds as long as there is a path-parent, and at
/// most `rounds` of them. Gives the links, the shape and the node reached.
pub open spec fn walked_up(s: Seq<Links>, shape: Shape, v: int, rounds: nat) -> (
    Seq<Links>,
    Shape,
    int,
)
    decreases rounds,
{
    if rounds == 0 || s[v].path_parent is None {
        (s, shape, v)
    } else {
        let (s1, shape1, w) = round_up(s, shape, v);
        walked_up(s1, shape1, w, (rounds - 1) as nat)
    }
}

/// The links and the shape after `x` is accessed: `x` is splayed and what
/// hung to its right is taken off; the walk up joins the paths above, which
/// takes fewer rounds than there are nodes; and `x` is splayed again.
pub open spec fn accessed(s: Seq<Links>, shape: Shape, x: int) -> (Seq<Links>, Shape) {
    let (s1, shape1) = splayed(s, shape, x);
    let top = walked_up(
        right_switched(s1, x, None),
        shape1.right_switched(s1, x, None),
        x,
        s.len(),
    );
    splayed(top.0, top.1, x)
}

/// Rotations inside the tree of `x` keep the represented forest: the
/// in-orders stay, the path-parent stays with the root of the tree, and the
/// other trees are not touched.
pub proof fn lemma_rotations_keep_parents(
    s0: Seq<Links>,
    sh0: Shape,
    s1: Seq<Links>,
    sh1: Shape,
    x: int,
)
    requires
        well_formed(s0, sh0),
        0 <= x < s0.len(),
        rearranged(s0, sh0, s1, sh1, x),
    ensures
        rep_parents(s1, sh1) == rep_parents(s0, sh0),
{
    assert forall|v: int| 0 <= v < s0.len() implies rep_parent(s1, sh1, v) == rep_parent(
        s0,
        sh0,
        v,
    ) by {
        assert(node_ok(s0, sh0, v));
        assert(node_ok(s0, sh0, sh0.apex_of(v)));
    }
    assert(rep_parents(s1, sh1) =~= rep_parents(s0, sh0));
}

/// Taking the right subtree off a root keeps the represented forest: the
/// part taken off remembers, as its path-parent, the node it hung below.
pub proof fn lemma_detach_right_keeps_parents(s: Seq<Links>, shape: Shape, w: int)
    requires
        well_formed(s, shape),
        0 <= w < s.len(),
        s[w].parent is None,
    ensures
        rep_parents(detached_right(s, w), shape.detached_right(s, w)) == rep_parents(s, shape),
{
    let t = detached_right(s, w);
    let after = shape.detached_right(s, w);
    if s[w].right is Some {
        let r = s[w].right->0;
        let h = shape.head[w];
        let k = shape.pos[w] + 1;
        assert(node_ok(s, shape, w));
        assert(node_ok(s, shape, r));
        assert(slot_ok(s, shape, h, k));
        assert forall|v: int| 0 <= v < s.len() implies rep_parent(t, after, v) == rep_parent(
            s,
            shape,
            v,
        ) by {
            assert(node_ok(s, shape, v));
            assert(node_ok(s, shape, shape.apex_of(v)));
        }
    }
    assert(rep_parents(t, after) =~= rep_parents(s, shape));
}

/// Hanging a tree below the last node of another tree, which its
/// path-parent names, keeps the represented forest.
pub proof fn lemma_attach_right_keeps_parents(s: Seq<Links>, shape: Shape, w: int, v: int)
    requires
        well_formed(s, shape),
        0 <= w < s.len(),
        0 <= v < s.len(),
        s[w].parent is None,
        s[w].right is None,
        s[v].parent is None,
        s[v].path_parent == Some(w),
        shape.head[v] != shape.head[w],
    ensures
        rep_parents(attached_right(s, w, Some(v)), shape.attached_right(w, Some(v))) == rep_parents(
            s,
            shape,
        ),
{
    let t = attached_right(s, w, Some(v));
    let after = shape.attached_right(w, Some(v));
    assert(node_ok(s, shape, w));
    assert(node_ok(s, shape, v));
    assert forall|u: int| 0 <= u < s.len() implies rep_parent(t, after, u) == rep_parent(
        s,
        shape,
        u,
    ) by {
        assert(node_ok(s, shape, u));
        assert(node_ok(s, shape, shape.apex_of(u)));
    }
    assert(rep_parents(t, after) =~= rep_parents(s, shape));
}

/// Taking the left subtree off a root without a path-parent removes the
/// represented edge above that root, and no other.
pub proof fn lemma_detach_left_severs(s: Seq<Links>, shape: Shape, v: int)
    requires
        well_formed(s, shape),
        0 <= v < s.len(),
        s[v].parent is None,
        s[v].path_parent is None,
    ensures
        rep_parents(detached_left(s, v), shape.detached_left(s, v)) == severed(
            rep_parents(s, shape),
            v,
        ),
{
    let t = detached_left(s, v);
    let after = shape.detached_left(s, v);
    assert(node_ok(s, shape, v));
    if s[v].left is Some {
        let l = s[v].left->0;
        let h = shape.head[v];
        let k = shape.pos[v];
        assert(node_ok(s, shape, l));
        assert(slot_ok(s, shape, h, k));
        assert forall|u: int| 0 <= u < s.len() implies rep_parent(t, after, u) == severed(
            rep_parents(s, shape),
            v,
        )[u] by {
            assert(node_ok(s, shape, u));
            assert(node_ok(s, shape, shape.apex_of(u)));
        }
    }
    assert(rep_parents(t, after) =~= severed(rep_parents(s, shape), v));
}

/// Hanging the tree that ends in `q` to the left of `c`, a root that is
/// alone on top of its tree, adds the represented edge from `c` up to `q`,
/// and no other.
pub proof fn lemma_attach_left_links(s: Seq<Links>, shape: Shape, c: int, q: int)
    requires
        well_formed(s, shape),
        0 <= c < s.len(),
        0 <= q < s.len(),
        s[c].parent is None,
        s[c].left is None,
        s[c].path_parent is None,
        s[q].parent is None,
        s[q].right is None,
        s[q].path_parent is None,
        shape.head[q] != shape.head[c],
    ensures
        rep_parents(with_left(s, c, Some(q)), shape.attached_left(c, q)) == linked(
            rep_parents(s, shape),
            q,
            c,
        ),
{
    let t = with_left(s, c, Some(q));
    let after = shape.attached_left(c, q);
    assert(node_ok(s, shape, c));
    assert(node_ok(s, shape, q));
    assert forall|u: int| 0 <= u < s.len() implies rep_parent(t, after, u) == linked(
        rep_parents(s, shape),
        q,
        c,
    )[u] by {
        assert(node_ok(s, shape, u));
        assert(node_ok(s, shape, shape.apex_of(u)));
    }
    assert(rep_parents(t, after) =~= linked(rep_parents(s, shape), q, c));
}

/// A new node that stands alone is a new root of the represented forest.
pub proof fn lemma_grown_parents(s: Seq<Links>, shape: Shape, added: Links)
    requires
        well_formed(s, shape),
        added.path_parent is None,
    ensures
        rep_parents(s.push(added), shape.grown(s.len() as int)) == rep_parents(s, shape).push(None),
{
    let t = s.push(added);
    let after = shape.grown(s.len() as int);
    assert forall|u: int| 0 <= u < t.len() implies rep_parent(t, after, u) == rep_parents(
        s,
        shape,
    ).push(None)[u] by {
        if u < s.len() {
            assert(node_ok(s, shape, u));
            assert(node_ok(s, shape, shape.apex_of(u)));
        }
    }
    assert(rep_parents(t, after) =~= rep_parents(s, shape).push(None));
}

/// Along the in-order of a tree the rank grows: the head has the least.
pub proof fn lemma_rank_along_order(
    s: Seq<Links>,
    shape: Shape,
    rank: spec_fn(int) -> nat,
    u: int,
)
    requires
        well_formed(s, shape),
        ranked(rep_parents(s, shape), rank),
        0 <= u < s.len(),
    ensures
        rank(shape.head[u]) <= rank(u),
    decreases shape.pos[u],
{
    assert(node_ok(s, shape, u));
    assert(node_ok(s, shape, shape.head[u]));
    if shape.pos[u] > 0 {
        let h = shape.head[u];
        let before = shape.order[h][shape.pos[u] - 1];
        assert(slot_ok(s, shape, h, shape.pos[u] - 1));
        assert(rep_parents(s, shape)[u] == Some(before));
        lemma_rank_along_order(s, shape, rank, before);
    }
}

/// Along the in-order of a tree the height grows: the head is the highest.
pub proof fn lemma_height_along_order(
    s: Seq<Links>,
    shape: Shape,
    rank: spec_fn(int) -> nat,
    u: int,
)
    requires
        well_formed(s, shape),
        ranked(rep_parents(s, shape), rank),
        0 <= u < s.len(),
    ensures
        height(rep_parents(s, shape), rank, shape.head[u]) <= height(rep_parents(s, shape), rank, u),
    decreases shape.pos[u],
{
    assert(node_ok(s, shape, u));
    assert(node_ok(s, shape, shape.head[u]));
    if shape.pos[u] > 0 {
        let h = shape.head[u];
        let before = shape.order[h][shape.pos[u] - 1];
        assert(slot_ok(s, shape, h, shape.pos[u] - 1));
        assert(rep_parents(s, shape)[u] == Some(before));
        lemma_height_along_order(s, shape, rank, before);
    }
}

/// All nodes of one splay tree lie in one represented tree.
pub proof fn lemma_same_tree_same_root(s: Seq<Links>, shape: Shape, u: int)
    requires
        well_formed(s, shape),
        is_forest(rep_parents(s, shape)),
        0 <= u < s.len(),
    ensures
        root_of(rep_parents(s, shape), u) == root_of(rep_parents(s, shape), shape.head[u]),
    decreases shape.pos[u],
{
    assert(node_ok(s, shape, u));
    assert(node_ok(s, shape, shape.head[u]));
    if shape.pos[u] > 0 {
        let h = shape.head[u];
        let before = shape.order[h][shape.pos[u] - 1];
        assert(slot_ok(s, shape, h, shape.pos[u] - 1));
        assert(rep_parents(s, shape)[u] == Some(before));
        lemma_root_of_child(rep_parents(s, shape), u);
        lemma_same_tree_same_root(s, shape, before);
    }
}

/// The in-order of a tree whose root has no path-parent is the represented
/// path from a root down to the last node of the tree.
pub proof fn lemma_order_is_root_path(s: Seq<Links>, shape: Shape, v: int)
    requires
        well_formed(s, shape),
        0 <= v < s.len(),
        s[shape.apex_of(v)].path_parent is None,
        shape.pos[v] == shape.order_of(v).len() - 1,
    ensures
        is_root_path(rep_parents(s, shape), shape.order_of(v), v),
{
    let parents = rep_parents(s, shape);
    let path = shape.order_of(v);
    let h = shape.head[v];
    assert(node_ok(s, shape, v));
    assert(slot_ok(s, shape, h, 0));
    assert forall|i: int| 0 < i < path.len() implies parents[#[trigger] path[i]] == Some(
        path[i - 1],
    ) by {
        assert(slot_ok(s, shape, h, i));
    }
}

/// The walk up in an access of `x` has come to `v`. The forest is
/// well-formed and represents `parents` as before; `v` is the root of the
/// splay tree that holds `x` as its last node; and the nodes of the other
/// represented trees are as they are in `base`.
pub open spec fn on_the_way(
    parents: Seq<Option<int>>,
    base: Seq<Links>,
    s: Seq<Links>,
    shape: Shape,
    x: int,
    v: int,
) -> bool {
    &&& well_formed(s, shape)
    &&& is_forest(parents)
    &&& rep_parents(s, shape) == parents
    &&& s.len() == base.len()
    &&& 0 <= x < s.len()
    &&& 0 <= v < s.len()
    &&& s[v].parent is None
    &&& shape.head[v] == shape.head[x]
    &&& shape.pos[x] == shape.order_of(x).len() - 1
    &&& forall|u: int|
        0 <= u < s.len() && root_of(parents, u) != root_of(parents, x) ==> #[trigger] s[u]
            == base[u]
}

/// An access sets out well: after `x` is splayed and what lies below it on
/// its path is taken off, the walk up can start at `x`.
pub proof fn lemma_access_start(s: Seq<Links>, shape: Shape, x: int)
    requires
        well_formed(s, shape),
        is_forest(rep_parents(s, shape)),
        0 <= x < s.len(),
    ensures
        ({
            let (s1, shape1) = splayed(s, shape, x);
            &&& well_formed(s1, shape1)
            &&& s1.len() == s.len()
            &&& on_the_way(
                rep_parents(s, shape),
                s,
                right_switched(s1, x, None),
                shape1.right_switched(s1, x, None),
                x,
                x,
            )
        }),
{
    let parents = rep_parents(s, shape);
    let (s1, shape1) = splayed(s, shape, x);
    let s2 = right_switched(s1, x, None);
    let shape2 = shape1.right_switched(s1, x, None);
    lemma_splayed(s, shape, x);
    lemma_rotations_keep_parents(s, shape, s1, shape1, x);
    lemma_detach_right(s1, shape1, x);
    lemma_detach_right_keeps_parents(s1, shape1, x);
    assert(node_ok(s1, shape1, x));
    assert(node_ok(s2, shape2, x));
    // Splaying and taking off touch the splay tree of `x` only, and that
    // lies in the represented tree of `x`.
    assert forall|u: int|
        0 <= u < s.len() && root_of(parents, u) != root_of(parents, x) implies #[trigger] s2[u]
        == s[u] by {
        lemma_same_tree_same_root(s, shape, u);
        lemma_same_tree_same_root(s, shape, x);
        lemma_same_tree_same_root(s1, shape1, u);
        lemma_same_tree_same_root(s1, shape1, x);
        if s1[x].right is Some {
            lemma_same_tree_same_root(s1, shape1, s1[x].right->0);
        }
    }
}

/// One round of the walk up goes well: it ends at the path-parent `w` of
/// `v`, which lies higher up in the represented forest, and the walk can go
/// on from there.
pub proof fn lemma_round_up(
    parents: Seq<Option<int>>,
    rank: spec_fn(int) -> nat,
    base: Seq<Links>,
    s: Seq<Links>,
    shape: Shape,
    x: int,
    v: int,
)
    requires
        on_the_way(parents, base, s, shape, x, v),
        ranked(parents, rank),
        s[v].path_parent is Some,
    ensures
        ({
            let w = s[v].path_parent->0;
            let (s1, shape1) = splayed(s, shape, w);
            let (t, after, end) = round_up(s, shape, v);
            &&& 0 <= w < s.len()
            &&& end == w
            &&& well_formed(s1, shape1)
            &&& s1.len() == s.len()
            &&& on_the_way(parents, base, t, after, x, w)
            &&& rank(after.head[w]) < rank(shape.head[v])
            &&& height(parents, rank, after.head[w]) < height(parents, rank, shape.head[v])
        }),
{
    let w = s[v].path_parent->0;
    let hv = shape.head[v];
    let (s1, shape1) = splayed(s, shape, w);
    let s2 = detached_right(s1, w);
    let shape2 = shape1.detached_right(s1, w);
    let (t, after, end) = round_up(s, shape, v);
    assert(node_ok(s, shape, v));
    assert(node_ok(s, shape, hv));
    assert(node_ok(s, shape, w));
    // `w` is the represented parent of the top of the path of `v`, so it
    // lies higher up, in another splay tree.
    assert(parents[hv] == Some(w));
    lemma_rank_along_order(s, shape, rank, w);
    lemma_height_along_order(s, shape, rank, w);
    assert(shape.head[w] != hv);
    // What hung below `w` on its path goes off, and the path of `v` goes in
    // there: the represented forest stays.
    lemma_splayed(s, shape, w);
    lemma_rotations_keep_parents(s, shape, s1, shape1, w);
    lemma_detach_right(s1, shape1, w);
    lemma_detach_right_keeps_parents(s1, shape1, w);
    assert(node_ok(s1, shape1, w));
    assert(node_ok(s1, shape1, v));
    assert(node_ok(s1, shape1, x));
    if s1[w].right is Some {
        assert(node_ok(s1, shape1, s1[w].right->0));
        assert(slot_ok(s1, shape1, shape1.head[w], shape1.pos[w] + 1));
    }
    assert(s2[v] == s[v]);
    lemma_attach_right(s2, shape2, w, v);
    lemma_attach_right_keeps_parents(s2, shape2, w, v);
    assert(node_ok(t, after, w));
    // All that is touched lies in the represented tree of `x`.
    assert forall|u: int|
        0 <= u < s.len() && root_of(parents, u) != root_of(parents, x) implies #[trigger] t[u]
        == base[u] by {
        lemma_root_of_child(parents, hv);
        lemma_same_tree_same_root(s, shape, u);
        lemma_same_tree_same_root(s, shape, x);
        lemma_same_tree_same_root(s, shape, v);
        lemma_same_tree_same_root(s, shape, w);
        lemma_same_tree_same_root(s1, shape1, u);
        lemma_same_tree_same_root(s1, shape1, w);
        if s1[w].right is Some {
            lemma_same_tree_same_root(s1, shape1, s1[w].right->0);
        }
        assert(s2[u] == s[u]);
    }
}

/// An access ends well: once the walk up has come to a root without a
/// path-parent, a last splay makes `x` the root of the tree that holds the
/// whole path from the root of its represented tree down to `x`.
pub proof fn lemma_access_end(
    parents: Seq<Option<int>>,
    base: Seq<Links>,
    s: Seq<Links>,
    shape: Shape,
    x: int,
    v: int,
)
    requires
        on_the_way(parents, base, s, shape, x, v),
        s[v].path_parent is None,
    ensures
        ({
            let (t, after) = splayed(s, shape, x);
            &&& well_formed(t, after)
            &&& rep_parents(t, after) == parents
            &&& t.len() == s.len()
            &&& t[x].parent is None
            &&& t[x].right is None
            &&& t[x].path_parent is None
            &&& is_root_path(parents, after.order_of(x), x)
            &&& forall|u: int|
                0 <= u < s.len() && root_of(parents, u) != root_of(parents, x) ==> #[trigger] t[u]
                    == base[u]
        }),
{
    let (t, after) = splayed(s, shape, x);
    assert(node_ok(s, shape, v));
    assert(node_ok(s, shape, x));
    lemma_splayed(s, shape, x);
    lemma_rotations_keep_parents(s, shape, t, after, x);
    // `x` is the last node of its tree, so as its root it has nothing to
    // its right.
    assert(node_ok(t, after, x));
    if t[x].right is Some {
        assert(node_ok(t, after, t[x].right->0));
    }
    lemma_order_is_root_path(t, after, x);
    assert forall|u: int|
        0 <= u < s.len() && root_of(parents, u) != root_of(parents, x) implies #[trigger] t[u]
        == base[u] by {
        lemma_same_tree_same_root(s, shape, u);
        lemma_same_tree_same_root(s, shape, x);
    }
}

} // verus!
