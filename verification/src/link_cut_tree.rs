//! The link-cut tree: a forest of rooted trees that can be linked, cut and
//! asked for roots. Every operation first brings the path from a node up to
//! its root into one splay tree.

use crate::preferred_paths::{
    accessed,
    is_root_path,
    lemma_access_end,
    lemma_access_start,
    lemma_attach_left_links,
    lemma_detach_left_severs,
    lemma_grown_parents,
    lemma_round_up,
    lemma_same_tree_same_root,
    on_the_way,
    rep_parents,
    walked_up,
};
use crate::rooted_forest::{
    height,
    is_forest,
    lemma_grow,
    lemma_height_bound,
    lemma_link,
    lemma_root_of_root,
    lemma_sever,
    linked,
    ranked,
    root_of,
    root_once_linked,
    root_once_severed,
    severed,
};
use crate::shape::{isolated, lemma_well_formed_in_bounds, node_ok, with_left, Links, Shape};
use crate::splay_forest::{NodeIdx, SplayForest};
use crate::splices::detached_left;
use vstd::prelude::*;

verus! {

/// A forest of rooted trees, stored as paths in a splay forest.
pub struct LinkCutTree<V> {
    rep: SplayForest<V>,
}

impl<V> View for LinkCutTree<V> {
    type V = Seq<Option<int>>;

    /// The represented forest.
    open spec fn view(&self) -> Seq<Option<int>> {
        self.parents()
    }
}

impl<V> LinkCutTree<V> {
    /// The splay forest that stores the represented forest.
    pub closed spec fn forest(&self) -> SplayForest<V> {
        self.rep
    }

    /// The links and the shape of the splay forest.
    pub open spec fn state(&self) -> (Seq<Links>, Shape) {
        (self.forest().links(), self.forest().shape@)
    }

    /// The represented forest: for each node its parent, or `None` at a root.
    pub open spec fn parents(&self) -> Seq<Option<int>> {
        rep_parents(self.forest().links(), self.forest().shape@)
    }

    /// The values of all nodes, by position.
    pub open spec fn values(&self) -> Seq<V> {
        self.forest().values()
    }

    /// `idx` names a node of this forest.
    pub open spec fn has(&self, idx: NodeIdx) -> bool {
        0 <= idx@ < self.parents().len()
    }

    /// The root of the represented tree that holds `idx`.
    pub open spec fn root(&self, idx: NodeIdx) -> int {
        root_of(self.parents(), idx@)
    }

    /// The store is a well-formed splay forest, and what it represents is a forest.
    pub open spec fn wf(&self) -> bool {
        &&& self.forest().wf()
        &&& is_forest(self.parents())
    }

    /// The empty forest.
    pub fn new() -> (r: Self)
        ensures
            r.wf(),
            r.parents() == Seq::<Option<int>>::empty(),
            r.values() == Seq::<V>::empty(),
    {
        let r = LinkCutTree { rep: SplayForest::new() };
        proof {
            assert(r.parents() =~= Seq::<Option<int>>::empty());
            assert(ranked(r.parents(), |x: int| 0nat));
        }
        r
    }

    /// Adds a node that is a tree of its own.
    pub fn make_tree(&mut self, val: V) -> (r: NodeIdx)
        requires
            old(self).wf(),
        ensures
            final(self).wf(),
            r@ == old(self).parents().len(),
            final(self).parents() == old(self).parents().push(None),
            final(self).values() == old(self).values().push(val),
            final(self).root(r) == r@,
            forall|x: int|
                0 <= x < old(self).parents().len() ==> #[trigger] root_of(final(self).parents(), x)
                    == root_of(old(self).parents(), x),
    {
        let ghost before = self.parents();
        proof {
            lemma_grown_parents(
                self.rep.links(),
                self.rep.shape@,
                isolated(self.rep.links().len() as int),
            );
        }
        let r = self.rep.add_node(val);
        proof {
            lemma_grow(before);
        }
        r
    }

    /// Brings the represented path from the root down to `node_idx` into one
    /// splay tree, with `node_idx` as its root and last node. The represented
    /// forest stays as it is, and no node of another represented tree is touched.
    pub fn access(&mut self, node_idx: NodeIdx)
        requires
            old(self).wf(),
            old(self).has(node_idx),
        ensures
            final(self).state() == accessed(old(self).state().0, old(self).state().1, node_idx@),
            final(self).wf(),
            final(self).parents() == old(self).parents(),
            final(self).values() == old(self).values(),
            final(self).forest().links()[node_idx@].parent is None,
            final(self).forest().links()[node_idx@].right is None,
            final(self).forest().links()[node_idx@].path_parent is None,
            is_root_path(
                final(self).parents(),
                final(self).forest().shape@.order_of(node_idx@),
                node_idx@,
            ),
            forall|u: int|
                0 <= u < old(self).parents().len() && root_of(old(self).parents(), u) != root_of(
                    old(self).parents(),
                    node_idx@,
                ) ==> #[trigger] final(self).forest().links()[u] == old(self).forest().links()[u],
    {
        let ghost before = self.parents();
        let ghost base = self.rep.links();
        let ghost x = node_idx@;
        let ghost rank = choose|rank: spec_fn(int) -> nat| ranked(before, rank);
        proof {
            lemma_access_start(base, self.rep.shape@, x);
        }
        self.rep.splay(node_idx);
        proof {
            lemma_well_formed_in_bounds(self.rep.links(), self.rep.shape@);
        }
        self.rep.split_right_and_attach_new(node_idx, None);
        let ghost start = self.state();
        let ghost mut rounds: nat = base.len();
        proof {
            // No path up is longer than the forest has nodes.
            assert(node_ok(start.0, start.1, x));
            lemma_height_bound(before, rank, start.1.head[x]);
        }
        let mut v = node_idx;
        loop
            invariant
                on_the_way(before, base, self.rep.links(), self.rep.shape@, x, v@),
                ranked(before, rank),
                walked_up(self.rep.links(), self.rep.shape@, v@, rounds) == walked_up(
                    start.0,
                    start.1,
                    x,
                    base.len(),
                ),
                rounds > height(before, rank, self.rep.shape@.head[v@]),
                self.rep.values() == old(self).rep.values(),
                x == node_idx@,
            ensures
                self.rep.links()[v@].path_parent is None,
            decreases rank(self.rep.shape@.head[v@]),
        {
            match self.rep.get_path_parent(v) {
                None => {
                    break ;
                },
                Some(w) => {
                    proof {
                        lemma_round_up(before, rank, base, self.rep.links(), self.rep.shape@, x, v@);
                    }
                    self.rep.splay(w);
                    proof {
                        lemma_well_formed_in_bounds(self.rep.links(), self.rep.shape@);
                    }
                    self.rep.split_right_and_attach_new(w, Some(v));
                    proof {
                        rounds = (rounds - 1) as nat;
                    }
                    v = w;
                },
            }
        }
        proof {
            lemma_access_end(before, base, self.rep.links(), self.rep.shape@, x, v@);
        }
        self.rep.splay(node_idx);
    }

    /// The root of the represented tree that holds `node_idx`. The
    /// represented forest stays as it is, so asking again gives the same answer.
    pub fn find_root(&mut self, node_idx: NodeIdx) -> (r: NodeIdx)
        requires
            old(self).wf(),
            old(self).has(node_idx),
        ensures
            final(self).state() == ({
                let (s, shape) = accessed(old(self).state().0, old(self).state().1, node_idx@);
                accessed(s, shape, r@)
            }),
            final(self).wf(),
            final(self).parents() == old(self).parents(),
            final(self).values() == old(self).values(),
            final(self).has(r),
            r@ == old(self).root(node_idx),
            r@ == final(self).root(node_idx),
            final(self).parents()[r@] is None,
    {
        self.access(node_idx);
        proof {
            // The first node of the path is a root, and the root of all nodes on it.
            let s = self.rep.links();
            let sh = self.rep.shape@;
            assert(node_ok(s, sh, node_idx@));
            assert(node_ok(s, sh, sh.head[node_idx@]));
            lemma_same_tree_same_root(s, sh, node_idx@);
            lemma_root_of_root(self.parents(), sh.head[node_idx@]);
        }
        let root = self.rep.get_leftmost(node_idx);
        self.access(root);
        return root;
    }

    /// Removes the edge between `node_idx` and its parent, which makes
    /// `node_idx` a root. On a root nothing changes.
    pub fn cut(&mut self, node_idx: NodeIdx)
        requires
            old(self).wf(),
            old(self).has(node_idx),
        ensures
            final(self).state() == ({
                let (s, shape) = accessed(old(self).state().0, old(self).state().1, node_idx@);
                (detached_left(s, node_idx@), shape.detached_left(s, node_idx@))
            }),
            final(self).wf(),
            final(self).parents() == severed(old(self).parents(), node_idx@),
            final(self).values() == old(self).values(),
            final(self).root(node_idx) == node_idx@,
            forall|x: int|
                0 <= x < old(self).parents().len() ==> #[trigger] root_of(final(self).parents(), x)
                    == root_once_severed(old(self).parents(), node_idx@, x),
            forall|x: int|
                0 <= x < old(self).parents().len() && root_of(old(self).parents(), x)
                    != old(self).root(node_idx) ==> #[trigger] root_of(final(self).parents(), x)
                    == root_of(old(self).parents(), x),
    {
        self.access(node_idx);
        proof {
            let s = self.rep.links();
            let sh = self.rep.shape@;
            lemma_well_formed_in_bounds(s, sh);
            lemma_detach_left_severs(s, sh, node_idx@);
            lemma_sever(self.parents(), node_idx@);
        }
        self.rep.split_left(node_idx);
    }

    /// Hangs the root `child_idx` below `parent_idx`, a node of another tree:
    /// below a node of its own tree it would close a cycle. Every node of the
    /// tree of `child_idx` then has the root of `parent_idx`, and all others
    /// keep theirs.
    pub fn link(&mut self, parent_idx: NodeIdx, child_idx: NodeIdx)
        requires
            old(self).wf(),
            old(self).has(parent_idx),
            old(self).has(child_idx),
            old(self).parents()[child_idx@] is None,
            old(self).root(parent_idx) != child_idx@,
        ensures
            final(self).state() == ({
                let (s1, shape1) = accessed(old(self).state().0, old(self).state().1, child_idx@);
                let (s2, shape2) = accessed(s1, shape1, parent_idx@);
                (
                    with_left(s2, child_idx@, Some(parent_idx@)),
                    shape2.attached_left(child_idx@, parent_idx@),
                )
            }),
            final(self).wf(),
            final(self).parents() == linked(old(self).parents(), parent_idx@, child_idx@),
            final(self).values() == old(self).values(),
            final(self).root(child_idx) == old(self).root(parent_idx),
            final(self).root(parent_idx) == old(self).root(parent_idx),
            forall|x: int|
                0 <= x < old(self).parents().len() ==> #[trigger] root_of(final(self).parents(), x)
                    == root_once_linked(old(self).parents(), parent_idx@, child_idx@, x),
    {
        let ghost before = self.parents();
        let ghost c = child_idx@;
        let ghost q = parent_idx@;
        self.access(child_idx);
        proof {
            // A root is alone on its path, so nothing hangs to its left.
            let s = self.rep.links();
            let sh = self.rep.shape@;
            assert(node_ok(s, sh, c));
            if s[c].left is Some {
                assert(node_ok(s, sh, s[c].left->0));
            }
            assert(s[c].left is None);
            lemma_root_of_root(before, c);
        }
        self.access(parent_idx);
        proof {
            // The second access was in another represented tree and left
            // `child_idx` as it was; the two nodes are roots of two splay trees.
            let s = self.rep.links();
            let sh = self.rep.shape@;
            assert(node_ok(s, sh, c));
            assert(node_ok(s, sh, q));
            lemma_same_tree_same_root(s, sh, c);
            lemma_same_tree_same_root(s, sh, q);
            lemma_attach_left_links(s, sh, c, q);
            lemma_link(before, q, c);
        }
        self.rep.join_left(child_idx, parent_idx);
    }

    /// The value of `node_idx`. Nothing changes.
    pub fn get_val(&mut self, node_idx: NodeIdx) -> (r: &V)
        requires
            old(self).has(node_idx),
        ensures
            *r == old(self).values()[node_idx@],
            final(self).state() == old(self).state(),
            final(self).values() == old(self).values(),
    {
        self.rep.get_value(node_idx)
    }
}

} // verus!
