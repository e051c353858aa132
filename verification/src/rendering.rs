//! A nested picture of a splay forest, for inspection: one entry per tree,
//! each node with its index, its path-parent if it has one, its value and
//! what hangs to its left and right.

use crate::shape::{node_ok, Links, Shape};
use crate::splay_forest::{NodeIdx, SplayForest};
use vstd::prelude::*;

verus! {

/// One node of the picture. `None` marks an absent child.
#[derive(Debug)]
pub struct NodeDebug<'a, V> {
    pub idx: usize,
    pub path_parent: Option<usize>,
    pub val: &'a V,
    pub left: Option<Box<NodeDebug<'a, V>>>,
    pub right: Option<Box<NodeDebug<'a, V>>>,
}

/// The position as it is shown.
pub open spec fn shown(o: Option<int>) -> Option<usize> {
    match o {
        None => None,
        Some(i) => Some(i as usize),
    }
}

/// How many places the subtree below `i` covers.
pub open spec fn width(shape: Shape, i: int) -> int {
    shape.hi[i] - shape.lo[i]
}

/// The picture of the subtree below `i`.
pub open spec fn picture<'a, V>(links: Seq<Links>, values: Seq<V>, shape: Shape, i: int) -> NodeDebug<
    'a,
    V,
>
    decreases width(shape, i),
{
    NodeDebug {
        idx: i as usize,
        path_parent: shown(links[i].path_parent),
        val: &values[i],
        left: match links[i].left {
            None => None,
            Some(l) => if 0 <= width(shape, l) < width(shape, i) {
                Some(Box::new(picture(links, values, shape, l)))
            } else {
                None
            },
        },
        right: match links[i].right {
            None => None,
            Some(r) => if 0 <= width(shape, r) < width(shape, i) {
                Some(Box::new(picture(links, values, shape, r)))
            } else {
                None
            },
        },
    }
}

/// The roots among the first `k` nodes, in rising order.
pub open spec fn roots_below(links: Seq<Links>, k: int) -> Seq<int>
    decreases k,
{
    if k <= 0 {
        Seq::empty()
    } else if links[k - 1].parent is None {
        roots_below(links, k - 1).push(k - 1)
    } else {
        roots_below(links, k - 1)
    }
}

impl<V> SplayForest<V> {
    /// The picture of the subtree below `node_idx`.
    pub fn debug_node(&self, node_idx: NodeIdx) -> (r: NodeDebug<'_, V>)
        requires
            self.wf(),
            self.has(node_idx),
        ensures
            r == picture(self.links(), self.values(), self.shape@, node_idx@),
        decreases width(self.shape@, node_idx@),
    {
        proof {
            assert(node_ok(self.links(), self.shape@, node_idx@));
        }
        let left = match self.get_left(node_idx) {
            None => None,
            Some(l) => {
                proof {
                    assert(node_ok(self.links(), self.shape@, l@));
                }
                Some(Box::new(self.debug_node(l)))
            },
        };
        let right = match self.get_right(node_idx) {
            None => None,
            Some(r) => {
                proof {
                    assert(node_ok(self.links(), self.shape@, r@));
                }
                Some(Box::new(self.debug_node(r)))
            },
        };
        let path_parent = match self.get_path_parent(node_idx) {
            None => None,
            Some(w) => Some(w.get()),
        };
        NodeDebug { idx: node_idx.get(), path_parent, val: self.get_value(node_idx), left, right }
    }

    /// The pictures of all trees, found by their roots in rising order.
    pub fn debug_roots(&self) -> (r: Vec<NodeDebug<'_, V>>)
        requires
            self.wf(),
        ensures
            r@ == roots_below(self.links(), self.links().len() as int).map_values(
                |i: int| picture(self.links(), self.values(), self.shape@, i),
            ),
    {
        let mut out: Vec<NodeDebug<'_, V>> = Vec::new();
        let mut i: usize = 0;
        while i < self.forest.len()
            invariant
                self.wf(),
                i <= self.forest@.len(),
                self.forest@.len() == self.links().len(),
                out@ == roots_below(self.links(), i as int).map_values(
                    |i: int| picture(self.links(), self.values(), self.shape@, i),
                ),
            decreases self.forest@.len() - i,
        {
            let idx = NodeIdx::new(i);
            if self.get_parent(idx).is_none() {
                let node = self.debug_node(idx);
                out.push(node);
            }
            i += 1;
        }
        out
    }
}

} // verus!
