//! The mathematical model of the represented forest: a sequence that gives each
//! node its parent, or `None` at a root, together with the facts about roots
//! that linking and cutting rely on.

use vstd::prelude::*;

verus! {

/// `rank` strictly decreases from every node to its parent, and every parent is a node.
pub open spec fn ranked(parents: Seq<Option<int>>, rank: spec_fn(int) -> nat) -> bool {
    forall|v: int|
        0 <= v < parents.len() ==> (#[trigger] parents[v] matches Some(q) ==> 0 <= q < parents.len()
            && rank(q) < rank(v))
}

/// The parent links form a forest of rooted trees: they stay inside the node
/// set and admit a rank, so they hold no cycle.
pub open spec fn is_forest(parents: Seq<Option<int>>) -> bool {
    exists|rank: spec_fn(int) -> nat| ranked(parents, rank)
}

/// The node reached from `v` after following at most `steps` parent links,
/// stopping early at a root.
pub open spec fn walk(parents: Seq<Option<int>>, v: int, steps: nat) -> int
    decreases steps,
{
    if steps == 0 {
        v
    } else {
        match parents[v] {
            None => v,
            Some(q) => walk(parents, q, (steps - 1) as nat),
        }
    }
}

/// The root of the tree that holds `v`. No path in a forest is longer than
/// the number of nodes, so that many steps always arrive.
pub open spec fn root_of(parents: Seq<Option<int>>, v: int) -> int {
    walk(parents, v, parents.len())
}

/// The forest after `child`, a root, is hung below `parent`.
pub open spec fn linked(parents: Seq<Option<int>>, parent: int, child: int) -> Seq<Option<int>> {
    parents.update(child, Some(parent))
}

/// The forest after the edge above `v` is removed.
pub open spec fn severed(parents: Seq<Option<int>>, v: int) -> Seq<Option<int>> {
    parents.update(v, None)
}

/// Number of edges between `v` and its root, computed along a rank.
pub open spec fn height(parents: Seq<Option<int>>, rank: spec_fn(int) -> nat, v: int) -> nat
    decreases rank(v),
{
    if parents[v] is Some && rank(parents[v]->0) < rank(v) {
        1 + height(parents, rank, parents[v]->0)
    } else {
        0
    }
}

/// `v` and all its ancestors.
pub open spec fn ancestors(parents: Seq<Option<int>>, rank: spec_fn(int) -> nat, v: int) -> Set<int>
    decreases rank(v),
{
    if parents[v] is Some && rank(parents[v]->0) < rank(v) {
        ancestors(parents, rank, parents[v]->0).insert(v)
    } else {
        set![v]
    }
}

proof fn lemma_ancestors(parents: Seq<Option<int>>, rank: spec_fn(int) -> nat, v: int)
    requires
        ranked(parents, rank),
        0 <= v < parents.len(),
    ensures
        ancestors(parents, rank, v).finite(),
        ancestors(parents, rank, v).len() == height(parents, rank, v) + 1,
        forall|u: int| #[trigger]
            ancestors(parents, rank, v).contains(u) ==> 0 <= u < parents.len() && rank(u) <= rank(v),
    decreases rank(v),
{
    if parents[v] is Some {
        let q = parents[v]->0;
        lemma_ancestors(parents, rank, q);
        assert(!ancestors(parents, rank, q).contains(v));
    }
}

/// A path towards the root visits each node at most once, so it is shorter
/// than the number of nodes.
pub proof fn lemma_height_bound(parents: Seq<Option<int>>, rank: spec_fn(int) -> nat, v: int)
    requires
        ranked(parents, rank),
        0 <= v < parents.len(),
    ensures
        height(parents, rank, v) < parents.len(),
{
    let a = ancestors(parents, rank, v);
    let all = vstd::set_lib::set_int_range(0, parents.len() as int);
    lemma_ancestors(parents, rank, v);
    vstd::set_lib::lemma_int_range(0, parents.len() as int);
    assert(a.subset_of(all));
    vstd::set_lib::lemma_len_subset(a, all);
}

/// With at least `height` steps the walk ends at a root, and further steps change nothing.
pub proof fn lemma_walk_arrives(
    parents: Seq<Option<int>>,
    rank: spec_fn(int) -> nat,
    v: int,
    steps: nat,
)
    requires
        ranked(parents, rank),
        0 <= v < parents.len(),
        steps >= height(parents, rank, v),
    ensures
        0 <= walk(parents, v, steps) < parents.len(),
        parents[walk(parents, v, steps)] is None,
        walk(parents, v, steps) == walk(parents, v, height(parents, rank, v)),
    decreases steps,
{
    if steps > 0 && parents[v] is Some {
        let q = parents[v]->0;
        lemma_walk_arrives(parents, rank, q, (steps - 1) as nat);
        lemma_walk_arrives(parents, rank, q, height(parents, rank, q));
    }
}

/// The root of a tree is a node without a parent.
pub proof fn lemma_root_is_root(parents: Seq<Option<int>>, v: int)
    requires
        is_forest(parents),
        0 <= v < parents.len(),
    ensures
        0 <= root_of(parents, v) < parents.len(),
        parents[root_of(parents, v)] is None,
{
    let rank = choose|rank: spec_fn(int) -> nat| ranked(parents, rank);
    lemma_height_bound(parents, rank, v);
    lemma_walk_arrives(parents, rank, v, parents.len());
}

/// A node without a parent is its own root.
pub proof fn lemma_root_of_root(parents: Seq<Option<int>>, v: int)
    requires
        0 <= v < parents.len(),
        parents[v] is None,
    ensures
        root_of(parents, v) == v,
{
}

/// A node and its parent have the same root.
pub proof fn lemma_root_of_child(parents: Seq<Option<int>>, v: int)
    requires
        is_forest(parents),
        0 <= v < parents.len(),
        parents[v] is Some,
    ensures
        root_of(parents, v) == root_of(parents, parents[v]->0),
{
    let rank = choose|rank: spec_fn(int) -> nat| ranked(parents, rank);
    let q = parents[v]->0;
    lemma_height_bound(parents, rank, v);
    lemma_height_bound(parents, rank, q);
    lemma_walk_arrives(parents, rank, q, (parents.len() - 1) as nat);
    lemma_walk_arrives(parents, rank, q, parents.len());
}

/// A node is a root exactly when it is its own root.
pub proof fn lemma_own_root(parents: Seq<Option<int>>, v: int)
    requires
        is_forest(parents),
        0 <= v < parents.len(),
    ensures
        parents[v] is None <==> root_of(parents, v) == v,
{
    lemma_root_is_root(parents, v);
}

/// The root of `x` once the root `child` hangs below `parent`: the nodes of
/// the tree of `child` get the root of `parent`, all others keep theirs.
pub open spec fn root_once_linked(
    parents: Seq<Option<int>>,
    parent: int,
    child: int,
    x: int,
) -> int {
    if root_of(parents, x) == child {
        root_of(parents, parent)
    } else {
        root_of(parents, x)
    }
}

/// The rank that witnesses the forest after a link: the tree of `child` is
/// lifted above `parent`.
pub open spec fn lifted_rank(
    parents: Seq<Option<int>>,
    rank: spec_fn(int) -> nat,
    parent: int,
    child: int,
) -> spec_fn(int) -> nat {
    |x: int|
        if root_of(parents, x) == child {
            rank(x) + rank(parent) + 1
        } else {
            rank(x)
        }
}

proof fn lemma_linked_ranked(
    parents: Seq<Option<int>>,
    rank: spec_fn(int) -> nat,
    parent: int,
    child: int,
)
    requires
        ranked(parents, rank),
        0 <= parent < parents.len(),
        0 <= child < parents.len(),
        parents[child] is None,
        root_of(parents, parent) != child,
    ensures
        ranked(linked(parents, parent, child), lifted_rank(parents, rank, parent, child)),
{
    let after = linked(parents, parent, child);
    let lifted = lifted_rank(parents, rank, parent, child);
    assert(is_forest(parents));
    assert forall|v: int| 0 <= v < after.len() implies (#[trigger] after[v] matches Some(q) ==> 0 <= q
        < after.len() && lifted(q) < lifted(v)) by {
        if after[v] is Some {
            if v == child {
                lemma_root_of_root(parents, child);
            } else {
                assert(parents[v] is Some);
                lemma_root_of_child(parents, v);
            }
        }
    }
}

proof fn lemma_linked_root_of(
    parents: Seq<Option<int>>,
    rank: spec_fn(int) -> nat,
    parent: int,
    child: int,
    x: int,
)
    requires
        ranked(parents, rank),
        0 <= parent < parents.len(),
        0 <= child < parents.len(),
        parents[child] is None,
        root_of(parents, parent) != child,
        0 <= x < parents.len(),
    ensures
        root_of(linked(parents, parent, child), x) == root_once_linked(
            parents,
            parent,
            child,
            x,
        ),
    decreases lifted_rank(parents, rank, parent, child)(x),
{
    let after = linked(parents, parent, child);
    let lifted = lifted_rank(parents, rank, parent, child);
    lemma_linked_ranked(parents, rank, parent, child);
    assert(is_forest(parents));
    assert(is_forest(after));
    if after[x] is Some {
        let u = after[x]->0;
        lemma_root_of_child(after, x);
        lemma_linked_root_of(parents, rank, parent, child, u);
        if x == child {
            lemma_root_of_root(parents, child);
        } else {
            assert(parents[x] is Some);
            lemma_root_of_child(parents, x);
        }
    } else {
        assert(parents[x] is None);
        lemma_root_of_root(parents, x);
        lemma_root_of_root(after, x);
    }
}

/// Linking a root `child` below a node `parent` of another tree gives a
/// forest again, in which the nodes of the tree of `child` have the root of
/// `parent` and all other nodes keep their root.
pub proof fn lemma_link(parents: Seq<Option<int>>, parent: int, child: int)
    requires
        is_forest(parents),
        0 <= parent < parents.len(),
        0 <= child < parents.len(),
        parents[child] is None,
        root_of(parents, parent) != child,
    ensures
        is_forest(linked(parents, parent, child)),
        forall|x: int|
            0 <= x < parents.len() ==> #[trigger] root_of(linked(parents, parent, child), x)
                == root_once_linked(parents, parent, child, x),
{
    let rank = choose|rank: spec_fn(int) -> nat| ranked(parents, rank);
    lemma_linked_ranked(parents, rank, parent, child);
    assert forall|x: int| 0 <= x < parents.len() implies #[trigger] root_of(
        linked(parents, parent, child),
        x,
    ) == root_once_linked(parents, parent, child, x) by {
        lemma_linked_root_of(parents, rank, parent, child, x);
    }
}

/// `v` lies on the path from `x` up to its root: it is `x` or an ancestor of `x`.
pub open spec fn on_path_up(parents: Seq<Option<int>>, x: int, v: int) -> bool {
    exists|steps: nat| walk(parents, x, steps) == v
}

/// The root of `x` once the edge above `v` is gone: `v` for itself and all
/// that lies below it, the old root for all others.
pub open spec fn root_once_severed(parents: Seq<Option<int>>, v: int, x: int) -> int {
    if on_path_up(parents, x, v) {
        v
    } else {
        root_of(parents, x)
    }
}

proof fn lemma_on_path_up_step(parents: Seq<Option<int>>, x: int, v: int)
    requires
        0 <= x < parents.len(),
        x != v,
    ensures
        parents[x] is None ==> !on_path_up(parents, x, v),
        parents[x] is Some ==> (on_path_up(parents, x, v) <==> on_path_up(
            parents,
            parents[x]->0,
            v,
        )),
{
    if parents[x] is None {
        assert forall|steps: nat| walk(parents, x, steps) != v by {}
    } else {
        let u = parents[x]->0;
        if on_path_up(parents, x, v) {
            let steps = choose|steps: nat| walk(parents, x, steps) == v;
            assert(walk(parents, u, (steps - 1) as nat) == v);
        }
        if on_path_up(parents, u, v) {
            let steps = choose|steps: nat| walk(parents, u, steps) == v;
            assert(walk(parents, x, steps + 1) == v);
        }
    }
}

proof fn lemma_severed_root_of(
    parents: Seq<Option<int>>,
    rank: spec_fn(int) -> nat,
    v: int,
    x: int,
)
    requires
        ranked(parents, rank),
        0 <= v < parents.len(),
        0 <= x < parents.len(),
    ensures
        root_of(severed(parents, v), x) == root_once_severed(parents, v, x),
        on_path_up(parents, x, v) ==> root_of(parents, x) == root_of(parents, v),
    decreases rank(x),
{
    let after = severed(parents, v);
    assert(ranked(after, rank));
    assert(is_forest(parents));
    assert(is_forest(after));
    if x == v {
        lemma_root_of_root(after, v);
        assert(walk(parents, x, 0) == v);
    } else if parents[x] is Some {
        let u = parents[x]->0;
        lemma_root_of_child(parents, x);
        lemma_root_of_child(after, x);
        lemma_on_path_up_step(parents, x, v);
        lemma_severed_root_of(parents, rank, v, u);
    } else {
        lemma_root_of_root(parents, x);
        lemma_root_of_root(after, x);
        lemma_on_path_up_step(parents, x, v);
    }
}

/// Removing the edge above a node gives a forest again. In it that node is
/// the root of itself and of all that lay below it, and every other node
/// keeps its root.
pub proof fn lemma_sever(parents: Seq<Option<int>>, v: int)
    requires
        is_forest(parents),
        0 <= v < parents.len(),
    ensures
        is_forest(severed(parents, v)),
        root_of(severed(parents, v), v) == v,
        forall|x: int|
            0 <= x < parents.len() ==> #[trigger] root_of(severed(parents, v), x)
                == root_once_severed(parents, v, x),
        forall|x: int|
            0 <= x < parents.len() && root_of(parents, x) != root_of(parents, v)
                ==> #[trigger] root_of(severed(parents, v), x) == root_of(parents, x),
{
    let rank = choose|rank: spec_fn(int) -> nat| ranked(parents, rank);
    assert(ranked(severed(parents, v), rank));
    assert forall|x: int| 0 <= x < parents.len() implies #[trigger] root_of(severed(parents, v), x)
        == root_once_severed(parents, v, x) by {
        lemma_severed_root_of(parents, rank, v, x);
    }
    assert forall|x: int|
        0 <= x < parents.len() && root_of(parents, x) != root_of(parents, v)
        implies #[trigger] root_of(severed(parents, v), x) == root_of(parents, x) by {
        lemma_severed_root_of(parents, rank, v, x);
    }
}

/// Cutting a node that was just linked gives back the forest from before the
/// link: the node is its own root again, and every node has its old root.
pub proof fn lemma_link_then_sever(parents: Seq<Option<int>>, parent: int, child: int)
    requires
        is_forest(parents),
        0 <= parent < parents.len(),
        0 <= child < parents.len(),
        parents[child] is None,
        root_of(parents, parent) != child,
    ensures
        severed(linked(parents, parent, child), child) == parents,
        root_of(severed(linked(parents, parent, child), child), child) == child,
        root_of(severed(linked(parents, parent, child), child), parent) == root_of(parents, parent),
{
    assert(severed(linked(parents, parent, child), child) =~= parents);
    lemma_root_of_root(parents, child);
}

proof fn lemma_walk_agrees(
    parents: Seq<Option<int>>,
    longer: Seq<Option<int>>,
    rank: spec_fn(int) -> nat,
    x: int,
    steps: nat,
)
    requires
        ranked(parents, rank),
        0 <= x < parents.len(),
        parents.len() <= longer.len(),
        forall|v: int| 0 <= v < parents.len() ==> #[trigger] longer[v] == parents[v],
    ensures
        walk(longer, x, steps) == walk(parents, x, steps),
    decreases steps,
{
    if steps > 0 && parents[x] is Some {
        lemma_walk_agrees(parents, longer, rank, parents[x]->0, (steps - 1) as nat);
    }
}

/// A new node without a parent is a root of its own, and every other node keeps its root.
pub proof fn lemma_grow(parents: Seq<Option<int>>)
    requires
        is_forest(parents),
    ensures
        is_forest(parents.push(None)),
        root_of(parents.push(None), parents.len() as int) == parents.len(),
        forall|x: int|
            0 <= x < parents.len() ==> #[trigger] root_of(parents.push(None), x) == root_of(
                parents,
                x,
            ),
{
    let rank = choose|rank: spec_fn(int) -> nat| ranked(parents, rank);
    let longer = parents.push(None);
    assert(ranked(longer, rank));
    assert forall|x: int| 0 <= x < parents.len() implies #[trigger] root_of(longer, x) == root_of(
        parents,
        x,
    ) by {
        lemma_height_bound(parents, rank, x);
        lemma_walk_agrees(parents, longer, rank, x, longer.len());
        lemma_walk_arrives(parents, rank, x, longer.len());
        lemma_walk_arrives(parents, rank, x, parents.len());
    }
}

/// Two different nodes without a parent are the roots of two different trees.
pub proof fn lemma_independent_roots(parents: Seq<Option<int>>, u: int, v: int)
    requires
        0 <= u < parents.len(),
        0 <= v < parents.len(),
        parents[u] is None,
        parents[v] is None,
        u != v,
    ensures
        root_of(parents, u) == u,
        root_of(parents, v) == v,
        root_of(parents, u) != root_of(parents, v),
{
}

/// The forest after every node of `chain`, up to place `k`, is linked below the one before it.
pub open spec fn chained(parents: Seq<Option<int>>, chain: Seq<int>, k: nat) -> Seq<Option<int>>
    decreases k,
{
    if k == 0 {
        parents
    } else {
        linked(chained(parents, chain, (k - 1) as nat), chain[k - 1], chain[k as int])
    }
}

/// `nodes` names different roots of the forest.
pub open spec fn distinct_roots(parents: Seq<Option<int>>, nodes: Seq<int>) -> bool {
    &&& forall|i: int|
        0 <= i < nodes.len() ==> 0 <= #[trigger] nodes[i] < parents.len() && parents[nodes[i]] is None
    &&& forall|i: int, j: int| 0 <= i < j < nodes.len() ==> nodes[i] != nodes[j]
}

/// Linking roots into a chain, each below the one before it, is allowed at
/// every step and gives all of them the first as their root.
pub proof fn lemma_chain(parents: Seq<Option<int>>, chain: Seq<int>, k: nat)
    requires
        is_forest(parents),
        distinct_roots(parents, chain),
        k < chain.len(),
    ensures
        is_forest(chained(parents, chain, k)),
        chained(parents, chain, k).len() == parents.len(),
        forall|i: int|
            0 <= i <= k ==> root_of(chained(parents, chain, k), #[trigger] chain[i]) == chain[0],
        forall|j: int| k < j < chain.len() ==> chained(parents, chain, k)[#[trigger] chain[j]] is None,
        k > 0 ==> chained(parents, chain, (k - 1) as nat)[chain[k as int]] is None && root_of(
            chained(parents, chain, (k - 1) as nat),
            chain[k - 1],
        ) != chain[k as int],
    decreases k,
{
    if k == 0 {
        lemma_root_of_root(parents, chain[0]);
    } else {
        let before = chained(parents, chain, (k - 1) as nat);
        lemma_chain(parents, chain, (k - 1) as nat);
        assert(root_of(before, chain[k - 1]) == chain[0]);
        assert(before[chain[k as int]] is None);
        lemma_link(before, chain[k - 1], chain[k as int]);
        lemma_root_of_root(before, chain[k as int]);
        let after = chained(parents, chain, k);
        assert forall|i: int| 0 <= i <= k implies root_of(after, #[trigger] chain[i]) == chain[0] by {
            if i < k {
                assert(root_of(before, chain[i]) == chain[0]);
            }
        }
    }
}

/// The forest after the first `k` of `children` are linked below `parent`.
pub open spec fn fanned(
    parents: Seq<Option<int>>,
    parent: int,
    children: Seq<int>,
    k: nat,
) -> Seq<Option<int>>
    decreases k,
{
    if k == 0 {
        parents
    } else {
        linked(fanned(parents, parent, children, (k - 1) as nat), parent, children[k - 1])
    }
}

/// Linking roots below one node of another tree is allowed at every step and
/// gives all of them the root of that node.
pub proof fn lemma_fan_in(parents: Seq<Option<int>>, parent: int, children: Seq<int>, k: nat)
    requires
        is_forest(parents),
        0 <= parent < parents.len(),
        distinct_roots(parents, children),
        forall|i: int| 0 <= i < children.len() ==> #[trigger] children[i] != root_of(parents, parent),
        k <= children.len(),
    ensures
        is_forest(fanned(parents, parent, children, k)),
        fanned(parents, parent, children, k).len() == parents.len(),
        root_of(fanned(parents, parent, children, k), parent) == root_of(parents, parent),
        forall|i: int|
            0 <= i < k ==> root_of(fanned(parents, parent, children, k), #[trigger] children[i])
                == root_of(parents, parent),
        forall|j: int|
            k <= j < children.len()
                ==> fanned(parents, parent, children, k)[#[trigger] children[j]] is None,
        k > 0 ==> fanned(parents, parent, children, (k - 1) as nat)[children[k - 1]] is None
            && root_of(fanned(parents, parent, children, (k - 1) as nat), parent) != children[k - 1],
    decreases k,
{
    if k > 0 {
        let before = fanned(parents, parent, children, (k - 1) as nat);
        lemma_fan_in(parents, parent, children, (k - 1) as nat);
        let child = children[k - 1];
        assert(before[child] is None);
        lemma_link(before, parent, child);
        lemma_root_of_root(before, child);
        let after = fanned(parents, parent, children, k);
        assert forall|i: int| 0 <= i < k implies root_of(after, #[trigger] children[i]) == root_of(
            parents,
            parent,
        ) by {
            if i < k - 1 {
                assert(root_of(before, children[i]) == root_of(parents, parent));
            }
        }
    }
}

} // verus!
