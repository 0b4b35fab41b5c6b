//! Parent-pointer forests over the indices `0..parent.len()`.
//!
//! A forest is a sequence `parent` in which every entry is a valid index and
//! following parent links from any index ends in a root, an index that is its
//! own parent. Everything here is specification and proof; nothing is run.

use vstd::prelude::*;
use vstd::set_lib::{lemma_int_range, lemma_len_subset, lemma_set_disjoint_lens, set_int_range};

verus! {

/// `depth` witnesses that `parent` has no cycle: every entry is an index and
/// the depth strictly falls along every link that is not a root's self-loop.
pub open spec fn ranked(parent: Seq<int>, depth: Seq<nat>) -> bool {
    &&& depth.len() == parent.len()
    &&& forall|i: int| 0 <= i < parent.len() ==> 0 <= #[trigger] parent[i] < parent.len()
    &&& forall|i: int|
        0 <= i < parent.len() && #[trigger] parent[i] != i ==> depth[parent[i]] < depth[i]
}

/// Every parent chain ends in a root.
pub open spec fn is_forest(parent: Seq<int>) -> bool {
    exists|depth: Seq<nat>| ranked(parent, depth)
}

/// Some depth assignment of a forest.
pub open spec fn some_depth(parent: Seq<int>) -> Seq<nat> {
    choose|depth: Seq<nat>| ranked(parent, depth)
}

/// `i` is an index of the forest.
pub open spec fn is_node(parent: Seq<int>, i: int) -> bool {
    0 <= i < parent.len()
}

/// `i` is its own parent.
pub open spec fn is_root(parent: Seq<int>, i: int) -> bool {
    is_node(parent, i) && parent[i] == i
}

/// The root that the parent chain of `i` ends in.
pub open spec fn root_of(parent: Seq<int>, i: int) -> int
    decreases some_depth(parent)[i],
    when is_forest(parent) && is_node(parent, i)
{
    if parent[i] == i {
        i
    } else {
        root_of(parent, parent[i])
    }
}

/// The root of a node is a root, and a root is its own root.
pub proof fn lemma_root_of(parent: Seq<int>, i: int)
    requires
        is_forest(parent),
        is_node(parent, i),
    ensures
        is_root(parent, root_of(parent, i)),
        root_of(parent, root_of(parent, i)) == root_of(parent, i),
        root_of(parent, parent[i]) == root_of(parent, i),
        is_root(parent, i) ==> root_of(parent, i) == i,
    decreases some_depth(parent)[i],
{
    if parent[i] != i {
        lemma_root_of(parent, parent[i]);
    }
}

/// A depth assignment bounds the depth of a node's root by its own.
pub proof fn lemma_root_depth(parent: Seq<int>, depth: Seq<nat>, i: int)
    requires
        ranked(parent, depth),
        is_node(parent, i),
    ensures
        depth[root_of(parent, i)] <= depth[i],
        root_of(parent, i) != i ==> depth[root_of(parent, i)] < depth[i],
    decreases depth[i],
{
    if parent[i] != i {
        lemma_root_depth(parent, depth, parent[i]);
    }
}

/// What `target` must satisfy on node `x` to be the root function of
/// `parent`: a root is its own target, and a link keeps the target.
pub open spec fn keeps_target(parent: Seq<int>, target: spec_fn(int) -> int, x: int) -> bool {
    if parent[x] == x {
        target(x) == x
    } else {
        target(parent[x]) == target(x)
    }
}

/// A function that every root maps to itself and every link preserves is the
/// root function of the forest.
pub proof fn lemma_roots_are(
    parent: Seq<int>,
    depth: Seq<nat>,
    target: spec_fn(int) -> int,
    i: int,
)
    requires
        ranked(parent, depth),
        forall|x: int| #![trigger parent[x]] is_node(parent, x) ==> keeps_target(parent, target, x),
        is_node(parent, i),
    ensures
        root_of(parent, i) == target(i),
    decreases depth[i],
{
    if parent[i] != i {
        lemma_roots_are(parent, depth, target, parent[i]);
    }
}

/// `x` lies on the parent chain that starts at `i`, ends included.
pub open spec fn on_path(parent: Seq<int>, i: int, x: int) -> bool
    decreases some_depth(parent)[i],
    when is_forest(parent) && is_node(parent, i)
{
    x == i || (parent[i] != i && on_path(parent, parent[i], x))
}

/// What lies on the chain from `i` is a node of the class of `i`, no deeper
/// than `i`, and so is its parent.
pub proof fn lemma_on_path(parent: Seq<int>, depth: Seq<nat>, i: int, x: int)
    requires
        ranked(parent, depth),
        is_node(parent, i),
        on_path(parent, i, x),
    ensures
        is_node(parent, x),
        depth[x] <= depth[i],
        root_of(parent, x) == root_of(parent, i),
        on_path(parent, i, parent[x]),
    decreases depth[i],
{
    if x == i {
        if parent[i] != i {
            assert(on_path(parent, parent[i], parent[i]));
        }
    } else {
        lemma_on_path(parent, depth, parent[i], x);
    }
}

/// The forest after a traversal from `i` to its root that compresses the path:
/// every node on the chain now points at what was its grandparent, and no
/// other node has moved.
pub open spec fn compressed(parent: Seq<int>, i: int) -> Seq<int> {
    Seq::new(
        parent.len(),
        |x: int|
            if on_path(parent, i, x) {
                parent[parent[x]]
            } else {
                parent[x]
            },
    )
}

/// Two forests over the same nodes that give every node the same root.
pub open spec fn same_roots(p: Seq<int>, q: Seq<int>) -> bool {
    &&& p.len() == q.len()
    &&& forall|x: int| is_node(p, x) ==> #[trigger] root_of(q, x) == root_of(p, x)
}

/// Path compression keeps the forest a forest and moves no node to another
/// root.
pub proof fn lemma_compressed(parent: Seq<int>, i: int)
    requires
        is_forest(parent),
    ensures
        is_forest(compressed(parent, i)),
        same_roots(parent, compressed(parent, i)),
{
    let depth = some_depth(parent);
    let q = compressed(parent, i);
    let target = |x: int| root_of(parent, x);
    assert forall|x: int| is_node(q, x) implies 0 <= #[trigger] q[x] < q.len() && (q[x] != x
        ==> depth[q[x]] < depth[x]) && keeps_target(q, target, x) by {
        lemma_root_of(parent, parent[x]);
    }
    assert forall|x: int| is_node(parent, x) implies #[trigger] root_of(q, x) == root_of(
        parent,
        x,
    ) by {
        lemma_roots_are(q, depth, target, x);
    }
}

/// A traversal that starts at a root changes nothing.
pub proof fn lemma_compressed_at_root(parent: Seq<int>, i: int)
    requires
        is_forest(parent),
        is_root(parent, i),
    ensures
        compressed(parent, i) == parent,
{
}

/// The nodes whose root is `r`.
pub open spec fn class_of(parent: Seq<int>, r: int) -> Set<int> {
    Set::new(|x: int| is_node(parent, x) && root_of(parent, x) == r)
}

/// How many nodes have `r` as their root.
pub open spec fn class_size(parent: Seq<int>, r: int) -> nat {
    class_of(parent, r).len()
}

/// A class is finite, no larger than the forest, and a root belongs to its
/// own class.
pub proof fn lemma_class_bounds(parent: Seq<int>, r: int)
    requires
        is_forest(parent),
    ensures
        class_of(parent, r).finite(),
        class_size(parent, r) <= parent.len(),
        is_root(parent, r) ==> class_size(parent, r) >= 1,
{
    let all = set_int_range(0, parent.len() as int);
    lemma_int_range(0, parent.len() as int);
    lemma_len_subset(class_of(parent, r), all);
    if is_root(parent, r) {
        assert(class_of(parent, r).contains(r));
    }
}

/// A class that holds two different nodes is larger than one.
pub proof fn lemma_class_has(parent: Seq<int>, r: int, x: int, y: int)
    requires
        is_forest(parent),
        class_of(parent, r).contains(x),
        class_of(parent, r).contains(y),
        x != y,
    ensures
        class_size(parent, r) >= 2,
{
    lemma_class_bounds(parent, r);
    let class = class_of(parent, r);
    assert(class.remove(x).remove(y).len() >= 0);
}

/// Forests with the same roots have the same classes.
pub proof fn lemma_same_roots_classes(p: Seq<int>, q: Seq<int>, r: int)
    requires
        same_roots(p, q),
    ensures
        class_of(q, r) == class_of(p, r),
{
}

/// Two classes with different roots together hold no more nodes than the
/// forest has.
pub proof fn lemma_two_classes_bound(parent: Seq<int>, a: int, b: int)
    requires
        is_forest(parent),
        a != b,
    ensures
        class_of(parent, a).disjoint(class_of(parent, b)),
        (class_of(parent, a) + class_of(parent, b)).len() == class_size(parent, a) + class_size(
            parent,
            b,
        ),
        class_size(parent, a) + class_size(parent, b) <= parent.len(),
{
    let all = set_int_range(0, parent.len() as int);
    lemma_class_bounds(parent, a);
    lemma_class_bounds(parent, b);
    lemma_set_disjoint_lens(class_of(parent, a), class_of(parent, b));
    lemma_int_range(0, parent.len() as int);
    lemma_len_subset(class_of(parent, a) + class_of(parent, b), all);
}

/// The forest with one more node, a root of its own.
pub open spec fn grown(parent: Seq<int>) -> Seq<int> {
    parent.push(parent.len() as int)
}

/// Growing a forest leaves every old node under its old root and makes the
/// new node a class of one.
pub proof fn lemma_grown(parent: Seq<int>)
    requires
        is_forest(parent),
    ensures
        is_forest(grown(parent)),
        forall|x: int|
            is_node(parent, x) ==> #[trigger] root_of(grown(parent), x) == root_of(parent, x),
        root_of(grown(parent), parent.len() as int) == parent.len(),
        class_of(grown(parent), parent.len() as int) == set![parent.len() as int],
        forall|r: int|
            r != parent.len() ==> #[trigger] class_of(grown(parent), r) == class_of(parent, r),
{
    let n = parent.len() as int;
    let q = grown(parent);
    let depth = some_depth(parent).push(0);
    let target = |x: int|
        if x == n {
            n
        } else {
            root_of(parent, x)
        };
    assert(ranked(q, depth));
    assert forall|x: int| is_node(q, x) implies #[trigger] root_of(q, x) == target(x) by {
        lemma_roots_are(q, depth, target, x);
    }
    assert forall|x: int| is_node(parent, x) implies #[trigger] root_of(parent, x) != n by {
        lemma_root_of(parent, x);
    }
}

/// Of two roots, the one that stays a root when their classes are united:
/// the root of the larger class, and on a tie the first.
pub open spec fn winner(parent: Seq<int>, a: int, b: int) -> int {
    if class_size(parent, a) < class_size(parent, b) {
        b
    } else {
        a
    }
}

/// Of two roots, the one that is hung under the other when their classes are
/// united: the root of the smaller class, and on a tie the second.
pub open spec fn loser(parent: Seq<int>, a: int, b: int) -> int {
    if class_size(parent, a) < class_size(parent, b) {
        a
    } else {
        b
    }
}

/// The forest after uniting the classes of the roots `a` and `b` by size.
pub open spec fn linked(parent: Seq<int>, a: int, b: int) -> Seq<int> {
    if a == b {
        parent
    } else {
        parent.update(loser(parent, a, b), winner(parent, a, b))
    }
}

/// The root of `x` once the classes of the roots `a` and `b` are one.
pub open spec fn linked_root(parent: Seq<int>, a: int, b: int, x: int) -> int {
    if root_of(parent, x) == a || root_of(parent, x) == b {
        winner(parent, a, b)
    } else {
        root_of(parent, x)
    }
}

/// Uniting two roots merges exactly their two classes under the winner and
/// leaves every other class as it was.
pub proof fn lemma_linked(parent: Seq<int>, a: int, b: int)
    requires
        is_forest(parent),
        is_root(parent, a),
        is_root(parent, b),
    ensures
        is_forest(linked(parent, a, b)),
        linked(parent, a, b).len() == parent.len(),
        forall|x: int|
            is_node(parent, x) ==> #[trigger] root_of(linked(parent, a, b), x) == linked_root(
                parent,
                a,
                b,
                x,
            ),
        class_of(linked(parent, a, b), winner(parent, a, b)) == class_of(parent, a) + class_of(
            parent,
            b,
        ),
        a != b ==> class_size(linked(parent, a, b), winner(parent, a, b)) == class_size(parent, a)
            + class_size(parent, b),
        forall|r: int|
            r != a && r != b ==> #[trigger] class_of(linked(parent, a, b), r) == class_of(
                parent,
                r,
            ),
{
    let q = linked(parent, a, b);
    let w = winner(parent, a, b);
    let l = loser(parent, a, b);
    let old_depth = some_depth(parent);
    let target = |x: int| linked_root(parent, a, b, x);
    if a != b {
        let depth = Seq::new(
            parent.len(),
            |x: int|
                if root_of(parent, x) == l {
                    old_depth[x] + old_depth[w] + 1
                } else {
                    old_depth[x]
                },
        );
        assert(ranked(q, depth));
        assert forall|x: int| is_node(parent, x) implies #[trigger] root_of(q, x) == linked_root(
            parent,
            a,
            b,
            x,
        ) by {
            lemma_roots_are(q, depth, target, x);
        }
        lemma_two_classes_bound(parent, a, b);
    }
}

/// Uniting the same two roots in forests with the same roots and the same
/// class sizes gives forests with the same roots.
pub proof fn lemma_linked_same_roots(p: Seq<int>, q: Seq<int>, a: int, b: int)
    requires
        is_forest(p),
        is_forest(q),
        same_roots(p, q),
        is_root(p, a),
        is_root(p, b),
    ensures
        is_root(q, a),
        is_root(q, b),
        same_roots(linked(p, a, b), linked(q, a, b)),
{
    lemma_root_of(q, a);
    lemma_root_of(q, b);
    lemma_same_roots_classes(p, q, a);
    lemma_same_roots_classes(p, q, b);
    lemma_linked(p, a, b);
    lemma_linked(q, a, b);
}

/// `j` is another node whose parent is `id`.
pub open spec fn is_child(parent: Seq<int>, id: int, j: int) -> bool {
    is_node(parent, j) && j != id && parent[j] == id
}

/// `j` is the child of `id` with the least index.
pub open spec fn is_first_child(parent: Seq<int>, id: int, j: int) -> bool {
    is_child(parent, id, j) && forall|k: int| 0 <= k < j ==> !is_child(parent, id, k)
}

/// The child of `id` with the least index.
pub open spec fn first_child(parent: Seq<int>, id: int) -> int {
    choose|j: int| is_first_child(parent, id, j)
}

/// `id` is the only node of its class.
pub open spec fn is_alone(parent: Seq<int>, id: int) -> bool {
    class_size(parent, root_of(parent, id)) == 1
}

/// The root of what is left of the class of `id` when `id` leaves it: the
/// root as it is, unless `id` is that root, and then its first child.
pub open spec fn heir(parent: Seq<int>, id: int) -> int {
    if parent[id] == id {
        first_child(parent, id)
    } else {
        root_of(parent, id)
    }
}

/// The forest after `id` has left its class: `id` is a root, each former
/// child of `id` hangs under the heir (the heir itself becoming a root where
/// `id` was one), and no other node has moved. A node that is alone in its
/// class stays as it is.
pub open spec fn detached(parent: Seq<int>, id: int) -> Seq<int> {
    if is_alone(parent, id) {
        parent
    } else {
        Seq::new(
            parent.len(),
            |x: int|
                if x == id {
                    id
                } else if parent[x] == id {
                    heir(parent, id)
                } else {
                    parent[x]
                },
        )
    }
}

/// The root of `x` once `id` has left its class.
pub open spec fn detached_root(parent: Seq<int>, id: int, x: int) -> int {
    if x == id {
        id
    } else if root_of(parent, x) == root_of(parent, id) {
        heir(parent, id)
    } else {
        root_of(parent, x)
    }
}

/// A node below `id` has an ancestor that is a child of `id`.
proof fn lemma_child_above(parent: Seq<int>, depth: Seq<nat>, id: int, y: int)
    requires
        ranked(parent, depth),
        is_node(parent, y),
        y != id,
        root_of(parent, y) == id,
    ensures
        exists|j: int| is_child(parent, id, j),
    decreases depth[y],
{
    if parent[y] == id {
        assert(is_child(parent, id, y));
    } else {
        lemma_child_above(parent, depth, id, parent[y]);
    }
}

/// Below any child there is a first child.
proof fn lemma_least_child(parent: Seq<int>, id: int, j: int)
    requires
        is_child(parent, id, j),
    ensures
        exists|f: int| is_first_child(parent, id, f),
    decreases j,
{
    if exists|k: int| 0 <= k < j && is_child(parent, id, k) {
        let k = choose|k: int| 0 <= k < j && is_child(parent, id, k);
        lemma_least_child(parent, id, k);
    } else {
        assert(is_first_child(parent, id, j));
    }
}

/// A root whose class holds another node has a first child, and there is
/// only one.
pub proof fn lemma_first_child(parent: Seq<int>, id: int)
    requires
        is_forest(parent),
        is_root(parent, id),
        class_size(parent, id) > 1,
    ensures
        is_first_child(parent, id, first_child(parent, id)),
        forall|j: int| is_first_child(parent, id, j) ==> j == first_child(parent, id),
{
    let class = class_of(parent, id);
    let others = class.remove(id);
    let y = others.choose();
    assert(others.contains(y));
    lemma_child_above(parent, some_depth(parent), id, y);
    let j = choose|j: int| is_child(parent, id, j);
    lemma_least_child(parent, id, j);
}

/// The heir of a node that is not alone is another node of the same class.
pub proof fn lemma_heir(parent: Seq<int>, id: int)
    requires
        is_forest(parent),
        is_node(parent, id),
        !is_alone(parent, id),
    ensures
        is_node(parent, heir(parent, id)),
        heir(parent, id) != id,
        root_of(parent, heir(parent, id)) == root_of(parent, id),
        is_root(parent, id) ==> is_first_child(parent, id, heir(parent, id)),
        !is_root(parent, id) ==> heir(parent, id) == root_of(parent, id),
{
    lemma_root_of(parent, id);
    lemma_class_bounds(parent, root_of(parent, id));
    if parent[id] == id {
        lemma_first_child(parent, id);
    }
}

/// Detaching a node makes it a class of one, leaves the rest of its class
/// together under the heir, and touches no other class.
pub proof fn lemma_detached(parent: Seq<int>, id: int)
    requires
        is_forest(parent),
        is_node(parent, id),
    ensures
        is_forest(detached(parent, id)),
        detached(parent, id).len() == parent.len(),
        is_alone(parent, id) ==> detached(parent, id) == parent && root_of(parent, id) == id,
        !is_alone(parent, id) ==> forall|x: int|
            is_node(parent, x) ==> #[trigger] root_of(detached(parent, id), x) == detached_root(
                parent,
                id,
                x,
            ),
        class_of(detached(parent, id), id) == set![id],
        !is_alone(parent, id) ==> class_of(detached(parent, id), heir(parent, id)) == class_of(
            parent,
            root_of(parent, id),
        ).remove(id),
        !is_alone(parent, id) ==> class_size(detached(parent, id), heir(parent, id)) + 1
            == class_size(parent, root_of(parent, id)),
        forall|r: int|
            r != id && r != root_of(parent, id) && (is_alone(parent, id) || r != heir(parent, id))
                ==> #[trigger] class_of(detached(parent, id), r) == class_of(parent, r),
{
    let q = detached(parent, id);
    let r = root_of(parent, id);
    let old_depth = some_depth(parent);
    lemma_root_of(parent, id);
    lemma_class_bounds(parent, r);
    if is_alone(parent, id) {
        let class = class_of(parent, r);
        if r != id {
            assert(class.remove(r).contains(id));
        }
    } else {
        let h = heir(parent, id);
        lemma_heir(parent, id);
        let target = |x: int| detached_root(parent, id, x);
        let depth = if parent[id] == id {
            Seq::new(
                parent.len(),
                |x: int|
                    if x == h {
                        0nat
                    } else {
                        old_depth[x] + 1
                    },
            )
        } else {
            old_depth
        };
        assert forall|x: int| is_node(q, x) implies 0 <= #[trigger] q[x] < q.len() && (q[x] != x
            ==> depth[q[x]] < depth[x]) && keeps_target(q, target, x) by {
            lemma_root_depth(parent, old_depth, id);
        }
        assert forall|x: int| is_node(parent, x) implies #[trigger] root_of(q, x) == detached_root(
            parent,
            id,
            x,
        ) by {
            lemma_roots_are(q, depth, target, x);
        }
        assert forall|x: int| class_of(q, id).contains(x) <==> x == id by {
            if is_node(parent, x) {
                lemma_root_of(parent, x);
            }
        }
        assert forall|x: int|
            class_of(q, h).contains(x) <==> class_of(parent, r).remove(id).contains(x) by {
            if is_node(parent, x) {
                lemma_root_of(parent, x);
            }
        }
        assert(class_of(q, h) =~= class_of(parent, r).remove(id));
    }
}

} // verus!
