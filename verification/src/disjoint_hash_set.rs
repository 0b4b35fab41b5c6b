//! The executable container: a table from values to identifiers, and a
//! forest over the identifiers with union by size, path halving and the
//! detaching of a single identifier.

use crate::forest::{
    class_size, compressed, detached, heir, is_child, is_first_child, is_node, is_root,
    lemma_detached, lemma_grown, lemma_heir, lemma_linked, lemma_on_path, lemma_root_of,
    lemma_same_roots_classes, lemma_two_classes_bound, linked, on_path, ranked, root_of,
    some_depth,
};
use crate::laws::{
    law_insert, law_insert_set, law_insert_set_keeps_values, law_root_is_in_class, law_split,
    law_split_into, law_split_into_set_is_split_into, law_union, law_union_sets_is_union,
    law_values_stay, law_with_values,
};
use crate::partition::Partition;
use std::collections::HashMap;
use std::hash::Hash;
use vstd::prelude::*;
use vstd::std_specs::hash::obeys_key_model;

verus! {

/// The identifier of a class: an opaque token that `find` and
/// `find_or_insert` hand out and `union_sets` and `split_into_set` take back.
/// It means something only to the container that issued it.
#[derive(Copy, Clone, PartialEq, Eq, Debug, Structural)]
pub struct Id(usize);

impl View for Id {
    type V = int;

    closed spec fn view(&self) -> int {
        self.0 as int
    }
}

impl Id {
    /// Two identifiers with the same view are the same identifier.
    pub proof fn lemma_view_injective(self, other: Id)
        requires
            self@ == other@,
        ensures
            self == other,
    {
    }
}

#[derive(Copy, Clone, PartialEq, Debug)]
struct Node {
    size: usize,
    parent: Id,
}

impl Node {
    fn new(parent: Id) -> (node: Self)
        ensures
            node.size == 1,
            node.parent == parent,
    {
        Self { size: 1, parent }
    }
}

/// A disjoint-set container over values of type `T`.
///
/// Every value that is ever inserted gets the next free identifier and keeps
/// it for good. The identifiers form a forest; a class is a tree, and the
/// identifier at its root names it. Its view is the [`Partition`] that holds
/// the identifiers and the parents; each method says which partition it
/// leaves, and what that means for which values are connected.
///
/// Every method expects a container that is [`wf`](Self::wf) and leaves it
/// so. Lookups need `&mut self`: they shorten the paths they walk.
#[derive(Debug)]
pub struct DisjointHashSet<T: Hash + Eq> {
    map: HashMap<T, Id>,
    data: Vec<Node>,
}

impl<T: Hash + Eq> View for DisjointHashSet<T> {
    type V = Partition<T>;

    closed spec fn view(&self) -> Partition<T> {
        Partition {
            ids: Map::new(|v: T| self.map@.contains_key(v), |v: T| self.map@[v].0 as int),
            parent: Seq::new(self.data@.len(), |i: int| self.data@[i].parent.0 as int),
        }
    }
}

impl<T: Hash + Eq> DisjointHashSet<T> {
    /// The size recorded at each root is the number of identifiers in its
    /// class.
    pub closed spec fn counts_classes(&self) -> bool {
        forall|r: int|
            is_root(self@.parent, r) ==> (#[trigger] self.data@[r]).size == class_size(
                self@.parent,
                r,
            )
    }

    /// The container is in a valid state: its keys hash and compare as a map
    /// needs them to, its abstract state is valid, and its bookkeeping agrees
    /// with it.
    pub open spec fn wf(&self) -> bool {
        &&& obeys_key_model::<T>()
        &&& self@.wf()
        &&& self.counts_classes()
    }

    /// Create an empty `DisjointHashSet`.
    ///
    /// The values must hash and compare as the keys of a hash map have to.
    pub fn new() -> (set: Self)
        requires
            obeys_key_model::<T>(),
        ensures
            set.wf(),
            set@ == Partition::<T>::empty(),
    {
        let set = Self { map: HashMap::new(), data: Vec::new() };
        proof {
            Partition::<T>::lemma_empty();
            assert(set@.ids =~= Map::empty());
            assert(set@.parent =~= Seq::empty());
        }
        set
    }

    /// Create an empty `DisjointHashSet` with room for `cap` values. The
    /// capacity is a hint and changes nothing that can be observed.
    pub fn with_capacity(cap: usize) -> (set: Self)
        requires
            obeys_key_model::<T>(),
        ensures
            set.wf(),
            set@ == Partition::<T>::empty(),
    {
        let set = Self { map: HashMap::with_capacity(cap), data: Vec::with_capacity(cap) };
        proof {
            Partition::<T>::lemma_empty();
            assert(set@.ids =~= Map::empty());
            assert(set@.parent =~= Seq::empty());
        }
        set
    }

    /// Create a `DisjointHashSet` with each of the values in a class of its
    /// own. The values get their identifiers in the order in which they first
    /// occur; a value that occurs again is the value that is already there.
    pub fn with_values(values: Vec<T>) -> (set: Self)
        requires
            obeys_key_model::<T>(),
        ensures
            set.wf(),
            set@ == Partition::<T>::with_values(values@),
            forall|x: T| #![trigger set@.contains(x)] set@.contains(x) == values@.contains(x),
            forall|x: T, y: T|
                #![trigger set@.connected(x, y)]
                set@.connected(x, y) == (x == y && values@.contains(x)),
    {
        let mut set = Self::new();
        let ghost all = values@;
        for value in it: values.into_iter()
            invariant
                it.seq() == all,
                set.wf(),
                set@ == Partition::<T>::empty().insert_all(all.take(it.index())),
        {
            proof {
                let taken = all.take(it.index() + 1);
                assert(taken.drop_last() =~= all.take(it.index()));
            }
            set.insert_inner(value);
        }
        proof {
            assert(all.take(all.len() as int) =~= all);
            assert forall|x: T, y: T| #![trigger set@.connected(x, y)] set@.connected(x, y) == (x
                == y && all.contains(x)) by {
                law_with_values(all, x, y);
            }
            assert forall|x: T| #![trigger set@.contains(x)] set@.contains(x) == all.contains(
                x,
            ) by {
                law_with_values(all, x, x);
            }
        }
        set
    }

    /// Returns the number of distinct values that were ever inserted.
    pub fn size(&self) -> (n: usize)
        requires
            self.wf(),
        ensures
            n == self@.size(),
            n == self@.ids.len(),
    {
        self.data.len()
    }

    /// Returns `true` if the value was ever inserted.
    pub fn contains(&self, value: &T) -> (found: bool)
        requires
            self.wf(),
        ensures
            found == self@.contains(*value),
    {
        self.map.contains_key(value)
    }

    fn get(&self, id: Id) -> (node: Node)
        requires
            id@ < self.data@.len(),
        ensures
            node == self.data@[id@],
    {
        self.data[id.0]
    }

    fn get_mut(&mut self, id: Id) -> (node: &mut Node)
        requires
            id@ < old(self).data@.len(),
        ensures
            *node == old(self).data@[id@],
            final(self).data@ == old(self).data@.update(id@, *final(node)),
            final(self).map == old(self).map,
    {
        &mut self.data[id.0]
    }

    /// The identifier of `value`, issued now if the value is new.
    fn insert_inner(&mut self, value: T) -> (id: Id)
        requires
            old(self).wf(),
        ensures
            final(self).wf(),
            final(self)@ == old(self)@.insert(value),
            id@ == final(self)@.ids[value],
    {
        match self.map.get(&value) {
            Some(id) => {
                return *id;
            },
            None => {},
        }
        let new_id = Id(self.data.len());
        proof {
            lemma_grown(old(self)@.parent);
            old(self)@.lemma_insert(value);
        }
        self.map.insert(value, new_id);
        self.data.push(Node::new(new_id));
        proof {
            assert(self@.ids =~= old(self)@.insert(value).ids);
            assert(self@.parent =~= old(self)@.insert(value).parent);
        }
        new_id
    }

    /// Path halving: walks from `id` to the root of its class, pointing every
    /// node on the way at its grandparent, and returns the root.
    fn compress_path(&mut self, id: Id) -> (root: Id)
        requires
            old(self).wf(),
            old(self)@.issued(id@),
        ensures
            final(self).wf(),
            final(self)@ == old(self)@.compress(id@),
            root@ == root_of(old(self)@.parent, id@),
    {
        let ghost start = id@;
        let ghost before = self@.parent;
        let ghost depth = some_depth(before);
        let mut id = id;
        let mut parent = self.get(id).parent;
        while parent != id
            invariant
                ranked(before, depth),
                is_node(before, start),
                self.map == old(self).map,
                self.data@.len() == before.len(),
                is_node(before, id@),
                on_path(before, start, id@),
                parent == self.data@[id@].parent,
                forall|x: int|
                    is_node(before, x) ==> (#[trigger] self.data@[x]).size == old(
                        self,
                    ).data@[x].size,
                forall|x: int|
                    is_node(before, x) ==> (#[trigger] self.data@[x]).parent@ == if on_path(
                        before,
                        start,
                        x,
                    ) && !on_path(before, id@, x) {
                        before[before[x]]
                    } else {
                        before[x]
                    },
            decreases depth[id@],
        {
            proof {
                lemma_on_path(before, depth, start, id@);
                assert(on_path(before, parent@, parent@));
                assert forall|x: int| on_path(before, parent@, x) implies x != id@ by {
                    lemma_on_path(before, depth, parent@, x);
                }
            }
            let grandparent = self.get(parent).parent;
            self.get_mut(id).parent = grandparent;
            id = parent;
            parent = self.get(id).parent;
        }
        proof {
            lemma_on_path(before, depth, start, id@);
            assert(self@.parent =~= compressed(before, start));
            old(self)@.lemma_compress(start);
            assert forall|r: int| is_root(self@.parent, r) implies (#[trigger] self.data@[r]).size
                == class_size(self@.parent, r) by {
                lemma_same_roots_classes(before, self@.parent, r);
            }
        }
        id
    }

    /// Insert a new value into the disjoint set, in a class of its own.
    ///
    /// Returns `true` if the value was not there before. A value that was
    /// there stays in its class.
    pub fn insert(&mut self, value: T) -> (added: bool)
        requires
            old(self).wf(),
        ensures
            final(self).wf(),
            final(self)@ == old(self)@.insert(value),
            added == !old(self)@.contains(value),
            old(self)@.ids_kept_by(final(self)@),
            final(self)@.contains(value),
            forall|x: T, y: T|
                #![trigger final(self)@.connected(x, y)]
                final(self)@.connected(x, y) == (old(self)@.connected(x, y) || (x == value && y
                    == value)),
    {
        proof {
            law_values_stay(old(self)@, value, value);
            assert forall|x: T, y: T|
                #![trigger old(self)@.insert(value).connected(x, y)]
                old(self)@.insert(value).connected(x, y) == (old(self)@.connected(x, y) || (x
                    == value && y == value)) by {
                law_insert(old(self)@, value, x, y);
            }
        }
        let before = self.data.len();
        self.insert_inner(value);
        self.data.len() != before
    }

    /// Insert values as one class.
    ///
    /// The class of each value that was already there is united with it. No
    /// values change nothing, and a single value is inserted as `insert`
    /// would insert it.
    pub fn insert_set(&mut self, values: Vec<T>)
        requires
            old(self).wf(),
        ensures
            final(self).wf(),
            final(self)@ == old(self)@.insert_set(values@),
            old(self)@.ids_kept_by(final(self)@),
            forall|i: int, j: int|
                0 <= i < values@.len() && 0 <= j < values@.len() ==> final(self)@.connected(
                    #[trigger] values@[i],
                    #[trigger] values@[j],
                ),
            forall|x: T, y: T|
                #![trigger final(self)@.connected(x, y)]
                final(self)@.connected(x, y) == (old(self)@.connected(x, y) || (old(
                    self,
                )@.near_any(values@, x) && old(self)@.near_any(values@, y))),
    {
        let ghost all = values@;
        proof {
            let s = old(self)@;
            law_insert_set_keeps_values(s, all);
            assert forall|x: T, y: T|
                #![trigger s.insert_set(all).connected(x, y)]
                s.insert_set(all).connected(x, y) == (s.connected(x, y) || (s.near_any(all, x)
                    && s.near_any(all, y))) by {
                law_insert_set(s, all, x, y);
            }
        }
        let mut anchor: Option<Id> = None;
        for value in it: values.into_iter()
            invariant
                it.seq() == all,
                self.wf(),
                it.index() == 0 ==> anchor.is_none() && self@ == old(self)@,
                it.index() > 0 ==> anchor.is_some() && self@ == old(self)@.gather(
                    all.first(),
                    all.subrange(1, it.index()),
                ) && anchor.unwrap()@ == old(self)@.gather_anchor(
                    all.first(),
                    all.subrange(1, it.index()),
                ) && self@.issued(anchor.unwrap()@),
        {
            match anchor {
                None => {
                    anchor = Some(self.find_or_insert(value));
                },
                Some(k) => {
                    proof {
                        let taken = all.subrange(1, it.index() + 1);
                        assert(taken.drop_last() =~= all.subrange(1, it.index()));
                        let s0 = self@;
                        s0.lemma_find_or_insert(value);
                        let s1 = s0.find_or_insert(value);
                        s1.lemma_compress(k@);
                        let s2 = s1.compress(k@);
                        lemma_root_of(s2.parent, k@);
                    }
                    let v = self.find_or_insert(value);
                    let k = self.compress_path(k);
                    self.union_inner(k, v);
                    anchor = Some(k);
                },
            }
        }
    }

    /// Find the class a value is in.
    ///
    /// Returns `None` if the value was never inserted. The classes stay as
    /// they are; the path to the root gets shorter.
    pub fn find(&mut self, value: &T) -> (class: Option<Id>)
        requires
            old(self).wf(),
        ensures
            final(self).wf(),
            final(self)@ == old(self)@.find(*value),
            old(self)@.same_classes(final(self)@),
            forall|x: T, y: T|
                #![trigger final(self)@.connected(x, y)]
                final(self)@.connected(x, y) == old(self)@.connected(x, y),
            old(self)@.ids_kept_by(final(self)@),
            match class {
                Some(id) => old(self)@.contains(*value) && id@ == old(self)@.root(*value)
                    && is_root(final(self)@.parent, id@) && final(self)@.near(
                    *value,
                    final(self)@.value_of(id@),
                ),
                None => !old(self)@.contains(*value),
            },
    {
        proof {
            old(self)@.lemma_find(*value);
            if old(self)@.contains(*value) {
                law_root_is_in_class(old(self)@.find(*value), *value);
            }
        }
        let id = match self.map.get(value) {
            Some(id) => *id,
            None => {
                return None;
            },
        };
        Some(self.compress_path(id))
    }

    /// Find the class a value is in, inserting the value if it is new.
    pub fn find_or_insert(&mut self, value: T) -> (class: Id)
        requires
            old(self).wf(),
        ensures
            final(self).wf(),
            final(self)@ == old(self)@.find_or_insert(value),
            old(self)@.insert(value).same_classes(final(self)@),
            old(self)@.ids_kept_by(final(self)@),
            final(self)@.contains(value),
            class@ == final(self)@.root(value),
            is_root(final(self)@.parent, class@),
            final(self)@.near(value, final(self)@.value_of(class@)),
            forall|x: T, y: T|
                #![trigger final(self)@.connected(x, y)]
                final(self)@.connected(x, y) == (old(self)@.connected(x, y) || (x == value && y
                    == value)),
    {
        proof {
            old(self)@.lemma_find_or_insert(value);
            law_root_is_in_class(old(self)@.find_or_insert(value), value);
            assert forall|x: T, y: T|
                #![trigger old(self)@.find_or_insert(value).connected(x, y)]
                old(self)@.find_or_insert(value).connected(x, y) == (old(self)@.connected(x, y)
                    || (x == value && y == value)) by {
                law_insert(old(self)@, value, x, y);
            }
            old(self)@.lemma_insert(value);
            old(self)@.insert(value).lemma_find(value);
        }
        let id = self.insert_inner(value);
        self.compress_path(id)
    }

    /// Returns `true` if the two values were both inserted and are in the
    /// same class.
    pub fn connected(&mut self, value: &T, other: &T) -> (same: bool)
        requires
            old(self).wf(),
        ensures
            final(self).wf(),
            final(self)@ == old(self)@.observe(*value, *other),
            old(self)@.same_classes(final(self)@),
            old(self)@.ids_kept_by(final(self)@),
            forall|x: T, y: T|
                #![trigger final(self)@.connected(x, y)]
                final(self)@.connected(x, y) == old(self)@.connected(x, y),
            same == old(self)@.connected(*value, *other),
    {
        proof {
            let s = old(self)@;
            s.lemma_find(*value);
        }
        let first = self.find(value);
        let second = self.find(other);
        match (first, second) {
            (Some(a), Some(b)) => a == b,
            _ => false,
        }
    }

    /// Unites the classes of two roots: the root of the smaller class goes
    /// under the root of the larger, and on a tie the second under the first.
    fn union_inner(&mut self, value_id: Id, other_id: Id)
        requires
            old(self).wf(),
            is_root(old(self)@.parent, value_id@),
            is_root(old(self)@.parent, other_id@),
        ensures
            final(self).wf(),
            final(self)@ == old(self)@.link(value_id@, other_id@),
    {
        if value_id == other_id {
            return ;
        }
        let value = self.get(value_id);
        let other = self.get(other_id);
        proof {
            lemma_linked(old(self)@.parent, value_id@, other_id@);
            old(self)@.lemma_link(value_id@, other_id@);
            lemma_two_classes_bound(old(self)@.parent, value_id@, other_id@);
            assert(self@.parent.len() == self.data.len());
        }
        if value.size < other.size {
            self.get_mut(value_id).parent = other_id;
            self.get_mut(other_id).size = other.size + value.size;
        } else {
            self.get_mut(other_id).parent = value_id;
            self.get_mut(value_id).size = value.size + other.size;
        }
        proof {
            assert(self@.parent =~= linked(old(self)@.parent, value_id@, other_id@));
        }
    }

    /// Unites the classes of two values, inserting either if it is new.
    ///
    /// The merged class keeps the root of the larger of the two; where they
    /// are equally large it keeps the root of `value`.
    pub fn union(&mut self, value: T, other: T)
        requires
            old(self).wf(),
        ensures
            final(self).wf(),
            final(self)@ == old(self)@.union(value, other),
            old(self)@.ids_kept_by(final(self)@),
            final(self)@.connected(value, other),
            forall|x: T, y: T|
                #![trigger final(self)@.connected(x, y)]
                ({
                    let s = old(self)@;
                    final(self)@.connected(x, y) == (s.connected(x, y) || ((s.near(value, x)
                        || s.near(other, x)) && (s.near(value, y) || s.near(other, y))))
                }),
    {
        proof {
            let s0 = old(self)@;
            law_values_stay(s0, value, other);
            assert forall|x: T, y: T|
                #![trigger s0.union(value, other).connected(x, y)]
                s0.union(value, other).connected(x, y) == (s0.connected(x, y) || ((s0.near(
                    value,
                    x,
                ) || s0.near(other, x)) && (s0.near(value, y) || s0.near(other, y)))) by {
                law_union(s0, value, other, x, y);
            }
            let s1 = s0.find_or_insert(value);
            s0.lemma_find_or_insert(value);
            s1.lemma_find_or_insert(other);
        }
        let value = self.find_or_insert(value);
        let other = self.find_or_insert(other);
        self.union_inner(value, other);
    }

    /// Unites the classes of two identifiers that this container issued.
    ///
    /// An identifier stands for the value it was issued to, and so for the
    /// class that this value is in now, whether or not the identifier is
    /// still the root of that class.
    pub fn union_sets(&mut self, value: Id, other: Id)
        requires
            old(self).wf(),
            old(self)@.issued(value@),
            old(self)@.issued(other@),
        ensures
            final(self).wf(),
            final(self)@ == old(self)@.union_sets(value@, other@),
            final(self)@ == old(self)@.union(
                old(self)@.value_of(value@),
                old(self)@.value_of(other@),
            ),
            old(self)@.ids_kept_by(final(self)@),
            forall|x: T, y: T|
                #![trigger final(self)@.connected(x, y)]
                ({
                    let s = old(self)@;
                    let a = s.value_of(value@);
                    let b = s.value_of(other@);
                    final(self)@.connected(x, y) == (s.connected(x, y) || ((s.near(a, x) || s.near(
                        b,
                        x,
                    )) && (s.near(a, y) || s.near(b, y))))
                }),
    {
        proof {
            let s0 = old(self)@;
            let a = s0.value_of(value@);
            let b = s0.value_of(other@);
            law_union_sets_is_union(s0, value@, other@);
            assert forall|x: T, y: T|
                #![trigger s0.union(a, b).connected(x, y)]
                s0.union(a, b).connected(x, y) == (s0.connected(x, y) || ((s0.near(a, x)
                    || s0.near(b, x)) && (s0.near(a, y) || s0.near(b, y)))) by {
                law_union(s0, a, b, x, y);
            }
            let s1 = s0.compress(value@);
            s0.lemma_compress(value@);
            s1.lemma_compress(other@);
            lemma_root_of(s1.compress(other@).parent, value@);
            lemma_root_of(s1.compress(other@).parent, other@);
        }
        let value = self.compress_path(value);
        let other = self.compress_path(other);
        self.union_inner(value, other);
    }

    /// Takes `value` out of its class and returns its identifier, now the
    /// root of a class of one. What is left of the old class stays together:
    /// under its root, or under the first child of `value` where `value` was
    /// the root. Only the children of `value` are moved, which takes one pass
    /// over all identifiers.
    fn split_inner(&mut self, value: T) -> (id: Id)
        requires
            old(self).wf(),
        ensures
            final(self).wf(),
            final(self)@ == old(self)@.split(value),
            id@ == final(self)@.ids[value],
    {
        proof {
            old(self)@.lemma_find_or_insert(value);
        }
        let id = self.insert_inner(value);
        let root = self.compress_path(id);
        let ghost before = self@.parent;
        let ghost nodes = self.data@;
        let ghost keys = self.map@;
        proof {
            lemma_root_of(before, id@);
            lemma_detached(before, id@);
        }
        let size = self.get(root).size;
        if size == 1 {
            return id;
        }
        proof {
            lemma_heir(before, id@);
        }
        let n = self.data.len();
        let mut j: usize = 0;
        let new_root = if id == root {
            while j == id.0 || self.get(Id(j)).parent != id
                invariant
                    self.data@ == nodes,
                    self.map@ == keys,
                    self@.parent == before,
                    before.len() == n,
                    nodes.len() == n,
                    is_first_child(before, id@, heir(before, id@)),
                    j <= heir(before, id@),
                    forall|k: int| 0 <= k < j ==> !is_child(before, id@, k),
                decreases heir(before, id@) - j,
            {
                j += 1;
            }
            assert(is_child(before, id@, j as int));
            Id(j)
        } else {
            root
        };
        assert forall|x: int| is_node(before, x) implies (#[trigger] self.data@[x]).parent@
            == before[x] && !(x < j && x != id@ && before[x] == id@) by {
            assert(x < j ==> !is_child(before, id@, x));
        }
        while j < n
            invariant
                j <= n,
                n == before.len(),
                self.map@ == keys,
                self.data@.len() == n,
                nodes.len() == n,
                is_node(before, id@),
                is_node(before, new_root@),
                forall|x: int|
                    is_node(before, x) ==> (#[trigger] self.data@[x]).size == nodes[x].size,
                forall|x: int|
                    is_node(before, x) ==> (#[trigger] self.data@[x]).parent@ == if x < j && x
                        != id@ && before[x] == id@ {
                        new_root@
                    } else {
                        before[x]
                    },
            decreases n - j,
        {
            if j != id.0 && self.get(Id(j)).parent == id {
                self.get_mut(Id(j)).parent = new_root;
            }
            j += 1;
        }
        self.get_mut(new_root).size = size - 1;
        let node = self.get_mut(id);
        node.size = 1;
        node.parent = id;
        proof {
            assert(self@.parent =~= detached(before, id@));
            old(self)@.lemma_split(value);
        }
        id
    }

    /// Split a value from its class into a class of its own.
    ///
    /// Inserts the value if it is new. The other values of the old class stay
    /// together.
    pub fn split(&mut self, value: T)
        requires
            old(self).wf(),
        ensures
            final(self).wf(),
            final(self)@ == old(self)@.split(value),
            old(self)@.ids_kept_by(final(self)@),
            final(self)@.contains(value),
            forall|x: T, y: T|
                #![trigger final(self)@.connected(x, y)]
                final(self)@.connected(x, y) == if x == value || y == value {
                    x == y
                } else {
                    old(self)@.connected(x, y)
                },
    {
        proof {
            let s = old(self)@;
            law_values_stay(s, value, value);
            assert forall|x: T, y: T|
                #![trigger s.split(value).connected(x, y)]
                s.split(value).connected(x, y) == if x == value || y == value {
                    x == y
                } else {
                    s.connected(x, y)
                } by {
                law_split(s, value, x, y);
            }
        }
        self.split_inner(value);
    }

    /// Split a value from its class and unite it with the class of another
    /// value.
    ///
    /// Inserts either value if it is new.
    pub fn split_into(&mut self, value: T, into: T)
        requires
            old(self).wf(),
        ensures
            final(self).wf(),
            final(self)@ == old(self)@.split_into(value, into),
            old(self)@.ids_kept_by(final(self)@),
            final(self)@.connected(value, into),
            forall|x: T, y: T|
                #![trigger old(self)@.split(value).connected(x, y)]
                old(self)@.split(value).connected(x, y) == if x == value || y == value {
                    x == y
                } else {
                    old(self)@.connected(x, y)
                },
            forall|x: T, y: T|
                #![trigger final(self)@.connected(x, y)]
                ({
                    let t = old(self)@.split(value);
                    final(self)@.connected(x, y) == (t.connected(x, y) || ((x == value || t.near(
                        into,
                        x,
                    )) && (y == value || t.near(into, y))))
                }),
    {
        proof {
            let s0 = old(self)@;
            let t = s0.split(value);
            law_values_stay(s0, value, into);
            s0.lemma_split(value);
            assert forall|x: T, y: T|
                #![trigger s0.split_into(value, into).connected(x, y)]
                s0.split_into(value, into).connected(x, y) == (t.connected(x, y) || ((x == value
                    || t.near(into, x)) && (y == value || t.near(into, y)))) by {
                law_split_into(s0, value, into, x, y);
            }
            assert forall|x: T, y: T|
                #![trigger t.connected(x, y)]
                t.connected(x, y) == if x == value || y == value {
                    x == y
                } else {
                    s0.connected(x, y)
                } by {
                law_split(s0, value, x, y);
            }
            t.lemma_find_or_insert(into);
            let joined = t.find_or_insert(into);
            lemma_root_of(joined.parent, joined.ids[value]);
        }
        let id = self.split_inner(value);
        let into = self.find_or_insert(into);
        self.union_inner(id, into);
    }

    /// Split a value from its class and unite it with the class that an
    /// identifier of this container stands for.
    ///
    /// Inserts the value if it is new. The identifier stands for the value it
    /// was issued to and is looked up after `value` has left: where it is the
    /// identifier of `value` itself, `value` ends up alone.
    pub fn split_into_set(&mut self, value: T, into: Id)
        requires
            old(self).wf(),
            old(self)@.issued(into@),
        ensures
            final(self).wf(),
            final(self)@ == old(self)@.split_into_set(value, into@),
            final(self)@ == old(self)@.split_into(value, old(self)@.value_of(into@)),
            old(self)@.ids_kept_by(final(self)@),
            final(self)@.contains(value),
            forall|x: T, y: T|
                #![trigger old(self)@.split(value).connected(x, y)]
                old(self)@.split(value).connected(x, y) == if x == value || y == value {
                    x == y
                } else {
                    old(self)@.connected(x, y)
                },
            forall|x: T, y: T|
                #![trigger final(self)@.connected(x, y)]
                ({
                    let t = old(self)@.split(value);
                    let c = old(self)@.value_of(into@);
                    final(self)@.connected(x, y) == (t.connected(x, y) || ((x == value || t.near(
                        c,
                        x,
                    )) && (y == value || t.near(c, y))))
                }),
    {
        proof {
            let s0 = old(self)@;
            let t = s0.split(value);
            let c = s0.value_of(into@);
            law_split_into_set_is_split_into(s0, value, into@);
            law_values_stay(s0, value, c);
            assert forall|x: T, y: T|
                #![trigger s0.split_into(value, c).connected(x, y)]
                s0.split_into(value, c).connected(x, y) == (t.connected(x, y) || ((x == value
                    || t.near(c, x)) && (y == value || t.near(c, y)))) by {
                law_split_into(s0, value, c, x, y);
            }
            assert forall|x: T, y: T|
                #![trigger t.connected(x, y)]
                t.connected(x, y) == if x == value || y == value {
                    x == y
                } else {
                    s0.connected(x, y)
                } by {
                law_split(s0, value, x, y);
            }
            s0.lemma_split(value);
            t.lemma_compress(into@);
            let looked_up = t.compress(into@);
            lemma_root_of(looked_up.parent, looked_up.ids[value]);
            lemma_root_of(looked_up.parent, into@);
        }
        let id = self.split_inner(value);
        let into = self.compress_path(into);
        self.union_inner(id, into);
    }
}

} // verus!
