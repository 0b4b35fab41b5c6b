//! The abstract state of the container: which identifier each value was
//! issued, and the forest that groups the identifiers into classes.
//!
//! Every operation of the container is given here as a function from the
//! state before to the state after. The executable code is proved to follow
//! these functions exactly, so whatever is proved of them holds of the
//! container. What they mean for the classes is in [`crate::laws`].

use crate::forest::{
    class_of, compressed, detached, grown, is_alone, is_forest, is_node, is_root, lemma_compressed,
    lemma_detached, lemma_grown, lemma_heir, lemma_linked, lemma_root_of, linked, linked_root,
    ranked, root_of, same_roots,
};
use vstd::prelude::*;

verus! {

/// Values grouped into disjoint classes.
#[verifier::reject_recursive_types(T)]
pub struct Partition<T> {
    /// The identifier issued to each value that was ever inserted.
    pub ids: Map<T, int>,
    /// The parent of each identifier; a class is a tree of this forest and is
    /// named by the identifier at its root.
    pub parent: Seq<int>,
}

impl<T> Partition<T> {
    /// Identifiers are `0..parent.len()`, one for each value and no two
    /// values sharing one, and the parents form a forest.
    pub open spec fn wf(self) -> bool {
        &&& self.ids.dom().finite()
        &&& self.ids.dom().len() == self.parent.len()
        &&& forall|v: T| self.ids.contains_key(v) ==> is_node(self.parent, #[trigger] self.ids[v])
        &&& forall|v: T, w: T|
            #![trigger self.ids[v], self.ids[w]]
            self.ids.contains_key(v) && self.ids.contains_key(w) && self.ids[v] == self.ids[w]
                ==> v == w
        &&& forall|id: int| is_node(self.parent, id) ==> #[trigger] self.has_value(id)
        &&& is_forest(self.parent)
    }

    /// Some value was issued the identifier `id`.
    pub open spec fn has_value(self, id: int) -> bool {
        exists|v: T| self.ids.contains_key(v) && self.ids[v] == id
    }

    /// The value that was issued the identifier `id`.
    pub open spec fn value_of(self, id: int) -> T {
        choose|v: T| self.ids.contains_key(v) && self.ids[v] == id
    }

    /// With nothing inserted.
    pub open spec fn empty() -> Self {
        Partition { ids: Map::empty(), parent: Seq::empty() }
    }

    /// How many distinct values were ever inserted.
    pub open spec fn size(self) -> nat {
        self.parent.len()
    }

    /// `value` was inserted at some time.
    pub open spec fn contains(self, value: T) -> bool {
        self.ids.contains_key(value)
    }

    /// `id` is an identifier that was issued.
    pub open spec fn issued(self, id: int) -> bool {
        is_node(self.parent, id)
    }

    /// The identifier that names the class of `value`.
    pub open spec fn root(self, value: T) -> int {
        root_of(self.parent, self.ids[value])
    }

    /// Both values were inserted and are in one class.
    pub open spec fn connected(self, value: T, other: T) -> bool {
        self.contains(value) && self.contains(other) && self.root(value) == self.root(other)
    }

    /// `x` is `value` or is connected to it.
    pub open spec fn near(self, value: T, x: T) -> bool {
        x == value || self.connected(x, value)
    }

    /// `x` is one of `values` or is connected to one.
    pub open spec fn near_any(self, values: Seq<T>, x: T) -> bool {
        exists|i: int| 0 <= i < values.len() && self.near(#[trigger] values[i], x)
    }

    /// The same values under the same identifiers, and every identifier in
    /// the class of the same name; the trees may differ in shape.
    pub open spec fn same_classes(self, other: Self) -> bool {
        self.ids == other.ids && same_roots(self.parent, other.parent)
    }

    /// `next` still has every value of `self`, each under the identifier it
    /// had, so that every identifier still stands for its value; it may hold
    /// more.
    pub open spec fn ids_kept_by(self, next: Self) -> bool {
        &&& self.parent.len() <= next.parent.len()
        &&& forall|v: T|
            #![trigger next.ids[v]]
            #![trigger next.ids.contains_key(v)]
            self.ids.contains_key(v) ==> next.ids.contains_key(v) && next.ids[v] == self.ids[v]
        &&& forall|id: int|
            is_node(self.parent, id) ==> #[trigger] next.value_of(id) == self.value_of(id)
    }

    /// `next` still has every value of `self` under its identifier and every
    /// identifier of `self` in the class of the same name; it may hold more.
    pub open spec fn kept_by(self, next: Self) -> bool {
        &&& self.ids_kept_by(next)
        &&& forall|i: int|
            is_node(self.parent, i) ==> #[trigger] root_of(next.parent, i) == root_of(
                self.parent,
                i,
            )
    }

    /// After `insert`: an unseen value gets the next identifier and a class
    /// of its own; a value seen before changes nothing.
    pub open spec fn insert(self, value: T) -> Self {
        if self.contains(value) {
            self
        } else {
            Partition {
                ids: self.ids.insert(value, self.parent.len() as int),
                parent: grown(self.parent),
            }
        }
    }

    /// After a traversal from the identifier `id` to its root.
    pub open spec fn compress(self, id: int) -> Self {
        Partition { ids: self.ids, parent: compressed(self.parent, id) }
    }

    /// After `find`: the path from the value's identifier is compressed; an
    /// unseen value changes nothing.
    pub open spec fn find(self, value: T) -> Self {
        if self.contains(value) {
            self.compress(self.ids[value])
        } else {
            self
        }
    }

    /// After `find_or_insert`.
    pub open spec fn find_or_insert(self, value: T) -> Self {
        self.insert(value).find(value)
    }

    /// After `connected`, which looks up the first value and then the second.
    pub open spec fn observe(self, value: T, other: T) -> Self {
        self.find(value).find(other)
    }

    /// After the classes of the roots `a` and `b` are united by size.
    pub open spec fn link(self, a: int, b: int) -> Self {
        Partition { ids: self.ids, parent: linked(self.parent, a, b) }
    }

    /// After `union_sets`.
    pub open spec fn union_sets(self, a: int, b: int) -> Self {
        let s = self.compress(a).compress(b);
        s.link(root_of(s.parent, a), root_of(s.parent, b))
    }

    /// After `union`.
    pub open spec fn union(self, value: T, other: T) -> Self {
        let s = self.find_or_insert(value).find_or_insert(other);
        s.link(s.root(value), s.root(other))
    }

    /// After the identifier `id` has left its class.
    pub open spec fn detach(self, id: int) -> Self {
        Partition { ids: self.ids, parent: detached(self.parent, id) }
    }

    /// After `split`.
    pub open spec fn split(self, value: T) -> Self {
        let s = self.find_or_insert(value);
        s.detach(s.ids[value])
    }

    /// After `split_into`.
    pub open spec fn split_into(self, value: T, into: T) -> Self {
        let s = self.split(value).find_or_insert(into);
        s.link(s.root(value), s.root(into))
    }

    /// After `split_into_set`.
    pub open spec fn split_into_set(self, value: T, into: int) -> Self {
        let s = self.split(value).compress(into);
        s.link(s.root(value), root_of(s.parent, into))
    }

    /// After each of `values` is inserted, first to last.
    pub open spec fn insert_all(self, values: Seq<T>) -> Self
        decreases values.len(),
    {
        if values.len() == 0 {
            self
        } else {
            self.insert_all(values.drop_last()).insert(values.last())
        }
    }

    /// After `with_values`.
    pub open spec fn with_values(values: Seq<T>) -> Self {
        Self::empty().insert_all(values)
    }

    /// One step of `insert_set`: `value` is looked up, the class that is
    /// being built is looked up again from `anchor`, and the two are united.
    pub open spec fn gather_one(self, anchor: int, value: T) -> Self {
        let s = self.find_or_insert(value).compress(anchor);
        s.link(root_of(s.parent, anchor), s.root(value))
    }

    /// After `insert_set` has taken `first` and then each of `rest`.
    pub open spec fn gather(self, first: T, rest: Seq<T>) -> Self
        decreases rest.len(),
    {
        if rest.len() == 0 {
            self.find_or_insert(first)
        } else {
            let s = self.gather(first, rest.drop_last());
            s.gather_one(self.gather_anchor(first, rest.drop_last()), rest.last())
        }
    }

    /// The identifier from which `insert_set` looks up the class that it is
    /// building, once it has taken `first` and then each of `rest`: the root
    /// of `first` as it was before the last union.
    pub open spec fn gather_anchor(self, first: T, rest: Seq<T>) -> int
        decreases rest.len(),
    {
        if rest.len() == 0 {
            self.find_or_insert(first).root(first)
        } else {
            let s = self.gather(first, rest.drop_last());
            let anchor = self.gather_anchor(first, rest.drop_last());
            root_of(s.find_or_insert(rest.last()).parent, anchor)
        }
    }

    /// After `insert_set`.
    pub open spec fn insert_set(self, values: Seq<T>) -> Self {
        if values.len() == 0 {
            self
        } else {
            self.gather(values.first(), values.drop_first())
        }
    }
}

impl<T> Partition<T> {
    /// Nothing inserted is a valid state.
    pub proof fn lemma_empty()
        ensures
            Self::empty().wf(),
            Self::empty().size() == 0,
    {
        let s = Self::empty();
        assert(ranked(s.parent, Seq::empty()));
    }

    /// The value of an identifier is the one value that was issued it.
    pub proof fn lemma_value_of(self, id: int)
        requires
            self.wf(),
            self.issued(id),
        ensures
            self.contains(self.value_of(id)),
            self.ids[self.value_of(id)] == id,
            forall|v: T| self.contains(v) && self.ids[v] == id ==> v == self.value_of(id),
    {
        assert(self.has_value(id));
    }

    /// Where every value keeps its identifier, every identifier keeps its
    /// value.
    pub proof fn lemma_values_kept(self, next: Self)
        requires
            self.wf(),
            next.wf(),
            forall|v: T|
                #![trigger next.ids[v]]
                self.ids.contains_key(v) ==> next.ids.contains_key(v) && next.ids[v]
                    == self.ids[v],
        ensures
            forall|id: int|
                is_node(self.parent, id) ==> #[trigger] next.value_of(id) == self.value_of(id),
    {
        assert forall|id: int| is_node(self.parent, id) implies #[trigger] next.value_of(id)
            == self.value_of(id) by {
            self.lemma_value_of(id);
            let v = self.value_of(id);
            assert(next.ids[v] == id);
        }
    }

    /// A state over as many identifiers, with the same values under them,
    /// has a value for each identifier too.
    pub proof fn lemma_same_values(self, other: Self)
        requires
            self.wf(),
            other.ids == self.ids,
            other.parent.len() == self.parent.len(),
        ensures
            forall|id: int| is_node(other.parent, id) ==> #[trigger] other.has_value(id),
    {
        assert forall|id: int| is_node(other.parent, id) implies #[trigger] other.has_value(
            id,
        ) by {
            assert(self.has_value(id));
        }
    }

    /// `insert` keeps the state valid, issues the next identifier to an
    /// unseen value, and moves no value that was there.
    pub proof fn lemma_insert(self, value: T)
        requires
            self.wf(),
        ensures
            self.insert(value).wf(),
            self.insert(value).contains(value),
            !self.contains(value) ==> self.insert(value).ids[value] == self.size()
                && self.insert(value).root(value) == self.size()
                && self.insert(value).size() == self.size() + 1,
            forall|w: T| self.contains(w) ==> #[trigger] self.insert(value).contains(w),
            forall|w: T|
                #![trigger self.insert(value).ids[w]]
                self.contains(w) ==> self.insert(value).ids[w] == self.ids[w],
            forall|w: T|
                #![trigger self.insert(value).root(w)]
                self.contains(w) ==> self.insert(value).root(w) == self.root(w),
            forall|w: T|
                #![trigger self.insert(value).contains(w)]
                self.insert(value).contains(w) ==> self.contains(w) || w == value,
    {
        if !self.contains(value) {
            let next = self.insert(value);
            lemma_grown(self.parent);
            assert forall|id: int| is_node(next.parent, id) implies #[trigger] next.has_value(
                id,
            ) by {
                if id == self.parent.len() {
                    assert(next.ids.contains_key(value) && next.ids[value] == id);
                } else {
                    self.lemma_value_of(id);
                    let v = self.value_of(id);
                    assert(next.ids.contains_key(v) && next.ids[v] == id);
                }
            }
        }
    }

    /// A traversal keeps the state valid and every identifier in its class.
    pub proof fn lemma_compress(self, id: int)
        requires
            self.wf(),
        ensures
            self.compress(id).wf(),
            self.same_classes(self.compress(id)),
    {
        lemma_compressed(self.parent, id);
        self.lemma_same_values(self.compress(id));
    }

    /// `find` keeps the state valid and every value in its class.
    pub proof fn lemma_find(self, value: T)
        requires
            self.wf(),
        ensures
            self.find(value).wf(),
            self.same_classes(self.find(value)),
    {
        if self.contains(value) {
            self.lemma_compress(self.ids[value]);
        }
    }

    /// `insert` keeps what was there.
    pub proof fn lemma_insert_keeps(self, value: T)
        requires
            self.wf(),
        ensures
            self.kept_by(self.insert(value)),
    {
        self.lemma_insert(value);
        self.lemma_values_kept(self.insert(value));
        if !self.contains(value) {
            lemma_grown(self.parent);
        }
    }

    /// `find_or_insert` keeps the state valid, keeps what was there, and
    /// leaves the value inserted.
    pub proof fn lemma_find_or_insert(self, value: T)
        requires
            self.wf(),
        ensures
            self.find_or_insert(value).wf(),
            self.find_or_insert(value).contains(value),
            self.find_or_insert(value).ids == self.insert(value).ids,
            self.kept_by(self.find_or_insert(value)),
    {
        self.lemma_insert(value);
        self.lemma_insert_keeps(value);
        self.insert(value).lemma_find(value);
        self.lemma_values_kept(self.find_or_insert(value));
    }

    /// Uniting two roots keeps the state valid and merges exactly their two
    /// classes, under the root of the larger or, on a tie, under the first.
    pub proof fn lemma_link(self, a: int, b: int)
        requires
            self.wf(),
            is_root(self.parent, a),
            is_root(self.parent, b),
        ensures
            self.link(a, b).wf(),
            self.link(a, b).size() == self.size(),
            forall|x: int|
                self.issued(x) ==> #[trigger] root_of(self.link(a, b).parent, x) == linked_root(
                    self.parent,
                    a,
                    b,
                    x,
                ),
    {
        lemma_linked(self.parent, a, b);
        self.lemma_same_values(self.link(a, b));
    }

    /// Detaching an identifier keeps the state valid and leaves the
    /// identifier as the root of its own class.
    pub proof fn lemma_detach(self, id: int)
        requires
            self.wf(),
            self.issued(id),
        ensures
            self.detach(id).wf(),
            self.detach(id).size() == self.size(),
            root_of(self.detach(id).parent, id) == id,
            is_alone(self.detach(id).parent, id),
    {
        lemma_detached(self.parent, id);
        self.lemma_same_values(self.detach(id));
    }

    /// `split` keeps the state valid, leaves the value inserted and alone in
    /// a class named by its own identifier, and renumbers nothing.
    pub proof fn lemma_split(self, value: T)
        requires
            self.wf(),
        ensures
            self.split(value).wf(),
            self.split(value).ids == self.insert(value).ids,
            self.split(value).contains(value),
            self.split(value).root(value) == self.split(value).ids[value],
            is_alone(self.split(value).parent, self.split(value).ids[value]),
    {
        self.lemma_find_or_insert(value);
        let s = self.find_or_insert(value);
        s.lemma_detach(s.ids[value]);
    }

    /// `find_or_insert` leaves the classes that `insert` alone would leave.
    pub proof fn lemma_find_or_insert_classes(self, value: T)
        requires
            self.wf(),
        ensures
            self.insert(value).same_classes(self.find_or_insert(value)),
    {
        self.lemma_insert(value);
        self.insert(value).lemma_find(value);
    }

    /// Inserting the same value into states with the same classes gives
    /// states with the same classes.
    pub proof fn lemma_insert_same_classes(self, other: Self, value: T)
        requires
            self.wf(),
            other.wf(),
            self.same_classes(other),
        ensures
            self.insert(value).same_classes(other.insert(value)),
    {
        if !self.contains(value) {
            lemma_grown(self.parent);
            lemma_grown(other.parent);
        }
    }

    /// After `insert`, two values are connected if they were before, and
    /// the inserted value is connected to itself.
    pub proof fn lemma_insert_connected(self, value: T, x: T, y: T)
        requires
            self.wf(),
        ensures
            self.insert(value).connected(x, y) == (self.connected(x, y) || (x == value && y
                == value)),
    {
        if !self.contains(value) {
            lemma_grown(self.parent);
            if self.contains(x) {
                lemma_root_of(self.parent, self.ids[x]);
            }
            if self.contains(y) {
                lemma_root_of(self.parent, self.ids[y]);
            }
        }
    }

    /// After two roots are united, two values are connected if they were
    /// before or if each was in one of the two classes.
    pub proof fn lemma_link_connected(self, a: int, b: int, x: T, y: T)
        requires
            self.wf(),
            is_root(self.parent, a),
            is_root(self.parent, b),
        ensures
            self.link(a, b).connected(x, y) == (self.connected(x, y) || (self.contains(x)
                && self.contains(y) && (self.root(x) == a || self.root(x) == b) && (self.root(y)
                == a || self.root(y) == b))),
    {
        self.lemma_link(a, b);
    }

    /// After an identifier is detached, its value is connected to itself
    /// alone, and two other values are connected if they were before.
    pub proof fn lemma_detach_connected(self, id: int, x: T, y: T)
        requires
            self.wf(),
            self.issued(id),
        ensures
            self.detach(id).connected(x, y) == (self.contains(x) && self.contains(y)
                && if self.ids[x] == id || self.ids[y] == id {
                self.ids[x] == self.ids[y]
            } else {
                self.root(x) == self.root(y)
            }),
    {
        lemma_detached(self.parent, id);
        let q = detached(self.parent, id);
        if self.contains(x) && self.contains(y) {
            let i = self.ids[x];
            let j = self.ids[y];
            lemma_root_of(self.parent, i);
            lemma_root_of(self.parent, j);
            assert(class_of(q, id).contains(i) == (i == id));
            assert(class_of(q, id).contains(j) == (j == id));
            if !is_alone(self.parent, id) {
                lemma_heir(self.parent, id);
            }
        }
    }
}

} // verus!
