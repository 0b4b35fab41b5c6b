//! What the operations guarantee: which values are connected after each,
//! which values and identifiers there are, and which identifier names a
//! class.
//!
//! Each law is proved of the abstract states in [`crate::partition`], which
//! the container follows step for step, so each holds of the container at any
//! point of any run.

use crate::forest::{
    heir, is_alone, is_root, lemma_class_has, lemma_compressed_at_root, lemma_detached,
    lemma_linked_same_roots, lemma_root_of, root_of, winner,
};
use crate::partition::Partition;
use vstd::prelude::*;

verus! {

/// Being connected is an equivalence on the inserted values: every inserted
/// value is connected to itself, and connection is symmetric and transitive.
pub proof fn law_connected_is_equivalence<T>(s: Partition<T>, a: T, b: T, c: T)
    ensures
        s.contains(a) ==> s.connected(a, a),
        s.connected(a, b) ==> s.connected(b, a),
        s.connected(a, b) && s.connected(b, c) ==> s.connected(a, c),
{
}

/// Looking up values connects nothing and separates nothing.
pub proof fn law_lookup_keeps_classes<T>(s: Partition<T>, a: T, b: T, x: T, y: T)
    requires
        s.wf(),
    ensures
        s.find(a).connected(x, y) == s.connected(x, y),
        s.observe(a, b).connected(x, y) == s.connected(x, y),
{
    s.lemma_find(a);
    s.find(a).lemma_find(b);
}

/// No operation forgets a value or gives it another identifier, and every
/// operation leaves the values it was given inserted: once a value is in, it
/// is in for good, and a lookup finds it. (For `insert_set` this is
/// [`law_insert_set_keeps_values`]; `union_sets` and `split_into_set` are
/// `union` and `split_into` by [`law_union_sets_is_union`] and
/// [`law_split_into_set_is_split_into`].)
pub proof fn law_values_stay<T>(s: Partition<T>, a: T, b: T)
    requires
        s.wf(),
    ensures
        s.ids_kept_by(s.insert(a)) && s.insert(a).contains(a),
        s.ids_kept_by(s.find(a)) && s.find(a).ids == s.ids,
        s.ids_kept_by(s.observe(a, b)) && s.observe(a, b).ids == s.ids,
        s.ids_kept_by(s.find_or_insert(a)) && s.find_or_insert(a).ids == s.insert(a).ids,
        s.ids_kept_by(s.union(a, b)) && s.union(a, b).ids == s.insert(a).insert(b).ids,
        s.union(a, b).contains(a) && s.union(a, b).contains(b),
        s.ids_kept_by(s.split(a)) && s.split(a).ids == s.insert(a).ids,
        s.ids_kept_by(s.split_into(a, b)) && s.split_into(a, b).ids == s.insert(a).insert(b).ids,
        s.split_into(a, b).contains(a) && s.split_into(a, b).contains(b),
{
    s.lemma_insert(a);
    s.lemma_find(a);
    s.find(a).lemma_find(b);
    s.lemma_find_or_insert(a);
    lemma_union_classes(s, a, b);
    s.lemma_split(a);
    law_split_into_is_split_then_union(s, a, b);
    lemma_union_classes(s.split(a), a, b);
    s.lemma_values_kept(s.insert(a));
    s.lemma_values_kept(s.union(a, b));
    s.lemma_values_kept(s.split(a));
    s.lemma_values_kept(s.split_into(a, b));
}

/// The identifier that a lookup returns stands for a value of the class:
/// the value at the root.
pub proof fn law_root_is_in_class<T>(s: Partition<T>, a: T)
    requires
        s.wf(),
        s.contains(a),
    ensures
        s.issued(s.root(a)),
        is_root(s.parent, s.root(a)),
        s.near(a, s.value_of(s.root(a))),
{
    lemma_root_of(s.parent, s.ids[a]);
    s.lemma_value_of(s.root(a));
}

/// An inserted value is connected to itself, and inserting it changes no
/// other connection. It makes no difference whether the value is also looked
/// up.
pub proof fn law_insert<T>(s: Partition<T>, value: T, x: T, y: T)
    requires
        s.wf(),
    ensures
        s.insert(value).connected(x, y) == (s.connected(x, y) || (x == value && y == value)),
        s.find_or_insert(value).connected(x, y) == s.insert(value).connected(x, y),
{
    s.lemma_insert_connected(value, x, y);
    s.lemma_find_or_insert_classes(value);
}

/// Inserting values one after another keeps the state valid and every value
/// that was there under its identifier.
pub proof fn law_insert_all_keeps_values<T>(s: Partition<T>, values: Seq<T>)
    requires
        s.wf(),
    ensures
        s.insert_all(values).wf(),
        s.ids_kept_by(s.insert_all(values)),
    decreases values.len(),
{
    if values.len() > 0 {
        law_insert_all_keeps_values(s, values.drop_last());
        s.insert_all(values.drop_last()).lemma_insert(values.last());
    }
    s.lemma_values_kept(s.insert_all(values));
}

/// Inserting values one after another leaves each of the values inserted and
/// connected to itself, and changes no other connection.
pub proof fn law_insert_all<T>(s: Partition<T>, values: Seq<T>, x: T, y: T)
    requires
        s.wf(),
    ensures
        s.insert_all(values).contains(x) == (s.contains(x) || values.contains(x)),
        s.insert_all(values).connected(x, y) == (s.connected(x, y) || (x == y && values.contains(
            x,
        ))),
    decreases values.len(),
{
    if values.len() > 0 {
        let front = values.drop_last();
        let t = s.insert_all(front);
        law_insert_all(s, front, x, y);
        law_insert_all_keeps_values(s, front);
        t.lemma_insert_connected(values.last(), x, y);
        assert(values.contains(x) == (front.contains(x) || x == values.last())) by {
            if front.contains(x) {
                let i = choose|i: int| 0 <= i < front.len() && front[i] == x;
                assert(values[i] == x);
            }
            if values.contains(x) {
                let i = choose|i: int| 0 <= i < values.len() && values[i] == x;
                if i < values.len() - 1 {
                    assert(front[i] == x);
                }
            }
        }
    }
}

/// `with_values` holds exactly the listed values, each in a class of its
/// own, so no two different values are connected.
pub proof fn law_with_values<T>(values: Seq<T>, x: T, y: T)
    ensures
        Partition::with_values(values).wf(),
        Partition::with_values(values).contains(x) == values.contains(x),
        Partition::with_values(values).connected(x, y) == (x == y && values.contains(x)),
{
    Partition::<T>::lemma_empty();
    law_insert_all_keeps_values(Partition::<T>::empty(), values);
    law_insert_all(Partition::<T>::empty(), values, x, y);
}

/// `union` has the classes of inserting both values and then uniting the two
/// roots.
proof fn lemma_union_classes<T>(s: Partition<T>, a: T, b: T)
    requires
        s.wf(),
    ensures
        ({
            let t = s.insert(a).insert(b);
            &&& t.wf()
            &&& is_root(t.parent, t.root(a))
            &&& is_root(t.parent, t.root(b))
            &&& t.link(t.root(a), t.root(b)).same_classes(s.union(a, b))
            &&& s.union(a, b).wf()
        }),
{
    let t = s.insert(a).insert(b);
    let s1 = s.find_or_insert(a);
    let s2 = s1.find_or_insert(b);
    s.lemma_insert(a);
    s.insert(a).lemma_insert(b);
    s.lemma_find_or_insert(a);
    s1.lemma_find_or_insert(b);
    s.lemma_find_or_insert_classes(a);
    s1.lemma_find_or_insert_classes(b);
    s.insert(a).lemma_insert_same_classes(s1, b);
    lemma_root_of(t.parent, t.ids[a]);
    lemma_root_of(t.parent, t.ids[b]);
    s2.lemma_link(t.root(a), t.root(b));
    lemma_linked_same_roots(t.parent, s2.parent, t.root(a), t.root(b));
}

/// After two inserts, two values are connected if they were before or if they
/// are one value, and that one of the two inserted.
proof fn lemma_inserted_two<T>(s: Partition<T>, a: T, b: T, x: T, y: T)
    requires
        s.wf(),
    ensures
        s.insert(a).insert(b).connected(x, y) == (s.connected(x, y) || (x == y && (x == a || x
            == b))),
{
    s.lemma_insert(a);
    s.lemma_insert_connected(a, x, y);
    s.insert(a).lemma_insert_connected(b, x, y);
}

/// `union` inserts both values and merges exactly their two classes: after
/// it two values are connected if they were before, or if each is one of the
/// two or was connected to one of the two.
pub proof fn law_union<T>(s: Partition<T>, a: T, b: T, x: T, y: T)
    requires
        s.wf(),
    ensures
        s.union(a, b).connected(x, y) == (s.connected(x, y) || ((s.near(a, x) || s.near(b, x)) && (
        s.near(a, y) || s.near(b, y)))),
{
    let t = s.insert(a).insert(b);
    lemma_union_classes(s, a, b);
    t.lemma_link_connected(t.root(a), t.root(b), x, y);
    lemma_inserted_two(s, a, b, x, y);
    lemma_inserted_two(s, a, b, x, a);
    lemma_inserted_two(s, a, b, x, b);
    lemma_inserted_two(s, a, b, y, a);
    lemma_inserted_two(s, a, b, y, b);
}

/// After `union` the two values are connected.
pub proof fn law_union_connects<T>(s: Partition<T>, a: T, b: T)
    requires
        s.wf(),
    ensures
        s.union(a, b).connected(a, b),
{
    law_union(s, a, b, a, b);
}

/// Repeating a `union` changes no class: every value keeps its identifier
/// and every identifier its root.
pub proof fn law_union_idempotent<T>(s: Partition<T>, a: T, b: T)
    requires
        s.wf(),
    ensures
        s.union(a, b).same_classes(s.union(a, b).union(a, b)),
{
    let u = s.union(a, b);
    lemma_union_classes(s, a, b);
    law_union_connects(s, a, b);
    lemma_union_classes(u, a, b);
}

/// `union` names the merged class by size: it keeps the root of the larger
/// of the two classes and, where they are equally large, the root of the
/// first value. Every other class keeps its root.
pub proof fn law_union_by_size<T>(s: Partition<T>, a: T, b: T, x: T)
    requires
        s.wf(),
    ensures
        ({
            let t = s.insert(a).insert(b);
            let u = s.union(a, b);
            &&& u.root(a) == winner(t.parent, t.root(a), t.root(b))
            &&& t.contains(x) && !u.connected(x, a) ==> u.root(x) == t.root(x)
        }),
{
    let t = s.insert(a).insert(b);
    lemma_union_classes(s, a, b);
    t.lemma_link(t.root(a), t.root(b));
}

/// An identifier stands for the value it was issued to: `union_sets` is
/// `union` of the two values. The two leave the same state.
pub proof fn law_union_sets_is_union<T>(s: Partition<T>, id: int, other: int)
    requires
        s.wf(),
        s.issued(id),
        s.issued(other),
    ensures
        s.union_sets(id, other) == s.union(s.value_of(id), s.value_of(other)),
{
    s.lemma_value_of(id);
    s.lemma_value_of(other);
}

/// Both halves of what `split` does, in one: after it the value is connected
/// to itself alone, and two other values are connected if they were before.
pub proof fn law_split<T>(s: Partition<T>, a: T, x: T, y: T)
    requires
        s.wf(),
    ensures
        s.split(a).connected(x, y) == if x == a || y == a {
            x == y
        } else {
            s.connected(x, y)
        },
{
    let t = s.find_or_insert(a);
    s.lemma_find_or_insert(a);
    t.lemma_detach_connected(t.ids[a], x, y);
}

/// `split` leaves the value connected to itself and to nothing else.
pub proof fn law_split_isolates<T>(s: Partition<T>, a: T, x: T)
    requires
        s.wf(),
    ensures
        s.split(a).connected(a, a),
        x != a ==> !s.split(a).connected(a, x) && !s.split(a).connected(x, a),
{
    law_split(s, a, x, a);
}

/// `split` changes no connection between two other values: what is left of
/// the class stays together, and every other class is as it was.
pub proof fn law_split_keeps_others<T>(s: Partition<T>, a: T, x: T, y: T)
    requires
        s.wf(),
        x != a,
        y != a,
    ensures
        s.split(a).connected(x, y) == s.connected(x, y),
{
    law_split(s, a, x, y);
}

/// Splitting a value that is alone in its class changes nothing, so `split`
/// is idempotent.
pub proof fn law_split_idempotent<T>(s: Partition<T>, a: T)
    requires
        s.wf(),
    ensures
        s.contains(a) && is_alone(s.parent, s.ids[a]) ==> s.split(a) == s,
        s.split(a).split(a) == s.split(a),
{
    if s.contains(a) && is_alone(s.parent, s.ids[a]) {
        lemma_detached(s.parent, s.ids[a]);
        lemma_root_of(s.parent, s.ids[a]);
        lemma_compressed_at_root(s.parent, s.ids[a]);
    }
    let t = s.split(a);
    s.lemma_split(a);
    lemma_root_of(t.parent, t.ids[a]);
    lemma_compressed_at_root(t.parent, t.ids[a]);
}

/// `split` names the classes it leaves: the value's own identifier names
/// its class of one, and what is left of its old class is named by the old
/// root or, where the value was that root, by the first of its children.
pub proof fn law_split_names_classes<T>(s: Partition<T>, a: T, x: T)
    requires
        s.wf(),
        s.contains(a),
    ensures
        s.split(a).ids == s.ids,
        s.split(a).root(a) == s.ids[a],
        x != a && s.connected(x, a) ==> s.split(a).root(x) == heir(s.parent, s.ids[a]),
        s.contains(x) && !s.connected(x, a) ==> s.split(a).root(x) == s.root(x),
{
    let id = s.ids[a];
    let t = s.find(a);
    s.lemma_find(a);
    lemma_detached(t.parent, id);
    if s.contains(x) && x != a {
        let i = s.ids[x];
        if s.connected(x, a) {
            lemma_class_has(t.parent, root_of(t.parent, id), id, i);
            if s.parent[id] == id {
                lemma_compressed_at_root(s.parent, id);
            }
        }
    }
}

/// `split_into` is `split` followed by `union`: the two leave the same
/// state.
pub proof fn law_split_into_is_split_then_union<T>(s: Partition<T>, a: T, c: T)
    requires
        s.wf(),
    ensures
        s.split_into(a, c) == s.split(a).union(a, c),
{
    let t = s.split(a);
    s.lemma_split(a);
    lemma_root_of(t.parent, t.ids[a]);
    lemma_compressed_at_root(t.parent, t.ids[a]);
}

/// `split_into` takes the value out of its class and merges it with the
/// class of `into`, and with that class alone: after it two values are
/// connected if they were once the value was out, or if each is one of the
/// two or was then connected to `into`.
pub proof fn law_split_into<T>(s: Partition<T>, a: T, c: T, x: T, y: T)
    requires
        s.wf(),
    ensures
        ({
            let t = s.split(a);
            s.split_into(a, c).connected(x, y) == (t.connected(x, y) || ((x == a || t.near(c, x))
                && (y == a || t.near(c, y))))
        }),
{
    law_split(s, a, x, a);
    law_split(s, a, y, a);
    s.lemma_split(a);
    law_split_into_is_split_then_union(s, a, c);
    law_union(s.split(a), a, c, x, y);
}

/// An identifier stands for the value it was issued to: `split_into_set`
/// is `split_into` with that value. The two leave the same state.
pub proof fn law_split_into_set_is_split_into<T>(s: Partition<T>, a: T, into: int)
    requires
        s.wf(),
        s.issued(into),
    ensures
        s.split_into_set(a, into) == s.split_into(a, s.value_of(into)),
{
    s.lemma_value_of(into);
}

/// Taking a value out of a class and putting it back next to a value that
/// stayed restores every connection.
pub proof fn law_split_then_rejoin<T>(s: Partition<T>, a: T, b: T, x: T, y: T)
    requires
        s.wf(),
        s.connected(a, b),
        a != b,
    ensures
        s.split(b).split_into(b, a).connected(x, y) == s.connected(x, y),
{
    let s1 = s.split(b);
    s.lemma_split(b);
    let s2 = s1.split(b);
    law_split_idempotent(s, b);
    law_split_into_is_split_then_union(s1, b, a);
    law_union(s2, b, a, x, y);
    law_split(s, b, x, y);
    law_split(s, b, x, b);
    law_split(s, b, x, a);
    law_split(s, b, y, b);
    law_split(s, b, y, a);
}

/// Inserting a list of values is inserting the first and then the rest.
proof fn lemma_insert_all_first<T>(s: Partition<T>, values: Seq<T>)
    requires
        values.len() > 0,
    ensures
        s.insert_all(values) == s.insert(values.first()).insert_all(values.drop_first()),
    decreases values.len(),
{
    if values.len() == 1 {
        assert(s.insert_all(values.drop_last()) == s);
    } else {
        lemma_insert_all_first(s, values.drop_last());
        assert(values.drop_last().drop_first() =~= values.drop_first().drop_last());
    }
}

/// Near one of a list with one more value is near one of the list or near
/// that value.
proof fn lemma_near_any_push<T>(s: Partition<T>, values: Seq<T>, value: T, x: T)
    ensures
        s.near_any(values.push(value), x) == (s.near_any(values, x) || s.near(value, x)),
{
    let more = values.push(value);
    if s.near_any(more, x) {
        let i = choose|i: int| 0 <= i < more.len() && s.near(#[trigger] more[i], x);
        if i < values.len() {
            assert(s.near(values[i], x));
        }
    }
    if s.near_any(values, x) {
        let i = choose|i: int| 0 <= i < values.len() && s.near(#[trigger] values[i], x);
        assert(s.near(more[i], x));
    }
    if s.near(value, x) {
        assert(s.near(more[values.len() as int], x));
    }
}

/// Where `insert_set` stands once it has taken `first` and then `rest`: it
/// holds the values that plain inserts would have left, its anchor is in the
/// class of `first`, and two values are connected if they were before or if
/// each is near a listed value.
proof fn lemma_gather_connected<T>(s: Partition<T>, first: T, rest: Seq<T>)
    requires
        s.wf(),
    ensures
        ({
            let g = s.gather(first, rest);
            let anchor = s.gather_anchor(first, rest);
            let listed = seq![first] + rest;
            &&& g.wf()
            &&& g.ids == s.insert(first).insert_all(rest).ids
            &&& g.contains(first)
            &&& g.issued(anchor)
            &&& root_of(g.parent, anchor) == g.root(first)
            &&& forall|x: T, y: T|
                #![trigger g.connected(x, y)]
                g.connected(x, y) == (s.connected(x, y) || (s.near_any(listed, x) && s.near_any(
                    listed,
                    y,
                )))
        }),
    decreases rest.len(),
{
    let g = s.gather(first, rest);
    let listed = seq![first] + rest;
    s.lemma_insert(first);
    if rest.len() == 0 {
        s.lemma_find_or_insert(first);
        lemma_root_of(g.parent, g.ids[first]);
        assert forall|x: T, y: T| #![trigger g.connected(x, y)] g.connected(x, y) == (s.connected(
            x,
            y,
        ) || (s.near_any(listed, x) && s.near_any(listed, y))) by {
            s.lemma_insert_connected(first, x, y);
            lemma_near_any_push(s, Seq::empty(), first, y);
        }
    } else {
        let front = rest.drop_last();
        let value = rest.last();
        let g0 = s.gather(first, front);
        let anchor = s.gather_anchor(first, front);
        let shorter = seq![first] + front;
        lemma_gather_connected(s, first, front);
        assert(listed =~= shorter.push(value));
        // The state in which the two roots are united, and a plain insert beside it.
        let s1 = g0.find_or_insert(value);
        let s2 = s1.compress(anchor);
        law_insert_all_keeps_values(s.insert(first), front);
        g0.lemma_find_or_insert(value);
        g0.lemma_find_or_insert_classes(value);
        s1.lemma_compress(anchor);
        let a = root_of(s2.parent, anchor);
        let b = s2.root(value);
        lemma_root_of(s2.parent, s2.ids[value]);
        lemma_root_of(s1.parent, anchor);
        s2.lemma_link(a, b);
        assert(s.near_any(shorter, first)) by {
            assert(s.near(shorter[0], first));
        }
        assert forall|x: T, y: T| #![trigger g.connected(x, y)] g.connected(x, y) == (s.connected(
            x,
            y,
        ) || (s.near_any(listed, x) && s.near_any(listed, y))) by {
            g0.lemma_insert_connected(value, x, y);
            g0.lemma_insert_connected(value, x, value);
            g0.lemma_insert_connected(value, y, value);
            lemma_near_any_push(s, shorter, value, x);
            lemma_near_any_push(s, shorter, value, y);
            assert(g0.connected(x, first) == s.near_any(shorter, x));
            assert(g0.connected(y, first) == s.near_any(shorter, y));
        }
    }
}

/// `insert_set` keeps the state valid and holds the values, under the
/// identifiers, that inserting the listed values one after another would
/// have left.
pub proof fn law_insert_set_keeps_values<T>(s: Partition<T>, values: Seq<T>)
    requires
        s.wf(),
    ensures
        s.insert_set(values).wf(),
        s.insert_set(values).ids == s.insert_all(values).ids,
        s.ids_kept_by(s.insert_set(values)),
        forall|k: int| 0 <= k < values.len() ==> s.insert_set(values).contains(#[trigger] values[k]),
{
    law_insert_all_keeps_values(s, values);
    if values.len() > 0 {
        lemma_insert_all_first(s, values);
        lemma_gather_connected(s, values.first(), values.drop_first());
    }
    s.lemma_values_kept(s.insert_set(values));
    assert forall|k: int| 0 <= k < values.len() implies s.insert_set(values).contains(
        #[trigger] values[k],
    ) by {
        law_insert_all(s, values, values[k], values[k]);
    }
}

/// `insert_set` makes one class of the listed values and of the classes they
/// were in: after it two values are connected if they were before, or if each
/// is listed or was connected to a listed value.
pub proof fn law_insert_set<T>(s: Partition<T>, values: Seq<T>, x: T, y: T)
    requires
        s.wf(),
    ensures
        s.insert_set(values).connected(x, y) == (s.connected(x, y) || (s.near_any(values, x)
            && s.near_any(values, y))),
{
    if values.len() > 0 {
        lemma_gather_connected(s, values.first(), values.drop_first());
        assert(seq![values.first()] + values.drop_first() =~= values);
    }
}

/// After `insert_set` any two of the listed values are connected.
pub proof fn law_insert_set_connects<T>(s: Partition<T>, values: Seq<T>, i: int, j: int)
    requires
        s.wf(),
        0 <= i < values.len(),
        0 <= j < values.len(),
    ensures
        s.insert_set(values).connected(values[i], values[j]),
{
    law_insert_set(s, values, values[i], values[j]);
}

} // verus!
