use disjoint_hash_set::{DisjointHashSet, Id};

fn name(id: Option<Id>) -> String {
    format!("{:?}", id)
}

#[test]
fn identifiers_are_issued_in_order_of_first_insertion() {
    let mut set = DisjointHashSet::new();
    set.insert("a");
    set.insert("b");
    set.insert("a");
    set.insert("c");
    assert_eq!(name(set.find(&"a")), "Some(Id(0))");
    assert_eq!(name(set.find(&"b")), "Some(Id(1))");
    assert_eq!(name(set.find(&"c")), "Some(Id(2))");
    assert_eq!(format!("{:?}", set.find_or_insert("d")), "Id(3)");
    assert_eq!(format!("{:?}", set.find_or_insert("b")), "Id(1)");
}

#[test]
fn union_of_equal_classes_keeps_the_first_root() {
    let mut set = DisjointHashSet::new();
    set.union("a", "b");
    assert_eq!(name(set.find(&"a")), "Some(Id(0))");
    assert_eq!(name(set.find(&"b")), "Some(Id(0))");

    let mut other = DisjointHashSet::with_values(vec!["a", "b"]);
    other.union("b", "a");
    assert_eq!(name(other.find(&"a")), "Some(Id(1))");
    assert_eq!(name(other.find(&"b")), "Some(Id(1))");
}

#[test]
fn union_keeps_the_root_of_the_larger_class() {
    let mut set = DisjointHashSet::new();
    set.union("a", "b");
    set.union("c", "a");
    assert_eq!(name(set.find(&"c")), "Some(Id(0))");
    set.union("a", "d");
    assert_eq!(name(set.find(&"d")), "Some(Id(0))");

    let mut pair = DisjointHashSet::with_values(vec![0, 1, 2, 3, 4]);
    pair.union(3, 4);
    pair.union(0, 3);
    assert_eq!(name(pair.find(&0)), "Some(Id(3))");
    pair.union(1, 2);
    pair.union(1, 0);
    assert_eq!(name(pair.find(&1)), "Some(Id(3))");
    assert_eq!(name(pair.find(&2)), "Some(Id(3))");
}

#[test]
fn union_sets_names_the_class_as_union_does() {
    let mut set = DisjointHashSet::with_values(vec![0, 1, 2]);
    let zero = set.find(&0).unwrap();
    let one = set.find(&1).unwrap();
    let two = set.find(&2).unwrap();
    set.union_sets(one, zero);
    assert_eq!(set.find(&0), Some(one));
    set.union_sets(two, zero);
    assert_eq!(set.find(&2), Some(one));
}

#[test]
fn split_of_a_root_promotes_its_first_child() {
    let mut set = DisjointHashSet::new();
    set.union("a", "b");
    set.union("a", "c");
    set.union("a", "d");
    set.split("a");
    assert_eq!(name(set.find(&"a")), "Some(Id(0))");
    assert_eq!(name(set.find(&"b")), "Some(Id(1))");
    assert_eq!(name(set.find(&"c")), "Some(Id(1))");
    assert_eq!(name(set.find(&"d")), "Some(Id(1))");
    assert!(set.connected(&"b", &"d"));
    assert!(!set.connected(&"a", &"b"));
}

#[test]
fn split_of_an_inner_value_keeps_the_root_and_the_values_below() {
    let mut set = DisjointHashSet::new();
    set.union("a", "b");
    set.union("c", "d");
    set.union("c", "a");
    // "a" now hangs under "c" and carries "b".
    set.split("a");
    assert_eq!(name(set.find(&"a")), "Some(Id(0))");
    assert_eq!(name(set.find(&"b")), "Some(Id(2))");
    assert_eq!(name(set.find(&"c")), "Some(Id(2))");
    assert_eq!(name(set.find(&"d")), "Some(Id(2))");
    assert!(set.connected(&"b", &"d"));
}

#[test]
fn split_of_a_leaf_keeps_the_root() {
    let mut set = DisjointHashSet::new();
    set.insert_set(vec!["x", "y", "z"]);
    set.split("z");
    assert_eq!(name(set.find(&"x")), "Some(Id(0))");
    assert_eq!(name(set.find(&"y")), "Some(Id(0))");
    assert_eq!(name(set.find(&"z")), "Some(Id(2))");
}

#[test]
fn sizes_stay_right_after_a_split() {
    // After "a" leaves, its old class holds two values and loses the tie
    // against nothing: it is smaller than a class of three.
    let mut set = DisjointHashSet::new();
    set.insert_set(vec!["a", "b", "c"]);
    set.insert_set(vec!["p", "q", "r"]);
    set.split("a");
    set.union("b", "p");
    assert_eq!(name(set.find(&"b")), "Some(Id(3))");
    assert_eq!(name(set.find(&"c")), "Some(Id(3))");

    // A split-off value counts as one: it goes under any class of two.
    let mut other = DisjointHashSet::new();
    other.insert_set(vec!["a", "b", "c"]);
    other.split("a");
    other.union("a", "b");
    assert_eq!(name(other.find(&"a")), "Some(Id(1))");
}

#[test]
fn a_value_keeps_its_identifier_through_splits_and_unions() {
    let mut set = DisjointHashSet::new();
    set.insert_set(vec!["a", "b", "c"]);
    set.split("b");
    assert_eq!(name(set.find(&"b")), "Some(Id(1))");
    set.union("b", "z");
    set.split("b");
    assert_eq!(name(set.find(&"b")), "Some(Id(1))");
    set.split_into("b", "a");
    set.split("b");
    assert_eq!(name(set.find(&"b")), "Some(Id(1))");
    assert_eq!(name(set.find(&"z")), "Some(Id(3))");
    assert_eq!(set.size(), 4);
}

#[test]
fn insert_set_names_the_class_by_size() {
    let mut set = DisjointHashSet::new();
    set.insert_set(vec!["x", "y", "z"]);
    assert_eq!(name(set.find(&"z")), "Some(Id(0))");

    let mut other = DisjointHashSet::new();
    other.union("p", "q");
    other.union("p", "r");
    other.insert_set(vec!["n", "q", "m"]);
    assert_eq!(name(other.find(&"n")), "Some(Id(0))");
    assert_eq!(name(other.find(&"m")), "Some(Id(0))");
}

#[test]
fn paths_get_shorter_without_changing_the_class() {
    let mut set = DisjointHashSet::with_values(vec![0, 1, 2, 3, 4, 5, 6, 7]);
    set.union(1, 0);
    set.union(3, 2);
    set.union(5, 4);
    set.union(7, 6);
    set.union(3, 1);
    set.union(7, 5);
    set.union(7, 3);
    for _ in 0..3 {
        for value in 0..8 {
            assert_eq!(name(set.find(&value)), "Some(Id(7))");
        }
    }
}

#[test]
fn identifiers_compare_and_copy() {
    let mut set = DisjointHashSet::with_values(vec!["a", "b"]);
    let a = set.find(&"a").unwrap();
    let b = set.find(&"b").unwrap();
    let again = a;
    assert_eq!(a, again);
    assert_ne!(a, b);
    assert_eq!(a.clone(), a);
}
