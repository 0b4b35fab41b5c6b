use disjoint_hash_set::DisjointHashSet;

#[test]
fn grouped_values_survive_a_split_and_a_rejoin() {
    let mut set = DisjointHashSet::new();
    set.insert_set(vec!["x", "y", "z"]);
    assert!(set.connected(&"x", &"z"));

    set.split("y");
    assert!(set.connected(&"x", &"z"));
    assert!(!set.connected(&"x", &"y"));

    set.split_into("y", "z");
    assert!(set.connected(&"y", &"z"));
    assert!(set.connected(&"x", &"y"));
}

#[test]
fn values_start_apart_and_union_joins_them() {
    let mut set = DisjointHashSet::with_values(vec!["a", "b"]);
    assert!(!set.connected(&"a", &"b"));
    set.union("a", "b");
    assert!(set.connected(&"a", &"b"));
}

#[test]
fn with_values_finds_every_value() {
    let mut set = DisjointHashSet::with_values(vec!["this", "that", "other"]);
    assert!(set.find(&"this").is_some());
    assert!(set.find(&"that").is_some());
    assert!(set.find(&"other").is_some());
}

#[test]
fn size_counts_inserted_values() {
    let mut set = DisjointHashSet::<&str>::new();
    assert_eq!(set.size(), 0);
    set.insert("this");
    assert_eq!(set.size(), 1);
}

#[test]
fn contains_sees_an_inserted_value() {
    let mut set = DisjointHashSet::<&str>::new();
    assert!(!set.contains(&"this"));
    set.insert("this");
    assert!(set.contains(&"this"));
}

#[test]
fn insert_set_connects_its_values() {
    let mut set = DisjointHashSet::<&str>::new();
    set.insert_set(vec!["this", "that"]);
    assert!(set.connected(&"this", &"that"));
}

#[test]
fn find_is_empty_until_the_value_is_inserted() {
    let mut set = DisjointHashSet::<&str>::new();
    assert!(set.find(&"this").is_none());
    set.insert("this");
    assert!(set.find(&"this").is_some());
}

#[test]
fn find_or_insert_gives_the_same_class_twice() {
    let mut set = DisjointHashSet::<&str>::new();
    let class = set.find_or_insert("this");
    assert_eq!(set.find_or_insert("this"), class);
}

#[test]
fn union_sets_joins_two_classes_by_identifier() {
    let mut set = DisjointHashSet::<&str>::new();
    let first = set.find_or_insert("this");
    let second = set.find_or_insert("that");
    set.union_sets(first, second);
    assert!(set.connected(&"this", &"that"));
}

#[test]
fn split_separates_a_value_from_its_class() {
    let mut set = DisjointHashSet::<&str>::new();
    set.insert_set(vec!["this", "that"]);
    set.split("this");
    assert!(!set.connected(&"this", &"that"));
}

#[test]
fn split_into_moves_a_value_to_another_class() {
    let mut set = DisjointHashSet::<&str>::new();
    set.insert_set(vec!["this", "that"]);
    set.insert("other");
    set.split_into("this", "other");
    assert!(!set.connected(&"this", &"that"));
    assert!(set.connected(&"this", &"other"));
}

#[test]
fn split_into_set_moves_a_value_to_the_class_of_an_identifier() {
    let mut set = DisjointHashSet::<&str>::new();
    set.insert_set(vec!["this", "that"]);
    let class = set.find_or_insert("other");
    set.split_into_set("this", class);
    assert!(!set.connected(&"this", &"that"));
    assert!(set.connected(&"this", &"other"));
}

#[test]
fn a_class_is_whole_again_after_split_and_split_into() {
    let mut set = DisjointHashSet::new();
    set.insert_set(vec!["a", "b", "c"]);
    set.split("b");
    set.split_into("b", "a");
    assert!(set.connected(&"a", &"b"));
    assert!(set.connected(&"b", &"c"));
    assert!(set.connected(&"a", &"c"));
    assert_eq!(set.size(), 3);
}
