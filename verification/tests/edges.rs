use disjoint_hash_set::DisjointHashSet;

#[test]
fn new_and_with_capacity_are_empty() {
    let plain = DisjointHashSet::<u32>::new();
    assert_eq!(plain.size(), 0);
    assert!(!plain.contains(&0));

    let none = DisjointHashSet::<u32>::with_capacity(0);
    assert_eq!(none.size(), 0);

    let mut roomy = DisjointHashSet::<u32>::with_capacity(64);
    assert_eq!(roomy.size(), 0);
    assert!(roomy.find(&7).is_none());
}

#[test]
fn insert_tells_whether_the_value_is_new() {
    let mut set = DisjointHashSet::new();
    assert!(set.insert("a"));
    assert!(set.insert("b"));
    assert!(!set.insert("a"));
    assert!(!set.insert("b"));
    assert!(set.insert("c"));
    assert!(!set.insert("a"));
    assert_eq!(set.size(), 3);
}

#[test]
fn insert_leaves_a_known_value_in_its_class() {
    let mut set = DisjointHashSet::new();
    set.union("a", "b");
    assert!(!set.insert("a"));
    assert!(set.connected(&"a", &"b"));
    assert_eq!(set.size(), 2);
}

#[test]
fn with_values_takes_a_repeated_value_once() {
    let mut set = DisjointHashSet::with_values(vec!["a", "b", "a", "c", "b"]);
    assert_eq!(set.size(), 3);
    assert!(set.contains(&"a"));
    assert!(set.contains(&"b"));
    assert!(set.contains(&"c"));
    assert!(!set.connected(&"a", &"b"));
    assert!(!set.connected(&"a", &"c"));
    assert!(!set.connected(&"b", &"c"));
    assert!(set.connected(&"a", &"a"));
    assert_eq!(format!("{:?}", set.find(&"a")), "Some(Id(0))");
    assert_eq!(format!("{:?}", set.find(&"b")), "Some(Id(1))");
    assert_eq!(format!("{:?}", set.find(&"c")), "Some(Id(2))");
}

#[test]
fn with_values_of_nothing_is_empty() {
    let set = DisjointHashSet::<String>::with_values(Vec::new());
    assert_eq!(set.size(), 0);
}

#[test]
fn connected_inserts_nothing_and_is_false_for_unknown_values() {
    let mut set = DisjointHashSet::new();
    set.insert("a");
    assert!(!set.connected(&"a", &"ghost"));
    assert!(!set.connected(&"ghost", &"a"));
    assert!(!set.connected(&"ghost", &"phantom"));
    assert!(!set.connected(&"ghost", &"ghost"));
    assert!(!set.contains(&"ghost"));
    assert!(!set.contains(&"phantom"));
    assert_eq!(set.size(), 1);
}

#[test]
fn find_inserts_nothing() {
    let mut set = DisjointHashSet::<u8>::new();
    assert!(set.find(&1).is_none());
    assert!(!set.contains(&1));
    assert_eq!(set.size(), 0);
}

#[test]
fn insert_set_of_nothing_changes_nothing() {
    let mut set = DisjointHashSet::new();
    set.union(1, 2);
    set.insert_set(Vec::new());
    assert_eq!(set.size(), 2);
    assert!(set.connected(&1, &2));
}

#[test]
fn insert_set_of_one_value_inserts_it_alone() {
    let mut set = DisjointHashSet::new();
    set.insert(1);
    set.insert_set(vec![2]);
    assert_eq!(set.size(), 2);
    assert!(set.contains(&2));
    assert!(!set.connected(&1, &2));
}

#[test]
fn insert_set_of_one_known_value_keeps_its_class() {
    let mut set = DisjointHashSet::new();
    set.union(1, 2);
    set.insert_set(vec![2]);
    assert_eq!(set.size(), 2);
    assert!(set.connected(&1, &2));
}

#[test]
fn insert_set_unites_the_classes_its_values_were_in() {
    let mut set = DisjointHashSet::new();
    set.union("p", "q");
    set.union("p", "r");
    set.union("s", "t");
    set.insert("u");
    set.insert_set(vec!["n", "q", "t", "n"]);
    for a in ["n", "p", "q", "r", "s", "t"] {
        for b in ["n", "p", "q", "r", "s", "t"] {
            assert!(set.connected(&a, &b), "{} {}", a, b);
        }
        assert!(!set.connected(&a, &"u"));
    }
    assert_eq!(set.size(), 7);
}

#[test]
fn split_of_a_lone_value_changes_nothing() {
    let mut set = DisjointHashSet::new();
    set.union("a", "b");
    set.insert("c");
    let before = set.find(&"c");
    set.split("c");
    set.split("c");
    assert_eq!(set.find(&"c"), before);
    assert_eq!(set.size(), 3);
    assert!(set.connected(&"a", &"b"));
    assert!(!set.connected(&"a", &"c"));
}

#[test]
fn split_inserts_an_unknown_value() {
    let mut set = DisjointHashSet::new();
    set.union("a", "b");
    set.split("c");
    assert!(set.contains(&"c"));
    assert_eq!(set.size(), 3);
    assert!(set.connected(&"c", &"c"));
    assert!(!set.connected(&"a", &"c"));
    assert!(set.connected(&"a", &"b"));
}

#[test]
fn split_twice_is_split_once() {
    let mut set = DisjointHashSet::new();
    set.insert_set(vec![1, 2, 3]);
    set.split(2);
    let one = (set.find(&1), set.find(&2), set.find(&3));
    set.split(2);
    assert_eq!((set.find(&1), set.find(&2), set.find(&3)), one);
}

#[test]
fn split_into_itself_leaves_the_value_alone() {
    let mut set = DisjointHashSet::new();
    set.insert_set(vec![1, 2, 3]);
    set.split_into(2, 2);
    assert!(!set.connected(&1, &2));
    assert!(!set.connected(&2, &3));
    assert!(set.connected(&1, &3));
    assert!(set.connected(&2, &2));
}

#[test]
fn split_into_inserts_both_values() {
    let mut set = DisjointHashSet::new();
    set.split_into("a", "b");
    assert_eq!(set.size(), 2);
    assert!(set.connected(&"a", &"b"));
}

#[test]
fn split_into_set_with_its_own_identifier_leaves_the_value_alone() {
    let mut set = DisjointHashSet::new();
    set.union("a", "b");
    set.union("a", "c");
    let class = set.find(&"a").unwrap();
    assert_eq!(format!("{:?}", class), "Id(0)");
    set.split_into_set("a", class);
    assert!(!set.connected(&"a", &"b"));
    assert!(!set.connected(&"a", &"c"));
    assert!(set.connected(&"b", &"c"));
}

#[test]
fn split_into_set_follows_an_identifier_that_is_no_longer_a_root() {
    let mut set = DisjointHashSet::new();
    let small = set.find_or_insert("s");
    set.union("a", "b");
    set.union("a", "s");
    assert_ne!(set.find(&"s"), Some(small));
    set.insert_set(vec!["x", "y"]);
    set.split_into_set("x", small);
    assert!(set.connected(&"x", &"s"));
    assert!(set.connected(&"x", &"a"));
    assert!(set.connected(&"x", &"b"));
    assert!(!set.connected(&"x", &"y"));
}

#[test]
fn union_sets_follows_identifiers_that_are_no_longer_roots() {
    let mut set = DisjointHashSet::new();
    let one = set.find_or_insert(1);
    let two = set.find_or_insert(2);
    set.union(10, 1);
    set.union(10, 11);
    set.union(20, 2);
    set.union(20, 21);
    set.union(10, 1);
    set.union(20, 2);
    assert!(!set.connected(&1, &2));
    set.union_sets(one, two);
    for a in [1, 10, 11, 2, 20, 21] {
        for b in [1, 10, 11, 2, 20, 21] {
            assert!(set.connected(&a, &b), "{} {}", a, b);
        }
    }
}

#[test]
fn union_sets_of_one_class_changes_nothing() {
    let mut set = DisjointHashSet::new();
    set.union(1, 2);
    set.insert(3);
    let class = set.find(&1).unwrap();
    set.union_sets(class, class);
    assert!(set.connected(&1, &2));
    assert!(!set.connected(&1, &3));
    assert_eq!(set.find(&2), Some(class));
}

#[test]
fn union_of_a_value_with_itself_inserts_it_alone() {
    let mut set = DisjointHashSet::new();
    set.insert("a");
    set.union("b", "b");
    assert_eq!(set.size(), 2);
    assert!(set.connected(&"b", &"b"));
    assert!(!set.connected(&"a", &"b"));
}

#[test]
fn size_counts_split_off_values_too() {
    let mut set = DisjointHashSet::new();
    set.insert_set(vec![1, 2, 3, 4]);
    set.split(3);
    set.split(1);
    assert_eq!(set.size(), 4);
    set.split_into(2, 9);
    assert_eq!(set.size(), 5);
}

#[test]
fn owned_strings_are_values() {
    let mut set = DisjointHashSet::new();
    set.insert_set(vec![String::from("x"), String::from("y")]);
    assert!(set.connected(&String::from("x"), &String::from("y")));
    assert!(!set.contains(&String::from("z")));
}
