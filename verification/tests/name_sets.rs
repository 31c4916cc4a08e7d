use instance_sync::names::{order_of, NameOrder, NameSet};
use std::collections::BTreeSet;

fn chars(s: &str) -> Vec<char> {
    s.chars().collect()
}

#[test]
fn order_is_that_of_strings() {
    let samples = ["", "a", "ab", "b", "B", ".voxy", "saves", "save", "ä", "z", "a/b", "a.b"];
    for x in samples {
        for y in samples {
            let expected = if x < y {
                NameOrder::Before
            } else if x == y {
                NameOrder::Same
            } else {
                NameOrder::After
            };
            assert_eq!(order_of(&chars(x), &chars(y)), expected);
        }
    }
}

#[test]
fn a_set_holds_each_name_once_in_ascending_order() {
    let names = ["saves", "config", ".voxy", "saves", "Distant", "config", "a"];
    let mut set = NameSet::new();
    let mut reference = BTreeSet::new();
    for name in names {
        let added = set.insert(name);
        assert_eq!(added, reference.insert(name.to_string()));
    }
    assert_eq!(set.len(), reference.len());
    for (i, name) in reference.iter().enumerate() {
        assert_eq!(set.get(i), name);
    }
    assert!(set.contains("saves"));
    assert!(!set.contains("save"));
}

#[test]
fn a_new_set_is_empty() {
    let set = NameSet::new();
    assert!(set.is_empty());
    assert_eq!(set.len(), 0);
    assert!(!set.contains(""));
}

#[test]
fn from_list_drops_repeats() {
    let list = vec!["b".to_string(), "a".to_string(), "b".to_string()];
    let set = NameSet::from_list(&list);
    assert_eq!(set.len(), 2);
    assert_eq!(set.get(0), "a");
    assert_eq!(set.get(1), "b");
}

#[test]
fn duplicate_holds_the_same_names() {
    let mut set = NameSet::new();
    set.insert("x");
    set.insert("y");
    let copy = set.duplicate();
    assert_eq!(copy.len(), 2);
    assert_eq!(copy.get(0), "x");
    assert_eq!(copy.get(1), "y");
}
