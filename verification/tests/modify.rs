use dual_set::{Dual, DualHashSet};

#[derive(Clone, Debug, PartialEq, Eq)]
struct Entry {
    name: String,
    count: u32,
}

impl Dual for Entry {
    type Key = String;

    fn key(&self) -> &Self::Key {
        &self.name
    }
}

fn entry(name: &str, count: u32) -> Entry {
    Entry { name: name.to_string(), count }
}

fn key(name: &str) -> String {
    name.to_string()
}

fn abc() -> DualHashSet<Entry> {
    let mut set = DualHashSet::new();
    set.insert(entry("a", 1));
    set.insert(entry("b", 2));
    set.insert(entry("c", 3));
    set
}

#[test]
fn modify_returns_what_the_closure_returns() {
    let mut set = abc();
    let seen = set.modify(&key("b"), |e| {
        e.count += 10;
        e.count * 2
    });
    assert_eq!(seen, Some(24));
    assert_eq!(set.get(&key("b")), Some(&entry("b", 12)));
    assert_eq!(set.len(), 3);
}

#[test]
fn modify_moves_an_element_whose_key_changed() {
    let mut set = abc();
    let seen = set.modify(&key("a"), |e| {
        e.name = "z".to_string();
        e.count = 100;
    });
    assert_eq!(seen, Some(()));
    assert!(!set.contains(&key("a")));
    assert!(set.contains(&key("z")));
    assert_eq!(set.get(&key("z")), Some(&entry("z", 100)));
    assert_eq!(set.len(), 3);
}

#[test]
fn modify_of_an_absent_key_calls_nothing() {
    let mut set = abc();
    let mut calls = 0;
    let seen = set.modify(&key("q"), |e| {
        calls += 1;
        e.count
    });
    assert_eq!(seen, None);
    assert_eq!(calls, 0);
    assert_eq!(set.len(), 3);
    assert_eq!(set.get(&key("a")), Some(&entry("a", 1)));
}

#[test]
fn modify_calls_the_closure_once() {
    let mut set = abc();
    let mut calls = 0;
    set.modify(&key("c"), |e| {
        calls += 1;
        e.name = "d".to_string();
    });
    assert_eq!(calls, 1);
}

#[test]
fn modify_onto_an_occupied_key_displaces_the_occupant() {
    let mut set = abc();
    set.modify(&key("a"), |e| e.name = "b".to_string());
    assert_eq!(set.len(), 2);
    assert!(!set.contains(&key("a")));
    assert_eq!(set.get(&key("b")), Some(&entry("b", 1)));
    assert_eq!(set.get(&key("c")), Some(&entry("c", 3)));
}

#[test]
fn every_element_is_found_by_its_own_key() {
    let mut set = abc();
    set.modify(&key("a"), |e| e.name = "x".to_string());
    set.modify_all(|e| e.name.push('!'));
    set.retain(|e| {
        e.name.push('?');
        e.count != 2
    });
    set.insert(entry("n", 9));
    let mut iter = set.iter();
    let mut seen = 0;
    while let Some(e) = iter.next() {
        assert_eq!(set.get(e.key()), Some(e));
        seen += 1;
    }
    assert_eq!(seen, set.len());
    assert_eq!(seen, 3);
}
