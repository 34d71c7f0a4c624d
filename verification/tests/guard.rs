use dual_set::{Dual, DualHashSet};
use std::borrow::{Borrow, BorrowMut};

#[derive(Clone, Debug, PartialEq, Eq)]
struct Entry {
    name: String,
    count: u32,
}

impl Dual for Entry {
    type Key = String;

    fn key(&self) -> &Self::Key {
        &self.name
    }
}

fn entry(name: &str, count: u32) -> Entry {
    Entry { name: name.to_string(), count }
}

fn key(name: &str) -> String {
    name.to_string()
}

fn abc() -> DualHashSet<Entry> {
    let mut set = DualHashSet::new();
    set.insert(entry("a", 1));
    set.insert(entry("b", 2));
    set.insert(entry("c", 3));
    set
}

#[test]
fn get_mut_of_an_absent_key_is_none() {
    let mut set = abc();
    assert!(set.get_mut(&key("q")).is_none());
    assert!(set.get_mut("q").is_none());
    assert_eq!(set.len(), 3);
}

#[test]
fn guard_reads_the_element() {
    let mut set = abc();
    let guard = set.get_mut("b").unwrap();
    assert_eq!(*guard, entry("b", 2));
    assert_eq!(guard.count, 2);
    guard.release();
    assert_eq!(set.get("b"), Some(&entry("b", 2)));
    assert_eq!(set.len(), 3);
}

#[test]
fn guard_writes_in_place_when_the_key_stays() {
    let mut set = abc();
    let mut guard = set.get_mut("b").unwrap();
    guard.count = 20;
    guard.release();
    assert_eq!(set.get("b"), Some(&entry("b", 20)));
    assert_eq!(set.get("a"), Some(&entry("a", 1)));
    assert_eq!(set.get("c"), Some(&entry("c", 3)));
    assert_eq!(set.len(), 3);
}

#[test]
fn released_guard_relocates_as_modify_does() {
    let mut by_guard = abc();
    let mut guard = by_guard.get_mut("a").unwrap();
    guard.name = "z".to_string();
    guard.count = 100;
    guard.release();
    let mut by_closure = abc();
    by_closure.modify("a", |e| {
        e.name = "z".to_string();
        e.count = 100;
    });
    assert!(!by_guard.contains("a"));
    assert!(by_guard.contains("z"));
    assert_eq!(by_guard.get("z"), by_closure.get("z"));
    assert_eq!(by_guard.get("z"), Some(&entry("z", 100)));
    assert_eq!(by_guard.get("b"), by_closure.get("b"));
    assert_eq!(by_guard.get("c"), by_closure.get("c"));
    assert_eq!(by_guard.len(), by_closure.len());
    assert_eq!(by_guard.len(), 3);
}

#[test]
fn released_guard_relocates() {
    let mut set = abc();
    let mut guard = set.get_mut(&key("a")).unwrap();
    guard.name = "z".to_string();
    guard.release();
    assert!(!set.contains("a"));
    assert_eq!(set.get("z"), Some(&entry("z", 1)));
    assert_eq!(set.len(), 3);
}

#[test]
fn released_guard_leaves_a_coherent_index() {
    let mut set = abc();
    let mut guard = set.get_mut("a").unwrap();
    guard.name = "c".to_string();
    guard.count = 7;
    guard.release();
    let mut iter = set.iter();
    let mut seen = 0;
    while let Some(e) = iter.next() {
        assert_eq!(set.get(e.key()), Some(e));
        seen += 1;
    }
    assert_eq!(seen, set.len());
}

#[test]
fn guard_that_moves_onto_an_occupied_key_displaces_the_occupant() {
    let mut set = abc();
    let mut guard = set.get_mut("a").unwrap();
    guard.name = "b".to_string();
    guard.release();
    assert_eq!(set.len(), 2);
    assert!(!set.contains("a"));
    assert_eq!(set.get("b"), Some(&entry("b", 1)));
    assert_eq!(set.get("c"), Some(&entry("c", 3)));
}

#[test]
fn guard_released_on_every_way_out() {
    fn rename(set: &mut DualHashSet<Entry>) -> u32 {
        let mut guard = set.get_mut("a").unwrap();
        guard.name = "early".to_string();
        if guard.count == 1 {
            guard.release();
            return 1;
        }
        guard.name = "late".to_string();
        guard.release();
        2
    }
    let mut set = abc();
    assert_eq!(rename(&mut set), 1);
    assert!(!set.contains("a"));
    assert!(set.contains("early"));
    assert!(!set.contains("late"));
}

#[test]
fn guard_converts_to_references() {
    let mut set = abc();
    let mut guard = set.get_mut("c").unwrap();
    {
        let shared: &Entry = guard.as_ref();
        assert_eq!(shared.count, 3);
    }
    {
        let exclusive: &mut Entry = guard.as_mut();
        exclusive.count = 4;
    }
    {
        let shared: &Entry = guard.borrow();
        assert_eq!(shared.count, 4);
    }
    {
        let exclusive: &mut Entry = guard.borrow_mut();
        exclusive.name = "sea".to_string();
    }
    guard.release();
    assert_eq!(set.get("sea"), Some(&entry("sea", 4)));
    assert!(!set.contains("c"));
}

#[test]
fn get_or_insert_with_inserts_once_when_absent() {
    let mut set = abc();
    let mut calls = 0;
    let guard = set.get_or_insert_with(key("n"), |k| {
        calls += 1;
        Entry { name: k, count: 0 }
    });
    assert_eq!(*guard, entry("n", 0));
    guard.release();
    assert_eq!(calls, 1);
    assert_eq!(set.len(), 4);
    assert_eq!(set.get("n"), Some(&entry("n", 0)));
}

#[test]
fn get_or_insert_with_leaves_the_factory_alone_when_present() {
    let mut set = abc();
    let mut calls = 0;
    let guard = set.get_or_insert_with(key("b"), |k| {
        calls += 1;
        Entry { name: k, count: 0 }
    });
    assert_eq!(*guard, entry("b", 2));
    guard.release();
    assert_eq!(calls, 0);
    assert_eq!(set.len(), 3);
    assert_eq!(set.get("b"), Some(&entry("b", 2)));
}

#[test]
fn get_or_insert_with_guard_can_change_the_key() {
    let mut set = abc();
    let mut guard = set.get_or_insert_with(key("n"), |k| Entry { name: k, count: 0 });
    guard.name = "m".to_string();
    guard.count = 5;
    guard.release();
    assert!(!set.contains("n"));
    assert_eq!(set.get("m"), Some(&entry("m", 5)));
    assert_eq!(set.len(), 4);
}

#[test]
fn factory_that_reports_another_key_is_settled_at_release() {
    let mut set = abc();
    let guard = set.get_or_insert_with(key("n"), |_| entry("other", 7));
    assert_eq!(*guard, entry("other", 7));
    guard.release();
    assert!(!set.contains("n"));
    assert_eq!(set.get("other"), Some(&entry("other", 7)));
    assert_eq!(set.len(), 4);
}
