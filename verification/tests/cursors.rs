use dual_set::{Dual, DualHashSet};

#[derive(Clone, Debug, PartialEq, Eq)]
struct Entry {
    name: String,
    count: u32,
}

impl Dual for Entry {
    type Key = String;

    fn key(&self) -> &Self::Key {
        &self.name
    }
}

fn entry(name: &str, count: u32) -> Entry {
    Entry { name: name.to_string(), count }
}

fn abc() -> DualHashSet<Entry> {
    let mut set = DualHashSet::new();
    set.insert(entry("a", 1));
    set.insert(entry("b", 2));
    set.insert(entry("c", 3));
    set
}

#[test]
fn keys_hands_out_each_key_once() {
    let set = abc();
    let mut keys = set.keys();
    let mut seen = Vec::new();
    while let Some(k) = keys.next() {
        seen.push(k.clone());
    }
    assert!(keys.next().is_none());
    seen.sort();
    assert_eq!(seen, vec!["a", "b", "c"]);
}

#[test]
fn iter_hands_out_each_value_once() {
    let set = abc();
    let mut iter = set.iter();
    let mut seen = Vec::new();
    while let Some(e) = iter.next() {
        seen.push(e.clone());
    }
    assert!(iter.next().is_none());
    seen.sort_by(|x, y| x.name.cmp(&y.name));
    assert_eq!(seen, vec![entry("a", 1), entry("b", 2), entry("c", 3)]);
}

#[test]
fn into_iter_hands_out_the_values_themselves() {
    let set = abc();
    let mut iter = set.into_iter();
    let mut seen = Vec::new();
    while let Some(e) = iter.next() {
        seen.push(e);
    }
    assert!(iter.next().is_none());
    seen.sort_by(|x, y| x.name.cmp(&y.name));
    assert_eq!(seen, vec![entry("a", 1), entry("b", 2), entry("c", 3)]);
}

#[test]
fn cursors_of_an_empty_set_are_empty() {
    let set: DualHashSet<Entry> = DualHashSet::new();
    assert!(set.keys().next().is_none());
    assert!(set.iter().next().is_none());
    assert!(set.into_iter().next().is_none());
}

#[test]
fn each_call_gives_a_fresh_cursor() {
    let set = abc();
    let mut first = set.iter();
    assert!(first.next().is_some());
    assert!(first.next().is_some());
    let mut second = set.iter();
    let mut count = 0;
    while second.next().is_some() {
        count += 1;
    }
    assert_eq!(count, 3);
    assert!(first.next().is_some());
    assert!(first.next().is_none());
}

#[test]
fn keys_follow_a_relocation() {
    let mut set = abc();
    set.modify(&"a".to_string(), |e| e.name = "z".to_string());
    let mut keys = set.keys();
    let mut seen = Vec::new();
    while let Some(k) = keys.next() {
        seen.push(k.clone());
    }
    seen.sort();
    assert_eq!(seen, vec!["b", "c", "z"]);
}
