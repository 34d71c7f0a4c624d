use dual_set::{Dual, DualHashSet};

#[derive(PartialEq, Eq)]
struct Test {
    key: String,
    value: u32,
}

impl Dual for Test {
    type Key = String;

    fn key(&self) -> &Self::Key {
        &self.key
    }
}

#[test]
fn modify() {
    let mut set = DualHashSet::new();
    for i in 0..10u32 {
        set.insert(Test {
            key: i.to_string(),
            value: i,
        });
    }
    assert_eq!(set["3"].key, "3");
    assert_eq!(set["3"].value, 3);
    assert_eq!(set["4"].key, "4");
    assert_eq!(set["4"].value, 4);
    set.modify("3", |test| test.value += 1);
    set.modify("4", |test| test.key = "four".into());
    assert_eq!(set["3"].key, "3");
    assert_eq!(set["3"].value, 4);
    assert!(!set.contains("4"));
    assert_eq!(set["four"].key, "four");
    assert_eq!(set["four"].value, 4);
}

#[test]
fn get_mut() {
    let mut set = DualHashSet::new();
    for i in 0..10u32 {
        set.insert(Test {
            key: i.to_string(),
            value: i,
        });
    }

    let mut value = set.get_mut("3").unwrap();
    (*value).key = "three".into();
    value.release();
    assert!(!set.contains("3"));
    assert_eq!(set["three"].key, "three");
}

#[test]
fn retain() {
    let mut set = DualHashSet::new();
    for i in 0..10u32 {
        set.insert(Test {
            key: i.to_string(),
            value: i,
        });
    }
    set.retain(|test| {
        test.key = format!("{}{}", test.value, test.value);
        test.value % 2 == 0
    });
    assert_eq!(set.len(), 5);
    for i in 0..10u32 {
        if i % 2 == 0 {
            assert!(set.contains(&format!("{i}{i}")));
        }
        assert!(!set.contains(&format!("{i}")));
    }
}
