use keywich_lib::tags::TagList;
use std::collections::HashSet;

fn list_from(items: &[&str]) -> TagList {
    let owned: Vec<String> = items.iter().map(|s| String::from(*s)).collect();
    TagList::from_strings(&owned)
}

#[test]
fn taglist_iterate() {
    let tags_str = list_from(&["str_tag1", "str_tag2", "str_tag3"]);
    let tags_string = TagList::from_strings(&vec![
        String::from("string_tag1"),
        String::from("string_tag2"),
        String::from("string_tag3"),
    ]);
    let set: HashSet<&str> = HashSet::from(["hs_tag1", "hs_tag2", "hs_tag3"]);
    let from_set: Vec<String> = set.iter().map(|s| String::from(*s)).collect();
    let tags_set = TagList::from_strings(&from_set);

    assert_eq!(3, tags_str.len());
    assert_eq!(3, tags_string.len());
    assert_eq!(3, tags_set.len());
}

#[test]
fn tag_list_iterate() {
    let tags = list_from(&["str_tag1", "str_tag2", "str_tag3"]);
    let items = tags.iter();
    assert_eq!(3, items.len());
    assert!(items.contains(&String::from("str_tag1")));
    assert!(items.contains(&String::from("str_tag2")));
    assert!(items.contains(&String::from("str_tag3")));
}

#[test]
fn union() {
    let tag_list_a = list_from(&["str_tag1", "str_tag2", "str_tag3"]);
    let tag_list_b = list_from(&["str_tag1", "str_tag2", "str_tag4"]);
    let union_list = tag_list_a.union(&tag_list_b);

    assert_eq!(4, union_list.len());
}

#[test]
fn difference() {
    let tag_list_a = list_from(&["str_tag1", "str_tag2", "str_tag3"]);
    let tag_list_b = list_from(&["str_tag1", "str_tag2", "str_tag4"]);
    let diff_list = tag_list_a.difference(&tag_list_b);

    assert_eq!(1, diff_list.len());
    assert!(diff_list.has("str_tag3"));
}

#[test]
fn tag_delta_removes_and_adds_exactly() {
    // updating {a, b, c} to {b, c, d}
    let existing = list_from(&["a", "b", "c"]);
    let requested = list_from(&["b", "c", "d"]);

    let orphans = existing.difference(&requested);
    let fresh = requested.difference(&existing);

    assert_eq!(1, orphans.len());
    assert!(orphans.has("a"));
    assert_eq!(1, fresh.len());
    assert!(fresh.has("d"));

    // applying the delta to the old set lands exactly on the new set
    let mut applied = existing.duplicate();
    for t in orphans.iter() {
        applied.remove(t.as_str());
    }
    for t in fresh.iter() {
        applied.insert(t.as_str());
    }
    assert_eq!(3, applied.len());
    assert!(applied.has("b") && applied.has("c") && applied.has("d"));
    assert!(!applied.has("a"));
}

#[test]
fn insert_dedupes_and_remove_reports() {
    let mut tags = TagList::new();
    assert!(tags.insert("one"));
    assert!(!tags.insert("one"));
    assert!(tags.insert("two"));
    assert_eq!(2, tags.len());
    assert!(tags.has("one"));
    assert!(tags.remove("one"));
    assert!(!tags.remove("one"));
    assert!(!tags.has("one"));
    assert_eq!(1, tags.len());
    assert!(!tags.is_empty());
}

#[test]
fn join_keeps_insertion_order() {
    let tags = list_from(&["b", "a", "c"]);
    assert_eq!("b a c", tags.join(' ').as_str());
}
