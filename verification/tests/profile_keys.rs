use keywich_lib::errors::Error;
use keywich_lib::profile::search::SearchQuery;
use keywich_lib::profile::{KeyData, ProfileDB};
use keywich_lib::tags::TagList;

fn tags_from(items: &[&str]) -> TagList {
    let owned: Vec<String> = items.iter().map(|s| String::from(*s)).collect();
    TagList::from_strings(&owned)
}

fn generate_key() -> KeyData {
    KeyData {
        notes: Some(String::from("notes")),
        domain: String::from("domain"),
        version: String::from("v1"),
        custom_icon: Some(String::from("/tmp/icon.ico")),
        username: String::from("username"),
        charset: String::from("a..z0..9"),
        revision: 12,
        target_size: 12,
        tags: tags_from(&["tag1", "tag2", "tag3", "tag4", "tag5", "tag6"]),
    }
}

const NOW: i64 = 1700000000;

#[test]
fn profile_keys_read_key() {
    let mut profile_db = ProfileDB::new();
    profile_db.insert_key(generate_key(), NOW).unwrap();
    profile_db.insert_key(generate_key(), NOW).unwrap();

    let keys = profile_db.get_keys(false).unwrap();

    assert_eq!(2, keys.len());
}

#[test]
fn profile_keys_invalid_data() {
    let mut profile_db = ProfileDB::new();
    let key_data = KeyData {
        notes: Some(String::from("notes")),
        domain: String::from(""),
        version: String::from("v1"),
        custom_icon: Some(String::from("/tmp/icon.ico")),
        username: String::from(""),
        charset: String::from("a..0..9"),
        revision: 12,
        target_size: 900,
        tags: tags_from(&["tag1", "tag2", "tag3", "tag4", "tag5", "tag6"]),
    };

    if let Err(Error::ValidationError(errors)) = profile_db.insert_key(key_data, NOW) {
        assert_eq!(4, errors.len())
    } else {
        assert!(false)
    }
}

#[test]
fn empty_search() {
    let mut profile_db = ProfileDB::new();
    profile_db.insert_key(generate_key(), NOW).unwrap();
    profile_db.insert_key(generate_key(), NOW).unwrap();
    profile_db.insert_key(generate_key(), NOW).unwrap();

    let query = SearchQuery::new("");
    let keys = profile_db.search_keys(&query).unwrap();

    assert_eq!(3, keys.len());
}

#[test]
fn profile_keys_search_by_single_param() {
    let mut profile_db = ProfileDB::new();
    profile_db.insert_key(generate_key(), NOW).unwrap();

    let query = SearchQuery::new("tag:tag1 tag:tag2");
    let keys = profile_db.search_keys(&query).unwrap();

    assert!(!keys.is_empty());
}

#[test]
fn profile_keys_search_by_two_params() {
    let mut profile_db = ProfileDB::new();
    profile_db.insert_key(generate_key(), NOW).unwrap();

    let query = SearchQuery::new("tag:tag1 tag:tag2 domain:domain");
    let keys = profile_db.search_keys(&query).unwrap();

    assert!(!keys.is_empty());
}

#[test]
fn profile_keys_search_by_all_params() {
    let mut profile_db = ProfileDB::new();
    profile_db.insert_key(generate_key(), NOW).unwrap();

    let query = SearchQuery::new("tag:tag1 tag:tag2 domain:domain username:username");
    let keys = profile_db.search_keys(&query).unwrap();

    assert!(!keys.is_empty());
}

#[test]
fn search_misses_when_one_kind_has_no_match() {
    let mut profile_db = ProfileDB::new();
    profile_db.insert_key(generate_key(), NOW).unwrap();

    let query = SearchQuery::new("tag:tag1 domain:elsewhere");
    let keys = profile_db.search_keys(&query).unwrap();

    assert!(keys.is_empty());
}

#[test]
fn search_ranks_more_matching_terms_higher() {
    let mut profile_db = ProfileDB::new();
    let mut one_tag = generate_key();
    one_tag.tags = tags_from(&["alpha"]);
    one_tag.domain = String::from("first");
    let mut two_tags = generate_key();
    two_tags.tags = tags_from(&["alpha", "beta"]);
    two_tags.domain = String::from("second");
    let first_id = profile_db.insert_key(one_tag, NOW).unwrap();
    let second_id = profile_db.insert_key(two_tags, NOW).unwrap();

    let query = SearchQuery::new("tag:alpha tag:beta");
    let keys = profile_db.search_keys(&query).unwrap();

    assert_eq!(2, keys.len());
    assert_eq!(second_id, keys[0].id);
    assert_eq!(first_id, keys[1].id);
}

#[test]
fn profile_keys_delete_key() {
    let mut profile_db = ProfileDB::new();
    let key_id = profile_db.insert_key(generate_key(), NOW).unwrap();

    let existed = profile_db.delete_key(key_id).unwrap();

    assert!(existed);
    assert!(profile_db.get_key_by_id(key_id).unwrap().is_none());
    assert!(!profile_db.delete_key(key_id).unwrap());
}

#[test]
fn profile_keys_update_key() {
    let mut profile_db = ProfileDB::new();
    let key_id = profile_db.insert_key(generate_key(), NOW).unwrap();

    profile_db
        .update_key(
            key_id,
            KeyData {
                notes: Some(String::from("notes")),
                domain: String::from("domain"),
                version: String::from("v2"),
                custom_icon: Some(String::from("/tmp/icon.ico")),
                username: String::from("username"),
                charset: String::from("a..z0..9"),
                revision: 13,
                target_size: 13,
                tags: tags_from(&["tag4", "tag5", "tag6", "tag7", "tag8"]),
            },
        )
        .unwrap();

    let updated = profile_db.get_key_by_id(key_id).unwrap().unwrap();
    assert_eq!(13, updated.revision);
    assert_eq!(13, updated.target_size);
    assert_eq!("v2", updated.version.as_str());
    assert_eq!(NOW, updated.created_at);
    assert_eq!(5, updated.tags.len());
    assert!(updated.tags.has("tag7"));
    assert!(!updated.tags.has("tag1"));
}

#[test]
fn profile_keys_get_by_id() {
    let mut profile_db = ProfileDB::new();
    let key_id = profile_db.insert_key(generate_key(), NOW).unwrap();

    let result = profile_db.get_key_by_id(key_id).unwrap();

    assert_eq!(true, result.is_some());
    assert_eq!(key_id, result.unwrap().id);
}

#[test]
fn profile_keys_get_non_existing_by_id() {
    let profile_db = ProfileDB::new();
    let result = profile_db.get_key_by_id(999).unwrap();

    assert_eq!(true, result.is_none())
}

#[test]
fn inserted_key_returns_same_tag_set() {
    let mut profile_db = ProfileDB::new();
    let key_id = profile_db.insert_key(generate_key(), NOW).unwrap();

    let stored = profile_db.get_key_by_id(key_id).unwrap().unwrap();

    assert_eq!(6, stored.tags.len());
    for tag in ["tag1", "tag2", "tag3", "tag4", "tag5", "tag6"] {
        assert!(stored.tags.has(tag));
    }
}

#[test]
fn key_without_tags_has_empty_tag_set() {
    let mut profile_db = ProfileDB::new();
    let mut data = generate_key();
    data.tags = TagList::new();
    let key_id = profile_db.insert_key(data, NOW).unwrap();

    let stored = profile_db.get_key_by_id(key_id).unwrap().unwrap();
    assert!(stored.tags.is_empty());
    assert_eq!(0, stored.tags.iter().len());
}

#[test]
fn pin_status_toggles_and_filters() {
    let mut profile_db = ProfileDB::new();
    let a = profile_db.insert_key(generate_key(), NOW).unwrap();
    let _b = profile_db.insert_key(generate_key(), NOW).unwrap();

    profile_db.update_pin_status(a, true).unwrap();
    let pinned = profile_db.get_keys(true).unwrap();
    assert_eq!(1, pinned.len());
    assert_eq!(a, pinned[0].id);

    profile_db.update_pin_status(a, false).unwrap();
    assert!(profile_db.get_keys(true).unwrap().is_empty());
}

#[test]
fn fts_query() {
    let query = SearchQuery::new("tag:tag1 tag:tag2 domain:test username:user\" test query like a tag");
    if let Some(qtext) = query.to_fts_query() {
        assert_eq!("({domain username tags notes}: \"test\" OR \"query\" OR \"like\" OR \"a\" OR \"tag\") AND ({username}: \"user\"\"\") AND ({domain}: \"test\") AND ({tags}: \"tag1\" OR \"tag2\")", &qtext)
    } else {
        assert!(false);
    }
}

#[test]
fn fts_query_empty_when_no_terms() {
    let query = SearchQuery::new("   ");
    assert!(query.to_fts_query().is_none());
}

#[test]
fn update_missing_id_changes_nothing() {
    let mut profile_db = ProfileDB::new();
    let key_id = profile_db.insert_key(generate_key(), NOW).unwrap();

    profile_db.update_key(key_id + 100, generate_key()).unwrap();

    let keys = profile_db.get_keys(false).unwrap();
    assert_eq!(1, keys.len());
    assert_eq!(12, keys[0].revision);
}

#[test]
fn search_stays_consistent_over_mutations() {
    let mut profile_db = ProfileDB::new();
    let mut first = generate_key();
    first.domain = String::from("alpha.example");
    let mut second = generate_key();
    second.domain = String::from("beta.example");
    let first_id = profile_db.insert_key(first, NOW).unwrap();
    let second_id = profile_db.insert_key(second, NOW).unwrap();

    let mut third = generate_key();
    third.domain = String::from("alpha.example");
    profile_db.update_key(second_id, third).unwrap();

    let query = SearchQuery::new("domain:alpha");
    let found = profile_db.search_keys(&query).unwrap();
    assert_eq!(2, found.len());

    profile_db.delete_key(first_id).unwrap();
    let found_after = profile_db.search_keys(&SearchQuery::new("domain:alpha")).unwrap();
    assert_eq!(1, found_after.len());
    assert_eq!(second_id, found_after[0].id);

    let gone = profile_db.search_keys(&SearchQuery::new("domain:beta")).unwrap();
    assert!(gone.is_empty());
}
