use keywich_lib::errors::Error;
use keywich_lib::profile::{CharsetItem, ProfileDB};

fn generate_charset() -> CharsetItem {
    CharsetItem {
        charset: String::from("a..zA..Z"),
        description: Some(String::from("Description")),
        name: String::from("__test"),
    }
}

#[test]
fn profile_charsets_read_charsets() {
    let mut profile_db = ProfileDB::new();
    profile_db.insert_charset(generate_charset()).unwrap();

    let charset_items = profile_db.get_charsets().unwrap();

    assert_eq!(1, charset_items.len());
    assert_eq!("__test", charset_items[0].name.as_str());
    assert_eq!("a..zA..Z", charset_items[0].charset.as_str());
}

#[test]
fn profile_charsets_invalid_data() {
    let mut profile_db = ProfileDB::new();
    let charset = CharsetItem {
        charset: String::from("a..A..Z"),
        description: None,
        name: String::from(""),
    };

    if let Err(Error::ValidationError(details)) = profile_db.insert_charset(charset) {
        assert_eq!(2, details.len())
    } else {
        assert!(false)
    }
}

#[test]
fn profile_charsets_delete_charset() {
    let mut profile_db = ProfileDB::new();

    let inserted = profile_db.insert_charset(generate_charset()).unwrap();

    assert_eq!("__test", inserted.as_str());

    let deleted_rows = profile_db.delete_charset("__test").unwrap();

    assert_eq!(1, deleted_rows);
    assert_eq!(0, profile_db.delete_charset("__test").unwrap());
}

#[test]
fn duplicate_charset_name_is_rejected() {
    let mut profile_db = ProfileDB::new();
    profile_db.insert_charset(generate_charset()).unwrap();

    let second = profile_db.insert_charset(generate_charset());
    assert!(matches!(second, Err(Error::DatabaseError(_))));
    assert_eq!(1, profile_db.get_charsets().unwrap().len());
}
