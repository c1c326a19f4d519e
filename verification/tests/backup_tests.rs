use keywich_lib::errors::Error;
use keywich_lib::profile::backup::{FileBackupReader, FileBackupWriter};
use keywich_lib::profile::{CharsetItem, KeyItem, ProfileDB};
use keywich_lib::tags::TagList;

fn tags_from(items: &[&str]) -> TagList {
    let owned: Vec<String> = items.iter().map(|s| String::from(*s)).collect();
    TagList::from_strings(&owned)
}

fn sample_key(id: i64) -> KeyItem {
    KeyItem {
        id,
        pinned: false,
        target_size: 16,
        revision: 3,
        charset: String::from("a..z0..9"),
        domain: String::from("example.org"),
        username: String::from("user\"with quotes\""),
        notes: Some(String::from("line one\nline two")),
        created_at: 1700000000,
        custom_icon: if id == 1 {
            Some(String::from("icon-a"))
        } else {
            None
        },
        version: String::from("kw_scrypt:v1"),
        tags: tags_from(&["work", "mail"]),
    }
}

fn sample_charset() -> CharsetItem {
    CharsetItem {
        name: String::from("letters"),
        charset: String::from("a..zA..Z"),
        description: None,
    }
}

fn build_archive(sign_key: &[u8]) -> Vec<u8> {
    let keys = vec![sample_key(1), sample_key(2)];
    let charsets = vec![sample_charset()];
    let mut writer = FileBackupWriter::new(sign_key);
    writer.write_keys(&keys).unwrap();
    writer.write_charsets(&charsets).unwrap();
    writer.write_icon("icon-a", &[1u8, 2u8, 3u8, 4u8]).unwrap();
    let (bytes, _manifest) = writer.finish().unwrap();
    bytes
}

#[test]
fn archive_round_trips_keys_and_charsets() {
    let bytes = build_archive(b"sign key");
    let mut reader = FileBackupReader::new(bytes).unwrap();

    let keys = reader.keys().unwrap();
    assert_eq!(2, keys.len());
    assert_eq!(1, keys[0].id);
    assert_eq!(2, keys[1].id);
    assert_eq!("example.org", keys[0].domain.as_str());
    assert_eq!("user\"with quotes\"", keys[0].username.as_str());
    assert_eq!(Some(String::from("line one\nline two")), keys[0].notes);
    assert_eq!(2, keys[0].tags.len());
    assert!(keys[0].tags.has("work"));

    let charsets = reader.charsets().unwrap();
    assert_eq!(1, charsets.len());
    assert_eq!("letters", charsets[0].name.as_str());
}

#[test]
fn manifest_records_sections_in_write_order() {
    let bytes = build_archive(b"sign key");
    let reader = FileBackupReader::new(bytes).unwrap();
    let manifest = reader.manifest();

    assert_eq!(1, manifest.version);
    let names: Vec<&str> = manifest.files.iter().map(|f| f.as_str()).collect();
    assert_eq!(vec!["keys", "charsets", "contents/icon-a"], names);
    assert!(manifest.digest.is_some());
}

#[test]
fn icons_come_from_manifest_names() {
    let bytes = build_archive(b"sign key");
    let reader = FileBackupReader::new(bytes).unwrap();
    let icons = reader.icons();

    assert_eq!(1, icons.len());
    assert_eq!("icon-a", icons[0].name.as_str());
    assert_eq!("contents/icon-a", icons[0].full_name.as_str());
}

#[test]
fn copy_section_returns_icon_bytes() {
    let bytes = build_archive(b"sign key");
    let mut reader = FileBackupReader::new(bytes).unwrap();
    let data = reader.copy_section("contents/icon-a").unwrap();
    assert_eq!(vec![1u8, 2u8, 3u8, 4u8], data);

    let missing = reader.copy_section("contents/absent");
    assert!(matches!(missing, Err(Error::BackupError(_))));
}

#[test]
fn fresh_archive_verifies_with_the_sign_key() {
    let bytes = build_archive(b"sign key");
    let mut reader = FileBackupReader::new(bytes).unwrap();
    assert_eq!(Ok(true), reader.verify_digest(b"sign key").map_err(|_| ()));
}

#[test]
fn wrong_key_never_verifies() {
    let bytes = build_archive(b"sign key");
    let mut reader = FileBackupReader::new(bytes).unwrap();
    assert_eq!(Ok(false), reader.verify_digest(b"other key").map_err(|_| ()));
}

#[test]
fn tampered_archive_never_verifies() {
    // repackage the clean archive with one byte of one section flipped,
    // keeping the original manifest byte for byte
    let clean = build_archive(b"sign key");
    let mut reader = FileBackupReader::new(clean).unwrap();
    let keys_bytes = reader.copy_section("keys").unwrap();
    let charsets_bytes = reader.copy_section("charsets").unwrap();
    let icon_bytes = reader.copy_section("contents/icon-a").unwrap();
    let manifest_bytes = reader.copy_section("manifest").unwrap();

    for victim in 0..3usize {
        let mut keys2 = keys_bytes.clone();
        let mut charsets2 = charsets_bytes.clone();
        let mut icon2 = icon_bytes.clone();
        match victim {
            0 => keys2[8] ^= 0x01,
            1 => charsets2[4] ^= 0x01,
            _ => icon2[2] ^= 0x01,
        }
        let sections: [(&str, &Vec<u8>); 4] = [
            ("keys", &keys2),
            ("charsets", &charsets2),
            ("contents/icon-a", &icon2),
            ("manifest", &manifest_bytes),
        ];
        let mut zw = zip::ZipWriter::new(std::io::Cursor::new(Vec::new()));
        for (name, data) in sections {
            zw.start_file(name, zip::write::SimpleFileOptions::default())
                .unwrap();
            std::io::Write::write_all(&mut zw, data).unwrap();
        }
        let bytes = zw.finish().unwrap().into_inner();

        let mut tampered = FileBackupReader::new(bytes).unwrap();
        assert_eq!(Ok(false), tampered.verify_digest(b"sign key").map_err(|_| ()));
    }
}

#[test]
fn archive_without_manifest_is_rejected() {
    let garbage = vec![0u8; 64];
    assert!(matches!(
        FileBackupReader::new(garbage),
        Err(Error::BackupError(_))
    ));
}

#[test]
fn restore_replaces_the_whole_store() {
    let bytes = build_archive(b"sign key");
    let mut reader = FileBackupReader::new(bytes).unwrap();
    let keys = reader.keys().unwrap();
    let charsets = reader.charsets().unwrap();

    let mut db = ProfileDB::new();
    db.insert_charset(CharsetItem {
        name: String::from("old"),
        charset: String::from("0..9"),
        description: None,
    })
    .unwrap();

    db.restore(keys, charsets).unwrap();

    let stored = db.get_keys(false).unwrap();
    assert_eq!(2, stored.len());
    let by_id = db.get_key_by_id(1).unwrap().unwrap();
    assert_eq!("example.org", by_id.domain.as_str());
    assert_eq!(2, by_id.tags.len());

    let cs = db.get_charsets().unwrap();
    assert_eq!(1, cs.len());
    assert_eq!("letters", cs[0].name.as_str());

    // restored store keeps handing out fresh ids above the restored ones
    let next = db
        .insert_key(
            keywich_lib::profile::KeyData {
                target_size: 12,
                revision: 1,
                charset: String::from("a..z"),
                domain: String::from("d"),
                username: String::from("u"),
                notes: None,
                custom_icon: None,
                version: String::from("kw_scrypt:v1"),
                tags: TagList::new(),
            },
            1700000001,
        )
        .unwrap();
    assert_eq!(3, next);
}

#[test]
fn restore_rejects_duplicate_ids() {
    let mut db = ProfileDB::new();
    let keys = vec![sample_key(1), sample_key(1)];
    let r = db.restore(keys, Vec::new());
    assert!(matches!(r, Err(Error::DatabaseError(_))));
    assert!(db.get_keys(false).unwrap().is_empty());
}
