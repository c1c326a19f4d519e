//! The profile store: credential recipes (keys) and named charsets, with a
//! denormalized search index that never diverges from the key rows.  Every
//! mutation keeps the store's invariant: exactly one index row per key, its
//! fields always derived from the key's current fields.

use crate::charset::symbols_of;
use crate::errors::Error;
use crate::errors::ValidationError;
use crate::tags::joined_tags;
use crate::tags::TagList;
use crate::text::str_eq;
use vstd::prelude::*;

pub mod backup;
pub mod search;

verus! {

/// The view of an optional text.
pub open spec fn opt_view(o: Option<String>) -> Option<Seq<char>> {
    match o {
        Some(s) => Some(s@),
        None => None,
    }
}

/// Copies an optional text.
fn clone_opt_string(o: &Option<String>) -> (r: Option<String>)
    ensures
        opt_view(r) == opt_view(*o),
{
    match o {
        Some(s) => Some(s.clone()),
        None => None,
    }
}

/// One stored credential recipe.
pub struct KeyItem {
    pub id: i64,
    pub pinned: bool,
    pub target_size: i64,
    pub revision: i64,
    pub charset: String,
    pub domain: String,
    pub username: String,
    pub notes: Option<String>,
    pub created_at: i64,
    pub custom_icon: Option<String>,
    pub version: String,
    pub tags: TagList,
}

/// Two keys carry the same data, field by field.
pub open spec fn key_eq(a: KeyItem, b: KeyItem) -> bool {
    &&& a.id == b.id
    &&& a.pinned == b.pinned
    &&& a.target_size == b.target_size
    &&& a.revision == b.revision
    &&& a.charset@ == b.charset@
    &&& a.domain@ == b.domain@
    &&& a.username@ == b.username@
    &&& opt_view(a.notes) == opt_view(b.notes)
    &&& a.created_at == b.created_at
    &&& opt_view(a.custom_icon) == opt_view(b.custom_icon)
    &&& a.version@ == b.version@
    &&& a.tags@ == b.tags@
}

/// Copies a key.
pub fn clone_key(k: &KeyItem) -> (r: KeyItem)
    ensures
        key_eq(r, *k),
        r.tags.wf() == k.tags.wf(),
{
    KeyItem {
        id: k.id,
        pinned: k.pinned,
        target_size: k.target_size,
        revision: k.revision,
        charset: k.charset.clone(),
        domain: k.domain.clone(),
        username: k.username.clone(),
        notes: clone_opt_string(&k.notes),
        created_at: k.created_at,
        custom_icon: clone_opt_string(&k.custom_icon),
        version: k.version.clone(),
        tags: k.tags.duplicate(),
    }
}

/// The fields of a new or replacing key, as a caller supplies them.
pub struct KeyData {
    pub target_size: i64,
    pub revision: i64,
    pub charset: String,
    pub domain: String,
    pub username: String,
    pub notes: Option<String>,
    pub custom_icon: Option<String>,
    pub version: String,
    pub tags: TagList,
}

/// One denormalized search-index row: the searchable fields of one key,
/// with the tags joined by one space.
pub struct SearchIndexRow {
    pub id: i64,
    pub domain: String,
    pub username: String,
    pub tags: String,
    pub notes: Option<String>,
}

/// Whether an index row carries exactly the searchable fields of a key.
pub open spec fn row_matches_key(row: SearchIndexRow, key: KeyItem) -> bool {
    &&& row.id == key.id
    &&& row.domain@ == key.domain@
    &&& row.username@ == key.username@
    &&& row.tags@ == joined_tags(key.tags@, ' ')
    &&& opt_view(row.notes) == opt_view(key.notes)
}

/// Builds the index row of a key.
pub(crate) fn index_row_for(key: &KeyItem) -> (r: SearchIndexRow)
    ensures
        row_matches_key(r, *key),
{
    SearchIndexRow {
        id: key.id,
        domain: key.domain.clone(),
        username: key.username.clone(),
        tags: key.tags.join(' '),
        notes: clone_opt_string(&key.notes),
    }
}

/// One stored, named charset.
pub struct CharsetItem {
    pub name: String,
    pub charset: String,
    pub description: Option<String>,
}

/// Two charset rows carry the same data.
pub open spec fn charset_item_eq(a: CharsetItem, b: CharsetItem) -> bool {
    &&& a.name@ == b.name@
    &&& a.charset@ == b.charset@
    &&& opt_view(a.description) == opt_view(b.description)
}

/// Copies a charset row.
pub fn clone_charset_item(c: &CharsetItem) -> (r: CharsetItem)
    ensures
        charset_item_eq(r, *c),
{
    CharsetItem {
        name: c.name.clone(),
        charset: c.charset.clone(),
        description: clone_opt_string(&c.description),
    }
}

/// Every rule a key's data violates, in a fixed order, one entry per rule:
/// the target size must lie in `1..=64`; the charset expression must be
/// non-empty and parse; domain, username and the algorithm tag must be
/// non-empty.
pub open spec fn key_data_violations(
    target_size: int,
    charset: Seq<char>,
    domain: Seq<char>,
    username: Seq<char>,
    version: Seq<char>,
) -> Seq<ValidationError> {
    (if target_size < 1 || target_size > 64 {
        seq![ValidationError::InvalidTargetLength]
    } else {
        Seq::empty()
    }) + (if charset.len() == 0 {
        seq![ValidationError::EmptyCharset]
    } else if symbols_of(charset) is None {
        seq![ValidationError::InvalidCharset]
    } else {
        Seq::empty()
    }) + (if domain.len() == 0 {
        seq![ValidationError::EmptyDomain]
    } else {
        Seq::empty()
    }) + (if username.len() == 0 {
        seq![ValidationError::EmptyUsername]
    } else {
        Seq::empty()
    }) + (if version.len() == 0 {
        seq![ValidationError::EmptyVersion]
    } else {
        Seq::empty()
    })
}

/// The violations of a key's supplied data.
pub open spec fn data_violations(d: KeyData) -> Seq<ValidationError> {
    key_data_violations(d.target_size as int, d.charset@, d.domain@, d.username@, d.version@)
}

/// Collects every violated rule of a key's data.
pub fn validate_key_data(d: &KeyData) -> (r: Vec<ValidationError>)
    ensures
        r@ == data_violations(*d),
{
    let mut errors: Vec<ValidationError> = Vec::new();
    if d.target_size < 1 || d.target_size > 64 {
        errors.push(ValidationError::InvalidTargetLength);
    }
    if d.charset.as_str().is_empty() {
        errors.push(ValidationError::EmptyCharset);
    } else {
        match crate::charset::parse_table(d.charset.as_str()) {
            Ok(_) => (),
            Err(_) => {
                errors.push(ValidationError::InvalidCharset);
            },
        }
    }
    if d.domain.as_str().is_empty() {
        errors.push(ValidationError::EmptyDomain);
    }
    if d.username.as_str().is_empty() {
        errors.push(ValidationError::EmptyUsername);
    }
    if d.version.as_str().is_empty() {
        errors.push(ValidationError::EmptyVersion);
    }
    proof {
        assert(errors@ =~= data_violations(*d));
    }
    errors
}

/// Whether some key in the sequence carries the given id.
pub open spec fn has_key(keys: Seq<KeyItem>, id: i64) -> bool {
    exists|i: int| 0 <= i < keys.len() && keys[i].id == id
}

/// The position of the key with the given id.
pub open spec fn key_index_of(keys: Seq<KeyItem>, id: i64) -> int {
    choose|i: int| 0 <= i < keys.len() && keys[i].id == id
}

/// Whether a new key carries exactly the supplied data, stamped with the
/// given id and creation time, unpinned.
pub open spec fn key_from_data(k: KeyItem, d: KeyData, id: i64, now: i64) -> bool {
    &&& k.id == id
    &&& k.pinned == false
    &&& k.target_size == d.target_size
    &&& k.revision == d.revision
    &&& k.charset@ == d.charset@
    &&& k.domain@ == d.domain@
    &&& k.username@ == d.username@
    &&& opt_view(k.notes) == opt_view(d.notes)
    &&& k.created_at == now
    &&& opt_view(k.custom_icon) == opt_view(d.custom_icon)
    &&& k.version@ == d.version@
    &&& k.tags@ == d.tags@
}

/// Whether an updated key replaces every caller-supplied field and keeps
/// the id, the pin state and the creation time of the old key.
pub open spec fn key_updated(k: KeyItem, prev: KeyItem, d: KeyData) -> bool {
    &&& k.id == prev.id
    &&& k.pinned == prev.pinned
    &&& k.created_at == prev.created_at
    &&& k.target_size == d.target_size
    &&& k.revision == d.revision
    &&& k.charset@ == d.charset@
    &&& k.domain@ == d.domain@
    &&& k.username@ == d.username@
    &&& opt_view(k.notes) == opt_view(d.notes)
    &&& opt_view(k.custom_icon) == opt_view(d.custom_icon)
    &&& k.version@ == d.version@
    &&& k.tags@ == d.tags@
}

/// The keys kept by a pinned-only listing.
pub open spec fn keys_with_pin(keys: Seq<KeyItem>, pinned_only: bool) -> Seq<KeyItem>
    decreases keys.len(),
{
    if keys.len() == 0 {
        Seq::empty()
    } else {
        let rest = keys_with_pin(keys.drop_first(), pinned_only);
        if !pinned_only || keys[0].pinned {
            seq![keys[0]] + rest
        } else {
            rest
        }
    }
}

/// Listing one more key appends it exactly when the filter keeps it.
proof fn lemma_keys_with_pin_snoc(keys: Seq<KeyItem>, k: KeyItem, pinned_only: bool)
    ensures
        keys_with_pin(keys.push(k), pinned_only) == if !pinned_only || k.pinned {
            keys_with_pin(keys, pinned_only) + seq![k]
        } else {
            keys_with_pin(keys, pinned_only)
        },
    decreases keys.len(),
{
    if keys.len() == 0 {
        assert(keys =~= Seq::<KeyItem>::empty());
        assert(keys.push(k)[0] == k);
        assert(keys.push(k).drop_first() =~= keys);
        if !pinned_only || k.pinned {
            assert(keys_with_pin(keys.push(k), pinned_only) == seq![k] + keys_with_pin(
                keys,
                pinned_only,
            ));
            assert(keys_with_pin(keys, pinned_only) == Seq::<KeyItem>::empty());
            assert(seq![k] + keys_with_pin(keys, pinned_only) =~= keys_with_pin(keys, pinned_only)
                + seq![k]);
        }
    } else {
        assert(keys.push(k)[0] == keys[0]);
        assert(keys.push(k).drop_first() =~= keys.drop_first().push(k));
        lemma_keys_with_pin_snoc(keys.drop_first(), k, pinned_only);
        if keys[0].pinned || !pinned_only {
            if !pinned_only || k.pinned {
                assert(seq![keys[0]] + (keys_with_pin(keys.drop_first(), pinned_only) + seq![k])
                    =~= (seq![keys[0]] + keys_with_pin(keys.drop_first(), pinned_only)) + seq![k]);
            }
        }
    }
}

/// The profile store: key rows, their search-index shadow rows, and named
/// charsets, with the next fresh key id.
pub struct ProfileDB {
    keys: Vec<KeyItem>,
    index: Vec<SearchIndexRow>,
    charsets: Vec<CharsetItem>,
    next_id: i64,
}

impl ProfileDB {
    /// The stored keys.
    pub closed spec fn spec_keys(&self) -> Seq<KeyItem> {
        self.keys@
    }

    /// The search-index rows.
    pub closed spec fn spec_index(&self) -> Seq<SearchIndexRow> {
        self.index@
    }

    /// The stored charsets.
    pub closed spec fn spec_charsets(&self) -> Seq<CharsetItem> {
        self.charsets@
    }

    /// The next fresh key id.
    pub closed spec fn spec_next_id(&self) -> i64 {
        self.next_id
    }

    /// The store's invariant: one index row per key, in the same position,
    /// carrying exactly the key's searchable fields; key ids unique and
    /// below the next fresh id; tag lists duplicate-free; charset names
    /// unique.
    pub open spec fn wf(&self) -> bool {
        &&& self.spec_index().len() == self.spec_keys().len()
        &&& forall|i: int|
            0 <= i < self.spec_keys().len() ==> row_matches_key(
                #[trigger] self.spec_index()[i],
                self.spec_keys()[i],
            )
        &&& forall|i: int, j: int|
            0 <= i < j < self.spec_keys().len() ==> self.spec_keys()[i].id != self.spec_keys()[j].id
        &&& forall|i: int|
            0 <= i < self.spec_keys().len() ==> (#[trigger] self.spec_keys()[i]).id
                < self.spec_next_id()
        &&& forall|i: int|
            0 <= i < self.spec_keys().len() ==> (#[trigger] self.spec_keys()[i]).tags.wf()
        &&& forall|i: int, j: int|
            0 <= i < j < self.spec_charsets().len() ==> self.spec_charsets()[i].name@
                != self.spec_charsets()[j].name@
        &&& self.spec_next_id() >= 1
    }

    /// Whether two stores hold the same rows and id counter.
    pub open spec fn state_eq(&self, other: &ProfileDB) -> bool {
        &&& self.spec_keys() == other.spec_keys()
        &&& self.spec_index() == other.spec_index()
        &&& self.spec_charsets() == other.spec_charsets()
        &&& self.spec_next_id() == other.spec_next_id()
    }

    /// An empty store.
    pub fn new() -> (r: ProfileDB)
        ensures
            r.wf(),
            r.spec_keys().len() == 0,
            r.spec_index().len() == 0,
            r.spec_charsets().len() == 0,
            r.spec_next_id() == 1,
    {
        ProfileDB { keys: Vec::new(), index: Vec::new(), charsets: Vec::new(), next_id: 1 }
    }

    /// The position of the key with the given id, if it is stored.
    fn find_key(&self, key_id: i64) -> (r: Option<usize>)
        ensures
            match r {
                Some(k) => k < self.spec_keys().len() && self.spec_keys()[k as int].id == key_id,
                None => !has_key(self.spec_keys(), key_id),
            },
    {
        let mut i: usize = 0;
        while i < self.keys.len()
            invariant
                i <= self.spec_keys().len(),
                forall|k: int| 0 <= k < i ==> self.spec_keys()[k].id != key_id,
            decreases self.spec_keys().len() - i,
        {
            if self.keys[i].id == key_id {
                return Some(i);
            }
            i = i + 1;
        }
        proof {
            if has_key(self.spec_keys(), key_id) {
                let k = choose|k: int|
                    0 <= k < self.spec_keys().len() && self.spec_keys()[k].id == key_id;
                assert(false);
            }
        }
        None
    }

    /// Inserts a validated key: stamps the creation time and a fresh id,
    /// stores the key row and a freshly built index row together, and
    /// reports every violated rule at once instead of the first.
    pub fn insert_key(&mut self, item: KeyData, now: i64) -> (r: Result<i64, Error>)
        requires
            old(self).wf(),
            item.tags.wf(),
        ensures
            final(self).wf(),
            ({
                let violations = data_violations(item);
                if violations.len() > 0 {
                    &&& r matches Err(e) && e matches Error::ValidationError(list) && list@
                        == violations
                    &&& final(self).state_eq(old(self))
                } else if old(self).spec_next_id() == i64::MAX {
                    &&& r matches Err(e) && e is DatabaseError
                    &&& final(self).state_eq(old(self))
                } else {
                    &&& r matches Ok(id) && id == old(self).spec_next_id()
                    &&& final(self).spec_keys().len() == old(self).spec_keys().len() + 1
                    &&& final(self).spec_keys().take(old(self).spec_keys().len() as int) == old(
                        self,
                    ).spec_keys()
                    &&& key_from_data(
                        final(self).spec_keys().last(),
                        item,
                        old(self).spec_next_id(),
                        now,
                    )
                    &&& final(self).spec_index().take(old(self).spec_index().len() as int) == old(
                        self,
                    ).spec_index()
                    &&& final(self).spec_charsets() == old(self).spec_charsets()
                    &&& final(self).spec_next_id() == old(self).spec_next_id() + 1
                }
            }),
    {
        let errors = validate_key_data(&item);
        if errors.len() > 0 {
            return Err(Error::ValidationError(errors));
        }
        if self.next_id == i64::MAX {
            return Err(Error::DatabaseError(String::from_str("key id space is exhausted")));
        }
        let id = self.next_id;
        let key = KeyItem {
            id,
            pinned: false,
            target_size: item.target_size,
            revision: item.revision,
            charset: item.charset,
            domain: item.domain,
            username: item.username,
            notes: item.notes,
            created_at: now,
            custom_icon: item.custom_icon,
            version: item.version,
            tags: item.tags,
        };
        let row = index_row_for(&key);
        let ghost keys_old = self.keys@;
        let ghost index_old = self.index@;
        self.keys.push(key);
        self.index.push(row);
        self.next_id = id + 1;
        proof {
            assert(self.keys@.take(keys_old.len() as int) =~= keys_old);
            assert(self.index@.take(index_old.len() as int) =~= index_old);
        }
        Ok(id)
    }

    /// Replaces every caller-supplied field of the key with the given id,
    /// keeping its id, pin state and creation time, and overwrites its
    /// index row in the same step.  A missing id changes nothing.
    pub fn update_key(&mut self, key_id: i64, item: KeyData) -> (r: Result<(), Error>)
        requires
            old(self).wf(),
            item.tags.wf(),
        ensures
            final(self).wf(),
            ({
                let violations = data_violations(item);
                let keys0 = old(self).spec_keys();
                if violations.len() > 0 {
                    &&& r matches Err(e) && e matches Error::ValidationError(list) && list@
                        == violations
                    &&& final(self).state_eq(old(self))
                } else if !has_key(keys0, key_id) {
                    &&& r is Ok
                    &&& final(self).state_eq(old(self))
                } else {
                    let k = key_index_of(keys0, key_id);
                    &&& r is Ok
                    &&& final(self).spec_keys().len() == keys0.len()
                    &&& forall|j: int|
                        0 <= j < keys0.len() && j != k ==> final(self).spec_keys()[j] == keys0[j]
                    &&& key_updated(final(self).spec_keys()[k], keys0[k], item)
                    &&& forall|j: int|
                        0 <= j < keys0.len() && j != k ==> final(self).spec_index()[j] == old(
                            self,
                        ).spec_index()[j]
                    &&& final(self).spec_charsets() == old(self).spec_charsets()
                    &&& final(self).spec_next_id() == old(self).spec_next_id()
                }
            }),
    {
        let errors = validate_key_data(&item);
        if errors.len() > 0 {
            return Err(Error::ValidationError(errors));
        }
        match self.find_key(key_id) {
            None => Ok(()),
            Some(k) => {
                proof {
                    let ki = key_index_of(old(self).spec_keys(), key_id);
                    assert(old(self).spec_keys()[k as int].id == key_id);
                    if ki != k as int {
                        assert(old(self).spec_keys()[ki].id == key_id);
                        assert(false);
                    }
                }
                let prev_pinned = self.keys[k].pinned;
                let prev_created = self.keys[k].created_at;
                let key = KeyItem {
                    id: key_id,
                    pinned: prev_pinned,
                    target_size: item.target_size,
                    revision: item.revision,
                    charset: item.charset,
                    domain: item.domain,
                    username: item.username,
                    notes: item.notes,
                    created_at: prev_created,
                    custom_icon: item.custom_icon,
                    version: item.version,
                    tags: item.tags,
                };
                let row = index_row_for(&key);
                self.keys.set(k, key);
                self.index.set(k, row);
                Ok(())
            },
        }
    }

    /// Flips the pin state of the key with the given id; its index row is
    /// untouched, since the pin state is not searchable.  A missing id
    /// changes nothing.
    pub fn update_pin_status(&mut self, key_id: i64, pin_status: bool) -> (r: Result<(), Error>)
        requires
            old(self).wf(),
        ensures
            final(self).wf(),
            r is Ok,
            final(self).spec_index() == old(self).spec_index(),
            final(self).spec_charsets() == old(self).spec_charsets(),
            final(self).spec_next_id() == old(self).spec_next_id(),
            ({
                let keys0 = old(self).spec_keys();
                if !has_key(keys0, key_id) {
                    final(self).state_eq(old(self))
                } else {
                    let k = key_index_of(keys0, key_id);
                    &&& final(self).spec_keys().len() == keys0.len()
                    &&& forall|j: int|
                        0 <= j < keys0.len() && j != k ==> final(self).spec_keys()[j] == keys0[j]
                    &&& ({
                        let updated = final(self).spec_keys()[k];
                        let prev = keys0[k];
                        &&& updated.pinned == pin_status
                        &&& updated.id == prev.id
                        &&& updated.target_size == prev.target_size
                        &&& updated.revision == prev.revision
                        &&& updated.charset@ == prev.charset@
                        &&& updated.domain@ == prev.domain@
                        &&& updated.username@ == prev.username@
                        &&& opt_view(updated.notes) == opt_view(prev.notes)
                        &&& updated.created_at == prev.created_at
                        &&& opt_view(updated.custom_icon) == opt_view(prev.custom_icon)
                        &&& updated.version@ == prev.version@
                        &&& updated.tags@ == prev.tags@
                    })
                }
            }),
    {
        match self.find_key(key_id) {
            None => Ok(()),
            Some(k) => {
                proof {
                    let ki = key_index_of(old(self).spec_keys(), key_id);
                    if ki != k as int {
                        assert(old(self).spec_keys()[ki].id == key_id);
                        assert(false);
                    }
                }
                let mut key = clone_key(&self.keys[k]);
                key.pinned = pin_status;
                self.keys.set(k, key);
                Ok(())
            },
        }
    }

    /// Removes the key with the given id together with its index row, and
    /// reports whether a row existed.
    pub fn delete_key(&mut self, key_id: i64) -> (r: Result<bool, Error>)
        requires
            old(self).wf(),
        ensures
            final(self).wf(),
            final(self).spec_charsets() == old(self).spec_charsets(),
            final(self).spec_next_id() == old(self).spec_next_id(),
            ({
                let keys0 = old(self).spec_keys();
                if !has_key(keys0, key_id) {
                    &&& r matches Ok(existed) && existed == false
                    &&& final(self).state_eq(old(self))
                } else {
                    let k = key_index_of(keys0, key_id);
                    &&& r matches Ok(existed) && existed == true
                    &&& final(self).spec_keys() == keys0.remove(k)
                    &&& final(self).spec_index() == old(self).spec_index().remove(k)
                }
            }),
    {
        match self.find_key(key_id) {
            None => Ok(false),
            Some(k) => {
                proof {
                    let ki = key_index_of(old(self).spec_keys(), key_id);
                    if ki != k as int {
                        assert(old(self).spec_keys()[ki].id == key_id);
                        assert(false);
                    }
                    old(self).spec_keys().remove_ensures(k as int);
                    old(self).spec_index().remove_ensures(k as int);
                }
                self.keys.remove(k);
                self.index.remove(k);
                Ok(true)
            },
        }
    }

    /// The key with the given id, or nothing when no row carries it; a
    /// missing row is not an error.  The returned key always carries its
    /// tag set, empty when it has no tags, never absent.
    pub fn get_key_by_id(&self, key_id: i64) -> (r: Result<Option<KeyItem>, Error>)
        requires
            self.wf(),
        ensures
            ({
                let keys0 = self.spec_keys();
                if !has_key(keys0, key_id) {
                    r matches Ok(o) && o is None
                } else {
                    &&& r matches Ok(o)
                    &&& o matches Some(k)
                    &&& key_eq(k, keys0[key_index_of(keys0, key_id)])
                }
            }),
    {
        match self.find_key(key_id) {
            None => Ok(None),
            Some(k) => {
                proof {
                    let ki = key_index_of(self.spec_keys(), key_id);
                    if ki != k as int {
                        assert(self.spec_keys()[ki].id == key_id);
                        assert(false);
                    }
                }
                Ok(Some(clone_key(&self.keys[k])))
            },
        }
    }

    /// All keys, or only the pinned ones, in storage order.  Every returned
    /// key carries its tag set, empty when it has no tags, never absent.
    pub fn get_keys(&self, pinned_only: bool) -> (r: Result<Vec<KeyItem>, Error>)
        requires
            self.wf(),
        ensures
            ({
                let listed = keys_with_pin(self.spec_keys(), pinned_only);
                &&& r matches Ok(v)
                &&& v@.len() == listed.len()
                &&& forall|i: int| 0 <= i < listed.len() ==> key_eq(#[trigger] v@[i], listed[i])
            }),
    {
        let mut out: Vec<KeyItem> = Vec::new();
        let mut i: usize = 0;
        while i < self.keys.len()
            invariant
                self.wf(),
                i <= self.spec_keys().len(),
                out@.len() == keys_with_pin(self.spec_keys().take(i as int), pinned_only).len(),
                forall|j: int|
                    0 <= j < out@.len() ==> key_eq(
                        #[trigger] out@[j],
                        keys_with_pin(self.spec_keys().take(i as int), pinned_only)[j],
                    ),
            decreases self.spec_keys().len() - i,
        {
            let ghost prefix = self.spec_keys().take(i as int);
            let ghost cur = self.spec_keys()[i as int];
            if !pinned_only || self.keys[i].pinned {
                let item = clone_key(&self.keys[i]);
                out.push(item);
            }
            proof {
                lemma_keys_with_pin_snoc(prefix, cur, pinned_only);
                assert(prefix.push(cur) =~= self.spec_keys().take(i + 1 as int));
                let listed1 = keys_with_pin(self.spec_keys().take(i + 1 as int), pinned_only);
                let listed0 = keys_with_pin(prefix, pinned_only);
                if !pinned_only || cur.pinned {
                    assert(listed1 == listed0 + seq![cur]);
                    assert(listed1[listed0.len() as int] == cur);
                    assert forall|j: int| 0 <= j < out@.len() implies key_eq(
                        #[trigger] out@[j],
                        listed1[j],
                    ) by {
                        if j < listed0.len() {
                            assert(listed1[j] == listed0[j]);
                        }
                    }
                } else {
                    assert(listed1 == listed0);
                }
            }
            i = i + 1;
        }
        proof {
            assert(self.spec_keys().take(self.spec_keys().len() as int) =~= self.spec_keys());
        }
        Ok(out)
    }

    /// The charset violations of a named charset row: the name must be
    /// non-empty, the expression non-empty and parseable.
    pub fn insert_charset(&mut self, item: CharsetItem) -> (r: Result<String, Error>)
        requires
            old(self).wf(),
        ensures
            final(self).wf(),
            ({
                let violations = charset_item_violations(item.name@, item.charset@);
                if violations.len() > 0 {
                    &&& r matches Err(e) && e matches Error::ValidationError(list) && list@
                        == violations
                    &&& final(self).state_eq(old(self))
                } else if charset_name_taken(old(self).spec_charsets(), item.name@) {
                    &&& r matches Err(e) && e is DatabaseError
                    &&& final(self).state_eq(old(self))
                } else {
                    &&& r matches Ok(name) && name@ == item.name@
                    &&& final(self).spec_charsets().len() == old(self).spec_charsets().len() + 1
                    &&& final(self).spec_charsets().take(old(self).spec_charsets().len() as int)
                        == old(self).spec_charsets()
                    &&& charset_item_eq(final(self).spec_charsets().last(), item)
                    &&& final(self).spec_keys() == old(self).spec_keys()
                    &&& final(self).spec_index() == old(self).spec_index()
                    &&& final(self).spec_next_id() == old(self).spec_next_id()
                }
            }),
    {
        let mut errors: Vec<ValidationError> = Vec::new();
        if item.name.as_str().is_empty() {
            errors.push(ValidationError::EmptyName);
        }
        if item.charset.as_str().is_empty() {
            errors.push(ValidationError::EmptyCharset);
        } else {
            match crate::charset::parse_table(item.charset.as_str()) {
                Ok(_) => (),
                Err(_) => {
                    errors.push(ValidationError::InvalidCharset);
                },
            }
        }
        proof {
            assert(errors@ =~= charset_item_violations(item.name@, item.charset@));
        }
        if errors.len() > 0 {
            return Err(Error::ValidationError(errors));
        }
        let mut i: usize = 0;
        while i < self.charsets.len()
            invariant
                i <= self.spec_charsets().len(),
                old(self).wf(),
                self.state_eq(old(self)),
                self.wf(),
                charset_item_violations(item.name@, item.charset@).len() == 0,
                forall|k: int| 0 <= k < i ==> self.spec_charsets()[k].name@ != item.name@,
            decreases self.spec_charsets().len() - i,
        {
            if str_eq(self.charsets[i].name.as_str(), item.name.as_str()) {
                proof {
                    assert(self.spec_charsets()[i as int].name@ == item.name@);
                    assert(charset_name_taken(old(self).spec_charsets(), item.name@));
                }
                return Err(
                    Error::DatabaseError(String::from_str("a charset with this name exists")),
                );
            }
            i = i + 1;
        }
        proof {
            if charset_name_taken(self.spec_charsets(), item.name@) {
                let k = choose|k: int|
                    0 <= k < self.spec_charsets().len() && self.spec_charsets()[k].name@
                        == item.name@;
                assert(false);
            }
        }
        let name = item.name.clone();
        let ghost charsets_old = self.charsets@;
        let ghost new_name = item.name@;
        self.charsets.push(item);
        proof {
            assert(self.charsets@.take(charsets_old.len() as int) =~= charsets_old);
            assert forall|a: int, b: int|
                0 <= a < b < self.charsets@.len() implies self.charsets@[a].name@
                != self.charsets@[b].name@ by {
                if b == self.charsets@.len() - 1 {
                    assert(self.charsets@[a] == charsets_old[a]);
                    assert(self.charsets@[b].name@ == new_name);
                } else {
                    assert(self.charsets@[a] == charsets_old[a]);
                    assert(self.charsets@[b] == charsets_old[b]);
                }
            }
        }
        Ok(name)
    }

    /// All stored charsets, in storage order.
    pub fn get_charsets(&self) -> (r: Result<Vec<CharsetItem>, Error>)
        requires
            self.wf(),
        ensures
            ({
                &&& r matches Ok(v)
                &&& v@.len() == self.spec_charsets().len()
                &&& forall|i: int|
                    0 <= i < v@.len() ==> charset_item_eq(
                        #[trigger] v@[i],
                        self.spec_charsets()[i],
                    )
            }),
    {
        let mut out: Vec<CharsetItem> = Vec::new();
        let mut i: usize = 0;
        while i < self.charsets.len()
            invariant
                i <= self.spec_charsets().len(),
                out@.len() == i,
                forall|j: int|
                    0 <= j < i ==> charset_item_eq(#[trigger] out@[j], self.spec_charsets()[j]),
            decreases self.spec_charsets().len() - i,
        {
            let item = clone_charset_item(&self.charsets[i]);
            out.push(item);
            i = i + 1;
        }
        Ok(out)
    }

    /// Removes the charset with the given name and reports how many rows
    /// went away: one when the name was stored, none otherwise.
    pub fn delete_charset(&mut self, name: &str) -> (r: Result<u64, Error>)
        requires
            old(self).wf(),
        ensures
            final(self).wf(),
            final(self).spec_keys() == old(self).spec_keys(),
            final(self).spec_index() == old(self).spec_index(),
            final(self).spec_next_id() == old(self).spec_next_id(),
            ({
                let charsets0 = old(self).spec_charsets();
                if !charset_name_taken(charsets0, name@) {
                    &&& r matches Ok(n) && n == 0
                    &&& final(self).state_eq(old(self))
                } else {
                    let k = charset_index_of(charsets0, name@);
                    &&& r matches Ok(n) && n == 1
                    &&& final(self).spec_charsets() == charsets0.remove(k)
                }
            }),
    {
        let mut i: usize = 0;
        while i < self.charsets.len()
            invariant
                i <= self.spec_charsets().len(),
                old(self).wf(),
                self.state_eq(old(self)),
                self.wf(),
                forall|k: int| 0 <= k < i ==> self.spec_charsets()[k].name@ != name@,
            decreases self.spec_charsets().len() - i,
        {
            if str_eq(self.charsets[i].name.as_str(), name) {
                proof {
                    assert(old(self).spec_charsets()[i as int].name@ == name@);
                    assert(charset_name_taken(old(self).spec_charsets(), name@));
                    let ki = charset_index_of(old(self).spec_charsets(), name@);
                    if ki != i as int {
                        assert(old(self).spec_charsets()[ki].name@ == name@);
                        assert(false);
                    }
                    old(self).spec_charsets().remove_ensures(i as int);
                }
                self.charsets.remove(i);
                return Ok(1);
            }
            i = i + 1;
        }
        proof {
            if charset_name_taken(self.spec_charsets(), name@) {
                let k = choose|k: int|
                    0 <= k < self.spec_charsets().len() && self.spec_charsets()[k].name@ == name@;
                assert(false);
            }
        }
        Ok(0)
    }
}

/// Whether some stored charset carries the given name.
pub open spec fn charset_name_taken(charsets: Seq<CharsetItem>, name: Seq<char>) -> bool {
    exists|i: int| 0 <= i < charsets.len() && charsets[i].name@ == name
}

/// The position of the charset with the given name.
pub open spec fn charset_index_of(charsets: Seq<CharsetItem>, name: Seq<char>) -> int {
    choose|i: int| 0 <= i < charsets.len() && charsets[i].name@ == name
}

/// Every rule a named charset row violates, one entry per rule: the name
/// must be non-empty, the expression non-empty and parseable.
pub open spec fn charset_item_violations(name: Seq<char>, charset: Seq<char>) -> Seq<
    ValidationError,
> {
    (if name.len() == 0 {
        seq![ValidationError::EmptyName]
    } else {
        Seq::empty()
    }) + (if charset.len() == 0 {
        seq![ValidationError::EmptyCharset]
    } else if symbols_of(charset) is None {
        seq![ValidationError::InvalidCharset]
    } else {
        Seq::empty()
    })
}

/// Search-index non-divergence: under the store invariant every key has
/// exactly one index row — the one at its own position, carrying exactly
/// the key's searchable fields — and no index row exists without its key,
/// whatever sequence of inserts, updates and deletes produced the store.
pub proof fn lemma_search_index_sync(db: &ProfileDB)
    requires
        db.wf(),
    ensures
        db.spec_index().len() == db.spec_keys().len(),
        forall|i: int|
            0 <= i < db.spec_keys().len() ==> row_matches_key(
                #[trigger] db.spec_index()[i],
                db.spec_keys()[i],
            ),
        forall|i: int, j: int|
            0 <= i < db.spec_index().len() && 0 <= j < db.spec_index().len() && i != j
                ==> #[trigger] db.spec_index()[i].id != #[trigger] db.spec_index()[j].id,
{
    assert forall|i: int, j: int|
        0 <= i < db.spec_index().len() && 0 <= j < db.spec_index().len() && i
            != j implies #[trigger] db.spec_index()[i].id != #[trigger] db.spec_index()[j].id by {
        assert(row_matches_key(db.spec_index()[i], db.spec_keys()[i]));
        assert(row_matches_key(db.spec_index()[j], db.spec_keys()[j]));
        if i < j {
            assert(db.spec_keys()[i].id != db.spec_keys()[j].id);
        } else {
            assert(db.spec_keys()[j].id != db.spec_keys()[i].id);
        }
    }
}

} // verus!
