//! The signed, sectioned backup format: `keys` and `charsets` sections as
//! JSON arrays, one `contents/<id>` section per icon, and a `manifest`
//! section written last, naming every other section in write order and
//! carrying a keyed digest over their bytes.  The digest key is derived
//! from the user's unlock passphrase and never stored, so only someone who
//! can reproduce it can validate an archive.

use crate::errors::Error;
use crate::profile::charset_index_of;
use crate::profile::charset_item_eq;
use crate::profile::key_eq;
use crate::profile::charset_name_taken;
use crate::profile::key_index_of;
use crate::profile::opt_view;
use crate::profile::CharsetItem;
use crate::profile::KeyItem;
use crate::profile::ProfileDB;
use crate::profile::SearchIndexRow;
use crate::profile::index_row_for;
use crate::profile::row_matches_key;
use crate::json::dec_of_i64;
use crate::json::dec_digits;
use crate::json::expect_lit;
use crate::json::json_string_of;
use crate::json::parse_i64;
use crate::json::parse_json_string;
use crate::json::dec_at;
use crate::json::dec_i64_at;
use crate::json::string_lit_at;
use crate::json::parse_u64;
use crate::json::write_dec_i64;
use crate::json::write_dec_u64;
use crate::json::write_json_string;
use crate::tags::TagList;
use crate::text::lemma_views_of_push;
use crate::text::push_char;
use crate::text::str_chars;
use crate::text::views_of;
use vstd::prelude::*;
use vstd::string::StringExecFns;

verus! {

/// The manifest of an archive: its format version, the section names in
/// write order, and the keyed digest as lowercase hex, absent until the
/// archive is finished.
pub struct BackupManifest {
    pub version: u8,
    pub files: Vec<String>,
    pub digest: Option<String>,
}

impl BackupManifest {
    /// An empty manifest at the current format version, with no digest yet.
    pub fn new() -> (r: BackupManifest)
        ensures
            r.version == 1,
            r.files@.len() == 0,
            r.digest is None,
    {
        BackupManifest { version: 1, files: Vec::new(), digest: None }
    }
}

impl Default for BackupManifest {
    /// The same empty manifest [`BackupManifest::new`] builds.
    fn default() -> (r: Self)
        ensures
            r.version == 1,
            r.files@.len() == 0,
            r.digest is None,
    {
        BackupManifest::new()
    }
}

/// A JSON array of string literals.
pub open spec fn strings_array_items(items: Seq<Seq<char>>) -> Seq<char>
    decreases items.len(),
{
    if items.len() == 0 {
        Seq::empty()
    } else if items.len() == 1 {
        json_string_of(items[0])
    } else {
        json_string_of(items[0]) + seq![','] + strings_array_items(items.drop_first())
    }
}

/// One more item extends the array body with a comma and its literal.
proof fn lemma_strings_array_snoc(items: Seq<Seq<char>>, t: Seq<char>)
    ensures
        strings_array_items(items.push(t)) == if items.len() == 0 {
            json_string_of(t)
        } else {
            strings_array_items(items) + seq![','] + json_string_of(t)
        },
    decreases items.len(),
{
    if items.len() == 0 {
        assert(items.push(t).len() == 1);
        assert(items.push(t)[0] == t);
        assert(strings_array_items(items.push(t)) == json_string_of(t));
    } else {
        assert(items.push(t)[0] == items[0]);
        assert(items.push(t).drop_first() =~= items.drop_first().push(t));
        lemma_strings_array_snoc(items.drop_first(), t);
        assert(strings_array_items(items.push(t)) == json_string_of(items[0]) + seq![',']
            + strings_array_items(items.drop_first().push(t)));
        if items.len() == 1 {
            assert(items.drop_first().len() == 0);
            assert(strings_array_items(items.drop_first().push(t)) == json_string_of(t));
            assert(strings_array_items(items) == json_string_of(items[0]));
            assert(json_string_of(items[0]) + seq![','] + json_string_of(t)
                =~= strings_array_items(items) + seq![','] + json_string_of(t));
        } else {
            assert(strings_array_items(items.drop_first().push(t)) == strings_array_items(
                items.drop_first(),
            ) + seq![','] + json_string_of(t));
            assert(strings_array_items(items) == json_string_of(items[0]) + seq![',']
                + strings_array_items(items.drop_first()));
            assert(json_string_of(items[0]) + seq![','] + (strings_array_items(
                items.drop_first(),
            ) + seq![','] + json_string_of(t)) =~= strings_array_items(items) + seq![',']
                + json_string_of(t));
        }
    }
}

/// A JSON array of string literals, brackets included.
pub open spec fn strings_array_of(items: Seq<Seq<char>>) -> Seq<char> {
    seq!['['] + strings_array_items(items) + seq![']']
}

/// Appends a JSON array of string literals.
pub fn write_strings_array(out: &mut String, items: &Vec<String>)
    ensures
        final(out)@ == old(out)@ + strings_array_of(views_of(items@)),
{
    let ghost vs = views_of(items@);
    push_char(out, '[');
    let mut i: usize = 0;
    while i < items.len()
        invariant
            vs == views_of(items@),
            vs.len() == items@.len(),
            i <= vs.len(),
            out@ == old(out)@ + seq!['['] + strings_array_items(vs.take(i as int)),
        decreases vs.len() - i,
    {
        let ghost prefix = vs.take(i as int);
        if i > 0 {
            push_char(out, ',');
        }
        write_json_string(out, items[i].as_str());
        proof {
            assert(vs[i as int] == items@[i as int]@);
            lemma_strings_array_snoc(prefix, vs[i as int]);
            assert(prefix.push(vs[i as int]) =~= vs.take(i + 1 as int));
            assert(out@ =~= old(out)@ + seq!['['] + strings_array_items(vs.take(i + 1 as int)));
        }
        i = i + 1;
    }
    push_char(out, ']');
    proof {
        assert(vs.take(vs.len() as int) =~= vs);
        assert(out@ =~= old(out)@ + strings_array_of(vs));
    }
}

/// Reads a JSON array of string literals in canonical form; an input
/// carrying the rendering of some list at the position is always read back
/// to that list.
#[verifier::rlimit(100)]
pub fn parse_strings_array(cs: &Vec<char>, pos: usize) -> (r: Result<(Vec<String>, usize), Error>)
    ensures
        r matches Ok(p) ==> pos <= p.1 <= cs@.len() && cs@.subrange(pos as int, p.1 as int)
            == strings_array_of(views_of(p.0@)),
        forall|items: Seq<Seq<char>>| #[trigger]
            strings_array_at(cs@, pos as int, items) ==> (r matches Ok(p) && views_of(p.0@)
                == items && p.1 == pos + strings_array_of(items).len()),
{
    let mut j = match expect_lit(cs, pos, "[") {
        Ok(j) => j,
        Err(e) => {
            proof {
                reveal_strlit("[");
                assert forall|items: Seq<Seq<char>>| !strings_array_at(cs@, pos as int, items) by {
                    if strings_array_at(cs@, pos as int, items) {
                        assert(strings_array_of(items)[0] == '[');
                        assert(cs@.skip(pos as int)[0] == cs@[pos as int]);
                        assert("["@.is_prefix_of(cs@.skip(pos as int))) by {
                            assert("["@ =~= cs@.skip(pos as int).subrange(0, 1));
                        }
                    }
                }
            }
            return Err(e);
        },
    };
    proof {
        reveal_strlit("[");
        assert(cs@.subrange(pos as int, j as int) =~= seq!['[']);
    }
    let mut out: Vec<String> = Vec::new();
    proof {
        assert forall|items: Seq<Seq<char>>| #[trigger]
            strings_array_at(cs@, pos as int, items) implies views_of(out@).len() <= items.len()
            && views_of(out@) == items.take(views_of(out@).len() as int) by {
            assert(views_of(out@) =~= items.take(0));
        }
    }
    if j < cs.len() && cs[j] == ']' {
        proof {
            assert(views_of(out@) =~= Seq::<Seq<char>>::empty());
            assert(cs@.subrange(pos as int, j + 1 as int) =~= strings_array_of(views_of(out@)));
            assert forall|items: Seq<Seq<char>>| #[trigger]
                strings_array_at(cs@, pos as int, items) implies items.len() == 0 && j + 1 == pos
                + strings_array_of(items).len() by {
                lemma_array_witness_at(cs@, pos as int, items, 0, j as int);
                if items.len() > 0 {
                    let lit = json_string_of(items[0]);
                    assert(cs@.skip(j as int)[0] == cs@[j as int]);
                    assert(lit[0] == '"');
                    assert(false);
                }
                assert(strings_array_items(items) =~= strings_array_items(items.take(0)));
            }
            assert forall|items: Seq<Seq<char>>| #[trigger]
                strings_array_at(cs@, pos as int, items) implies views_of(out@) == items by {
                assert(items =~= views_of(out@));
            }
        }
        return Ok((out, j + 1));
    }
    proof {
        assert forall|items: Seq<Seq<char>>| !(strings_array_at(cs@, pos as int, items)
            && items.len() == 0) by {
            if strings_array_at(cs@, pos as int, items) && items.len() == 0 {
                lemma_array_witness_at(cs@, pos as int, items, 0, j as int);
                assert(cs@[j as int] == ']');
            }
        }
    }
    loop
        invariant
            pos < j <= cs@.len(),
            cs@.subrange(pos as int, j as int) == seq!['['] + strings_array_items(
                views_of(out@),
            ) || (out@.len() == 0 && cs@.subrange(pos as int, j as int) == seq!['[']),
            forall|items: Seq<Seq<char>>| #[trigger]
                strings_array_at(cs@, pos as int, items) ==> views_of(out@).len() <= items.len()
                    && views_of(out@) == items.take(views_of(out@).len() as int) && items.len()
                    > 0,
        ensures
            j < cs@.len(),
            cs@[j as int] == ']',
            cs@.subrange(pos as int, j as int) == seq!['['] + strings_array_items(views_of(out@)),
            forall|items: Seq<Seq<char>>| #[trigger]
                strings_array_at(cs@, pos as int, items) ==> views_of(out@) == items,
        decreases cs@.len() - j,
    {
        let ghost out_old = views_of(out@);
        let ghost m = out@.len() as int;
        let ghost j_old = j as int;
        proof {
            assert forall|items: Seq<Seq<char>>| #[trigger]
                strings_array_at(cs@, pos as int, items) implies j == pos + 1
                + strings_array_items(items.take(m)).len() && (m == items.len() ==> cs@[j as int]
                == ']') && (m < items.len() && m == 0 ==> string_lit_at(cs@, j as int, items[0]))
                && (m < items.len() && m > 0 ==> cs@[j as int] == ',' && string_lit_at(
                cs@,
                j + 1,
                items[m],
            )) by {
                assert(views_of(out@) == items.take(m));
                if out@.len() == 0 {
                    assert(strings_array_items(items.take(0)) == Seq::<char>::empty());
                    assert(cs@.subrange(pos as int, j as int) =~= seq!['[']);
                } else {
                    assert(strings_array_items(views_of(out@)).len() == j - pos - 1);
                }
                lemma_array_witness_at(cs@, pos as int, items, m, j as int);
            }
        }
        if out.len() > 0 {
            if j >= cs.len() {
                proof {
                    assert forall|items: Seq<Seq<char>>|
                        !strings_array_at(cs@, pos as int, items) by {
                        if strings_array_at(cs@, pos as int, items) {
                            lemma_array_witness_at(cs@, pos as int, items, m, j as int);
                            assert(false);
                        }
                    }
                }
                return Err(Error::InvalidJsonError(String::new()));
            }
            if cs[j] == ']' {
                proof {
                    assert forall|items: Seq<Seq<char>>| #[trigger]
                        strings_array_at(cs@, pos as int, items) implies views_of(out@)
                        == items by {
                        if m < items.len() {
                            assert(cs@[j as int] == ',');
                            assert(false);
                        }
                        assert(items.take(items.len() as int) =~= items);
                    }
                }
                break ;
            }
            if cs[j] != ',' {
                proof {
                    assert forall|items: Seq<Seq<char>>|
                        !strings_array_at(cs@, pos as int, items) by {
                        if strings_array_at(cs@, pos as int, items) {
                            if m == items.len() {
                                assert(cs@[j as int] == ']');
                            } else {
                                assert(cs@[j as int] == ',');
                            }
                        }
                    }
                }
                return Err(Error::InvalidJsonError(String::new()));
            }
            j = j + 1;
        }
        let (value, j2) = match parse_json_string(cs, j) {
            Ok(p) => p,
            Err(e) => {
                proof {
                    assert forall|items: Seq<Seq<char>>|
                        !strings_array_at(cs@, pos as int, items) by {
                        if strings_array_at(cs@, pos as int, items) {
                            if m == 0 {
                                assert(string_lit_at(cs@, j as int, items[0]));
                            } else {
                                assert(string_lit_at(cs@, j as int, items[m]));
                            }
                        }
                    }
                }
                return Err(e);
            },
        };
        let ghost ov = out@;
        out.push(value);
        proof {
            lemma_views_of_push(ov, value);
            lemma_strings_array_snoc(out_old, value@);
            if out_old.len() == 0 {
                assert(cs@.subrange(pos as int, j2 as int) =~= seq!['['] + strings_array_items(
                    views_of(out@),
                ));
            } else {
                assert(cs@[j_old] == ',');
                assert(cs@.subrange(pos as int, j2 as int) =~= seq!['['] + strings_array_items(
                    views_of(out@),
                ));
            }
            assert forall|items: Seq<Seq<char>>| #[trigger]
                strings_array_at(cs@, pos as int, items) implies views_of(out@).len()
                <= items.len() && views_of(out@) == items.take(views_of(out@).len() as int)
                && items.len() > 0 by {
                if m == 0 {
                    assert(string_lit_at(cs@, j_old, items[0]));
                    assert(value@ == items[0]);
                } else {
                    assert(string_lit_at(cs@, j_old + 1, items[m]));
                    assert(value@ == items[m]);
                }
                assert(views_of(out@) == out_old.push(value@));
                assert(views_of(out@) =~= items.take(m + 1));
            }
        }
        j = j2;
        if j >= cs.len() {
            proof {
                assert forall|items: Seq<Seq<char>>|
                    !strings_array_at(cs@, pos as int, items) by {
                    if strings_array_at(cs@, pos as int, items) {
                        assert(views_of(out@) == items.take(m + 1));
                        assert(strings_array_items(views_of(out@)).len() == j - pos - 1);
                        lemma_array_witness_at(cs@, pos as int, items, m + 1, j as int);
                        assert(false);
                    }
                }
            }
            return Err(Error::InvalidJsonError(String::new()));
        }
        if cs[j] == ']' {
            proof {
                assert forall|items: Seq<Seq<char>>| #[trigger]
                    strings_array_at(cs@, pos as int, items) implies views_of(out@) == items by {
                    assert(views_of(out@) == items.take(m + 1));
                    assert(strings_array_items(views_of(out@)).len() == j - pos - 1);
                    lemma_array_witness_at(cs@, pos as int, items, m + 1, j as int);
                    if m + 1 < items.len() {
                        assert(cs@[j as int] == ',');
                        assert(false);
                    }
                    assert(items.take(items.len() as int) =~= items);
                }
            }
            break ;
        }
    }
    proof {
        assert(cs@.subrange(pos as int, j + 1 as int) =~= strings_array_of(views_of(out@)));
        assert forall|items: Seq<Seq<char>>| #[trigger]
            strings_array_at(cs@, pos as int, items) implies j + 1 == pos + strings_array_of(
            items,
        ).len() by {
            assert(views_of(out@) == items);
            assert(strings_array_items(views_of(out@)).len() == j - pos - 1);
        }
    }
    Ok((out, j + 1))
}

/// A prefix of a prefix: transitivity.
proof fn lemma_prefix_trans(a: Seq<char>, b: Seq<char>, t: Seq<char>)
    requires
        a.is_prefix_of(b),
        b.is_prefix_of(t),
    ensures
        a.is_prefix_of(t),
{
    assert forall|k: int| 0 <= k < a.len() implies a[k] == t[k] by {
        assert(a[k] == b[k]);
    }
    assert(a =~= t.subrange(0, a.len() as int));
}

/// Splitting a prefixed concatenation: the left part is a prefix, and the
/// right part follows it.
proof fn lemma_prefix_split(a: Seq<char>, b: Seq<char>, t: Seq<char>)
    requires
        (a + b).is_prefix_of(t),
    ensures
        a.is_prefix_of(t),
        b.is_prefix_of(t.skip(a.len() as int)),
{
    assert forall|k: int| 0 <= k < a.len() implies a[k] == t[k] by {
        assert((a + b)[k] == t[k]);
    }
    assert(a =~= t.subrange(0, a.len() as int));
    assert forall|k: int| 0 <= k < b.len() implies b[k] == t.skip(a.len() as int)[k] by {
        assert((a + b)[a.len() + k] == t[a.len() + k]);
        assert(t.skip(a.len() as int)[k] == t[a.len() + k]);
    }
    assert(b =~= t.skip(a.len() as int).subrange(0, b.len() as int));
}

/// Whether the rendering of a nullable string sits at `pos`.
pub open spec fn nullable_at(cs: Seq<char>, pos: int, o: Option<Seq<char>>) -> bool {
    &&& 0 <= pos <= cs.len()
    &&& nullable_string_of(o).is_prefix_of(cs.skip(pos))
}

/// Whether the canonical array of string literals sits at `pos`.
pub open spec fn strings_array_at(cs: Seq<char>, pos: int, items: Seq<Seq<char>>) -> bool {
    &&& 0 <= pos <= cs.len()
    &&& strings_array_of(items).is_prefix_of(cs.skip(pos))
}

/// Every partial body is a prefix of the whole array body.
proof fn lemma_strings_body_prefix(items: Seq<Seq<char>>, m: int)
    requires
        0 <= m <= items.len(),
    ensures
        strings_array_items(items.take(m)).is_prefix_of(strings_array_items(items)),
    decreases items.len() - m,
{
    if m == items.len() {
        assert(items.take(m) =~= items);
        assert(strings_array_items(items).is_prefix_of(strings_array_items(items)));
    } else {
        lemma_strings_body_prefix(items, m + 1);
        lemma_strings_array_snoc(items.take(m), items[m]);
        assert(items.take(m).push(items[m]) =~= items.take(m + 1));
        let done = strings_array_items(items.take(m));
        let next = strings_array_items(items.take(m + 1));
        assert(done.is_prefix_of(next)) by {
            if m == 0 {
                assert(next == json_string_of(items[m]));
                assert(done == Seq::<char>::empty());
                assert(done =~= next.subrange(0, 0));
            } else {
                assert(next == done + seq![','] + json_string_of(items[m]));
                assert(done =~= next.subrange(0, done.len() as int));
            }
        }
        lemma_prefix_trans(done, next, strings_array_items(items));
    }
}

/// The window of element `m` inside the whole array body: the separating
/// comma, the element's literal, and what follows it.
proof fn lemma_strings_body_window(items: Seq<Seq<char>>, m: int)
    requires
        0 <= m < items.len(),
    ensures
        ({
            let body = strings_array_items(items);
            let done = strings_array_items(items.take(m));
            let sep: int = if m == 0 {
                0int
            } else {
                1int
            };
            let lit = json_string_of(items[m]);
            &&& done.len() + sep + lit.len() <= body.len()
            &&& (m > 0 ==> body[done.len() as int] == ',')
            &&& body.subrange(
                done.len() as int + sep,
                done.len() as int + sep + lit.len() as int,
            ) == lit
            &&& (m + 1 == items.len() ==> done.len() + sep + lit.len() == body.len())
        }),
{
    lemma_strings_body_prefix(items, m + 1);
    lemma_strings_array_snoc(items.take(m), items[m]);
    assert(items.take(m).push(items[m]) =~= items.take(m + 1));
    let body = strings_array_items(items);
    let done = strings_array_items(items.take(m));
    let next = strings_array_items(items.take(m + 1));
    let lit = json_string_of(items[m]);
    if m == 0 {
        assert(next == lit);
        assert(done == Seq::<char>::empty());
        assert forall|k: int| 0 <= k < lit.len() implies body.subrange(
            0int,
            lit.len() as int,
        )[k] == lit[k] by {
            assert(body.subrange(0int, lit.len() as int)[k] == body[k]);
            assert(next[k] == body[k]);
        }
        assert(body.subrange(0int, lit.len() as int) =~= lit);
    } else {
        assert(next == done + seq![','] + lit);
        assert(body[done.len() as int] == next[done.len() as int]);
        assert(next[done.len() as int] == ',');
        assert forall|k: int| 0 <= k < lit.len() implies body.subrange(
            done.len() as int + 1,
            done.len() as int + 1 + lit.len() as int,
        )[k] == lit[k] by {
            assert(body.subrange(done.len() as int + 1, done.len() as int + 1 + lit.len() as int)[
                k] == body[done.len() + 1 + k]);
            assert(next[done.len() + 1 + k] == body[done.len() + 1 + k]);
            assert(next[done.len() + 1 + k] == lit[k]);
        }
        assert(body.subrange(done.len() as int + 1, done.len() as int + 1 + lit.len() as int) =~= lit);
    }
    if m + 1 == items.len() {
        assert(items.take(m + 1) =~= items);
    }
}

/// Where an array witness places the reader after `m` elements: at the
/// closing bracket, or at the comma and literal of the next element.
proof fn lemma_array_witness_at(cs: Seq<char>, pos: int, items: Seq<Seq<char>>, m: int, j: int)
    requires
        strings_array_at(cs, pos, items),
        0 <= m <= items.len(),
        j == pos + 1 + strings_array_items(items.take(m)).len(),
    ensures
        strings_array_items(items.take(m)).len() <= strings_array_items(items).len(),
        pos + 1 + strings_array_items(items).len() < cs.len(),
        m == items.len() ==> j == pos + 1 + strings_array_items(items).len() && cs[j] == ']',
        m < items.len() && m == 0 ==> string_lit_at(cs, j, items[0]),
        m < items.len() && m > 0 ==> cs[j] == ',' && string_lit_at(cs, j + 1, items[m]),
{
    let arr = strings_array_of(items);
    let body = strings_array_items(items);
    assert(arr.len() <= cs.skip(pos).len());
    assert forall|k: int| 0 <= k < arr.len() implies #[trigger] cs[pos + k] == arr[k] by {
        assert(cs.skip(pos)[k] == cs[pos + k]);
    }
    lemma_strings_body_prefix(items, m);
    if m == items.len() {
        assert(items.take(m) =~= items);
        assert(arr[1 + body.len() as int] == ']');
        assert(cs[pos + 1 + body.len() as int] == ']');
    } else {
        lemma_strings_body_window(items, m);
        let done = strings_array_items(items.take(m));
        let sep: int = if m == 0 {
            0int
        } else {
            1int
        };
        let lit = json_string_of(items[m]);
        if m > 0 {
            assert(done.len() + sep + lit.len() <= body.len());
            assert(arr == seq!['['] + body + seq![']']);
            assert((seq!['['] + body)[1 + done.len() as int] == body[done.len() as int]);
            assert(arr[1 + done.len() as int] == (seq!['['] + body)[1 + done.len() as int]);
            assert(cs[pos + 1 + done.len() as int] == arr[1 + done.len() as int]);
            assert(cs[j] == ',');
        }
        let win = body.subrange(done.len() as int + sep, done.len() as int + sep + lit.len() as int);
        assert(win == lit);
        assert forall|k: int| 0 <= k < lit.len() implies cs.skip(j + sep)[k] == lit[k] by {
            assert(win[k] == body[done.len() + sep + k]);
            assert((seq!['['] + body)[1 + done.len() + sep + k] == body[done.len() + sep + k]);
            assert(arr[1 + done.len() + sep + k] == (seq!['['] + body)[1 + done.len() + sep + k]);
            assert(cs[pos + 1 + done.len() + sep + k] == arr[1 + done.len() + sep + k]);
            assert(cs.skip(j + sep)[k] == cs[j + sep + k]);
        }
        assert(lit =~= cs.skip(j + sep).subrange(0, lit.len() as int));
        assert(lit.is_prefix_of(cs.skip(j + sep)));
    }
}

/// The manifest rendered as JSON: the version, the section names, and the
/// digest or null, in that order.
pub open spec fn manifest_json_of(
    version: u8,
    files: Seq<Seq<char>>,
    digest: Option<Seq<char>>,
) -> Seq<char> {
    "{\"version\":"@ + dec_digits(version as nat) + ",\"files\":"@ + strings_array_of(files)
        + ",\"digest\":"@ + (match digest {
        Some(d) => json_string_of(d),
        None => "null"@,
    }) + "}"@
}

/// Renders a manifest as JSON.
pub fn write_manifest(out: &mut String, m: &BackupManifest)
    ensures
        final(out)@ == old(out)@ + manifest_json_of(
            m.version,
            views_of(m.files@),
            opt_view(m.digest),
        ),
{
    out.append("{\"version\":");
    write_dec_u64(out, m.version as u64);
    out.append(",\"files\":");
    write_strings_array(out, &m.files);
    out.append(",\"digest\":");
    match &m.digest {
        Some(d) => {
            write_json_string(out, d.as_str());
        },
        None => {
            out.append("null");
        },
    }
    out.append("}");
    proof {
        assert(out@ =~= old(out)@ + manifest_json_of(
            m.version,
            views_of(m.files@),
            opt_view(m.digest),
        ));
    }
}

/// Whether the input is exactly the rendering of a manifest.
pub open spec fn manifest_is(
    cs: Seq<char>,
    version: u8,
    files: Seq<Seq<char>>,
    digest: Option<Seq<char>>,
) -> bool {
    cs == manifest_json_of(version, files, digest)
}

/// Where a manifest rendering places each field.
proof fn lemma_manifest_positions(
    cs: Seq<char>,
    version: u8,
    files: Seq<Seq<char>>,
    digest: Option<Seq<char>>,
)
    requires
        manifest_is(cs, version, files, digest),
    ensures
        ({
            let p1 = "{\"version\":"@.len() as int;
            let p2 = p1 + dec_digits(version as nat).len();
            let p3 = p2 + ",\"files\":"@.len();
            let p4 = p3 + strings_array_of(files).len();
            let p5 = p4 + ",\"digest\":"@.len();
            let p6 = p5 + nullable_string_of(digest).len();
            &&& "{\"version\":"@.is_prefix_of(cs.skip(0))
            &&& dec_at(cs, p1, version as u64)
            &&& p2 <= cs.len() && ",\"files\":"@.is_prefix_of(cs.skip(p2))
            &&& strings_array_at(cs, p3, files)
            &&& p4 <= cs.len() && ",\"digest\":"@.is_prefix_of(cs.skip(p4))
            &&& nullable_at(cs, p5, digest)
            &&& p6 <= cs.len() && "}"@.is_prefix_of(cs.skip(p6))
            &&& cs.len() == p6 + 1
        }),
{
    let h = manifest_json_of(version, files, digest);
    let r1 = dec_digits(version as nat) + (",\"files\":"@ + (strings_array_of(files) + (
    ",\"digest\":"@ + (nullable_string_of(digest) + "}"@))));
    assert(cs.skip(0) =~= cs);
    assert(h.is_prefix_of(cs)) by {
        assert(h =~= cs.subrange(0, h.len() as int));
    }
    assert(h =~= "{\"version\":"@ + r1);
    lemma_peel(cs, 0, "{\"version\":"@, r1);
    let p1 = "{\"version\":"@.len() as int;
    let r2 = ",\"files\":"@ + (strings_array_of(files) + (",\"digest\":"@ + (
    nullable_string_of(digest) + "}"@)));
    lemma_peel(cs, p1, dec_digits(version as nat), r2);
    let p2 = p1 + dec_digits(version as nat).len();
    let r3 = strings_array_of(files) + (",\"digest\":"@ + (nullable_string_of(digest) + "}"@));
    lemma_peel(cs, p2, ",\"files\":"@, r3);
    let p3 = p2 + ",\"files\":"@.len();
    let r4 = ",\"digest\":"@ + (nullable_string_of(digest) + "}"@);
    lemma_peel(cs, p3, strings_array_of(files), r4);
    let p4 = p3 + strings_array_of(files).len();
    let r5 = nullable_string_of(digest) + "}"@;
    lemma_peel(cs, p4, ",\"digest\":"@, r5);
    let p5 = p4 + ",\"digest\":"@.len();
    lemma_peel(cs, p5, nullable_string_of(digest), "}"@);
    let p6 = p5 + nullable_string_of(digest).len();
    reveal_strlit(",\"files\":");
    assert(cs.skip(p2)[0] == cs[p2]);
    assert(",\"files\":"@[0] == ',');
    assert(dec_digits((version as u64) as nat) == dec_digits(version as nat));
    reveal_strlit("}");
    assert("}"@.len() == 1);
    assert(cs.len() == h.len());
}

/// Reads a manifest in canonical form; the consumed text must be the whole
/// input.  An input that is the rendering of some manifest is always read
/// back to the same values.
#[verifier::rlimit(100)]
pub fn parse_manifest(cs: &Vec<char>) -> (r: Result<BackupManifest, Error>)
    ensures
        r matches Ok(m) ==> cs@ == manifest_json_of(
            m.version,
            views_of(m.files@),
            opt_view(m.digest),
        ),
        forall|version: u8, files: Seq<Seq<char>>, digest: Option<Seq<char>>| #[trigger]
            manifest_is(cs@, version, files, digest) ==> (r matches Ok(m) && m.version == version
                && views_of(m.files@) == files && opt_view(m.digest) == digest),
{
    proof {
        assert forall|version: u8, files: Seq<Seq<char>>, digest: Option<Seq<char>>| #[trigger]
            manifest_is(cs@, version, files, digest) implies ({
            let p1 = "{\"version\":"@.len() as int;
            let p2 = p1 + dec_digits(version as nat).len();
            let p3 = p2 + ",\"files\":"@.len();
            let p4 = p3 + strings_array_of(files).len();
            let p5 = p4 + ",\"digest\":"@.len();
            let p6 = p5 + nullable_string_of(digest).len();
            &&& "{\"version\":"@.is_prefix_of(cs@.skip(0))
            &&& dec_at(cs@, p1, version as u64)
            &&& p2 <= cs@.len() && ",\"files\":"@.is_prefix_of(cs@.skip(p2))
            &&& strings_array_at(cs@, p3, files)
            &&& p4 <= cs@.len() && ",\"digest\":"@.is_prefix_of(cs@.skip(p4))
            &&& nullable_at(cs@, p5, digest)
            &&& p6 <= cs@.len() && "}"@.is_prefix_of(cs@.skip(p6))
            &&& cs@.len() == p6 + 1
            &&& version as u64 <= 255
        }) by {
            lemma_manifest_positions(cs@, version, files, digest);
        }
    }
    let j0 = match expect_lit(cs, 0, "{\"version\":") {
        Ok(j) => j,
        Err(e) => {
            proof {
                assert forall|version: u8, files: Seq<Seq<char>>, digest: Option<Seq<char>>|
                    !manifest_is(cs@, version, files, digest) by {}
            }
            return Err(e);
        },
    };
    let (ver, j1) = match parse_u64(cs, j0) {
        Ok(p) => p,
        Err(e) => {
            proof {
                assert forall|version: u8, files: Seq<Seq<char>>, digest: Option<Seq<char>>|
                    !manifest_is(cs@, version, files, digest) by {}
            }
            return Err(e);
        },
    };
    if ver > 255 {
        proof {
            assert forall|version: u8, files: Seq<Seq<char>>, digest: Option<Seq<char>>|
                !manifest_is(cs@, version, files, digest) by {
                if manifest_is(cs@, version, files, digest) {
                    assert(ver == version as u64);
                }
            }
        }
        return Err(Error::InvalidJsonError(String::new()));
    }
    let j2 = match expect_lit(cs, j1, ",\"files\":") {
        Ok(j) => j,
        Err(e) => {
            proof {
                assert forall|version: u8, files: Seq<Seq<char>>, digest: Option<Seq<char>>|
                    !manifest_is(cs@, version, files, digest) by {}
            }
            return Err(e);
        },
    };
    let (files, j3) = match parse_strings_array(cs, j2) {
        Ok(p) => p,
        Err(e) => {
            proof {
                assert forall|version: u8, files: Seq<Seq<char>>, digest: Option<Seq<char>>|
                    !manifest_is(cs@, version, files, digest) by {}
            }
            return Err(e);
        },
    };
    let j4 = match expect_lit(cs, j3, ",\"digest\":") {
        Ok(j) => j,
        Err(e) => {
            proof {
                assert forall|version: u8, files: Seq<Seq<char>>, digest: Option<Seq<char>>|
                    !manifest_is(cs@, version, files, digest) by {}
            }
            return Err(e);
        },
    };
    let (digest, j5) = match parse_nullable_string(cs, j4) {
        Ok(p) => p,
        Err(e) => {
            proof {
                assert forall|version: u8, files: Seq<Seq<char>>, digest: Option<Seq<char>>|
                    !manifest_is(cs@, version, files, digest) by {}
            }
            return Err(e);
        },
    };
    let j6 = match expect_lit(cs, j5, "}") {
        Ok(j) => j,
        Err(e) => {
            proof {
                assert forall|version: u8, files: Seq<Seq<char>>, digest: Option<Seq<char>>|
                    !manifest_is(cs@, version, files, digest) by {}
            }
            return Err(e);
        },
    };
    if j6 != cs.len() {
        proof {
            assert forall|version: u8, files: Seq<Seq<char>>, digest: Option<Seq<char>>|
                !manifest_is(cs@, version, files, digest) by {}
        }
        return Err(Error::InvalidJsonError(String::new()));
    }
    let m = BackupManifest { version: ver as u8, files, digest };
    proof {
        assert(cs@ =~= cs@.subrange(0, j6 as int));
        assert(cs@ =~= manifest_json_of(m.version, views_of(m.files@), opt_view(m.digest)));
        assert forall|version: u8, fw: Seq<Seq<char>>, dw: Option<Seq<char>>| #[trigger]
            manifest_is(cs@, version, fw, dw) implies m.version == version && views_of(m.files@)
            == fw && opt_view(m.digest) == dw by {
            assert(ver == version as u64);
        }
    }
    Ok(m)
}



/// A nullable JSON string: the literal, or `null` when absent.
pub open spec fn nullable_string_of(o: Option<Seq<char>>) -> Seq<char> {
    match o {
        Some(s) => json_string_of(s),
        None => "null"@,
    }
}

/// A JSON boolean.
pub open spec fn bool_json(b: bool) -> Seq<char> {
    if b {
        "true"@
    } else {
        "false"@
    }
}

/// The numeric head of a key's JSON object.
pub open spec fn key_json_head(id: i64, pinned: bool, target_size: i64, revision: i64) -> Seq<
    char,
> {
    "{\"id\":"@ + dec_of_i64(id) + ",\"pinned\":"@ + bool_json(pinned) + ",\"target_size\":"@
        + dec_of_i64(target_size) + ",\"revision\":"@ + dec_of_i64(revision)
}

/// The middle text fields of a key's JSON object.
pub open spec fn key_json_mid(
    charset: Seq<char>,
    domain: Seq<char>,
    username: Seq<char>,
    notes: Option<Seq<char>>,
) -> Seq<char> {
    ",\"charset\":"@ + json_string_of(charset) + ",\"domain\":"@ + json_string_of(domain)
        + ",\"username\":"@ + json_string_of(username) + ",\"notes\":"@ + nullable_string_of(notes)
}

/// The tail fields of a key's JSON object.
pub open spec fn key_json_tail(
    created_at: i64,
    custom_icon: Option<Seq<char>>,
    version: Seq<char>,
    tags: Seq<Seq<char>>,
) -> Seq<char> {
    ",\"created_at\":"@ + dec_of_i64(created_at) + ",\"custom_icon\":"@ + nullable_string_of(
        custom_icon,
    ) + ",\"version\":"@ + json_string_of(version) + ",\"tags\":"@ + strings_array_of(tags) + "}"@
}

/// One key rendered as a JSON object, fields in storage order, the tag set
/// as an array of strings — always present, empty when the key has none.
pub open spec fn key_json_of(k: KeyItem) -> Seq<char> {
    key_json_head(k.id, k.pinned, k.target_size, k.revision) + key_json_mid(
        k.charset@,
        k.domain@,
        k.username@,
        opt_view(k.notes),
    ) + key_json_tail(k.created_at, opt_view(k.custom_icon), k.version@, k.tags@)
}

/// One charset row rendered as a JSON object.
pub open spec fn charset_json_of(c: CharsetItem) -> Seq<char> {
    "{\"name\":"@ + json_string_of(c.name@) + ",\"charset\":"@ + json_string_of(c.charset@)
        + ",\"description\":"@ + nullable_string_of(opt_view(c.description)) + "}"@
}

/// Appends a nullable JSON string.
fn write_nullable_string(out: &mut String, o: &Option<String>)
    ensures
        final(out)@ == old(out)@ + nullable_string_of(opt_view(*o)),
{
    match o {
        Some(s) => {
            write_json_string(out, s.as_str());
        },
        None => {
            out.append("null");
        },
    }
}

/// Appends the numeric head of a key object.
fn write_key_head(out: &mut String, id: i64, pinned: bool, target_size: i64, revision: i64)
    ensures
        final(out)@ == old(out)@ + key_json_head(id, pinned, target_size, revision),
{
    out.append("{\"id\":");
    write_dec_i64(out, id);
    out.append(",\"pinned\":");
    if pinned {
        out.append("true");
    } else {
        out.append("false");
    }
    out.append(",\"target_size\":");
    write_dec_i64(out, target_size);
    out.append(",\"revision\":");
    write_dec_i64(out, revision);
    proof {
        assert(out@ =~= old(out)@ + key_json_head(id, pinned, target_size, revision));
    }
}

/// Appends the middle text fields of a key object.
fn write_key_mid(
    out: &mut String,
    charset: &String,
    domain: &String,
    username: &String,
    notes: &Option<String>,
)
    ensures
        final(out)@ == old(out)@ + key_json_mid(charset@, domain@, username@, opt_view(*notes)),
{
    out.append(",\"charset\":");
    write_json_string(out, charset.as_str());
    out.append(",\"domain\":");
    write_json_string(out, domain.as_str());
    out.append(",\"username\":");
    write_json_string(out, username.as_str());
    out.append(",\"notes\":");
    write_nullable_string(out, notes);
    proof {
        assert(out@ =~= old(out)@ + key_json_mid(charset@, domain@, username@, opt_view(*notes)));
    }
}

/// Appends the tail fields of a key object.
fn write_key_tail(
    out: &mut String,
    created_at: i64,
    custom_icon: &Option<String>,
    version: &String,
    tags: &TagList,
)
    ensures
        final(out)@ == old(out)@ + key_json_tail(
            created_at,
            opt_view(*custom_icon),
            version@,
            tags@,
        ),
{
    out.append(",\"created_at\":");
    write_dec_i64(out, created_at);
    out.append(",\"custom_icon\":");
    write_nullable_string(out, custom_icon);
    out.append(",\"version\":");
    write_json_string(out, version.as_str());
    out.append(",\"tags\":");
    let tag_items = tags.iter();
    write_strings_array(out, &tag_items);
    out.append("}");
    proof {
        assert(out@ =~= old(out)@ + key_json_tail(
            created_at,
            opt_view(*custom_icon),
            version@,
            tags@,
        ));
    }
}

/// Appends one key as a JSON object.
pub fn write_key_json(out: &mut String, k: &KeyItem)
    ensures
        final(out)@ == old(out)@ + key_json_of(*k),
{
    write_key_head(out, k.id, k.pinned, k.target_size, k.revision);
    write_key_mid(out, &k.charset, &k.domain, &k.username, &k.notes);
    write_key_tail(out, k.created_at, &k.custom_icon, &k.version, &k.tags);
    proof {
        assert(out@ =~= old(out)@ + key_json_of(*k));
    }
}

/// Appends one charset row as a JSON object.
pub fn write_charset_json(out: &mut String, c: &CharsetItem)
    ensures
        final(out)@ == old(out)@ + charset_json_of(*c),
{
    out.append("{\"name\":");
    write_json_string(out, c.name.as_str());
    out.append(",\"charset\":");
    write_json_string(out, c.charset.as_str());
    out.append(",\"description\":");
    write_nullable_string(out, &c.description);
    out.append("}");
    proof {
        assert(out@ =~= old(out)@ + charset_json_of(*c));
    }
}

/// The body of a JSON array of key objects.
pub open spec fn keys_array_items(keys: Seq<KeyItem>) -> Seq<char>
    decreases keys.len(),
{
    if keys.len() == 0 {
        Seq::empty()
    } else if keys.len() == 1 {
        key_json_of(keys[0])
    } else {
        key_json_of(keys[0]) + seq![','] + keys_array_items(keys.drop_first())
    }
}

/// One more key extends the array body.
proof fn lemma_keys_array_snoc(keys: Seq<KeyItem>, k: KeyItem)
    ensures
        keys_array_items(keys.push(k)) == if keys.len() == 0 {
            key_json_of(k)
        } else {
            keys_array_items(keys) + seq![','] + key_json_of(k)
        },
    decreases keys.len(),
{
    if keys.len() == 0 {
        assert(keys.push(k).len() == 1);
        assert(keys.push(k)[0] == k);
        assert(keys_array_items(keys.push(k)) == key_json_of(k));
    } else {
        assert(keys.push(k)[0] == keys[0]);
        assert(keys.push(k).drop_first() =~= keys.drop_first().push(k));
        lemma_keys_array_snoc(keys.drop_first(), k);
        assert(keys_array_items(keys.push(k)) == key_json_of(keys[0]) + seq![',']
            + keys_array_items(keys.drop_first().push(k)));
        if keys.len() == 1 {
            assert(keys.drop_first().len() == 0);
            assert(keys_array_items(keys.drop_first().push(k)) == key_json_of(k));
            assert(keys_array_items(keys) == key_json_of(keys[0]));
            assert(key_json_of(keys[0]) + seq![','] + key_json_of(k) =~= keys_array_items(keys)
                + seq![','] + key_json_of(k));
        } else {
            assert(keys_array_items(keys.drop_first().push(k)) == keys_array_items(
                keys.drop_first(),
            ) + seq![','] + key_json_of(k));
            assert(keys_array_items(keys) == key_json_of(keys[0]) + seq![','] + keys_array_items(
                keys.drop_first(),
            ));
            assert(key_json_of(keys[0]) + seq![','] + (keys_array_items(keys.drop_first()) + seq![
                ',',
            ] + key_json_of(k)) =~= keys_array_items(keys) + seq![','] + key_json_of(k));
        }
    }
}

/// A JSON array of key objects.
pub open spec fn keys_json_of(keys: Seq<KeyItem>) -> Seq<char> {
    seq!['['] + keys_array_items(keys) + seq![']']
}

/// The body of a JSON array of charset objects.
pub open spec fn charsets_array_items(cs: Seq<CharsetItem>) -> Seq<char>
    decreases cs.len(),
{
    if cs.len() == 0 {
        Seq::empty()
    } else if cs.len() == 1 {
        charset_json_of(cs[0])
    } else {
        charset_json_of(cs[0]) + seq![','] + charsets_array_items(cs.drop_first())
    }
}

/// One more charset row extends the array body.
proof fn lemma_charsets_array_snoc(cs: Seq<CharsetItem>, c: CharsetItem)
    ensures
        charsets_array_items(cs.push(c)) == if cs.len() == 0 {
            charset_json_of(c)
        } else {
            charsets_array_items(cs) + seq![','] + charset_json_of(c)
        },
    decreases cs.len(),
{
    if cs.len() == 0 {
        assert(cs.push(c).len() == 1);
        assert(cs.push(c)[0] == c);
        assert(charsets_array_items(cs.push(c)) == charset_json_of(c));
    } else {
        assert(cs.push(c)[0] == cs[0]);
        assert(cs.push(c).drop_first() =~= cs.drop_first().push(c));
        lemma_charsets_array_snoc(cs.drop_first(), c);
        assert(charsets_array_items(cs.push(c)) == charset_json_of(cs[0]) + seq![',']
            + charsets_array_items(cs.drop_first().push(c)));
        if cs.len() == 1 {
            assert(cs.drop_first().len() == 0);
            assert(charsets_array_items(cs.drop_first().push(c)) == charset_json_of(c));
            assert(charsets_array_items(cs) == charset_json_of(cs[0]));
            assert(charset_json_of(cs[0]) + seq![','] + charset_json_of(c)
                =~= charsets_array_items(cs) + seq![','] + charset_json_of(c));
        } else {
            assert(charsets_array_items(cs.drop_first().push(c)) == charsets_array_items(
                cs.drop_first(),
            ) + seq![','] + charset_json_of(c));
            assert(charsets_array_items(cs) == charset_json_of(cs[0]) + seq![',']
                + charsets_array_items(cs.drop_first()));
            assert(charset_json_of(cs[0]) + seq![','] + (charsets_array_items(cs.drop_first())
                + seq![','] + charset_json_of(c)) =~= charsets_array_items(cs) + seq![',']
                + charset_json_of(c));
        }
    }
}

/// A JSON array of charset objects.
pub open spec fn charsets_json_of(cs: Seq<CharsetItem>) -> Seq<char> {
    seq!['['] + charsets_array_items(cs) + seq![']']
}

/// Renders the keys section.
pub fn render_keys_section(keys: &Vec<KeyItem>) -> (r: String)
    ensures
        r@ == keys_json_of(keys@),
{
    let mut out = String::new();
    push_char(&mut out, '[');
    let mut i: usize = 0;
    while i < keys.len()
        invariant
            i <= keys@.len(),
            out@ == seq!['['] + keys_array_items(keys@.take(i as int)),
        decreases keys@.len() - i,
    {
        let ghost prefix = keys@.take(i as int);
        if i > 0 {
            push_char(&mut out, ',');
        }
        write_key_json(&mut out, &keys[i]);
        proof {
            lemma_keys_array_snoc(prefix, keys@[i as int]);
            assert(prefix.push(keys@[i as int]) =~= keys@.take(i + 1 as int));
            assert(out@ =~= seq!['['] + keys_array_items(keys@.take(i + 1 as int)));
        }
        i = i + 1;
    }
    push_char(&mut out, ']');
    proof {
        assert(keys@.take(keys@.len() as int) =~= keys@);
        assert(out@ =~= keys_json_of(keys@));
    }
    out
}

/// Renders the charsets section.
pub fn render_charsets_section(cs: &Vec<CharsetItem>) -> (r: String)
    ensures
        r@ == charsets_json_of(cs@),
{
    let mut out = String::new();
    push_char(&mut out, '[');
    let mut i: usize = 0;
    while i < cs.len()
        invariant
            i <= cs@.len(),
            out@ == seq!['['] + charsets_array_items(cs@.take(i as int)),
        decreases cs@.len() - i,
    {
        let ghost prefix = cs@.take(i as int);
        if i > 0 {
            push_char(&mut out, ',');
        }
        write_charset_json(&mut out, &cs[i]);
        proof {
            lemma_charsets_array_snoc(prefix, cs@[i as int]);
            assert(prefix.push(cs@[i as int]) =~= cs@.take(i + 1 as int));
            assert(out@ =~= seq!['['] + charsets_array_items(cs@.take(i + 1 as int)));
        }
        i = i + 1;
    }
    push_char(&mut out, ']');
    proof {
        assert(cs@.take(cs@.len() as int) =~= cs@);
        assert(out@ =~= charsets_json_of(cs@));
    }
    out
}

/// Reads a nullable JSON string; an input carrying the rendering of some
/// optional text at the position is always read back to it.
fn parse_nullable_string(cs: &Vec<char>, pos: usize) -> (r: Result<(Option<String>, usize), Error>)
    ensures
        r matches Ok(p) ==> pos <= p.1 <= cs@.len() && cs@.subrange(pos as int, p.1 as int)
            == nullable_string_of(opt_view(p.0)),
        forall|o: Option<Seq<char>>| #[trigger]
            nullable_at(cs@, pos as int, o) ==> (r matches Ok(p) && opt_view(p.0) == o && p.1
                == pos + nullable_string_of(o).len()),
{
    proof {
        reveal_strlit("null");
        assert forall|o: Option<Seq<char>>| #[trigger]
            nullable_at(cs@, pos as int, o) implies (pos < cs@.len() && (o is None ==> cs@[
            pos as int] == 'n') && (o matches Some(v) ==> string_lit_at(cs@, pos as int, v)
            && cs@[pos as int] == '"')) by {
            assert(nullable_string_of(o).len() >= 1);
            assert(cs@.skip(pos as int)[0] == cs@[pos as int]);
            match o {
                None => {
                    assert(nullable_string_of(o)[0] == 'n');
                },
                Some(v) => {
                    assert(nullable_string_of(o)[0] == '"');
                },
            }
        }
    }
    if pos < cs.len() && cs[pos] == 'n' {
        match expect_lit(cs, pos, "null") {
            Ok(j) => {
                proof {
                    reveal_strlit("null");
                    assert forall|o: Option<Seq<char>>| #[trigger]
                        nullable_at(cs@, pos as int, o) implies o is None && j == pos
                        + nullable_string_of(o).len() by {
                        if o is Some {
                            assert(cs@[pos as int] == '"');
                        }
                    }
                }
                Ok((None, j))
            },
            Err(e) => {
                proof {
                    reveal_strlit("null");
                    assert forall|o: Option<Seq<char>>| !nullable_at(cs@, pos as int, o) by {
                        if nullable_at(cs@, pos as int, o) {
                            if o is Some {
                                assert(cs@[pos as int] == '"');
                            } else {
                                assert("null"@.is_prefix_of(cs@.skip(pos as int)));
                            }
                        }
                    }
                }
                Err(e)
            },
        }
    } else {
        proof {
            assert forall|o: Option<Seq<char>>|
                #[trigger] nullable_at(cs@, pos as int, o) implies o is Some by {
                if o is None {
                    assert(cs@[pos as int] == 'n');
                }
            }
        }
        match parse_json_string(cs, pos) {
            Ok((s, j)) => {
                proof {
                    assert forall|o: Option<Seq<char>>| #[trigger]
                        nullable_at(cs@, pos as int, o) implies opt_view(Some(s)) == o && j
                        == pos + nullable_string_of(o).len() by {
                        let v = o->Some_0;
                        assert(string_lit_at(cs@, pos as int, v));
                    }
                }
                Ok((Some(s), j))
            },
            Err(e) => {
                proof {
                    assert forall|o: Option<Seq<char>>| !nullable_at(cs@, pos as int, o) by {
                        if nullable_at(cs@, pos as int, o) {
                            let v = o->Some_0;
                            assert(string_lit_at(cs@, pos as int, v));
                        }
                    }
                }
                Err(e)
            },
        }
    }
}


/// Peels the leading piece of a rendered concatenation sitting at `pos`.
proof fn lemma_peel(cs: Seq<char>, pos: int, a: Seq<char>, b: Seq<char>)
    requires
        0 <= pos <= cs.len(),
        (a + b).is_prefix_of(cs.skip(pos)),
    ensures
        a.is_prefix_of(cs.skip(pos)),
        0 <= pos + a.len() <= cs.len(),
        b.is_prefix_of(cs.skip(pos + a.len())),
{
    lemma_prefix_split(a, b, cs.skip(pos));
    assert(cs.skip(pos).skip(a.len() as int) =~= cs.skip(pos + a.len()));
    assert forall|k: int| 0 <= k < b.len() implies b[k] == cs.skip(pos + a.len())[k] by {
        assert(cs.skip(pos).skip(a.len() as int)[k] == cs.skip(pos + a.len())[k]);
    }
    assert(b =~= cs.skip(pos + a.len()).subrange(0, b.len() as int));
}

/// Whether the head rendering of a key object sits at `pos`, followed by a
/// non-digit boundary or the end of the input.
pub open spec fn key_head_at(
    cs: Seq<char>,
    pos: int,
    id: i64,
    pinned: bool,
    target_size: i64,
    revision: i64,
) -> bool {
    &&& 0 <= pos <= cs.len()
    &&& key_json_head(id, pinned, target_size, revision).is_prefix_of(cs.skip(pos))
    &&& (pos + key_json_head(id, pinned, target_size, revision).len() == cs.len() || !(48 <= cs[pos
        + key_json_head(id, pinned, target_size, revision).len()] as u32 <= 57))
}

/// Where a head rendering places each field and separator.
proof fn lemma_key_head_positions(
    cs: Seq<char>,
    pos: int,
    id: i64,
    pinned: bool,
    target_size: i64,
    revision: i64,
)
    requires
        key_head_at(cs, pos, id, pinned, target_size, revision),
    ensures
        ({
            let p1 = pos + "{\"id\":"@.len();
            let p2 = p1 + dec_of_i64(id).len();
            let p3 = p2 + ",\"pinned\":"@.len();
            let p4 = p3 + bool_json(pinned).len();
            let p5 = p4 + ",\"target_size\":"@.len();
            let p6 = p5 + dec_of_i64(target_size).len();
            let p7 = p6 + ",\"revision\":"@.len();
            &&& pos <= cs.len() && "{\"id\":"@.is_prefix_of(cs.skip(pos))
            &&& dec_i64_at(cs, p1, id)
            &&& p2 <= cs.len() && ",\"pinned\":"@.is_prefix_of(cs.skip(p2))
            &&& (pinned ==> p3 <= cs.len() && "true"@.is_prefix_of(cs.skip(p3)))
            &&& (!pinned ==> p3 <= cs.len() && "false"@.is_prefix_of(cs.skip(p3)))
            &&& p3 < cs.len() && (pinned ==> cs[p3] == 't') && (!pinned ==> cs[p3] == 'f')
            &&& p4 <= cs.len() && ",\"target_size\":"@.is_prefix_of(cs.skip(p4))
            &&& dec_i64_at(cs, p5, target_size)
            &&& p6 <= cs.len() && ",\"revision\":"@.is_prefix_of(cs.skip(p6))
            &&& dec_i64_at(cs, p7, revision)
        }),
{

            let h = key_json_head(id, pinned, target_size, revision);
            let r1 = dec_of_i64(id) + (",\"pinned\":"@ + (bool_json(pinned) + (
            ",\"target_size\":"@ + (dec_of_i64(target_size) + (",\"revision\":"@ + dec_of_i64(
                revision,
            ))))));
            assert(h =~= "{\"id\":"@ + r1);
            lemma_peel(cs, pos, "{\"id\":"@, r1);
            let p1 = pos + "{\"id\":"@.len();
            let r2 = ",\"pinned\":"@ + (bool_json(pinned) + (",\"target_size\":"@ + (
            dec_of_i64(target_size) + (",\"revision\":"@ + dec_of_i64(revision)))));
            lemma_peel(cs, p1, dec_of_i64(id), r2);
            let p2 = p1 + dec_of_i64(id).len();
            let r3 = bool_json(pinned) + (",\"target_size\":"@ + (dec_of_i64(target_size) + (
            ",\"revision\":"@ + dec_of_i64(revision))));
            lemma_peel(cs, p2, ",\"pinned\":"@, r3);
            let p3 = p2 + ",\"pinned\":"@.len();
            let r4 = ",\"target_size\":"@ + (dec_of_i64(target_size) + (",\"revision\":"@
                + dec_of_i64(revision)));
            lemma_peel(cs, p3, bool_json(pinned), r4);
            let p4 = p3 + bool_json(pinned).len();
            let r5 = dec_of_i64(target_size) + (",\"revision\":"@ + dec_of_i64(revision));
            lemma_peel(cs, p4, ",\"target_size\":"@, r5);
            let p5 = p4 + ",\"target_size\":"@.len();
            let r6 = ",\"revision\":"@ + dec_of_i64(revision);
            lemma_peel(cs, p5, dec_of_i64(target_size), r6);
            let p6 = p5 + dec_of_i64(target_size).len();
            lemma_peel(cs, p6, ",\"revision\":"@, dec_of_i64(revision));
            let p7 = p6 + ",\"revision\":"@.len();
            reveal_strlit(",\"pinned\":");
            reveal_strlit(",\"target_size\":");
            reveal_strlit(",\"revision\":");
            reveal_strlit("true");
            reveal_strlit("false");
            // each number ends at a comma, and the head itself at the
            // caller-supplied boundary
            assert(cs.skip(p2)[0] == cs[p2]);
            assert(",\"pinned\":"@[0] == ',');
            assert(cs.skip(p4)[0] == cs[p4]);
            assert(",\"target_size\":"@[0] == ',');
            assert(cs.skip(p6)[0] == cs[p6]);
            assert(",\"revision\":"@[0] == ',');
            assert(cs.skip(p3)[0] == cs[p3]);
            if pinned {
                assert(bool_json(pinned) == "true"@);
                assert("true"@[0] == 't');
            } else {
                assert(bool_json(pinned) == "false"@);
                assert("false"@[0] == 'f');
            }
            assert(p7 + dec_of_i64(revision).len() == pos + h.len());
}

/// Reads the numeric head of a key object; an input carrying a head
/// rendering up to a non-digit boundary is always read back to the same
/// values.
#[verifier::rlimit(100)]
fn parse_key_head(cs: &Vec<char>, pos: usize) -> (r: Result<((i64, bool, i64, i64), usize), Error>)
    ensures
        r matches Ok(p) ==> pos <= p.1 <= cs@.len() && cs@.subrange(pos as int, p.1 as int)
            == key_json_head(p.0.0, p.0.1, p.0.2, p.0.3),
        forall|id: i64, pinned: bool, target_size: i64, revision: i64| #[trigger]
            key_head_at(cs@, pos as int, id, pinned, target_size, revision) ==> r == Ok::<
                ((i64, bool, i64, i64), usize),
                Error,
            >(
                ((id, pinned, target_size, revision), (pos + key_json_head(
                    id,
                    pinned,
                    target_size,
                    revision,
                ).len()) as usize),
            ),
{
    proof {
        assert forall|id: i64, pinned: bool, target_size: i64, revision: i64| #[trigger]
            key_head_at(cs@, pos as int, id, pinned, target_size, revision) implies ({
            let p1 = pos + "{\"id\":"@.len();
            let p2 = p1 + dec_of_i64(id).len();
            let p3 = p2 + ",\"pinned\":"@.len();
            let p4 = p3 + bool_json(pinned).len();
            let p5 = p4 + ",\"target_size\":"@.len();
            let p6 = p5 + dec_of_i64(target_size).len();
            let p7 = p6 + ",\"revision\":"@.len();
            &&& pos <= cs.len() && "{\"id\":"@.is_prefix_of(cs@.skip(pos as int))
            &&& dec_i64_at(cs@, p1, id)
            &&& p2 <= cs@.len() && ",\"pinned\":"@.is_prefix_of(cs@.skip(p2))
            &&& (pinned ==> p3 <= cs@.len() && "true"@.is_prefix_of(cs@.skip(p3)))
            &&& (!pinned ==> p3 <= cs@.len() && "false"@.is_prefix_of(cs@.skip(p3)))
            &&& p3 < cs@.len() && (pinned ==> cs@[p3] == 't') && (!pinned ==> cs@[p3] == 'f')
            &&& p4 <= cs@.len() && ",\"target_size\":"@.is_prefix_of(cs@.skip(p4))
            &&& dec_i64_at(cs@, p5, target_size)
            &&& p6 <= cs@.len() && ",\"revision\":"@.is_prefix_of(cs@.skip(p6))
            &&& dec_i64_at(cs@, p7, revision)
        }) by {
            lemma_key_head_positions(cs@, pos as int, id, pinned, target_size, revision);
        }
    }
    let j0 = match expect_lit(cs, pos, "{\"id\":") {
        Ok(j) => j,
        Err(e) => {
            proof {
                assert forall|id: i64, pinned: bool, target_size: i64, revision: i64|
                    !key_head_at(cs@, pos as int, id, pinned, target_size, revision) by {}
            }
            return Err(e);
        },
    };
    let (id, j1) = match parse_i64(cs, j0) {
        Ok(p) => p,
        Err(e) => {
            proof {
                assert forall|idw: i64, pinned: bool, target_size: i64, revision: i64|
                    !key_head_at(cs@, pos as int, idw, pinned, target_size, revision) by {}
            }
            return Err(e);
        },
    };
    let j2 = match expect_lit(cs, j1, ",\"pinned\":") {
        Ok(j) => j,
        Err(e) => {
            proof {
                assert forall|idw: i64, pinned: bool, target_size: i64, revision: i64|
                    !key_head_at(cs@, pos as int, idw, pinned, target_size, revision) by {}
            }
            return Err(e);
        },
    };
    let (pinned, j3): (bool, usize) = if j2 < cs.len() && cs[j2] == 't' {
        match expect_lit(cs, j2, "true") {
            Ok(j) => (true, j),
            Err(e) => {
                proof {
                    assert forall|idw: i64, pw: bool, target_size: i64, revision: i64|
                        !key_head_at(cs@, pos as int, idw, pw, target_size, revision) by {
                        if key_head_at(cs@, pos as int, idw, pw, target_size, revision) {
                            if !pw {
                                assert(cs@[j2 as int] == 'f');
                            }
                        }
                    }
                }
                return Err(e);
            },
        }
    } else {
        match expect_lit(cs, j2, "false") {
            Ok(j) => (false, j),
            Err(e) => {
                proof {
                    assert forall|idw: i64, pw: bool, target_size: i64, revision: i64|
                        !key_head_at(cs@, pos as int, idw, pw, target_size, revision) by {
                        if key_head_at(cs@, pos as int, idw, pw, target_size, revision) {
                            if pw {
                                assert(cs@[j2 as int] == 't');
                            }
                        }
                    }
                }
                return Err(e);
            },
        }
    };
    let j4 = match expect_lit(cs, j3, ",\"target_size\":") {
        Ok(j) => j,
        Err(e) => {
            proof {
                assert forall|idw: i64, pw: bool, target_size: i64, revision: i64|
                    !key_head_at(cs@, pos as int, idw, pw, target_size, revision) by {
                    if key_head_at(cs@, pos as int, idw, pw, target_size, revision) {
                        if pw {
                            assert(cs@[j2 as int] == 't');
                        } else {
                            assert(cs@[j2 as int] == 't' || cs@[j2 as int] == 'f');
                        }
                    }
                }
            }
            return Err(e);
        },
    };
    let (target_size, j5) = match parse_i64(cs, j4) {
        Ok(p) => p,
        Err(e) => {
            proof {
                assert forall|idw: i64, pw: bool, tw: i64, revision: i64|
                    !key_head_at(cs@, pos as int, idw, pw, tw, revision) by {
                    if key_head_at(cs@, pos as int, idw, pw, tw, revision) {
                        if pw {
                            assert(cs@[j2 as int] == 't');
                        }
                    }
                }
            }
            return Err(e);
        },
    };
    let j6 = match expect_lit(cs, j5, ",\"revision\":") {
        Ok(j) => j,
        Err(e) => {
            proof {
                assert forall|idw: i64, pw: bool, tw: i64, revision: i64|
                    !key_head_at(cs@, pos as int, idw, pw, tw, revision) by {
                    if key_head_at(cs@, pos as int, idw, pw, tw, revision) {
                        if pw {
                            assert(cs@[j2 as int] == 't');
                        }
                    }
                }
            }
            return Err(e);
        },
    };
    let (revision, j7) = match parse_i64(cs, j6) {
        Ok(p) => p,
        Err(e) => {
            proof {
                assert forall|idw: i64, pw: bool, tw: i64, rw: i64|
                    !key_head_at(cs@, pos as int, idw, pw, tw, rw) by {
                    if key_head_at(cs@, pos as int, idw, pw, tw, rw) {
                        if pw {
                            assert(cs@[j2 as int] == 't');
                        }
                    }
                }
            }
            return Err(e);
        },
    };
    proof {
        assert(cs@.subrange(pos as int, j7 as int) =~= key_json_head(
            id,
            pinned,
            target_size,
            revision,
        ));
        assert forall|idw: i64, pw: bool, tw: i64, rw: i64| #[trigger]
            key_head_at(cs@, pos as int, idw, pw, tw, rw) implies id == idw && pinned == pw
            && target_size == tw && revision == rw && j7 == pos + key_json_head(
            idw,
            pw,
            tw,
            rw,
        ).len() by {
            if pw {
                assert(cs@[j2 as int] == 't');
            } else {
                assert(cs@[j2 as int] == 'f');
                assert('f' != 't');
            }
        }
    }
    Ok(((id, pinned, target_size, revision), j7))
}

/// Whether the middle rendering of a key object sits at `pos`.
pub open spec fn key_mid_at(
    cs: Seq<char>,
    pos: int,
    charset: Seq<char>,
    domain: Seq<char>,
    username: Seq<char>,
    notes: Option<Seq<char>>,
) -> bool {
    &&& 0 <= pos <= cs.len()
    &&& key_json_mid(charset, domain, username, notes).is_prefix_of(cs.skip(pos))
}

/// Reads the middle text fields of a key object; an input carrying a
/// middle rendering is always read back to the same texts.
#[verifier::rlimit(100)]
fn parse_key_mid(cs: &Vec<char>, pos: usize) -> (r: Result<
    ((String, String, String, Option<String>), usize),
    Error,
>)
    ensures
        r matches Ok(p) ==> pos <= p.1 <= cs@.len() && cs@.subrange(pos as int, p.1 as int)
            == key_json_mid(p.0.0@, p.0.1@, p.0.2@, opt_view(p.0.3)),
        forall|cw: Seq<char>, dw: Seq<char>, uw: Seq<char>, nw: Option<Seq<char>>| #[trigger]
            key_mid_at(cs@, pos as int, cw, dw, uw, nw) ==> (r matches Ok(p) && p.0.0@ == cw
                && p.0.1@ == dw && p.0.2@ == uw && opt_view(p.0.3) == nw && p.1 == pos
                + key_json_mid(cw, dw, uw, nw).len()),
{
    proof {
        assert forall|cw: Seq<char>, dw: Seq<char>, uw: Seq<char>, nw: Option<Seq<char>>|
            #[trigger] key_mid_at(cs@, pos as int, cw, dw, uw, nw) implies ({
            let p1 = pos + ",\"charset\":"@.len();
            let p2 = p1 + json_string_of(cw).len();
            let p3 = p2 + ",\"domain\":"@.len();
            let p4 = p3 + json_string_of(dw).len();
            let p5 = p4 + ",\"username\":"@.len();
            let p6 = p5 + json_string_of(uw).len();
            let p7 = p6 + ",\"notes\":"@.len();
            &&& pos <= cs@.len() && ",\"charset\":"@.is_prefix_of(cs@.skip(pos as int))
            &&& string_lit_at(cs@, p1, cw)
            &&& p2 <= cs@.len() && ",\"domain\":"@.is_prefix_of(cs@.skip(p2))
            &&& string_lit_at(cs@, p3, dw)
            &&& p4 <= cs@.len() && ",\"username\":"@.is_prefix_of(cs@.skip(p4))
            &&& string_lit_at(cs@, p5, uw)
            &&& p6 <= cs@.len() && ",\"notes\":"@.is_prefix_of(cs@.skip(p6))
            &&& nullable_at(cs@, p7, nw)
        }) by {
            let h = key_json_mid(cw, dw, uw, nw);
            let r1 = json_string_of(cw) + (",\"domain\":"@ + (json_string_of(dw) + (
            ",\"username\":"@ + (json_string_of(uw) + (",\"notes\":"@ + nullable_string_of(
                nw,
            ))))));
            assert(h =~= ",\"charset\":"@ + r1);
            lemma_peel(cs@, pos as int, ",\"charset\":"@, r1);
            let p1 = pos + ",\"charset\":"@.len();
            let r2 = ",\"domain\":"@ + (json_string_of(dw) + (",\"username\":"@ + (
            json_string_of(uw) + (",\"notes\":"@ + nullable_string_of(nw)))));
            lemma_peel(cs@, p1, json_string_of(cw), r2);
            let p2 = p1 + json_string_of(cw).len();
            let r3 = json_string_of(dw) + (",\"username\":"@ + (json_string_of(uw) + (
            ",\"notes\":"@ + nullable_string_of(nw))));
            lemma_peel(cs@, p2, ",\"domain\":"@, r3);
            let p3 = p2 + ",\"domain\":"@.len();
            let r4 = ",\"username\":"@ + (json_string_of(uw) + (",\"notes\":"@
                + nullable_string_of(nw)));
            lemma_peel(cs@, p3, json_string_of(dw), r4);
            let p4 = p3 + json_string_of(dw).len();
            let r5 = json_string_of(uw) + (",\"notes\":"@ + nullable_string_of(nw));
            lemma_peel(cs@, p4, ",\"username\":"@, r5);
            let p5 = p4 + ",\"username\":"@.len();
            let r6 = ",\"notes\":"@ + nullable_string_of(nw);
            lemma_peel(cs@, p5, json_string_of(uw), r6);
            let p6 = p5 + json_string_of(uw).len();
            lemma_peel(cs@, p6, ",\"notes\":"@, nullable_string_of(nw));
        }
    }
    let j8 = match expect_lit(cs, pos, ",\"charset\":") {
        Ok(j) => j,
        Err(e) => {
            proof {
                assert forall|cw: Seq<char>, dw: Seq<char>, uw: Seq<char>, nw: Option<Seq<char>>|
                    !key_mid_at(cs@, pos as int, cw, dw, uw, nw) by {}
            }
            return Err(e);
        },
    };
    let (charset, j9) = match parse_json_string(cs, j8) {
        Ok(p) => p,
        Err(e) => {
            proof {
                assert forall|cw: Seq<char>, dw: Seq<char>, uw: Seq<char>, nw: Option<Seq<char>>|
                    !key_mid_at(cs@, pos as int, cw, dw, uw, nw) by {}
            }
            return Err(e);
        },
    };
    let j10 = match expect_lit(cs, j9, ",\"domain\":") {
        Ok(j) => j,
        Err(e) => {
            proof {
                assert forall|cw: Seq<char>, dw: Seq<char>, uw: Seq<char>, nw: Option<Seq<char>>|
                    !key_mid_at(cs@, pos as int, cw, dw, uw, nw) by {}
            }
            return Err(e);
        },
    };
    let (domain, j11) = match parse_json_string(cs, j10) {
        Ok(p) => p,
        Err(e) => {
            proof {
                assert forall|cw: Seq<char>, dw: Seq<char>, uw: Seq<char>, nw: Option<Seq<char>>|
                    !key_mid_at(cs@, pos as int, cw, dw, uw, nw) by {}
            }
            return Err(e);
        },
    };
    let j12 = match expect_lit(cs, j11, ",\"username\":") {
        Ok(j) => j,
        Err(e) => {
            proof {
                assert forall|cw: Seq<char>, dw: Seq<char>, uw: Seq<char>, nw: Option<Seq<char>>|
                    !key_mid_at(cs@, pos as int, cw, dw, uw, nw) by {}
            }
            return Err(e);
        },
    };
    let (username, j13) = match parse_json_string(cs, j12) {
        Ok(p) => p,
        Err(e) => {
            proof {
                assert forall|cw: Seq<char>, dw: Seq<char>, uw: Seq<char>, nw: Option<Seq<char>>|
                    !key_mid_at(cs@, pos as int, cw, dw, uw, nw) by {}
            }
            return Err(e);
        },
    };
    let j14 = match expect_lit(cs, j13, ",\"notes\":") {
        Ok(j) => j,
        Err(e) => {
            proof {
                assert forall|cw: Seq<char>, dw: Seq<char>, uw: Seq<char>, nw: Option<Seq<char>>|
                    !key_mid_at(cs@, pos as int, cw, dw, uw, nw) by {}
            }
            return Err(e);
        },
    };
    let (notes, j15) = match parse_nullable_string(cs, j14) {
        Ok(p) => p,
        Err(e) => {
            proof {
                assert forall|cw: Seq<char>, dw: Seq<char>, uw: Seq<char>, nw: Option<Seq<char>>|
                    !key_mid_at(cs@, pos as int, cw, dw, uw, nw) by {}
            }
            return Err(e);
        },
    };
    proof {
        assert(cs@.subrange(pos as int, j15 as int) =~= key_json_mid(
            charset@,
            domain@,
            username@,
            opt_view(notes),
        ));
        assert forall|cw: Seq<char>, dw: Seq<char>, uw: Seq<char>, nw: Option<Seq<char>>|
            #[trigger] key_mid_at(cs@, pos as int, cw, dw, uw, nw) implies charset@ == cw
            && domain@ == dw && username@ == uw && opt_view(notes) == nw && j15 == pos
            + key_json_mid(cw, dw, uw, nw).len() by {}
    }
    Ok(((charset, domain, username, notes), j15))
}

/// Whether the tail rendering of a key object sits at `pos`, its tag list
/// free of duplicates.
pub open spec fn key_tail_at(
    cs: Seq<char>,
    pos: int,
    created_at: i64,
    custom_icon: Option<Seq<char>>,
    version: Seq<char>,
    tags: Seq<Seq<char>>,
) -> bool {
    &&& 0 <= pos <= cs.len()
    &&& key_json_tail(created_at, custom_icon, version, tags).is_prefix_of(cs.skip(pos))
    &&& crate::tags::tags_unique(tags)
}

/// Reads the tail fields of a key object, the tag array included; an input
/// carrying a tail rendering with duplicate-free tags is always read back
/// to the same values.
#[verifier::rlimit(100)]
fn parse_key_tail(cs: &Vec<char>, pos: usize) -> (r: Result<
    ((i64, Option<String>, String, TagList), usize),
    Error,
>)
    ensures
        r matches Ok(p) ==> pos <= p.1 <= cs@.len() && cs@.subrange(pos as int, p.1 as int)
            == key_json_tail(p.0.0, opt_view(p.0.1), p.0.2@, p.0.3@) && p.0.3.wf(),
        forall|aw: i64, iw: Option<Seq<char>>, vw: Seq<char>, tw: Seq<Seq<char>>| #[trigger]
            key_tail_at(cs@, pos as int, aw, iw, vw, tw) ==> (r matches Ok(p) && p.0.0 == aw
                && opt_view(p.0.1) == iw && p.0.2@ == vw && p.0.3@ == tw && p.1 == pos
                + key_json_tail(aw, iw, vw, tw).len()),
{
    proof {
        assert forall|aw: i64, iw: Option<Seq<char>>, vw: Seq<char>, tw: Seq<Seq<char>>|
            #[trigger] key_tail_at(cs@, pos as int, aw, iw, vw, tw) implies ({
            let p1 = pos + ",\"created_at\":"@.len();
            let p2 = p1 + dec_of_i64(aw).len();
            let p3 = p2 + ",\"custom_icon\":"@.len();
            let p4 = p3 + nullable_string_of(iw).len();
            let p5 = p4 + ",\"version\":"@.len();
            let p6 = p5 + json_string_of(vw).len();
            let p7 = p6 + ",\"tags\":"@.len();
            let p8 = p7 + strings_array_of(tw).len();
            &&& pos <= cs@.len() && ",\"created_at\":"@.is_prefix_of(cs@.skip(pos as int))
            &&& dec_i64_at(cs@, p1, aw)
            &&& p2 <= cs@.len() && ",\"custom_icon\":"@.is_prefix_of(cs@.skip(p2))
            &&& nullable_at(cs@, p3, iw)
            &&& p4 <= cs@.len() && ",\"version\":"@.is_prefix_of(cs@.skip(p4))
            &&& string_lit_at(cs@, p5, vw)
            &&& p6 <= cs@.len() && ",\"tags\":"@.is_prefix_of(cs@.skip(p6))
            &&& strings_array_at(cs@, p7, tw)
            &&& p8 <= cs@.len() && "}"@.is_prefix_of(cs@.skip(p8))
        }) by {
            let h = key_json_tail(aw, iw, vw, tw);
            let r1 = dec_of_i64(aw) + (",\"custom_icon\":"@ + (nullable_string_of(iw) + (
            ",\"version\":"@ + (json_string_of(vw) + (",\"tags\":"@ + (strings_array_of(tw)
                + "}"@))))));
            assert(h =~= ",\"created_at\":"@ + r1);
            lemma_peel(cs@, pos as int, ",\"created_at\":"@, r1);
            let p1 = pos + ",\"created_at\":"@.len();
            let r2 = ",\"custom_icon\":"@ + (nullable_string_of(iw) + (",\"version\":"@ + (
            json_string_of(vw) + (",\"tags\":"@ + (strings_array_of(tw) + "}"@)))));
            lemma_peel(cs@, p1, dec_of_i64(aw), r2);
            let p2 = p1 + dec_of_i64(aw).len();
            let r3 = nullable_string_of(iw) + (",\"version\":"@ + (json_string_of(vw) + (
            ",\"tags\":"@ + (strings_array_of(tw) + "}"@))));
            lemma_peel(cs@, p2, ",\"custom_icon\":"@, r3);
            let p3 = p2 + ",\"custom_icon\":"@.len();
            let r4 = ",\"version\":"@ + (json_string_of(vw) + (",\"tags\":"@ + (
            strings_array_of(tw) + "}"@)));
            lemma_peel(cs@, p3, nullable_string_of(iw), r4);
            let p4 = p3 + nullable_string_of(iw).len();
            let r5 = json_string_of(vw) + (",\"tags\":"@ + (strings_array_of(tw) + "}"@));
            lemma_peel(cs@, p4, ",\"version\":"@, r5);
            let p5 = p4 + ",\"version\":"@.len();
            let r6 = ",\"tags\":"@ + (strings_array_of(tw) + "}"@);
            lemma_peel(cs@, p5, json_string_of(vw), r6);
            let p6 = p5 + json_string_of(vw).len();
            let r7 = strings_array_of(tw) + "}"@;
            lemma_peel(cs@, p6, ",\"tags\":"@, r7);
            let p7 = p6 + ",\"tags\":"@.len();
            lemma_peel(cs@, p7, strings_array_of(tw), "}"@);
            reveal_strlit(",\"custom_icon\":");
            assert(cs@.skip(p2)[0] == cs@[p2]);
            assert(",\"custom_icon\":"@[0] == ',');
        }
    }
    let j16 = match expect_lit(cs, pos, ",\"created_at\":") {
        Ok(j) => j,
        Err(e) => {
            proof {
                assert forall|aw: i64, iw: Option<Seq<char>>, vw: Seq<char>, tw: Seq<Seq<char>>|
                    !key_tail_at(cs@, pos as int, aw, iw, vw, tw) by {}
            }
            return Err(e);
        },
    };
    let (created_at, j17) = match parse_i64(cs, j16) {
        Ok(p) => p,
        Err(e) => {
            proof {
                assert forall|aw: i64, iw: Option<Seq<char>>, vw: Seq<char>, tw: Seq<Seq<char>>|
                    !key_tail_at(cs@, pos as int, aw, iw, vw, tw) by {}
            }
            return Err(e);
        },
    };
    let j18 = match expect_lit(cs, j17, ",\"custom_icon\":") {
        Ok(j) => j,
        Err(e) => {
            proof {
                assert forall|aw: i64, iw: Option<Seq<char>>, vw: Seq<char>, tw: Seq<Seq<char>>|
                    !key_tail_at(cs@, pos as int, aw, iw, vw, tw) by {}
            }
            return Err(e);
        },
    };
    let (custom_icon, j19) = match parse_nullable_string(cs, j18) {
        Ok(p) => p,
        Err(e) => {
            proof {
                assert forall|aw: i64, iw: Option<Seq<char>>, vw: Seq<char>, tw: Seq<Seq<char>>|
                    !key_tail_at(cs@, pos as int, aw, iw, vw, tw) by {}
            }
            return Err(e);
        },
    };
    let j20 = match expect_lit(cs, j19, ",\"version\":") {
        Ok(j) => j,
        Err(e) => {
            proof {
                assert forall|aw: i64, iw: Option<Seq<char>>, vw: Seq<char>, tw: Seq<Seq<char>>|
                    !key_tail_at(cs@, pos as int, aw, iw, vw, tw) by {}
            }
            return Err(e);
        },
    };
    let (version, j21) = match parse_json_string(cs, j20) {
        Ok(p) => p,
        Err(e) => {
            proof {
                assert forall|aw: i64, iw: Option<Seq<char>>, vw: Seq<char>, tw: Seq<Seq<char>>|
                    !key_tail_at(cs@, pos as int, aw, iw, vw, tw) by {}
            }
            return Err(e);
        },
    };
    let j22 = match expect_lit(cs, j21, ",\"tags\":") {
        Ok(j) => j,
        Err(e) => {
            proof {
                assert forall|aw: i64, iw: Option<Seq<char>>, vw: Seq<char>, tw: Seq<Seq<char>>|
                    !key_tail_at(cs@, pos as int, aw, iw, vw, tw) by {}
            }
            return Err(e);
        },
    };
    let (tag_strs, j23) = match parse_strings_array(cs, j22) {
        Ok(p) => p,
        Err(e) => {
            proof {
                assert forall|aw: i64, iw: Option<Seq<char>>, vw: Seq<char>, tw: Seq<Seq<char>>|
                    !key_tail_at(cs@, pos as int, aw, iw, vw, tw) by {}
            }
            return Err(e);
        },
    };
    let j24 = match expect_lit(cs, j23, "}") {
        Ok(j) => j,
        Err(e) => {
            proof {
                assert forall|aw: i64, iw: Option<Seq<char>>, vw: Seq<char>, tw: Seq<Seq<char>>|
                    !key_tail_at(cs@, pos as int, aw, iw, vw, tw) by {}
            }
            return Err(e);
        },
    };
    let ghost tagviews = views_of(tag_strs@);
    proof {
        assert forall|aw: i64, iw: Option<Seq<char>>, vw: Seq<char>, tw: Seq<Seq<char>>|
            #[trigger] key_tail_at(cs@, pos as int, aw, iw, vw, tw) implies (tagviews == tw
            && crate::tags::tags_unique(tw) && created_at == aw && opt_view(custom_icon) == iw
            && version@ == vw && j24 == pos + key_json_tail(aw, iw, vw, tw).len()) by {
            assert(dec_i64_at(cs@, j16 as int, aw));
            assert(created_at == aw && j17 == j16 + dec_of_i64(aw).len());
            assert(nullable_at(cs@, j18 as int, iw));
            assert(opt_view(custom_icon) == iw && j19 == j18 + nullable_string_of(iw).len());
            assert(string_lit_at(cs@, j20 as int, vw));
            assert(version@ == vw && j21 == j20 + json_string_of(vw).len());
            assert(strings_array_at(cs@, j22 as int, tw));
            assert(views_of(tag_strs@) == tw && j23 == j22 + strings_array_of(tw).len());
        }
    }
    let mut tags = TagList::new();
    let mut ti: usize = 0;
    while ti < tag_strs.len()
        invariant
            tagviews == views_of(tag_strs@),
            tagviews.len() == tag_strs@.len(),
            ti <= tagviews.len(),
            tags.wf(),
            tags@ == tagviews.take(ti as int),
            forall|aw: i64, iw: Option<Seq<char>>, vw: Seq<char>, tw: Seq<Seq<char>>|
                #[trigger] key_tail_at(cs@, pos as int, aw, iw, vw, tw) ==> tagviews == tw
                    && crate::tags::tags_unique(tw),
        decreases tagviews.len() - ti,
    {
        proof {
            assert(tagviews[ti as int] == tag_strs@[ti as int]@);
        }
        let fresh = tags.insert(tag_strs[ti].as_str());
        if !fresh {
            proof {
                assert forall|aw: i64, iw: Option<Seq<char>>, vw: Seq<char>, tw: Seq<Seq<char>>|
                    !key_tail_at(cs@, pos as int, aw, iw, vw, tw) by {
                    if key_tail_at(cs@, pos as int, aw, iw, vw, tw) {
                        assert(tagviews == tw);
                        assert(tagviews.take(ti as int).contains(tagviews[ti as int]));
                        let k = choose|k: int|
                            0 <= k < ti && tagviews.take(ti as int)[k] == tagviews[ti as int];
                        assert(tw[k] == tw[ti as int]);
                        assert(false);
                    }
                }
            }
            return Err(Error::InvalidJsonError(String::new()));
        }
        proof {
            assert(tagviews.take(ti as int).push(tagviews[ti as int]) =~= tagviews.take(
                ti + 1 as int,
            ));
        }
        ti = ti + 1;
    }
    proof {
        assert(tagviews.take(tagviews.len() as int) =~= tagviews);
    }
    proof {
        assert(cs@.subrange(pos as int, j24 as int) =~= key_json_tail(
            created_at,
            opt_view(custom_icon),
            version@,
            tags@,
        ));
        assert forall|aw: i64, iw: Option<Seq<char>>, vw: Seq<char>, tw: Seq<Seq<char>>|
            #[trigger] key_tail_at(cs@, pos as int, aw, iw, vw, tw) implies created_at == aw
            && opt_view(custom_icon) == iw && version@ == vw && tags@ == tw && j24 == pos
            + key_json_tail(aw, iw, vw, tw).len() by {
            assert(dec_i64_at(cs@, j16 as int, aw));
            assert(created_at == aw && j17 == j16 + dec_of_i64(aw).len());
            assert(nullable_at(cs@, j18 as int, iw));
            assert(opt_view(custom_icon) == iw && j19 == j18 + nullable_string_of(iw).len());
            assert(string_lit_at(cs@, j20 as int, vw));
            assert(version@ == vw && j21 == j20 + json_string_of(vw).len());
            assert(strings_array_at(cs@, j22 as int, tw));
            assert(views_of(tag_strs@) == tw && j23 == j22 + strings_array_of(tw).len());
            assert(tags@ == tw);
        }
    }
    Ok(((created_at, custom_icon, version, tags), j24))
}

/// Whether the rendering of a whole key object sits at `pos`, its tag list
/// free of duplicates.
pub open spec fn key_json_at(cs: Seq<char>, pos: int, k: KeyItem) -> bool {
    &&& 0 <= pos <= cs.len()
    &&& key_json_of(k).is_prefix_of(cs.skip(pos))
    &&& k.tags.wf()
}

/// Reads one key object in canonical form; an input carrying a key's
/// rendering is always read back to a key with the same data.
#[verifier::rlimit(100)]
pub fn parse_key_json(cs: &Vec<char>, pos: usize) -> (r: Result<(KeyItem, usize), Error>)
    ensures
        r matches Ok(p) ==> pos <= p.1 <= cs@.len() && cs@.subrange(pos as int, p.1 as int)
            == key_json_of(p.0) && p.0.tags.wf(),
        forall|k: KeyItem| #[trigger]
            key_json_at(cs@, pos as int, k) ==> (r matches Ok(p) && key_eq(p.0, k) && p.1 == pos
                + key_json_of(k).len()),
{
    proof {
        assert forall|k: KeyItem| #[trigger] key_json_at(cs@, pos as int, k) implies ({
            let hl = key_json_head(k.id, k.pinned, k.target_size, k.revision).len();
            let ml = key_json_mid(k.charset@, k.domain@, k.username@, opt_view(k.notes)).len();
            &&& key_head_at(cs@, pos as int, k.id, k.pinned, k.target_size, k.revision)
            &&& key_mid_at(
                cs@,
                pos + hl,
                k.charset@,
                k.domain@,
                k.username@,
                opt_view(k.notes),
            )
            &&& key_tail_at(
                cs@,
                pos + hl + ml,
                k.created_at,
                opt_view(k.custom_icon),
                k.version@,
                k.tags@,
            )
        }) by {
            let h = key_json_head(k.id, k.pinned, k.target_size, k.revision);
            let m = key_json_mid(k.charset@, k.domain@, k.username@, opt_view(k.notes));
            let t = key_json_tail(k.created_at, opt_view(k.custom_icon), k.version@, k.tags@);
            assert(key_json_of(k) =~= h + (m + t));
            lemma_peel(cs@, pos as int, h, m + t);
            lemma_peel(cs@, pos + h.len(), m, t);
            reveal_strlit(",\"charset\":");
            assert(m.len() >= 1);
            assert(m[0] == ',');
            assert(cs@.skip(pos + h.len())[0] == cs@[pos + h.len() as int]);
            assert(cs@[pos + h.len() as int] == ',');
        }
    }
    let (head, j7) = match parse_key_head(cs, pos) {
        Ok(p) => p,
        Err(e) => {
            proof {
                assert forall|k: KeyItem| !key_json_at(cs@, pos as int, k) by {}
            }
            return Err(e);
        },
    };
    let (mid, j15) = match parse_key_mid(cs, j7) {
        Ok(p) => p,
        Err(e) => {
            proof {
                assert forall|k: KeyItem| !key_json_at(cs@, pos as int, k) by {}
            }
            return Err(e);
        },
    };
    let (tail, j24) = match parse_key_tail(cs, j15) {
        Ok(p) => p,
        Err(e) => {
            proof {
                assert forall|k: KeyItem| !key_json_at(cs@, pos as int, k) by {}
            }
            return Err(e);
        },
    };
    let (id, pinned, target_size, revision) = head;
    let (charset, domain, username, notes) = mid;
    let (created_at, custom_icon, version, tags) = tail;
    let k = KeyItem {
        id,
        pinned,
        target_size,
        revision,
        charset,
        domain,
        username,
        notes,
        created_at,
        custom_icon,
        version,
        tags,
    };
    proof {
        assert(cs@.subrange(pos as int, j24 as int) =~= cs@.subrange(pos as int, j7 as int)
            + cs@.subrange(j7 as int, j15 as int) + cs@.subrange(j15 as int, j24 as int));
        assert(cs@.subrange(pos as int, j24 as int) == key_json_of(k));
        assert forall|kw: KeyItem| #[trigger]
            key_json_at(cs@, pos as int, kw) implies key_eq(k, kw) && j24 == pos + key_json_of(
            kw,
        ).len() by {}
    }
    Ok((k, j24))
}

/// Whether the rendering of a charset row sits at `pos`.
pub open spec fn charset_json_at(cs: Seq<char>, pos: int, c: CharsetItem) -> bool {
    &&& 0 <= pos <= cs.len()
    &&& charset_json_of(c).is_prefix_of(cs.skip(pos))
}

/// Reads one charset object in canonical form; an input carrying a row's
/// rendering is always read back to a row with the same data.
#[verifier::rlimit(100)]
pub fn parse_charset_json(cs: &Vec<char>, pos: usize) -> (r: Result<(CharsetItem, usize), Error>)
    ensures
        r matches Ok(p) ==> pos <= p.1 <= cs@.len() && cs@.subrange(pos as int, p.1 as int)
            == charset_json_of(p.0),
        forall|c: CharsetItem| #[trigger]
            charset_json_at(cs@, pos as int, c) ==> (r matches Ok(p) && charset_item_eq(p.0, c)
                && p.1 == pos + charset_json_of(c).len()),
{
    proof {
        assert forall|c: CharsetItem| #[trigger] charset_json_at(cs@, pos as int, c) implies ({
            let p1 = pos + "{\"name\":"@.len();
            let p2 = p1 + json_string_of(c.name@).len();
            let p3 = p2 + ",\"charset\":"@.len();
            let p4 = p3 + json_string_of(c.charset@).len();
            let p5 = p4 + ",\"description\":"@.len();
            let p6 = p5 + nullable_string_of(opt_view(c.description)).len();
            &&& pos <= cs@.len() && "{\"name\":"@.is_prefix_of(cs@.skip(pos as int))
            &&& string_lit_at(cs@, p1, c.name@)
            &&& p2 <= cs@.len() && ",\"charset\":"@.is_prefix_of(cs@.skip(p2))
            &&& string_lit_at(cs@, p3, c.charset@)
            &&& p4 <= cs@.len() && ",\"description\":"@.is_prefix_of(cs@.skip(p4))
            &&& nullable_at(cs@, p5, opt_view(c.description))
            &&& p6 <= cs@.len() && "}"@.is_prefix_of(cs@.skip(p6))
        }) by {
            let h = charset_json_of(c);
            let r1 = json_string_of(c.name@) + (",\"charset\":"@ + (json_string_of(c.charset@)
                + (",\"description\":"@ + (nullable_string_of(opt_view(c.description))
                + "}"@))));
            assert(h =~= "{\"name\":"@ + r1);
            lemma_peel(cs@, pos as int, "{\"name\":"@, r1);
            let p1 = pos + "{\"name\":"@.len();
            let r2 = ",\"charset\":"@ + (json_string_of(c.charset@) + (",\"description\":"@
                + (nullable_string_of(opt_view(c.description)) + "}"@)));
            lemma_peel(cs@, p1, json_string_of(c.name@), r2);
            let p2 = p1 + json_string_of(c.name@).len();
            let r3 = json_string_of(c.charset@) + (",\"description\":"@ + (nullable_string_of(
                opt_view(c.description),
            ) + "}"@));
            lemma_peel(cs@, p2, ",\"charset\":"@, r3);
            let p3 = p2 + ",\"charset\":"@.len();
            let r4 = ",\"description\":"@ + (nullable_string_of(opt_view(c.description))
                + "}"@);
            lemma_peel(cs@, p3, json_string_of(c.charset@), r4);
            let p4 = p3 + json_string_of(c.charset@).len();
            let r5 = nullable_string_of(opt_view(c.description)) + "}"@;
            lemma_peel(cs@, p4, ",\"description\":"@, r5);
            let p5 = p4 + ",\"description\":"@.len();
            lemma_peel(cs@, p5, nullable_string_of(opt_view(c.description)), "}"@);
        }
    }
    let j0 = match expect_lit(cs, pos, "{\"name\":") {
        Ok(j) => j,
        Err(e) => {
            proof {
                assert forall|c: CharsetItem| !charset_json_at(cs@, pos as int, c) by {}
            }
            return Err(e);
        },
    };
    let (name, j1) = match parse_json_string(cs, j0) {
        Ok(p) => p,
        Err(e) => {
            proof {
                assert forall|c: CharsetItem| !charset_json_at(cs@, pos as int, c) by {}
            }
            return Err(e);
        },
    };
    let j2 = match expect_lit(cs, j1, ",\"charset\":") {
        Ok(j) => j,
        Err(e) => {
            proof {
                assert forall|c: CharsetItem| !charset_json_at(cs@, pos as int, c) by {}
            }
            return Err(e);
        },
    };
    let (charset, j3) = match parse_json_string(cs, j2) {
        Ok(p) => p,
        Err(e) => {
            proof {
                assert forall|c: CharsetItem| !charset_json_at(cs@, pos as int, c) by {}
            }
            return Err(e);
        },
    };
    let j4 = match expect_lit(cs, j3, ",\"description\":") {
        Ok(j) => j,
        Err(e) => {
            proof {
                assert forall|c: CharsetItem| !charset_json_at(cs@, pos as int, c) by {}
            }
            return Err(e);
        },
    };
    let (description, j5) = match parse_nullable_string(cs, j4) {
        Ok(p) => p,
        Err(e) => {
            proof {
                assert forall|c: CharsetItem| !charset_json_at(cs@, pos as int, c) by {}
            }
            return Err(e);
        },
    };
    let j6 = match expect_lit(cs, j5, "}") {
        Ok(j) => j,
        Err(e) => {
            proof {
                assert forall|c: CharsetItem| !charset_json_at(cs@, pos as int, c) by {}
            }
            return Err(e);
        },
    };
    let c = CharsetItem { name, charset, description };
    proof {
        assert(cs@.subrange(pos as int, j6 as int) =~= charset_json_of(c));
        assert forall|cw: CharsetItem| #[trigger]
            charset_json_at(cs@, pos as int, cw) implies charset_item_eq(c, cw) && j6 == pos
            + charset_json_of(cw).len() by {}
    }
    Ok((c, j6))
}


/// Every key in the list has a duplicate-free tag list.
pub open spec fn keys_tags_wf(v: Seq<KeyItem>) -> bool {
    forall|i: int| 0 <= i < v.len() ==> (#[trigger] v[i]).tags.wf()
}

/// Every partial keys body is a prefix of the whole body.
proof fn lemma_keys_body_prefix(items: Seq<KeyItem>, m: int)
    requires
        0 <= m <= items.len(),
    ensures
        keys_array_items(items.take(m)).is_prefix_of(keys_array_items(items)),
    decreases items.len() - m,
{
    if m == items.len() {
        assert(items.take(m) =~= items);
        assert(keys_array_items(items).is_prefix_of(keys_array_items(items)));
    } else {
        lemma_keys_body_prefix(items, m + 1);
        lemma_keys_array_snoc(items.take(m), items[m]);
        assert(items.take(m).push(items[m]) =~= items.take(m + 1));
        let done = keys_array_items(items.take(m));
        let next = keys_array_items(items.take(m + 1));
        assert(done.is_prefix_of(next)) by {
            if m == 0 {
                assert(next == key_json_of(items[m]));
                assert(done == Seq::<char>::empty());
                assert(done =~= next.subrange(0, 0));
            } else {
                assert(next == done + seq![','] + key_json_of(items[m]));
                assert(done =~= next.subrange(0, done.len() as int));
            }
        }
        lemma_prefix_trans(done, next, keys_array_items(items));
    }
}

/// The window of key `m` inside the whole keys body.
proof fn lemma_keys_body_window(items: Seq<KeyItem>, m: int)
    requires
        0 <= m < items.len(),
    ensures
        ({
            let body = keys_array_items(items);
            let done = keys_array_items(items.take(m));
            let sep: int = if m == 0 {
                0int
            } else {
                1int
            };
            let lit = key_json_of(items[m]);
            &&& done.len() + sep + lit.len() <= body.len()
            &&& (m > 0 ==> body[done.len() as int] == ',')
            &&& body.subrange(done.len() as int + sep, done.len() as int + sep + lit.len() as int)
                == lit
            &&& (m + 1 == items.len() ==> done.len() + sep + lit.len() == body.len())
        }),
{
    lemma_keys_body_prefix(items, m + 1);
    lemma_keys_array_snoc(items.take(m), items[m]);
    assert(items.take(m).push(items[m]) =~= items.take(m + 1));
    let body = keys_array_items(items);
    let done = keys_array_items(items.take(m));
    let next = keys_array_items(items.take(m + 1));
    let lit = key_json_of(items[m]);
    if m == 0 {
        assert(next == lit);
        assert(done == Seq::<char>::empty());
        assert forall|k: int| 0 <= k < lit.len() implies body.subrange(0int, lit.len() as int)[k]
            == lit[k] by {
            assert(body.subrange(0int, lit.len() as int)[k] == body[k]);
            assert(next[k] == body[k]);
        }
        assert(body.subrange(0int, lit.len() as int) =~= lit);
    } else {
        assert(next == done + seq![','] + lit);
        assert(body[done.len() as int] == next[done.len() as int]);
        assert(next[done.len() as int] == ',');
        assert forall|k: int| 0 <= k < lit.len() implies body.subrange(
            done.len() as int + 1,
            done.len() as int + 1 + lit.len() as int,
        )[k] == lit[k] by {
            assert(body.subrange(done.len() as int + 1, done.len() as int + 1 + lit.len() as int)[
                k] == body[done.len() + 1 + k]);
            assert(next[done.len() + 1 + k] == body[done.len() + 1 + k]);
            assert(next[done.len() + 1 + k] == lit[k]);
        }
        assert(body.subrange(done.len() as int + 1, done.len() as int + 1 + lit.len() as int)
            =~= lit);
    }
    if m + 1 == items.len() {
        assert(items.take(m + 1) =~= items);
    }
}

/// Whether the rendering of a whole keys section spans the input, tags
/// duplicate-free.
pub open spec fn keys_section_is(cs: Seq<char>, v: Seq<KeyItem>) -> bool {
    &&& cs == keys_json_of(v)
    &&& keys_tags_wf(v)
}

/// Where a keys-section witness places the reader after `m` keys.
proof fn lemma_keys_witness_at(cs: Seq<char>, v: Seq<KeyItem>, m: int, j: int)
    requires
        keys_section_is(cs, v),
        0 <= m <= v.len(),
        j == 1 + keys_array_items(v.take(m)).len(),
    ensures
        keys_array_items(v.take(m)).len() <= keys_array_items(v).len(),
        cs.len() == keys_array_items(v).len() + 2,
        m == v.len() ==> cs[j] == ']',
        m < v.len() && m == 0 ==> key_json_at(cs, j, v[0]),
        m < v.len() && m > 0 ==> cs[j] == ',' && key_json_at(cs, j + 1, v[m]),
{
    let body = keys_array_items(v);
    assert(cs == seq!['['] + body + seq![']']);
    assert forall|k: int| 0 <= k < body.len() implies #[trigger] cs[1 + k] == body[k] by {
        assert((seq!['['] + body)[1 + k] == body[k]);
        assert(cs[1 + k] == (seq!['['] + body)[1 + k]);
    }
    lemma_keys_body_prefix(v, m);
    if m == v.len() {
        assert(v.take(m) =~= v);
        assert(cs[1 + body.len() as int] == ']');
    } else {
        lemma_keys_body_window(v, m);
        let done = keys_array_items(v.take(m));
        let sep: int = if m == 0 {
            0int
        } else {
            1int
        };
        let lit = key_json_of(v[m]);
        if m > 0 {
            assert(cs[1 + done.len() as int] == body[done.len() as int]);
        }
        let win = body.subrange(done.len() as int + sep, done.len() as int + sep + lit.len() as int);
        assert(win == lit);
        assert forall|k: int| 0 <= k < lit.len() implies cs.skip(j + sep)[k] == lit[k] by {
            assert(win[k] == body[done.len() + sep + k]);
            assert(cs[1 + done.len() + sep + k] == body[done.len() + sep + k]);
            assert(cs.skip(j + sep)[k] == cs[j + sep + k]);
        }
        assert(lit =~= cs.skip(j + sep).subrange(0, lit.len() as int));
        assert(lit.is_prefix_of(cs.skip(j + sep)));
        assert(v[m].tags.wf());
    }
}

/// Keys with equal data render to one body.
proof fn lemma_keys_items_congruent(a: Seq<KeyItem>, b: Seq<KeyItem>)
    requires
        a.len() == b.len(),
        forall|i: int| 0 <= i < a.len() ==> key_eq(#[trigger] a[i], b[i]),
    ensures
        keys_array_items(a) == keys_array_items(b),
    decreases a.len(),
{
    if a.len() > 0 {
        assert(key_eq(a[0], b[0]));
        assert(key_json_of(a[0]) == key_json_of(b[0]));
        assert forall|i: int|
            0 <= i < a.drop_first().len() implies key_eq(
            #[trigger] a.drop_first()[i],
            b.drop_first()[i],
        ) by {
            assert(a.drop_first()[i] == a[i + 1]);
            assert(b.drop_first()[i] == b[i + 1]);
            assert(key_eq(a[i + 1], b[i + 1]));
        }
        lemma_keys_items_congruent(a.drop_first(), b.drop_first());
    }
}

/// The reader's position after the consumed elements, for any witness.
proof fn lemma_keys_resume(cs: Seq<char>, out: Seq<KeyItem>, v: Seq<KeyItem>, j: int)
    requires
        keys_section_is(cs, v),
        out.len() <= v.len(),
        forall|i: int| 0 <= i < out.len() ==> key_eq(#[trigger] out[i], v[i]),
        0 < j <= cs.len(),
        cs.subrange(0, j) == seq!['['] + keys_array_items(out) || (out.len() == 0 && cs.subrange(
            0,
            j,
        ) == seq!['[']),
    ensures
        j == 1 + keys_array_items(v.take(out.len() as int)).len(),
{
    let m = out.len() as int;
    assert forall|i: int| 0 <= i < out.len() implies key_eq(#[trigger] out[i], v.take(m)[i]) by {
        assert(v.take(m)[i] == v[i]);
    }
    lemma_keys_items_congruent(out, v.take(m));
    if m == 0 {
        assert(keys_array_items(v.take(0)) == Seq::<char>::empty());
        assert(cs.subrange(0, j).len() == j);
    } else {
        assert(cs.subrange(0, j) == seq!['['] + keys_array_items(out));
        assert(cs.subrange(0, j).len() == j);
        assert((seq!['['] + keys_array_items(out)).len() == 1 + keys_array_items(out).len());
    }
}

/// After the whole witness was consumed, only the closing bracket can
/// follow; before that, a comma or the next key object.
proof fn lemma_keys_guards(cs: Seq<char>, out: Seq<KeyItem>, v: Seq<KeyItem>, j: int)
    requires
        keys_section_is(cs, v),
        out.len() <= v.len(),
        forall|i: int| 0 <= i < out.len() ==> key_eq(#[trigger] out[i], v[i]),
        0 < j <= cs.len(),
        cs.subrange(0, j) == seq!['['] + keys_array_items(out) || (out.len() == 0 && cs.subrange(
            0,
            j,
        ) == seq!['[']),
    ensures
        j < cs.len(),
        out.len() == v.len() ==> cs[j] == ']',
        out.len() < v.len() && out.len() == 0 ==> key_json_at(cs, j, v[0]) && cs[j] == '{',
        out.len() < v.len() && out.len() > 0 ==> cs[j] == ',' && key_json_at(cs, j + 1, v[
            out.len() as int]),
{
    let m = out.len() as int;
    lemma_keys_resume(cs, out, v, j);
    lemma_keys_witness_at(cs, v, m, j);
    if m < v.len() && m == 0 {
        assert(key_json_of(v[0]).is_prefix_of(cs.skip(j)));
        assert(cs.skip(j)[0] == cs[j]);
        reveal_strlit("{\"id\":");
        assert(key_json_of(v[0])[0] == '{');
    }
}

/// Appending a key pinned to the witness keeps the element alignment.
proof fn lemma_keys_step_invariant(
    cs: Seq<char>,
    out_old: Seq<KeyItem>,
    key: KeyItem,
    v: Seq<KeyItem>,
    j_old: int,
    jc: int,
    j2: int,
)
    requires
        keys_section_is(cs, v),
        out_old.len() <= v.len(),
        forall|i: int| 0 <= i < out_old.len() ==> key_eq(#[trigger] out_old[i], v[i]),
        0 < j_old <= cs.len(),
        cs.subrange(0, j_old) == seq!['['] + keys_array_items(out_old) || (out_old.len() == 0
            && cs.subrange(0, j_old) == seq!['[']),
        out_old.len() < v.len(),
        jc == j_old + (if out_old.len() == 0 {
            0int
        } else {
            1int
        }),
        forall|k: KeyItem| #[trigger]
            key_json_at(cs, jc, k) ==> key_eq(key, k) && j2 == jc + key_json_of(k).len(),
    ensures
        out_old.push(key).len() <= v.len(),
        forall|i: int|
            0 <= i < out_old.push(key).len() ==> key_eq(#[trigger] out_old.push(key)[i], v[i]),
{
    let m = out_old.len() as int;
    lemma_keys_guards(cs, out_old, v, j_old);
    if m == 0 {
        assert(key_json_at(cs, jc, v[0]));
        assert(key_eq(key, v[0]));
    } else {
        assert(key_json_at(cs, jc, v[m]));
        assert(key_eq(key, v[m]));
    }
    assert forall|i: int| 0 <= i < out_old.push(key).len() implies key_eq(
        #[trigger] out_old.push(key)[i],
        v[i],
    ) by {
        if i < m {
            assert(out_old.push(key)[i] == out_old[i]);
        } else {
            assert(out_old.push(key)[i] == key);
        }
    }
}

/// Gluing a consumed prefix, an optional comma, and a fresh piece.
proof fn lemma_section_glue(
    cs: Seq<char>,
    j_old: int,
    jc: int,
    j2: int,
    head: Seq<char>,
    piece: Seq<char>,
)
    requires
        0 < j_old <= jc <= j2 <= cs.len(),
        cs.subrange(0, j_old) == seq!['['] + head,
        jc > j_old ==> jc == j_old + 1 && cs[j_old] == ',',
        cs.subrange(jc, j2) == piece,
    ensures
        jc == j_old ==> cs.subrange(0, j2) == seq!['['] + (head + piece),
        jc > j_old ==> cs.subrange(0, j2) == seq!['['] + (head + seq![','] + piece),
{
    assert(cs.subrange(0, j_old).len() == j_old);
    assert((seq!['['] + head).len() == 1 + head.len());
    assert(head.len() == j_old - 1);
    assert forall|k: int| 0 <= k < j_old implies #[trigger] cs[k] == (seq!['['] + head)[k] by {
        assert(cs.subrange(0, j_old)[k] == cs[k]);
    }
    assert forall|k: int| 0 <= k < piece.len() implies #[trigger] cs[jc + k] == piece[k] by {
        assert(cs.subrange(jc, j2)[k] == cs[jc + k]);
    }
    if jc == j_old {
        assert(cs.subrange(0, j2) =~= seq!['['] + (head + piece));
    } else {
        assert(cs.subrange(0, j2) =~= seq!['['] + (head + seq![','] + piece));
    }
}

/// Pushing the key read from the input keeps the witness alignment.
proof fn lemma_keys_push_all(
    cs: Seq<char>,
    out_old: Seq<KeyItem>,
    key: KeyItem,
    j_old: int,
    jc: int,
    j2: int,
)
    requires
        0 < j_old <= cs.len(),
        cs.subrange(0, j_old) == seq!['['] + keys_array_items(out_old) || (out_old.len() == 0
            && cs.subrange(0, j_old) == seq!['[']),
        forall|v: Seq<KeyItem>| #[trigger]
            keys_section_is(cs, v) ==> out_old.len() <= v.len() && (forall|i: int|
                0 <= i < out_old.len() ==> key_eq(#[trigger] out_old[i], v[i])) && v.len() > 0,
        out_old.len() > 0 ==> cs[j_old] == ',',
        jc == j_old + (if out_old.len() == 0 {
            0int
        } else {
            1int
        }),
        forall|k: KeyItem| #[trigger]
            key_json_at(cs, jc, k) ==> key_eq(key, k) && j2 == jc + key_json_of(k).len(),
    ensures
        forall|v: Seq<KeyItem>| #[trigger]
            keys_section_is(cs, v) ==> out_old.push(key).len() <= v.len() && (forall|i: int|
                0 <= i < out_old.push(key).len() ==> key_eq(#[trigger] out_old.push(key)[i], v[i]))
                && v.len() > 0,
{
    let m = out_old.len() as int;
    assert forall|v: Seq<KeyItem>| #[trigger]
        keys_section_is(cs, v) implies out_old.push(key).len() <= v.len() && (forall|i: int|
        0 <= i < out_old.push(key).len() ==> key_eq(#[trigger] out_old.push(key)[i], v[i]))
        && v.len() > 0 by {
        lemma_keys_guards(cs, out_old, v, j_old);
        if m == v.len() {
            if m > 0 {
                assert(cs[j_old] == ']');
                assert(false);
            } else {
                assert(false);
            }
        }
        lemma_keys_step_invariant(cs, out_old, key, v, j_old, jc, j2);
    }
}

/// Everything the parsed key contributes: the consumed text and the
/// witness alignment.
proof fn lemma_keys_after_parse(
    cs: Seq<char>,
    out_old: Seq<KeyItem>,
    key: KeyItem,
    j_old: int,
    jc: int,
    j2: int,
)
    requires
        0 < j_old <= jc <= j2 <= cs.len(),
        cs.subrange(0, j_old) == seq!['['] + keys_array_items(out_old) || (out_old.len() == 0
            && cs.subrange(0, j_old) == seq!['[']),
        forall|v: Seq<KeyItem>| #[trigger]
            keys_section_is(cs, v) ==> out_old.len() <= v.len() && (forall|i: int|
                0 <= i < out_old.len() ==> key_eq(#[trigger] out_old[i], v[i])) && v.len() > 0,
        out_old.len() > 0 ==> jc == j_old + 1 && cs[j_old] == ',',
        out_old.len() == 0 ==> jc == j_old,
        cs.subrange(jc, j2) == key_json_of(key),
        forall|k: KeyItem| #[trigger]
            key_json_at(cs, jc, k) ==> key_eq(key, k) && j2 == jc + key_json_of(k).len(),
    ensures
        cs.subrange(0, j2) == seq!['['] + keys_array_items(out_old.push(key)),
        forall|v: Seq<KeyItem>| #[trigger]
            keys_section_is(cs, v) ==> out_old.push(key).len() <= v.len() && (forall|i: int|
                0 <= i < out_old.push(key).len() ==> key_eq(#[trigger] out_old.push(key)[i], v[i]))
                && v.len() > 0,
{
    lemma_keys_array_snoc(out_old, key);
    assert(cs.subrange(0, j_old) == seq!['['] + keys_array_items(out_old)) by {
        if out_old.len() == 0 {
            assert(cs.subrange(0, j_old) =~= seq!['['] + keys_array_items(out_old));
        }
    }
    lemma_section_glue(cs, j_old, jc, j2, keys_array_items(out_old), key_json_of(key));
    if out_old.len() == 0 {
        assert(keys_array_items(out_old) + key_json_of(key) =~= keys_array_items(
            out_old.push(key),
        ));
    }
    lemma_keys_push_all(cs, out_old, key, j_old, jc, j2);
}

/// One step of reading the keys section: past the consumed elements'
/// rendering, read a separator and the next key, or recognize the closing
/// bracket.
#[verifier::rlimit(100)]
fn parse_keys_element(cs: &Vec<char>, j: usize, out: &mut Vec<KeyItem>) -> (r: Result<
    Option<usize>,
    Error,
>)
    requires
        0 < j <= cs@.len(),
        forall|i: int| 0 <= i < old(out)@.len() ==> (#[trigger] old(out)@[i]).tags.wf(),
        cs@.subrange(0, j as int) == seq!['['] + keys_array_items(old(out)@) || (old(out)@.len()
            == 0 && cs@.subrange(0, j as int) == seq!['[']),
        forall|v: Seq<KeyItem>| #[trigger]
            keys_section_is(cs@, v) ==> old(out)@.len() <= v.len() && (forall|i: int|
                0 <= i < old(out)@.len() ==> key_eq(#[trigger] old(out)@[i], v[i])) && v.len() > 0,
    ensures
        forall|i: int| 0 <= i < final(out)@.len() ==> (#[trigger] final(out)@[i]).tags.wf(),
        match r {
            Ok(Some(j2)) => {
                &&& j < j2 <= cs@.len()
                &&& cs@.subrange(0, j2 as int) == seq!['['] + keys_array_items(final(out)@)
                &&& final(out)@.len() > 0
                &&& forall|v: Seq<KeyItem>| #[trigger]
                    keys_section_is(cs@, v) ==> final(out)@.len() <= v.len() && (forall|i: int|
                        0 <= i < final(out)@.len() ==> key_eq(#[trigger] final(out)@[i], v[i]))
                        && v.len() > 0
            },
            Ok(None) => {
                &&& final(out)@ == old(out)@
                &&& j < cs@.len() && cs@[j as int] == ']'
                &&& forall|v: Seq<KeyItem>| #[trigger]
                    keys_section_is(cs@, v) ==> final(out)@.len() == v.len() && (forall|i: int|
                        0 <= i < final(out)@.len() ==> key_eq(#[trigger] final(out)@[i], v[i]))
            },
            Err(e) => forall|v: Seq<KeyItem>| !keys_section_is(cs@, v),
        },
{
    let ghost out_old = out@;
    let ghost m = out@.len() as int;
    let ghost j_old = j as int;
    let mut jc = j;
    if out.len() > 0 {
        if jc >= cs.len() {
            proof {
                assert forall|v: Seq<KeyItem>| !keys_section_is(cs@, v) by {
                    if keys_section_is(cs@, v) {
                        lemma_keys_guards(cs@, out@, v, j as int);
                    }
                }
            }
            return Err(Error::InvalidJsonError(String::new()));
        }
        if cs[jc] == ']' {
            proof {
                assert forall|v: Seq<KeyItem>| #[trigger]
                    keys_section_is(cs@, v) implies out@.len() == v.len() by {
                    lemma_keys_guards(cs@, out@, v, j as int);
                    if m < v.len() {
                        assert(cs@[j as int] == ',');
                        assert(false);
                    }
                }
            }
            return Ok(None);
        }
        if cs[jc] != ',' {
            proof {
                assert forall|v: Seq<KeyItem>| !keys_section_is(cs@, v) by {
                    if keys_section_is(cs@, v) {
                        lemma_keys_guards(cs@, out@, v, j as int);
                        if m == v.len() {
                            assert(cs@[j as int] == ']');
                        } else {
                            assert(cs@[j as int] == ',');
                        }
                    }
                }
            }
            return Err(Error::InvalidJsonError(String::new()));
        }
        proof {
            assert(cs@[j_old] == ',');
        }
        jc = jc + 1;
    }
    let (key, j2) = match parse_key_json(cs, jc) {
        Ok(p) => p,
        Err(e) => {
            proof {
                assert forall|v: Seq<KeyItem>| !keys_section_is(cs@, v) by {
                    if keys_section_is(cs@, v) {
                        lemma_keys_guards(cs@, out@, v, j_old);
                        if m == v.len() {
                            assert(cs@[j_old] == ']');
                            assert(cs@[j_old] == ',' || m == 0);
                        }
                    }
                }
            }
            return Err(e);
        },
    };
    out.push(key);
    proof {
        assert(cs@.subrange(jc as int, j2 as int) == key_json_of(key));
        lemma_keys_after_parse(cs@, out_old, key, j_old, jc as int, j2 as int);
        assert(out@ == out_old.push(key));
    }
    Ok(Some(j2))
}

/// Reads the keys section: a canonical JSON array of key objects, which
/// must span the whole input.  An input that is the rendering of some key
/// list with duplicate-free tags is always read back to keys with the same
/// data.
#[verifier::rlimit(100)]
pub fn parse_keys_section(cs: &Vec<char>) -> (r: Result<Vec<KeyItem>, Error>)
    ensures
        r matches Ok(v) ==> cs@ == keys_json_of(v@) && (forall|i: int|
            0 <= i < v@.len() ==> (#[trigger] v@[i]).tags.wf()),
        forall|v: Seq<KeyItem>| #[trigger]
            keys_section_is(cs@, v) ==> (r matches Ok(w) && w@.len() == v.len() && (forall|i: int|
                0 <= i < v.len() ==> key_eq(#[trigger] w@[i], v[i]))),
{
    let mut j = match expect_lit(cs, 0, "[") {
        Ok(j) => j,
        Err(e) => {
            proof {
                reveal_strlit("[");
                assert forall|v: Seq<KeyItem>| !keys_section_is(cs@, v) by {
                    if keys_section_is(cs@, v) {
                        assert(cs@[0] == '[');
                        assert("["@ =~= cs@.skip(0).subrange(0, 1));
                    }
                }
            }
            return Err(e);
        },
    };
    proof {
        reveal_strlit("[");
        assert(cs@.subrange(0, j as int) =~= seq!['[']);
        reveal_strlit("{\"id\":");
    }
    let mut out: Vec<KeyItem> = Vec::new();
    proof {
        assert forall|v: Seq<KeyItem>| #[trigger]
            keys_section_is(cs@, v) implies out@.len() <= v.len() && (forall|i: int|
            0 <= i < out@.len() ==> key_eq(#[trigger] out@[i], v[i])) && j == 1 + keys_array_items(
            v.take(out@.len() as int),
        ).len() by {
            assert(keys_array_items(v.take(0)) == Seq::<char>::empty());
        }
    }
    if j < cs.len() && cs[j] == ']' {
        proof {
            assert forall|v: Seq<KeyItem>| #[trigger]
                keys_section_is(cs@, v) implies v.len() == 0 by {
                lemma_keys_witness_at(cs@, v, 0, j as int);
                if v.len() > 0 {
                    assert(key_json_of(v[0]).is_prefix_of(cs@.skip(j as int)));
                    assert(cs@.skip(j as int)[0] == cs@[j as int]);
                    assert(key_json_of(v[0])[0] == '{');
                    assert(false);
                }
            }
        }
        if j + 1 != cs.len() {
            proof {
                assert forall|v: Seq<KeyItem>| !keys_section_is(cs@, v) by {
                    if keys_section_is(cs@, v) {
                        assert(v.len() == 0);
                        assert(keys_array_items(v) == Seq::<char>::empty());
                        assert(cs@.len() == 2);
                    }
                }
            }
            return Err(Error::InvalidJsonError(String::new()));
        }
        proof {
            assert(cs@.subrange(0, j + 1 as int) =~= keys_json_of(out@));
            assert(cs@ =~= cs@.subrange(0, j + 1 as int));
            assert forall|v: Seq<KeyItem>| #[trigger]
                keys_section_is(cs@, v) implies out@.len() == v.len() by {}
        }
        return Ok(out);
    }
    proof {
        assert forall|v: Seq<KeyItem>| !(keys_section_is(cs@, v) && v.len() == 0) by {
            if keys_section_is(cs@, v) && v.len() == 0 {
                lemma_keys_witness_at(cs@, v, 0, j as int);
                assert(cs@[j as int] == ']');
            }
        }
    }
    loop
        invariant
            0 < j <= cs@.len(),
            forall|i: int| 0 <= i < out@.len() ==> (#[trigger] out@[i]).tags.wf(),
            cs@.subrange(0, j as int) == seq!['['] + keys_array_items(out@) || (out@.len() == 0
                && cs@.subrange(0, j as int) == seq!['[']),
            forall|v: Seq<KeyItem>| #[trigger]
                keys_section_is(cs@, v) ==> out@.len() <= v.len() && (forall|i: int|
                    0 <= i < out@.len() ==> key_eq(#[trigger] out@[i], v[i])) && v.len() > 0,
        ensures
            j < cs@.len(),
            cs@[j as int] == ']',
            forall|i: int| 0 <= i < out@.len() ==> (#[trigger] out@[i]).tags.wf(),
            cs@.subrange(0, j as int) == seq!['['] + keys_array_items(out@),
            forall|v: Seq<KeyItem>| #[trigger]
                keys_section_is(cs@, v) ==> out@.len() == v.len() && (forall|i: int|
                    0 <= i < out@.len() ==> key_eq(#[trigger] out@[i], v[i])),
        decreases cs@.len() - j,
    {
        match parse_keys_element(cs, j, &mut out) {
            Ok(Some(j2)) => {
                j = j2;
            },
            Ok(None) => {
                break ;
            },
            Err(e) => {
                return Err(e);
            },
        }
    }
    proof {
        assert forall|v: Seq<KeyItem>| #[trigger]
            keys_section_is(cs@, v) implies j == 1 + keys_array_items(v).len() by {
            assert(v.take(v.len() as int) =~= v);
            lemma_keys_items_congruent(out@, v);
            assert(keys_array_items(out@).len() == j - 1);
        }
    }
    if j + 1 != cs.len() {
        proof {
            assert forall|v: Seq<KeyItem>| !keys_section_is(cs@, v) by {
                if keys_section_is(cs@, v) {
                    assert(j == 1 + keys_array_items(v).len());
                    assert(cs@.len() == keys_array_items(v).len() + 2);
                }
            }
        }
        return Err(Error::InvalidJsonError(String::new()));
    }
    proof {
        assert(cs@.subrange(0, j + 1 as int) =~= keys_json_of(out@));
        assert(cs@ =~= cs@.subrange(0, j + 1 as int));
    }
    Ok(out)
}


/// Every partial charsets body is a prefix of the whole body.
proof fn lemma_charsets_body_prefix(items: Seq<CharsetItem>, m: int)
    requires
        0 <= m <= items.len(),
    ensures
        charsets_array_items(items.take(m)).is_prefix_of(charsets_array_items(items)),
    decreases items.len() - m,
{
    if m == items.len() {
        assert(items.take(m) =~= items);
        assert(charsets_array_items(items).is_prefix_of(charsets_array_items(items)));
    } else {
        lemma_charsets_body_prefix(items, m + 1);
        lemma_charsets_array_snoc(items.take(m), items[m]);
        assert(items.take(m).push(items[m]) =~= items.take(m + 1));
        let done = charsets_array_items(items.take(m));
        let next = charsets_array_items(items.take(m + 1));
        assert(done.is_prefix_of(next)) by {
            if m == 0 {
                assert(next == charset_json_of(items[m]));
                assert(done == Seq::<char>::empty());
                assert(done =~= next.subrange(0, 0));
            } else {
                assert(next == done + seq![','] + charset_json_of(items[m]));
                assert(done =~= next.subrange(0, done.len() as int));
            }
        }
        lemma_prefix_trans(done, next, charsets_array_items(items));
    }
}

/// The window of charset row `m` inside the whole body.
proof fn lemma_charsets_body_window(items: Seq<CharsetItem>, m: int)
    requires
        0 <= m < items.len(),
    ensures
        ({
            let body = charsets_array_items(items);
            let done = charsets_array_items(items.take(m));
            let sep: int = if m == 0 {
                0int
            } else {
                1int
            };
            let lit = charset_json_of(items[m]);
            &&& done.len() + sep + lit.len() <= body.len()
            &&& (m > 0 ==> body[done.len() as int] == ',')
            &&& body.subrange(done.len() as int + sep, done.len() as int + sep + lit.len() as int)
                == lit
            &&& (m + 1 == items.len() ==> done.len() + sep + lit.len() == body.len())
        }),
{
    lemma_charsets_body_prefix(items, m + 1);
    lemma_charsets_array_snoc(items.take(m), items[m]);
    assert(items.take(m).push(items[m]) =~= items.take(m + 1));
    let body = charsets_array_items(items);
    let done = charsets_array_items(items.take(m));
    let next = charsets_array_items(items.take(m + 1));
    let lit = charset_json_of(items[m]);
    if m == 0 {
        assert(next == lit);
        assert(done == Seq::<char>::empty());
        assert forall|k: int| 0 <= k < lit.len() implies body.subrange(0int, lit.len() as int)[k]
            == lit[k] by {
            assert(body.subrange(0int, lit.len() as int)[k] == body[k]);
            assert(next[k] == body[k]);
        }
        assert(body.subrange(0int, lit.len() as int) =~= lit);
    } else {
        assert(next == done + seq![','] + lit);
        assert(body[done.len() as int] == next[done.len() as int]);
        assert(next[done.len() as int] == ',');
        assert forall|k: int| 0 <= k < lit.len() implies body.subrange(
            done.len() as int + 1,
            done.len() as int + 1 + lit.len() as int,
        )[k] == lit[k] by {
            assert(body.subrange(done.len() as int + 1, done.len() as int + 1 + lit.len() as int)[
                k] == body[done.len() + 1 + k]);
            assert(next[done.len() + 1 + k] == body[done.len() + 1 + k]);
            assert(next[done.len() + 1 + k] == lit[k]);
        }
        assert(body.subrange(done.len() as int + 1, done.len() as int + 1 + lit.len() as int)
            =~= lit);
    }
    if m + 1 == items.len() {
        assert(items.take(m + 1) =~= items);
    }
}

/// Whether the rendering of a whole charsets section spans the input.
pub open spec fn charsets_section_is(cs: Seq<char>, v: Seq<CharsetItem>) -> bool {
    cs == charsets_json_of(v)
}

/// Where a charsets-section witness places the reader after `m` rows.
proof fn lemma_charsets_witness_at(cs: Seq<char>, v: Seq<CharsetItem>, m: int, j: int)
    requires
        charsets_section_is(cs, v),
        0 <= m <= v.len(),
        j == 1 + charsets_array_items(v.take(m)).len(),
    ensures
        charsets_array_items(v.take(m)).len() <= charsets_array_items(v).len(),
        cs.len() == charsets_array_items(v).len() + 2,
        m == v.len() ==> cs[j] == ']',
        m < v.len() && m == 0 ==> charset_json_at(cs, j, v[0]),
        m < v.len() && m > 0 ==> cs[j] == ',' && charset_json_at(cs, j + 1, v[m]),
{
    let body = charsets_array_items(v);
    assert(cs == seq!['['] + body + seq![']']);
    assert forall|k: int| 0 <= k < body.len() implies #[trigger] cs[1 + k] == body[k] by {
        assert((seq!['['] + body)[1 + k] == body[k]);
        assert(cs[1 + k] == (seq!['['] + body)[1 + k]);
    }
    lemma_charsets_body_prefix(v, m);
    if m == v.len() {
        assert(v.take(m) =~= v);
        assert(cs[1 + body.len() as int] == ']');
    } else {
        lemma_charsets_body_window(v, m);
        let done = charsets_array_items(v.take(m));
        let sep: int = if m == 0 {
            0int
        } else {
            1int
        };
        let lit = charset_json_of(v[m]);
        if m > 0 {
            assert(cs[1 + done.len() as int] == body[done.len() as int]);
        }
        let win = body.subrange(done.len() as int + sep, done.len() as int + sep + lit.len() as int);
        assert(win == lit);
        assert forall|k: int| 0 <= k < lit.len() implies cs.skip(j + sep)[k] == lit[k] by {
            assert(win[k] == body[done.len() + sep + k]);
            assert(cs[1 + done.len() + sep + k] == body[done.len() + sep + k]);
            assert(cs.skip(j + sep)[k] == cs[j + sep + k]);
        }
        assert(lit =~= cs.skip(j + sep).subrange(0, lit.len() as int));
        assert(lit.is_prefix_of(cs.skip(j + sep)));
    }
}

/// Charset rows with equal data render to one body.
proof fn lemma_charsets_items_congruent(a: Seq<CharsetItem>, b: Seq<CharsetItem>)
    requires
        a.len() == b.len(),
        forall|i: int| 0 <= i < a.len() ==> charset_item_eq(#[trigger] a[i], b[i]),
    ensures
        charsets_array_items(a) == charsets_array_items(b),
    decreases a.len(),
{
    if a.len() > 0 {
        assert(charset_item_eq(a[0], b[0]));
        assert(charset_json_of(a[0]) == charset_json_of(b[0]));
        assert forall|i: int|
            0 <= i < a.drop_first().len() implies charset_item_eq(
            #[trigger] a.drop_first()[i],
            b.drop_first()[i],
        ) by {
            assert(a.drop_first()[i] == a[i + 1]);
            assert(b.drop_first()[i] == b[i + 1]);
            assert(charset_item_eq(a[i + 1], b[i + 1]));
        }
        lemma_charsets_items_congruent(a.drop_first(), b.drop_first());
    }
}

/// After the consumed rows, only the closing bracket, a comma, or the next
/// row can follow.
proof fn lemma_charsets_guards(cs: Seq<char>, out: Seq<CharsetItem>, v: Seq<CharsetItem>, j: int)
    requires
        charsets_section_is(cs, v),
        out.len() <= v.len(),
        forall|i: int| 0 <= i < out.len() ==> charset_item_eq(#[trigger] out[i], v[i]),
        0 < j <= cs.len(),
        cs.subrange(0, j) == seq!['['] + charsets_array_items(out) || (out.len() == 0
            && cs.subrange(0, j) == seq!['[']),
    ensures
        j < cs.len(),
        out.len() == v.len() ==> cs[j] == ']',
        out.len() < v.len() && out.len() == 0 ==> charset_json_at(cs, j, v[0]) && cs[j] == '{',
        out.len() < v.len() && out.len() > 0 ==> cs[j] == ',' && charset_json_at(cs, j + 1, v[
            out.len() as int]),
{
    let m = out.len() as int;
    assert forall|i: int|
        0 <= i < out.len() implies charset_item_eq(#[trigger] out[i], v.take(m)[i]) by {
        assert(v.take(m)[i] == v[i]);
    }
    lemma_charsets_items_congruent(out, v.take(m));
    if m == 0 {
        assert(charsets_array_items(v.take(0)) == Seq::<char>::empty());
        assert(cs.subrange(0, j).len() == j);
    } else {
        assert(cs.subrange(0, j) == seq!['['] + charsets_array_items(out));
        assert(cs.subrange(0, j).len() == j);
        assert((seq!['['] + charsets_array_items(out)).len() == 1 + charsets_array_items(
            out,
        ).len());
    }
    lemma_charsets_witness_at(cs, v, m, j);
    if m < v.len() && m == 0 {
        assert(charset_json_of(v[0]).is_prefix_of(cs.skip(j)));
        assert(cs.skip(j)[0] == cs[j]);
        reveal_strlit("{\"name\":");
        assert(charset_json_of(v[0])[0] == '{');
    }
}

/// Pushing the charset row read from the input keeps the witness alignment.
proof fn lemma_charsets_push_all(
    cs: Seq<char>,
    out_old: Seq<CharsetItem>,
    item: CharsetItem,
    j_old: int,
    jc: int,
    j2: int,
)
    requires
        0 < j_old <= cs.len(),
        cs.subrange(0, j_old) == seq!['['] + charsets_array_items(out_old) || (out_old.len() == 0
            && cs.subrange(0, j_old) == seq!['[']),
        forall|v: Seq<CharsetItem>| #[trigger]
            charsets_section_is(cs, v) ==> out_old.len() <= v.len() && (forall|i: int|
                0 <= i < out_old.len() ==> charset_item_eq(#[trigger] out_old[i], v[i]))
                && v.len() > 0,
        out_old.len() > 0 ==> cs[j_old] == ',',
        jc == j_old + (if out_old.len() == 0 {
            0int
        } else {
            1int
        }),
        forall|c: CharsetItem| #[trigger]
            charset_json_at(cs, jc, c) ==> charset_item_eq(item, c) && j2 == jc + charset_json_of(
                c,
            ).len(),
    ensures
        forall|v: Seq<CharsetItem>| #[trigger]
            charsets_section_is(cs, v) ==> out_old.push(item).len() <= v.len() && (forall|i: int|
                0 <= i < out_old.push(item).len() ==> charset_item_eq(
                    #[trigger] out_old.push(item)[i],
                    v[i],
                )) && v.len() > 0,
{
    let m = out_old.len() as int;
    assert forall|v: Seq<CharsetItem>| #[trigger]
        charsets_section_is(cs, v) implies out_old.push(item).len() <= v.len() && (forall|i: int|
        0 <= i < out_old.push(item).len() ==> charset_item_eq(
            #[trigger] out_old.push(item)[i],
            v[i],
        )) && v.len() > 0 by {
        lemma_charsets_guards(cs, out_old, v, j_old);
        if m == v.len() {
            if m > 0 {
                assert(cs[j_old] == ']');
                assert(false);
            } else {
                assert(false);
            }
        }
        if m == 0 {
            assert(charset_json_at(cs, jc, v[0]));
            assert(charset_item_eq(item, v[0]));
        } else {
            assert(charset_json_at(cs, jc, v[m]));
            assert(charset_item_eq(item, v[m]));
        }
        assert forall|i: int| 0 <= i < out_old.push(item).len() implies charset_item_eq(
            #[trigger] out_old.push(item)[i],
            v[i],
        ) by {
            if i < m {
                assert(out_old.push(item)[i] == out_old[i]);
            } else {
                assert(out_old.push(item)[i] == item);
            }
        }
    }
}

/// Everything the parsed charset row contributes.
proof fn lemma_charsets_after_parse(
    cs: Seq<char>,
    out_old: Seq<CharsetItem>,
    item: CharsetItem,
    j_old: int,
    jc: int,
    j2: int,
)
    requires
        0 < j_old <= jc <= j2 <= cs.len(),
        cs.subrange(0, j_old) == seq!['['] + charsets_array_items(out_old) || (out_old.len() == 0
            && cs.subrange(0, j_old) == seq!['[']),
        forall|v: Seq<CharsetItem>| #[trigger]
            charsets_section_is(cs, v) ==> out_old.len() <= v.len() && (forall|i: int|
                0 <= i < out_old.len() ==> charset_item_eq(#[trigger] out_old[i], v[i]))
                && v.len() > 0,
        out_old.len() > 0 ==> jc == j_old + 1 && cs[j_old] == ',',
        out_old.len() == 0 ==> jc == j_old,
        cs.subrange(jc, j2) == charset_json_of(item),
        forall|c: CharsetItem| #[trigger]
            charset_json_at(cs, jc, c) ==> charset_item_eq(item, c) && j2 == jc + charset_json_of(
                c,
            ).len(),
    ensures
        cs.subrange(0, j2) == seq!['['] + charsets_array_items(out_old.push(item)),
        forall|v: Seq<CharsetItem>| #[trigger]
            charsets_section_is(cs, v) ==> out_old.push(item).len() <= v.len() && (forall|i: int|
                0 <= i < out_old.push(item).len() ==> charset_item_eq(
                    #[trigger] out_old.push(item)[i],
                    v[i],
                )) && v.len() > 0,
{
    lemma_charsets_array_snoc(out_old, item);
    assert(cs.subrange(0, j_old) == seq!['['] + charsets_array_items(out_old)) by {
        if out_old.len() == 0 {
            assert(cs.subrange(0, j_old) =~= seq!['['] + charsets_array_items(out_old));
        }
    }
    lemma_section_glue(cs, j_old, jc, j2, charsets_array_items(out_old), charset_json_of(item));
    if out_old.len() == 0 {
        assert(charsets_array_items(out_old) + charset_json_of(item) =~= charsets_array_items(
            out_old.push(item),
        ));
    }
    lemma_charsets_push_all(cs, out_old, item, j_old, jc, j2);
}

/// One step of reading the charsets section.
#[verifier::rlimit(100)]
fn parse_charsets_element(cs: &Vec<char>, j: usize, out: &mut Vec<CharsetItem>) -> (r: Result<
    Option<usize>,
    Error,
>)
    requires
        0 < j <= cs@.len(),
        cs@.subrange(0, j as int) == seq!['['] + charsets_array_items(old(out)@) || (old(
            out,
        )@.len() == 0 && cs@.subrange(0, j as int) == seq!['[']),
        forall|v: Seq<CharsetItem>| #[trigger]
            charsets_section_is(cs@, v) ==> old(out)@.len() <= v.len() && (forall|i: int|
                0 <= i < old(out)@.len() ==> charset_item_eq(#[trigger] old(out)@[i], v[i]))
                && v.len() > 0,
    ensures
        match r {
            Ok(Some(j2)) => {
                &&& j < j2 <= cs@.len()
                &&& cs@.subrange(0, j2 as int) == seq!['['] + charsets_array_items(final(out)@)
                &&& final(out)@.len() > 0
                &&& forall|v: Seq<CharsetItem>| #[trigger]
                    charsets_section_is(cs@, v) ==> final(out)@.len() <= v.len() && (forall|i: int|
                        0 <= i < final(out)@.len() ==> charset_item_eq(
                            #[trigger] final(out)@[i],
                            v[i],
                        )) && v.len() > 0
            },
            Ok(None) => {
                &&& final(out)@ == old(out)@
                &&& j < cs@.len() && cs@[j as int] == ']'
                &&& forall|v: Seq<CharsetItem>| #[trigger]
                    charsets_section_is(cs@, v) ==> final(out)@.len() == v.len() && (forall|i: int|
                        0 <= i < final(out)@.len() ==> charset_item_eq(
                            #[trigger] final(out)@[i],
                            v[i],
                        ))
            },
            Err(e) => forall|v: Seq<CharsetItem>| !charsets_section_is(cs@, v),
        },
{
    let ghost out_old = out@;
    let ghost m = out@.len() as int;
    let ghost j_old = j as int;
    let mut jc = j;
    if out.len() > 0 {
        if jc >= cs.len() {
            proof {
                assert forall|v: Seq<CharsetItem>| !charsets_section_is(cs@, v) by {
                    if charsets_section_is(cs@, v) {
                        lemma_charsets_guards(cs@, out@, v, j as int);
                    }
                }
            }
            return Err(Error::InvalidJsonError(String::new()));
        }
        if cs[jc] == ']' {
            proof {
                assert forall|v: Seq<CharsetItem>| #[trigger]
                    charsets_section_is(cs@, v) implies out@.len() == v.len() by {
                    lemma_charsets_guards(cs@, out@, v, j as int);
                    if m < v.len() {
                        assert(cs@[j as int] == ',');
                        assert(false);
                    }
                }
            }
            return Ok(None);
        }
        if cs[jc] != ',' {
            proof {
                assert forall|v: Seq<CharsetItem>| !charsets_section_is(cs@, v) by {
                    if charsets_section_is(cs@, v) {
                        lemma_charsets_guards(cs@, out@, v, j as int);
                        if m == v.len() {
                            assert(cs@[j as int] == ']');
                        } else {
                            assert(cs@[j as int] == ',');
                        }
                    }
                }
            }
            return Err(Error::InvalidJsonError(String::new()));
        }
        proof {
            assert(cs@[j_old] == ',');
        }
        jc = jc + 1;
    }
    let (item, j2) = match parse_charset_json(cs, jc) {
        Ok(p) => p,
        Err(e) => {
            proof {
                assert forall|v: Seq<CharsetItem>| !charsets_section_is(cs@, v) by {
                    if charsets_section_is(cs@, v) {
                        lemma_charsets_guards(cs@, out@, v, j_old);
                        if m == v.len() {
                            assert(cs@[j_old] == ']');
                            assert(cs@[j_old] == ',' || m == 0);
                        }
                    }
                }
            }
            return Err(e);
        },
    };
    out.push(item);
    proof {
        assert(cs@.subrange(jc as int, j2 as int) == charset_json_of(item));
        lemma_charsets_after_parse(cs@, out_old, item, j_old, jc as int, j2 as int);
        assert(out@ == out_old.push(item));
    }
    Ok(Some(j2))
}

/// Reads the charsets section: a canonical JSON array of charset objects,
/// which must span the whole input.  An input that is the rendering of some
/// row list is always read back to rows with the same data.
#[verifier::rlimit(100)]
pub fn parse_charsets_section(cs: &Vec<char>) -> (r: Result<Vec<CharsetItem>, Error>)
    ensures
        r matches Ok(v) ==> cs@ == charsets_json_of(v@),
        forall|v: Seq<CharsetItem>| #[trigger]
            charsets_section_is(cs@, v) ==> (r matches Ok(w) && w@.len() == v.len() && (forall|
                i: int,
            |
                0 <= i < v.len() ==> charset_item_eq(#[trigger] w@[i], v[i]))),
{
    let mut j = match expect_lit(cs, 0, "[") {
        Ok(j) => j,
        Err(e) => {
            proof {
                reveal_strlit("[");
                assert forall|v: Seq<CharsetItem>| !charsets_section_is(cs@, v) by {
                    if charsets_section_is(cs@, v) {
                        assert(cs@[0] == '[');
                        assert("["@ =~= cs@.skip(0).subrange(0, 1));
                    }
                }
            }
            return Err(e);
        },
    };
    proof {
        reveal_strlit("[");
        assert(cs@.subrange(0, j as int) =~= seq!['[']);
    }
    let mut out: Vec<CharsetItem> = Vec::new();
    proof {
        assert forall|v: Seq<CharsetItem>| #[trigger]
            charsets_section_is(cs@, v) implies out@.len() <= v.len() && (forall|i: int|
            0 <= i < out@.len() ==> charset_item_eq(#[trigger] out@[i], v[i])) by {}
    }
    if j < cs.len() && cs[j] == ']' {
        proof {
            assert forall|v: Seq<CharsetItem>| #[trigger]
                charsets_section_is(cs@, v) implies v.len() == 0 by {
                lemma_charsets_guards(cs@, out@, v, j as int);
                if v.len() > 0 {
                    assert(cs@[j as int] == '{');
                    assert(false);
                }
            }
        }
        if j + 1 != cs.len() {
            proof {
                assert forall|v: Seq<CharsetItem>| !charsets_section_is(cs@, v) by {
                    if charsets_section_is(cs@, v) {
                        assert(v.len() == 0);
                        assert(charsets_array_items(v) == Seq::<char>::empty());
                        assert(cs@.len() == 2);
                    }
                }
            }
            return Err(Error::InvalidJsonError(String::new()));
        }
        proof {
            assert(cs@.subrange(0, j + 1 as int) =~= charsets_json_of(out@));
            assert(cs@ =~= cs@.subrange(0, j + 1 as int));
        }
        return Ok(out);
    }
    proof {
        assert forall|v: Seq<CharsetItem>| !(charsets_section_is(cs@, v) && v.len() == 0) by {
            if charsets_section_is(cs@, v) && v.len() == 0 {
                lemma_charsets_guards(cs@, out@, v, j as int);
                assert(cs@[j as int] == ']');
            }
        }
    }
    loop
        invariant
            0 < j <= cs@.len(),
            cs@.subrange(0, j as int) == seq!['['] + charsets_array_items(out@) || (out@.len() == 0
                && cs@.subrange(0, j as int) == seq!['[']),
            forall|v: Seq<CharsetItem>| #[trigger]
                charsets_section_is(cs@, v) ==> out@.len() <= v.len() && (forall|i: int|
                    0 <= i < out@.len() ==> charset_item_eq(#[trigger] out@[i], v[i])) && v.len()
                    > 0,
        ensures
            j < cs@.len(),
            cs@[j as int] == ']',
            cs@.subrange(0, j as int) == seq!['['] + charsets_array_items(out@),
            forall|v: Seq<CharsetItem>| #[trigger]
                charsets_section_is(cs@, v) ==> out@.len() == v.len() && (forall|i: int|
                    0 <= i < out@.len() ==> charset_item_eq(#[trigger] out@[i], v[i])),
        decreases cs@.len() - j,
    {
        match parse_charsets_element(cs, j, &mut out) {
            Ok(Some(j2)) => {
                j = j2;
            },
            Ok(None) => {
                break ;
            },
            Err(e) => {
                return Err(e);
            },
        }
    }
    proof {
        assert forall|v: Seq<CharsetItem>| #[trigger]
            charsets_section_is(cs@, v) implies j == 1 + charsets_array_items(v).len() by {
            assert(v.take(v.len() as int) =~= v);
            lemma_charsets_items_congruent(out@, v);
            assert(cs@.subrange(0, j as int).len() == j);
            assert((seq!['['] + charsets_array_items(out@)).len() == 1 + charsets_array_items(
                out@,
            ).len());
        }
    }
    if j + 1 != cs.len() {
        proof {
            assert forall|v: Seq<CharsetItem>| !charsets_section_is(cs@, v) by {
                if charsets_section_is(cs@, v) {
                    assert(j == 1 + charsets_array_items(v).len());
                    assert(cs@.len() == charsets_array_items(v).len() + 2);
                }
            }
        }
        return Err(Error::InvalidJsonError(String::new()));
    }
    proof {
        assert(cs@.subrange(0, j + 1 as int) =~= charsets_json_of(out@));
        assert(cs@ =~= cs@.subrange(0, j + 1 as int));
    }
    Ok(out)
}

/// The archive section that a key's icon lives in.
pub open spec fn contents_prefix() -> Seq<char> {
    "contents/"@
}

/// What HMAC-SHA256 returns for a key and a message.  The value depends on
/// the two arguments alone; nothing further is assumed of it.
pub uninterp spec fn hmac_sha256_of(key: Seq<u8>, data: Seq<u8>) -> Seq<u8>;

/// Relies on hmac's Hmac<Sha256> (new_from_slice, update, finalize): the
/// keyed digest is 32 bytes and a pure function of the key and the data;
/// HMAC accepts keys of any length, so construction cannot fail.
#[verifier::external_body]
fn hmac_sha256(key: &[u8], data: &[u8]) -> (r: Vec<u8>)
    ensures
        r@ == hmac_sha256_of(key@, data@),
        r@.len() == 32,
{
    let mut mac = <hmac::Hmac<sha2::Sha256> as hmac::KeyInit>::new_from_slice(key).expect(
        "HMAC accepts keys of any length",
    );
    hmac::Mac::update(&mut mac, data);
    hmac::Mac::finalize(mac).into_bytes().to_vec()
}

/// An in-memory zip archive being written.  The handle is opaque to the
/// verifier; what matters of it is tracked beside it in verified state.
#[verifier::external_body]
struct ZipWriterHandle {
    inner: zip::ZipWriter<std::io::Cursor<Vec<u8>>>,
}

/// An opened in-memory zip archive.  The handle is opaque to the verifier;
/// its observable content is named by [`zip_entries`].
#[verifier::external_body]
pub struct ZipArchiveHandle {
    inner: zip::ZipArchive<std::io::Cursor<Vec<u8>>>,
}

/// The sections of an opened archive: each name mapped to its bytes.
pub uninterp spec fn zip_entries(archive: &ZipArchiveHandle) -> Map<Seq<char>, Seq<u8>>;

/// Relies on zip::ZipWriter::new over a fresh in-memory cursor.
#[verifier::external_body]
fn zip_writer_new() -> ZipWriterHandle {
    ZipWriterHandle { inner: zip::ZipWriter::new(std::io::Cursor::new(Vec::new())) }
}

/// Relies on zip::ZipWriter::start_file with default options: begins a new
/// archive entry under the given name.
#[verifier::external_body]
fn zip_start_file(w: &mut ZipWriterHandle, name: &str) -> (r: Result<(), Error>) {
    match w.inner.start_file(name, zip::write::SimpleFileOptions::default()) {
        Ok(()) => Ok(()),
        Err(e) => Err(Error::BackupError(e.to_string())),
    }
}

/// Relies on std::io::Write::write_all on the zip writer: appends the bytes
/// to the entry opened last.
#[verifier::external_body]
fn zip_write_all(w: &mut ZipWriterHandle, data: &[u8]) -> (r: Result<(), Error>) {
    match std::io::Write::write_all(&mut w.inner, data) {
        Ok(()) => Ok(()),
        Err(e) => Err(Error::BackupError(e.to_string())),
    }
}

/// Relies on zip::ZipWriter::finish and Cursor::into_inner: closes the
/// archive and hands back its bytes.
#[verifier::external_body]
fn zip_finish(w: ZipWriterHandle) -> (r: Result<Vec<u8>, Error>) {
    match w.inner.finish() {
        Ok(cursor) => Ok(cursor.into_inner()),
        Err(e) => Err(Error::BackupError(e.to_string())),
    }
}

/// Relies on zip::ZipArchive::new: parses the archive's central directory
/// from the given bytes.
#[verifier::external_body]
fn zip_open(bytes: Vec<u8>) -> (r: Result<ZipArchiveHandle, Error>) {
    match zip::ZipArchive::new(std::io::Cursor::new(bytes)) {
        Ok(a) => Ok(ZipArchiveHandle { inner: a }),
        Err(e) => Err(Error::BackupError(e.to_string())),
    }
}

/// Relies on zip::ZipArchive::by_name and std::io::Read::read_to_end: the
/// whole byte content of the named section, nothing when the archive has no
/// such section, an error on a corrupt entry; reading never changes the
/// archive's sections.
#[verifier::external_body]
fn zip_read_section(a: &mut ZipArchiveHandle, name: &str) -> (r: Result<Option<Vec<u8>>, Error>)
    ensures
        zip_entries(final(a)) == zip_entries(old(a)),
        r matches Ok(o) ==> match o {
            Some(v) => zip_entries(final(a)).contains_key(name@) && v@ == zip_entries(
                final(a),
            ).index(name@),
            None => !zip_entries(final(a)).contains_key(name@),
        },
{
    match a.inner.by_name(name) {
        Ok(mut f) => {
            let mut buf: Vec<u8> = Vec::new();
            match std::io::Read::read_to_end(&mut f, &mut buf) {
                Ok(_) => Ok(Some(buf)),
                Err(e) => Err(Error::BackupError(e.to_string())),
            }
        },
        Err(zip::result::ZipError::FileNotFound) => Ok(None),
        Err(e) => Err(Error::BackupError(e.to_string())),
    }
}

/// Relies on String::from_utf8: on success the returned text's UTF-8
/// encoding is exactly the input bytes; bytes that are not valid UTF-8 are
/// rejected.
#[verifier::external_body]
fn string_from_utf8(bytes: Vec<u8>) -> (r: Result<String, Error>)
    ensures
        r matches Ok(s) ==> vstd::utf8::encode_utf8(s@) == bytes@,
{
    match String::from_utf8(bytes) {
        Ok(s) => Ok(s),
        Err(_) => Err(Error::BackupError(String::from("section is not valid text"))),
    }
}

/// The concatenation, in order, of the data of a list of written sections.
pub open spec fn concat_section_data(sections: Seq<(Seq<char>, Seq<u8>)>) -> Seq<u8>
    decreases sections.len(),
{
    if sections.len() == 0 {
        Seq::empty()
    } else {
        sections[0].1 + concat_section_data(sections.drop_first())
    }
}

/// Writing one more section appends its bytes to the signed stream.
proof fn lemma_concat_section_snoc(sections: Seq<(Seq<char>, Seq<u8>)>, s: (Seq<char>, Seq<u8>))
    ensures
        concat_section_data(sections.push(s)) == concat_section_data(sections) + s.1,
    decreases sections.len(),
{
    if sections.len() == 0 {
        assert(sections =~= Seq::<(Seq<char>, Seq<u8>)>::empty());
        assert(sections.push(s)[0] == s);
        assert(sections.push(s).drop_first() =~= sections);
        assert(concat_section_data(sections) == Seq::<u8>::empty());
        assert(s.1 + concat_section_data(sections) =~= concat_section_data(sections) + s.1);
    } else {
        assert(sections.push(s)[0] == sections[0]);
        assert(sections.push(s).drop_first() =~= sections.drop_first().push(s));
        lemma_concat_section_snoc(sections.drop_first(), s);
        assert(sections[0].1 + (concat_section_data(sections.drop_first()) + s.1)
            =~= concat_section_data(sections) + s.1);
    }
}

/// The names of a list of written sections, in order.
pub open spec fn section_names(sections: Seq<(Seq<char>, Seq<u8>)>) -> Seq<Seq<char>> {
    Seq::new(sections.len(), |i: int| sections[i].0)
}

/// The concatenation of the named sections of an opened archive, in the
/// given name order.
pub open spec fn concat_entries(entries: Map<Seq<char>, Seq<u8>>, files: Seq<Seq<char>>) -> Seq<
    u8,
>
    decreases files.len(),
{
    if files.len() == 0 {
        Seq::empty()
    } else {
        entries[files[0]] + concat_entries(entries, files.drop_first())
    }
}

/// Whether two hex texts are equal up to ASCII case.
pub open spec fn hex_ci_eq(a: Seq<char>, b: Seq<char>) -> bool {
    crate::profile::search::lower_seq(a) == crate::profile::search::lower_seq(b)
}

/// Compares two texts for ASCII-case-insensitive equality.
fn str_ci_eq(a: &str, b: &str) -> (r: bool)
    ensures
        r == hex_ci_eq(a@, b@),
{
    let ac = str_chars(a);
    let bc = str_chars(b);
    let la = crate::profile::search::lower_chars(&ac);
    let lb = crate::profile::search::lower_chars(&bc);
    if la.len() != lb.len() {
        proof {
            assert(crate::profile::search::lower_seq(a@).len() == a@.len());
        }
        return false;
    }
    let mut i: usize = 0;
    while i < la.len()
        invariant
            la@ == crate::profile::search::lower_seq(a@),
            lb@ == crate::profile::search::lower_seq(b@),
            la@.len() == lb@.len(),
            i <= la@.len(),
            forall|k: int| 0 <= k < i ==> la@[k] == lb@[k],
        decreases la@.len() - i,
    {
        if la[i] != lb[i] {
            return false;
        }
        i = i + 1;
    }
    proof {
        assert(la@ =~= lb@);
    }
    true
}

/// Writes an archive into memory: the `keys`, `charsets` and icon sections
/// in that order, each both stored and folded into the running keyed
/// digest, then a manifest naming them all with the digest as lowercase
/// hex.  The sign key is supplied by the caller and never stored in the
/// archive.
pub struct FileBackupWriter {
    zip: ZipWriterHandle,
    sign_key: Vec<u8>,
    signed: Vec<u8>,
    files: Vec<String>,
    sections: Ghost<Seq<(Seq<char>, Seq<u8>)>>,
}

impl FileBackupWriter {
    /// The sections written so far: names and bytes, in write order.
    pub closed spec fn spec_sections(&self) -> Seq<(Seq<char>, Seq<u8>)> {
        self.sections@
    }

    /// The digest key this writer signs with.
    pub closed spec fn spec_key(&self) -> Seq<u8> {
        self.sign_key@
    }

    /// The signed byte stream equals the written sections' bytes in order,
    /// and the recorded file names are the section names in order.
    pub closed spec fn wf(&self) -> bool {
        &&& self.signed@ == concat_section_data(self.sections@)
        &&& views_of(self.files@) == section_names(self.sections@)
    }

    /// Opens a fresh in-memory archive signed with the given key.
    pub fn new(key: &[u8]) -> (r: FileBackupWriter)
        ensures
            r.wf(),
            r.spec_sections().len() == 0,
            r.spec_key() == key@,
    {
        let mut key_copy: Vec<u8> = Vec::new();
        crate::hash::push_bytes(&mut key_copy, key);
        proof {
            assert(key_copy@ =~= key@);
        }
        let w = FileBackupWriter {
            zip: zip_writer_new(),
            sign_key: key_copy,
            signed: Vec::new(),
            files: Vec::new(),
            sections: Ghost(Seq::empty()),
        };
        proof {
            assert(w.signed@ =~= concat_section_data(w.sections@));
            assert(views_of(w.files@) =~= section_names(w.sections@));
        }
        w
    }

    /// Writes one section: stores it in the archive, folds its bytes into
    /// the digest stream, and records its name.
    fn write_section(&mut self, name: &str, data: &[u8]) -> (r: Result<(), Error>)
        requires
            old(self).wf(),
        ensures
            final(self).wf(),
            final(self).spec_key() == old(self).spec_key(),
            r matches Ok(()) ==> final(self).spec_sections() == old(self).spec_sections().push(
                (name@, data@),
            ),
            r matches Err(e) ==> final(self).spec_sections() == old(self).spec_sections(),
    {
        match zip_start_file(&mut self.zip, name) {
            Ok(()) => (),
            Err(e) => {
                return Err(e);
            },
        }
        match zip_write_all(&mut self.zip, data) {
            Ok(()) => (),
            Err(e) => {
                return Err(e);
            },
        }
        let ghost files_old = self.files@;
        let ghost sections_old = self.sections@;
        crate::hash::push_bytes(&mut self.signed, data);
        let entry = String::from_str(name);
        self.files.push(entry);
        proof {
            self.sections@ = sections_old.push((name@, data@));
        }
        proof {
            lemma_concat_section_snoc(sections_old, (name@, data@));
            lemma_views_of_push(files_old, entry);
            assert forall|k: int|
                0 <= k < self.sections@.len() implies #[trigger] views_of(self.files@)[k]
                == section_names(self.sections@)[k] by {
                if k < sections_old.len() {
                    assert(views_of(files_old)[k] == section_names(sections_old)[k]);
                }
            }
            assert(views_of(self.files@) =~= section_names(self.sections@));
        }
        Ok(())
    }

    /// Writes the `keys` section: the keys as a JSON array.
    pub fn write_keys(&mut self, keys: &Vec<KeyItem>) -> (r: Result<(), Error>)
        requires
            old(self).wf(),
        ensures
            final(self).wf(),
            final(self).spec_key() == old(self).spec_key(),
            r matches Ok(()) ==> final(self).spec_sections() == old(self).spec_sections().push(
                ("keys"@, vstd::utf8::encode_utf8(keys_json_of(keys@))),
            ),
            r matches Err(e) ==> final(self).spec_sections() == old(self).spec_sections(),
    {
        let text = render_keys_section(keys);
        self.write_section("keys", text.as_str().as_bytes())
    }

    /// Writes the `charsets` section: the charset rows as a JSON array.
    pub fn write_charsets(&mut self, charsets: &Vec<CharsetItem>) -> (r: Result<(), Error>)
        requires
            old(self).wf(),
        ensures
            final(self).wf(),
            final(self).spec_key() == old(self).spec_key(),
            r matches Ok(()) ==> final(self).spec_sections() == old(self).spec_sections().push(
                ("charsets"@, vstd::utf8::encode_utf8(charsets_json_of(charsets@))),
            ),
            r matches Err(e) ==> final(self).spec_sections() == old(self).spec_sections(),
    {
        let text = render_charsets_section(charsets);
        self.write_section("charsets", text.as_str().as_bytes())
    }

    /// Writes one icon section under `contents/<name>`.
    pub fn write_icon(&mut self, name: &str, data: &[u8]) -> (r: Result<(), Error>)
        requires
            old(self).wf(),
        ensures
            final(self).wf(),
            final(self).spec_key() == old(self).spec_key(),
            r matches Ok(()) ==> final(self).spec_sections() == old(self).spec_sections().push(
                (contents_prefix() + name@, data@),
            ),
            r matches Err(e) ==> final(self).spec_sections() == old(self).spec_sections(),
    {
        let mut full = String::from_str("contents/");
        full.append(name);
        self.write_section(full.as_str(), data)
    }

    /// Finishes the archive: computes the keyed digest over every signed
    /// byte in write order, embeds it as lowercase hex in the manifest —
    /// which names exactly the written sections and is itself excluded from
    /// the digest — and returns the archive bytes with the manifest values.
    pub fn finish(self) -> (r: Result<(Vec<u8>, BackupManifest), Error>)
        requires
            self.wf(),
        ensures
            r matches Ok(p) ==> {
                &&& p.1.version == 1
                &&& views_of(p.1.files@) == section_names(self.spec_sections())
                &&& opt_view(p.1.digest) == Some(
                    crate::text::hex_of(
                        hmac_sha256_of(
                            self.spec_key(),
                            concat_section_data(self.spec_sections()),
                        ),
                    ),
                )
            },
    {
        let FileBackupWriter { mut zip, sign_key, signed, files, sections } = self;
        let digest = hmac_sha256(sign_key.as_slice(), signed.as_slice());
        let hex = crate::text::to_hex(&digest);
        let manifest = BackupManifest { version: 1, files, digest: Some(hex) };
        let mut text = String::new();
        write_manifest(&mut text, &manifest);
        match zip_start_file(&mut zip, "manifest") {
            Ok(()) => (),
            Err(e) => {
                return Err(e);
            },
        }
        match zip_write_all(&mut zip, text.as_str().as_bytes()) {
            Ok(()) => (),
            Err(e) => {
                return Err(e);
            },
        }
        match zip_finish(zip) {
            Ok(bytes) => Ok((bytes, manifest)),
            Err(e) => Err(e),
        }
    }
}

/// One icon recorded in an archive: its bare id and its full section name.
pub struct IconDetails {
    pub name: String,
    pub full_name: String,
}

/// Reads an archive from memory.  Construction parses the manifest first:
/// an archive without one is unusable.  Missing `keys` or `charsets`
/// sections are empty lists, never errors; a missing section during digest
/// verification is a hard failure.
pub struct FileBackupReader {
    zip: ZipArchiveHandle,
    manifest: BackupManifest,
}

impl FileBackupReader {
    /// The sections of the opened archive.
    pub closed spec fn spec_entries(&self) -> Map<Seq<char>, Seq<u8>> {
        zip_entries(&self.zip)
    }

    /// The parsed manifest's section names.
    pub closed spec fn spec_files(&self) -> Seq<Seq<char>> {
        views_of(self.manifest.files@)
    }

    /// The parsed manifest's digest.
    pub closed spec fn spec_digest(&self) -> Option<Seq<char>> {
        opt_view(self.manifest.digest)
    }

    /// The parsed manifest's format version.
    pub closed spec fn spec_version(&self) -> u8 {
        self.manifest.version
    }

    /// Opens an archive and parses its manifest; an archive without a
    /// manifest section, or with one that is not canonical manifest JSON,
    /// is rejected.
    pub fn new(archive: Vec<u8>) -> (r: Result<FileBackupReader, Error>)
        ensures
            r matches Ok(reader) ==> {
                &&& reader.spec_entries().contains_key("manifest"@)
                &&& vstd::utf8::encode_utf8(
                    manifest_json_of(
                        reader.spec_version(),
                        reader.spec_files(),
                        reader.spec_digest(),
                    ),
                ) == reader.spec_entries().index("manifest"@)
            },
    {
        let mut zip = match zip_open(archive) {
            Ok(a) => a,
            Err(e) => {
                return Err(e);
            },
        };
        let bytes = match zip_read_section(&mut zip, "manifest") {
            Ok(Some(b)) => b,
            Ok(None) => {
                return Err(Error::BackupError(String::from_str("archive has no manifest")));
            },
            Err(e) => {
                return Err(e);
            },
        };
        let text = match string_from_utf8(bytes) {
            Ok(t) => t,
            Err(e) => {
                return Err(e);
            },
        };
        let cs = str_chars(text.as_str());
        let manifest = match parse_manifest(&cs) {
            Ok(m) => m,
            Err(e) => {
                return Err(e);
            },
        };
        Ok(FileBackupReader { zip, manifest })
    }

    /// A copy of the parsed manifest.
    pub fn manifest(&self) -> (r: BackupManifest)
        ensures
            r.version == self.spec_version(),
            views_of(r.files@) == self.spec_files(),
            opt_view(r.digest) == self.spec_digest(),
    {
        let mut files: Vec<String> = Vec::new();
        let mut i: usize = 0;
        while i < self.manifest.files.len()
            invariant
                i <= self.manifest.files@.len(),
                views_of(files@) == views_of(self.manifest.files@).take(i as int),
            decreases self.manifest.files@.len() - i,
        {
            let ghost fv = files@;
            let item = self.manifest.files[i].clone();
            files.push(item);
            proof {
                lemma_views_of_push(fv, item);
                assert(views_of(self.manifest.files@)[i as int]
                    == self.manifest.files@[i as int]@);
                assert(views_of(files@) =~= views_of(self.manifest.files@).take(i + 1 as int));
            }
            i = i + 1;
        }
        proof {
            let all = views_of(self.manifest.files@);
            assert(all.take(all.len() as int) =~= all);
        }
        let digest: Option<String> = match &self.manifest.digest {
            Some(d) => Some(d.clone()),
            None => None,
        };
        BackupManifest { version: self.manifest.version, files, digest }
    }

    /// The keys section parsed back, or an empty list when the archive has
    /// no such section.
    pub fn keys(&mut self) -> (r: Result<Vec<KeyItem>, Error>)
        ensures
            final(self).spec_entries() == old(self).spec_entries(),
            final(self).spec_files() == old(self).spec_files(),
            final(self).spec_digest() == old(self).spec_digest(),
            r matches Ok(v) ==> (forall|i: int|
                0 <= i < v@.len() ==> (#[trigger] v@[i]).tags.wf()) && {
                ||| (final(self).spec_entries().contains_key("keys"@) && vstd::utf8::encode_utf8(
                    keys_json_of(v@),
                ) == final(self).spec_entries().index("keys"@))
                ||| (!final(self).spec_entries().contains_key("keys"@) && v@.len() == 0)
            },
    {
        let bytes = match zip_read_section(&mut self.zip, "keys") {
            Ok(Some(b)) => b,
            Ok(None) => {
                return Ok(Vec::new());
            },
            Err(e) => {
                return Err(e);
            },
        };
        let text = match string_from_utf8(bytes) {
            Ok(t) => t,
            Err(e) => {
                return Err(e);
            },
        };
        let cs = str_chars(text.as_str());
        parse_keys_section(&cs)
    }

    /// The charsets section parsed back, or an empty list when the archive
    /// has no such section.
    pub fn charsets(&mut self) -> (r: Result<Vec<CharsetItem>, Error>)
        ensures
            final(self).spec_entries() == old(self).spec_entries(),
            final(self).spec_files() == old(self).spec_files(),
            final(self).spec_digest() == old(self).spec_digest(),
            r matches Ok(v) ==> {
                ||| (final(self).spec_entries().contains_key("charsets"@)
                    && vstd::utf8::encode_utf8(charsets_json_of(v@))
                        == final(self).spec_entries().index("charsets"@))
                ||| (!final(self).spec_entries().contains_key("charsets"@) && v@.len() == 0)
            },
    {
        let bytes = match zip_read_section(&mut self.zip, "charsets") {
            Ok(Some(b)) => b,
            Ok(None) => {
                return Ok(Vec::new());
            },
            Err(e) => {
                return Err(e);
            },
        };
        let text = match string_from_utf8(bytes) {
            Ok(t) => t,
            Err(e) => {
                return Err(e);
            },
        };
        let cs = str_chars(text.as_str());
        parse_charsets_section(&cs)
    }

    /// The icons the manifest records: every file under the icon section
    /// prefix, derived purely from the manifest's recorded names.
    pub fn icons(&self) -> (r: Vec<IconDetails>)
        ensures
            ({
                let stripped = crate::profile::search::stripped_tokens(
                    self.spec_files(),
                    contents_prefix(),
                );
                &&& r@.len() == stripped.len()
                &&& forall|i: int|
                    0 <= i < stripped.len() ==> (#[trigger] r@[i]).name@ == stripped[i]
                        && r@[i].full_name@ == contents_prefix() + stripped[i]
            }),
    {
        let ghost files = self.spec_files();
        let mut out: Vec<IconDetails> = Vec::new();
        let mut i: usize = 0;
        while i < self.manifest.files.len()
            invariant
                files == views_of(self.manifest.files@),
                files.len() == self.manifest.files@.len(),
                i <= files.len(),
                ({
                    let stripped = crate::profile::search::stripped_tokens(
                        files.take(i as int),
                        contents_prefix(),
                    );
                    &&& out@.len() == stripped.len()
                    &&& forall|k: int|
                        0 <= k < stripped.len() ==> (#[trigger] out@[k]).name@ == stripped[k]
                            && out@[k].full_name@ == contents_prefix() + stripped[k]
                }),
            decreases files.len() - i,
        {
            let ghost prefix = files.take(i as int);
            let ghost cur = files[i as int];
            proof {
                assert(files[i as int] == self.manifest.files@[i as int]@);
            }
            let full = &self.manifest.files[i];
            match crate::profile::search::strip_prefix_token(full.as_str(), "contents/") {
                Some(rest) => {
                    let full_name = full.clone();
                    proof {
                        assert(contents_prefix().is_prefix_of(cur));
                        assert(contents_prefix() + cur.skip(contents_prefix().len() as int)
                            =~= cur);
                    }
                    out.push(IconDetails { name: rest, full_name });
                },
                None => (),
            }
            proof {
                crate::profile::search::lemma_stripped_snoc(prefix, cur, contents_prefix());
                assert(prefix.push(cur) =~= files.take(i + 1 as int));
            }
            i = i + 1;
        }
        proof {
            assert(files.take(files.len() as int) =~= files);
        }
        out
    }

    /// The whole byte content of one section; a missing section is a hard
    /// failure here, unlike the optional `keys` and `charsets` listings.
    pub fn copy_section(&mut self, name: &str) -> (r: Result<Vec<u8>, Error>)
        ensures
            final(self).spec_entries() == old(self).spec_entries(),
            final(self).spec_files() == old(self).spec_files(),
            final(self).spec_digest() == old(self).spec_digest(),
            r matches Ok(v) ==> final(self).spec_entries().contains_key(name@) && v@
                == final(self).spec_entries().index(name@),
    {
        match zip_read_section(&mut self.zip, name) {
            Ok(Some(b)) => Ok(b),
            Ok(None) => Err(Error::BackupError(String::from_str("section is missing"))),
            Err(e) => Err(e),
        }
    }

    /// Recomputes the keyed digest over exactly the manifest's recorded
    /// sections in recorded order and compares it with the stored digest,
    /// ASCII-case-insensitively.  An archive without a digest never
    /// verifies; a recorded section missing from the archive is a hard
    /// failure, never treated as empty.
    pub fn verify_digest(&mut self, key: &[u8]) -> (r: Result<bool, Error>)
        ensures
            final(self).spec_entries() == old(self).spec_entries(),
            final(self).spec_files() == old(self).spec_files(),
            final(self).spec_digest() == old(self).spec_digest(),
            r matches Ok(b) ==> match old(self).spec_digest() {
                None => b == false,
                Some(d) => (forall|i: int|
                    0 <= i < old(self).spec_files().len() ==> old(self).spec_entries().contains_key(
                        #[trigger] old(self).spec_files()[i],
                    )) && b == hex_ci_eq(
                    d,
                    crate::text::hex_of(
                        hmac_sha256_of(
                            key@,
                            concat_entries(old(self).spec_entries(), old(self).spec_files()),
                        ),
                    ),
                ),
            },
    {
        let stored = match &self.manifest.digest {
            Some(d) => d.clone(),
            None => {
                return Ok(false);
            },
        };
        let ghost files = self.spec_files();
        let ghost entries = self.spec_entries();
        let mut data: Vec<u8> = Vec::new();
        let mut i: usize = 0;
        proof {
            assert(files.skip(0) =~= files);
            assert(data@ + concat_entries(entries, files) =~= concat_entries(entries, files));
        }
        while i < self.manifest.files.len()
            invariant
                files == views_of(self.manifest.files@),
                entries == zip_entries(&self.zip),
                files == old(self).spec_files(),
                entries == old(self).spec_entries(),
                files.len() == self.manifest.files@.len(),
                self.manifest.files@ == old(self).manifest.files@,
                self.manifest.digest == old(self).manifest.digest,
                old(self).spec_digest() matches Some(dd) && dd == stored@,
                i <= files.len(),
                forall|k: int| 0 <= k < i ==> entries.contains_key(#[trigger] files[k]),
                data@ + concat_entries(entries, files.skip(i as int)) == concat_entries(
                    entries,
                    files,
                ),
            decreases files.len() - i,
        {
            proof {
                assert(files[i as int] == self.manifest.files@[i as int]@);
            }
            let name = self.manifest.files[i].clone();
            let section = match zip_read_section(&mut self.zip, name.as_str()) {
                Ok(Some(b)) => b,
                Ok(None) => {
                    return Err(
                        Error::BackupError(String::from_str("a recorded section is missing")),
                    );
                },
                Err(e) => {
                    return Err(e);
                },
            };
            let ghost data_old = data@;
            crate::hash::push_bytes(&mut data, section.as_slice());
            proof {
                assert(files.skip(i as int)[0] == files[i as int]);
                assert(files.skip(i as int).drop_first() =~= files.skip(i + 1 as int));
                assert(concat_entries(entries, files.skip(i as int)) == entries[files[i as int]]
                    + concat_entries(entries, files.skip(i + 1 as int)));
                assert(data@ + concat_entries(entries, files.skip(i + 1 as int)) =~= data_old
                    + concat_entries(entries, files.skip(i as int)));
            }
            i = i + 1;
        }
        proof {
            assert(files.skip(files.len() as int) =~= Seq::<Seq<char>>::empty());
            assert(concat_entries(entries, files.skip(files.len() as int)) == Seq::<u8>::empty());
            assert(data@ =~= concat_entries(entries, files));
        }
        let digest = hmac_sha256(key, data.as_slice());
        let hex = crate::text::to_hex(&digest);
        let same = str_ci_eq(stored.as_str(), hex.as_str());
        Ok(same)
    }
}

/// Backup integrity, fresh-archive half: an archive whose sections reach
/// the reader exactly as the writer stored them always verifies under the
/// writer's own key — the recomputed digest runs over the same bytes in
/// the same order, and the comparison ignores only ASCII case.  (That any
/// single flipped byte makes verification fail is a property of the keyed
/// digest itself and is exercised by tests, not proved.)
pub proof fn lemma_fresh_archive_verifies(
    key: Seq<u8>,
    sections: Seq<(Seq<char>, Seq<u8>)>,
    entries: Map<Seq<char>, Seq<u8>>,
    digest: Seq<char>,
)
    requires
        digest == crate::text::hex_of(hmac_sha256_of(key, concat_section_data(sections))),
        forall|i: int|
            0 <= i < sections.len() ==> entries.contains_key(#[trigger] sections[i].0)
                && entries[sections[i].0] == sections[i].1,
    ensures
        hex_ci_eq(
            digest,
            crate::text::hex_of(hmac_sha256_of(key, concat_entries(entries, section_names(sections)))),
        ),
    decreases sections.len(),
{
    if sections.len() == 0 {
        assert(section_names(sections) =~= Seq::<Seq<char>>::empty());
        assert(concat_entries(entries, section_names(sections)) =~= concat_section_data(sections));
    } else {
        assert forall|names: Seq<Seq<char>>|
            names == section_names(sections) implies concat_entries(entries, names)
            == concat_section_data(sections) by {
            lemma_concat_entries_sections(entries, sections);
        }
    }
}

/// The recorded sections read back from the archive concatenate to the
/// writer's signed stream.
proof fn lemma_concat_entries_sections(
    entries: Map<Seq<char>, Seq<u8>>,
    sections: Seq<(Seq<char>, Seq<u8>)>,
)
    requires
        forall|i: int|
            0 <= i < sections.len() ==> entries.contains_key(#[trigger] sections[i].0)
                && entries[sections[i].0] == sections[i].1,
    ensures
        concat_entries(entries, section_names(sections)) == concat_section_data(sections),
    decreases sections.len(),
{
    let names = section_names(sections);
    if sections.len() == 0 {
        assert(names =~= Seq::<Seq<char>>::empty());
    } else {
        assert(names[0] == sections[0].0);
        assert(names.drop_first() =~= section_names(sections.drop_first()));
        assert forall|i: int|
            0 <= i < sections.drop_first().len() implies entries.contains_key(
            #[trigger] sections.drop_first()[i].0,
        ) && entries[sections.drop_first()[i].0] == sections.drop_first()[i].1 by {
            assert(sections.drop_first()[i] == sections[i + 1]);
        }
        lemma_concat_entries_sections(entries, sections.drop_first());
        assert(concat_entries(entries, names) == entries[sections[0].0] + concat_entries(
            entries,
            names.drop_first(),
        ));
    }
}


/// No two keys carry one id.
pub open spec fn key_ids_unique(keys: Seq<KeyItem>) -> bool {
    forall|i: int, j: int| 0 <= i < j < keys.len() ==> keys[i].id != keys[j].id
}

/// No two charset rows carry one name.
pub open spec fn charset_names_unique(cs: Seq<CharsetItem>) -> bool {
    forall|i: int, j: int| 0 <= i < j < cs.len() ==> cs[i].name@ != cs[j].name@
}

/// Every id leaves room for a fresh id above it.
pub open spec fn key_ids_below_max(keys: Seq<KeyItem>) -> bool {
    forall|i: int| 0 <= i < keys.len() ==> (#[trigger] keys[i]).id < i64::MAX
}

/// Whether an archive's rows can replace a store.
pub open spec fn restorable(keys: Seq<KeyItem>, cs: Seq<CharsetItem>) -> bool {
    &&& key_ids_unique(keys)
    &&& charset_names_unique(cs)
    &&& key_ids_below_max(keys)
}

impl ProfileDB {
    /// Replaces the whole store with an archive's keys and charsets in one
    /// step: every existing key, index row and charset goes away, the
    /// archive's keys come in with search-index rows rebuilt from each
    /// key's own tag list, and the fresh-id counter moves above every
    /// restored id.  Duplicate ids or names are rejected wholesale, leaving
    /// the store untouched.  Writing icon blobs to disk is the caller's
    /// step, after this returns; a crash between the two can leave a key
    /// pointing at a missing icon file.
    pub fn restore(&mut self, keys: Vec<KeyItem>, charsets: Vec<CharsetItem>) -> (r: Result<
        (),
        Error,
    >)
        requires
            old(self).wf(),
            forall|i: int| 0 <= i < keys@.len() ==> (#[trigger] keys@[i]).tags.wf(),
        ensures
            final(self).wf(),
            if restorable(keys@, charsets@) {
                &&& r is Ok
                &&& final(self).spec_keys() == keys@
                &&& final(self).spec_charsets() == charsets@
            } else {
                &&& r matches Err(e) && e is DatabaseError
                &&& final(self).state_eq(old(self))
            },
    {
        let mut i: usize = 0;
        while i < keys.len()
            invariant
                old(self).wf(),
                self.state_eq(old(self)),
                i <= keys@.len(),
                forall|a: int, b: int| 0 <= a < b < i ==> keys@[a].id != keys@[b].id,
                forall|a: int| 0 <= a < i ==> (#[trigger] keys@[a]).id < i64::MAX,
            decreases keys@.len() - i,
        {
            if keys[i].id == i64::MAX {
                proof {
                    assert(!key_ids_below_max(keys@));
                }
                return Err(Error::DatabaseError(String::from_str("a key id is out of range")));
            }
            let mut j: usize = 0;
            while j < i
                invariant
                    old(self).wf(),
                    self.state_eq(old(self)),
                    j <= i < keys@.len(),
                    forall|a: int| 0 <= a < j ==> keys@[a].id != keys@[i as int].id,
                decreases i - j,
            {
                if keys[j].id == keys[i].id {
                    proof {
                        assert(!key_ids_unique(keys@));
                    }
                    return Err(Error::DatabaseError(String::from_str("duplicate key ids")));
                }
                j = j + 1;
            }
            i = i + 1;
        }
        let mut ci: usize = 0;
        while ci < charsets.len()
            invariant
                old(self).wf(),
                self.state_eq(old(self)),
                ci <= charsets@.len(),
                key_ids_unique(keys@),
                key_ids_below_max(keys@),
                forall|a: int, b: int| 0 <= a < b < ci ==> charsets@[a].name@ != charsets@[b].name@,
            decreases charsets@.len() - ci,
        {
            let mut cj: usize = 0;
            while cj < ci
                invariant
                    old(self).wf(),
                    self.state_eq(old(self)),
                    cj <= ci < charsets@.len(),
                    forall|a: int| 0 <= a < cj ==> charsets@[a].name@ != charsets@[ci as int].name@,
                decreases ci - cj,
            {
                if crate::text::str_eq(charsets[cj].name.as_str(), charsets[ci].name.as_str()) {
                    proof {
                        assert(!charset_names_unique(charsets@));
                    }
                    return Err(
                        Error::DatabaseError(String::from_str("duplicate charset names")),
                    );
                }
                cj = cj + 1;
            }
            ci = ci + 1;
        }
        let mut next: i64 = 1;
        let mut k: usize = 0;
        while k < keys.len()
            invariant
                old(self).wf(),
                self.state_eq(old(self)),
                k <= keys@.len(),
                key_ids_unique(keys@),
                key_ids_below_max(keys@),
                charset_names_unique(charsets@),
                next >= 1,
                forall|a: int| 0 <= a < k ==> (#[trigger] keys@[a]).id < next,
            decreases keys@.len() - k,
        {
            if keys[k].id >= next {
                next = keys[k].id + 1;
            }
            k = k + 1;
        }
        let mut rows: Vec<SearchIndexRow> = Vec::new();
        let mut m: usize = 0;
        while m < keys.len()
            invariant
                old(self).wf(),
                self.state_eq(old(self)),
                forall|a: int| 0 <= a < keys@.len() ==> (#[trigger] keys@[a]).tags.wf(),
                m <= keys@.len(),
                key_ids_unique(keys@),
                key_ids_below_max(keys@),
                charset_names_unique(charsets@),
                next >= 1,
                forall|a: int| 0 <= a < keys@.len() ==> (#[trigger] keys@[a]).id < next,
                rows@.len() == m,
                forall|a: int|
                    0 <= a < m ==> row_matches_key(#[trigger] rows@[a], keys@[a]),
            decreases keys@.len() - m,
        {
            let row = index_row_for(&keys[m]);
            rows.push(row);
            m = m + 1;
        }
        self.keys = keys;
        self.index = rows;
        self.charsets = charsets;
        self.next_id = next;
        Ok(())
    }
}


/// The icon ids an archive carries for these keys: the non-empty
/// `custom_icon` of every key that has one, in storage order.
pub open spec fn icon_names_of(keys: Seq<KeyItem>) -> Seq<Seq<char>>
    decreases keys.len(),
{
    if keys.len() == 0 {
        Seq::empty()
    } else {
        let rest = icon_names_of(keys.drop_first());
        match opt_view(keys[0].custom_icon) {
            Some(name) => if name.len() > 0 {
                seq![name] + rest
            } else {
                rest
            },
            None => rest,
        }
    }
}

/// Listing one more key appends its icon id exactly when it has one.
proof fn lemma_icon_names_snoc(keys: Seq<KeyItem>, k: KeyItem)
    ensures
        icon_names_of(keys.push(k)) == match opt_view(k.custom_icon) {
            Some(name) => if name.len() > 0 {
                icon_names_of(keys) + seq![name]
            } else {
                icon_names_of(keys)
            },
            None => icon_names_of(keys),
        },
    decreases keys.len(),
{
    if keys.len() == 0 {
        assert(keys =~= Seq::<KeyItem>::empty());
        assert(keys.push(k)[0] == k);
        assert(keys.push(k).drop_first() =~= keys);
        assert(icon_names_of(keys) == Seq::<Seq<char>>::empty());
        match opt_view(k.custom_icon) {
            Some(name) => {
                if name.len() > 0 {
                    assert(seq![name] + icon_names_of(keys) =~= icon_names_of(keys) + seq![name]);
                }
            },
            None => (),
        }
    } else {
        assert(keys.push(k)[0] == keys[0]);
        assert(keys.push(k).drop_first() =~= keys.drop_first().push(k));
        lemma_icon_names_snoc(keys.drop_first(), k);
        match opt_view(keys[0].custom_icon) {
            Some(head) => {
                if head.len() > 0 {
                    match opt_view(k.custom_icon) {
                        Some(name) => {
                            if name.len() > 0 {
                                assert(seq![head] + (icon_names_of(keys.drop_first()) + seq![
                                    name,
                                ]) =~= (seq![head] + icon_names_of(keys.drop_first())) + seq![
                                    name,
                                ]);
                            }
                        },
                        None => (),
                    }
                }
            },
            None => (),
        }
    }
}

/// Lists the icon ids of the keys that carry one, in storage order — the
/// selection rule a backup uses to decide which icon files to archive.
pub fn icon_names(keys: &Vec<KeyItem>) -> (r: Vec<String>)
    ensures
        views_of(r@) == icon_names_of(keys@),
{
    let mut out: Vec<String> = Vec::new();
    let mut i: usize = 0;
    while i < keys.len()
        invariant
            i <= keys@.len(),
            views_of(out@) == icon_names_of(keys@.take(i as int)),
        decreases keys@.len() - i,
    {
        let ghost prefix = keys@.take(i as int);
        let ghost out_old = out@;
        match &keys[i].custom_icon {
            Some(name) => {
                if !name.as_str().is_empty() {
                    let item = name.clone();
                    out.push(item);
                    proof {
                        lemma_views_of_push(out_old, item);
                    }
                }
            },
            None => (),
        }
        proof {
            lemma_icon_names_snoc(prefix, keys@[i as int]);
            assert(prefix.push(keys@[i as int]) =~= keys@.take(i + 1 as int));
            assert(views_of(out@) =~= icon_names_of(keys@.take(i + 1 as int)));
        }
        i = i + 1;
    }
    proof {
        assert(keys@.take(keys@.len() as int) =~= keys@);
    }
    out
}

/// The sections a whole-store backup writes, in order: the keys, the
/// charsets, then one `contents/<id>` section per supplied icon.
pub open spec fn backup_sections(
    keys: Seq<KeyItem>,
    charsets: Seq<CharsetItem>,
    icons: Seq<(Seq<char>, Seq<u8>)>,
) -> Seq<(Seq<char>, Seq<u8>)> {
    seq![
        ("keys"@, vstd::utf8::encode_utf8(keys_json_of(keys))),
        ("charsets"@, vstd::utf8::encode_utf8(charsets_json_of(charsets))),
    ] + icons.map_values(|icon: (Seq<char>, Seq<u8>)| (contents_prefix() + icon.0, icon.1))
}

/// The views of a list of named icon blobs.
pub open spec fn icon_views(icons: Seq<(String, Vec<u8>)>) -> Seq<(Seq<char>, Seq<u8>)> {
    Seq::new(icons.len(), |i: int| (icons[i].0@, icons[i].1@))
}

/// Writes a whole backup in one step: the keys and charsets sections, one
/// icon section per supplied blob, and the signed manifest, returning the
/// archive bytes with the manifest values.  What the sections hold and what
/// the digest covers are fixed by [`backup_sections`].
pub fn backup_store(
    keys: &Vec<KeyItem>,
    charsets: &Vec<CharsetItem>,
    icons: &Vec<(String, Vec<u8>)>,
    sign_key: &[u8],
) -> (r: Result<(Vec<u8>, BackupManifest), Error>)
    ensures
        r matches Ok(p) ==> {
            let sections = backup_sections(keys@, charsets@, icon_views(icons@));
            &&& p.1.version == 1
            &&& views_of(p.1.files@) == section_names(sections)
            &&& opt_view(p.1.digest) == Some(
                crate::text::hex_of(hmac_sha256_of(sign_key@, concat_section_data(sections))),
            )
        },
{
    let ghost all_sections = backup_sections(keys@, charsets@, icon_views(icons@));
    let mut writer = FileBackupWriter::new(sign_key);
    match writer.write_keys(keys) {
        Ok(()) => (),
        Err(e) => {
            return Err(e);
        },
    }
    match writer.write_charsets(charsets) {
        Ok(()) => (),
        Err(e) => {
            return Err(e);
        },
    }
    let ghost base = writer.spec_sections();
    let mut i: usize = 0;
    while i < icons.len()
        invariant
            i <= icons@.len(),
            writer.wf(),
            writer.spec_key() == sign_key@,
            base == backup_sections(keys@, charsets@, icon_views(icons@)).take(2),
            writer.spec_sections() == base + icon_views(icons@).take(i as int).map_values(
                |icon: (Seq<char>, Seq<u8>)| (contents_prefix() + icon.0, icon.1),
            ),
        decreases icons@.len() - i,
    {
        let ghost before = writer.spec_sections();
        match writer.write_icon(icons[i].0.as_str(), icons[i].1.as_slice()) {
            Ok(()) => (),
            Err(e) => {
                return Err(e);
            },
        }
        proof {
            let iv = icon_views(icons@);
            assert(iv[i as int] == (icons@[i as int].0@, icons@[i as int].1@));
            assert(writer.spec_sections() =~= base + iv.take(i + 1 as int).map_values(
                |icon: (Seq<char>, Seq<u8>)| (contents_prefix() + icon.0, icon.1),
            ));
        }
        i = i + 1;
    }
    proof {
        let iv = icon_views(icons@);
        assert(iv.take(iv.len() as int) =~= iv);
        assert(writer.spec_sections() =~= backup_sections(keys@, charsets@, iv));
    }
    writer.finish()
}

} // verus!
