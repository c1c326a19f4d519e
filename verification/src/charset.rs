//! The charset expression language and the byte-to-symbol transform.
//!
//! An expression lists the symbols a derived password may use: literal
//! characters, `<char>..<char>` ranges over a single class (`a`..`z`,
//! `A`..`Z` or `0`..`9`, non-decreasing), `\` escaping the next character,
//! and a `.` that is not part of `..` standing for itself.  Parsing yields a
//! deduplicated table ordered by code point, so equal expressions always
//! yield the same table.

use crate::errors::Error;
use crate::text::chars_to_string;
use crate::text::push_char;
use crate::text::str_chars;
use vstd::prelude::*;

verus! {

/// Two characters with one code point are one character.
pub proof fn lemma_char_code_inj(a: char, b: char)
    requires
        a as u32 == b as u32,
    ensures
        a == b,
{
    vstd::utf8::char_u32_cast(a, a as u32);
    vstd::utf8::char_u32_cast(b, b as u32);
}

/// Whether `c` is an ASCII lowercase letter.
pub open spec fn is_lower_char(c: char) -> bool {
    97 <= c as u32 && c as u32 <= 122
}

/// Whether `c` is an ASCII uppercase letter.
pub open spec fn is_upper_char(c: char) -> bool {
    65 <= c as u32 && c as u32 <= 90
}

/// Whether `c` is an ASCII digit.
pub open spec fn is_digit_char(c: char) -> bool {
    48 <= c as u32 && c as u32 <= 57
}

/// A range is valid when both endpoints lie in the same class and do not
/// decrease.
pub open spec fn valid_range(a: char, e: char) -> bool {
    &&& a as u32 <= e as u32
    &&& {
        ||| (is_lower_char(a) && is_lower_char(e))
        ||| (is_upper_char(a) && is_upper_char(e))
        ||| (is_digit_char(a) && is_digit_char(e))
    }
}

/// The characters whose code points lie between the two endpoints.
pub open spec fn range_chars(a: char, e: char) -> Set<char> {
    Set::new(|c: char| a as u32 <= c as u32 && c as u32 <= e as u32)
}

/// The set of characters occurring in a sequence.
pub open spec fn chars_set(s: Seq<char>) -> Set<char> {
    Set::new(|c: char| s.contains(c))
}

/// Strictly increasing by code point: sorted and free of duplicates.
pub open spec fn sorted_unique(s: Seq<char>) -> bool {
    forall|i: int, j: int| 0 <= i < j < s.len() ==> (s[i] as u32) < (s[j] as u32)
}

/// The meaning of a charset expression: the set of symbols it denotes, or
/// `None` when some range in it is malformed.  This is the grammar the
/// executable parser is proved against.
pub open spec fn symbols_of(s: Seq<char>) -> Option<Set<char>>
    decreases s.len(),
{
    if s.len() == 0 {
        Some(Set::empty())
    } else if s[0] == '\\' {
        if s.len() == 1 {
            Some(Set::empty().insert('\\'))
        } else {
            match symbols_of(s.skip(2)) {
                Some(rest) => Some(rest.insert(s[1])),
                None => None,
            }
        }
    } else if s.len() >= 3 && s[1] == '.' && s[2] == '.' {
        if s.len() == 3 {
            None
        } else if valid_range(s[0], s[3]) {
            match symbols_of(s.skip(4)) {
                Some(rest) => Some(rest.union(range_chars(s[0], s[3]))),
                None => None,
            }
        } else {
            None
        }
    } else if s.len() >= 2 && s[1] == '.' {
        match symbols_of(s.skip(2)) {
            Some(rest) => Some(rest.insert(s[0]).insert('.')),
            None => None,
        }
    } else {
        match symbols_of(s.skip(1)) {
            Some(rest) => Some(rest.insert(s[0])),
            None => None,
        }
    }
}

/// Inserts a character into a table kept strictly sorted by code point;
/// inserting a character already present changes nothing.
fn insert_sorted(v: &mut Vec<char>, c: char)
    requires
        sorted_unique(old(v)@),
    ensures
        sorted_unique(final(v)@),
        chars_set(final(v)@) == chars_set(old(v)@).insert(c),
        final(v)@.len() >= 1,
        final(v)@.len() >= old(v)@.len(),
{
    let mut j: usize = 0;
    while j < v.len() && (v[j] as u32) < (c as u32)
        invariant
            j <= v@.len(),
            v@ == old(v)@,
            forall|k: int| 0 <= k < j ==> (v@[k] as u32) < (c as u32),
        decreases v@.len() - j,
    {
        j = j + 1;
    }
    if j < v.len() {
        let existing = v[j];
        if existing == c {
            proof {
                assert(v@.contains(c));
                assert(chars_set(v@) =~= chars_set(v@).insert(c));
            }
            return ;
        }
    }
    let ghost pre = v@;
    proof {
        if j < pre.len() {
            assert((pre[j as int] as u32) >= (c as u32));
            assert(pre[j as int] != c);
            if (pre[j as int] as u32) == (c as u32) {
                lemma_char_code_inj(pre[j as int], c);
                assert(false);
            }
        }
    }
    v.insert(j, c);
    proof {
        pre.insert_ensures(j as int, c);
        assert forall|a: int, b: int| 0 <= a < b < v@.len() implies (v@[a] as u32) < (
        v@[b] as u32) by {
            if b < j {
                assert(v@[a] == pre[a] && v@[b] == pre[b]);
            } else if a < j && b == j {
                assert(v@[a] == pre[a] && v@[b] == c);
            } else if a == j && b > j {
                assert(v@[a] == c && v@[b] == pre[b - 1]);
                assert((pre[j as int] as u32) > (c as u32));
                if b - 1 > j {
                    assert((pre[j as int] as u32) < (pre[b - 1] as u32));
                }
            } else if a < j && b > j {
                assert(v@[a] == pre[a] && v@[b] == pre[b - 1]);
                assert((pre[j as int] as u32) > (c as u32));
                if b - 1 > j {
                    assert((pre[j as int] as u32) < (pre[b - 1] as u32));
                }
            } else {
                assert(v@[a] == pre[a - 1] && v@[b] == pre[b - 1]);
            }
        }
        assert forall|x: char| #[trigger]
        v@.contains(x) implies pre.contains(x) || x == c by {
            let ix = choose|ix: int| 0 <= ix < v@.len() && v@[ix] == x;
            if ix < j {
                assert(pre[ix] == x);
            } else if ix > j {
                assert(pre[ix - 1] == x);
            }
        }
        assert forall|x: char| #[trigger] pre.contains(x) implies v@.contains(x) by {
            let ix = choose|ix: int| 0 <= ix < pre.len() && pre[ix] == x;
            if ix < j {
                assert(v@[ix] == x);
            } else {
                assert(v@[ix + 1] == x);
            }
        }
        assert(v@[j as int] == c);
        assert(v@.contains(c));
        assert(chars_set(v@) =~= chars_set(pre).insert(c));
    }
}

/// Whether both endpoints lie in one class without decreasing.
fn range_ok(a: char, e: char) -> (r: bool)
    ensures
        r == valid_range(a, e),
{
    let ac = a as u32;
    let ec = e as u32;
    ac <= ec && ((97 <= ac && ac <= 122 && 97 <= ec && ec <= 122) || (65 <= ac && ac <= 90 && 65
        <= ec && ec <= 90) || (48 <= ac && ac <= 57 && 48 <= ec && ec <= 57))
}

/// Parses a charset expression into its symbol table: every symbol once, in
/// increasing code-point order.  An empty expression is rejected, so every
/// table built here is non-empty and byte-to-symbol lookups can never go out
/// of bounds.
pub fn parse_table(expr: &str) -> (r: Result<Vec<char>, Error>)
    ensures
        match r {
            Ok(v) => {
                &&& symbols_of(expr@) == Some(chars_set(v@))
                &&& sorted_unique(v@)
                &&& v@.len() > 0
                &&& expr@.len() > 0
            },
            Err(e) => {
                ||| (expr@.len() == 0 && e is InvalidInput)
                ||| (symbols_of(expr@) is None && e is ParserInvalidRange)
            },
        },
{
    let cs = str_chars(expr);
    if cs.len() == 0 {
        return Err(Error::InvalidInput);
    }
    let mut out: Vec<char> = Vec::new();
    let mut i: usize = 0;
    proof {
        assert(expr@.skip(0) =~= expr@);
        if symbols_of(expr@) is Some {
            assert(symbols_of(expr@)->Some_0 =~= symbols_of(expr@.skip(0))->Some_0.union(
                chars_set(out@),
            ));
        }
    }
    while i < cs.len()
        invariant
            cs@ == expr@,
            i <= cs@.len(),
            sorted_unique(out@),
            i > 0 ==> out@.len() > 0,
            (symbols_of(expr@) is Some) <==> (symbols_of(expr@.skip(i as int)) is Some),
            symbols_of(expr@) is Some ==> symbols_of(expr@)->Some_0 =~= symbols_of(
                expr@.skip(i as int),
            )->Some_0.union(chars_set(out@)),
        decreases cs@.len() - i,
    {
        let ghost s = expr@.skip(i as int);
        let ghost out_old = out@;
        proof {
            assert(s.len() == cs@.len() - i);
            assert(s[0] == cs@[i as int]);
        }
        let c = cs[i];
        if c == '\\' {
            if cs.len() - i > 1 {
                let esc = cs[i + 1];
                proof {
                    assert(s[1] == cs@[i + 1]);
                    assert(s.skip(2) =~= expr@.skip(i + 2));
                }
                insert_sorted(&mut out, esc);
                proof {
                    if symbols_of(expr@.skip(i + 2)) is Some {
                        let rest = symbols_of(expr@.skip(i + 2))->Some_0;
                        assert(symbols_of(s) == Some(rest.insert(esc)));
                        assert(symbols_of(expr@)->Some_0 =~= rest.union(chars_set(out@)));
                    } else {
                        assert(symbols_of(s) is None);
                    }
                }
                i = i + 2;
            } else {
                proof {
                    assert(s.len() == 1);
                    assert(symbols_of(s) == Some(Set::empty().insert('\\')));
                    assert(expr@.skip(i + 1) =~= Seq::<char>::empty());
                }
                insert_sorted(&mut out, '\\');
                proof {
                    let rest = symbols_of(expr@.skip(i + 1))->Some_0;
                    assert(symbols_of(expr@)->Some_0 =~= rest.union(chars_set(out@)));
                }
                i = i + 1;
            }
        } else if cs.len() - i > 2 && cs[i + 1] == '.' && cs[i + 2] == '.' {
            proof {
                assert(s[1] == cs@[i + 1] && s[2] == cs@[i + 2]);
                assert(s.len() >= 3 && s[1] == '.' && s[2] == '.');
            }
            if cs.len() - i == 3 {
                proof {
                    assert(s.len() == 3);
                    assert(symbols_of(s) is None);
                }
                return Err(Error::ParserInvalidRange);
            }
            let e = cs[i + 3];
            proof {
                assert(s[3] == cs@[i + 3]);
                assert(s.len() >= 4);
            }
            if !range_ok(c, e) {
                proof {
                    assert(symbols_of(s) is None);
                }
                return Err(Error::ParserInvalidRange);
            }
            proof {
                assert(s.skip(4) =~= expr@.skip(i + 4));
            }
            let lo: u32 = c as u32;
            let hi: u32 = e as u32;
            let mut x: u32 = lo;
            while x <= hi
                invariant
                    lo <= x <= hi + 1,
                    hi <= 122,
                    sorted_unique(out@),
                    out@.len() >= out_old.len(),
                    x > lo ==> out@.len() > 0,
                    chars_set(out@) =~= chars_set(out_old).union(
                        Set::new(|cc: char| lo <= cc as u32 && (cc as u32) < x),
                    ),
                decreases hi + 1 - x,
            {
                let ch: char = (x as u8) as char;
                let ghost out_prev = out@;
                proof {
                    assert(ch as u32 == x);
                }
                insert_sorted(&mut out, ch);
                proof {
                    assert forall|cc: char|
                        chars_set(out@).contains(cc) <==> chars_set(out_old).union(
                            Set::new(|c2: char| lo <= c2 as u32 && (c2 as u32) < x + 1),
                        ).contains(cc) by {
                        if cc as u32 == x {
                            lemma_char_code_inj(cc, ch);
                            assert(chars_set(out@).contains(cc));
                        }
                    }
                    assert(chars_set(out@) =~= chars_set(out_old).union(
                        Set::new(|c2: char| lo <= c2 as u32 && (c2 as u32) < x + 1),
                    ));
                }
                x = x + 1;
            }
            proof {
                assert(Set::new(|cc: char| lo <= cc as u32 && (cc as u32) < x) =~= range_chars(
                    c,
                    e,
                ));
                assert(out@.len() > 0);
                if symbols_of(expr@.skip(i + 4)) is Some {
                    let rest = symbols_of(expr@.skip(i + 4))->Some_0;
                    assert(symbols_of(s) == Some(rest.union(range_chars(c, e))));
                    assert(symbols_of(expr@)->Some_0 =~= rest.union(chars_set(out@)));
                } else {
                    assert(symbols_of(s) is None);
                }
            }
            i = i + 4;
        } else if cs.len() - i > 1 && cs[i + 1] == '.' {
            proof {
                assert(s[1] == cs@[i + 1]);
                assert(s.len() >= 2 && s[1] == '.');
                assert(!(s.len() >= 3 && s[1] == '.' && s[2] == '.'));
                assert(s.skip(2) =~= expr@.skip(i + 2));
            }
            insert_sorted(&mut out, c);
            insert_sorted(&mut out, '.');
            proof {
                if symbols_of(expr@.skip(i + 2)) is Some {
                    let rest = symbols_of(expr@.skip(i + 2))->Some_0;
                    assert(symbols_of(s) == Some(rest.insert(s[0]).insert('.')));
                    assert(symbols_of(expr@)->Some_0 =~= rest.union(chars_set(out@)));
                } else {
                    assert(symbols_of(s) is None);
                }
            }
            i = i + 2;
        } else {
            proof {
                if s.len() >= 2 {
                    assert(s[1] == cs@[i + 1]);
                }
                assert(!(s.len() >= 2 && s[1] == '.'));
                assert(s.skip(1) =~= expr@.skip(i + 1));
            }
            insert_sorted(&mut out, c);
            proof {
                if symbols_of(expr@.skip(i + 1)) is Some {
                    let rest = symbols_of(expr@.skip(i + 1))->Some_0;
                    assert(symbols_of(s) == Some(rest.insert(s[0])));
                    assert(symbols_of(expr@)->Some_0 =~= rest.union(chars_set(out@)));
                } else {
                    assert(symbols_of(s) is None);
                }
            }
            i = i + 1;
        }
    }
    proof {
        assert(expr@.skip(expr@.len() as int) =~= Seq::<char>::empty());
        assert(symbols_of(Seq::<char>::empty()) == Some(Set::<char>::empty()));
        assert(symbols_of(expr@) is Some);
        assert(symbols_of(expr@)->Some_0 =~= chars_set(out@));
    }
    Ok(out)
}

/// Parses a charset expression and renders the symbol table as text, every
/// symbol once in increasing code-point order.
pub fn parse(expr: &str) -> (r: Result<String, Error>)
    ensures
        match r {
            Ok(t) => {
                &&& symbols_of(expr@) == Some(chars_set(t@))
                &&& sorted_unique(t@)
                &&& t@.len() > 0
            },
            Err(e) => {
                ||| (expr@.len() == 0 && e is InvalidInput)
                ||| (symbols_of(expr@) is None && e is ParserInvalidRange)
            },
        },
{
    match parse_table(expr) {
        Ok(v) => Ok(chars_to_string(&v)),
        Err(e) => Err(e),
    }
}

/// The characters of a non-empty sequence are its head plus its tail's.
proof fn lemma_cons_set(t: Seq<char>)
    requires
        t.len() > 0,
    ensures
        chars_set(t) =~= chars_set(t.drop_first()).insert(t[0]),
{
    assert forall|x: char| #[trigger]
    chars_set(t).contains(x) implies chars_set(t.drop_first()).insert(t[0]).contains(x) by {
        let k = choose|k: int| 0 <= k < t.len() && t[k] == x;
        if k > 0 {
            assert(t.drop_first()[k - 1] == x);
            assert(t.drop_first().contains(x));
        }
    }
    assert forall|x: char|
        chars_set(t.drop_first()).insert(t[0]).contains(x) implies #[trigger] chars_set(
        t,
    ).contains(x) by {
        if x == t[0] {
            assert(t.contains(x));
        } else {
            let k = choose|k: int| 0 <= k < t.drop_first().len() && t.drop_first()[k] == x;
            assert(t[k + 1] == x);
            assert(t.contains(x));
        }
    }
}

/// The tail of a strictly sorted sequence is strictly sorted.
proof fn lemma_tail_sorted(t: Seq<char>)
    requires
        sorted_unique(t),
        t.len() > 0,
    ensures
        sorted_unique(t.drop_first()),
{
    assert forall|i: int, j: int|
        0 <= i < j < t.drop_first().len() implies (t.drop_first()[i] as u32) < (
    t.drop_first()[j] as u32) by {
        assert(t.drop_first()[i] == t[i + 1] && t.drop_first()[j] == t[j + 1]);
    }
}

/// Two strictly sorted tables with the same symbol set are one table.
pub proof fn lemma_sorted_unique_set_equal(a: Seq<char>, b: Seq<char>)
    requires
        sorted_unique(a),
        sorted_unique(b),
        chars_set(a) == chars_set(b),
    ensures
        a == b,
    decreases a.len(),
{
    if a.len() == 0 {
        if b.len() > 0 {
            assert(chars_set(b).contains(b[0]));
            assert(chars_set(a).contains(b[0]));
            assert(false);
        }
        assert(a =~= b);
    } else if b.len() == 0 {
        assert(chars_set(a).contains(a[0]));
        assert(chars_set(b).contains(a[0]));
        assert(false);
    } else {
        assert(chars_set(a).contains(a[0]));
        assert(chars_set(b).contains(b[0]));
        let j = choose|j: int| 0 <= j < b.len() && b[j] == a[0];
        let i = choose|i: int| 0 <= i < a.len() && a[i] == b[0];
        if j > 0 {
            assert((b[0] as u32) < (a[0] as u32));
            if i == 0 {
                assert(false);
            } else {
                assert((a[0] as u32) < (a[i] as u32));
                assert(false);
            }
        }
        assert(a[0] == b[0]);
        lemma_cons_set(a);
        lemma_cons_set(b);
        lemma_tail_sorted(a);
        lemma_tail_sorted(b);
        assert forall|x: char| #[trigger]
        chars_set(a.drop_first()).contains(x) implies chars_set(b.drop_first()).contains(x) by {
            let k = choose|k: int| 0 <= k < a.drop_first().len() && a.drop_first()[k] == x;
            assert(a[k + 1] == x);
            assert((a[0] as u32) < (x as u32));
            assert(chars_set(b).contains(x));
            let m = choose|m: int| 0 <= m < b.len() && b[m] == x;
            if m == 0 {
                assert(false);
            }
            assert(b.drop_first()[m - 1] == x);
        }
        assert forall|x: char| #[trigger]
        chars_set(b.drop_first()).contains(x) implies chars_set(a.drop_first()).contains(x) by {
            let k = choose|k: int| 0 <= k < b.drop_first().len() && b.drop_first()[k] == x;
            assert(b[k + 1] == x);
            assert((b[0] as u32) < (x as u32));
            assert(chars_set(a).contains(x));
            let m = choose|m: int| 0 <= m < a.len() && a[m] == x;
            if m == 0 {
                assert(false);
            }
            assert(a.drop_first()[m - 1] == x);
        }
        assert(chars_set(a.drop_first()) =~= chars_set(b.drop_first()));
        lemma_sorted_unique_set_equal(a.drop_first(), b.drop_first());
        assert(a.len() == b.len());
        assert forall|i: int| 0 <= i < a.len() implies a[i] == b[i] by {
            if i > 0 {
                assert(a.drop_first()[i - 1] == a[i]);
                assert(b.drop_first()[i - 1] == b[i]);
            }
        }
        assert(a =~= b);
    }
}

/// How one symbol is rendered in an expression: a backslash is escaped by
/// doubling, every other symbol stands for itself.
pub open spec fn escape_unit(c: char) -> Seq<char> {
    if c == '\\' {
        seq!['\\', '\\']
    } else {
        seq![c]
    }
}

/// The canonical expression text of a symbol table: the symbols in order,
/// each rendered by [`escape_unit`].
pub open spec fn expr_of(table: Seq<char>) -> Seq<char>
    decreases table.len(),
{
    if table.len() == 0 {
        Seq::empty()
    } else {
        escape_unit(table[0]) + expr_of(table.drop_first())
    }
}

/// Appending one symbol appends its rendering.
proof fn lemma_expr_of_snoc(t: Seq<char>, c: char)
    ensures
        expr_of(t.push(c)) == expr_of(t) + escape_unit(c),
    decreases t.len(),
{
    if t.len() == 0 {
        assert(t.push(c)[0] == c);
        assert(t.push(c).drop_first() =~= Seq::<char>::empty());
        assert(expr_of(t.push(c)) == escape_unit(c) + expr_of(Seq::<char>::empty()));
        assert(expr_of(t.push(c)) =~= expr_of(t) + escape_unit(c));
    } else {
        assert(t.push(c)[0] == t[0]);
        assert(t.push(c).drop_first() =~= t.drop_first().push(c));
        lemma_expr_of_snoc(t.drop_first(), c);
        assert(expr_of(t.push(c)) == escape_unit(t[0]) + expr_of(t.drop_first().push(c)));
        assert(expr_of(t) == escape_unit(t[0]) + expr_of(t.drop_first()));
        assert(expr_of(t.push(c)) =~= expr_of(t) + escape_unit(c));
    }
}

/// Parsing the canonical expression of a strictly sorted, non-empty table
/// recovers exactly the table's symbol set.
pub proof fn lemma_expr_round_trip(table: Seq<char>)
    requires
        sorted_unique(table),
        table.len() > 0,
    ensures
        symbols_of(expr_of(table)) == Some(chars_set(table)),
    decreases table.len(),
{
    let h = table[0];
    let rest = table.drop_first();
    let e = expr_of(table);
    lemma_cons_set(table);
    lemma_tail_sorted(table);
    assert(e == escape_unit(h) + expr_of(rest));
    if rest.len() == 0 {
        assert(expr_of(rest) =~= Seq::<char>::empty());
        if h == '\\' {
            assert(e =~= seq!['\\', '\\']);
            assert(e.len() == 2 && e[0] == '\\' && e[1] == '\\');
            assert(e.skip(2) =~= Seq::<char>::empty());
            assert(symbols_of(Seq::<char>::empty()) == Some(Set::<char>::empty()));
            assert(symbols_of(e) == Some(Set::empty().insert('\\')));
            assert(Set::empty().insert('\\') =~= chars_set(table));
        } else {
            assert(e =~= seq![h]);
            assert(e.len() == 1 && e[0] == h);
            assert(e.skip(1) =~= Seq::<char>::empty());
            assert(symbols_of(Seq::<char>::empty()) == Some(Set::<char>::empty()));
            assert(symbols_of(e) == Some(Set::empty().insert(h)));
            assert(Set::empty().insert(h) =~= chars_set(table));
        }
    } else {
        lemma_expr_round_trip(rest);
        let er = expr_of(rest);
        assert(er.len() > 0);
        assert(er[0] == escape_unit(rest[0])[0]);
        if h == '\\' {
            assert(e =~= seq!['\\', '\\'] + er);
            assert(e[0] == '\\' && e.len() >= 3);
            assert(e.skip(2) =~= er);
            assert(e[1] == '\\');
            assert(symbols_of(e) == Some(chars_set(rest).insert('\\')));
            assert(chars_set(rest).insert('\\') =~= chars_set(table));
        } else if rest[0] != '.' {
            assert(e =~= seq![h] + er);
            assert(e[0] == h);
            assert(e[1] == er[0]);
            assert(er[0] == rest[0] || er[0] == '\\');
            assert(e[1] != '.');
            assert(e.skip(1) =~= er);
            assert(symbols_of(e) == Some(chars_set(rest).insert(h)));
            assert(chars_set(rest).insert(h) =~= chars_set(table));
        } else {
            // the next symbol is the dot itself
            assert(er[0] == '.');
            assert(escape_unit(rest[0]) =~= seq!['.']);
            let rest2 = rest.drop_first();
            lemma_cons_set(rest);
            lemma_tail_sorted(rest);
            assert(e =~= seq![h] + er);
            assert(e[0] == h && e[1] == '.');
            assert(h != '\\');
            if rest2.len() == 0 {
                assert(er == escape_unit('.') + expr_of(rest2));
                assert(expr_of(rest2) =~= Seq::<char>::empty());
                assert(er =~= seq!['.']);
                assert(e.len() == 2);
                assert(e.skip(2) =~= Seq::<char>::empty());
                assert(symbols_of(Seq::<char>::empty()) == Some(Set::<char>::empty()));
                assert(symbols_of(e) == Some(
                    Set::<char>::empty().insert(h).insert('.'),
                ));
                assert(Set::<char>::empty().insert(h).insert('.') =~= chars_set(table));
            } else {
                let er2 = expr_of(rest2);
                lemma_expr_round_trip(rest2);
                assert(er =~= seq!['.'] + er2);
                assert(er2.len() > 0);
                assert(er2[0] == escape_unit(rest2[0])[0]);
                assert(er2[0] == rest2[0] || er2[0] == '\\');
                assert(('.' as u32) < (rest2[0] as u32));
                assert(e.len() >= 3);
                assert((seq!['.'] + er2)[1] == er2[0]);
                assert(er[1] == er2[0]);
                assert((seq![h] + er)[2] == er[1]);
                assert(e[2] == er[1]);
                assert(e[2] != '.');
                assert(e.skip(2) =~= er2);
                assert(symbols_of(e) == Some(chars_set(rest2).insert(h).insert('.')));
                assert(chars_set(rest2).insert(h).insert('.') =~= chars_set(table));
            }
        }
    }
}

/// Charset idempotence: rendering a parsed table and parsing the rendering
/// again denotes the same symbol set, and only one strictly sorted table has
/// that set — so a parse, render, parse round trip returns the first parse's
/// table unchanged.
pub proof fn lemma_charset_round_trip(expr: Seq<char>, table: Seq<char>)
    requires
        symbols_of(expr) == Some(chars_set(table)),
        sorted_unique(table),
        table.len() > 0,
    ensures
        symbols_of(expr_of(table)) == Some(chars_set(table)),
        forall|t2: Seq<char>|
            sorted_unique(t2) && chars_set(t2) == chars_set(table) ==> t2 == table,
{
    lemma_expr_round_trip(table);
    assert forall|t2: Seq<char>|
        sorted_unique(t2) && chars_set(t2) == chars_set(table) implies t2 == table by {
        lemma_sorted_unique_set_equal(t2, table);
    }
}

/// A parsed symbol table: non-empty, strictly sorted by code point, free of
/// duplicates.  Its view is the table as a character sequence.
pub struct Charset {
    symbols: Vec<char>,
}

impl View for Charset {
    type V = Seq<char>;

    closed spec fn view(&self) -> Seq<char> {
        self.symbols@
    }
}

/// The transform: each byte selects the symbol at `byte mod table length`.
pub open spec fn transform_spec(table: Seq<char>, bytes: Seq<u8>) -> Seq<char>
    recommends
        table.len() > 0,
{
    Seq::new(bytes.len(), |i: int| table[bytes[i] as int % table.len() as int])
}

impl Charset {
    /// Non-empty and strictly sorted: lookups by `byte mod length` are
    /// always in bounds.
    pub open spec fn wf(&self) -> bool {
        &&& sorted_unique(self@)
        &&& self@.len() > 0
    }

    /// Parses an expression into a charset.
    pub fn new(dictionary_text: &str) -> (r: Result<Charset, Error>)
        ensures
            match r {
                Ok(cs) => {
                    &&& cs.wf()
                    &&& symbols_of(dictionary_text@) == Some(chars_set(cs@))
                },
                Err(e) => {
                    ||| (dictionary_text@.len() == 0 && e is InvalidInput)
                    ||| (symbols_of(dictionary_text@) is None && e is ParserInvalidRange)
                },
            },
    {
        match parse_table(dictionary_text) {
            Ok(v) => Ok(Charset { symbols: v }),
            Err(e) => Err(e),
        }
    }

    /// Maps every byte to a symbol of the table by modulo-indexed lookup.
    pub fn transform_bytes(&self, content: &[u8]) -> (r: String)
        requires
            self.wf(),
        ensures
            r@ == transform_spec(self@, content@),
    {
        let modulus = self.symbols.len();
        let mut out = String::new();
        let mut i: usize = 0;
        while i < content.len()
            invariant
                self.wf(),
                modulus == self@.len(),
                i <= content@.len(),
                out@ == transform_spec(self@, content@.take(i as int)),
            decreases content@.len() - i,
        {
            let b = content[i];
            let idx = (b as usize) % modulus;
            push_char(&mut out, self.symbols[idx]);
            proof {
                assert(out@ =~= transform_spec(self@, content@.take(i + 1 as int)));
            }
            i = i + 1;
        }
        proof {
            assert(content@.take(content@.len() as int) =~= content@);
        }
        out
    }

    /// Transforms the UTF-8 bytes of a text.
    pub fn transform_str(&self, content: &str) -> (r: String)
        requires
            self.wf(),
        ensures
            r@ == transform_spec(self@, vstd::utf8::encode_utf8(content@)),
    {
        self.transform_bytes(content.as_bytes())
    }

    /// Renders the table as canonical expression text: the symbols in code
    /// point order, a backslash escaped by doubling.  Parsing this text
    /// yields the table again.
    pub fn to_string(&self) -> (r: String)
        requires
            self.wf(),
        ensures
            r@ == expr_of(self@),
    {
        let mut out = String::new();
        let mut i: usize = 0;
        while i < self.symbols.len()
            invariant
                i <= self@.len(),
                out@ == expr_of(self@.take(i as int)),
            decreases self@.len() - i,
        {
            let c = self.symbols[i];
            if c == '\\' {
                push_char(&mut out, '\\');
                push_char(&mut out, '\\');
            } else {
                push_char(&mut out, c);
            }
            proof {
                lemma_expr_of_snoc(self@.take(i as int), self@[i as int]);
                assert(self@.take(i as int).push(self@[i as int]) =~= self@.take(i + 1 as int));
                assert(out@ =~= expr_of(self@.take(i + 1 as int)));
            }
            i = i + 1;
        }
        proof {
            assert(self@.take(self@.len() as int) =~= self@);
        }
        out
    }
}

} // verus!
