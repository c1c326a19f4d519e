//! A small JSON text layer: escaping, string literals, and integer
//! rendering, with exact specifications.  The backup sections and the JSON
//! output encoding are built from these.

use crate::errors::Error;
use crate::text::hex_digit;
use crate::text::push_char;
use crate::text::str_chars;
use vstd::prelude::*;

verus! {

/// How one character is rendered inside a JSON string literal: quote and
/// backslash get a backslash escape, the named control characters get their
/// short escapes, the remaining control characters a `\u00XX` escape, and
/// everything else stands for itself.
pub open spec fn json_escape_char(c: char) -> Seq<char> {
    if c == '"' {
        seq!['\\', '"']
    } else if c == '\\' {
        seq!['\\', '\\']
    } else if c as u32 == 8 {
        seq!['\\', 'b']
    } else if c as u32 == 9 {
        seq!['\\', 't']
    } else if c as u32 == 10 {
        seq!['\\', 'n']
    } else if c as u32 == 12 {
        seq!['\\', 'f']
    } else if c as u32 == 13 {
        seq!['\\', 'r']
    } else if (c as u32) < 32 {
        let hi = (c as u32 / 16) as u8;
        let lo = (c as u32 % 16) as u8;
        seq!['\\', 'u', '0', '0', hex_digit(hi), hex_digit(lo)]
    } else {
        seq![c]
    }
}

/// A whole text rendered inside a JSON string literal.
pub open spec fn json_escaped(s: Seq<char>) -> Seq<char>
    decreases s.len(),
{
    if s.len() == 0 {
        Seq::empty()
    } else {
        json_escape_char(s[0]) + json_escaped(s.drop_first())
    }
}

/// Escaping one more character appends its rendering.
proof fn lemma_json_escaped_snoc(s: Seq<char>, c: char)
    ensures
        json_escaped(s.push(c)) == json_escaped(s) + json_escape_char(c),
    decreases s.len(),
{
    if s.len() == 0 {
        assert(s.push(c)[0] == c);
        assert(s.push(c).drop_first() =~= Seq::<char>::empty());
        assert(json_escaped(s.push(c)) == json_escape_char(c) + json_escaped(
            Seq::<char>::empty(),
        ));
        assert(json_escaped(s.push(c)) =~= json_escaped(s) + json_escape_char(c));
    } else {
        assert(s.push(c)[0] == s[0]);
        assert(s.push(c).drop_first() =~= s.drop_first().push(c));
        lemma_json_escaped_snoc(s.drop_first(), c);
        assert(json_escaped(s.push(c)) == json_escape_char(s[0]) + json_escaped(
            s.drop_first().push(c),
        ));
        assert(json_escaped(s) == json_escape_char(s[0]) + json_escaped(s.drop_first()));
        assert(json_escaped(s.push(c)) =~= json_escaped(s) + json_escape_char(c));
    }
}

/// A JSON string literal: the escaped text between double quotes.
pub open spec fn json_string_of(s: Seq<char>) -> Seq<char> {
    seq!['"'] + json_escaped(s) + seq!['"']
}

/// Appends a JSON string literal for the given text.
pub fn write_json_string(out: &mut String, s: &str)
    ensures
        final(out)@ == old(out)@ + json_string_of(s@),
{
    push_char(out, '"');
    let cs = str_chars(s);
    let mut i: usize = 0;
    while i < cs.len()
        invariant
            cs@ == s@,
            i <= cs@.len(),
            out@ == old(out)@ + seq!['"'] + json_escaped(s@.take(i as int)),
        decreases cs@.len() - i,
    {
        let c = cs[i];
        let code = c as u32;
        if c == '"' {
            push_char(out, '\\');
            push_char(out, '"');
        } else if c == '\\' {
            push_char(out, '\\');
            push_char(out, '\\');
        } else if code == 8 {
            push_char(out, '\\');
            push_char(out, 'b');
        } else if code == 9 {
            push_char(out, '\\');
            push_char(out, 't');
        } else if code == 10 {
            push_char(out, '\\');
            push_char(out, 'n');
        } else if code == 12 {
            push_char(out, '\\');
            push_char(out, 'f');
        } else if code == 13 {
            push_char(out, '\\');
            push_char(out, 'r');
        } else if code < 32 {
            push_char(out, '\\');
            push_char(out, 'u');
            push_char(out, '0');
            push_char(out, '0');
            let hi = (code / 16) as u8;
            let lo = (code % 16) as u8;
            push_char(out, if hi < 10 { (hi + 48) as char } else { (hi + 87) as char });
            push_char(out, if lo < 10 { (lo + 48) as char } else { (lo + 87) as char });
        } else {
            push_char(out, c);
        }
        proof {
            lemma_json_escaped_snoc(s@.take(i as int), s@[i as int]);
            assert(s@.take(i as int).push(s@[i as int]) =~= s@.take(i + 1 as int));
            assert(out@ =~= old(out)@ + seq!['"'] + json_escaped(s@.take(i + 1 as int)));
        }
        i = i + 1;
    }
    push_char(out, '"');
    proof {
        assert(s@.take(s@.len() as int) =~= s@);
        assert(out@ =~= old(out)@ + json_string_of(s@));
    }
}

/// The decimal digits of a non-negative value, most significant first.
pub open spec fn dec_digits(n: nat) -> Seq<char>
    decreases n,
{
    if n < 10 {
        seq![((n + 48) as u8) as char]
    } else {
        dec_digits(n / 10) + seq![((n % 10 + 48) as u8) as char]
    }
}

/// The JSON rendering of a 64-bit signed integer.
pub open spec fn dec_of_i64(n: i64) -> Seq<char> {
    if n < 0 {
        seq!['-'] + dec_digits((-(n as int)) as nat)
    } else {
        dec_digits(n as nat)
    }
}

/// Appends the decimal rendering of an unsigned value.
pub fn write_dec_u64(out: &mut String, n: u64)
    ensures
        final(out)@ == old(out)@ + dec_digits(n as nat),
    decreases n,
{
    if n < 10 {
        let d = (n as u8 + 48) as char;
        push_char(out, d);
        proof {
            assert(old(out)@.push(d) =~= old(out)@ + dec_digits(n as nat));
        }
    } else {
        write_dec_u64(out, n / 10);
        let d = ((n % 10) as u8 + 48) as char;
        push_char(out, d);
        proof {
            assert(old(out)@ + dec_digits((n / 10) as nat) + seq![d] =~= old(out)@ + dec_digits(
                n as nat,
            ));
            assert((old(out)@ + dec_digits((n / 10) as nat)).push(d) =~= old(out)@ + dec_digits(
                (n / 10) as nat,
            ) + seq![d]);
        }
    }
}

/// Appends the decimal rendering of a signed 64-bit value.
pub fn write_dec_i64(out: &mut String, n: i64)
    ensures
        final(out)@ == old(out)@ + dec_of_i64(n),
{
    if n < 0 {
        push_char(out, '-');
        let m: u64 = if n == i64::MIN {
            9223372036854775808u64
        } else {
            (-n) as u64
        };
        proof {
            assert(m as nat == (-(n as int)) as nat);
        }
        write_dec_u64(out, m);
        proof {
            assert(old(out)@.push('-') + dec_digits(m as nat) =~= old(out)@ + dec_of_i64(n));
        }
    } else {
        write_dec_u64(out, n as u64);
        proof {
            assert(old(out)@ + dec_digits((n as u64) as nat) =~= old(out)@ + dec_of_i64(n));
        }
    }
}


/// Decodes one canonical lowercase hexadecimal digit.
fn hex_val(c: char) -> (r: Option<u8>)
    ensures
        match r {
            Some(v) => v < 16 && hex_digit(v) == c,
            None => forall|v: u8| v < 16 ==> hex_digit(v) != c,
        },
{
    let code = c as u32;
    if 48 <= code && code <= 57 {
        let v = (code - 48) as u8;
        proof {
            assert(((v + 48) as u8) as char as u32 == code);
            crate::charset::lemma_char_code_inj(((v + 48) as u8) as char, c);
        }
        Some(v)
    } else if 97 <= code && code <= 102 {
        let v = (code - 87) as u8;
        proof {
            assert(((v + 87) as u8) as char as u32 == code);
            crate::charset::lemma_char_code_inj(((v + 87) as u8) as char, c);
        }
        Some(v)
    } else {
        proof {
            assert forall|v: u8| v < 16 implies hex_digit(v) != c by {
                if hex_digit(v) == c {
                    if v < 10 {
                        assert(hex_digit(v) as u32 == v + 48);
                    } else {
                        assert(hex_digit(v) as u32 == v + 87);
                    }
                }
            }
        }
        None
    }
}

/// Escaping a concatenation concatenates the escapes.
proof fn lemma_json_escaped_cat(a: Seq<char>, b: Seq<char>)
    ensures
        json_escaped(a + b) == json_escaped(a) + json_escaped(b),
    decreases a.len(),
{
    if a.len() == 0 {
        assert(a + b =~= b);
        assert(json_escaped(a) == Seq::<char>::empty());
        assert(json_escaped(a) + json_escaped(b) =~= json_escaped(b));
    } else {
        assert((a + b)[0] == a[0]);
        assert((a + b).drop_first() =~= a.drop_first() + b);
        lemma_json_escaped_cat(a.drop_first(), b);
        assert(json_escaped(a + b) == json_escape_char(a[0]) + json_escaped(a.drop_first() + b));
        assert(json_escaped(a) == json_escape_char(a[0]) + json_escaped(a.drop_first()));
        assert(json_escape_char(a[0]) + (json_escaped(a.drop_first()) + json_escaped(b))
            =~= json_escaped(a) + json_escaped(b));
    }
}

/// Two values below sixteen with one hexadecimal digit are one value.
proof fn lemma_hex_digit_inj(a: u8, b: u8)
    requires
        a < 16,
        b < 16,
        hex_digit(a) == hex_digit(b),
    ensures
        a == b,
{
    if a < 10 && b < 10 {
        assert(hex_digit(a) as u32 == a + 48);
        assert(hex_digit(b) as u32 == b + 48);
    } else if a < 10 {
        assert(hex_digit(a) as u32 == a + 48);
        assert(hex_digit(b) as u32 == b + 87);
    } else if b < 10 {
        assert(hex_digit(a) as u32 == a + 87);
        assert(hex_digit(b) as u32 == b + 48);
    } else {
        assert(hex_digit(a) as u32 == a + 87);
        assert(hex_digit(b) as u32 == b + 87);
    }
}

/// Whether the canonical string literal of `v` sits at `pos`.
pub open spec fn string_lit_at(cs: Seq<char>, pos: int, v: Seq<char>) -> bool {
    &&& 0 <= pos <= cs.len()
    &&& json_string_of(v).is_prefix_of(cs.skip(pos))
}

/// Where a literal's rendering places each character: after `m` decoded
/// characters the reader stands at the next escape unit (or at the closing
/// quote), whose characters the input carries verbatim.
proof fn lemma_witness_at(cs: Seq<char>, pos: int, v: Seq<char>, m: int, i: int)
    requires
        string_lit_at(cs, pos, v),
        0 <= m <= v.len(),
        i == pos + 1 + json_escaped(v.take(m)).len(),
    ensures
        json_escaped(v.take(m)).len() <= json_escaped(v).len(),
        pos + 1 + json_escaped(v).len() < cs.len(),
        m == v.len() ==> cs[i] == '"',
        m < v.len() ==> ({
            let u = json_escape_char(v[m]);
            &&& i + u.len() <= pos + 1 + json_escaped(v).len()
            &&& forall|k: int| 0 <= k < u.len() ==> #[trigger] cs[i + k] == u[k]
        }),
{
    let jso = json_string_of(v);
    assert(jso.len() <= cs.skip(pos).len());
    assert forall|k: int| 0 <= k < jso.len() implies #[trigger] cs[pos + k] == jso[k] by {
        assert(cs.skip(pos)[k] == cs[pos + k]);
    }
    lemma_json_escaped_cat(v.take(m), v.skip(m));
    assert(v.take(m) + v.skip(m) =~= v);
    assert(json_escaped(v) == json_escaped(v.take(m)) + json_escaped(v.skip(m)));
    assert(jso.len() == json_escaped(v).len() + 2);
    assert(pos + 1 + json_escaped(v).len() < cs.len());
    if m == v.len() {
        assert(v.skip(m) =~= Seq::<char>::empty());
        assert(json_escaped(v.skip(m)).len() == 0);
        assert(jso[1 + json_escaped(v).len() as int] == '"');
        assert(cs[i] == '"');
    } else {
        let u = json_escape_char(v[m]);
        assert(v.skip(m)[0] == v[m]);
        assert(v.skip(m).drop_first() =~= v.skip(m + 1));
        assert(json_escaped(v.skip(m)) == u + json_escaped(v.skip(m + 1)));
        assert forall|k: int| 0 <= k < u.len() implies #[trigger] cs[i + k] == u[k] by {
            assert(jso[1 + json_escaped(v.take(m)).len() + k] == json_escaped(v)[
                json_escaped(v.take(m)).len() + k]);
            assert(json_escaped(v)[json_escaped(v.take(m)).len() + k] == json_escaped(v.skip(m))[
            k]);
            assert(json_escaped(v.skip(m))[k] == u[k]);
            assert(cs[pos + 1 + json_escaped(v.take(m)).len() + k] == jso[1 + json_escaped(
                v.take(m),
            ).len() + k]);
        }
    }
}

/// Reads a JSON string literal in the canonical form this library writes:
/// the consumed text is exactly the literal of the returned value, and an
/// input carrying the literal of some text at the position is always read
/// back to that text.
#[verifier::rlimit(100)]
pub fn parse_json_string(cs: &Vec<char>, pos: usize) -> (r: Result<(String, usize), Error>)
    ensures
        r matches Ok(p) ==> pos <= p.1 <= cs@.len() && cs@.subrange(pos as int, p.1 as int)
            == json_string_of(p.0@),
        forall|v: Seq<char>| #[trigger]
            string_lit_at(cs@, pos as int, v) ==> (r matches Ok(p) && p.0@ == v && p.1 == pos
                + json_string_of(v).len()),
{
    if pos >= cs.len() {
        proof {
            assert forall|v: Seq<char>| !string_lit_at(cs@, pos as int, v) by {
                if string_lit_at(cs@, pos as int, v) {
                    assert(json_string_of(v).len() >= 2);
                    assert(false);
                }
            }
        }
        return Err(Error::InvalidJsonError(String::new()));
    }
    if cs[pos] != '"' {
        proof {
            assert forall|v: Seq<char>| !string_lit_at(cs@, pos as int, v) by {
                if string_lit_at(cs@, pos as int, v) {
                    assert(cs@.skip(pos as int)[0] == cs@[pos as int]);
                    assert(json_string_of(v)[0] == '"');
                    assert(false);
                }
            }
        }
        return Err(Error::InvalidJsonError(String::new()));
    }
    let mut out: Vec<char> = Vec::new();
    let mut i: usize = pos + 1;
    proof {
        assert forall|v: Seq<char>| #[trigger]
            string_lit_at(cs@, pos as int, v) implies out@.len() <= v.len() && out@ == v.take(
            out@.len() as int,
        ) by {
            assert(v.take(0) =~= out@);
        }
    }
    loop
        invariant
            pos + 1 <= i <= cs@.len(),
            cs@[pos as int] == '"',
            json_escaped(out@) == cs@.subrange(pos + 1 as int, i as int),
            forall|v: Seq<char>| #[trigger]
                string_lit_at(cs@, pos as int, v) ==> out@.len() <= v.len() && out@ == v.take(
                    out@.len() as int,
                ),
        ensures
            i < cs@.len(),
            cs@[i as int] == '"',
            json_escaped(out@) == cs@.subrange(pos + 1 as int, i as int),
            forall|v: Seq<char>| #[trigger] string_lit_at(cs@, pos as int, v) ==> out@ == v,
        decreases cs@.len() - i,
    {
        let ghost out_old = out@;
        let ghost m = out@.len() as int;
        proof {
            assert forall|v: Seq<char>| #[trigger]
                string_lit_at(cs@, pos as int, v) implies i == pos + 1 + json_escaped(
                v.take(m),
            ).len() && (m == v.len() ==> cs@[i as int] == '"') && (m < v.len() ==> ({
                let u = json_escape_char(v[m]);
                &&& i + u.len() <= cs@.len()
                &&& forall|k: int| 0 <= k < u.len() ==> #[trigger] cs@[i + k] == u[k]
            })) by {
                assert(out@ == v.take(m));
                assert(json_escaped(out@).len() == i - pos - 1);
                lemma_witness_at(cs@, pos as int, v, m, i as int);
            }
        }
        if i >= cs.len() {
            proof {
                assert forall|v: Seq<char>| !string_lit_at(cs@, pos as int, v) by {
                    if string_lit_at(cs@, pos as int, v) {
                        lemma_witness_at(cs@, pos as int, v, m, i as int);
                        assert(false);
                    }
                }
            }
            return Err(Error::InvalidJsonError(String::new()));
        }
        let c = cs[i];
        if c == '"' {
            proof {
                assert forall|v: Seq<char>| #[trigger]
                    string_lit_at(cs@, pos as int, v) implies out@ == v by {
                    if m < v.len() {
                        let u = json_escape_char(v[m]);
                        assert(cs@[i + 0] == u[0]);
                        assert(u[0] != '"');
                        assert(false);
                    }
                    assert(v.take(v.len() as int) =~= v);
                }
            }
            break ;
        } else if c == '\\' {
            proof {
                assert forall|v: Seq<char>| #[trigger]
                    string_lit_at(cs@, pos as int, v) implies m < v.len() && (v[m] == '"' || v[m]
                    == '\\' || (v[m] as u32) < 32) by {
                    if m == v.len() {
                        assert(cs@[i as int] == '"');
                        assert(false);
                    }
                    let u = json_escape_char(v[m]);
                    assert(cs@[i + 0] == u[0]);
                    if !(v[m] == '"' || v[m] == '\\' || (v[m] as u32) < 32) {
                        assert(u == seq![v[m]]);
                        assert(v[m] == '\\');
                        assert(false);
                    }
                }
            }
            if i + 1 >= cs.len() {
                proof {
                    assert forall|v: Seq<char>| !string_lit_at(cs@, pos as int, v) by {
                        if string_lit_at(cs@, pos as int, v) {
                            let u = json_escape_char(v[m]);
                            assert(u.len() >= 2);
                            assert(i + u.len() <= cs@.len());
                            assert(false);
                        }
                    }
                }
                return Err(Error::InvalidJsonError(String::new()));
            }
            let e = cs[i + 1];
            if e == '"' {
                proof {
                    assert forall|v: Seq<char>| #[trigger]
                        string_lit_at(cs@, pos as int, v) implies v[m] == '"' by {
                        let u = json_escape_char(v[m]);
                        assert(cs@[i + 1] == u[1]);
                        if v[m] != '"' {
                            assert(u[1] != '"');
                        }
                    }
                }
                out.push('"');
            } else if e == '\\' {
                proof {
                    assert forall|v: Seq<char>| #[trigger]
                        string_lit_at(cs@, pos as int, v) implies v[m] == '\\' by {
                        let u = json_escape_char(v[m]);
                        assert(cs@[i + 1] == u[1]);
                        if v[m] != '\\' {
                            assert(u[1] != '\\');
                        }
                    }
                }
                out.push('\\');
            } else if e == 'b' {
                proof {
                    assert forall|v: Seq<char>| #[trigger]
                        string_lit_at(cs@, pos as int, v) implies v[m] == 8u8 as char by {
                        let u = json_escape_char(v[m]);
                        assert(cs@[i + 1] == u[1]);
                        if v[m] as u32 != 8 {
                            assert(u[1] != 'b');
                        } else {
                            crate::charset::lemma_char_code_inj(v[m], 8u8 as char);
                        }
                    }
                }
                out.push(8u8 as char);
            } else if e == 't' {
                proof {
                    assert forall|v: Seq<char>| #[trigger]
                        string_lit_at(cs@, pos as int, v) implies v[m] == 9u8 as char by {
                        let u = json_escape_char(v[m]);
                        assert(cs@[i + 1] == u[1]);
                        if v[m] as u32 != 9 {
                            assert(u[1] != 't');
                        } else {
                            crate::charset::lemma_char_code_inj(v[m], 9u8 as char);
                        }
                    }
                }
                out.push(9u8 as char);
            } else if e == 'n' {
                proof {
                    assert forall|v: Seq<char>| #[trigger]
                        string_lit_at(cs@, pos as int, v) implies v[m] == 10u8 as char by {
                        let u = json_escape_char(v[m]);
                        assert(cs@[i + 1] == u[1]);
                        if v[m] as u32 != 10 {
                            assert(u[1] != 'n');
                        } else {
                            crate::charset::lemma_char_code_inj(v[m], 10u8 as char);
                        }
                    }
                }
                out.push(10u8 as char);
            } else if e == 'f' {
                proof {
                    assert forall|v: Seq<char>| #[trigger]
                        string_lit_at(cs@, pos as int, v) implies v[m] == 12u8 as char by {
                        let u = json_escape_char(v[m]);
                        assert(cs@[i + 1] == u[1]);
                        if v[m] as u32 != 12 {
                            assert(u[1] != 'f');
                        } else {
                            crate::charset::lemma_char_code_inj(v[m], 12u8 as char);
                        }
                    }
                }
                out.push(12u8 as char);
            } else if e == 'r' {
                proof {
                    assert forall|v: Seq<char>| #[trigger]
                        string_lit_at(cs@, pos as int, v) implies v[m] == 13u8 as char by {
                        let u = json_escape_char(v[m]);
                        assert(cs@[i + 1] == u[1]);
                        if v[m] as u32 != 13 {
                            assert(u[1] != 'r');
                        } else {
                            crate::charset::lemma_char_code_inj(v[m], 13u8 as char);
                        }
                    }
                }
                out.push(13u8 as char);
            } else if e == 'u' {
                proof {
                    assert forall|v: Seq<char>| #[trigger]
                        string_lit_at(cs@, pos as int, v) implies ({
                        let u = json_escape_char(v[m]);
                        &&& (v[m] as u32) < 32
                        &&& v[m] as u32 != 8 && v[m] as u32 != 9 && v[m] as u32 != 10
                        &&& v[m] as u32 != 12 && v[m] as u32 != 13
                        &&& u.len() == 6
                        &&& i + 6 <= cs@.len()
                    }) by {
                        let u = json_escape_char(v[m]);
                        assert(cs@[i + 1] == u[1]);
                        if v[m] == '"' || v[m] == '\\' || v[m] as u32 == 8 || v[m] as u32 == 9
                            || v[m] as u32 == 10 || v[m] as u32 == 12 || v[m] as u32 == 13 {
                            assert(u[1] != 'u');
                        }
                    }
                }
                if cs.len() - i < 6 {
                    proof {
                        assert forall|v: Seq<char>| !string_lit_at(cs@, pos as int, v) by {
                            if string_lit_at(cs@, pos as int, v) {
                                assert(i + 6 <= cs@.len());
                            }
                        }
                    }
                    return Err(Error::InvalidJsonError(String::new()));
                }
                if cs[i + 2] != '0' || cs[i + 3] != '0' {
                    proof {
                        assert forall|v: Seq<char>| !string_lit_at(cs@, pos as int, v) by {
                            if string_lit_at(cs@, pos as int, v) {
                                let u = json_escape_char(v[m]);
                                assert(cs@[i + 2] == u[2]);
                                assert(cs@[i + 3] == u[3]);
                            }
                        }
                    }
                    return Err(Error::InvalidJsonError(String::new()));
                }
                let hi = match hex_val(cs[i + 4]) {
                    Some(h) => h,
                    None => {
                        proof {
                            assert forall|v: Seq<char>| !string_lit_at(cs@, pos as int, v) by {
                                if string_lit_at(cs@, pos as int, v) {
                                    let u = json_escape_char(v[m]);
                                    assert(cs@[i + 4] == u[4]);
                                    assert(u[4] == hex_digit((v[m] as u32 / 16) as u8));
                                }
                            }
                        }
                        return Err(Error::InvalidJsonError(String::new()));
                    },
                };
                let lo = match hex_val(cs[i + 5]) {
                    Some(l) => l,
                    None => {
                        proof {
                            assert forall|v: Seq<char>| !string_lit_at(cs@, pos as int, v) by {
                                if string_lit_at(cs@, pos as int, v) {
                                    let u = json_escape_char(v[m]);
                                    assert(cs@[i + 5] == u[5]);
                                    assert(u[5] == hex_digit((v[m] as u32 % 16) as u8));
                                }
                            }
                        }
                        return Err(Error::InvalidJsonError(String::new()));
                    },
                };
                let code: u32 = (hi as u32) * 16 + (lo as u32);
                proof {
                    assert forall|v: Seq<char>| #[trigger]
                        string_lit_at(cs@, pos as int, v) implies v[m] as u32 == code by {
                        let u = json_escape_char(v[m]);
                        assert(cs@[i + 4] == u[4]);
                        assert(cs@[i + 5] == u[5]);
                        lemma_hex_digit_inj(hi, (v[m] as u32 / 16) as u8);
                        lemma_hex_digit_inj(lo, (v[m] as u32 % 16) as u8);
                    }
                }
                if code >= 32 || code == 8 || code == 9 || code == 10 || code == 12 || code == 13 {
                    proof {
                        assert forall|v: Seq<char>| !string_lit_at(cs@, pos as int, v) by {
                            if string_lit_at(cs@, pos as int, v) {
                                assert(v[m] as u32 == code);
                            }
                        }
                    }
                    return Err(Error::InvalidJsonError(String::new()));
                }
                let ch = (code as u8) as char;
                proof {
                    assert(ch as u32 == code);
                    assert(code / 16 == hi && code % 16 == lo);
                    assert(json_escape_char(ch) =~= seq![
                        '\\',
                        'u',
                        '0',
                        '0',
                        hex_digit(hi),
                        hex_digit(lo),
                    ]);
                }
                out.push(ch);
                proof {
                    lemma_json_escaped_snoc(out_old, ch);
                    assert(json_escaped(out@) =~= cs@.subrange(pos + 1 as int, i + 6 as int));
                    assert forall|v: Seq<char>| #[trigger]
                        string_lit_at(cs@, pos as int, v) implies out@.len() <= v.len() && out@
                        == v.take(out@.len() as int) by {
                        crate::charset::lemma_char_code_inj(ch, v[m]);
                        assert(out@ =~= v.take(m + 1));
                    }
                }
                i = i + 6;
                continue ;
            } else {
                proof {
                    assert forall|v: Seq<char>| !string_lit_at(cs@, pos as int, v) by {
                        if string_lit_at(cs@, pos as int, v) {
                            let u = json_escape_char(v[m]);
                            assert(cs@[i + 1] == u[1]);
                            if v[m] == '"' {
                                assert(u[1] == '"');
                            } else if v[m] == '\\' {
                                assert(u[1] == '\\');
                            } else if v[m] as u32 == 8 {
                                assert(u[1] == 'b');
                            } else if v[m] as u32 == 9 {
                                assert(u[1] == 't');
                            } else if v[m] as u32 == 10 {
                                assert(u[1] == 'n');
                            } else if v[m] as u32 == 12 {
                                assert(u[1] == 'f');
                            } else if v[m] as u32 == 13 {
                                assert(u[1] == 'r');
                            } else {
                                assert(u[1] == 'u');
                            }
                        }
                    }
                }
                return Err(Error::InvalidJsonError(String::new()));
            }
            proof {
                let pushed = out@[out@.len() - 1];
                lemma_json_escaped_snoc(out_old, pushed);
                assert(json_escaped(out@) =~= cs@.subrange(pos + 1 as int, i + 2 as int));
                assert forall|v: Seq<char>| #[trigger]
                    string_lit_at(cs@, pos as int, v) implies out@.len() <= v.len() && out@
                    == v.take(out@.len() as int) by {
                    assert(out@ =~= v.take(m + 1));
                }
            }
            i = i + 2;
        } else {
            let code = c as u32;
            proof {
                assert forall|v: Seq<char>| #[trigger]
                    string_lit_at(cs@, pos as int, v) implies m < v.len() && v[m] == c && (
                v[m] as u32) >= 32 by {
                    if m == v.len() {
                        assert(cs@[i as int] == '"');
                        assert(false);
                    }
                    let u = json_escape_char(v[m]);
                    assert(cs@[i + 0] == u[0]);
                    if v[m] == '"' || v[m] == '\\' || (v[m] as u32) < 32 {
                        assert(u[0] == '\\');
                        assert(false);
                    }
                    assert(u == seq![v[m]]);
                }
            }
            if code < 32 {
                proof {
                    assert forall|v: Seq<char>| !string_lit_at(cs@, pos as int, v) by {
                        if string_lit_at(cs@, pos as int, v) {
                            assert(v[m] == c);
                        }
                    }
                }
                return Err(Error::InvalidJsonError(String::new()));
            }
            out.push(c);
            proof {
                lemma_json_escaped_snoc(out_old, c);
                assert(json_escape_char(c) =~= seq![c]);
                assert(json_escaped(out@) =~= cs@.subrange(pos + 1 as int, i + 1 as int));
                assert forall|v: Seq<char>| #[trigger]
                    string_lit_at(cs@, pos as int, v) implies out@.len() <= v.len() && out@
                    == v.take(out@.len() as int) by {
                    assert(out@ =~= v.take(m + 1));
                }
            }
            i = i + 1;
        }
    }
    let value = crate::text::chars_to_string(&out);
    proof {
        assert(cs@.subrange(pos as int, i + 1 as int) =~= seq!['"'] + json_escaped(out@) + seq![
            '"',
        ]);
        assert forall|v: Seq<char>| #[trigger]
            string_lit_at(cs@, pos as int, v) implies value@ == v && i + 1 == pos
            + json_string_of(v).len() by {
            assert(out@ == v);
            assert(json_string_of(v).len() == json_escaped(v).len() + 2);
        }
    }
    Ok((value, i + 1))
}

/// One more digit extends the decimal rendering.
proof fn lemma_dec_digits_step(n: nat, d: nat)
    requires
        n >= 1,
        d < 10,
    ensures
        dec_digits(n * 10 + d) == dec_digits(n) + seq![(((d + 48) as u8) as char)],
{
    let m = n * 10 + d;
    assert(m >= 10) by (nonlinear_arith)
        requires
            n >= 1,
            d < 10,
            m == n * 10 + d,
    ;
    assert(m / 10 == n && m % 10 == d) by (nonlinear_arith)
        requires
            n >= 1,
            d < 10,
            m == n * 10 + d,
    ;
    assert(dec_digits(m) == dec_digits(n) + seq![((m % 10 + 48) as u8) as char]);
}

/// Every character of a decimal rendering is an ASCII digit.
proof fn lemma_dec_digits_all_digits(n: nat)
    ensures
        forall|i: int|
            0 <= i < dec_digits(n).len() ==> 48 <= (#[trigger] dec_digits(n)[i]) as u32 <= 57,
    decreases n,
{
    if n < 10 {
        assert(dec_digits(n)[0] as u32 == n + 48);
    } else {
        lemma_dec_digits_all_digits(n / 10);
        assert forall|i: int|
            0 <= i < dec_digits(n).len() implies 48 <= (#[trigger] dec_digits(n)[i]) as u32
            <= 57 by {
            if i < dec_digits(n / 10).len() {
                assert(dec_digits(n)[i] == dec_digits(n / 10)[i]);
            } else {
                assert(dec_digits(n)[i] as u32 == n % 10 + 48);
            }
        }
    }
}

/// A non-zero value never renders with a leading zero.
proof fn lemma_dec_digits_leading(n: nat)
    requires
        n >= 1,
    ensures
        dec_digits(n)[0] as u32 != 48,
    decreases n,
{
    if n < 10 {
        assert(dec_digits(n)[0] as u32 == n + 48);
    } else {
        lemma_dec_digits_leading(n / 10);
        assert(dec_digits(n)[0] == dec_digits(n / 10)[0]);
    }
}

/// Two values with one decimal rendering are one value.
proof fn lemma_dec_digits_inj(a: nat, b: nat)
    requires
        dec_digits(a) == dec_digits(b),
    ensures
        a == b,
    decreases a,
{
    if a < 10 && b < 10 {
        assert(dec_digits(a)[0] as u32 == a + 48);
        assert(dec_digits(b)[0] as u32 == b + 48);
    } else if a < 10 {
        assert(dec_digits(a).len() == 1);
        assert(dec_digits(b).len() == dec_digits(b / 10).len() + 1);
        assert(dec_digits(b / 10).len() >= 1);
    } else if b < 10 {
        assert(dec_digits(b).len() == 1);
        assert(dec_digits(a).len() == dec_digits(a / 10).len() + 1);
        assert(dec_digits(a / 10).len() >= 1);
    } else {
        let la = dec_digits(a).len() as int;
        assert(dec_digits(a)[la - 1] as u32 == a % 10 + 48);
        assert(dec_digits(b)[la - 1] as u32 == b % 10 + 48);
        assert(a % 10 == b % 10);
        assert(dec_digits(a / 10) =~= dec_digits(a).take(la - 1));
        assert(dec_digits(b / 10) =~= dec_digits(b).take(la - 1));
        lemma_dec_digits_inj(a / 10, b / 10);
        assert(a == (a / 10) * 10 + a % 10) by (nonlinear_arith);
        assert(b == (b / 10) * 10 + b % 10) by (nonlinear_arith);
    }
}

/// A value whose rendering is a prefix of another's is no larger.
proof fn lemma_dec_prefix_bound(w: nat, n: nat)
    requires
        dec_digits(w).is_prefix_of(dec_digits(n)),
    ensures
        w <= n,
    decreases n,
{
    if dec_digits(w).len() == dec_digits(n).len() {
        assert(dec_digits(w) =~= dec_digits(n));
        lemma_dec_digits_inj(w, n);
    } else {
        assert(dec_digits(w).len() < dec_digits(n).len());
        if n < 10 {
            assert(dec_digits(n).len() == 1);
            assert(dec_digits(w).len() >= 1);
            assert(false);
        }
        assert(dec_digits(n).len() == dec_digits(n / 10).len() + 1);
        assert forall|k: int|
            0 <= k < dec_digits(w).len() implies #[trigger] dec_digits(w)[k] == dec_digits(
            n / 10,
        )[k] by {
            assert(dec_digits(w)[k] == dec_digits(n)[k]);
            assert(dec_digits(n)[k] == dec_digits(n / 10)[k]);
        }
        assert(dec_digits(w).is_prefix_of(dec_digits(n / 10)));
        lemma_dec_prefix_bound(w, n / 10);
        assert(n / 10 <= n);
    }
}

/// Whether the decimal rendering of `n` sits at `pos`, ending at a
/// non-digit boundary or at the end of the input.
pub open spec fn dec_at(cs: Seq<char>, pos: int, n: u64) -> bool {
    &&& 0 <= pos <= cs.len()
    &&& dec_digits(n as nat).is_prefix_of(cs.skip(pos))
    &&& (pos + dec_digits(n as nat).len() == cs.len() || !(48 <= cs[pos + dec_digits(
        n as nat,
    ).len()] as u32 <= 57))
}

/// Reads a canonical decimal number: no sign, no leading zero.  The
/// consumed text is exactly the decimal rendering of the returned value,
/// and an input carrying such a rendering up to a non-digit boundary is
/// always read back to the same value.
pub fn parse_u64(cs: &Vec<char>, pos: usize) -> (r: Result<(u64, usize), Error>)
    ensures
        r matches Ok(p) ==> pos <= p.1 <= cs@.len() && cs@.subrange(pos as int, p.1 as int)
            == dec_digits(p.0 as nat),
        forall|n: u64| #[trigger]
            dec_at(cs@, pos as int, n) ==> r == Ok::<(u64, usize), Error>(
                (n, (pos + dec_digits(n as nat).len()) as usize),
            ),
{
    if pos >= cs.len() {
        proof {
            assert forall|n: u64| !dec_at(cs@, pos as int, n) by {
                if dec_at(cs@, pos as int, n) {
                    assert(dec_digits(n as nat).len() >= 1);
                    assert(false);
                }
            }
        }
        return Err(Error::InvalidJsonError(String::new()));
    }
    let c0 = cs[pos];
    let code0 = c0 as u32;
    if !(48 <= code0 && code0 <= 57) {
        proof {
            assert forall|n: u64| !dec_at(cs@, pos as int, n) by {
                if dec_at(cs@, pos as int, n) {
                    lemma_dec_digits_all_digits(n as nat);
                    assert(cs@.skip(pos as int)[0] == cs@[pos as int]);
                    assert(dec_digits(n as nat)[0] == cs@[pos as int]);
                    assert(false);
                }
            }
        }
        return Err(Error::InvalidJsonError(String::new()));
    }
    let d0: u64 = (code0 - 48) as u64;
    proof {
        assert(((d0 + 48) as u8) as char as u32 == code0);
        crate::charset::lemma_char_code_inj(((d0 + 48) as u8) as char, c0);
        assert(dec_digits(d0 as nat) =~= cs@.subrange(pos as int, pos + 1 as int));
    }
    if d0 == 0 {
        proof {
            assert forall|n: u64| dec_at(cs@, pos as int, n) implies n == 0 by {
                if n >= 1 {
                    lemma_dec_digits_leading(n as nat);
                    assert(cs@.skip(pos as int)[0] == cs@[pos as int]);
                    assert(dec_digits(n as nat)[0] == cs@[pos as int]);
                    assert(false);
                }
            }
            assert(dec_digits(0).len() == 1);
        }
        return Ok((0, pos + 1));
    }
    let mut val: u64 = d0;
    let mut i: usize = pos + 1;
    proof {
        assert forall|n: u64| #[trigger]
            dec_at(cs@, pos as int, n) implies i - pos <= dec_digits(n as nat).len() by {
            assert(dec_digits(n as nat).len() >= 1);
        }
    }
    loop
        invariant
            pos + 1 <= i <= cs@.len(),
            val >= 1,
            dec_digits(val as nat) == cs@.subrange(pos as int, i as int),
            forall|n: u64| #[trigger]
                dec_at(cs@, pos as int, n) ==> i - pos <= dec_digits(n as nat).len(),
        ensures
            pos + 1 <= i <= cs@.len(),
            val >= 1,
            dec_digits(val as nat) == cs@.subrange(pos as int, i as int),
            forall|n: u64| #[trigger]
                dec_at(cs@, pos as int, n) ==> i - pos <= dec_digits(n as nat).len(),
            i == cs@.len() || !(48 <= cs@[i as int] as u32 <= 57),
        decreases cs@.len() - i,
    {
        if i >= cs.len() {
            break ;
        }
        let c = cs[i];
        let code = c as u32;
        if !(48 <= code && code <= 57) {
            break ;
        }
        let d: u64 = (code - 48) as u64;
        proof {
            assert(((d + 48) as u8) as char as u32 == code);
            crate::charset::lemma_char_code_inj(((d + 48) as u8) as char, c);
            // under any witness the next value still fits, so the overflow
            // guard below can only fire when no witness exists
            assert forall|n: u64| #[trigger]
                dec_at(cs@, pos as int, n) implies (val as nat) * 10 + (d as nat)
                <= u64::MAX by {
                let dd = dec_digits(n as nat);
                if i - pos == dd.len() {
                    assert(cs@[pos + dd.len()] == c);
                    assert(false);
                }
                assert forall|k: int| 0 <= k < i + 1 - pos implies dd[k] == cs@[pos + k] by {
                    assert(cs@.skip(pos as int)[k] == cs@[pos + k]);
                }
                assert(dec_digits(val as nat) =~= dd.take(i - pos));
                lemma_dec_digits_step(val as nat, d as nat);
                assert(dd[i - pos] == c);
                assert(dec_digits((val as nat) * 10 + (d as nat)) =~= dd.take(i - pos + 1));
                assert(dd.take(i - pos + 1).is_prefix_of(dd));
                lemma_dec_prefix_bound((val as nat) * 10 + (d as nat), n as nat);
                assert(n <= u64::MAX);
            }
        }
        if val > (u64::MAX - d) / 10 {
            proof {
                assert forall|n: u64| !dec_at(cs@, pos as int, n) by {
                    if dec_at(cs@, pos as int, n) {
                        assert((val as nat) * 10 + (d as nat) > u64::MAX) by (nonlinear_arith)
                            requires
                                val > (u64::MAX - d) / 10,
                                d < 10,
                        ;
                    }
                }
            }
            return Err(Error::InvalidJsonError(String::new()));
        }
        proof {
            assert(val * 10 + d <= u64::MAX) by (nonlinear_arith)
                requires
                    val <= (u64::MAX - d) / 10,
                    d < 10,
            ;
            lemma_dec_digits_step(val as nat, d as nat);
            assert(dec_digits((val * 10 + d) as nat) =~= cs@.subrange(pos as int, i + 1 as int));
            assert forall|n: u64| #[trigger]
                dec_at(cs@, pos as int, n) implies i + 1 - pos <= dec_digits(n as nat).len() by {
                if i - pos == dec_digits(n as nat).len() {
                    assert(cs@[pos + dec_digits(n as nat).len()] == c);
                    assert(false);
                }
            }
        }
        val = val * 10 + d;
        i = i + 1;
    }
    proof {
        assert forall|n: u64| #[trigger]
            dec_at(cs@, pos as int, n) implies val == n && i == pos + dec_digits(
            n as nat,
        ).len() by {
            let dd = dec_digits(n as nat);
            if i - pos < dd.len() {
                lemma_dec_digits_all_digits(n as nat);
                assert(cs@.skip(pos as int)[i - pos] == cs@[i as int]);
                assert(dd[i - pos] == cs@[i as int]);
                assert(pos + dd.len() <= cs@.len());
                assert(false);
            }
            assert(i - pos == dd.len());
            assert forall|k: int| 0 <= k < dd.len() implies dd[k] == cs@[pos + k] by {
                assert(cs@.skip(pos as int)[k] == cs@[pos + k]);
            }
            assert(dec_digits(val as nat) =~= dd);
            lemma_dec_digits_inj(val as nat, n as nat);
        }
    }
    Ok((val, i))
}

/// Whether the signed decimal rendering of `n` sits at `pos`, ending at a
/// non-digit boundary or at the end of the input.
pub open spec fn dec_i64_at(cs: Seq<char>, pos: int, n: i64) -> bool {
    &&& 0 <= pos <= cs.len()
    &&& dec_of_i64(n).is_prefix_of(cs.skip(pos))
    &&& (pos + dec_of_i64(n).len() == cs.len() || !(48 <= cs[pos + dec_of_i64(n).len()] as u32
        <= 57))
}

/// Reads a canonical signed decimal number; an input carrying such a
/// rendering up to a non-digit boundary is always read back to the same
/// value.
pub fn parse_i64(cs: &Vec<char>, pos: usize) -> (r: Result<(i64, usize), Error>)
    ensures
        r matches Ok(p) ==> pos <= p.1 <= cs@.len() && cs@.subrange(pos as int, p.1 as int)
            == dec_of_i64(p.0),
        forall|n: i64| #[trigger]
            dec_i64_at(cs@, pos as int, n) ==> r == Ok::<(i64, usize), Error>(
                (n, (pos + dec_of_i64(n).len()) as usize),
            ),
{
    if pos < cs.len() && cs[pos] == '-' {
        proof {
            assert forall|n: i64|
                dec_i64_at(cs@, pos as int, n) && n >= 0 implies false by {
                lemma_dec_digits_all_digits(n as nat);
                assert(cs@.skip(pos as int)[0] == cs@[pos as int]);
                assert(dec_of_i64(n)[0] == cs@[pos as int]);
            }
            assert forall|n: i64|
                #[trigger] dec_i64_at(cs@, pos as int, n) && n < 0 implies dec_at(
                cs@,
                pos + 1,
                (-(n as int)) as u64,
            ) by {
                let m = (-(n as int)) as u64;
                let dd = dec_digits(m as nat);
                assert(dec_of_i64(n) == seq!['-'] + dd);
                assert forall|k: int| 0 <= k < dd.len() implies cs@.skip(pos + 1)[k] == dd[
                k] by {
                    assert(cs@.skip(pos as int)[k + 1] == dec_of_i64(n)[k + 1]);
                    assert(cs@.skip(pos + 1)[k] == cs@[pos + 1 + k]);
                    assert(cs@.skip(pos as int)[k + 1] == cs@[pos + 1 + k]);
                }
                assert(dd.is_prefix_of(cs@.skip(pos + 1)));
            }
        }
        match parse_u64(cs, pos + 1) {
            Ok((m, j)) => {
                if m == 0 || m > 9223372036854775808u64 {
                    proof {
                        assert forall|n: i64| !dec_i64_at(cs@, pos as int, n) by {
                            if dec_i64_at(cs@, pos as int, n) {
                                assert(n < 0);
                                let mw = (-(n as int)) as u64;
                                assert(dec_at(cs@, pos + 1, mw));
                                assert(m == mw);
                                assert(1 <= mw <= 9223372036854775808u64);
                            }
                        }
                    }
                    return Err(Error::InvalidJsonError(String::new()));
                }
                let v: i64 = if m == 9223372036854775808u64 {
                    i64::MIN
                } else {
                    -(m as i64)
                };
                proof {
                    assert(m as nat == (-(v as int)) as nat);
                    assert(cs@.subrange(pos as int, j as int) =~= seq!['-'] + dec_digits(
                        m as nat,
                    ));
                    assert forall|n: i64|
                        #[trigger] dec_i64_at(cs@, pos as int, n) implies v == n && j == pos
                        + dec_of_i64(n).len() by {
                        assert(n < 0);
                        let mw = (-(n as int)) as u64;
                        assert(dec_at(cs@, pos + 1, mw));
                        assert(m == mw);
                    }
                }
                Ok((v, j))
            },
            Err(e) => {
                proof {
                    assert forall|n: i64| !dec_i64_at(cs@, pos as int, n) by {
                        if dec_i64_at(cs@, pos as int, n) {
                            assert(n < 0);
                            let mw = (-(n as int)) as u64;
                            assert(dec_at(cs@, pos + 1, mw));
                        }
                    }
                }
                Err(e)
            },
        }
    } else {
        proof {
            assert forall|n: i64|
                dec_i64_at(cs@, pos as int, n) && n < 0 implies false by {
                assert(dec_of_i64(n)[0] == '-');
                assert(dec_of_i64(n).len() >= 1);
                assert(cs@.skip(pos as int)[0] == cs@[pos as int]);
                assert(cs@[pos as int] == '-');
            }
            assert forall|n: i64|
                #[trigger] dec_i64_at(cs@, pos as int, n) && n >= 0 implies dec_at(
                cs@,
                pos as int,
                n as u64,
            ) by {
                assert(dec_of_i64(n) == dec_digits(n as nat));
            }
        }
        match parse_u64(cs, pos) {
            Ok((m, j)) => {
                if m > i64::MAX as u64 {
                    proof {
                        assert forall|n: i64| !dec_i64_at(cs@, pos as int, n) by {
                            if dec_i64_at(cs@, pos as int, n) {
                                assert(n >= 0);
                                assert(dec_at(cs@, pos as int, n as u64));
                                assert(m == n as u64);
                            }
                        }
                    }
                    return Err(Error::InvalidJsonError(String::new()));
                }
                proof {
                    assert forall|n: i64|
                        #[trigger] dec_i64_at(cs@, pos as int, n) implies m as i64 == n && j
                        == pos + dec_of_i64(n).len() by {
                        assert(n >= 0);
                        assert(dec_at(cs@, pos as int, n as u64));
                        assert(m == n as u64);
                    }
                }
                Ok((m as i64, j))
            },
            Err(e) => {
                proof {
                    assert forall|n: i64| !dec_i64_at(cs@, pos as int, n) by {
                        if dec_i64_at(cs@, pos as int, n) {
                            assert(n >= 0);
                            assert(dec_at(cs@, pos as int, n as u64));
                        }
                    }
                }
                Err(e)
            },
        }
    }
}

/// Reads an exact literal text: the consumed characters are the literal,
/// and an input that carries the literal at the position is always read.
pub fn expect_lit(cs: &Vec<char>, pos: usize, lit: &str) -> (r: Result<usize, Error>)
    ensures
        r matches Ok(j) ==> pos + lit@.len() == j && j <= cs@.len() && cs@.subrange(
            pos as int,
            j as int,
        ) == lit@,
        pos <= cs@.len() && lit@.is_prefix_of(cs@.skip(pos as int)) ==> r is Ok,
{
    let lc = str_chars(lit);
    if cs.len() < lc.len() || pos > cs.len() - lc.len() {
        proof {
            if pos <= cs@.len() && lit@.is_prefix_of(cs@.skip(pos as int)) {
                assert(lit@.len() <= cs@.skip(pos as int).len());
                assert(false);
            }
        }
        return Err(Error::InvalidJsonError(String::new()));
    }
    let mut i: usize = 0;
    while i < lc.len()
        invariant
            lc@ == lit@,
            cs@.len() <= usize::MAX,
            pos + lc@.len() <= cs@.len(),
            i <= lc@.len(),
            forall|k: int| 0 <= k < i ==> cs@[pos + k] == lc@[k],
        decreases lc@.len() - i,
    {
        proof {
            assert(pos + i < cs@.len());
        }
        if cs[pos + i] != lc[i] {
            proof {
                if lit@.is_prefix_of(cs@.skip(pos as int)) {
                    assert(cs@.skip(pos as int)[i as int] == cs@[pos + i]);
                    assert(false);
                }
            }
            return Err(Error::InvalidJsonError(String::new()));
        }
        i = i + 1;
    }
    proof {
        assert(cs@.subrange(pos as int, pos + lc@.len() as int) =~= lit@);
    }
    Ok(pos + lc.len())
}

} // verus!
