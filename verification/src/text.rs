//! Small text and byte helpers shared across the library: reading the
//! characters of a string slice, building strings character by character,
//! hexadecimal rendering, and little-endian integer encoding.

use vstd::prelude::*;

verus! {

broadcast use vstd::string::axiom_spec_iter, vstd::string::next_postcondition;

/// Collects the characters of a string slice into a vector.
pub fn str_chars(s: &str) -> (r: Vec<char>)
    ensures
        r@ == s@,
{
    let mut it = s.chars();
    let mut out: Vec<char> = Vec::new();
    loop
        invariant
            out@ + vstd::std_specs::iter::IteratorSpec::remaining(&it) == s@,
        ensures
            out@ == s@,
        decreases s@.len() - out@.len(),
    {
        match it.next() {
            Some(c) => {
                out.push(c);
            },
            None => {
                proof {
                    assert(vstd::std_specs::iter::IteratorSpec::remaining(&it).len() == 0);
                    assert(out@ =~= s@);
                }
                break ;
            },
        }
    }
    out
}

/// Compares two string slices by their characters.
pub fn str_eq(a: &str, b: &str) -> (r: bool)
    ensures
        r == (a@ == b@),
{
    let av = str_chars(a);
    let bv = str_chars(b);
    if av.len() != bv.len() {
        return false;
    }
    let mut i: usize = 0;
    while i < av.len()
        invariant
            av@ == a@,
            bv@ == b@,
            av@.len() == bv@.len(),
            i <= av@.len(),
            forall|k: int| 0 <= k < i ==> av@[k] == bv@[k],
        decreases av@.len() - i,
    {
        if av[i] != bv[i] {
            return false;
        }
        i = i + 1;
    }
    proof {
        assert(av@ =~= bv@);
    }
    true
}

/// Relies on String::push: appends exactly the given character at the end.
#[verifier::external_body]
pub fn push_char(s: &mut String, c: char)
    ensures
        final(s)@ == old(s)@.push(c),
{
    s.push(c);
}

/// Builds a string from a sequence of characters.
pub fn chars_to_string(v: &Vec<char>) -> (r: String)
    ensures
        r@ == v@,
{
    let mut out = String::new();
    let mut i: usize = 0;
    while i < v.len()
        invariant
            i <= v@.len(),
            out@ == v@.take(i as int),
        decreases v@.len() - i,
    {
        push_char(&mut out, v[i]);
        proof {
            assert(out@ =~= v@.take(i + 1 as int));
        }
        i = i + 1;
    }
    proof {
        assert(out@ =~= v@);
    }
    out
}

/// The lowercase hexadecimal digit for a value below sixteen.
pub open spec fn hex_digit(n: u8) -> char
    recommends
        n < 16,
{
    if n < 10 {
        ((n + 48) as u8) as char
    } else {
        ((n + 87) as u8) as char
    }
}

/// Lowercase hexadecimal rendering of a byte sequence, two digits per byte.
pub open spec fn hex_of(bytes: Seq<u8>) -> Seq<char> {
    Seq::new(bytes.len() * 2, |i: int| hex_digit(if i % 2 == 0 { bytes[i / 2] / 16 } else { bytes[i / 2] % 16 }))
}

/// Renders a byte string as lowercase hexadecimal text.
pub fn to_hex(bytes: &Vec<u8>) -> (r: String)
    ensures
        r@ == hex_of(bytes@),
{
    let mut out = String::new();
    let mut i: usize = 0;
    while i < bytes.len()
        invariant
            i <= bytes@.len(),
            out@ == hex_of(bytes@.take(i as int)),
        decreases bytes@.len() - i,
    {
        let b = bytes[i];
        let hi: u8 = b / 16;
        let lo: u8 = b % 16;
        push_char(&mut out, if hi < 10 { (hi + 48) as char } else { (hi + 87) as char });
        push_char(&mut out, if lo < 10 { (lo + 48) as char } else { (lo + 87) as char });
        proof {
            assert(out@ =~= hex_of(bytes@.take(i + 1 as int)));
        }
        i = i + 1;
    }
    proof {
        assert(bytes@.take(bytes@.len() as int) =~= bytes@);
    }
    out
}

/// Byte-wise ASCII lowercasing: only `A`..`Z` change, by adding 32.
pub open spec fn ascii_lower_byte(b: u8) -> u8 {
    if 65 <= b && b <= 90 {
        (b + 32) as u8
    } else {
        b
    }
}

/// Byte-wise ASCII lowercasing of a whole byte sequence.
pub open spec fn ascii_lower(bytes: Seq<u8>) -> Seq<u8> {
    bytes.map(|_i: int, b: u8| ascii_lower_byte(b))
}

/// Lowercases the ASCII letters of a byte string, leaving all other bytes
/// unchanged, as `slice::to_ascii_lowercase` does.
pub fn to_ascii_lower(bytes: &[u8]) -> (r: Vec<u8>)
    ensures
        r@ == ascii_lower(bytes@),
{
    let mut out: Vec<u8> = Vec::new();
    let mut i: usize = 0;
    while i < bytes.len()
        invariant
            i <= bytes@.len(),
            out@ == ascii_lower(bytes@.take(i as int)),
        decreases bytes@.len() - i,
    {
        let b = bytes[i];
        if 65 <= b && b <= 90 {
            out.push(b + 32);
        } else {
            out.push(b);
        }
        proof {
            assert(out@ =~= ascii_lower(bytes@.take(i + 1 as int)));
        }
        i = i + 1;
    }
    proof {
        assert(bytes@.take(bytes@.len() as int) =~= bytes@);
    }
    out
}

/// The views of a sequence of strings, index by index.
pub open spec fn views_of(s: Seq<String>) -> Seq<Seq<char>> {
    Seq::new(s.len(), |i: int| s[i]@)
}

/// Views are stable under push: each old index keeps its view, and the new
/// string's view lands at the end.
pub proof fn lemma_views_of_push(s: Seq<String>, x: String)
    ensures
        views_of(s.push(x)) == views_of(s).push(x@),
{
    assert forall|k: int| 0 <= k < s.len() + 1 implies #[trigger] views_of(s.push(x))[k]
        == views_of(s).push(x@)[k] by {
        if k < s.len() {
            assert(s.push(x)[k] == s[k]);
        } else {
            assert(s.push(x)[k] == x);
        }
    }
    assert(views_of(s.push(x)) =~= views_of(s).push(x@));
}

/// The eight little-endian bytes of a 64-bit value.
pub open spec fn le_bytes_u64(x: u64) -> Seq<u8> {
    Seq::new(8, |i: int| ((x >> (8 * i)) & 0xff) as u8)
}

/// Appends the eight little-endian bytes of a 64-bit value.
pub fn push_le_u64(out: &mut Vec<u8>, x: u64)
    ensures
        final(out)@ == old(out)@ + le_bytes_u64(x),
{
    let mut k: usize = 0;
    while k < 8
        invariant
            k <= 8,
            out@ == old(out)@ + le_bytes_u64(x).take(k as int),
        decreases 8 - k,
    {
        let shift: u64 = (8 * k) as u64;
        let b: u8 = ((x >> shift) & 0xff) as u8;
        out.push(b);
        proof {
            assert(out@ =~= old(out)@ + le_bytes_u64(x).take(k + 1 as int));
        }
        k = k + 1;
    }
    proof {
        assert(le_bytes_u64(x).take(8) =~= le_bytes_u64(x));
    }
}

} // verus!
