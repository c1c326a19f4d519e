//! The versioned derivation pipeline: algorithm tags, the mixing input fed
//! to the key derivation function as its salt, the memory-hard derivation
//! itself, and the XOR folding used for short targets.
//!
//! Algorithms are identified by a stable `"name:version"` tag.  The registry
//! is append-only: the meaning of a tag persisted on a stored credential
//! never changes.

use crate::errors::Error;
use crate::text::ascii_lower;
use crate::text::le_bytes_u64;
use crate::text::push_le_u64;
use crate::text::str_eq;
use crate::text::to_ascii_lower;
use vstd::prelude::*;
use vstd::string::StringExecFns;

verus! {

/// The algorithm registry.  Append-only: new variants may be added, the
/// meaning of an existing tag never changes.
#[derive(Clone, Copy, PartialEq, Eq, Structural, Debug)]
pub enum HashAlgorithm {
    /// `kw_scrypt:v1`: scrypt with log2(N)=10, r=8, p=1, a minimum output
    /// of 10 bytes, and XOR folding below that minimum.
    KwScryptV1,
}

impl Default for HashAlgorithm {
    /// The algorithm used when none is requested.
    fn default() -> (r: Self)
        ensures
            r == HashAlgorithm::KwScryptV1,
    {
        HashAlgorithm::KwScryptV1
    }
}

impl HashAlgorithm {
    /// The algorithm's stable name.
    pub fn name(&self) -> (r: String)
        ensures
            r@ == "kw_scrypt"@,
    {
        String::from_str("kw_scrypt")
    }

    /// The algorithm's version label.
    pub fn version(&self) -> (r: String)
        ensures
            r@ == "v1"@,
    {
        String::from_str("v1")
    }

    /// The full persisted tag, `<name>:<version>`.
    pub fn tag(&self) -> (r: String)
        ensures
            r@ == "kw_scrypt:v1"@,
    {
        String::from_str("kw_scrypt:v1")
    }

    /// Resolves a persisted tag; every unrecognized tag is rejected.
    pub fn from_str(s: &str) -> (r: Result<HashAlgorithm, Error>)
        ensures
            s@ == "kw_scrypt:v1"@ ==> (r matches Ok(a) && a == HashAlgorithm::KwScryptV1),
            s@ != "kw_scrypt:v1"@ ==> (r matches Err(e) && e is InvalidHashFuncVersion),
    {
        if str_eq(s, "kw_scrypt:v1") {
            Ok(HashAlgorithm::KwScryptV1)
        } else {
            Err(Error::InvalidHashFuncVersion)
        }
    }
}

/// The auxiliary salt mixed into the derivation: username bytes, a
/// four-byte little-endian separator marker `@`, the ASCII-lowercased
/// domain bytes, a second marker `r`, and the revision as eight
/// little-endian bytes.  Changing the revision moves every password of the
/// credential to a disjoint family.
pub open spec fn mixing_input(username: Seq<u8>, domain: Seq<u8>, revision: i64) -> Seq<u8> {
    username + seq![64u8, 0u8, 0u8, 0u8] + ascii_lower(domain) + seq![114u8, 0u8, 0u8, 0u8]
        + le_bytes_u64(revision as u64)
}

/// Appends a whole byte string.
pub fn push_bytes(out: &mut Vec<u8>, bytes: &[u8])
    ensures
        final(out)@ == old(out)@ + bytes@,
{
    let mut i: usize = 0;
    while i < bytes.len()
        invariant
            i <= bytes@.len(),
            out@ == old(out)@ + bytes@.take(i as int),
        decreases bytes@.len() - i,
    {
        out.push(bytes[i]);
        proof {
            assert(out@ =~= old(out)@ + bytes@.take(i + 1 as int));
        }
        i = i + 1;
    }
    proof {
        assert(old(out)@ + bytes@.take(bytes@.len() as int) =~= old(out)@ + bytes@);
    }
}

/// Builds the mixing input from the identity fields.
pub fn build_mixing_input(username: &[u8], domain: &[u8], revision: i64) -> (r: Vec<u8>)
    ensures
        r@ == mixing_input(username@, domain@, revision),
{
    let mut buf: Vec<u8> = Vec::new();
    push_bytes(&mut buf, username);
    buf.push(64);
    buf.push(0);
    buf.push(0);
    buf.push(0);
    let lower = to_ascii_lower(domain);
    push_bytes(&mut buf, lower.as_slice());
    buf.push(114);
    buf.push(0);
    buf.push(0);
    buf.push(0);
    let rev: u64 = #[verifier::truncate] (revision as u64);
    push_le_u64(&mut buf, rev);
    proof {
        assert(buf@ =~= mixing_input(username@, domain@, revision));
    }
    buf
}

/// Folding a tail byte string into a base, XORing byte `k` of the tail into
/// position `k mod target` of the base.
pub open spec fn fold_tail(base: Seq<u8>, tail: Seq<u8>, start: int, target: int) -> Seq<u8>
    recommends
        0 < target == base.len(),
        start >= 0,
    decreases tail.len(),
{
    if tail.len() == 0 {
        base
    } else {
        fold_tail(
            base.update(start % target, base[start % target] ^ tail[0]),
            tail.drop_first(),
            start + 1,
            target,
        )
    }
}

/// Folding, not truncating: the first `target` bytes are the base, and every
/// following byte is XORed back in, so the discarded tail's entropy is kept.
pub open spec fn fold_spec(content: Seq<u8>, target: int) -> Seq<u8>
    recommends
        0 < target <= content.len(),
{
    fold_tail(content.take(target), content.skip(target), 0, target)
}

/// Folding never changes the base's length.
proof fn lemma_fold_tail_len(base: Seq<u8>, tail: Seq<u8>, start: int, target: int)
    requires
        0 < target == base.len(),
        start >= 0,
    ensures
        fold_tail(base, tail, start, target).len() == base.len(),
    decreases tail.len(),
{
    if tail.len() > 0 {
        lemma_fold_tail_len(
            base.update(start % target, base[start % target] ^ tail[0]),
            tail.drop_first(),
            start + 1,
            target,
        );
    }
}

/// Folding one more tail byte updates one position of the folded result.
proof fn lemma_fold_tail_snoc(base: Seq<u8>, tail: Seq<u8>, v: u8, start: int, target: int)
    requires
        0 < target == base.len(),
        start >= 0,
    ensures
        ({
            let prev = fold_tail(base, tail, start, target);
            let pos = (start + tail.len()) % target;
            fold_tail(base, tail.push(v), start, target) == prev.update(pos, prev[pos] ^ v)
        }),
    decreases tail.len(),
{
    lemma_fold_tail_len(base, tail, start, target);
    if tail.len() == 0 {
        assert(tail.push(v)[0] == v);
        assert(tail.push(v).drop_first() =~= Seq::<u8>::empty());
        assert(fold_tail(
            base.update(start % target, base[start % target] ^ v),
            Seq::<u8>::empty(),
            start + 1,
            target,
        ) == base.update(start % target, base[start % target] ^ v));
        assert(fold_tail(base, tail.push(v), start, target) == base.update(
            start % target,
            base[start % target] ^ v,
        ));
    } else {
        assert(tail.push(v)[0] == tail[0]);
        assert(tail.push(v).drop_first() =~= tail.drop_first().push(v));
        lemma_fold_tail_snoc(
            base.update(start % target, base[start % target] ^ tail[0]),
            tail.drop_first(),
            v,
            start + 1,
            target,
        );
        assert((start + 1 + tail.drop_first().len()) % target == (start + tail.len()) % target);
    }
}

/// Folds derived bytes down to `target_len` bytes, XOR-mixing the tail.
pub fn fold_bytes(content: &Vec<u8>, target_len: usize) -> (r: Vec<u8>)
    requires
        0 < target_len <= content@.len(),
    ensures
        r@ == fold_spec(content@, target_len as int),
        r@.len() == target_len,
{
    let ghost t = target_len as int;
    let mut out: Vec<u8> = Vec::new();
    let mut i: usize = 0;
    while i < target_len
        invariant
            i <= target_len,
            target_len <= content@.len(),
            out@ == content@.take(t).take(i as int),
            t == target_len as int,
        decreases target_len - i,
    {
        out.push(content[i]);
        proof {
            assert(out@ =~= content@.take(t).take(i + 1 as int));
        }
        i = i + 1;
    }
    proof {
        assert(content@.take(t).take(t) =~= content@.take(t));
        assert(content@.skip(t).take(0) =~= Seq::<u8>::empty());
        assert(out@ == fold_tail(content@.take(t), content@.skip(t).take(0), 0, t));
    }
    let mut k: usize = target_len;
    while k < content.len()
        invariant
            target_len <= k <= content@.len(),
            0 < target_len <= content@.len(),
            t == target_len as int,
            out@.len() == target_len,
            out@ == fold_tail(content@.take(t), content@.skip(t).take(k - t), 0, t),
        decreases content@.len() - k,
    {
        let idx = (k - target_len) % target_len;
        let cur = out[idx];
        let b = content[k];
        out.set(idx, cur ^ b);
        proof {
            let tail = content@.skip(t).take(k - t);
            lemma_fold_tail_snoc(content@.take(t), tail, content@[k as int], 0, t);
            assert(tail.push(content@[k as int]) =~= content@.skip(t).take(k - t + 1));
            lemma_fold_tail_len(content@.take(t), tail, 0, t);
            assert(out@ == fold_tail(content@.take(t), content@.skip(t).take(k - t + 1), 0, t));
        }
        k = k + 1;
    }
    proof {
        assert(content@.skip(t).take(content@.len() - t) =~= content@.skip(t));
        lemma_fold_tail_len(content@.take(t), content@.skip(t), 0, t);
    }
    out
}

/// What the key derivation function returns for a given secret, salt and
/// output length, at the fixed v1 cost parameters.  The value depends on the
/// arguments alone; nothing further is assumed about it.
pub uninterp spec fn kdf_bytes(password: Seq<u8>, salt: Seq<u8>, out_len: nat) -> Seq<u8>;

/// Relies on scrypt::scrypt with the fixed v1 cost parameters log2(N)=10,
/// r=8, p=1.  Params::new accepts these constants unconditionally, and
/// scrypt rejects only an empty or absurdly long output buffer, so with
/// `1 <= out_len <= 64` neither call can fail.  The result is a pure
/// function of the secret, the salt and the requested length.
#[verifier::external_body]
fn scrypt_v1(password: &[u8], salt: &[u8], out_len: usize) -> (r: Vec<u8>)
    requires
        1 <= out_len <= 64,
    ensures
        r@ == kdf_bytes(password@, salt@, out_len as nat),
        r@.len() == out_len,
{
    let params = scrypt::Params::new(10, 8, 1).expect("fixed scrypt parameters are valid");
    let mut output = vec![0u8; out_len];
    scrypt::scrypt(password, salt, &params, &mut output)
        .expect("a non-empty output below the scrypt maximum is accepted");
    output
}

/// The v1 algorithm's minimum derivation length in bytes.
pub open spec fn scrypt_v1_min_len() -> nat {
    10
}

/// The derived bytes for one credential: the KDF output at
/// `max(target_len, 10)` bytes, folded down when the target is shorter.
pub open spec fn hash_output(
    password: Seq<u8>,
    username: Seq<u8>,
    domain: Seq<u8>,
    revision: i64,
    target_len: nat,
) -> Seq<u8> {
    let salt = mixing_input(username, domain, revision);
    if target_len >= scrypt_v1_min_len() {
        kdf_bytes(password, salt, target_len)
    } else {
        fold_spec(kdf_bytes(password, salt, scrypt_v1_min_len()), target_len as int)
    }
}

impl HashAlgorithm {
    /// Runs the derivation for this algorithm: builds the mixing input,
    /// derives `max(target_len, minimum)` bytes, and folds when the target
    /// is below the minimum, so the output length is exactly `target_len`.
    pub fn generate_hash(
        &self,
        password: &[u8],
        username: &[u8],
        domain: &[u8],
        revision: i64,
        target_len: usize,
    ) -> (r: Vec<u8>)
        requires
            1 <= target_len <= 64,
        ensures
            r@ == hash_output(password@, username@, domain@, revision, target_len as nat),
            r@.len() == target_len,
    {
        let salt = build_mixing_input(username, domain, revision);
        if target_len >= 10 {
            scrypt_v1(password, salt.as_slice(), target_len)
        } else {
            let raw = scrypt_v1(password, salt.as_slice(), 10);
            fold_bytes(&raw, target_len)
        }
    }
}

} // verus!
