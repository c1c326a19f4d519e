//! A password recipe library: passwords are regenerated on demand from a
//! master passphrase plus per-credential metadata, instead of being stored.
//!
//! The library has four parts: a small expression language describing the
//! symbols a password may use (`charset`), a versioned derivation pipeline
//! around a memory-hard key derivation function (`hash` and
//! [`generate_password`]), a profile store whose search index never diverges
//! from its rows (`profile`), and a signed, sectioned backup format
//! (`profile::backup`).

use vstd::prelude::*;
use vstd::string::StringExecFns;

pub mod charset;
pub mod encode;
pub mod errors;
pub mod hash;
pub mod json;
pub mod profile;
pub mod tags;
pub mod text;

use crate::charset::chars_set;
use crate::charset::sorted_unique;
use crate::charset::symbols_of;
use crate::charset::transform_spec;
use crate::charset::Charset;
use crate::errors::Error;
use crate::errors::ValidationError;
use crate::hash::hash_output;
use crate::hash::HashAlgorithm;
use crate::text::push_char;

verus! {

/// Whether `c` counts as trimmable whitespace: the ASCII blanks.
pub open spec fn is_blank_char(c: char) -> bool {
    c == ' ' || (9 <= c as u32 && c as u32 <= 13)
}

/// Whether a text is empty after trimming whitespace.
pub open spec fn is_blank(s: Seq<char>) -> bool {
    forall|i: int| 0 <= i < s.len() ==> is_blank_char(s[i])
}

/// Whether a text is empty after trimming whitespace.
fn str_is_blank(s: &str) -> (r: bool)
    ensures
        r == is_blank(s@),
{
    let cs = crate::text::str_chars(s);
    let mut i: usize = 0;
    while i < cs.len()
        invariant
            cs@ == s@,
            i <= cs@.len(),
            forall|k: int| 0 <= k < i ==> is_blank_char(cs@[k]),
        decreases cs@.len() - i,
    {
        let c = cs[i];
        let code = c as u32;
        if !(c == ' ' || (9 <= code && code <= 13)) {
            return false;
        }
        i = i + 1;
    }
    true
}

/// One derivation request: the identity fields, the passphrase, the charset
/// expression, the revision, and the requested output length.  Never
/// persisted.
pub struct PasswordConfig<'a> {
    pub domain: &'a str,
    pub password: &'a str,
    pub username: &'a str,
    pub charset: &'a str,
    pub revision: i64,
    pub target_len: usize,
}

/// Every rule a configuration violates, in a fixed order, one entry per
/// violated rule: the target length must lie in `1..=64`; domain,
/// passphrase and username must be non-empty after trimming; the charset
/// expression must be non-empty and must parse.
pub open spec fn config_violations(
    domain: Seq<char>,
    password: Seq<char>,
    username: Seq<char>,
    charset: Seq<char>,
    target_len: nat,
) -> Seq<ValidationError> {
    (if target_len < 1 || target_len > 64 {
        seq![ValidationError::InvalidTargetLength]
    } else {
        Seq::empty()
    }) + (if is_blank(domain) {
        seq![ValidationError::EmptyDomain]
    } else {
        Seq::empty()
    }) + (if is_blank(password) {
        seq![ValidationError::EmptyPassword]
    } else {
        Seq::empty()
    }) + (if is_blank(username) {
        seq![ValidationError::EmptyUsername]
    } else {
        Seq::empty()
    }) + (if charset.len() == 0 {
        seq![ValidationError::EmptyCharset]
    } else if symbols_of(charset) is None {
        seq![ValidationError::InvalidCharset]
    } else {
        Seq::empty()
    })
}

/// Validation completeness: the report lists exactly one entry per violated
/// rule, so a configuration violating N independent rules yields exactly N
/// errors.
pub proof fn lemma_validation_completeness(
    domain: Seq<char>,
    password: Seq<char>,
    username: Seq<char>,
    charset: Seq<char>,
    target_len: nat,
)
    ensures
        config_violations(domain, password, username, charset, target_len).len() == (if target_len
            < 1 || target_len > 64 {
            1int
        } else {
            0int
        }) + (if is_blank(domain) {
            1int
        } else {
            0int
        }) + (if is_blank(password) {
            1int
        } else {
            0int
        }) + (if is_blank(username) {
            1int
        } else {
            0int
        }) + (if charset.len() == 0 || symbols_of(charset) is None {
            1int
        } else {
            0int
        }),
{
}

/// Collects every violated rule of a derivation request.
pub fn validate_password_config(config: &PasswordConfig) -> (r: Vec<ValidationError>)
    ensures
        r@ == config_violations(
            config.domain@,
            config.password@,
            config.username@,
            config.charset@,
            config.target_len as nat,
        ),
{
    let mut errors: Vec<ValidationError> = Vec::new();
    if config.target_len < 1 || config.target_len > 64 {
        errors.push(ValidationError::InvalidTargetLength);
    }
    if str_is_blank(config.domain) {
        errors.push(ValidationError::EmptyDomain);
    }
    if str_is_blank(config.password) {
        errors.push(ValidationError::EmptyPassword);
    }
    if str_is_blank(config.username) {
        errors.push(ValidationError::EmptyUsername);
    }
    if config.charset.is_empty() {
        errors.push(ValidationError::EmptyCharset);
    } else {
        match crate::charset::parse_table(config.charset) {
            Ok(_) => (),
            Err(_) => {
                errors.push(ValidationError::InvalidCharset);
            },
        }
    }
    proof {
        assert(errors@ =~= config_violations(
            config.domain@,
            config.password@,
            config.username@,
            config.charset@,
            config.target_len as nat,
        ));
    }
    errors
}

/// One derived password with the algorithm tag that produced it.
pub struct PasswordResult {
    pub pass: String,
    pub alg: String,
    pub ver: String,
}

/// The unique strictly sorted table holding exactly the given symbols.
pub open spec fn table_of(syms: Set<char>) -> Seq<char> {
    choose|t: Seq<char>| sorted_unique(t) && chars_set(t) == syms
}

/// The whole pipeline as one function of the request: parse the charset,
/// derive the bytes, transform them through the table.  Meaningful when the
/// request passes validation.
pub open spec fn generated_password(
    domain: Seq<char>,
    password: Seq<char>,
    username: Seq<char>,
    charset: Seq<char>,
    revision: i64,
    target_len: nat,
) -> Seq<char> {
    transform_spec(
        table_of(symbols_of(charset)->Some_0),
        hash_output(
            vstd::utf8::encode_utf8(password),
            vstd::utf8::encode_utf8(username),
            vstd::utf8::encode_utf8(domain),
            revision,
            target_len,
        ),
    )
}

/// Determinism: any two passwords derived from one configuration are
/// byte-identical, because both equal the one value of
/// [`generated_password`] at that configuration.
pub proof fn lemma_generation_deterministic(
    pass1: Seq<char>,
    pass2: Seq<char>,
    domain: Seq<char>,
    password: Seq<char>,
    username: Seq<char>,
    charset: Seq<char>,
    revision: i64,
    target_len: nat,
)
    requires
        pass1 == generated_password(domain, password, username, charset, revision, target_len),
        pass2 == generated_password(domain, password, username, charset, revision, target_len),
    ensures
        pass1 == pass2,
{
}

/// Derives a password.  Every violated validation rule is reported at once;
/// a valid request always succeeds, with the password pinned to
/// [`generated_password`] and the algorithm tag echoed in the result.
pub fn generate_password(config: PasswordConfig, algorithm: HashAlgorithm) -> (r: Result<
    PasswordResult,
    Error,
>)
    ensures
        ({
            let violations = config_violations(
                config.domain@,
                config.password@,
                config.username@,
                config.charset@,
                config.target_len as nat,
            );
            match r {
                Ok(res) => {
                    &&& violations.len() == 0
                    &&& res.pass@.len() == config.target_len
                    &&& res.pass@ == generated_password(
                        config.domain@,
                        config.password@,
                        config.username@,
                        config.charset@,
                        config.revision,
                        config.target_len as nat,
                    )
                    &&& res.alg@ == "kw_scrypt"@
                    &&& res.ver@ == "v1"@
                },
                Err(e) => {
                    &&& violations.len() > 0
                    &&& e matches Error::ValidationError(list) && list@ == violations
                },
            }
        }),
{
    let errors = validate_password_config(&config);
    if errors.len() > 0 {
        return Err(Error::ValidationError(errors));
    }
    let cs = match Charset::new(config.charset) {
        Ok(cs) => cs,
        Err(e) => {
            proof {
                assert(false);
            }
            return Err(Error::ValidationError(Vec::new()));
        },
    };
    let ghost syms = symbols_of(config.charset@)->Some_0;
    proof {
        assert(sorted_unique(cs@) && chars_set(cs@) == syms);
        assert(sorted_unique(table_of(syms)) && chars_set(table_of(syms)) == syms);
        crate::charset::lemma_sorted_unique_set_equal(cs@, table_of(syms));
    }
    let hash = algorithm.generate_hash(
        config.password.as_bytes(),
        config.username.as_bytes(),
        config.domain.as_bytes(),
        config.revision,
        config.target_len,
    );
    let pass = cs.transform_bytes(hash.as_slice());
    Ok(PasswordResult { pass, alg: algorithm.name(), ver: algorithm.version() })
}

/// The compact tag format: `$<alg>$v=<ver>$<pass>`.
pub open spec fn phc_of(alg: Seq<char>, ver: Seq<char>, pass: Seq<char>) -> Seq<char> {
    seq!['$'] + alg + seq!['$', 'v', '='] + ver + seq!['$'] + pass
}

impl PasswordResult {
    /// Renders the result in the compact tag format; pure formatting, the
    /// derivation is never re-run.
    pub fn to_phc(self) -> (r: String)
        ensures
            r@ == phc_of(self.alg@, self.ver@, self.pass@),
    {
        let mut out = String::new();
        push_char(&mut out, '$');
        out.append(self.alg.as_str());
        push_char(&mut out, '$');
        push_char(&mut out, 'v');
        push_char(&mut out, '=');
        out.append(self.ver.as_str());
        push_char(&mut out, '$');
        out.append(self.pass.as_str());
        proof {
            assert(out@ =~= phc_of(self.alg@, self.ver@, self.pass@));
        }
        out
    }
}

} // verus!
