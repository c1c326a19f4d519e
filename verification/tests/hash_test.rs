use keywich_lib::errors::Error;
use keywich_lib::hash::HashAlgorithm;
use keywich_lib::{generate_password, PasswordConfig};

#[test]
fn kwscrypt_basic_password_test() {
    let config = PasswordConfig {
        charset: "a..z",
        target_len: 12,
        password: "test",
        username: "john",
        domain: "acme",
        revision: 1,
    };

    let result = generate_password(config, HashAlgorithm::KwScryptV1).unwrap();

    assert_eq!("crofpiqowbnl", &result.pass);
    assert_eq!(12, result.pass.len());
}

#[test]
fn invalid_config_test() {
    let config = PasswordConfig {
        charset: "",
        target_len: 65,
        password: "",
        username: "",
        domain: "",
        revision: 1,
    };

    if let Err(Error::ValidationError(validation_errors)) =
        generate_password(config, HashAlgorithm::KwScryptV1)
    {
        assert_eq!(5, validation_errors.len())
    } else {
        assert!(false);
    }
}

#[test]
fn kwscrypt_revision_test() {
    let config_a = PasswordConfig {
        charset: "a..z",
        target_len: 12,
        password: "test",
        username: "john",
        domain: "acme",
        revision: 1,
    };

    let config_b = PasswordConfig {
        charset: "a..z",
        target_len: 12,
        password: "test",
        username: "john",
        domain: "acme",
        revision: 2,
    };

    let result_a = generate_password(config_a, HashAlgorithm::KwScryptV1).unwrap();
    let result_b = generate_password(config_b, HashAlgorithm::KwScryptV1).unwrap();

    assert_eq!("crofpiqowbnl", &result_a.pass);
    assert_eq!("cuudxgkeiihw", &result_b.pass);
}

#[test]
fn kwscrypt_short_password_test() {
    let config = PasswordConfig {
        charset: "a..z",
        target_len: 4,
        password: "test",
        username: "john",
        domain: "acme",
        revision: 1,
    };

    let result = generate_password(config, HashAlgorithm::KwScryptV1).unwrap();

    assert_eq!(4, result.pass.len());
    assert_eq!("decx", &result.pass);
}

#[test]
fn kwscrypt_base64_test() {
    let config = PasswordConfig {
        charset: "a..z",
        target_len: 12,
        password: "test",
        username: "john",
        domain: "acme",
        revision: 1,
    };

    let pass = generate_password(config, HashAlgorithm::KwScryptV1).unwrap();
    let base64_string = pass.to_base64();

    assert_eq!("Y3JvZnBpcW93Ym5s", &base64_string);
}

#[test]
fn kwscrypt_json_test() {
    let config = PasswordConfig {
        charset: "a..z",
        target_len: 12,
        password: "test",
        username: "john",
        domain: "acme",
        revision: 1,
    };

    let pass = generate_password(config, HashAlgorithm::KwScryptV1).unwrap();
    let json_text = pass.to_json();

    assert!(json_text.is_ok());
}

#[test]
fn kwscrypt_qr_test() {
    let config = PasswordConfig {
        charset: "a..z",
        target_len: 12,
        password: "test",
        username: "john",
        domain: "acme",
        revision: 1,
    };

    let pass = generate_password(config, HashAlgorithm::KwScryptV1).unwrap();
    let qr = pass.to_qr();

    assert!(qr.is_ok());
}

#[test]
fn kwscrypt_phc_test() {
    let config = PasswordConfig {
        charset: "a..z",
        target_len: 12,
        password: "test",
        username: "john",
        domain: "acme",
        revision: 1,
    };

    let pass = generate_password(config, HashAlgorithm::KwScryptV1).unwrap();
    let phc_text = pass.to_phc();

    assert_eq!("$kw_scrypt$v=v1$crofpiqowbnl", &phc_text);
}

#[test]
fn json_encoding_is_exact() {
    let config = PasswordConfig {
        charset: "a..z",
        target_len: 12,
        password: "test",
        username: "john",
        domain: "acme",
        revision: 1,
    };

    let pass = generate_password(config, HashAlgorithm::KwScryptV1).unwrap();
    let json_text = pass.to_json().unwrap();

    assert_eq!(
        "{\"pass\":\"crofpiqowbnl\",\"alg\":\"kw_scrypt\",\"ver\":\"v1\"}",
        &json_text
    );
}

#[test]
fn determinism_same_config_same_password() {
    let make = || PasswordConfig {
        charset: "a..zA..Z0..9",
        target_len: 32,
        password: "master passphrase",
        username: "user",
        domain: "Example.COM",
        revision: 7,
    };
    let a = generate_password(make(), HashAlgorithm::KwScryptV1).unwrap();
    let b = generate_password(make(), HashAlgorithm::KwScryptV1).unwrap();
    assert_eq!(a.pass, b.pass);
}

#[test]
fn domain_case_does_not_matter() {
    let make = |domain: &'static str| PasswordConfig {
        charset: "a..z",
        target_len: 12,
        password: "test",
        username: "john",
        domain,
        revision: 1,
    };
    let lower = generate_password(make("acme"), HashAlgorithm::KwScryptV1).unwrap();
    let upper = generate_password(make("ACME"), HashAlgorithm::KwScryptV1).unwrap();
    assert_eq!(lower.pass, upper.pass);
}

#[test]
fn algorithm_tag_round_trip() {
    let alg = HashAlgorithm::from_str("kw_scrypt:v1").unwrap();
    assert_eq!("kw_scrypt:v1", alg.tag().as_str());
    assert_eq!("kw_scrypt", alg.name().as_str());
    assert_eq!("v1", alg.version().as_str());
}

#[test]
fn unknown_algorithm_tag_is_rejected() {
    let r = HashAlgorithm::from_str("kw_scrypt:v2");
    assert!(matches!(r, Err(Error::InvalidHashFuncVersion)));
}

#[test]
fn blank_fields_are_rejected_after_trim() {
    let config = PasswordConfig {
        charset: "a..z",
        target_len: 12,
        password: "   ",
        username: "john",
        domain: "acme",
        revision: 1,
    };
    if let Err(Error::ValidationError(errors)) =
        generate_password(config, HashAlgorithm::KwScryptV1)
    {
        assert_eq!(1, errors.len());
    } else {
        assert!(false);
    }
}
