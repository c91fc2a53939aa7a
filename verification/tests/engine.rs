use ring_lwe::params::{CustomParameters, Parameters};
use ring_lwe::ring::RingElement;
use ring_lwe::keygen::{generate, keygen_string};
use ring_lwe::encrypt::encrypt_string;
use ring_lwe::decrypt::decrypt_string;
use ring_lwe::LweError;

fn toy_params() -> Parameters {
    Parameters { n: 4, q: 97, t: 2 }
}

#[test]
fn default_parameters_are_valid() {
    let p = Parameters::default();
    assert_eq!(p.n, 512);
    assert_eq!(p.q, 12289);
    assert_eq!(p.t, 2);
    assert!(p.validate().is_ok());
}

#[test]
fn invalid_parameters_are_rejected() {
    assert_eq!(
        Parameters { n: 3, q: 97, t: 2 }.validate(),
        Err(LweError::ParameterError)
    );
    assert_eq!(
        Parameters { n: 4, q: 2, t: 2 }.validate(),
        Err(LweError::ParameterError)
    );
    assert_eq!(
        Parameters { n: 4, q: 97, t: 1 }.validate(),
        Err(LweError::ParameterError)
    );
    assert_eq!(
        Parameters { n: 0, q: 97, t: 2 }.validate(),
        Err(LweError::ParameterError)
    );
}

#[test]
fn generate_rejects_invalid_parameters_with_parameter_error() {
    let bad = Parameters { n: 6, q: 97, t: 2 };
    match generate(&bad, Some(1)) {
        Err(LweError::ParameterError) => {}
        _ => panic!("expected ParameterError"),
    }
}

#[test]
fn custom_parameters_overlay_defaults() {
    let overrides = CustomParameters {
        n: Some(16),
        q: None,
        t: Some(4),
    };
    let p = overrides.apply(&Parameters::default());
    assert_eq!(p.n, 16);
    assert_eq!(p.q, 12289);
    assert_eq!(p.t, 4);
}

#[test]
fn seeded_generation_is_reproducible_on_toy_parameters() {
    let p = toy_params();
    let k1 = keygen_string(&p, Some(12345)).unwrap();
    let k2 = keygen_string(&p, Some(12345)).unwrap();
    assert_eq!(k1.public, k2.public);
    assert_eq!(k1.secret, k2.secret);
    // a different seed gives a different pair
    let k3 = keygen_string(&p, Some(54321)).unwrap();
    assert_ne!(k1.public, k3.public);
}

#[test]
fn unseeded_generation_is_fresh() {
    let p = Parameters::default();
    let k1 = keygen_string(&p, None).unwrap();
    let k2 = keygen_string(&p, None).unwrap();
    assert_ne!(k1.public, k2.public);
    assert_ne!(k1.secret, k2.secret);
}

#[test]
fn round_trip_default_parameters() {
    let p = Parameters::default();
    let keys = keygen_string(&p, Some(7)).unwrap();
    let message = "post-quantum hello";
    let ct = encrypt_string(&keys.public, message, &p, Some(99)).unwrap();
    let back = decrypt_string(&keys.secret, &ct, &p).unwrap();
    assert_eq!(back, message);
}

#[test]
fn round_trip_unseeded() {
    let p = Parameters::default();
    let keys = keygen_string(&p, None).unwrap();
    let message = "fresh randomness";
    let ct = encrypt_string(&keys.public, message, &p, None).unwrap();
    let back = decrypt_string(&keys.secret, &ct, &p).unwrap();
    assert_eq!(back, message);
}

#[test]
fn round_trip_empty_message() {
    let p = Parameters::default();
    let keys = keygen_string(&p, Some(3)).unwrap();
    let ct = encrypt_string(&keys.public, "", &p, Some(4)).unwrap();
    let back = decrypt_string(&keys.secret, &ct, &p).unwrap();
    assert_eq!(back, "");
}

#[test]
fn boundary_message_length() {
    let p = Parameters::default();
    // one bit per coefficient: 512 / 8 = 64 bytes exactly fit
    let keys = keygen_string(&p, Some(11)).unwrap();
    let max_message: String = "x".repeat(64);
    let ct = encrypt_string(&keys.public, &max_message, &p, Some(12)).unwrap();
    let back = decrypt_string(&keys.secret, &ct, &p).unwrap();
    assert_eq!(back, max_message);
    // one byte longer must fail with EncodingError
    let too_long: String = "x".repeat(65);
    match encrypt_string(&keys.public, &too_long, &p, Some(12)) {
        Err(LweError::EncodingError) => {}
        _ => panic!("expected EncodingError"),
    }
}

#[test]
fn wrong_key_never_panics() {
    let p = Parameters::default();
    let k1 = keygen_string(&p, Some(21)).unwrap();
    let k2 = keygen_string(&p, Some(22)).unwrap();
    let ct = encrypt_string(&k1.public, "secret text", &p, Some(23)).unwrap();
    // decrypting with a mismatched secret gives some well-shaped text
    // or a DecodingError, never a panic
    match decrypt_string(&k2.secret, &ct, &p) {
        Ok(_) => {}
        Err(e) => assert_eq!(e, LweError::DecodingError),
    }
}

#[test]
fn element_serialization_round_trip() {
    let p = Parameters { n: 4, q: 12289, t: 2 };
    let e = RingElement::from_coeffs(&p, &vec![0, 1, 12288, 54]).unwrap();
    let s = ring_lwe::codec::encode_element(&p, &e);
    assert_eq!(s, "00000000011228800054");
    let back = ring_lwe::codec::parse_element(&p, &s).unwrap();
    assert_eq!(back.coeffs, e.coeffs);
}

#[test]
fn parse_errors_on_malformed_strings() {
    let p = toy_params();
    let keys = keygen_string(&p, Some(5)).unwrap();
    // wrong length
    match decrypt_string("123", "456", &p) {
        Err(LweError::ParseError) => {}
        _ => panic!("expected ParseError"),
    }
    // non-digit characters in a secret of the right length (4 * 5 chars)
    match decrypt_string("000a1000021000031000x", &keys.public, &p) {
        Err(LweError::ParseError) => {}
        _ => panic!("expected ParseError"),
    }
    // a coefficient at or above q = 97
    let bad_secret = "00097000010000100001";
    match decrypt_string(bad_secret, &keys.public, &p) {
        Err(LweError::ParseError) => {}
        _ => panic!("expected ParseError"),
    }
}

#[test]
fn decoding_error_on_non_bit_coefficients() {
    // n = 8, q = 97, t = 4: a zero secret makes the recovered value the
    // rounding of c2 itself; coefficient 48 rounds to 2, which is not a bit
    let p = Parameters { n: 8, q: 97, t: 4 };
    let zero_secret = "00000".repeat(8);
    let c1 = "00000".repeat(8);
    let c2 = "00048".repeat(8);
    let ct = format!("{}{}", c1, c2);
    match decrypt_string(&zero_secret, &ct, &p) {
        Err(LweError::DecodingError) => {}
        other => panic!("expected DecodingError, got {:?}", other),
    }
}

#[test]
fn decoding_error_on_invalid_utf8() {
    // n = 8, q = 97, t = 2: coefficient 48 rounds to bit 1, so all eight
    // bits are 1 and the single recovered byte 0xFF is not UTF-8
    let p = Parameters { n: 8, q: 97, t: 2 };
    let zero_secret = "00000".repeat(8);
    let c1 = "00000".repeat(8);
    let c2 = "00048".repeat(8);
    let ct = format!("{}{}", c1, c2);
    match decrypt_string(&zero_secret, &ct, &p) {
        Err(LweError::DecodingError) => {}
        other => panic!("expected DecodingError, got {:?}", other),
    }
}

#[test]
fn ring_arithmetic_shape_errors() {
    let p = toy_params();
    let good = RingElement {
        coeffs: vec![1, 2, 3, 4],
    };
    let short = RingElement {
        coeffs: vec![1, 2, 3],
    };
    match good.add(&p, &short) {
        Err(LweError::ShapeError) => {}
        _ => panic!("expected ShapeError"),
    }
    match short.mul(&p, &good) {
        Err(LweError::ShapeError) => {}
        _ => panic!("expected ShapeError"),
    }
    match good.sub(&p, &short) {
        Err(LweError::ShapeError) => {}
        _ => panic!("expected ShapeError"),
    }
    assert!(good.add(&p, &good).is_ok());
}

#[test]
fn ring_arithmetic_exact_values() {
    let p = toy_params();
    // (1 + 2x) * x = x + 2x^2 in Z_97[x]/(x^4 + 1)
    let a = RingElement {
        coeffs: vec![1, 2, 0, 0],
    };
    let x = RingElement {
        coeffs: vec![0, 1, 0, 0],
    };
    let prod = a.mul(&p, &x).unwrap();
    assert_eq!(prod.coeffs, vec![0, 1, 2, 0]);
    // the negacyclic wrap: x^3 * x = x^4 = -1 = 96 mod 97
    let x3 = RingElement {
        coeffs: vec![0, 0, 0, 1],
    };
    let wrapped = x3.mul(&p, &x).unwrap();
    assert_eq!(wrapped.coeffs, vec![96, 0, 0, 0]);
    let sum = a.add(&p, &x).unwrap();
    assert_eq!(sum.coeffs, vec![1, 3, 0, 0]);
    let diff = x.sub(&p, &a).unwrap();
    assert_eq!(diff.coeffs, vec![96, 96, 0, 0]);
}

#[test]
fn from_coeffs_normalizes_into_canonical_range() {
    let p = toy_params();
    let e = RingElement::from_coeffs(&p, &vec![-1, 97, 98, -98]).unwrap();
    assert_eq!(e.coeffs, vec![96, 0, 1, 96]);
    match RingElement::from_coeffs(&p, &vec![1, 2]) {
        Err(LweError::ShapeError) => {}
        _ => panic!("expected ShapeError"),
    }
}

#[test]
fn seeded_generation_matches_the_documented_stream() {
    // computed independently from the documented sampling algorithm:
    // state = seed % 2147483646 + 1, stepped as state * 48271 mod
    // 2147483647; draws in the order s, a, e; a small draw d = state
    // mod 3 stores d, or q - (d - 1) when d = 2; a uniform draw stores
    // state mod q; b = a*s + e in Z_97[x]/(x^4 + 1)
    let p = toy_params();
    let keys = keygen_string(&p, Some(7)).unwrap();
    assert_eq!(keys.secret, "00096000000009600001");
    assert_eq!(keys.public, "0002400031000940008500038000560008700005");
}

#[test]
fn seeded_encryption_matches_the_documented_stream() {
    // the ephemerals u, e1, e2 come from seed 9's stream in that
    // order; with an empty message both components carry noise only
    let p = toy_params();
    let keys = keygen_string(&p, Some(7)).unwrap();
    let ct = encrypt_string(&keys.public, "", &p, Some(9)).unwrap();
    assert_eq!(ct, "0005600029000820006000094000470009300064");
}

#[test]
fn keygen_string_shapes() {
    let p = toy_params();
    let keys = keygen_string(&p, Some(1)).unwrap();
    // public encodes (a, b): 2 * 4 coefficients of 5 digits each
    assert_eq!(keys.public.len(), 40);
    // secret encodes s: 4 coefficients
    assert_eq!(keys.secret.len(), 20);
    assert!(keys.public.chars().all(|c| c.is_ascii_digit()));
    assert!(keys.secret.chars().all(|c| c.is_ascii_digit()));
}
