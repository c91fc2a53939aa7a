use ring_lwe::api::{decrypt_message, encrypt_message, generate_keys};
use ring_lwe::params::{CustomParameters, DecryptRequest, EncryptRequest};
use ring_lwe::LweError;

#[test]
fn request_round_trip_with_default_parameters() {
    let (keys, info) = generate_keys(&None, Some(31)).unwrap();
    assert_eq!(info.n, 512);
    assert_eq!(info.q, 12289);
    assert_eq!(info.t, 2);
    let enc_req = EncryptRequest {
        public_key: keys.public.clone(),
        message: String::from("request round trip"),
        parameters: None,
    };
    let ciphertext = encrypt_message(&enc_req, Some(32)).unwrap();
    let dec_req = DecryptRequest {
        secret_key: keys.secret.clone(),
        ciphertext,
        parameters: None,
    };
    let plain = decrypt_message(&dec_req).unwrap();
    assert_eq!(plain, "request round trip");
}

#[test]
fn request_round_trip_with_custom_parameters() {
    let overrides = Some(CustomParameters {
        n: Some(64),
        q: Some(3329),
        t: Some(2),
    });
    let (keys, info) = generate_keys(&overrides, Some(41)).unwrap();
    assert_eq!(info.n, 64);
    assert_eq!(info.q, 3329);
    assert_eq!(info.t, 2);
    let enc_req = EncryptRequest {
        public_key: keys.public.clone(),
        message: String::from("tiny"),
        parameters: Some(CustomParameters {
            n: Some(64),
            q: Some(3329),
            t: Some(2),
        }),
    };
    let ciphertext = encrypt_message(&enc_req, Some(42)).unwrap();
    let dec_req = DecryptRequest {
        secret_key: keys.secret.clone(),
        ciphertext,
        parameters: Some(CustomParameters {
            n: Some(64),
            q: Some(3329),
            t: Some(2),
        }),
    };
    let plain = decrypt_message(&dec_req).unwrap();
    assert_eq!(plain, "tiny");
}

#[test]
fn request_error_kinds_match_the_engine() {
    let (keys, _) = generate_keys(&None, Some(61)).unwrap();
    // a malformed public key fails with ParseError
    let bad_key = EncryptRequest {
        public_key: String::from("not a key"),
        message: String::from("hi"),
        parameters: None,
    };
    match encrypt_message(&bad_key, None) {
        Err(LweError::ParseError) => {}
        other => panic!("expected ParseError, got {:?}", other),
    }
    // a message one byte over the 64-byte capacity fails with EncodingError
    let too_long = EncryptRequest {
        public_key: keys.public.clone(),
        message: "x".repeat(65),
        parameters: None,
    };
    match encrypt_message(&too_long, None) {
        Err(LweError::EncodingError) => {}
        other => panic!("expected EncodingError, got {:?}", other),
    }
    // a malformed ciphertext fails with ParseError
    let bad_ct = DecryptRequest {
        secret_key: keys.secret.clone(),
        ciphertext: String::from("9"),
        parameters: None,
    };
    match decrypt_message(&bad_ct) {
        Err(LweError::ParseError) => {}
        other => panic!("expected ParseError, got {:?}", other),
    }
}

#[test]
fn request_with_invalid_overrides_fails_before_sampling() {
    let overrides = Some(CustomParameters {
        n: Some(10),
        q: None,
        t: None,
    });
    match generate_keys(&overrides, None) {
        Err(LweError::ParameterError) => {}
        _ => panic!("expected ParameterError"),
    }
    let enc_req = EncryptRequest {
        public_key: String::new(),
        message: String::new(),
        parameters: Some(CustomParameters {
            n: None,
            q: Some(1),
            t: None,
        }),
    };
    match encrypt_message(&enc_req, None) {
        Err(LweError::ParameterError) => {}
        _ => panic!("expected ParameterError"),
    }
}
