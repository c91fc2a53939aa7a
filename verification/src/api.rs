//! The operation behind each API request: lay the requested overrides
//! over the default configuration and run the engine. What surrounds
//! these calls - transport, identifiers, timestamps - belongs to the
//! callers, which hand in and take back plain values.

use vstd::prelude::*;
use vstd::utf8::encode_utf8;
use crate::LweError;
use crate::params::{
    CustomParameters, ParametersInfo, EncryptRequest, DecryptRequest, spec_requested,
    requested_parameters,
};
use crate::keygen::{KeyPairStrings, keygen_string};
use crate::encrypt::encrypt_string;
use crate::decrypt::decrypt_string;
use crate::codec::{elem_bytes_ok, pair_bytes_ok};

verus! {

/// Generates a key pair under the requested configuration. Fails with
/// ParameterError exactly when the requested overrides make the
/// configuration invalid.
pub fn generate_keys(overrides: &Option<CustomParameters>, seed: Option<u64>) -> (r: Result<
    (KeyPairStrings, ParametersInfo),
    LweError,
>)
    ensures
        r is Ok <==> spec_requested(*overrides).valid(),
        r is Err ==> r->Err_0 == LweError::ParameterError,
        r is Ok ==> {
            let p = spec_requested(*overrides);
            r->Ok_0.1.n == p.n && r->Ok_0.1.q == p.q && r->Ok_0.1.t == p.t
        },
        r is Ok ==> {
            let p = spec_requested(*overrides);
            exists|kp: crate::keygen::KeyPair|
                {
                    &&& #[trigger] kp.wf(p)
                    &&& crate::sampler::is_small(
                        kp.secret@,
                        crate::keygen::NOISE_BOUND as int,
                        p.q as int,
                    )
                    &&& exists|e: Seq<int>|
                        #[trigger] crate::sampler::is_small(
                            e,
                            crate::keygen::NOISE_BOUND as int,
                            p.q as int,
                        ) && e.len() == p.n && kp.public.b@ == crate::ring::ring_add(
                            crate::ring::ring_mul(kp.public.a@, kp.secret@, p.q as int),
                            e,
                            p.q as int,
                        )
                    &&& encode_utf8(r->Ok_0.0.public@) == crate::codec::elem_bytes(kp.public.a@)
                        + crate::codec::elem_bytes(kp.public.b@)
                    &&& encode_utf8(r->Ok_0.0.secret@) == crate::codec::elem_bytes(kp.secret@)
                    &&& (seed is Some ==> kp.secret@ == crate::keygen::spec_keygen_s(p, seed->0)
                        && kp.public.a@ == crate::keygen::spec_keygen_a(p, seed->0)
                        && kp.public.b@ == crate::keygen::spec_keygen_b(p, seed->0))
                }
        },
{
    let params = requested_parameters(overrides);
    let keys = match keygen_string(&params, seed) {
        Ok(keys) => keys,
        Err(err) => {
            return Err(err);
        },
    };
    Ok((keys, params.info()))
}

/// Encrypts the request's message under the request's public key and
/// configuration. Fails with ParameterError on invalid overrides,
/// ParseError on a malformed key, EncodingError on a message too long.
pub fn encrypt_message(req: &EncryptRequest, seed: Option<u64>) -> (r: Result<String, LweError>)
    ensures
        r is Ok <==> {
            let p = spec_requested(req.parameters);
            &&& p.valid()
            &&& pair_bytes_ok(encode_utf8(req.public_key@), p.n as int, p.q as int)
            &&& 8 * encode_utf8(req.message@).len() <= p.n
        },
        !spec_requested(req.parameters).valid() ==> r == Result::<String, LweError>::Err(
            LweError::ParameterError,
        ),
        spec_requested(req.parameters).valid() && !pair_bytes_ok(
            encode_utf8(req.public_key@),
            spec_requested(req.parameters).n as int,
            spec_requested(req.parameters).q as int,
        ) ==> r == Result::<String, LweError>::Err(LweError::ParseError),
        spec_requested(req.parameters).valid() && pair_bytes_ok(
            encode_utf8(req.public_key@),
            spec_requested(req.parameters).n as int,
            spec_requested(req.parameters).q as int,
        ) && 8 * encode_utf8(req.message@).len() > spec_requested(req.parameters).n ==> r
            == Result::<String, LweError>::Err(LweError::EncodingError),
        r is Ok ==> {
            let p = spec_requested(req.parameters);
            exists|ct: crate::encrypt::Ciphertext|
                {
                    let a = crate::codec::elem_coeffs(
                        encode_utf8(req.public_key@).subrange(0, 5 * p.n),
                    );
                    let b = crate::codec::elem_coeffs(
                        encode_utf8(req.public_key@).subrange(5 * p.n, 10 * p.n),
                    );
                    let m = crate::codec::msg_coeffs(encode_utf8(req.message@), p.n as int);
                    &&& #[trigger] ct.wf(p)
                    &&& encode_utf8(r->Ok_0@) == crate::codec::elem_bytes(ct.c1@)
                        + crate::codec::elem_bytes(ct.c2@)
                    &&& exists|u: Seq<int>, e1: Seq<int>, e2: Seq<int>|
                        {
                            &&& #[trigger] crate::sampler::is_small(
                                u,
                                crate::keygen::NOISE_BOUND as int,
                                p.q as int,
                            )
                            &&& #[trigger] crate::sampler::is_small(
                                e1,
                                crate::keygen::NOISE_BOUND as int,
                                p.q as int,
                            )
                            &&& #[trigger] crate::sampler::is_small(
                                e2,
                                crate::keygen::NOISE_BOUND as int,
                                p.q as int,
                            )
                            &&& u.len() == p.n && e1.len() == p.n && e2.len() == p.n
                            &&& ct.c1@ == crate::encrypt::spec_c1(a, u, e1, p.q as int)
                            &&& ct.c2@ == crate::encrypt::spec_c2(
                                b,
                                u,
                                e2,
                                m,
                                p.q as int,
                                p.spec_delta(),
                            )
                        }
                    &&& (seed is Some ==> ct.c1@ == crate::encrypt::spec_c1(
                        a,
                        crate::encrypt::spec_encrypt_u(p, seed->0),
                        crate::encrypt::spec_encrypt_e1(p, seed->0),
                        p.q as int,
                    ) && ct.c2@ == crate::encrypt::spec_c2(
                        b,
                        crate::encrypt::spec_encrypt_u(p, seed->0),
                        crate::encrypt::spec_encrypt_e2(p, seed->0),
                        m,
                        p.q as int,
                        p.spec_delta(),
                    ))
                }
        },
{
    let params = requested_parameters(&req.parameters);
    encrypt_string(req.public_key.as_str(), req.message.as_str(), &params, seed)
}

/// Decrypts the request's ciphertext under the request's secret key
/// and configuration. Fails with ParameterError on invalid overrides,
/// ParseError on a malformed key or ciphertext, DecodingError when the
/// recovered bytes are not text.
pub fn decrypt_message(req: &DecryptRequest) -> (r: Result<String, LweError>)
    ensures
        !spec_requested(req.parameters).valid() ==> r == Result::<String, LweError>::Err(
            LweError::ParameterError,
        ),
        spec_requested(req.parameters).valid() && !elem_bytes_ok(
            encode_utf8(req.secret_key@),
            spec_requested(req.parameters).n as int,
            spec_requested(req.parameters).q as int,
        ) ==> r == Result::<String, LweError>::Err(LweError::ParseError),
        spec_requested(req.parameters).valid() && elem_bytes_ok(
            encode_utf8(req.secret_key@),
            spec_requested(req.parameters).n as int,
            spec_requested(req.parameters).q as int,
        ) && !pair_bytes_ok(
            encode_utf8(req.ciphertext@),
            spec_requested(req.parameters).n as int,
            spec_requested(req.parameters).q as int,
        ) ==> r == Result::<String, LweError>::Err(LweError::ParseError),
        spec_requested(req.parameters).valid() && elem_bytes_ok(
            encode_utf8(req.secret_key@),
            spec_requested(req.parameters).n as int,
            spec_requested(req.parameters).q as int,
        ) && pair_bytes_ok(
            encode_utf8(req.ciphertext@),
            spec_requested(req.parameters).n as int,
            spec_requested(req.parameters).q as int,
        ) && r is Err ==> r->Err_0 == LweError::DecodingError,
        r is Ok <==> {
            let p = spec_requested(req.parameters);
            let s = crate::codec::elem_coeffs(encode_utf8(req.secret_key@));
            let c1 = crate::codec::elem_coeffs(
                encode_utf8(req.ciphertext@).subrange(0, 5 * p.n),
            );
            let c2 = crate::codec::elem_coeffs(
                encode_utf8(req.ciphertext@).subrange(5 * p.n, 10 * p.n),
            );
            &&& p.valid()
            &&& elem_bytes_ok(encode_utf8(req.secret_key@), p.n as int, p.q as int)
            &&& pair_bytes_ok(encode_utf8(req.ciphertext@), p.n as int, p.q as int)
            &&& crate::codec::is_bits(crate::decrypt::spec_recovered(p, s, c1, c2))
            &&& vstd::utf8::valid_utf8(
                crate::codec::strip_zeros(
                    crate::codec::msg_bytes(crate::decrypt::spec_recovered(p, s, c1, c2)),
                ),
            )
        },
        r is Ok ==> {
            let p = spec_requested(req.parameters);
            encode_utf8(r->Ok_0@) == crate::codec::strip_zeros(
                crate::codec::msg_bytes(
                    crate::decrypt::spec_recovered(
                        p,
                        crate::codec::elem_coeffs(encode_utf8(req.secret_key@)),
                        crate::codec::elem_coeffs(
                            encode_utf8(req.ciphertext@).subrange(0, 5 * p.n),
                        ),
                        crate::codec::elem_coeffs(
                            encode_utf8(req.ciphertext@).subrange(5 * p.n, 10 * p.n),
                        ),
                    ),
                ),
            )
        },
{
    let params = requested_parameters(&req.parameters);
    decrypt_string(req.secret_key.as_str(), req.ciphertext.as_str(), &params)
}

} // verus!
