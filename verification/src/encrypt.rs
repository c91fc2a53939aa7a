//! Encryption: encode the message into ring coefficients, draw small
//! ephemerals u, e1, e2 (in that order when seeded), and form
//! c1 = a*u + e1 and c2 = b*u + e2 + delta*m with delta = floor(q / t).

use vstd::prelude::*;
use vstd::string::{StrSliceExecFns, StringSliceAdditionalSpecFns};
use vstd::utf8::encode_utf8;
use crate::LweError;
use crate::params::Parameters;
use crate::ring::{RingElement, all_in_range, ring_add, ring_mul, ring_scale};
use crate::sampler::{Sampler, is_small, spec_sample_small, stream_at, stream_init};
use crate::keygen::{PublicKey, NOISE_BOUND};
use crate::codec::{encode_message, encode_pair, msg_coeffs, parse_pair, elem_bytes, pair_bytes_ok, elem_coeffs};

verus! {

/// A ciphertext: the pair (c1, c2), both reduced in R_q.
pub struct Ciphertext {
    pub c1: RingElement,
    pub c2: RingElement,
}

impl Ciphertext {
    pub open spec fn wf(self, p: Parameters) -> bool {
        self.c1.wf(p) && self.c2.wf(p)
    }
}

/// The first ciphertext component from drawn values: a*u + e1 in R_q.
pub open spec fn spec_c1(a: Seq<int>, u: Seq<int>, e1: Seq<int>, q: int) -> Seq<int> {
    ring_add(ring_mul(a, u, q), e1, q)
}

/// The second ciphertext component from drawn values:
/// b*u + e2 + delta*m in R_q.
pub open spec fn spec_c2(
    b: Seq<int>,
    u: Seq<int>,
    e2: Seq<int>,
    m: Seq<int>,
    q: int,
    delta: int,
) -> Seq<int> {
    ring_add(ring_add(ring_mul(b, u, q), e2, q), ring_scale(delta, m, q), q)
}

/// The ephemerals a seed determines, drawn in the order u, e1, e2.
pub open spec fn spec_encrypt_u(p: Parameters, seed: u64) -> Seq<int> {
    spec_sample_small(stream_init(seed), p.n as nat, NOISE_BOUND as int, p.q as int)
}

pub open spec fn spec_encrypt_e1(p: Parameters, seed: u64) -> Seq<int> {
    spec_sample_small(
        stream_at(stream_init(seed), p.n as nat),
        p.n as nat,
        NOISE_BOUND as int,
        p.q as int,
    )
}

pub open spec fn spec_encrypt_e2(p: Parameters, seed: u64) -> Seq<int> {
    spec_sample_small(
        stream_at(stream_at(stream_init(seed), p.n as nat), p.n as nat),
        p.n as nat,
        NOISE_BOUND as int,
        p.q as int,
    )
}

/// Forms the ciphertext from the message coefficients and
/// already-drawn ephemerals: c1 = a*u + e1 and c2 = b*u + e2 + delta*m,
/// exactly.
pub fn encrypt_with(
    p: &Parameters,
    pk: &PublicKey,
    m: &RingElement,
    u: &RingElement,
    e1: &RingElement,
    e2: &RingElement,
) -> (r: Ciphertext)
    requires
        p.valid(),
        pk.wf(*p),
        m@.len() == p.n,
        all_in_range(m@, p.t as int),
        u.wf(*p),
        e1.wf(*p),
        e2.wf(*p),
    ensures
        r.wf(*p),
        r.c1@ == spec_c1(pk.a@, u@, e1@, p.q as int),
        r.c2@ == spec_c2(pk.b@, u@, e2@, m@, p.q as int, p.spec_delta()),
{
    proof {
        assert(all_in_range(m@, p.q as int));
        vstd::arithmetic::div_mod::lemma_div_decreases(p.q as int, p.t as int);
        vstd::arithmetic::div_mod::lemma_div_pos_is_pos(p.q as int, p.t as int);
    }
    let delta: i64 = p.delta();
    let au = match pk.a.mul(p, u) {
        Ok(x) => x,
        Err(_) => {
            proof {
                assert(false);
            }
            RingElement { coeffs: Vec::new() }
        },
    };
    let c1 = match au.add(p, e1) {
        Ok(x) => x,
        Err(_) => {
            proof {
                assert(false);
            }
            RingElement { coeffs: Vec::new() }
        },
    };
    let bu = match pk.b.mul(p, u) {
        Ok(x) => x,
        Err(_) => {
            proof {
                assert(false);
            }
            RingElement { coeffs: Vec::new() }
        },
    };
    let bue2 = match bu.add(p, e2) {
        Ok(x) => x,
        Err(_) => {
            proof {
                assert(false);
            }
            RingElement { coeffs: Vec::new() }
        },
    };
    let scaled = m.scale(p, delta);
    let c2 = match bue2.add(p, &scaled) {
        Ok(x) => x,
        Err(_) => {
            proof {
                assert(false);
            }
            RingElement { coeffs: Vec::new() }
        },
    };
    Ciphertext { c1, c2 }
}

/// Encrypts a message under a public key. Fails with ParameterError
/// exactly when the configuration is invalid, and with EncodingError
/// exactly when the message does not fit the n coefficients; otherwise
/// the ciphertext is c1 = a*u + e1, c2 = b*u + e2 + delta*m for small
/// ephemerals, and a seed determines it completely.
pub fn encrypt(p: &Parameters, pk: &PublicKey, message: &str, seed: Option<u64>) -> (r: Result<
    Ciphertext,
    LweError,
>)
    requires
        p.valid() ==> pk.wf(*p),
    ensures
        r is Ok <==> p.valid() && 8 * message.spec_bytes().len() <= p.n,
        !p.valid() ==> r == Result::<Ciphertext, LweError>::Err(LweError::ParameterError),
        p.valid() && 8 * message.spec_bytes().len() > p.n ==> r == Result::<
            Ciphertext,
            LweError,
        >::Err(LweError::EncodingError),
        r is Ok ==> {
            let m = msg_coeffs(message.spec_bytes(), p.n as int);
            let ct = r->Ok_0;
            &&& ct.wf(*p)
            &&& exists|u: Seq<int>, e1: Seq<int>, e2: Seq<int>|
                {
                    &&& #[trigger] is_small(u, NOISE_BOUND as int, p.q as int)
                    &&& #[trigger] is_small(e1, NOISE_BOUND as int, p.q as int)
                    &&& #[trigger] is_small(e2, NOISE_BOUND as int, p.q as int)
                    &&& u.len() == p.n && e1.len() == p.n && e2.len() == p.n
                    &&& ct.c1@ == spec_c1(pk.a@, u, e1, p.q as int)
                    &&& ct.c2@ == spec_c2(pk.b@, u, e2, m, p.q as int, p.spec_delta())
                }
            &&& (seed is Some ==> ct.c1@ == spec_c1(
                pk.a@,
                spec_encrypt_u(*p, seed->0),
                spec_encrypt_e1(*p, seed->0),
                p.q as int,
            ) && ct.c2@ == spec_c2(
                pk.b@,
                spec_encrypt_u(*p, seed->0),
                spec_encrypt_e2(*p, seed->0),
                m,
                p.q as int,
                p.spec_delta(),
            ))
        },
{
    if let Err(err) = p.validate() {
        return Err(err);
    }
    let bytes: Vec<u8> = message.as_bytes_vec();
    let m = match encode_message(p, &bytes) {
        Ok(m) => m,
        Err(err) => {
            return Err(err);
        },
    };
    let mut smp = match seed {
        Some(sd) => Sampler::from_seed(sd),
        None => Sampler::fresh(),
    };
    let u = smp.sample_small(p, NOISE_BOUND);
    let e1 = smp.sample_small(p, NOISE_BOUND);
    let e2 = smp.sample_small(p, NOISE_BOUND);
    let ct = encrypt_with(p, pk, &m, &u, &e1, &e2);
    proof {
        assert(is_small(u@, NOISE_BOUND as int, p.q as int) && is_small(
            e1@,
            NOISE_BOUND as int,
            p.q as int,
        ) && is_small(e2@, NOISE_BOUND as int, p.q as int) && u@.len() == p.n && e1@.len() == p.n
            && e2@.len() == p.n && ct.c1@ == spec_c1(pk.a@, u@, e1@, p.q as int) && ct.c2@
            == spec_c2(
            pk.b@,
            u@,
            e2@,
            msg_coeffs(message.spec_bytes(), p.n as int),
            p.q as int,
            p.spec_delta(),
        ));
    }
    Ok(ct)
}

/// Encrypts a message under a string-encoded public key and hands the
/// ciphertext back in its canonical string form. Fails with
/// ParameterError on an invalid configuration, ParseError on a
/// malformed key string, and EncodingError on a message too long.
pub fn encrypt_string(pk_string: &str, message: &str, p: &Parameters, seed: Option<u64>) -> (r:
    Result<String, LweError>)
    ensures
        !p.valid() ==> r == Result::<String, LweError>::Err(LweError::ParameterError),
        p.valid() && !pair_bytes_ok(pk_string.spec_bytes(), p.n as int, p.q as int) ==> r
            == Result::<String, LweError>::Err(LweError::ParseError),
        r is Ok <==> p.valid() && pair_bytes_ok(pk_string.spec_bytes(), p.n as int, p.q as int)
            && 8 * message.spec_bytes().len() <= p.n,
        p.valid() && pair_bytes_ok(pk_string.spec_bytes(), p.n as int, p.q as int) && 8
            * message.spec_bytes().len() > p.n ==> r == Result::<String, LweError>::Err(
            LweError::EncodingError,
        ),
        r is Ok ==> exists|ct: Ciphertext|
            {
                let a = elem_coeffs(pk_string.spec_bytes().subrange(0, 5 * p.n));
                let b = elem_coeffs(pk_string.spec_bytes().subrange(5 * p.n, 10 * p.n));
                let m = msg_coeffs(message.spec_bytes(), p.n as int);
                &&& #[trigger] ct.wf(*p)
                &&& encode_utf8(r->Ok_0@) == elem_bytes(ct.c1@) + elem_bytes(ct.c2@)
                &&& exists|u: Seq<int>, e1: Seq<int>, e2: Seq<int>|
                    {
                        &&& #[trigger] is_small(u, NOISE_BOUND as int, p.q as int)
                        &&& #[trigger] is_small(e1, NOISE_BOUND as int, p.q as int)
                        &&& #[trigger] is_small(e2, NOISE_BOUND as int, p.q as int)
                        &&& u.len() == p.n && e1.len() == p.n && e2.len() == p.n
                        &&& ct.c1@ == spec_c1(a, u, e1, p.q as int)
                        &&& ct.c2@ == spec_c2(b, u, e2, m, p.q as int, p.spec_delta())
                    }
                &&& (seed is Some ==> ct.c1@ == spec_c1(
                    a,
                    spec_encrypt_u(*p, seed->0),
                    spec_encrypt_e1(*p, seed->0),
                    p.q as int,
                ) && ct.c2@ == spec_c2(
                    b,
                    spec_encrypt_u(*p, seed->0),
                    spec_encrypt_e2(*p, seed->0),
                    m,
                    p.q as int,
                    p.spec_delta(),
                ))
            },
{
    if let Err(err) = p.validate() {
        return Err(err);
    }
    let (a, b) = match parse_pair(p, pk_string) {
        Ok(pair) => pair,
        Err(err) => {
            return Err(err);
        },
    };
    let pk = PublicKey { a, b };
    let ct = match encrypt(p, &pk, message, seed) {
        Ok(ct) => ct,
        Err(err) => {
            return Err(err);
        },
    };
    let out = encode_pair(p, &ct.c1, &ct.c2);
    proof {
        assert(ct.wf(*p) && encode_utf8(out@) == elem_bytes(ct.c1@) + elem_bytes(ct.c2@));
    }
    Ok(out)
}

} // verus!
