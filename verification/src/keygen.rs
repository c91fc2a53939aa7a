//! Key generation: sample a small secret s, a uniform a and a small
//! error e, and publish the pair (a, b) with b = a*s + e in R_q.
//!
//! Seeded, every draw comes from the deterministic stream in a fixed
//! order - first s, then a, then e - so a seed reproduces its key pair
//! exactly. Unseeded, the draws come from the secure source.

use vstd::prelude::*;
use crate::LweError;
use crate::params::Parameters;
use crate::ring::{RingElement, ring_add, ring_mul};
use crate::sampler::{
    Sampler, is_small, spec_sample_small, spec_sample_uniform, stream_at, stream_init,
};
use crate::codec::{encode_element, encode_pair, elem_bytes};
use vstd::utf8::encode_utf8;

verus! {

/// The magnitude bound of secret and error coefficients.
pub const NOISE_BOUND: i64 = 1;

/// A public key: the pair (a, b) with b = a*s + e.
pub struct PublicKey {
    pub a: RingElement,
    pub b: RingElement,
}

impl PublicKey {
    pub open spec fn wf(self, p: Parameters) -> bool {
        self.a.wf(p) && self.b.wf(p)
    }
}

/// A generated key pair: the public pair and the small secret s.
pub struct KeyPair {
    pub public: PublicKey,
    pub secret: RingElement,
}

impl KeyPair {
    pub open spec fn wf(self, p: Parameters) -> bool {
        self.public.wf(p) && self.secret.wf(p)
    }
}

/// A key pair in its canonical string form: the public field encodes
/// (a, b), the secret field encodes s.
pub struct KeyPairStrings {
    pub public: String,
    pub secret: String,
}

/// The secret a seed determines.
pub open spec fn spec_keygen_s(p: Parameters, seed: u64) -> Seq<int> {
    spec_sample_small(stream_init(seed), p.n as nat, NOISE_BOUND as int, p.q as int)
}

/// The uniform part a seed determines (drawn after the secret).
pub open spec fn spec_keygen_a(p: Parameters, seed: u64) -> Seq<int> {
    spec_sample_uniform(stream_at(stream_init(seed), p.n as nat), p.n as nat, p.q as int)
}

/// The error a seed determines (drawn last).
pub open spec fn spec_keygen_e(p: Parameters, seed: u64) -> Seq<int> {
    spec_sample_small(
        stream_at(stream_at(stream_init(seed), p.n as nat), p.n as nat),
        p.n as nat,
        NOISE_BOUND as int,
        p.q as int,
    )
}

/// The public part b a seed determines: a*s + e in R_q.
pub open spec fn spec_keygen_b(p: Parameters, seed: u64) -> Seq<int> {
    ring_add(
        ring_mul(spec_keygen_a(p, seed), spec_keygen_s(p, seed), p.q as int),
        spec_keygen_e(p, seed),
        p.q as int,
    )
}

/// Builds the public part from already-drawn values: b = a*s + e in
/// R_q, exactly.
pub fn keygen_from(p: &Parameters, a: &RingElement, s: &RingElement, e: &RingElement) -> (b:
    RingElement)
    requires
        p.valid(),
        a.wf(*p),
        s.wf(*p),
        e.wf(*p),
    ensures
        b.wf(*p),
        b@ == ring_add(ring_mul(a@, s@, p.q as int), e@, p.q as int),
{
    let prod = match a.mul(p, s) {
        Ok(x) => x,
        Err(_) => {
            proof {
                assert(false);
            }
            RingElement { coeffs: Vec::new() }
        },
    };
    match prod.add(p, e) {
        Ok(b) => b,
        Err(_) => {
            proof {
                assert(false);
            }
            RingElement { coeffs: Vec::new() }
        },
    }
}

/// Generates a key pair. Fails with ParameterError exactly when the
/// configuration is invalid, before any randomness is drawn. The
/// secret and error are small; b is a*s + e in R_q; and a seed
/// determines the pair completely.
pub fn generate(p: &Parameters, seed: Option<u64>) -> (r: Result<KeyPair, LweError>)
    ensures
        r is Ok <==> p.valid(),
        r is Err ==> r->Err_0 == LweError::ParameterError,
        r is Ok ==> {
            let kp = r->Ok_0;
            &&& kp.wf(*p)
            &&& is_small(kp.secret@, NOISE_BOUND as int, p.q as int)
            &&& exists|e: Seq<int>|
                #[trigger] is_small(e, NOISE_BOUND as int, p.q as int) && e.len() == p.n
                    && kp.public.b@ == ring_add(
                    ring_mul(kp.public.a@, kp.secret@, p.q as int),
                    e,
                    p.q as int,
                )
        },
        r is Ok && seed is Some ==> {
            let kp = r->Ok_0;
            &&& kp.secret@ == spec_keygen_s(*p, seed->0)
            &&& kp.public.a@ == spec_keygen_a(*p, seed->0)
            &&& kp.public.b@ == spec_keygen_b(*p, seed->0)
        },
{
    if let Err(err) = p.validate() {
        return Err(err);
    }
    let mut smp = match seed {
        Some(sd) => Sampler::from_seed(sd),
        None => Sampler::fresh(),
    };
    let s = smp.sample_small(p, NOISE_BOUND);
    let a = smp.sample_uniform(p);
    let e = smp.sample_small(p, NOISE_BOUND);
    let b = keygen_from(p, &a, &s, &e);
    proof {
        assert(is_small(e@, NOISE_BOUND as int, p.q as int) && e@.len() == p.n && b@ == ring_add(
            ring_mul(a@, s@, p.q as int),
            e@,
            p.q as int,
        ));
    }
    Ok(KeyPair { public: PublicKey { a, b }, secret: s })
}

/// Generates a key pair and hands it back in its canonical string
/// form: the public string encodes (a, b), the secret string encodes s.
pub fn keygen_string(p: &Parameters, seed: Option<u64>) -> (r: Result<KeyPairStrings, LweError>)
    ensures
        r is Ok <==> p.valid(),
        r is Err ==> r->Err_0 == LweError::ParameterError,
        r is Ok ==> exists|kp: KeyPair|
            {
                &&& #[trigger] kp.wf(*p)
                &&& is_small(kp.secret@, NOISE_BOUND as int, p.q as int)
                &&& exists|e: Seq<int>|
                    #[trigger] is_small(e, NOISE_BOUND as int, p.q as int) && e.len() == p.n
                        && kp.public.b@ == ring_add(
                        ring_mul(kp.public.a@, kp.secret@, p.q as int),
                        e,
                        p.q as int,
                    )
                &&& encode_utf8(r->Ok_0.public@) == elem_bytes(kp.public.a@) + elem_bytes(
                    kp.public.b@,
                )
                &&& encode_utf8(r->Ok_0.secret@) == elem_bytes(kp.secret@)
                &&& (seed is Some ==> kp.secret@ == spec_keygen_s(*p, seed->0) && kp.public.a@
                    == spec_keygen_a(*p, seed->0) && kp.public.b@ == spec_keygen_b(*p, seed->0))
            },
{
    let kp = match generate(p, seed) {
        Ok(kp) => kp,
        Err(err) => {
            return Err(err);
        },
    };
    let public = encode_pair(p, &kp.public.a, &kp.public.b);
    let secret = encode_element(p, &kp.secret);
    let r = KeyPairStrings { public, secret };
    proof {
        let kpv = kp;
        assert(kpv.wf(*p) && is_small(kpv.secret@, NOISE_BOUND as int, p.q as int));
    }
    Ok(r)
}

} // verus!
