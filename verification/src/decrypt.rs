//! Decryption: compute m' = c2 - s*c1 in R_q, recover each message
//! coefficient as round(m'_i * t / q) mod t, and decode the recovered
//! bits back into text. Noise below the correctness margin q / (2 t)
//! vanishes in the rounding; noise beyond it flips coefficients
//! silently, by design - the step itself never fails, only the final
//! byte decoding can.

use vstd::prelude::*;
use vstd::arithmetic::div_mod::lemma_mod_bound;
use vstd::string::StringSliceAdditionalSpecFns;
use vstd::utf8::{encode_utf8, valid_utf8};
use crate::LweError;
use crate::params::Parameters;
use crate::ring::{RingElement, ring_mul, ring_sub};
use crate::encrypt::Ciphertext;
use crate::codec::{
    decode_message, elem_bytes_ok, elem_coeffs, is_bits, msg_bytes, pair_bytes_ok, parse_element,
    parse_pair, spec_capacity, strip_zeros,
};

verus! {

/// The rounding that recovers one message coefficient from a value in
/// [0, q): round(x * t / q) mod t, computed as
/// floor((2 x t + q) / (2 q)) mod t.
pub open spec fn round_coeff(x: int, q: int, t: int) -> int {
    ((2 * x * t + q) / (2 * q)) % t
}

/// The plaintext coefficients recovered from a ciphertext under a
/// secret: the rounding applied to every coefficient of c2 - s*c1.
pub open spec fn spec_decrypt_coeffs(
    s: Seq<int>,
    c1: Seq<int>,
    c2: Seq<int>,
    q: int,
    t: int,
) -> Seq<int> {
    Seq::new(c2.len(), |i: int| round_coeff(ring_sub(c2, ring_mul(s, c1, q), q)[i], q, t))
}

/// Recovers the plaintext coefficients from a ciphertext: exactly the
/// rounding of c2 - s*c1. Always a value, never a failure - a wrong
/// key or excess noise shows only in the value.
pub fn decrypt_core(p: &Parameters, s: &RingElement, ct: &Ciphertext) -> (r: RingElement)
    requires
        p.valid(),
        s.wf(*p),
        ct.wf(*p),
    ensures
        r@.len() == p.n,
        r@ == spec_decrypt_coeffs(s@, ct.c1@, ct.c2@, p.q as int, p.t as int),
        forall|i: int| 0 <= i < r@.len() ==> 0 <= #[trigger] r@[i] < p.t,
{
    let prod = match s.mul(p, &ct.c1) {
        Ok(x) => x,
        Err(_) => {
            proof {
                assert(false);
            }
            RingElement { coeffs: Vec::new() }
        },
    };
    let diff = match ct.c2.sub(p, &prod) {
        Ok(x) => x,
        Err(_) => {
            proof {
                assert(false);
            }
            RingElement { coeffs: Vec::new() }
        },
    };
    let n: usize = p.n;
    let q: i64 = p.q;
    let t: i64 = p.t;
    let mut out: Vec<i64> = Vec::new();
    let mut i: usize = 0;
    while i < n
        invariant
            p.valid(),
            diff.wf(*p),
            n == p.n,
            q == p.q,
            t == p.t,
            i <= n,
            out@.len() == i,
            forall|k: int| 0 <= k < i ==> #[trigger] out@[k] as int == round_coeff(
                diff@[k],
                q as int,
                t as int,
            ) && 0 <= out@[k] < t,
        decreases n - i,
    {
        let x: i64 = diff.coeffs[i];
        proof {
            assert(diff@[i as int] == x as int);
            assert(0 <= 2 * (x as int) * (t as int) <= 2int * 65536 * 65536) by (nonlinear_arith)
                requires
                    0 <= x < q,
                    2 <= t < q,
                    q <= 65536,
            ;
            lemma_mod_bound((2 * (x as int) * (t as int) + q) / (2 * (q as int)), t as int);
        }
        let v: i64 = ((2 * x * t + q) / (2 * q)) % t;
        out.push(v);
        i = i + 1;
    }
    let r = RingElement { coeffs: out };
    proof {
        assert(r@ =~= spec_decrypt_coeffs(s@, ct.c1@, ct.c2@, p.q as int, p.t as int));
    }
    r
}

/// The recovered plaintext coefficients of a ciphertext, restricted to
/// the positions that carry message bits.
pub open spec fn spec_recovered(p: Parameters, s: Seq<int>, c1: Seq<int>, c2: Seq<int>) -> Seq<
    int,
> {
    spec_decrypt_coeffs(s, c1, c2, p.q as int, p.t as int).take(8 * spec_capacity(p.n as int))
}

/// Decrypts a ciphertext under a secret key. The rounding step always
/// yields coefficients; the call fails with DecodingError exactly when
/// they are not bits or the resulting bytes are not valid UTF-8 - a
/// wrong key gives some well-formed text or that error, never a panic.
pub fn decrypt(p: &Parameters, s: &RingElement, ct: &Ciphertext) -> (r: Result<String, LweError>)
    requires
        p.valid(),
        s.wf(*p),
        ct.wf(*p),
    ensures
        r is Ok <==> is_bits(spec_recovered(*p, s@, ct.c1@, ct.c2@)) && valid_utf8(
            strip_zeros(msg_bytes(spec_recovered(*p, s@, ct.c1@, ct.c2@))),
        ),
        r is Err ==> r->Err_0 == LweError::DecodingError,
        r is Ok ==> encode_utf8(r->Ok_0@) == strip_zeros(
            msg_bytes(spec_recovered(*p, s@, ct.c1@, ct.c2@)),
        ),
{
    let m = decrypt_core(p, s, ct);
    decode_message(p, &m)
}

/// Decrypts a string-encoded ciphertext under a string-encoded secret
/// key. Fails with ParameterError on an invalid configuration,
/// ParseError on a malformed key or ciphertext string, DecodingError
/// when the recovered bytes are not text.
pub fn decrypt_string(sk_string: &str, ciphertext: &str, p: &Parameters) -> (r: Result<
    String,
    LweError,
>)
    ensures
        !p.valid() ==> r == Result::<String, LweError>::Err(LweError::ParameterError),
        p.valid() && !elem_bytes_ok(sk_string.spec_bytes(), p.n as int, p.q as int) ==> r
            == Result::<String, LweError>::Err(LweError::ParseError),
        p.valid() && elem_bytes_ok(sk_string.spec_bytes(), p.n as int, p.q as int)
            && !pair_bytes_ok(ciphertext.spec_bytes(), p.n as int, p.q as int) ==> r == Result::<
            String,
            LweError,
        >::Err(LweError::ParseError),
        p.valid() && elem_bytes_ok(sk_string.spec_bytes(), p.n as int, p.q as int)
            && pair_bytes_ok(ciphertext.spec_bytes(), p.n as int, p.q as int) && r is Err ==> r
            ->Err_0 == LweError::DecodingError,
        r is Ok <==> {
            let s = elem_coeffs(sk_string.spec_bytes());
            let c1 = elem_coeffs(ciphertext.spec_bytes().subrange(0, 5 * p.n));
            let c2 = elem_coeffs(ciphertext.spec_bytes().subrange(5 * p.n, 10 * p.n));
            &&& p.valid()
            &&& elem_bytes_ok(sk_string.spec_bytes(), p.n as int, p.q as int)
            &&& pair_bytes_ok(ciphertext.spec_bytes(), p.n as int, p.q as int)
            &&& is_bits(spec_recovered(*p, s, c1, c2))
            &&& valid_utf8(strip_zeros(msg_bytes(spec_recovered(*p, s, c1, c2))))
        },
        r is Ok ==> encode_utf8(r->Ok_0@) == strip_zeros(
            msg_bytes(
                spec_recovered(
                    *p,
                    elem_coeffs(sk_string.spec_bytes()),
                    elem_coeffs(ciphertext.spec_bytes().subrange(0, 5 * p.n)),
                    elem_coeffs(ciphertext.spec_bytes().subrange(5 * p.n, 10 * p.n)),
                ),
            ),
        ),
{
    if let Err(err) = p.validate() {
        return Err(err);
    }
    let s = match parse_element(p, sk_string) {
        Ok(s) => s,
        Err(err) => {
            return Err(err);
        },
    };
    let (c1, c2) = match parse_pair(p, ciphertext) {
        Ok(pair) => pair,
        Err(err) => {
            return Err(err);
        },
    };
    let ct = Ciphertext { c1, c2 };
    decrypt(p, &s, &ct)
}

} // verus!
