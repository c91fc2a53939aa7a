//! The properties the engine promises, stated and proved over the same
//! spec functions the operations' contracts use.

use vstd::prelude::*;
use vstd::arithmetic::div_mod::{
    lemma_fundamental_div_mod, lemma_fundamental_div_mod_converse,
    lemma_fundamental_div_mod_converse_mod, lemma_mod_bound, lemma_mod_multiples_vanish,
    lemma_mod_self_0, lemma_small_mod,
};
use vstd::math::abs;
use crate::params::Parameters;
use crate::ring::{conv_partial, conv_term, ring_mul, ring_scale, ring_sub};
use crate::keygen::{KeyPair, spec_keygen_a, spec_keygen_b, spec_keygen_s};
use crate::encrypt::{spec_c1, spec_c2};
use crate::decrypt::{round_coeff, spec_decrypt_coeffs};
use crate::codec::{bit_of, byte_of_bits, lemma_byte_bits, msg_bytes, msg_coeffs, strip_zeros};

verus! {

/// Rounding recovers a message coefficient exactly whenever the noise
/// added to its scaled form stays within the correctness margin:
/// round((delta * m + w) mod q) == m when 2 t (|w| + t) < q.
pub proof fn lemma_round_trip_coeff(q: int, t: int, m: int, w: int)
    requires
        2 <= t < q,
        0 <= m < t,
        2 * t * (abs(w) + t) < q,
    ensures
        round_coeff((q / t * m + w) % q, q, t) == m,
{
    let d = q / t;
    let rho = q % t;
    lemma_fundamental_div_mod(q, t);
    lemma_mod_bound(q, t);
    assert(2 * t * abs(w) + 2 * t * t == 2 * t * (abs(w) + t)) by (nonlinear_arith);
    assert(2 * t * abs(w) >= 2 * abs(w)) by (nonlinear_arith)
        requires
            t >= 2,
            abs(w) >= 0,
    ;
    assert(2 * t * t >= 0) by (nonlinear_arith);
    // the margin forces |w| < d
    assert(t * d + rho == q);
    assert(2 * t * abs(w) < q);
    assert(d >= 1) by {
        if d <= 0 {
            assert(t * d <= 0) by (nonlinear_arith)
                requires
                    t >= 2,
                    d <= 0,
            ;
        }
    }
    assert(t * (d + 1) <= 2 * t * d) by (nonlinear_arith)
        requires
            t >= 2,
            d >= 1,
    ;
    assert(2 * t * abs(w) < t * d + rho);
    assert(rho < t);
    assert(t * (d + 1) == t * d + t) by (nonlinear_arith);
    assert(2 * t * abs(w) < t * (d + 1));
    assert(abs(w) < d) by (nonlinear_arith)
        requires
            2 * t * abs(w) < t * (d + 1),
            t * (d + 1) <= 2 * t * d,
            t >= 2,
    ;
    // m * rho is small
    assert(2 * m * rho <= 2 * t * t) by (nonlinear_arith)
        requires
            0 <= m < t,
            0 <= rho < t,
    ;
    let aw = abs(w);
    assert(-aw <= w && w <= aw && 0 <= aw);
    let x0 = d * m + w;
    if x0 >= 0 {
        // x0 is already reduced
        assert(d * m <= d * (t - 1)) by (nonlinear_arith)
            requires
                d >= 1,
                0 <= m <= t - 1,
        ;
        assert(d * (t - 1) == t * d - d) by (nonlinear_arith);
        assert(x0 < q);
        lemma_fundamental_div_mod_converse_mod(x0, q, 0, x0);
        assert(x0 % q == x0);
        let numer = 2 * x0 * t + q;
        let rem = q + 2 * t * w - 2 * m * rho;
        assert(2 * x0 * t == 2 * q * m + 2 * t * w - 2 * m * rho) by (nonlinear_arith)
            requires
                x0 == d * m + w,
                t * d + rho == q,
        ;
        assert(2 * t * w >= -(2 * t * aw) && 2 * t * w <= 2 * t * aw) by (nonlinear_arith)
            requires
                -aw <= w && w <= aw && 0 <= aw,
                t >= 2,
        ;
        assert(0 <= rem < 2 * q);
        lemma_fundamental_div_mod_converse(numer, 2 * q, m, rem);
        assert(numer / (2 * q) == m);
        lemma_small_mod(m as nat, t as nat);
    } else {
        // a negative scaled value means m == 0 and the noise wrapped
        assert(m == 0) by {
            if m >= 1 {
                assert(d * m >= d) by (nonlinear_arith)
                    requires
                        d >= 1,
                        m >= 1,
                ;
            }
        }
        assert(x0 == w);
        assert(-q < x0 < 0);
        lemma_mod_multiples_vanish(1, x0, q);
        lemma_fundamental_div_mod_converse_mod(q + x0, q, 0, q + x0);
        assert(x0 % q == q + w);
        let x = q + w;
        let numer = 2 * x * t + q;
        let rem = 2 * t * w + q;
        assert(2 * x * t == 2 * q * t + 2 * t * w) by (nonlinear_arith)
            requires
                x == q + w,
        ;
        assert(2 * t * w >= -(2 * t * aw) && 2 * t * w <= 2 * t * aw) by (nonlinear_arith)
            requires
                -aw <= w && w <= aw && 0 <= aw,
                t >= 2,
        ;
        assert(0 <= rem < 2 * q);
        lemma_fundamental_div_mod_converse(numer, 2 * q, t, rem);
        assert(numer / (2 * q) == t);
        lemma_mod_self_0(t);
    }
}

/// Decryption inverts encryption whenever the ciphertext carries the
/// scaled message plus per-coefficient noise within the correctness
/// margin: if c2 = s*c1 + delta*m + w in R_q with every |w_i| below
/// the margin, the recovered coefficients are exactly m.
pub proof fn lemma_decrypt_recovers(
    p: Parameters,
    s: Seq<int>,
    c1: Seq<int>,
    c2: Seq<int>,
    m: Seq<int>,
    w: Seq<int>,
)
    requires
        p.valid(),
        s.len() == p.n && c1.len() == p.n && c2.len() == p.n && m.len() == p.n && w.len() == p.n,
        forall|i: int| 0 <= i < p.n ==> 0 <= #[trigger] m[i] < p.t,
        forall|i: int| 0 <= i < p.n ==> 2 * p.t * (abs(#[trigger] w[i]) + p.t) < p.q,
        forall|i: int| 0 <= i < p.n ==> #[trigger] c2[i] == (ring_mul(s, c1, p.q as int)[i] + (
        p.spec_delta() * m[i] + w[i])) % (p.q as int),
    ensures
        spec_decrypt_coeffs(s, c1, c2, p.q as int, p.t as int) =~= m,
{
    let q = p.q as int;
    let t = p.t as int;
    let d = p.spec_delta();
    let prod = ring_mul(s, c1, q);
    assert forall|i: int| 0 <= i < p.n implies spec_decrypt_coeffs(s, c1, c2, q, t)[i]
        == m[i] by {
        let x = prod[i] + (d * m[i] + w[i]);
        assert(ring_sub(c2, prod, q)[i] == (c2[i] - prod[i]) % q);
        assert(c2[i] == x % q);
        lemma_mod_twice_sub(x, prod[i], q);
        assert((c2[i] - prod[i]) % q == (d * m[i] + w[i]) % q);
        lemma_round_trip_coeff(q, t, m[i], w[i]);
    }
}

/// `(x % q - y) % q == (x - y) % q`.
proof fn lemma_mod_twice_sub(x: int, y: int, q: int)
    requires
        0 < q,
    ensures
        (x % q - y) % q == (x - y) % q,
{
    lemma_fundamental_div_mod(x, q);
    let k = x / q;
    assert(x % q - y == x - y + q * (-k)) by (nonlinear_arith)
        requires
            x == q * k + x % q,
    ;
    lemma_mod_multiples_vanish(-k, x - y, q);
}

/// The all-zero element.
pub open spec fn zeros(n: int) -> Seq<int> {
    Seq::new(n as nat, |i: int| 0)
}

/// Multiplying by the zero element gives the zero element.
proof fn lemma_conv_zero_partial(a: Seq<int>, n: int, k: int, j: int)
    requires
        a.len() == n,
        0 <= k < n,
        0 <= j <= n,
    ensures
        conv_partial(a, zeros(n), k, j) == 0,
    decreases j,
{
    if j > 0 {
        lemma_conv_zero_partial(a, n, k, j - 1);
        let i = j - 1;
        if i <= k {
            assert(zeros(n)[k - i] == 0);
            assert(conv_term(a, zeros(n), k, i) == a[i] * zeros(n)[k - i]);
        } else {
            assert(zeros(n)[k + n - i] == 0);
            assert(conv_term(a, zeros(n), k, i) == -(a[i] * zeros(n)[k + n - i]));
        }
        assert(conv_term(a, zeros(n), k, i) == 0);
        assert(conv_partial(a, zeros(n), k, j) == conv_partial(a, zeros(n), k, j - 1)
            + conv_term(a, zeros(n), k, i));
    }
}

/// Every coefficient of a product with the zero element is zero.
pub proof fn lemma_mul_zero(a: Seq<int>, n: int, q: int)
    requires
        a.len() == n,
        0 < n,
        0 < q,
    ensures
        ring_mul(a, zeros(n), q) =~= zeros(n),
        ring_mul(zeros(n), a, q) =~= zeros(n),
{
    assert forall|k: int| 0 <= k < n implies ring_mul(a, zeros(n), q)[k] == 0 by {
        lemma_conv_zero_partial(a, n, k, n);
        lemma_small_mod(0nat, q as nat);
    }
    assert forall|k: int| 0 <= k < n implies ring_mul(zeros(n), a, q)[k] == 0 by {
        lemma_conv_zero_partial_left(a, n, k, n);
        lemma_small_mod(0nat, q as nat);
    }
}

proof fn lemma_conv_zero_partial_left(a: Seq<int>, n: int, k: int, j: int)
    requires
        a.len() == n,
        0 <= k < n,
        0 <= j <= n,
    ensures
        conv_partial(zeros(n), a, k, j) == 0,
    decreases j,
{
    if j > 0 {
        lemma_conv_zero_partial_left(a, n, k, j - 1);
        let i = j - 1;
        assert(zeros(n)[i] == 0);
        if i <= k {
            assert(conv_term(zeros(n), a, k, i) == zeros(n)[i] * a[k - i]);
        } else {
            assert(conv_term(zeros(n), a, k, i) == -(zeros(n)[i] * a[k + n - i]));
        }
        assert(conv_term(zeros(n), a, k, i) == 0);
        assert(conv_partial(zeros(n), a, k, j) == conv_partial(zeros(n), a, k, j - 1)
            + conv_term(zeros(n), a, k, i));
    }
}

/// The noiseless round trip through the ring: encrypting message
/// coefficients m under any key pair with all ephemerals zero and
/// decrypting with any secret recovers m exactly, provided the margin
/// 2 t^2 < q holds. This is the correctness core; noise below the
/// margin only tightens the same rounding argument.
pub proof fn lemma_zero_noise_round_trip(
    p: Parameters,
    s: Seq<int>,
    a: Seq<int>,
    b: Seq<int>,
    m: Seq<int>,
)
    requires
        p.valid(),
        2 * p.t * p.t < p.q,
        s.len() == p.n && a.len() == p.n && b.len() == p.n && m.len() == p.n,
        forall|i: int| 0 <= i < p.n ==> 0 <= #[trigger] m[i] < p.t,
    ensures
        spec_decrypt_coeffs(
            s,
            spec_c1(a, zeros(p.n as int), zeros(p.n as int), p.q as int),
            spec_c2(
                b,
                zeros(p.n as int),
                zeros(p.n as int),
                m,
                p.q as int,
                p.spec_delta(),
            ),
            p.q as int,
            p.t as int,
        ) =~= m,
{
    let n = p.n as int;
    let q = p.q as int;
    let t = p.t as int;
    let d = p.spec_delta();
    let z = zeros(n);
    let c1 = spec_c1(a, z, z, q);
    let c2 = spec_c2(b, z, z, m, q, d);
    lemma_mul_zero(a, n, q);
    lemma_mul_zero(b, n, q);
    assert(d >= 1) by {
        lemma_fundamental_div_mod(q, t);
        lemma_mod_bound(q, t);
        if d <= 0 {
            assert(t * d <= 0) by (nonlinear_arith)
                requires
                    t >= 2,
                    d <= 0,
            ;
        }
    }
    assert forall|i: int| 0 <= i < n implies #[trigger] c1[i] == 0 by {
        lemma_small_mod(0nat, q as nat);
    }
    assert forall|i: int| 0 <= i < n implies #[trigger] c2[i] == d * m[i] by {
        lemma_fundamental_div_mod(q, t);
        lemma_mod_bound(q, t);
        assert(d * m[i] <= d * (t - 1)) by (nonlinear_arith)
            requires
                d >= 1,
                0 <= m[i] <= t - 1,
        ;
        assert(d * (t - 1) == t * d - d) by (nonlinear_arith);
        assert(0 <= d * m[i] < q) by (nonlinear_arith)
            requires
                d >= 1,
                0 <= m[i],
                d * m[i] <= t * d - d,
                t * d <= q,
        ;
        lemma_small_mod((d * m[i]) as nat, q as nat);
        assert(ring_scale(d, m, q)[i] == d * m[i]);
        assert(ring_mul(b, z, q)[i] == 0);
        lemma_small_mod(0nat, q as nat);
    }
    lemma_mul_zero(s, n, q);
    assert forall|i: int| 0 <= i < n implies spec_decrypt_coeffs(s, c1, c2, q, t)[i]
        == m[i] by {
        assert(c1 =~= z);
        assert(ring_mul(s, c1, q)[i] == 0) by {
            assert(ring_mul(s, z, q)[i] == 0);
        }
        assert(ring_sub(c2, ring_mul(s, c1, q), q)[i] == (d * m[i] - 0) % q);
        lemma_mod_twice_sub(d * m[i], 0, q);
        assert((d * m[i]) % q == (d * m[i] + 0) % q);
        assert(2 * t * (abs(0) + t) < q) by {
            assert(2 * t * (0 + t) == 2 * t * t) by (nonlinear_arith);
        }
        lemma_round_trip_coeff(q, t, m[i], 0);
    }
}

/// A seed determines the generated key pair completely: any two pairs
/// generated from the same seed and configuration are equal, field for
/// field. (Unseeded generation draws from the secure source instead,
/// so two such pairs differ with overwhelming probability; nothing can
/// be proved of random draws.)
pub proof fn lemma_seeded_generation_deterministic(
    p: Parameters,
    seed: u64,
    kp1: KeyPair,
    kp2: KeyPair,
)
    requires
        kp1.secret@ == spec_keygen_s(p, seed),
        kp1.public.a@ == spec_keygen_a(p, seed),
        kp1.public.b@ == spec_keygen_b(p, seed),
        kp2.secret@ == spec_keygen_s(p, seed),
        kp2.public.a@ == spec_keygen_a(p, seed),
        kp2.public.b@ == spec_keygen_b(p, seed),
    ensures
        kp1.secret@ == kp2.secret@,
        kp1.public.a@ == kp2.public.a@,
        kp1.public.b@ == kp2.public.b@,
{
}

/// Stripping trailing zeros from a sequence that is a message followed
/// by zero padding gives the message back, provided the message does
/// not itself end in a zero byte.
proof fn lemma_strip_padding(x: Seq<u8>, tail: Seq<u8>)
    requires
        forall|i: int| 0 <= i < tail.len() ==> #[trigger] tail[i] == 0,
        x.len() == 0 || x[x.len() - 1] != 0,
    ensures
        strip_zeros(x + tail) == x,
    decreases tail.len(),
{
    if tail.len() == 0 {
        assert(x + tail =~= x);
    } else {
        let whole = x + tail;
        assert(whole[whole.len() - 1] == tail[tail.len() - 1]);
        assert(whole.drop_last() =~= x + tail.drop_last());
        lemma_strip_padding(x, tail.drop_last());
    }
}

/// The message codec round trip: mapping a message's bytes onto
/// coefficients and reading the bytes back (dropping the zero padding)
/// gives the message, for any message that fits and does not end in a
/// zero byte.
pub proof fn lemma_message_round_trip(bytes: Seq<u8>, n: int)
    requires
        8 * bytes.len() <= n,
        bytes.len() == 0 || bytes[bytes.len() - 1] != 0,
    ensures
        strip_zeros(msg_bytes(msg_coeffs(bytes, n).take(8 * (n / 8)))) == bytes,
{
    let cap = n / 8;
    let coeffs = msg_coeffs(bytes, n);
    let used = coeffs.take(8 * cap);
    vstd::arithmetic::div_mod::lemma_fundamental_div_mod(n, 8);
    vstd::arithmetic::div_mod::lemma_mod_bound(n, 8);
    assert(bytes.len() <= cap) by (nonlinear_arith)
        requires
            8 * bytes.len() <= n,
            n == 8 * cap + n % 8,
            0 <= n % 8 < 8,
    ;
    let rec = msg_bytes(used);
    assert(rec.len() == cap);
    assert forall|k: int| 0 <= k < bytes.len() implies #[trigger] rec[k] == bytes[k] by {
        lemma_byte_of_coeffs(bytes, n, cap, k);
    }
    assert forall|k: int| bytes.len() <= k < cap implies #[trigger] rec[k] == 0 by {
        lemma_byte_of_padding(bytes, n, cap, k);
    }
    let tail = rec.skip(bytes.len() as int);
    assert(rec =~= bytes + tail);
    lemma_strip_padding(bytes, tail);
}

/// A byte inside the message region is rebuilt exactly.
proof fn lemma_byte_of_coeffs(bytes: Seq<u8>, n: int, cap: int, k: int)
    requires
        cap == n / 8,
        8 * bytes.len() <= n,
        bytes.len() <= cap,
        0 <= k < bytes.len(),
    ensures
        msg_bytes(msg_coeffs(bytes, n).take(8 * cap))[k] == bytes[k],
{
    let coeffs = msg_coeffs(bytes, n);
    let used = coeffs.take(8 * cap);
    vstd::arithmetic::div_mod::lemma_fundamental_div_mod(n, 8);
    vstd::arithmetic::div_mod::lemma_mod_bound(n, 8);
    assert forall|j: int| 0 <= j < 8 implies #[trigger] used[8 * k + j] == bit_of(
        bytes[k],
        j,
    ) by {
        lemma_fundamental_div_mod_converse(8 * k + j, 8, k, j);
        assert(8 * k + j < 8 * bytes.len()) by (nonlinear_arith)
            requires
                k < bytes.len(),
                0 <= j < 8,
        ;
        assert(8 * k + j < 8 * cap) by (nonlinear_arith)
            requires
                k < cap,
                0 <= j < 8,
        ;
        assert(coeffs[8 * k + j] == bit_of(bytes[(8 * k + j) / 8], (8 * k + j) % 8));
    }
    lemma_byte_bits(bytes[k]);
    assert(byte_of_bits(used, k) == bytes[k] as int);
}

/// A byte inside the zero padding is zero.
proof fn lemma_byte_of_padding(bytes: Seq<u8>, n: int, cap: int, k: int)
    requires
        cap == n / 8,
        8 * bytes.len() <= n,
        bytes.len() <= k < cap,
    ensures
        msg_bytes(msg_coeffs(bytes, n).take(8 * cap))[k] == 0,
{
    let coeffs = msg_coeffs(bytes, n);
    let used = coeffs.take(8 * cap);
    vstd::arithmetic::div_mod::lemma_fundamental_div_mod(n, 8);
    vstd::arithmetic::div_mod::lemma_mod_bound(n, 8);
    assert forall|j: int| 0 <= j < 8 implies #[trigger] used[8 * k + j] == 0 by {
        assert(8 * k + j >= 8 * bytes.len()) by (nonlinear_arith)
            requires
                k >= bytes.len(),
                j >= 0,
        ;
        assert(8 * k + j < 8 * cap) by (nonlinear_arith)
            requires
                k < cap,
                0 <= j < 8,
        ;
    }
    assert(byte_of_bits(used, k) == 0);
}

} // verus!
