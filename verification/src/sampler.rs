//! Randomness for the engine. A sampler either expands a caller-supplied
//! seed through a fixed deterministic stream (so tests and repeated runs
//! are reproducible bit for bit) or draws from the process's
//! cryptographically secure generator, the default.
//!
//! The deterministic stream is the classic Lehmer generator: the state
//! is an integer in `[1, 2147483646]` and each step multiplies it by
//! 48271 modulo the prime 2147483647. Every draw hands back the new state.

use vstd::prelude::*;
use vstd::arithmetic::div_mod::lemma_mod_bound;
use crate::params::Parameters;
use crate::ring::RingElement;

verus! {

/// Modulus of the deterministic stream.
pub const STREAM_MOD: u64 = 2147483647;
/// Multiplier of the deterministic stream.
pub const STREAM_MUL: u64 = 48271;

/// The deterministic state derived from a seed: an integer in
/// `[1, 2147483646]`.
pub open spec fn stream_init(seed: u64) -> int {
    seed as int % (STREAM_MOD as int - 1) + 1
}

/// One step of the deterministic stream.
pub open spec fn stream_next(s: int) -> int {
    (s * STREAM_MUL as int) % STREAM_MOD as int
}

/// The state after m steps.
pub open spec fn stream_at(s0: int, m: nat) -> int
    decreases m,
{
    if m == 0 {
        s0
    } else {
        stream_next(stream_at(s0, (m - 1) as nat))
    }
}

/// A deterministic state is in range.
pub open spec fn stream_wf(s: int) -> bool {
    0 <= s < STREAM_MOD
}

/// Draws either from the deterministic stream (seeded) or from the
/// secure source.
pub struct Sampler {
    pub seeded: bool,
    pub state: u64,
}

/// Relies on rand::random: draws a fresh value from the thread-local
/// cryptographically secure generator. Nothing is promised of the value.
#[verifier::external_body]
fn secure_u64() -> u64 {
    rand::random::<u64>()
}

/// The uniform coefficient obtained from one raw draw.
pub open spec fn uniform_of(draw: int, q: int) -> int {
    draw % q
}

/// The small coefficient obtained from one raw draw: a value of
/// `[-bound, bound]` stored in the canonical range, a negative value v
/// as q + v.
pub open spec fn small_of(draw: int, bound: int, q: int) -> int {
    let d = draw % (2 * bound + 1);
    if d <= bound {
        d
    } else {
        q - (d - bound)
    }
}

/// The uniform element drawn by a seeded sampler at state s0.
pub open spec fn spec_sample_uniform(s0: int, n: nat, q: int) -> Seq<int> {
    Seq::new(n, |i: int| uniform_of(stream_at(s0, (i + 1) as nat), q))
}

/// The small element drawn by a seeded sampler at state s0.
pub open spec fn spec_sample_small(s0: int, n: nat, bound: int, q: int) -> Seq<int> {
    Seq::new(n, |i: int| small_of(stream_at(s0, (i + 1) as nat), bound, q))
}

/// Every entry is a stored small value: at most `bound` away from 0
/// modulo q.
pub open spec fn is_small(s: Seq<int>, bound: int, q: int) -> bool {
    forall|i: int| 0 <= i < s.len() ==> 0 <= #[trigger] s[i] < q
        && (s[i] <= bound || s[i] >= q - bound)
}

impl Sampler {
    /// In a seeded sampler the state is a valid stream state.
    pub open spec fn wf(self) -> bool {
        self.seeded ==> stream_wf(self.state as int)
    }

    /// A sampler that expands `seed` deterministically.
    pub fn from_seed(seed: u64) -> (r: Sampler)
        ensures
            r.seeded,
            r.wf(),
            r.state as int == stream_init(seed),
    {
        Sampler { seeded: true, state: seed % (STREAM_MOD - 1) + 1 }
    }

    /// A sampler backed by the secure source.
    pub fn fresh() -> (r: Sampler)
        ensures
            !r.seeded,
            r.wf(),
    {
        Sampler { seeded: false, state: 0 }
    }

    /// One raw draw. A seeded sampler steps its stream and hands the new
    /// state back; a fresh sampler hands back a secure random value of
    /// which nothing is known.
    fn next(&mut self) -> (r: u64)
        requires
            old(self).wf(),
        ensures
            final(self).wf(),
            final(self).seeded == old(self).seeded,
            old(self).seeded ==> final(self).state as int == stream_next(old(self).state as int)
                && r == final(self).state,
    {
        if self.seeded {
            proof {
                assert(0 <= (self.state as int) * (STREAM_MUL as int)
                    < 2147483647int * 48271) by (nonlinear_arith)
                    requires
                        0 <= (self.state as int) && (self.state as int) < 2147483647,
                ;
                lemma_mod_bound((self.state as int) * (STREAM_MUL as int), STREAM_MOD as int);
            }
            let next: u64 = (self.state * STREAM_MUL) % STREAM_MOD;
            self.state = next;
            next
        } else {
            secure_u64()
        }
    }

    /// Draws a ring element with every coefficient in `[0, q)`. Seeded,
    /// the element is exactly the one the stream prescribes.
    pub fn sample_uniform(&mut self, p: &Parameters) -> (r: RingElement)
        requires
            old(self).wf(),
            p.valid(),
        ensures
            final(self).wf(),
            final(self).seeded == old(self).seeded,
            r.wf(*p),
            old(self).seeded ==> r@ == spec_sample_uniform(
                old(self).state as int,
                p.n as nat,
                p.q as int,
            ) && final(self).state as int == stream_at(old(self).state as int, p.n as nat),
    {
        let n: usize = p.n;
        let q: i64 = p.q;
        let ghost s0: int = old(self).state as int;
        let mut out: Vec<i64> = Vec::new();
        let mut k: usize = 0;
        while k < n
            invariant
                self.wf(),
                self.seeded == old(self).seeded,
                p.valid(),
                n == p.n,
                q == p.q,
                k <= n,
                out@.len() == k,
                forall|i: int| 0 <= i < k ==> 0 <= #[trigger] out@[i] < q,
                old(self).seeded ==> self.state as int == stream_at(s0, k as nat)
                    && forall|i: int| 0 <= i < k ==> #[trigger] out@[i] as int
                        == uniform_of(stream_at(s0, (i + 1) as nat), q as int),
            decreases n - k,
        {
            let d: u64 = self.next();
            let v: i64 = (d % (q as u64)) as i64;
            proof {
                lemma_mod_bound(d as int, q as int);
            }
            out.push(v);
            k = k + 1;
        }
        let r = RingElement { coeffs: out };
        proof {
            if old(self).seeded {
                assert(r@ =~= spec_sample_uniform(s0, p.n as nat, p.q as int));
            }
        }
        r
    }

    /// Draws a ring element whose coefficients are at most `bound` away
    /// from 0 modulo q: a value v of `[-bound, bound]`, a negative one
    /// stored as q + v. Seeded, the element is exactly the one the
    /// stream prescribes.
    pub fn sample_small(&mut self, p: &Parameters, bound: i64) -> (r: RingElement)
        requires
            old(self).wf(),
            p.valid(),
            1 <= bound,
            2 * bound + 1 <= p.q,
        ensures
            final(self).wf(),
            final(self).seeded == old(self).seeded,
            r.wf(*p),
            is_small(r@, bound as int, p.q as int),
            old(self).seeded ==> r@ == spec_sample_small(
                old(self).state as int,
                p.n as nat,
                bound as int,
                p.q as int,
            ) && final(self).state as int == stream_at(old(self).state as int, p.n as nat),
    {
        let n: usize = p.n;
        let q: i64 = p.q;
        let width: u64 = (2 * bound + 1) as u64;
        let ghost s0: int = old(self).state as int;
        let mut out: Vec<i64> = Vec::new();
        let mut k: usize = 0;
        while k < n
            invariant
                self.wf(),
                self.seeded == old(self).seeded,
                p.valid(),
                n == p.n,
                q == p.q,
                1 <= bound,
                2 * bound + 1 <= q,
                width == 2 * bound + 1,
                k <= n,
                out@.len() == k,
                forall|i: int| 0 <= i < k ==> 0 <= #[trigger] out@[i] < q
                    && (out@[i] <= bound || out@[i] >= q - bound),
                old(self).seeded ==> self.state as int == stream_at(s0, k as nat)
                    && forall|i: int| 0 <= i < k ==> #[trigger] out@[i] as int
                        == small_of(stream_at(s0, (i + 1) as nat), bound as int, q as int),
            decreases n - k,
        {
            let draw: u64 = self.next();
            let d: u64 = draw % width;
            proof {
                lemma_mod_bound(draw as int, width as int);
            }
            let v: i64 = if d <= bound as u64 {
                d as i64
            } else {
                q - (d as i64 - bound)
            };
            proof {
                assert(v as int == small_of(draw as int, bound as int, q as int));
            }
            out.push(v);
            k = k + 1;
        }
        let r = RingElement { coeffs: out };
        proof {
            if old(self).seeded {
                assert(r@ =~= spec_sample_small(s0, p.n as nat, bound as int, p.q as int));
            }
        }
        r
    }
}

} // verus!
