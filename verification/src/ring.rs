//! Elements of the quotient ring `R_q = Z_q[x] / (x^n + 1)` and their
//! arithmetic: pointwise addition and subtraction, scalar multiplication,
//! and the negacyclic convolution product, every result normalized into
//! the canonical coefficient range `[0, q)`.

use vstd::prelude::*;
use vstd::arithmetic::div_mod::{
    lemma_mod_multiples_vanish, lemma_mod_bound, lemma_fundamental_div_mod, lemma_small_mod,
};
use crate::LweError;
use crate::params::Parameters;

verus! {

/// A polynomial of degree < n, stored as its n coefficients in order of
/// increasing degree.
pub struct RingElement {
    pub coeffs: Vec<i64>,
}

impl View for RingElement {
    type V = Seq<int>;

    open spec fn view(&self) -> Seq<int> {
        self.coeffs@.map_values(|x: i64| x as int)
    }
}

/// Every entry of `s` lies in the canonical range `[0, q)`.
pub open spec fn all_in_range(s: Seq<int>, q: int) -> bool {
    forall|i: int| 0 <= i < s.len() ==> 0 <= #[trigger] s[i] < q
}

impl RingElement {
    /// Coefficients normalized into `[0, q)`.
    pub open spec fn in_range(self, q: int) -> bool {
        all_in_range(self@, q)
    }

    /// Well-formed for the configuration: exactly n coefficients, each
    /// in the canonical range.
    pub open spec fn wf(self, p: Parameters) -> bool {
        self@.len() == p.n && self.in_range(p.q as int)
    }

    pub fn len(&self) -> (r: usize)
        ensures
            r == self@.len(),
    {
        self.coeffs.len()
    }
}

impl Clone for RingElement {
    fn clone(&self) -> (r: Self)
        ensures
            r@ == self@,
    {
        let r = RingElement { coeffs: self.coeffs.clone() };
        proof {
            assert(r@ =~= self@);
        }
        r
    }
}

/// Pointwise sum, each entry reduced mod q.
pub open spec fn ring_add(a: Seq<int>, b: Seq<int>, q: int) -> Seq<int> {
    Seq::new(a.len(), |i: int| (a[i] + b[i]) % q)
}

/// Pointwise difference, each entry reduced mod q.
pub open spec fn ring_sub(a: Seq<int>, b: Seq<int>, q: int) -> Seq<int> {
    Seq::new(a.len(), |i: int| (a[i] - b[i]) % q)
}

/// Every entry scaled by c, reduced mod q.
pub open spec fn ring_scale(c: int, a: Seq<int>, q: int) -> Seq<int> {
    Seq::new(a.len(), |i: int| (c * a[i]) % q)
}

/// One term of the negacyclic convolution at output degree k: the
/// product `a[i] * b[j]` where `i + j = k` or `i + j = k + n`; in the
/// second case the term wraps past degree n and its sign flips.
pub open spec fn conv_term(a: Seq<int>, b: Seq<int>, k: int, i: int) -> int {
    if i <= k {
        a[i] * b[k - i]
    } else {
        -(a[i] * b[k + a.len() - i])
    }
}

/// Sum of the first m negacyclic convolution terms at output degree k.
pub open spec fn conv_partial(a: Seq<int>, b: Seq<int>, k: int, m: int) -> int
    decreases m,
{
    if m <= 0 {
        0
    } else {
        conv_partial(a, b, k, m - 1) + conv_term(a, b, k, m - 1)
    }
}

/// Coefficient k of the product of a and b modulo `x^n + 1`, before
/// reduction mod q.
pub open spec fn conv_full(a: Seq<int>, b: Seq<int>, k: int) -> int {
    conv_partial(a, b, k, a.len() as int)
}

/// The negacyclic product, each coefficient reduced mod q.
pub open spec fn ring_mul(a: Seq<int>, b: Seq<int>, q: int) -> Seq<int> {
    Seq::new(a.len(), |k: int| conv_full(a, b, k) % q)
}

/// Each partial convolution sum of m terms over entries in `[0, q)` is
/// bounded in magnitude by `m * q * q`.
proof fn lemma_conv_partial_bound(a: Seq<int>, b: Seq<int>, k: int, m: int, q: int)
    requires
        a.len() == b.len(),
        all_in_range(a, q),
        all_in_range(b, q),
        0 < q,
        0 <= k < a.len(),
        0 <= m <= a.len(),
    ensures
        -(m * q * q) <= conv_partial(a, b, k, m) <= m * q * q,
    decreases m,
{
    if m > 0 {
        lemma_conv_partial_bound(a, b, k, m - 1, q);
        let i = m - 1;
        let j = if i <= k {
            k - i
        } else {
            k + a.len() - i
        };
        assert(0 <= j < b.len());
        assert(0 <= a[i] * b[j] <= q * q) by (nonlinear_arith)
            requires
                0 <= a[i] < q,
                0 <= b[j] < q,
        ;
        assert((m - 1) * q * q + q * q == m * q * q) by (nonlinear_arith);
    }
}

impl RingElement {
    /// Internal sum of two well-formed elements.
    fn add_wf(&self, p: &Parameters, other: &RingElement) -> (r: RingElement)
        requires
            p.valid(),
            self.wf(*p),
            other.wf(*p),
        ensures
            r.wf(*p),
            r@ == ring_add(self@, other@, p.q as int),
    {
        let n: usize = p.n;
        let q: i64 = p.q;
        let mut out: Vec<i64> = Vec::new();
        let mut k: usize = 0;
        while k < n
            invariant
                p.valid(),
                self.wf(*p),
                other.wf(*p),
                n == p.n,
                q == p.q,
                k <= n,
                out@.len() == k,
                forall|i: int| 0 <= i < k ==> #[trigger] out@[i] ==
                    (self@[i] + other@[i]) % (q as int),
                forall|i: int| 0 <= i < k ==> 0 <= #[trigger] out@[i] < q,
            decreases n - k,
        {
            let a: i64 = self.coeffs[k];
            let b: i64 = other.coeffs[k];
            proof {
                assert(self@[k as int] == a as int);
                assert(other@[k as int] == b as int);
            }
            let v: i64 = (a + b) % q;
            out.push(v);
            k = k + 1;
        }
        let r = RingElement { coeffs: out };
        proof {
            assert(r@ =~= ring_add(self@, other@, p.q as int));
        }
        r
    }

    /// Internal difference of two well-formed elements.
    fn sub_wf(&self, p: &Parameters, other: &RingElement) -> (r: RingElement)
        requires
            p.valid(),
            self.wf(*p),
            other.wf(*p),
        ensures
            r.wf(*p),
            r@ == ring_sub(self@, other@, p.q as int),
    {
        let n: usize = p.n;
        let q: i64 = p.q;
        let mut out: Vec<i64> = Vec::new();
        let mut k: usize = 0;
        while k < n
            invariant
                p.valid(),
                self.wf(*p),
                other.wf(*p),
                n == p.n,
                q == p.q,
                k <= n,
                out@.len() == k,
                forall|i: int| 0 <= i < k ==> #[trigger] out@[i] ==
                    (self@[i] - other@[i]) % (q as int),
                forall|i: int| 0 <= i < k ==> 0 <= #[trigger] out@[i] < q,
            decreases n - k,
        {
            let a: i64 = self.coeffs[k];
            let b: i64 = other.coeffs[k];
            proof {
                assert(self@[k as int] == a as int);
                assert(other@[k as int] == b as int);
            }
            let v: i64 = (a + (q - b)) % q;
            proof {
                let d = self@[k as int] - other@[k as int];
                lemma_mod_multiples_vanish(1, d, q as int);
                lemma_mod_bound(d, q as int);
            }
            out.push(v);
            k = k + 1;
        }
        let r = RingElement { coeffs: out };
        proof {
            assert(r@ =~= ring_sub(self@, other@, p.q as int));
        }
        r
    }

    /// Internal scalar product of a well-formed element by `c` in `[0, q)`.
    fn scale_wf(&self, p: &Parameters, c: i64) -> (r: RingElement)
        requires
            p.valid(),
            self.wf(*p),
            0 <= c < p.q,
        ensures
            r.wf(*p),
            r@ == ring_scale(c as int, self@, p.q as int),
    {
        let n: usize = p.n;
        let q: i64 = p.q;
        let mut out: Vec<i64> = Vec::new();
        let mut k: usize = 0;
        while k < n
            invariant
                p.valid(),
                self.wf(*p),
                n == p.n,
                q == p.q,
                0 <= c < q,
                k <= n,
                out@.len() == k,
                forall|i: int| 0 <= i < k ==> #[trigger] out@[i] ==
                    (c as int * self@[i]) % (q as int),
                forall|i: int| 0 <= i < k ==> 0 <= #[trigger] out@[i] < q,
            decreases n - k,
        {
            let a: i64 = self.coeffs[k];
            proof {
                assert(self@[k as int] == a as int);
                assert(0 <= (c as int) * (a as int) <= (q as int) * (q as int))
                    by (nonlinear_arith)
                    requires
                        0 <= c < q,
                        0 <= a < q,
                ;
                assert((q as int) * (q as int) <= 65536int * 65536) by (nonlinear_arith)
                    requires
                        0 < q <= 65536,
                ;
            }
            let v: i64 = (c * a) % q;
            out.push(v);
            k = k + 1;
        }
        let r = RingElement { coeffs: out };
        proof {
            assert(r@ =~= ring_scale(c as int, self@, p.q as int));
        }
        r
    }

    /// Internal negacyclic product of two well-formed elements: naive
    /// O(n^2) convolution, a coefficient landing at degree n + k wraps
    /// to degree k with a sign flip, then reduction mod q.
    fn mul_wf(&self, p: &Parameters, other: &RingElement) -> (r: RingElement)
        requires
            p.valid(),
            self.wf(*p),
            other.wf(*p),
        ensures
            r.wf(*p),
            r@ == ring_mul(self@, other@, p.q as int),
    {
        let n: usize = p.n;
        let q: i64 = p.q;
        proof {
            assert((n as int) * (q as int) <= 65536int * 65536) by (nonlinear_arith)
                requires
                    0 < n <= 65536,
                    0 < q <= 65536,
            ;
            assert(0 < (n as int) * (q as int) * (q as int) <= 65536int * 65536 * 65536)
                by (nonlinear_arith)
                requires
                    0 < n <= 65536,
                    0 < q <= 65536,
            ;
        }
        let nq: i64 = (n as i64) * q;
        let nqq: i64 = nq * q;
        let mut out: Vec<i64> = Vec::new();
        let mut k: usize = 0;
        while k < n
            invariant
                p.valid(),
                self.wf(*p),
                other.wf(*p),
                n == p.n,
                q == p.q,
                nqq == n * (q as int) * (q as int),
                nqq <= 65536int * 65536 * 65536,
                k <= n,
                out@.len() == k,
                forall|i: int| 0 <= i < k ==> #[trigger] out@[i] ==
                    conv_full(self@, other@, i) % (q as int),
                forall|i: int| 0 <= i < k ==> 0 <= #[trigger] out@[i] < q,
            decreases n - k,
        {
            let mut acc: i64 = 0;
            let mut i: usize = 0;
            while i < n
                invariant
                    p.valid(),
                    self.wf(*p),
                    other.wf(*p),
                    n == p.n,
                    q == p.q,
                    nqq == n * (q as int) * (q as int),
                    k < n,
                    i <= n,
                    acc == conv_partial(self@, other@, k as int, i as int),
                    -((i as int) * (q as int) * (q as int)) <= acc as int
                        <= (i as int) * (q as int) * (q as int),
                decreases n - i,
            {
                let j: usize = if i <= k {
                    k - i
                } else {
                    k + n - i
                };
                let ai: i64 = self.coeffs[i];
                let bj: i64 = other.coeffs[j];
                proof {
                    assert(self@[i as int] == ai as int);
                    assert(other@[j as int] == bj as int);
                    lemma_conv_partial_bound(self@, other@, k as int, i as int, q as int);
                    assert(0 <= (ai as int) * (bj as int) <= (q as int) * (q as int))
                        by (nonlinear_arith)
                        requires
                            0 <= ai < q,
                            0 <= bj < q,
                    ;
                    assert((i as int) * (q as int) * (q as int) + (q as int) * (q as int)
                        == (i + 1) * (q as int) * (q as int)) by (nonlinear_arith);
                    assert((i + 1) * (q as int) * (q as int) <= (n as int) * (q as int) * (q as int))
                        by (nonlinear_arith)
                        requires
                            i + 1 <= n,
                            0 < q,
                    ;
                }
                let term: i64 = ai * bj;
                if i <= k {
                    acc = acc + term;
                } else {
                    acc = acc - term;
                }
                i = i + 1;
            }
            proof {
                lemma_conv_partial_bound(self@, other@, k as int, n as int, q as int);
                assert((q as int) * ((n as int) * (q as int))
                    == (n as int) * (q as int) * (q as int)) by (nonlinear_arith);
                lemma_mod_multiples_vanish((n as int) * (q as int), acc as int, q as int);
                lemma_mod_bound(acc as int, q as int);
            }
            let v: i64 = (acc + nqq) % q;
            out.push(v);
            k = k + 1;
        }
        let r = RingElement { coeffs: out };
        proof {
            assert(r@ =~= ring_mul(self@, other@, p.q as int));
        }
        r
    }

    /// Sum in R_q. Fails with ShapeError exactly when either operand
    /// does not have n coefficients; never truncates or pads.
    pub fn add(&self, p: &Parameters, other: &RingElement) -> (r: Result<RingElement, LweError>)
        requires
            p.valid(),
            self.in_range(p.q as int),
            other.in_range(p.q as int),
        ensures
            r is Ok <==> self@.len() == p.n && other@.len() == p.n,
            r is Err ==> r->Err_0 == LweError::ShapeError,
            r is Ok ==> r->Ok_0.wf(*p) && r->Ok_0@ == ring_add(self@, other@, p.q as int),
    {
        if self.coeffs.len() != p.n || other.coeffs.len() != p.n {
            return Err(LweError::ShapeError);
        }
        Ok(self.add_wf(p, other))
    }

    /// Difference in R_q. Fails with ShapeError exactly when either
    /// operand does not have n coefficients.
    pub fn sub(&self, p: &Parameters, other: &RingElement) -> (r: Result<RingElement, LweError>)
        requires
            p.valid(),
            self.in_range(p.q as int),
            other.in_range(p.q as int),
        ensures
            r is Ok <==> self@.len() == p.n && other@.len() == p.n,
            r is Err ==> r->Err_0 == LweError::ShapeError,
            r is Ok ==> r->Ok_0.wf(*p) && r->Ok_0@ == ring_sub(self@, other@, p.q as int),
    {
        if self.coeffs.len() != p.n || other.coeffs.len() != p.n {
            return Err(LweError::ShapeError);
        }
        Ok(self.sub_wf(p, other))
    }

    /// Scalar product in R_q: every coefficient times `c`, reduced.
    pub fn scale(&self, p: &Parameters, c: i64) -> (r: RingElement)
        requires
            p.valid(),
            self.wf(*p),
            0 <= c < p.q,
        ensures
            r.wf(*p),
            r@ == ring_scale(c as int, self@, p.q as int),
    {
        self.scale_wf(p, c)
    }

    /// Negacyclic product in R_q. Fails with ShapeError exactly when
    /// either operand does not have n coefficients.
    pub fn mul(&self, p: &Parameters, other: &RingElement) -> (r: Result<RingElement, LweError>)
        requires
            p.valid(),
            self.in_range(p.q as int),
            other.in_range(p.q as int),
        ensures
            r is Ok <==> self@.len() == p.n && other@.len() == p.n,
            r is Err ==> r->Err_0 == LweError::ShapeError,
            r is Ok ==> r->Ok_0.wf(*p) && r->Ok_0@ == ring_mul(self@, other@, p.q as int),
    {
        if self.coeffs.len() != p.n || other.coeffs.len() != p.n {
            return Err(LweError::ShapeError);
        }
        Ok(self.mul_wf(p, other))
    }

    /// Builds an element from raw coefficients, reducing each into the
    /// canonical range `[0, q)`. Fails with ShapeError exactly when the
    /// input does not have n entries.
    pub fn from_coeffs(p: &Parameters, raw: &Vec<i64>) -> (r: Result<RingElement, LweError>)
        requires
            p.valid(),
        ensures
            r is Ok <==> raw@.len() == p.n,
            r is Err ==> r->Err_0 == LweError::ShapeError,
            r is Ok ==> r->Ok_0.wf(*p) && r->Ok_0@ == Seq::new(
                raw@.len() as nat,
                |i: int| (raw@[i] as int) % (p.q as int),
            ),
    {
        if raw.len() != p.n {
            return Err(LweError::ShapeError);
        }
        let n: usize = p.n;
        let q: i64 = p.q;
        let mut out: Vec<i64> = Vec::new();
        let mut k: usize = 0;
        while k < n
            invariant
                p.valid(),
                raw@.len() == n,
                n == p.n,
                q == p.q,
                k <= n,
                out@.len() == k,
                forall|i: int| 0 <= i < k ==> #[trigger] out@[i] ==
                    (raw@[i] as int) % (q as int),
                forall|i: int| 0 <= i < k ==> 0 <= #[trigger] out@[i] < q,
            decreases n - k,
        {
            let x: i64 = raw[k];
            let v: i64 = if x >= 0 {
                x % q
            } else {
                let xm: i128 = -(x as i128);
                let y: i128 = xm % (q as i128);
                proof {
                    let xi = x as int;
                    let qi = q as int;
                    let yi = (-xi) % qi;
                    lemma_mod_bound(-xi, qi);
                    lemma_fundamental_div_mod(-xi, qi);
                    // -x == q * ((-x)/q) + y, so x == q * (-((-x)/q)) + (-y)
                    let d = (-xi) / qi;
                    assert(qi * (-d) == -(qi * d)) by (nonlinear_arith);
                    lemma_mod_multiples_vanish(-d, -yi, qi);
                    assert(xi == qi * (-d) + (-yi));
                    assert(xi % qi == (-yi) % qi);
                    if yi == 0 {
                        lemma_small_mod(0nat, qi as nat);
                    } else {
                        lemma_mod_multiples_vanish(-1, qi - yi, qi);
                        lemma_small_mod((qi - yi) as nat, qi as nat);
                        assert(xi % qi == qi - yi);
                    }
                }
                if y == 0 {
                    0i64
                } else {
                    (q as i128 - y) as i64
                }
            };
            proof {
                lemma_mod_bound(x as int, q as int);
                assert(v as int == (x as int) % (q as int));
            }
            out.push(v);
            k = k + 1;
        }
        let r = RingElement { coeffs: out };
        proof {
            assert(r@ =~= Seq::new(raw@.len() as nat, |i: int| (raw@[i] as int) % (p.q as int)));
        }
        Ok(r)
    }
}

} // verus!
