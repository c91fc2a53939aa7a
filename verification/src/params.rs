//! Scheme configuration: the ring dimension `n`, the ciphertext modulus
//! `q` and the plaintext modulus `t`. The modulus polynomial is fixed
//! as `x^n + 1` and never stored.

use vstd::prelude::*;
use crate::LweError;

verus! {

/// Largest ring dimension the engine accepts.
pub const MAX_N: usize = 65536;
/// Largest ciphertext modulus the engine accepts; chosen so that a
/// negacyclic convolution accumulator `n * q * q` stays far below `i64::MAX`.
pub const MAX_Q: i64 = 65536;

/// Scheme configuration. `f = x^n + 1` is implicit.
pub struct Parameters {
    /// Ring dimension; must be a positive power of two.
    pub n: usize,
    /// Ciphertext modulus.
    pub q: i64,
    /// Plaintext modulus.
    pub t: i64,
}

/// `n` is a positive power of two.
pub open spec fn is_power_of_two(n: nat) -> bool
    decreases n,
{
    if n == 0 {
        false
    } else if n == 1 {
        true
    } else {
        n % 2 == 0 && is_power_of_two(n / 2)
    }
}

impl Parameters {
    /// The valid configurations: n a positive power of two within range,
    /// and moduli with q > t >= 2. All arithmetic contracts assume this.
    pub open spec fn valid(self) -> bool {
        &&& 1 <= self.n <= MAX_N
        &&& is_power_of_two(self.n as nat)
        &&& 2 <= self.t < self.q <= MAX_Q
    }

    /// The scaling factor `delta = floor(q / t)` that places a plaintext
    /// coefficient in the high-order range of the ciphertext modulus.
    pub open spec fn spec_delta(self) -> int {
        self.q as int / self.t as int
    }

    pub fn delta(&self) -> (r: i64)
        requires
            self.valid(),
        ensures
            r == self.spec_delta(),
    {
        self.q / self.t
    }

    /// Runtime check matching `valid`.
    pub fn is_valid(&self) -> (r: bool)
        ensures
            r == self.valid(),
    {
        if self.n < 1 || self.n > MAX_N {
            return false;
        }
        if !(2 <= self.t && self.t < self.q && self.q <= MAX_Q) {
            return false;
        }
        let mut m: usize = self.n;
        while m > 1
            invariant
                1 <= m,
                is_power_of_two(self.n as nat) <==> is_power_of_two(m as nat),
            decreases m,
        {
            if m % 2 != 0 {
                assert(!is_power_of_two(m as nat));
                return false;
            }
            m = m / 2;
        }
        assert(is_power_of_two(1nat));
        true
    }

    /// Rejects an invalid configuration before any randomness is drawn.
    pub fn validate(&self) -> (r: Result<(), LweError>)
        ensures
            r is Ok <==> self.valid(),
            r is Err ==> r->Err_0 == LweError::ParameterError,
    {
        if self.is_valid() {
            Ok(())
        } else {
            Err(LweError::ParameterError)
        }
    }
}

/// The deployment default configuration.
pub open spec fn spec_default_params() -> Parameters {
    Parameters { n: 512, q: 12289, t: 2 }
}

impl Default for Parameters {
    /// Deployment default: n = 512, q = 12289, t = 2, which keeps the
    /// accumulated noise of ternary secrets and errors well below the
    /// correctness margin q / (2 t).
    fn default() -> (r: Self)
        ensures
            r == spec_default_params(),
            r.valid(),
    {
        let p = Parameters { n: 512, q: 12289, t: 2 };
        proof {
            reveal_with_fuel(is_power_of_two, 11);
            assert(is_power_of_two(512nat));
        }
        p
    }
}

impl Clone for Parameters {
    fn clone(&self) -> (r: Self)
        ensures
            r.n == self.n && r.q == self.q && r.t == self.t,
    {
        Parameters { n: self.n, q: self.q, t: self.t }
    }
}

/// The configuration echoed back to callers alongside a generated key pair.
pub struct ParametersInfo {
    pub n: usize,
    pub q: i64,
    pub t: i64,
}

impl Parameters {
    pub fn info(&self) -> (r: ParametersInfo)
        ensures
            r.n == self.n && r.q == self.q && r.t == self.t,
    {
        ParametersInfo { n: self.n, q: self.q, t: self.t }
    }
}

/// Optional caller-supplied overrides of the default configuration.
pub struct CustomParameters {
    pub n: Option<usize>,
    pub q: Option<i64>,
    pub t: Option<i64>,
}

impl CustomParameters {
    /// The configuration obtained by laying these overrides over a base.
    pub open spec fn spec_apply(self, base: Parameters) -> Parameters {
        Parameters {
            n: if self.n is Some { self.n->0 } else { base.n },
            q: if self.q is Some { self.q->0 } else { base.q },
            t: if self.t is Some { self.t->0 } else { base.t },
        }
    }

    /// Lays the overrides over `base`: each field that is present
    /// replaces the base value, the others are kept.
    pub fn apply(&self, base: &Parameters) -> (r: Parameters)
        ensures
            r == self.spec_apply(*base),
    {
        Parameters {
            n: match self.n {
                Some(n) => n,
                None => base.n,
            },
            q: match self.q {
                Some(q) => q,
                None => base.q,
            },
            t: match self.t {
                Some(t) => t,
                None => base.t,
            },
        }
    }
}

/// An encryption request at the API boundary: a string-encoded public
/// key, the message text, and optional parameter overrides.
pub struct EncryptRequest {
    pub public_key: String,
    pub message: String,
    pub parameters: Option<CustomParameters>,
}

/// A decryption request at the API boundary: a string-encoded secret
/// key, the ciphertext text, and optional parameter overrides.
pub struct DecryptRequest {
    pub secret_key: String,
    pub ciphertext: String,
    pub parameters: Option<CustomParameters>,
}

/// The configuration a request asks for: the overrides laid over the
/// deployment default.
pub open spec fn spec_requested(overrides: Option<CustomParameters>) -> Parameters {
    if overrides is Some {
        overrides->0.spec_apply(spec_default_params())
    } else {
        spec_default_params()
    }
}

/// The configuration a request asks for: the overrides, if any, laid
/// over the deployment default.
pub fn requested_parameters(overrides: &Option<CustomParameters>) -> (r: Parameters)
    ensures
        r == spec_requested(*overrides),
{
    let base = Parameters::default();
    match overrides {
        Some(c) => c.apply(&base),
        None => base,
    }
}

} // verus!
