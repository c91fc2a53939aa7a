//! The canonical string form of keys, ciphertexts and messages.
//!
//! A ring element is written as its n coefficients in order, each as
//! exactly five decimal digits (the canonical range never exceeds the
//! largest accepted modulus, 65536). A public key and a ciphertext are
//! each a pair of elements, written one after the other. Parsing is
//! strict: only strings of exactly this shape, with every coefficient
//! below q, are accepted.
//!
//! A message is UTF-8 text; its bytes map one bit per coefficient, most
//! significant bit first, zero-padded up to n coefficients.

use vstd::prelude::*;
use vstd::arithmetic::div_mod::{
    lemma_div_denominator, lemma_basic_div,
    lemma_fundamental_div_mod, lemma_fundamental_div_mod_converse, lemma_mod_bound,
    lemma_multiply_divide_lt,
};
use vstd::string::{StrSliceExecFns, StringSliceAdditionalSpecFns};
use vstd::utf8::{
    valid_utf8, encode_utf8, partial_valid_utf8, partial_valid_utf8_extend_ascii_block,
    is_leading_byte_width_1,
};
use crate::LweError;
use crate::params::Parameters;
use crate::ring::RingElement;

verus! {

/// The ASCII digit for a value in [0, 10).
pub open spec fn dg(d: int) -> u8 {
    (48 + d) as u8
}

/// The value of an ASCII digit byte.
pub open spec fn dv(b: u8) -> int {
    b as int - 48
}

/// Every byte is an ASCII decimal digit.
pub open spec fn is_digit_seq(b: Seq<u8>) -> bool {
    forall|i: int| 0 <= i < b.len() ==> 48 <= #[trigger] b[i] <= 57
}

/// The five ASCII digits of a coefficient value in [0, 100000),
/// most significant first.
pub open spec fn encode5(v: int) -> Seq<u8> {
    let d4 = v / 10000;
    let r4 = v % 10000;
    let d3 = r4 / 1000;
    let r3 = r4 % 1000;
    let d2 = r3 / 100;
    let r2 = r3 % 100;
    let d1 = r2 / 10;
    let d0 = r2 % 10;
    seq![dg(d4), dg(d3), dg(d2), dg(d1), dg(d0)]
}

/// The value of five ASCII digits, most significant first.
pub open spec fn decode5(b: Seq<u8>) -> int {
    dv(b[0]) * 10000 + dv(b[1]) * 1000 + dv(b[2]) * 100 + dv(b[3]) * 10 + dv(b[4])
}

/// Encoding then decoding a coefficient value gives it back, and the
/// encoding is five digits.
pub proof fn lemma_decode_encode5(v: int)
    requires
        0 <= v < 100000,
    ensures
        decode5(encode5(v)) == v,
        encode5(v).len() == 5,
        is_digit_seq(encode5(v)),
{
    lemma_fundamental_div_mod(v, 10000);
    lemma_mod_bound(v, 10000);
    lemma_multiply_divide_lt(v, 10000, 10);
    let r4 = v % 10000;
    lemma_fundamental_div_mod(r4, 1000);
    lemma_mod_bound(r4, 1000);
    lemma_multiply_divide_lt(r4, 1000, 10);
    let r3 = r4 % 1000;
    lemma_fundamental_div_mod(r3, 100);
    lemma_mod_bound(r3, 100);
    lemma_multiply_divide_lt(r3, 100, 10);
    let r2 = r3 % 100;
    lemma_fundamental_div_mod(r2, 10);
    lemma_mod_bound(r2, 10);
    lemma_multiply_divide_lt(r2, 10, 10);
}

/// Decoding five digits gives a value in [0, 100000) that encodes back
/// to the same digits.
pub proof fn lemma_encode_decode5(b: Seq<u8>)
    requires
        b.len() == 5,
        is_digit_seq(b),
    ensures
        0 <= decode5(b) < 100000,
        encode5(decode5(b)) =~= b,
{
    let v = decode5(b);
    let d4 = dv(b[0]);
    let d3 = dv(b[1]);
    let d2 = dv(b[2]);
    let d1 = dv(b[3]);
    let d0 = dv(b[4]);
    let r4 = d3 * 1000 + d2 * 100 + d1 * 10 + d0;
    let r3 = d2 * 100 + d1 * 10 + d0;
    let r2 = d1 * 10 + d0;
    lemma_fundamental_div_mod_converse(v, 10000, d4, r4);
    lemma_fundamental_div_mod_converse(r4, 1000, d3, r3);
    lemma_fundamental_div_mod_converse(r3, 100, d2, r2);
    lemma_fundamental_div_mod_converse(r2, 10, d1, d0);
}

/// The bytes of a whole element: five digits per coefficient, in order.
pub open spec fn elem_bytes(s: Seq<int>) -> Seq<u8> {
    Seq::new(5 * s.len(), |i: int| encode5(s[i / 5])[i % 5])
}

/// The coefficients read back from element bytes (whose length must be
/// a multiple of five).
pub open spec fn elem_coeffs(b: Seq<u8>) -> Seq<int> {
    Seq::new(b.len() / 5, |k: int| decode5(b.subrange(5 * k, 5 * k + 5)))
}

/// Bytes that parse as an element for the configuration: 5 n digits
/// whose coefficient values all lie below q.
pub open spec fn elem_bytes_ok(b: Seq<u8>, n: int, q: int) -> bool {
    &&& b.len() == 5 * n
    &&& is_digit_seq(b)
    &&& forall|k: int| 0 <= k < n ==> 0 <= #[trigger] decode5(b.subrange(5 * k, 5 * k + 5)) < q
}

/// A chunk of the element encoding is the encoding of its coefficient.
proof fn lemma_elem_bytes_chunk(s: Seq<int>, k: int)
    requires
        forall|i: int| 0 <= i < s.len() ==> 0 <= #[trigger] s[i] < 100000,
        0 <= k < s.len(),
    ensures
        elem_bytes(s).subrange(5 * k, 5 * k + 5) =~= encode5(s[k]),
        encode5(s[k]).len() == 5,
{
    lemma_decode_encode5(s[k]);
    assert forall|j: int| 0 <= j < 5 implies elem_bytes(s).subrange(5 * k, 5 * k + 5)[j]
        == encode5(s[k])[j] by {
        lemma_fundamental_div_mod_converse(5 * k + j, 5, k, j);
        assert(elem_bytes(s)[5 * k + j] == encode5(s[(5 * k + j) / 5])[(5 * k + j) % 5]);
    }
}

/// Every byte of an element encoding is a digit.
#[verifier::rlimit(100)]
proof fn lemma_elem_bytes_digits(s: Seq<int>, q: int)
    requires
        0 < q <= 100000,
        forall|i: int| 0 <= i < s.len() ==> 0 <= #[trigger] s[i] < q,
    ensures
        is_digit_seq(elem_bytes(s)),
{
    let b = elem_bytes(s);
    assert forall|i: int| 0 <= i < b.len() implies 48 <= #[trigger] b[i] <= 57 by {
        lemma_mod_bound(i, 5);
        lemma_multiply_divide_lt(i, 5, s.len() as int);
        lemma_decode_encode5(s[i / 5]);
        assert(b[i] == encode5(s[i / 5])[i % 5]);
    }
}

/// Every chunk of an element encoding decodes to its coefficient.
#[verifier::rlimit(100)]
proof fn lemma_elem_bytes_values(s: Seq<int>, q: int)
    requires
        0 < q <= 100000,
        forall|i: int| 0 <= i < s.len() ==> 0 <= #[trigger] s[i] < q,
    ensures
        forall|k: int| 0 <= k < s.len() ==> #[trigger] decode5(
            elem_bytes(s).subrange(5 * k, 5 * k + 5),
        ) == s[k],
{
    assert forall|k: int| 0 <= k < s.len() implies #[trigger] decode5(
        elem_bytes(s).subrange(5 * k, 5 * k + 5),
    ) == s[k] by {
        lemma_elem_bytes_chunk(s, k);
        lemma_decode_encode5(s[k]);
    }
}

/// Encoding an element and reading the coefficients back gives the
/// element, exactly: the serialization round trip at the heart of the
/// codec.
#[verifier::rlimit(100)]
pub proof fn lemma_elem_round_trip(s: Seq<int>, q: int)
    requires
        0 < q <= 100000,
        forall|i: int| 0 <= i < s.len() ==> 0 <= #[trigger] s[i] < q,
    ensures
        elem_bytes(s).len() == 5 * s.len(),
        is_digit_seq(elem_bytes(s)),
        elem_bytes_ok(elem_bytes(s), s.len() as int, q),
        elem_coeffs(elem_bytes(s)) =~= s,
{
    lemma_elem_bytes_digits(s, q);
    lemma_elem_bytes_values(s, q);
}

/// Builds a string from ASCII bytes: they are valid UTF-8, so the
/// conversion always succeeds and keeps the bytes.
fn string_from_ascii(v: Vec<u8>) -> (r: String)
    requires
        forall|i: int| 0 <= i < v@.len() ==> #[trigger] v@[i] < 128,
    ensures
        encode_utf8(r@) == v@,
{
    proof {
        assert(v@.subrange(0, 0) =~= Seq::<u8>::empty());
        assert(valid_utf8(v@.subrange(0, 0)));
        assert(partial_valid_utf8(v@, 0));
        assert forall|i: int| 0 <= 0 <= i < v@.len() <= v@.len() implies
            #[trigger] is_leading_byte_width_1(v@[i]) by {}
        partial_valid_utf8_extend_ascii_block(v@, 0, v@.len() as int);
        assert(v@.subrange(0, v@.len() as int) =~= v@);
        assert(valid_utf8(v@));
    }
    match string_from_utf8(v) {
        Some(s) => s,
        None => {
            proof {
                assert(false);
            }
            String::new()
        },
    }
}

/// Relies on String::from_utf8: succeeds exactly on valid UTF-8 input,
/// and the returned string's byte form is the input unchanged.
#[verifier::external_body]
fn string_from_utf8(v: Vec<u8>) -> (r: Option<String>)
    ensures
        r is Some <==> valid_utf8(v@),
        r is Some ==> encode_utf8((r->0)@) == v@,
{
    match String::from_utf8(v) {
        Ok(s) => Some(s),
        Err(_) => None,
    }
}

/// Writes the five digits of one coefficient onto the end of `out`.
fn push_coeff(out: &mut Vec<u8>, v: i64)
    requires
        0 <= v < 100000,
    ensures
        final(out)@ =~= old(out)@ + encode5(v as int),
        final(out)@.len() == old(out)@.len() + 5,
{
    proof {
        lemma_decode_encode5(v as int);
    }
    out.push((48 + (v / 10000)) as u8);
    out.push((48 + ((v % 10000) / 1000)) as u8);
    out.push((48 + (((v % 10000) % 1000) / 100)) as u8);
    out.push((48 + ((((v % 10000) % 1000) % 100) / 10)) as u8);
    out.push((48 + ((((v % 10000) % 1000) % 100) % 10)) as u8);
    proof {
        lemma_fundamental_div_mod(v as int, 10000);
        lemma_mod_bound(v as int, 10000);
        lemma_multiply_divide_lt(v as int, 10000, 10);
        let r4 = (v as int) % 10000;
        lemma_fundamental_div_mod(r4, 1000);
        lemma_mod_bound(r4, 1000);
        lemma_multiply_divide_lt(r4, 1000, 10);
        let r3 = r4 % 1000;
        lemma_fundamental_div_mod(r3, 100);
        lemma_mod_bound(r3, 100);
        lemma_multiply_divide_lt(r3, 100, 10);
        let r2 = r3 % 100;
        lemma_fundamental_div_mod(r2, 10);
        lemma_mod_bound(r2, 10);
        lemma_multiply_divide_lt(r2, 10, 10);
    }
}

/// Appends the element's bytes (five digits per coefficient) to `out`.
fn push_elem_bytes(out: &mut Vec<u8>, p: &Parameters, e: &RingElement)
    requires
        p.valid(),
        e.wf(*p),
    ensures
        final(out)@ =~= old(out)@ + elem_bytes(e@),
{
    let n: usize = p.n;
    let mut k: usize = 0;
    while k < n
        invariant
            p.valid(),
            e.wf(*p),
            n == p.n,
            k <= n,
            out@.len() == old(out)@.len() + 5 * k,
            forall|i: int| 0 <= i < old(out)@.len() ==> #[trigger] out@[i] == old(out)@[i],
            forall|i: int| old(out)@.len() <= i < out@.len() ==> #[trigger] out@[i]
                == elem_bytes(e@)[i - old(out)@.len()],
        decreases n - k,
    {
        let v: i64 = e.coeffs[k];
        proof {
            assert(e@[k as int] == v as int);
        }
        push_coeff(out, v);
        proof {
            assert forall|j: int| 0 <= j < 5 implies #[trigger] elem_bytes(e@)[5 * k + j]
                == encode5(e@[k as int])[j] by {
                lemma_fundamental_div_mod_converse(5 * (k as int) + j, 5, k as int, j);
            }
        }
        k = k + 1;
    }
    proof {
        assert(out@ =~= old(out)@ + elem_bytes(e@));
    }
}

/// Reads one coefficient (five digits, value below q) from `b` at
/// `start`. Fails with ParseError on any other shape.
fn parse_coeff(p: &Parameters, b: &Vec<u8>, start: usize) -> (r: Result<i64, LweError>)
    requires
        p.valid(),
        start + 5 <= b@.len(),
    ensures
        r is Ok <==> is_digit_seq(b@.subrange(start as int, start as int + 5))
            && 0 <= decode5(b@.subrange(start as int, start as int + 5)) < p.q,
        r is Err ==> r->Err_0 == LweError::ParseError,
        r is Ok ==> r->Ok_0 as int == decode5(b@.subrange(start as int, start as int + 5))
            && 0 <= r->Ok_0 < p.q,
{
    let ghost chunk = b@.subrange(start as int, start as int + 5);
    let blen: usize = b.len();
    let mut v: i64 = 0;
    let mut j: usize = 0;
    let mut digits_ok: bool = true;
    while j < 5
        invariant
            start + 5 <= b@.len(),
            blen == b@.len(),
            j <= 5,
            chunk == b@.subrange(start as int, start as int + 5),
            digits_ok <==> (forall|i: int| 0 <= i < j ==> 48 <= #[trigger] chunk[i] <= 57),
            digits_ok ==> 0 <= v < 100000,
            digits_ok ==> v as int == (if j == 0 {
                0int
            } else if j == 1 {
                dv(chunk[0])
            } else if j == 2 {
                dv(chunk[0]) * 10 + dv(chunk[1])
            } else if j == 3 {
                dv(chunk[0]) * 100 + dv(chunk[1]) * 10 + dv(chunk[2])
            } else if j == 4 {
                dv(chunk[0]) * 1000 + dv(chunk[1]) * 100 + dv(chunk[2]) * 10 + dv(chunk[3])
            } else {
                decode5(chunk)
            }),
        decreases 5 - j,
    {
        let c: u8 = b[start + j];
        proof {
            assert(chunk[j as int] == b@[start + j]);
        }
        if c < 48 || c > 57 {
            digits_ok = false;
        }
        if digits_ok {
            v = v * 10 + (c - 48) as i64;
        }
        j = j + 1;
    }
    if !digits_ok {
        return Err(LweError::ParseError);
    }
    if v >= p.q {
        return Err(LweError::ParseError);
    }
    Ok(v)
}

/// Reads the n coefficients of one element from `b` starting at
/// `start`: n five-digit groups, each below q.
fn parse_elem_at(p: &Parameters, b: &Vec<u8>, start: usize) -> (r: Result<
    RingElement,
    LweError,
>)
    requires
        p.valid(),
        start + 5 * p.n <= b@.len(),
    ensures
        r is Ok <==> elem_bytes_ok(
            b@.subrange(start as int, start as int + 5 * p.n),
            p.n as int,
            p.q as int,
        ),
        r is Err ==> r->Err_0 == LweError::ParseError,
        r is Ok ==> r->Ok_0.wf(*p) && r->Ok_0@ =~= elem_coeffs(
            b@.subrange(start as int, start as int + 5 * p.n),
        ),
{
    let ghost region = b@.subrange(start as int, start as int + 5 * p.n);
    let blen: usize = b.len();
    let n: usize = p.n;
    let mut out: Vec<i64> = Vec::new();
    let mut k: usize = 0;
    while k < n
        invariant
            p.valid(),
            n == p.n,
            start + 5 * n <= b@.len(),
            blen == b@.len(),
            region == b@.subrange(start as int, start as int + 5 * p.n),
            k <= n,
            out@.len() == k,
            forall|i: int| 0 <= i < k ==> is_digit_seq(
                #[trigger] region.subrange(5 * i, 5 * i + 5),
            ) && 0 <= decode5(region.subrange(5 * i, 5 * i + 5)) < p.q,
            forall|i: int| 0 <= i < k ==> #[trigger] out@[i] as int == decode5(
                region.subrange(5 * i, 5 * i + 5),
            ) && 0 <= out@[i] < p.q,
        decreases n - k,
    {
        proof {
            assert(region.subrange(5 * (k as int), 5 * (k as int) + 5) =~= b@.subrange(
                start + 5 * (k as int),
                start + 5 * (k as int) + 5,
            ));
        }
        let v: i64 = match parse_coeff(p, b, start + 5 * k) {
            Ok(v) => v,
            Err(e) => {
                proof {
                    assert(!elem_bytes_ok(region, p.n as int, p.q as int));
                }
                return Err(e);
            },
        };
        out.push(v);
        k = k + 1;
    }
    let r = RingElement { coeffs: out };
    proof {
        assert forall|i: int| 0 <= i < region.len() implies 48 <= #[trigger] region[i] <= 57 by {
            lemma_mod_bound(i, 5);
            lemma_multiply_divide_lt(i, 5, n as int);
            let kk = i / 5;
            lemma_fundamental_div_mod(i, 5);
            assert(region.subrange(5 * kk, 5 * kk + 5)[i % 5] == region[i]);
        }
        assert(r@ =~= elem_coeffs(region));
    }
    Ok(r)
}

/// The element's canonical string: its coefficients as five decimal
/// digits each, in order.
pub fn encode_element(p: &Parameters, e: &RingElement) -> (r: String)
    requires
        p.valid(),
        e.wf(*p),
    ensures
        encode_utf8(r@) == elem_bytes(e@),
{
    let mut out: Vec<u8> = Vec::new();
    push_elem_bytes(&mut out, p, e);
    proof {
        lemma_elem_round_trip(e@, p.q as int);
        assert(out@ =~= elem_bytes(e@));
    }
    string_from_ascii(out)
}

/// The canonical string of a pair of elements, one after the other:
/// the form of public keys and of ciphertexts.
pub fn encode_pair(p: &Parameters, x: &RingElement, y: &RingElement) -> (r: String)
    requires
        p.valid(),
        x.wf(*p),
        y.wf(*p),
    ensures
        encode_utf8(r@) == elem_bytes(x@) + elem_bytes(y@),
{
    let mut out: Vec<u8> = Vec::new();
    push_elem_bytes(&mut out, p, x);
    push_elem_bytes(&mut out, p, y);
    proof {
        lemma_elem_round_trip(x@, p.q as int);
        lemma_elem_round_trip(y@, p.q as int);
        assert(out@ =~= elem_bytes(x@) + elem_bytes(y@));
    }
    string_from_ascii(out)
}

/// Bytes that parse as a pair of elements.
pub open spec fn pair_bytes_ok(b: Seq<u8>, n: int, q: int) -> bool {
    &&& b.len() == 10 * n
    &&& elem_bytes_ok(b.subrange(0, 5 * n), n, q)
    &&& elem_bytes_ok(b.subrange(5 * n, 10 * n), n, q)
}

/// Reads one element back from its canonical string. Accepts exactly
/// the strings `encode_element` produces: 5 n digits, every coefficient
/// below q.
pub fn parse_element(p: &Parameters, s: &str) -> (r: Result<RingElement, LweError>)
    requires
        p.valid(),
    ensures
        r is Ok <==> elem_bytes_ok(s.spec_bytes(), p.n as int, p.q as int),
        r is Err ==> r->Err_0 == LweError::ParseError,
        r is Ok ==> r->Ok_0.wf(*p) && r->Ok_0@ =~= elem_coeffs(s.spec_bytes()),
{
    let b: Vec<u8> = s.as_bytes_vec();
    if b.len() != 5 * p.n {
        return Err(LweError::ParseError);
    }
    proof {
        assert(b@.subrange(0, 5 * p.n) =~= b@);
    }
    parse_elem_at(p, &b, 0)
}

/// Reads a pair of elements back from its canonical string. Accepts
/// exactly the strings `encode_pair` produces.
pub fn parse_pair(p: &Parameters, s: &str) -> (r: Result<(RingElement, RingElement), LweError>)
    requires
        p.valid(),
    ensures
        r is Ok <==> pair_bytes_ok(s.spec_bytes(), p.n as int, p.q as int),
        r is Err ==> r->Err_0 == LweError::ParseError,
        r is Ok ==> r->Ok_0.0.wf(*p) && r->Ok_0.0@ =~= elem_coeffs(
            s.spec_bytes().subrange(0, 5 * p.n),
        ) && r->Ok_0.1.wf(*p) && r->Ok_0.1@ =~= elem_coeffs(
            s.spec_bytes().subrange(5 * p.n, 10 * p.n),
        ),
{
    let b: Vec<u8> = s.as_bytes_vec();
    if p.n > usize::MAX / 10 || b.len() != 10 * p.n {
        return Err(LweError::ParseError);
    }
    let x = match parse_elem_at(p, &b, 0) {
        Ok(x) => x,
        Err(e) => {
            return Err(e);
        },
    };
    let y = match parse_elem_at(p, &b, 5 * p.n) {
        Ok(y) => y,
        Err(e) => {
            return Err(e);
        },
    };
    proof {
        assert(b@.subrange(0, 5 * p.n) =~= s.spec_bytes().subrange(0, 5 * p.n));
        assert(b@.subrange(5 * p.n, 10 * p.n) =~= s.spec_bytes().subrange(5 * p.n, 10 * p.n));
    }
    Ok((x, y))
}

/// 2 to the power e, for small nonnegative e.
pub open spec fn p2(e: int) -> int
    decreases e,
{
    if e <= 0 {
        1
    } else {
        2 * p2(e - 1)
    }
}

/// Bit j of a byte, most significant first (j in [0, 8)).
pub open spec fn bit_of(b: u8, j: int) -> int {
    ((b as int) / p2(7 - j)) % 2
}

/// The coefficients that carry a message: one bit per coefficient, most
/// significant bit of each byte first, zero-padded up to n.
pub open spec fn msg_coeffs(bytes: Seq<u8>, n: int) -> Seq<int> {
    Seq::new(
        n as nat,
        |i: int|
            if i < 8 * bytes.len() {
                bit_of(bytes[i / 8], i % 8)
            } else {
                0
            },
    )
}

/// Every entry is a bit.
pub open spec fn is_bits(s: Seq<int>) -> bool {
    forall|i: int| 0 <= i < s.len() ==> 0 <= #[trigger] s[i] <= 1
}

/// The byte rebuilt from the eight bits at positions 8k .. 8k+8.
pub open spec fn byte_of_bits(s: Seq<int>, k: int) -> int {
    s[8 * k] * 128 + s[8 * k + 1] * 64 + s[8 * k + 2] * 32 + s[8 * k + 3] * 16 + s[8 * k + 4] * 8
        + s[8 * k + 5] * 4 + s[8 * k + 6] * 2 + s[8 * k + 7]
}

/// The bytes recovered from a full coefficient sequence (eight bits per
/// byte; a final group of fewer than eight coefficients carries no byte).
pub open spec fn msg_bytes(s: Seq<int>) -> Seq<u8> {
    Seq::new((s.len() / 8) as nat, |k: int| byte_of_bits(s, k) as u8)
}

/// `b` with its trailing zero bytes removed.
pub open spec fn strip_zeros(b: Seq<u8>) -> Seq<u8>
    decreases b.len(),
{
    if b.len() > 0 && b[b.len() - 1] == 0 {
        strip_zeros(b.drop_last())
    } else {
        b
    }
}

/// The powers of two the bit codec uses.
proof fn lemma_p2_values()
    ensures
        p2(0) == 1 && p2(1) == 2 && p2(2) == 4 && p2(3) == 8 && p2(4) == 16 && p2(5) == 32
            && p2(6) == 64 && p2(7) == 128 && p2(8) == 256,
{
    reveal_with_fuel(p2, 10);
}

/// A byte is exactly the weighted sum of its eight bits, and each bit
/// is 0 or 1.
#[verifier::rlimit(100)]
pub proof fn lemma_byte_bits(b: u8)
    ensures
        forall|j: int| 0 <= j < 8 ==> 0 <= #[trigger] bit_of(b, j) <= 1,
        bit_of(b, 0) * 128 + bit_of(b, 1) * 64 + bit_of(b, 2) * 32 + bit_of(b, 3) * 16 + bit_of(
            b,
            4,
        ) * 8 + bit_of(b, 5) * 4 + bit_of(b, 6) * 2 + bit_of(b, 7) == b as int,
{
    lemma_p2_values();
    let v = b as int;
    assert forall|j: int| 0 <= j < 8 implies 0 <= #[trigger] bit_of(b, j) <= 1 by {
        lemma_mod_bound(v / p2(7 - j), 2);
    }
    lemma_div_denominator(v, 2, 2);
    lemma_div_denominator(v, 4, 2);
    lemma_div_denominator(v, 8, 2);
    lemma_div_denominator(v, 16, 2);
    lemma_div_denominator(v, 32, 2);
    lemma_div_denominator(v, 64, 2);
    lemma_div_denominator(v, 128, 2);
    lemma_fundamental_div_mod(v, 2);
    lemma_fundamental_div_mod(v / 2, 2);
    lemma_fundamental_div_mod(v / 4, 2);
    lemma_fundamental_div_mod(v / 8, 2);
    lemma_fundamental_div_mod(v / 16, 2);
    lemma_fundamental_div_mod(v / 32, 2);
    lemma_fundamental_div_mod(v / 64, 2);
    lemma_fundamental_div_mod(v / 128, 2);
    lemma_basic_div(v, 256);
    lemma_mod_bound(v, 2);
    lemma_mod_bound(v / 2, 2);
    lemma_mod_bound(v / 4, 2);
    lemma_mod_bound(v / 8, 2);
    lemma_mod_bound(v / 16, 2);
    lemma_mod_bound(v / 32, 2);
    lemma_mod_bound(v / 64, 2);
    lemma_mod_bound(v / 128, 2);
}

/// The number of message bytes a configuration can carry: one bit per
/// coefficient.
pub open spec fn spec_capacity(n: int) -> int {
    n / 8
}

/// The largest message byte length the configuration accepts.
pub fn max_message_bytes(p: &Parameters) -> (r: usize)
    requires
        p.valid(),
    ensures
        r == spec_capacity(p.n as int),
{
    p.n / 8
}

/// Maps a message's bytes onto ring coefficients, one bit per
/// coefficient. Fails with EncodingError exactly when the message is
/// longer than the n coefficients can carry.
pub fn encode_message(p: &Parameters, msg: &Vec<u8>) -> (r: Result<RingElement, LweError>)
    requires
        p.valid(),
    ensures
        r is Ok <==> 8 * msg@.len() <= p.n,
        r is Err ==> r->Err_0 == LweError::EncodingError,
        r is Ok ==> r->Ok_0.wf(*p) && r->Ok_0@ =~= msg_coeffs(msg@, p.n as int)
            && is_bits(r->Ok_0@),
{
    let mlen: usize = msg.len();
    if mlen > p.n / 8 || 8 * mlen > p.n {
        return Err(LweError::EncodingError);
    }
    let n: usize = p.n;
    let mut out: Vec<i64> = Vec::new();
    let mut i: usize = 0;
    while i < n
        invariant
            p.valid(),
            n == p.n,
            mlen == msg@.len(),
            8 * mlen <= n,
            i <= n,
            out@.len() == i,
            forall|k: int| 0 <= k < i ==> #[trigger] out@[k] as int == msg_coeffs(
                msg@,
                p.n as int,
            )[k] && 0 <= out@[k] <= 1,
        decreases n - i,
    {
        let v: i64 = if i < 8 * mlen {
            let byte: u8 = msg[i / 8];
            let pos: usize = i % 8;
            proof {
                lemma_mod_bound(i as int, 8);
                lemma_multiply_divide_lt(i as int, 8, mlen as int);
                lemma_p2_values();
                lemma_byte_bits(byte);
            }
            let pow: i64 = if pos == 0 {
                128
            } else if pos == 1 {
                64
            } else if pos == 2 {
                32
            } else if pos == 3 {
                16
            } else if pos == 4 {
                8
            } else if pos == 5 {
                4
            } else if pos == 6 {
                2
            } else {
                1
            };
            proof {
                assert(pow as int == p2(7 - (i as int) % 8));
                lemma_mod_bound(byte as int / (pow as int), 2);
            }
            (byte as i64 / pow) % 2
        } else {
            0
        };
        out.push(v);
        i = i + 1;
    }
    let r = RingElement { coeffs: out };
    proof {
        assert(r@ =~= msg_coeffs(msg@, p.n as int));
    }
    Ok(r)
}

/// Reads a message back from recovered plaintext coefficients: each
/// group of eight bits is a byte, trailing zero bytes fall away, and
/// the bytes must be valid UTF-8. Fails with DecodingError exactly when
/// a used coefficient is not a bit or the stripped bytes are not UTF-8.
pub fn decode_message(p: &Parameters, e: &RingElement) -> (r: Result<String, LweError>)
    requires
        p.valid(),
        e@.len() == p.n,
    ensures
        r is Ok <==> is_bits(e@.take(8 * spec_capacity(p.n as int))) && valid_utf8(
            strip_zeros(msg_bytes(e@.take(8 * spec_capacity(p.n as int)))),
        ),
        r is Err ==> r->Err_0 == LweError::DecodingError,
        r is Ok ==> encode_utf8(r->Ok_0@) == strip_zeros(
            msg_bytes(e@.take(8 * spec_capacity(p.n as int))),
        ),
{
    let cap: usize = p.n / 8;
    let ghost used = e@.take(8 * spec_capacity(p.n as int));
    let mut bytes: Vec<u8> = Vec::new();
    let mut k: usize = 0;
    while k < cap
        invariant
            p.valid(),
            e@.len() == p.n,
            cap == spec_capacity(p.n as int),
            used == e@.take(8 * spec_capacity(p.n as int)),
            k <= cap,
            bytes@.len() == k,
            forall|i: int| 0 <= i < 8 * k ==> 0 <= #[trigger] used[i] <= 1,
            forall|j: int| 0 <= j < k ==> #[trigger] bytes@[j] as int == byte_of_bits(used, j),
        decreases cap - k,
    {
        let mut acc: i64 = 0;
        let mut j: usize = 0;
        while j < 8
            invariant
                p.valid(),
                e@.len() == p.n,
                cap == spec_capacity(p.n as int),
                used == e@.take(8 * spec_capacity(p.n as int)),
                k < cap,
                j <= 8,
                0 <= acc < 256,
                forall|i: int| 8 * k <= i < 8 * k + j ==> 0 <= #[trigger] used[i] <= 1,
                acc as int == (if j == 0 {
                    0int
                } else if j == 1 {
                    used[8 * k]
                } else if j == 2 {
                    used[8 * k] * 2 + used[8 * k + 1]
                } else if j == 3 {
                    used[8 * k] * 4 + used[8 * k + 1] * 2 + used[8 * k + 2]
                } else if j == 4 {
                    used[8 * k] * 8 + used[8 * k + 1] * 4 + used[8 * k + 2] * 2 + used[8 * k + 3]
                } else if j == 5 {
                    used[8 * k] * 16 + used[8 * k + 1] * 8 + used[8 * k + 2] * 4 + used[8 * k + 3]
                        * 2 + used[8 * k + 4]
                } else if j == 6 {
                    used[8 * k] * 32 + used[8 * k + 1] * 16 + used[8 * k + 2] * 8 + used[8 * k + 3]
                        * 4 + used[8 * k + 4] * 2 + used[8 * k + 5]
                } else if j == 7 {
                    used[8 * k] * 64 + used[8 * k + 1] * 32 + used[8 * k + 2] * 16 + used[8 * k
                        + 3] * 8 + used[8 * k + 4] * 4 + used[8 * k + 5] * 2 + used[8 * k + 6]
                } else {
                    byte_of_bits(used, k as int)
                }),
            decreases 8 - j,
        {
            let idx: usize = 8 * k + j;
            let c: i64 = e.coeffs[idx];
            proof {
                assert(used[idx as int] == e@[idx as int]);
                assert(e@[idx as int] == c as int);
            }
            if c < 0 || c > 1 {
                proof {
                    assert(!(0 <= used[idx as int] <= 1));
                    assert(!is_bits(used));
                }
                return Err(LweError::DecodingError);
            }
            acc = acc * 2 + c;
            j = j + 1;
        }
        bytes.push(acc as u8);
        k = k + 1;
    }
    proof {
        assert(is_bits(used));
        assert(bytes@ =~= msg_bytes(used));
    }
    let stripped: Vec<u8> = strip_trailing_zeros(bytes);
    match string_from_utf8(stripped) {
        Some(s) => Ok(s),
        None => Err(LweError::DecodingError),
    }
}

/// Removes trailing zero bytes.
fn strip_trailing_zeros(b: Vec<u8>) -> (r: Vec<u8>)
    ensures
        r@ == strip_zeros(b@),
{
    let mut end: usize = b.len();
    proof {
        assert(b@.take(end as int) =~= b@);
    }
    while end > 0 && b[end - 1] == 0
        invariant
            end <= b@.len(),
            strip_zeros(b@) == strip_zeros(b@.take(end as int)),
        decreases end,
    {
        proof {
            assert(b@.take(end as int).drop_last() =~= b@.take(end as int - 1));
        }
        end = end - 1;
    }
    let mut out: Vec<u8> = Vec::new();
    let mut i: usize = 0;
    while i < end
        invariant
            end <= b@.len(),
            i <= end,
            out@.len() == i,
            forall|j: int| 0 <= j < i ==> #[trigger] out@[j] == b@[j],
        decreases end - i,
    {
        out.push(b[i]);
        i = i + 1;
    }
    proof {
        assert(out@ =~= b@.take(end as int));
        if end > 0 {
            assert(strip_zeros(b@.take(end as int)) == b@.take(end as int));
        }
    }
    out
}

} // verus!
