//! The rolling fingerprint of the chunker: the remainder of the last
//! bytes of a stream, read as a polynomial over GF(2), modulo a fixed
//! polynomial.

use vstd::prelude::*;

verus! {

/// One modulus: a polynomial over GF(2), its coefficients the bits of
/// `poly`, and its degree.
#[derive(Clone, Copy, Debug, PartialEq, Eq, Structural)]
pub struct Modulus {
    pub poly: u64,
    pub degree: u32,
}

/// The fingerprint `d` with one more bit: `d` times `x` plus the bit,
/// reduced by the modulus where the degree is reached.
pub open spec fn step(d: u64, bit: u64, m: Modulus) -> u64 {
    let s = (d << 1) | bit;
    if (s >> (m.degree as u64)) & 1 == 1 {
        s ^ m.poly
    } else {
        s
    }
}

/// The fingerprint `d` with one more byte, high bit first.
pub open spec fn append(d: u64, b: u8, m: Modulus) -> u64 {
    let b = b as u64;
    let d = step(d, (b >> 7) & 1, m);
    let d = step(d, (b >> 6) & 1, m);
    let d = step(d, (b >> 5) & 1, m);
    let d = step(d, (b >> 4) & 1, m);
    let d = step(d, (b >> 3) & 1, m);
    let d = step(d, (b >> 2) & 1, m);
    let d = step(d, (b >> 1) & 1, m);
    step(d, b & 1, m)
}

/// The fingerprint `d` with the bytes `s` appended in order.
pub open spec fn fold(d: u64, s: Seq<u8>, m: Modulus) -> u64
    decreases s.len(),
{
    if s.len() == 0 {
        d
    } else {
        append(fold(d, s.drop_last(), m), s.last(), m)
    }
}

/// The fingerprint of a window of bytes.
pub open spec fn fingerprint(window: Seq<u8>, m: Modulus) -> u64 {
    fold(0, window, m)
}

/// What a byte followed by `zeros` zero bytes adds to a fingerprint.
pub open spec fn weight(b: u8, zeros: nat, m: Modulus) -> u64 {
    fold(0, seq![b] + Seq::new(zeros, |i: int| 0u8), m)
}

/// Two byte strings added bit by bit.
pub open spec fn xor_bytes(a: Seq<u8>, b: Seq<u8>) -> Seq<u8> {
    Seq::new(a.len(), |i: int| a[i] ^ b[i])
}

/// A step is linear over GF(2).
pub proof fn lemma_step_linear(a: u64, b: u64, p: u64, q: u64, m: Modulus)
    requires
        m.degree < 64,
        p <= 1,
        q <= 1,
    ensures
        step(a ^ b, p ^ q, m) == step(a, p, m) ^ step(b, q, m),
{
    let k = m.degree as u64;
    let poly = m.poly;
    assert(k < 64 && p <= 1 && q <= 1 ==> ({
        let s = ((a ^ b) << 1) | (p ^ q);
        if (s >> k) & 1 == 1 {
            s ^ poly
        } else {
            s
        }
    }) == ({
        let s = (a << 1) | p;
        if (s >> k) & 1 == 1 {
            s ^ poly
        } else {
            s
        }
    }) ^ ({
        let s = (b << 1) | q;
        if (s >> k) & 1 == 1 {
            s ^ poly
        } else {
            s
        }
    })) by (bit_vector);
}

/// The bits of a sum of two bytes are the sums of their bits.
proof fn lemma_bit_of_xor(x: u8, y: u8, i: u64)
    requires
        i < 8,
    ensures
        (((x ^ y) as u64) >> i) & 1 == ((x as u64 >> i) & 1) ^ ((y as u64 >> i) & 1),
        (x as u64 >> i) & 1 <= 1,
        (y as u64 >> i) & 1 <= 1,
{
    assert(i < 8 ==> (((x ^ y) as u64) >> i) & 1 == ((x as u64 >> i) & 1) ^ ((y as u64 >> i)
        & 1)) by (bit_vector);
    assert((x as u64 >> i) & 1 <= 1) by (bit_vector);
    assert((y as u64 >> i) & 1 <= 1) by (bit_vector);
}

/// Appending a byte is linear over GF(2).
pub proof fn lemma_append_linear(a: u64, b: u64, x: u8, y: u8, m: Modulus)
    requires
        m.degree < 64,
    ensures
        append(a ^ b, x ^ y, m) == append(a, x, m) ^ append(b, y, m),
{
    let xb = x as u64;
    let yb = y as u64;
    let zb = (x ^ y) as u64;
    lemma_bit_of_xor(x, y, 7);
    lemma_bit_of_xor(x, y, 6);
    lemma_bit_of_xor(x, y, 5);
    lemma_bit_of_xor(x, y, 4);
    lemma_bit_of_xor(x, y, 3);
    lemma_bit_of_xor(x, y, 2);
    lemma_bit_of_xor(x, y, 1);
    lemma_bit_of_xor(x, y, 0);
    assert(zb & 1 == (zb >> 0) & 1) by (bit_vector);
    assert(xb & 1 == (xb >> 0) & 1) by (bit_vector);
    assert(yb & 1 == (yb >> 0) & 1) by (bit_vector);
    let a7 = step(a, (xb >> 7) & 1, m);
    let b7 = step(b, (yb >> 7) & 1, m);
    lemma_step_linear(a, b, (xb >> 7) & 1, (yb >> 7) & 1, m);
    let a6 = step(a7, (xb >> 6) & 1, m);
    let b6 = step(b7, (yb >> 6) & 1, m);
    lemma_step_linear(a7, b7, (xb >> 6) & 1, (yb >> 6) & 1, m);
    let a5 = step(a6, (xb >> 5) & 1, m);
    let b5 = step(b6, (yb >> 5) & 1, m);
    lemma_step_linear(a6, b6, (xb >> 5) & 1, (yb >> 5) & 1, m);
    let a4 = step(a5, (xb >> 4) & 1, m);
    let b4 = step(b5, (yb >> 4) & 1, m);
    lemma_step_linear(a5, b5, (xb >> 4) & 1, (yb >> 4) & 1, m);
    let a3 = step(a4, (xb >> 3) & 1, m);
    let b3 = step(b4, (yb >> 3) & 1, m);
    lemma_step_linear(a4, b4, (xb >> 3) & 1, (yb >> 3) & 1, m);
    let a2 = step(a3, (xb >> 2) & 1, m);
    let b2 = step(b3, (yb >> 2) & 1, m);
    lemma_step_linear(a3, b3, (xb >> 2) & 1, (yb >> 2) & 1, m);
    let a1 = step(a2, (xb >> 1) & 1, m);
    let b1 = step(b2, (yb >> 1) & 1, m);
    lemma_step_linear(a2, b2, (xb >> 1) & 1, (yb >> 1) & 1, m);
    lemma_step_linear(a1, b1, xb & 1, yb & 1, m);
}

/// Appending bytes is linear over GF(2).
pub proof fn lemma_fold_linear(a: u64, b: u64, s: Seq<u8>, t: Seq<u8>, m: Modulus)
    requires
        m.degree < 64,
        s.len() == t.len(),
    ensures
        fold(a ^ b, xor_bytes(s, t), m) == fold(a, s, m) ^ fold(b, t, m),
    decreases s.len(),
{
    if s.len() > 0 {
        lemma_fold_linear(a, b, s.drop_last(), t.drop_last(), m);
        assert(xor_bytes(s, t).drop_last() =~= xor_bytes(s.drop_last(), t.drop_last()));
        lemma_append_linear(
            fold(a, s.drop_last(), m),
            fold(b, t.drop_last(), m),
            s.last(),
            t.last(),
            m,
        );
    }
}

/// Appending bytes can begin with the first of them.
pub proof fn lemma_fold_first(d: u64, s: Seq<u8>, m: Modulus)
    requires
        s.len() > 0,
    ensures
        fold(d, s, m) == fold(append(d, s.first(), m), s.drop_first(), m),
    decreases s.len(),
{
    if s.len() == 1 {
        assert(s.drop_last() =~= Seq::<u8>::empty());
        assert(s.drop_first() =~= Seq::<u8>::empty());
        assert(fold(d, s.drop_last(), m) == d);
    } else {
        lemma_fold_first(d, s.drop_last(), m);
        assert(s.drop_last().drop_first() =~= s.drop_first().drop_last());
        assert(s.drop_last().first() == s.first());
        assert(s.drop_first().last() == s.last());
    }
}

/// Zero stays zero when a zero byte is appended.
pub proof fn lemma_append_zero(m: Modulus)
    requires
        m.degree < 64,
    ensures
        append(0, 0, m) == 0,
{
    let k = m.degree as u64;
    assert(k < 64 ==> ((0u64 << 1) | 0u64) >> k & 1 == 0) by (bit_vector);
    assert((0u64 >> 7) & 1 == 0 && (0u64 >> 6) & 1 == 0 && (0u64 >> 5) & 1 == 0 && (0u64 >> 4) & 1
        == 0 && (0u64 >> 3) & 1 == 0 && (0u64 >> 2) & 1 == 0 && (0u64 >> 1) & 1 == 0 && 0u64 & 1
        == 0 && (0u64 << 1) | 0u64 == 0) by (bit_vector);
}

/// The fingerprint of a window that moves on by one byte: what the byte
/// that leaves had added is taken out, and the byte that enters is
/// appended.
pub proof fn lemma_roll(window: Seq<u8>, b: u8, m: Modulus)
    requires
        m.degree < 64,
        window.len() > 0,
    ensures
        fingerprint(window.drop_first().push(b), m) == append(
            fingerprint(window, m) ^ weight(window.first(), (window.len() - 1) as nat, m),
            b,
            m,
        ),
{
    let n = window.len();
    let rest = window.drop_first();
    let zeros = Seq::new((n - 1) as nat, |i: int| 0u8);
    let head = seq![window.first()] + zeros;
    let tail = seq![0u8] + rest;
    assert(xor_bytes(head, tail) =~= window) by {
        assert forall|i: int| 0 <= i < n implies xor_bytes(head, tail)[i] == window[i] by {
            let x = window[i];
            assert(x ^ 0u8 == x && 0u8 ^ x == x) by (bit_vector);
        }
    }
    assert(0u64 ^ 0u64 == 0u64) by (bit_vector);
    lemma_fold_linear(0, 0, head, tail, m);
    lemma_fold_first(0, tail, m);
    lemma_append_zero(m);
    assert(tail.drop_first() =~= rest);
    assert(tail.first() == 0u8);
    let whole = fingerprint(window, m);
    let w = weight(window.first(), (n - 1) as nat, m);
    let r = fold(0, rest, m);
    assert(whole == w ^ r);
    assert(whole == w ^ r ==> whole ^ w == r) by (bit_vector);
    let next = rest.push(b);
    assert(next.drop_last() =~= rest);
    assert(next.last() == b);
}

/// The fingerprint `d` with one more bit.
fn step_exec(d: u64, bit: u64, m: &Modulus) -> (r: u64)
    requires
        m.degree < 64,
        bit <= 1,
    ensures
        r == step(d, bit, *m),
{
    let s = (d << 1) | bit;
    if (s >> (m.degree as u64)) & 1 == 1 {
        s ^ m.poly
    } else {
        s
    }
}

/// The fingerprint `d` with one more byte.
pub(crate) fn append_byte(d: u64, b: u8, m: &Modulus) -> (r: u64)
    requires
        m.degree < 64,
    ensures
        r == append(d, b, *m),
{
    let x = b as u64;
    proof {
        assert((x >> 7) & 1 <= 1 && (x >> 6) & 1 <= 1 && (x >> 5) & 1 <= 1 && (x >> 4) & 1 <= 1 && (
        x >> 3) & 1 <= 1 && (x >> 2) & 1 <= 1 && (x >> 1) & 1 <= 1 && x & 1 <= 1) by (bit_vector);
    }
    let d = step_exec(d, (x >> 7) & 1, m);
    let d = step_exec(d, (x >> 6) & 1, m);
    let d = step_exec(d, (x >> 5) & 1, m);
    let d = step_exec(d, (x >> 4) & 1, m);
    let d = step_exec(d, (x >> 3) & 1, m);
    let d = step_exec(d, (x >> 2) & 1, m);
    let d = step_exec(d, (x >> 1) & 1, m);
    step_exec(d, x & 1, m)
}

/// The fingerprint of `bytes`.
pub(crate) fn fingerprint_of(bytes: &[u8], m: &Modulus) -> (r: u64)
    requires
        m.degree < 64,
    ensures
        r == fingerprint(bytes@, *m),
{
    let mut d: u64 = 0;
    let mut i: usize = 0;
    assert(bytes@.subrange(0, 0) =~= Seq::<u8>::empty());
    while i < bytes.len()
        invariant
            0 <= i <= bytes@.len(),
            m.degree < 64,
            d == fold(0, bytes@.subrange(0, i as int), *m),
        decreases bytes@.len() - i,
    {
        proof {
            let next = bytes@.subrange(0, i + 1);
            assert(next.drop_last() =~= bytes@.subrange(0, i as int));
            assert(next.last() == bytes@[i as int]);
        }
        d = append_byte(d, bytes[i], m);
        i += 1;
    }
    assert(bytes@.subrange(0, i as int) =~= bytes@);
    d
}

/// Whether `degree` is the degree of the polynomial `poly`: the place of
/// its highest bit; zero for the zero polynomial.
pub open spec fn is_degree(poly: u64, degree: u32) -> bool {
    &&& degree < 64
    &&& poly >> (degree as u64) == if poly == 0 {
        0u64
    } else {
        1u64
    }
    &&& poly == 0 ==> degree == 0
}

/// The modulus for a polynomial.
pub fn modulus(poly: u64) -> (m: Modulus)
    ensures
        m.poly == poly,
        is_degree(poly, m.degree),
{
    let mut degree: u32 = 0;
    let mut rest = poly;
    assert(poly >> 0u64 == poly) by (bit_vector);
    while rest > 1
        invariant
            degree < 64,
            rest == poly >> (degree as u64),
            poly != 0 ==> rest != 0,
        decreases rest,
    {
        proof {
            let d = degree as u64;
            assert(d < 64 && (poly >> d) > 1 ==> d < 63 && (poly >> d) >> 1 == poly >> ((d + 1) as u64)
                && (poly >> d) >> 1 < (poly >> d) && (poly >> d) >> 1 != 0) by (bit_vector);
        }
        rest = rest >> 1;
        degree = degree + 1;
    }
    if poly == 0 {
        assert(0u64 >> 0u64 == 0u64) by (bit_vector);
        Modulus { poly, degree: 0 }
    } else {
        Modulus { poly, degree }
    }
}

} // verus!
