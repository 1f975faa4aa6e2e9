//! Text primitives of the serialized records: tokens, decimal numbers,
//! quoted strings and hex identifiers, each appended to a byte buffer.

use vstd::prelude::*;
use vstd::string::StringSliceAdditionalSpecFns;
use crate::id::{hex_code, hex_digit, hex_of, Id};

verus! {

/// The bytes of a literal token.
pub open spec fn lit(token: &str) -> Seq<u8> {
    token.spec_bytes()
}

/// Decimal digits of a natural number, without leading zeros.
pub open spec fn decimal(n: nat) -> Seq<u8>
    decreases n,
{
    if n < 10 {
        seq![(48 + n) as u8]
    } else {
        decimal(n / 10).push((48 + n % 10) as u8)
    }
}

/// How one byte is written inside a quoted string: the quote and the
/// backslash behind a backslash, printable ASCII as it is, any other byte
/// as `\u00` and its two hex digits.
pub open spec fn escape_byte(b: u8) -> Seq<u8> {
    if b == 34 {
        seq![92u8, 34u8]
    } else if b == 92 {
        seq![92u8, 92u8]
    } else if 32 <= b < 127 {
        seq![b]
    } else {
        seq![92u8, 117u8, 48u8, 48u8, hex_digit(b as int / 16), hex_digit(b as int % 16)]
    }
}

/// The escaped form of a byte string.
pub open spec fn escape(s: Seq<u8>) -> Seq<u8>
    decreases s.len(),
{
    if s.len() == 0 {
        Seq::empty()
    } else {
        escape(s.drop_last()) + escape_byte(s.last())
    }
}

/// A byte string between double quotes, escaped.
pub open spec fn quoted(s: Seq<u8>) -> Seq<u8> {
    seq![34u8] + escape(s) + seq![34u8]
}

/// An identifier between double quotes, as 64 hex digits.
pub open spec fn quoted_id(id: Id) -> Seq<u8> {
    seq![34u8] + hex_of(id@) + seq![34u8]
}

/// Appends a literal token.
pub fn push_lit(out: &mut Vec<u8>, token: &str)
    ensures
        final(out)@ == old(out)@ + lit(token),
{
    let bytes = token.as_bytes();
    let mut i: usize = 0;
    while i < bytes.len()
        invariant
            0 <= i <= bytes@.len(),
            bytes@ == lit(token),
            out@ == old(out)@ + bytes@.subrange(0, i as int),
        decreases bytes@.len() - i,
    {
        out.push(bytes[i]);
        assert(bytes@.subrange(0, i as int).push(bytes@[i as int]) =~= bytes@.subrange(
            0,
            i + 1,
        ));
        i += 1;
    }
    assert(bytes@.subrange(0, i as int) =~= bytes@);
}

/// Appends a byte string as it is.
pub fn push_bytes(out: &mut Vec<u8>, bytes: &[u8])
    ensures
        final(out)@ == old(out)@ + bytes@,
{
    let mut i: usize = 0;
    while i < bytes.len()
        invariant
            0 <= i <= bytes@.len(),
            out@ == old(out)@ + bytes@.subrange(0, i as int),
        decreases bytes@.len() - i,
    {
        out.push(bytes[i]);
        assert(bytes@.subrange(0, i as int).push(bytes@[i as int]) =~= bytes@.subrange(
            0,
            i + 1,
        ));
        i += 1;
    }
    assert(bytes@.subrange(0, i as int) =~= bytes@);
}

/// Appends the decimal digits of `n`.
pub fn push_decimal(out: &mut Vec<u8>, n: u64)
    ensures
        final(out)@ == old(out)@ + decimal(n as nat),
    decreases n,
{
    if n < 10 {
        out.push(48 + (n as u8));
        assert(old(out)@.push((48 + n) as u8) =~= old(out)@ + decimal(n as nat));
    } else {
        push_decimal(out, n / 10);
        out.push(48 + ((n % 10) as u8));
        assert((old(out)@ + decimal((n / 10) as nat)).push((48 + n % 10) as u8) =~= old(out)@
            + decimal(n as nat));
    }
}

/// Appends the escaped form of `s`.
pub fn push_escaped(out: &mut Vec<u8>, s: &[u8])
    ensures
        final(out)@ == old(out)@ + escape(s@),
{
    let mut i: usize = 0;
    assert(s@.subrange(0, 0) =~= Seq::<u8>::empty());
    assert(out@ =~= old(out)@ + escape(s@.subrange(0, 0)));
    while i < s.len()
        invariant
            0 <= i <= s@.len(),
            out@ == old(out)@ + escape(s@.subrange(0, i as int)),
        decreases s@.len() - i,
    {
        let b: u8 = s[i];
        let ghost before = out@;
        if b == 34 {
            out.push(92);
            out.push(34);
        } else if b == 92 {
            out.push(92);
            out.push(92);
        } else if 32 <= b && b < 127 {
            out.push(b);
        } else {
            out.push(92);
            out.push(117);
            out.push(48);
            out.push(48);
            out.push(hex_code(b / 16));
            out.push(hex_code(b % 16));
        }
        proof {
            let next = s@.subrange(0, i + 1);
            assert(next.drop_last() =~= s@.subrange(0, i as int));
            assert(next.last() == b);
            assert(out@ =~= before + escape_byte(b));
            assert(out@ =~= old(out)@ + escape(next));
        }
        i += 1;
    }
    assert(s@.subrange(0, i as int) =~= s@);
}

/// Appends `s` between double quotes, escaped.
pub fn push_quoted(out: &mut Vec<u8>, s: &[u8])
    ensures
        final(out)@ == old(out)@ + quoted(s@),
{
    out.push(34);
    push_escaped(out, s);
    out.push(34);
    assert(out@ =~= old(out)@ + quoted(s@));
}

/// Appends `id` between double quotes, as hex digits.
pub fn push_quoted_id(out: &mut Vec<u8>, id: &Id)
    ensures
        final(out)@ == old(out)@ + quoted_id(*id),
{
    let bytes = id.to_bytes();
    out.push(34);
    let mut i: usize = 0;
    while i < bytes.len()
        invariant
            0 <= i <= bytes@.len(),
            bytes@ == id@,
            out@ == old(out)@.push(34u8) + hex_of(bytes@).subrange(0, 2 * i),
        decreases bytes@.len() - i,
    {
        let b: u8 = bytes[i];
        out.push(hex_code(b / 16));
        out.push(hex_code(b % 16));
        proof {
            let k = i as int;
            assert((2 * k) / 2 == k && (2 * k) % 2 == 0);
            assert((2 * k + 1) / 2 == k && (2 * k + 1) % 2 == 1);
            assert(out@ =~= old(out)@.push(34u8) + hex_of(bytes@).subrange(0, 2 * k + 2));
        }
        i += 1;
    }
    out.push(34);
    assert(hex_of(bytes@).subrange(0, 2 * i) =~= hex_of(bytes@));
    assert(out@ =~= old(out)@ + quoted_id(*id));
}

} // verus!
