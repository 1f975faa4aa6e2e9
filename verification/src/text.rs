//! ASCII text: the bridge between byte strings and `String`.

use vstd::prelude::*;

verus! {

/// The characters that a string of ASCII codes spells.
pub open spec fn ascii_text(codes: Seq<u8>) -> Seq<char> {
    Seq::new(codes.len(), |i: int| codes[i] as char)
}

/// The views of a list of byte strings.
pub open spec fn byte_strings(v: Seq<Vec<u8>>) -> Seq<Seq<u8>> {
    Seq::new(v.len(), |i: int| v[i]@)
}

/// Whether every code is below 128.
pub open spec fn is_ascii_codes(codes: Seq<u8>) -> bool {
    forall|i: int| 0 <= i < codes.len() ==> #[trigger] codes[i] < 128
}

/// `String::push` of std appends the one character to the end of the string
/// and leaves what was there as it was.
pub assume_specification[ String::push ](s: &mut String, ch: char)
    ensures
        final(s)@ == old(s)@.push(ch),
;

/// Appends the characters that `codes` spells to `out`.
pub(crate) fn push_ascii(out: &mut String, codes: &[u8])
    requires
        is_ascii_codes(codes@),
    ensures
        final(out)@ == old(out)@ + ascii_text(codes@),
{
    let mut i: usize = 0;
    while i < codes.len()
        invariant
            0 <= i <= codes.len(),
            is_ascii_codes(codes@),
            out@ == old(out)@ + ascii_text(codes@).subrange(0, i as int),
        decreases codes.len() - i,
    {
        let code: u8 = codes[i];
        out.push(code as char);
        assert(ascii_text(codes@).subrange(0, i as int).push(code as char) =~= ascii_text(
            codes@,
        ).subrange(0, i + 1));
        i += 1;
    }
    assert(ascii_text(codes@).subrange(0, i as int) =~= ascii_text(codes@));
}

/// The string that `codes` spells.
pub(crate) fn ascii_string(codes: &[u8]) -> (s: String)
    requires
        is_ascii_codes(codes@),
    ensures
        s@ == ascii_text(codes@),
{
    let mut s = String::new();
    push_ascii(&mut s, codes);
    assert(Seq::<char>::empty() + ascii_text(codes@) =~= ascii_text(codes@));
    s
}

/// The ASCII codes of `s`, or `None` where `s` holds a character beyond
/// ASCII.
pub fn ascii_codes(s: &str) -> (r: Option<Vec<u8>>)
    ensures
        match r {
            Some(codes) => is_ascii_codes(codes@) && s@ == ascii_text(codes@),
            None => forall|codes: Seq<u8>| is_ascii_codes(codes) ==> s@ != ascii_text(codes),
        },
{
    if !s.is_ascii() {
        assert forall|codes: Seq<u8>| is_ascii_codes(codes) implies s@ != ascii_text(codes) by {
            if s@ == ascii_text(codes) {
                assert forall|i: int| 0 <= i < s@.len() implies '\0' <= #[trigger] s@[i]
                    <= '\u{7f}' by {
                    assert(codes[i] < 128);
                    assert(s@[i] == codes[i] as char);
                }
            }
        }
        return None;
    }
    let codes = vstd::slice::slice_to_vec(s.as_bytes());
    proof {
        vstd::string::is_ascii_spec_bytes(s);
        assert forall|i: int| 0 <= i < codes@.len() implies #[trigger] codes@[i] < 128 by {
            assert('\0' <= s@[i] <= '\u{7f}');
        }
        assert(s@ =~= ascii_text(codes@)) by {
            assert forall|i: int| 0 <= i < s@.len() implies s@[i] == ascii_text(codes@)[i] by {
                assert('\0' <= s@[i] <= '\u{7f}');
            }
        }
    }
    Some(codes)
}

/// Whether two byte strings are the same.
pub fn same_bytes(a: &[u8], b: &[u8]) -> (r: bool)
    ensures
        r == (a@ == b@),
{
    if a.len() != b.len() {
        return false;
    }
    let mut i: usize = 0;
    while i < a.len()
        invariant
            0 <= i <= a@.len(),
            a@.len() == b@.len(),
            forall|j: int| 0 <= j < i ==> a@[j] == b@[j],
        decreases a@.len() - i,
    {
        if a[i] != b[i] {
            return false;
        }
        i += 1;
    }
    assert(a@ =~= b@);
    true
}

} // verus!
