//! Content identifiers: 32-byte values rendered as 64 lowercase hex digits.

use vstd::prelude::*;
use vstd::array::array_as_slice;
use vstd::bytes::{
    lemma_auto_spec_u128_to_from_le_bytes, spec_u128_from_le_bytes, spec_u128_to_le_bytes,
    u128_from_le_bytes, u128_to_le_bytes,
};
use vstd::slice::slice_subrange;
use crate::text::{ascii_codes, ascii_string, ascii_text, is_ascii_codes};

verus! {

/// A 32-byte content identifier.
///
/// The bytes are held as two 16-byte halves, each packed little-endian into
/// an integer, so that equality is structural and ordering is cheap.
#[derive(Clone, Copy, Debug, PartialEq, Eq, Structural, PartialOrd, Ord, Hash)]
pub struct Id {
    head: u128,
    tail: u128,
}

impl View for Id {
    type V = Seq<u8>;

    /// The 32 bytes of the identifier, first byte first.
    closed spec fn view(&self) -> Seq<u8> {
        spec_u128_to_le_bytes(self.head) + spec_u128_to_le_bytes(self.tail)
    }
}

/// The ASCII code of the lowercase hex digit for a value below 16.
pub open spec fn hex_digit(n: int) -> u8 {
    if n < 10 {
        (48 + n) as u8
    } else {
        (87 + n) as u8
    }
}

/// Whether `c` is the ASCII code of a lowercase hex digit.
pub open spec fn is_hex_digit(c: u8) -> bool {
    (48 <= c <= 57) || (97 <= c <= 102)
}

/// The value of a lowercase hex digit.
pub open spec fn hex_value(c: u8) -> int {
    if c <= 57 {
        c - 48
    } else {
        c - 87
    }
}

/// Lowercase hex rendering of a byte string, as ASCII codes.
pub open spec fn hex_of(bytes: Seq<u8>) -> Seq<u8> {
    Seq::new(
        2 * bytes.len(),
        |i: int|
            if i % 2 == 0 {
                hex_digit(bytes[i / 2] as int / 16)
            } else {
                hex_digit(bytes[i / 2] as int % 16)
            },
    )
}

/// Whether `text` is an even number of lowercase hex digits.
pub open spec fn is_hex(text: Seq<u8>) -> bool {
    &&& text.len() % 2 == 0
    &&& forall|i: int| 0 <= i < text.len() ==> is_hex_digit(#[trigger] text[i])
}

/// The bytes that a hex text stands for.
pub open spec fn unhex(text: Seq<u8>) -> Seq<u8> {
    Seq::new(
        text.len() / 2,
        |i: int| (hex_value(text[2 * i]) * 16 + hex_value(text[2 * i + 1])) as u8,
    )
}

/// Rendering bytes as hex and reading the text back gives the bytes.
pub proof fn lemma_unhex_hex(bytes: Seq<u8>)
    ensures
        is_hex(hex_of(bytes)),
        unhex(hex_of(bytes)) == bytes,
{
    let text = hex_of(bytes);
    assert forall|i: int| 0 <= i < text.len() implies is_hex_digit(#[trigger] text[i]) by {
        let b = bytes[i / 2] as int;
        assert(0 <= b / 16 < 16);
        assert(0 <= b % 16 < 16);
    }
    assert forall|i: int| 0 <= i < bytes.len() implies unhex(text)[i] == bytes[i] by {
        let b = bytes[i] as int;
        assert((2 * i) / 2 == i);
        assert((2 * i + 1) / 2 == i);
        assert((2 * i) % 2 == 0);
        assert((2 * i + 1) % 2 == 1);
        assert(text[2 * i] == hex_digit(b / 16));
        assert(text[2 * i + 1] == hex_digit(b % 16));
        assert(0 <= b / 16 < 16);
        assert(0 <= b % 16 < 16);
        assert(hex_value(hex_digit(b / 16)) == b / 16);
        assert(hex_value(hex_digit(b % 16)) == b % 16);
        assert((b / 16) * 16 + b % 16 == b);
    }
    assert(unhex(text) =~= bytes);
}

/// Reading a hex text and rendering the bytes gives the text back.
pub proof fn lemma_hex_unhex(text: Seq<u8>)
    requires
        is_hex(text),
    ensures
        hex_of(unhex(text)) == text,
{
    let bytes = unhex(text);
    assert forall|i: int| 0 <= i < text.len() implies hex_of(bytes)[i] == text[i] by {
        let k = i / 2;
        let hi = hex_value(text[2 * k]);
        let lo = hex_value(text[2 * k + 1]);
        assert(is_hex_digit(text[2 * k]));
        assert(is_hex_digit(text[2 * k + 1]));
        assert(0 <= hi < 16 && 0 <= lo < 16);
        assert(bytes[k] == hi * 16 + lo);
        assert((hi * 16 + lo) / 16 == hi);
        assert((hi * 16 + lo) % 16 == lo);
        if i % 2 == 0 {
            assert(i == 2 * k);
            assert(hex_digit(hi) == text[i]);
        } else {
            assert(i == 2 * k + 1);
            assert(hex_digit(lo) == text[i]);
        }
    }
    assert(hex_of(bytes) =~= text);
}

/// Hex digits are ASCII.
pub proof fn lemma_hex_is_ascii(bytes: Seq<u8>)
    ensures
        is_ascii_codes(hex_of(bytes)),
{
    lemma_unhex_hex(bytes);
}

/// The ASCII code of the hex digit for `n`.
pub(crate) fn hex_code(n: u8) -> (c: u8)
    requires
        n < 16,
    ensures
        c == hex_digit(n as int),
{
    if n < 10 {
        48 + n
    } else {
        87 + n
    }
}

/// Whether `c` is a lowercase hex digit.
fn hex_code_ok(c: u8) -> (r: bool)
    ensures
        r == is_hex_digit(c),
{
    (48 <= c && c <= 57) || (97 <= c && c <= 102)
}

/// The value of the hex digit `c`.
fn hex_code_value(c: u8) -> (n: u8)
    requires
        is_hex_digit(c),
    ensures
        n == hex_value(c),
        n < 16,
{
    if c <= 57 {
        c - 48
    } else {
        c - 87
    }
}

impl Id {
    /// The identifier with the given 32 bytes.
    pub closed spec fn of_bytes(bytes: Seq<u8>) -> Id {
        Id {
            head: spec_u128_from_le_bytes(bytes.subrange(0, 16)),
            tail: spec_u128_from_le_bytes(bytes.subrange(16, 32)),
        }
    }

    /// Position of the identifier in the total order that sorted tables use.
    pub closed spec fn key(self) -> nat {
        (self.head as nat) * 0x1_0000_0000_0000_0000_0000_0000_0000_0000 + (self.tail as nat)
    }

    /// The all-zero identifier.
    pub closed spec fn zero() -> Id {
        Id { head: 0, tail: 0 }
    }

    /// Every identifier has 32 bytes and is rebuilt from them.
    pub broadcast proof fn lemma_view(self)
        ensures
            #[trigger] self@.len() == 32,
            Id::of_bytes(self@) == self,
    {
        lemma_auto_spec_u128_to_from_le_bytes();
        assert(self@.subrange(0, 16) =~= spec_u128_to_le_bytes(self.head));
        assert(self@.subrange(16, 32) =~= spec_u128_to_le_bytes(self.tail));
    }

    /// Any 32 bytes are the view of exactly the identifier built from them.
    pub broadcast proof fn lemma_of_bytes(bytes: Seq<u8>)
        requires
            bytes.len() == 32,
        ensures
            (#[trigger] Id::of_bytes(bytes))@ == bytes,
    {
        lemma_auto_spec_u128_to_from_le_bytes();
        assert(bytes.subrange(0, 16) + bytes.subrange(16, 32) =~= bytes);
    }

    /// Identifiers with the same bytes are the same identifier.
    pub proof fn lemma_view_injective(a: Id, b: Id)
        requires
            a@ == b@,
        ensures
            a == b,
    {
        a.lemma_view();
        b.lemma_view();
    }

    /// Identifiers at the same position of the order are the same identifier.
    pub proof fn lemma_key_injective(a: Id, b: Id)
        requires
            a.key() == b.key(),
        ensures
            a == b,
    {
    }

    /// Builds an identifier from its 32 bytes.
    pub fn new(bytes: [u8; 32]) -> (id: Id)
        ensures
            id@ == bytes@,
            id == Id::of_bytes(bytes@),
    {
        let all = array_as_slice(&bytes);
        let head = u128_from_le_bytes(slice_subrange(all, 0, 16));
        let tail = u128_from_le_bytes(slice_subrange(all, 16, 32));
        proof {
            Id::lemma_of_bytes(bytes@);
        }
        Id { head, tail }
    }

    /// Builds an identifier from a byte slice; `None` unless it has 32 bytes.
    pub fn from_slice(bytes: &[u8]) -> (r: Option<Id>)
        ensures
            bytes@.len() == 32 ==> r == Some(Id::of_bytes(bytes@)) && r.unwrap()@ == bytes@,
            bytes@.len() != 32 ==> r.is_none(),
    {
        if bytes.len() != 32 {
            return None;
        }
        let head = u128_from_le_bytes(slice_subrange(bytes, 0, 16));
        let tail = u128_from_le_bytes(slice_subrange(bytes, 16, 32));
        proof {
            Id::lemma_of_bytes(bytes@);
        }
        Some(Id { head, tail })
    }

    /// The 32 bytes of the identifier.
    pub fn to_bytes(&self) -> (bytes: Vec<u8>)
        ensures
            bytes@ == self@,
            bytes@.len() == 32,
    {
        let mut bytes = u128_to_le_bytes(self.head);
        let mut rest = u128_to_le_bytes(self.tail);
        bytes.append(&mut rest);
        bytes
    }

    /// The identifier as 64 lowercase hex digits.
    pub fn to_hex(&self) -> (s: String)
        ensures
            s@ == Id::hex_text(*self),
    {
        let codes = self.hex_codes();
        proof {
            lemma_hex_is_ascii(self@);
        }
        ascii_string(codes.as_slice())
    }

    /// The ASCII codes of the 64 lowercase hex digits of the identifier.
    pub fn hex_codes(&self) -> (codes: Vec<u8>)
        ensures
            codes@ == hex_of(self@),
    {
        let bytes = self.to_bytes();
        let mut codes: Vec<u8> = Vec::new();
        let mut i: usize = 0;
        while i < 32
            invariant
                0 <= i <= 32,
                bytes@.len() == 32,
                codes@ == hex_of(bytes@).subrange(0, 2 * i),
            decreases 32 - i,
        {
            let b: u8 = bytes[i];
            codes.push(hex_code(b / 16));
            codes.push(hex_code(b % 16));
            proof {
                let k = i as int;
                assert((2 * k) / 2 == k && (2 * k) % 2 == 0);
                assert((2 * k + 1) / 2 == k && (2 * k + 1) % 2 == 1);
                assert(codes@ =~= hex_of(bytes@).subrange(0, 2 * k + 2));
            }
            i += 1;
        }
        assert(codes@ =~= hex_of(bytes@));
        codes
    }

    /// Reads an identifier from its 64 lowercase hex digits; `None` for any
    /// other text.
    pub fn from_hex(s: &str) -> (r: Option<Id>)
        ensures
            r == Id::parse_hex(s@),
            match r {
                Some(id) => s@ == Id::hex_text(id),
                None => forall|id: Id| s@ != Id::hex_text(id),
            },
    {
        let r = Id::from_hex_checked(s);
        proof {
            match r {
                Some(id) => {
                    Id::lemma_parse_hex(id);
                },
                None => {},
            }
        }
        r
    }

    /// The identifier that a text renders, if it renders one.
    pub open spec fn parse_hex(text: Seq<char>) -> Option<Id> {
        if exists|id: Id| text == Id::hex_text(id) {
            Some(choose|id: Id| text == Id::hex_text(id))
        } else {
            None
        }
    }

    /// Two identifiers with the same rendering are the same identifier.
    pub proof fn lemma_hex_text_injective(a: Id, b: Id)
        requires
            Id::hex_text(a) == Id::hex_text(b),
        ensures
            a == b,
    {
        lemma_hex_is_ascii(a@);
        lemma_hex_is_ascii(b@);
        a.lemma_view();
        b.lemma_view();
        assert forall|i: int| 0 <= i < 64 implies hex_of(a@)[i] == hex_of(b@)[i] by {
            assert(Id::hex_text(a)[i] == hex_of(a@)[i] as char);
            assert(Id::hex_text(b)[i] == hex_of(b@)[i] as char);
            assert(hex_of(a@)[i] < 128 && hex_of(b@)[i] < 128);
        }
        assert(hex_of(a@) =~= hex_of(b@));
        lemma_unhex_hex(a@);
        lemma_unhex_hex(b@);
        Id::lemma_view_injective(a, b);
    }

    /// Rendering an identifier and reading the text back gives the
    /// identifier.
    pub proof fn lemma_parse_hex(id: Id)
        ensures
            Id::parse_hex(Id::hex_text(id)) == Some(id),
    {
        let text = Id::hex_text(id);
        let other = choose|other: Id| text == Id::hex_text(other);
        Id::lemma_hex_text_injective(id, other);
    }

    fn from_hex_checked(s: &str) -> (r: Option<Id>)
        ensures
            match r {
                Some(id) => s@ == Id::hex_text(id),
                None => forall|id: Id| s@ != Id::hex_text(id),
            },
    {
        let codes = match ascii_codes(s) {
            Some(codes) => codes,
            None => {
                proof {
                    assert forall|id: Id| s@ != Id::hex_text(id) by {
                        lemma_hex_is_ascii(id@);
                    }
                }
                return None;
            },
        };
        if codes.len() != 64 {
            proof {
                assert forall|id: Id| s@ != Id::hex_text(id) by {
                    id.lemma_view();
                    assert(Id::hex_text(id).len() == 64);
                    assert(ascii_text(codes@).len() == codes@.len());
                }
            }
            return None;
        }
        let mut bytes: Vec<u8> = Vec::new();
        let mut i: usize = 0;
        while i < 32
            invariant
                0 <= i <= 32,
                codes@.len() == 64,
                s@ == ascii_text(codes@),
                bytes@.len() == i,
                forall|j: int| 0 <= j < 2 * i ==> is_hex_digit(#[trigger] codes@[j]),
                forall|j: int| 0 <= j < i ==> #[trigger] bytes@[j] == unhex(codes@)[j],
            decreases 32 - i,
        {
            let hi: u8 = codes[2 * i];
            let lo: u8 = codes[2 * i + 1];
            if !hex_code_ok(hi) || !hex_code_ok(lo) {
                proof {
                    let at = if !is_hex_digit(hi) { 2 * i as int } else { 2 * i as int + 1 };
                    assert forall|id: Id| s@ != Id::hex_text(id) by {
                        id.lemma_view();
                        lemma_unhex_hex(id@);
                        if s@ == Id::hex_text(id) {
                            assert(ascii_text(codes@)[at] == ascii_text(hex_of(id@))[at]);
                            assert(is_hex_digit(hex_of(id@)[at]));
                            assert(codes@[at] == hex_of(id@)[at]);
                        }
                    }
                }
                return None;
            }
            let byte: u8 = hex_code_value(hi) * 16 + hex_code_value(lo);
            bytes.push(byte);
            i += 1;
        }
        let id = Id::from_slice(bytes.as_slice()).unwrap();
        proof {
            assert(is_hex(codes@));
            assert(bytes@ =~= unhex(codes@));
            lemma_hex_unhex(codes@);
        }
        Some(id)
    }

    /// The 64 characters that render the identifier.
    pub open spec fn hex_text(id: Id) -> Seq<char> {
        ascii_text(hex_of(id@))
    }

    /// Whether `self` comes strictly before `other` in the table order.
    pub fn lt(&self, other: &Id) -> (r: bool)
        ensures
            r == (self.key() < other.key()),
    {
        self.head < other.head || (self.head == other.head && self.tail < other.tail)
    }

    /// Whether the identifier is all zero.
    pub fn is_null(&self) -> (r: bool)
        ensures
            r == (*self == Id::zero()),
    {
        self.head == 0 && self.tail == 0
    }
}

impl Default for Id {
    /// The all-zero identifier.
    fn default() -> (id: Id)
        ensures
            id == Id::zero(),
    {
        Id { head: 0, tail: 0 }
    }
}

} // verus!
