//! Content-defined chunking: a stream is cut where the rolling fingerprint
//! of its last bytes ends in zero bits, so that the cuts depend on the
//! content alone.

use vstd::prelude::*;
use vstd::slice::{slice_subrange, slice_to_vec};
use crate::text::byte_strings;
use crate::rolling_hash::{
    append_byte, fingerprint, fingerprint_of, is_degree, lemma_roll, modulus, weight, Modulus,
};

verus! {

/// Bytes of the window that the fingerprint is taken over.
pub const WINDOW_SIZE: usize = 64;

/// Bytes of the smallest chunk that is cut before the end of a stream.
pub const MIN_SIZE: usize = 524288;

/// Bytes of the largest chunk.
pub const MAX_SIZE: usize = 8388608;

/// Low bits of the fingerprint that are zero at a cut: one place in
/// `2^20` is a cut, for chunks of about 1 MiB.
pub const SPLIT_BITS: u32 = 20;

/// The rule by which a stream is cut.
pub ghost struct ChunkRule {
    pub modulus: Modulus,
    pub min_size: nat,
    pub max_size: nat,
    pub mask: u64,
}

/// Whether the fingerprint of the window that ends before `pos` marks a
/// cut.
pub open spec fn hit(data: Seq<u8>, pos: int, rule: ChunkRule) -> bool {
    fingerprint(data.subrange(pos - WINDOW_SIZE, pos), rule.modulus) & rule.mask == 0
}

/// Whether the chunk that begins at `start` ends before `end`: at the
/// first place, the smallest size or more behind `start`, where the
/// fingerprint marks a cut; at the largest size where there is no such
/// place before; at the end of the stream where that comes first.
pub open spec fn is_cut(data: Seq<u8>, start: int, end: int, rule: ChunkRule) -> bool {
    &&& start < end <= data.len()
    &&& end - start <= rule.max_size
    &&& (end == data.len() || end - start == rule.max_size || (end - start >= rule.min_size
        && hit(data, end, rule)))
    &&& forall|p: int| start + rule.min_size <= p < end ==> !#[trigger] hit(data, p, rule)
}

/// Whether `ends` are the ends of the chunks of `data`, in order: each
/// chunk begins where the one before ends, the first at the start, and the
/// last ends with the stream.
pub open spec fn is_chunking(data: Seq<u8>, ends: Seq<usize>, rule: ChunkRule) -> bool {
    &&& data.len() == 0 <==> ends.len() == 0
    &&& forall|i: int| 0 <= i < ends.len() ==> #[trigger] cut_at(data, ends, i, rule)
    &&& ends.len() > 0 ==> ends.last() == data.len()
}

/// Where the chunk `i` begins: where the chunk before it ends.
pub open spec fn start_of(ends: Seq<usize>, i: int) -> int {
    if i == 0 {
        0
    } else {
        ends[i - 1] as int
    }
}

/// Whether the chunk `i` ends where `ends` says.
pub open spec fn cut_at(data: Seq<u8>, ends: Seq<usize>, i: int, rule: ChunkRule) -> bool {
    is_cut(data, start_of(ends, i), ends[i] as int, rule)
}

/// The chunks of `data` that end at `ends`.
pub open spec fn pieces(data: Seq<u8>, ends: Seq<usize>) -> Seq<Seq<u8>> {
    Seq::new(ends.len(), |i: int| data.subrange(start_of(ends, i), ends[i] as int))
}

/// Byte strings put one behind the other.
pub open spec fn concat(parts: Seq<Seq<u8>>) -> Seq<u8>
    decreases parts.len(),
{
    if parts.len() == 0 {
        Seq::empty()
    } else {
        concat(parts.drop_last()) + parts.last()
    }
}

/// A chunk that begins at a given place ends at one place only.
pub proof fn lemma_cut_unique(data: Seq<u8>, start: int, a: int, b: int, rule: ChunkRule)
    requires
        is_cut(data, start, a, rule),
        is_cut(data, start, b, rule),
    ensures
        a == b,
{
    if a < b {
        assert(!hit(data, a, rule));
    } else if b < a {
        assert(!hit(data, b, rule));
    }
}

/// A stream is cut in one way only: the chunks depend on nothing but the
/// bytes of the stream and the rule.
pub proof fn lemma_chunking_unique(data: Seq<u8>, a: Seq<usize>, b: Seq<usize>, rule: ChunkRule)
    requires
        is_chunking(data, a, rule),
        is_chunking(data, b, rule),
    ensures
        a == b,
{
    lemma_same_prefix(data, a, b, rule, if a.len() <= b.len() {
        a.len() as int
    } else {
        b.len() as int
    });
    if a.len() < b.len() {
        let n = a.len() as int;
        assert(cut_at(data, b, n, rule));
        if n > 0 {
            assert(a[n - 1] == b[n - 1]);
        }
    } else if b.len() < a.len() {
        let n = b.len() as int;
        assert(cut_at(data, a, n, rule));
        if n > 0 {
            assert(a[n - 1] == b[n - 1]);
        }
    }
    assert(a =~= b);
}

proof fn lemma_same_prefix(data: Seq<u8>, a: Seq<usize>, b: Seq<usize>, rule: ChunkRule, n: int)
    requires
        is_chunking(data, a, rule),
        is_chunking(data, b, rule),
        0 <= n <= a.len(),
        n <= b.len(),
    ensures
        forall|i: int| 0 <= i < n ==> a[i] == b[i],
    decreases n,
{
    if n > 0 {
        lemma_same_prefix(data, a, b, rule, n - 1);
        assert(cut_at(data, a, n - 1, rule));
        assert(cut_at(data, b, n - 1, rule));
        if n > 1 {
            assert(a[n - 2] == b[n - 2]);
        }
        lemma_cut_unique(data, start_of(a, n - 1), a[n - 1] as int, b[n - 1] as int, rule);
    }
}

/// The chunks of a stream, put one behind the other, are the stream.
pub proof fn lemma_pieces_concat(data: Seq<u8>, ends: Seq<usize>, rule: ChunkRule)
    requires
        is_chunking(data, ends, rule),
    ensures
        concat(pieces(data, ends)) == data,
{
    lemma_concat_prefix(data, ends, rule, ends.len() as int);
    assert(pieces(data, ends).subrange(0, ends.len() as int) =~= pieces(data, ends));
    if ends.len() == 0 {
        assert(data =~= Seq::<u8>::empty());
    } else {
        assert(data.subrange(0, data.len() as int) =~= data);
    }
}

proof fn lemma_concat_prefix(data: Seq<u8>, ends: Seq<usize>, rule: ChunkRule, n: int)
    requires
        is_chunking(data, ends, rule),
        0 <= n <= ends.len(),
    ensures
        concat(pieces(data, ends).subrange(0, n)) == data.subrange(0, start_of(ends, n)),
    decreases n,
{
    let parts = pieces(data, ends).subrange(0, n);
    if n == 0 {
        assert(data.subrange(0, 0) =~= Seq::<u8>::empty());
    } else {
        lemma_concat_prefix(data, ends, rule, n - 1);
        assert(parts.drop_last() =~= pieces(data, ends).subrange(0, n - 1));
        let start = start_of(ends, n - 1);
        assert(cut_at(data, ends, n - 1, rule));
        assert(parts.last() == data.subrange(start, ends[n - 1] as int));
        assert(data.subrange(0, start) + data.subrange(start, ends[n - 1] as int)
            =~= data.subrange(0, ends[n - 1] as int));
    }
}

/// Bytes of all of `parts`.
pub open spec fn total_len(parts: Seq<Seq<u8>>) -> nat
    decreases parts.len(),
{
    if parts.len() == 0 {
        0
    } else {
        total_len(parts.drop_last()) + parts.last().len()
    }
}

/// Byte strings put one behind the other have the bytes of all of them.
pub proof fn lemma_concat_len(parts: Seq<Seq<u8>>)
    ensures
        concat(parts).len() == total_len(parts),
    decreases parts.len(),
{
    if parts.len() > 0 {
        lemma_concat_len(parts.drop_last());
    }
}

/// The chunks of a stream have the bytes of the stream: the size of a
/// file is the total of its chunks.
pub proof fn lemma_pieces_len(data: Seq<u8>, ends: Seq<usize>, rule: ChunkRule)
    requires
        is_chunking(data, ends, rule),
    ensures
        total_len(pieces(data, ends)) == data.len(),
{
    lemma_pieces_concat(data, ends, rule);
    lemma_concat_len(pieces(data, ends));
}

/// Cuts streams into chunks by one rule.
pub struct Chunker {
    modulus: Modulus,
    out_table: Vec<u64>,
    min_size: usize,
    max_size: usize,
    mask: u64,
}

impl Chunker {
    #[verifier::type_invariant]
    spec fn inv(self) -> bool {
        &&& self.modulus.degree < 64
        &&& self.out_table@.len() == 256
        &&& forall|b: int|
            0 <= b < 256 ==> #[trigger] self.out_table@[b] == weight(
                b as u8,
                (WINDOW_SIZE - 1) as nat,
                self.modulus,
            )
        &&& WINDOW_SIZE <= self.min_size <= self.max_size
    }

    /// The rule by which the chunker cuts.
    pub closed spec fn rule(&self) -> ChunkRule {
        ChunkRule {
            modulus: self.modulus,
            min_size: self.min_size as nat,
            max_size: self.max_size as nat,
            mask: self.mask,
        }
    }

    /// A chunker for the given polynomial, with the sizes of the
    /// repository format.
    pub fn new(polynomial: u64) -> (r: Chunker)
        ensures
            r.rule().modulus.poly == polynomial,
            is_degree(polynomial, r.rule().modulus.degree),
            r.rule().min_size == MIN_SIZE,
            r.rule().max_size == MAX_SIZE,
            r.rule().mask == 0xf_ffff,
    {
        assert((1u64 << 20u64) - 1 == 0xf_ffff) by (bit_vector);
        Chunker::with_sizes(polynomial, MIN_SIZE, MAX_SIZE, SPLIT_BITS).unwrap()
    }

    /// A chunker for the given polynomial and sizes, which cuts where the
    /// low `bits` bits of the fingerprint are zero; `None` unless the
    /// smallest size is a window or more and no more than the largest, and
    /// `bits` is below 64.
    pub fn with_sizes(polynomial: u64, min_size: usize, max_size: usize, bits: u32) -> (r: Option<
        Chunker,
    >)
        ensures
            r.is_some() <==> WINDOW_SIZE <= min_size <= max_size && bits < 64,
            r.is_some() ==> {
                let rule = r.unwrap().rule();
                &&& rule.modulus.poly == polynomial
                &&& is_degree(polynomial, rule.modulus.degree)
                &&& rule.min_size == min_size
                &&& rule.max_size == max_size
                &&& rule.mask == ((1u64 << (bits as u64)) - 1) as u64
            },
    {
        if min_size < WINDOW_SIZE || max_size < min_size || bits >= 64 {
            return None;
        }
        let m = modulus(polynomial);
        let mut out_table: Vec<u64> = Vec::new();
        let mut b: usize = 0;
        while b < 256
            invariant
                0 <= b <= 256,
                m.degree < 64,
                out_table@.len() == b,
                forall|k: int|
                    0 <= k < b ==> #[trigger] out_table@[k] == weight(
                        k as u8,
                        (WINDOW_SIZE - 1) as nat,
                        m,
                    ),
            decreases 256 - b,
        {
            let mut window: Vec<u8> = Vec::new();
            window.push(b as u8);
            let mut z: usize = 1;
            while z < WINDOW_SIZE
                invariant
                    1 <= z <= WINDOW_SIZE,
                    b < 256,
                    window@ == seq![b as u8] + Seq::new((z - 1) as nat, |i: int| 0u8),
                decreases WINDOW_SIZE - z,
            {
                window.push(0);
                assert(window@ =~= seq![b as u8] + Seq::new(z as nat, |i: int| 0u8));
                z += 1;
            }
            out_table.push(fingerprint_of(window.as_slice(), &m));
            b += 1;
        }
        proof {
            let n = bits as u64;
            assert(n < 64 ==> (1u64 << n) >= 1) by (bit_vector);
        }
        let mask: u64 = (1u64 << (bits as u64)) - 1;
        Some(Chunker { modulus: m, out_table, min_size, max_size, mask })
    }

    /// Where the chunk that begins at `start` ends; the end of the stream
    /// where no chunk begins there.
    pub fn next_cut(&self, data: &[u8], start: usize) -> (end: usize)
        ensures
            start < data@.len() ==> is_cut(data@, start as int, end as int, self.rule()),
            start >= data@.len() ==> end == data@.len(),
    {
        proof {
            use_type_invariant(self);
        }
        let ghost rule = self.rule();
        let n = data.len();
        if start >= n {
            return n;
        }
        if n - start <= self.min_size {
            return n;
        }
        let limit = if n - start > self.max_size {
            start + self.max_size
        } else {
            n
        };
        let mut pos = start + self.min_size;
        let mut digest = fingerprint_of(slice_subrange(data, pos - WINDOW_SIZE, pos), &self.modulus);
        while pos < limit
            invariant
                start + self.min_size <= pos <= limit <= n,
                n == data@.len(),
                limit - start <= self.max_size,
                limit == n || limit - start == self.max_size,
                WINDOW_SIZE <= self.min_size,
                self.modulus.degree < 64,
                self.out_table@.len() == 256,
                forall|b: int|
                    0 <= b < 256 ==> #[trigger] self.out_table@[b] == weight(
                        b as u8,
                        (WINDOW_SIZE - 1) as nat,
                        self.modulus,
                    ),
                rule == self.rule(),
                digest == fingerprint(data@.subrange(pos - WINDOW_SIZE, pos as int), self.modulus),
                forall|p: int| start + self.min_size <= p < pos ==> !#[trigger] hit(data@, p, rule),
            decreases limit - pos,
        {
            if digest & self.mask == 0 {
                return pos;
            }
            let leaving: u8 = data[pos - WINDOW_SIZE];
            let entering: u8 = data[pos];
            proof {
                let window = data@.subrange(pos - WINDOW_SIZE, pos as int);
                lemma_roll(window, entering, self.modulus);
                assert(window.drop_first().push(entering) =~= data@.subrange(
                    pos + 1 - WINDOW_SIZE,
                    pos + 1,
                ));
                assert(window.first() == leaving);
                assert(self.out_table@[leaving as int] == weight(
                    leaving,
                    (WINDOW_SIZE - 1) as nat,
                    self.modulus,
                ));
            }
            digest = append_byte(digest ^ self.out_table[leaving as usize], entering, &self.modulus);
            pos += 1;
        }
        limit
    }

    /// Where the chunks of `data` end, in order.
    pub fn chunk_ends(&self, data: &[u8]) -> (ends: Vec<usize>)
        ensures
            is_chunking(data@, ends@, self.rule()),
    {
        let mut ends: Vec<usize> = Vec::new();
        let mut start: usize = 0;
        while start < data.len()
            invariant
                0 <= start <= data@.len(),
                start == start_of(ends@, ends@.len() as int),
                start == 0 ==> ends@.len() == 0,
                forall|i: int|
                    0 <= i < ends@.len() ==> #[trigger] cut_at(data@, ends@, i, self.rule()),
            decreases data@.len() - start,
        {
            let end = self.next_cut(data, start);
            let ghost before = ends@;
            ends.push(end);
            proof {
                assert forall|i: int| 0 <= i < ends@.len() implies #[trigger] cut_at(
                    data@,
                    ends@,
                    i,
                    self.rule(),
                ) by {
                    if i < before.len() {
                        assert(cut_at(data@, before, i, self.rule()));
                    }
                }
            }
            start = end;
        }
        ends
    }

    /// The chunks of `data`, in order.
    ///
    /// Put one behind the other, the chunks are `data`; they end where
    /// [`is_chunking`] says, which depends on the bytes and the rule alone.
    pub fn chunks(&self, data: &[u8]) -> (parts: Vec<Vec<u8>>)
        ensures
            concat(byte_strings(parts@)) == data@,
            exists|ends: Seq<usize>|
                is_chunking(data@, ends, self.rule()) && byte_strings(parts@) == pieces(data@, ends),
    {
        let ends = self.chunk_ends(data);
        let mut parts: Vec<Vec<u8>> = Vec::new();
        let mut i: usize = 0;
        while i < ends.len()
            invariant
                0 <= i <= ends@.len(),
                is_chunking(data@, ends@, self.rule()),
                parts@.len() == i,
                forall|j: int| 0 <= j < i ==> (#[trigger] parts@[j])@ == pieces(data@, ends@)[j],
            decreases ends@.len() - i,
        {
            let start = if i == 0 {
                0
            } else {
                ends[i - 1]
            };
            assert(cut_at(data@, ends@, i as int, self.rule()));
            parts.push(slice_to_vec(slice_subrange(data, start, ends[i])));
            i += 1;
        }
        proof {
            assert(byte_strings(parts@) =~= pieces(data@, ends@));
            lemma_pieces_concat(data@, ends@, self.rule());
        }
        parts
    }
}

} // verus!
