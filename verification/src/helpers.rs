//! What the commands compute before they print or warm up: sizes, the
//! lines of the file overview, tables, and the warm-up of packs.

use vstd::prelude::*;
use vstd::string::StringExecFns;
use crate::backend::FileType;
use crate::blob::clip64;
use crate::id::{hex_of, Id};
use crate::snapshot::texts;
use crate::text::{ascii_string, ascii_text, byte_strings};
use crate::wire::{decimal, push_bytes, push_decimal};

verus! {

/// Reader threads that warm packs up at a time.
pub const MAX_READER_THREADS_NUM: usize = 20;

/// A number of bytes below 1024 as a text: the decimal digits, a space
/// and `B`.
pub open spec fn small_size_text(bytes: u64) -> Seq<char> {
    ascii_text(decimal(bytes as nat)) + " B"@
}

/// `ByteSize::to_string_as` of the `bytesize` crate, asked for binary
/// units. Below 1024 bytes the text is the number in decimal digits, a
/// space and `B`. From 1024 bytes on the crate picks the unit by a
/// logarithm in floating point and rounds to one decimal: of that text
/// nothing is claimed.
#[verifier::external_body]
fn byte_size(bytes: u64) -> (s: String)
    ensures
        bytes < 1024 ==> s@ == small_size_text(bytes),
{
    bytesize::ByteSize(bytes).to_string_as(true)
}

/// A number of bytes as a text for the reader: below 1024 the number and
/// `B`, above that a rounded number with a binary unit.
pub fn bytes_size_to_string(b: u64) -> (s: String)
    ensures
        b < 1024 ==> s@ == small_size_text(b),
{
    byte_size(b)
}

/// The kinds of object that are listed with their identifier.
pub open spec fn all_types() -> Seq<FileType> {
    seq![FileType::Key, FileType::Snapshot, FileType::Index, FileType::Pack]
}

/// The kinds of object that are listed with their identifier.
pub fn all_file_types() -> (r: Vec<FileType>)
    ensures
        r@ == all_types(),
{
    let mut r: Vec<FileType> = Vec::new();
    r.push(FileType::Key);
    r.push(FileType::Snapshot);
    r.push(FileType::Index);
    r.push(FileType::Pack);
    assert(r@ =~= all_types());
    r
}

/// The name of a kind of object in the file overview.
pub open spec fn type_label(tpe: FileType) -> Seq<char> {
    match tpe {
        FileType::Config => "Config"@,
        FileType::Key => "Key"@,
        FileType::Snapshot => "Snapshot"@,
        FileType::Index => "Index"@,
        FileType::Pack => "Pack"@,
    }
}

/// The name of a kind of object in the file overview.
pub fn file_type_label(tpe: FileType) -> (r: &'static str)
    ensures
        r@ == type_label(tpe),
{
    match tpe {
        FileType::Config => "Config",
        FileType::Key => "Key",
        FileType::Snapshot => "Snapshot",
        FileType::Index => "Index",
        FileType::Pack => "Pack",
    }
}

/// Bytes of all files of a listing.
pub open spec fn total_size(list: Seq<(Id, u32)>) -> nat
    decreases list.len(),
{
    if list.len() == 0 {
        0
    } else {
        total_size(list.drop_last()) + list.last().1 as nat
    }
}

/// Bytes of all files of a listing, capped at the largest `u64`.
pub fn list_size(list: &Vec<(Id, u32)>) -> (size: u64)
    ensures
        size == clip64(total_size(list@) as int),
{
    let mut size: u64 = 0;
    let mut i: usize = 0;
    assert(list@.subrange(0, 0) =~= Seq::<(Id, u32)>::empty());
    while i < list.len()
        invariant
            0 <= i <= list@.len(),
            size == clip64(total_size(list@.subrange(0, i as int)) as int),
        decreases list@.len() - i,
    {
        proof {
            let next = list@.subrange(0, i + 1);
            assert(next.drop_last() =~= list@.subrange(0, i as int));
            assert(next.last() == list@[i as int]);
        }
        size = size.saturating_add(list[i].1 as u64);
        i += 1;
    }
    assert(list@.subrange(0, i as int) =~= list@);
    size
}

/// One line of the file overview.
#[derive(Debug)]
pub struct FileInfo {
    /// The kind of object; `None` for the line of totals.
    pub tpe: Option<FileType>,
    /// How many files there are, capped at the largest `u64`.
    pub count: u64,
    /// Bytes of the files, capped at the largest `u64`.
    pub size: u64,
}

/// How many files the first `n` listings hold.
pub open spec fn count_upto(lists: Seq<(FileType, Vec<(Id, u32)>)>, n: int) -> nat
    decreases n,
{
    if n <= 0 {
        0
    } else {
        count_upto(lists, n - 1) + lists[n - 1].1@.len()
    }
}

/// Bytes of the files of the first `n` listings.
pub open spec fn size_upto(lists: Seq<(FileType, Vec<(Id, u32)>)>, n: int) -> nat
    decreases n,
{
    if n <= 0 {
        0
    } else {
        size_upto(lists, n - 1) + total_size(lists[n - 1].1@)
    }
}

/// The file overview: for each listing a line with the count and the size
/// of its files, and a last line with the totals.
pub fn file_infos(lists: &Vec<(FileType, Vec<(Id, u32)>)>) -> (infos: Vec<FileInfo>)
    ensures
        infos@.len() == lists@.len() + 1,
        forall|i: int|
            0 <= i < lists@.len() ==> {
                let line = #[trigger] infos@[i];
                &&& line.tpe == Some(lists@[i].0)
                &&& line.count == clip64(lists@[i].1@.len() as int)
                &&& line.size == clip64(total_size(lists@[i].1@) as int)
            },
        infos@.last().tpe.is_none(),
        infos@.last().count == clip64(count_upto(lists@, lists@.len() as int) as int),
        infos@.last().size == clip64(size_upto(lists@, lists@.len() as int) as int),
{
    let mut infos: Vec<FileInfo> = Vec::new();
    let mut total_count: u64 = 0;
    let mut total: u64 = 0;
    let mut i: usize = 0;
    while i < lists.len()
        invariant
            0 <= i <= lists@.len(),
            infos@.len() == i,
            forall|k: int|
                0 <= k < i ==> {
                    let line = #[trigger] infos@[k];
                    &&& line.tpe == Some(lists@[k].0)
                    &&& line.count == clip64(lists@[k].1@.len() as int)
                    &&& line.size == clip64(total_size(lists@[k].1@) as int)
                },
            total_count == clip64(count_upto(lists@, i as int) as int),
            total == clip64(size_upto(lists@, i as int) as int),
        decreases lists@.len() - i,
    {
        let count = lists[i].1.len() as u64;
        let size = list_size(&lists[i].1);
        infos.push(FileInfo { tpe: Some(lists[i].0), count, size });
        total_count = total_count.saturating_add(count);
        total = total.saturating_add(size);
        i += 1;
    }
    infos.push(FileInfo { tpe: None, count: total_count, size: total });
    infos
}

/// The cells of a line of the file overview: the name of the kind, or
/// `Total`; the count in decimal digits; the size as the text `size`.
pub open spec fn info_cells(info: FileInfo, size: Seq<char>) -> Seq<Seq<char>> {
    seq![
        match info.tpe {
            Some(tpe) => type_label(tpe),
            None => "Total"@,
        },
        ascii_text(decimal(info.count as nat)),
        size,
    ]
}

/// Decimal digits are ASCII.
pub proof fn lemma_decimal_ascii(n: nat)
    ensures
        crate::text::is_ascii_codes(decimal(n)),
    decreases n,
{
    if n >= 10 {
        lemma_decimal_ascii(n / 10);
    }
}

/// A number in decimal digits.
pub fn count_to_string(n: u64) -> (s: String)
    ensures
        s@ == ascii_text(decimal(n as nat)),
{
    let mut digits: Vec<u8> = Vec::new();
    push_decimal(&mut digits, n);
    proof {
        lemma_decimal_ascii(n as nat);
        assert(digits@ =~= decimal(n as nat));
    }
    ascii_string(digits.as_slice())
}

/// The cells of a line of the file overview. The size is written as
/// [`bytes_size_to_string`] writes it.
pub fn file_info_row(info: &FileInfo) -> (row: Vec<String>)
    ensures
        row@.len() == 3,
        texts(row@) == info_cells(*info, row@[2]@),
        info.size < 1024 ==> row@[2]@ == small_size_text(info.size),
{
    let label = match info.tpe {
        Some(tpe) => file_type_label(tpe),
        None => "Total",
    };
    let mut row: Vec<String> = Vec::new();
    row.push(String::from_str(label));
    row.push(count_to_string(info.count));
    row.push(bytes_size_to_string(info.size));
    assert(texts(row@) =~= info_cells(*info, row@[2]@));
    row
}

/// How packs are warmed up before they are read.
#[derive(Debug)]
pub struct WarmUpOptions {
    /// Whether a byte of each pack is read to warm it up.
    pub warm_up: bool,
    /// A command to run for each pack, with `%id` for its identifier.
    pub warm_up_command: Option<Vec<u8>>,
    /// Milliseconds to wait after the warm-up.
    pub warm_up_wait: Option<u64>,
}

/// How the packs are warmed up.
#[derive(Clone, Copy, Debug, PartialEq, Eq, Structural)]
pub enum WarmUp {
    /// The command of the options is run for each pack.
    Command,
    /// One byte of each pack is read; errors do not count.
    Read,
    /// The packs are not warmed up.
    Skip,
}

/// Decides how packs are warmed up and how long to wait after it: a
/// command goes before the reading of a byte, and the wait is kept only
/// where the caller asks for it.
pub fn warm_up_wait(opts: &WarmUpOptions, wait: bool) -> (r: (WarmUp, Option<u64>))
    ensures
        r.0 == if opts.warm_up_command.is_some() {
            WarmUp::Command
        } else if opts.warm_up {
            WarmUp::Read
        } else {
            WarmUp::Skip
        },
        r.1 == if wait {
            opts.warm_up_wait
        } else {
            None
        },
{
    let how = if opts.warm_up_command.is_some() {
        WarmUp::Command
    } else if opts.warm_up {
        WarmUp::Read
    } else {
        WarmUp::Skip
    };
    let pause = if wait {
        opts.warm_up_wait
    } else {
        None
    };
    (how, pause)
}

/// The marker that stands for the identifier of a pack: `%id`.
pub open spec fn marker() -> Seq<u8> {
    seq![37u8, 105u8, 100u8]
}

/// Whether `text` has the marker at `at`.
pub open spec fn marker_at(text: Seq<u8>, at: int) -> bool {
    0 <= at && at + 3 <= text.len() && text.subrange(at, at + 3) == marker()
}

/// `text` with `with` in place of every marker, read from the left.
pub open spec fn replaced(text: Seq<u8>, with: Seq<u8>) -> Seq<u8>
    decreases text.len(),
{
    if text.len() == 0 {
        Seq::empty()
    } else if marker_at(text, 0) {
        with + replaced(text.subrange(3, text.len() as int), with)
    } else {
        seq![text[0]] + replaced(text.subrange(1, text.len() as int), with)
    }
}

/// The warm-up command for one pack: the command of the options with the
/// hex digits of the pack's identifier in place of every `%id`.
pub fn warm_up_command(command: &[u8], pack: &Id) -> (r: Vec<u8>)
    ensures
        r@ == replaced(command@, hex_of(pack@)),
{
    let hex = pack.hex_codes();
    let digits = hex.as_slice();
    let ghost with = hex_of(pack@);
    let mut out: Vec<u8> = Vec::new();
    let mut i: usize = 0;
    assert(command@.subrange(0, command@.len() as int) =~= command@);
    assert(Seq::<u8>::empty() + replaced(command@, with) =~= replaced(command@, with));
    while i < command.len()
        invariant
            0 <= i <= command@.len(),
            digits@ == with,
            out@ + replaced(command@.subrange(i as int, command@.len() as int), with) == replaced(
                command@,
                with,
            ),
        decreases command@.len() - i,
    {
        let ghost rest = command@.subrange(i as int, command@.len() as int);
        let ghost before = out@;
        if command.len() - i >= 3 && command[i] == 37 && command[i + 1] == 105 && command[i + 2]
            == 100 {
            proof {
                assert(rest.subrange(0, 3) =~= marker());
                assert(rest.subrange(3, rest.len() as int) =~= command@.subrange(
                    i + 3,
                    command@.len() as int,
                ));
            }
            push_bytes(&mut out, digits);
            proof {
                let tail = replaced(command@.subrange(i + 3, command@.len() as int), with);
                assert(out@ + tail =~= before + (with + tail));
            }
            i += 3;
        } else {
            proof {
                if marker_at(rest, 0) {
                    assert(rest.subrange(0, 3)[0] == 37u8);
                    assert(rest.subrange(0, 3)[1] == 105u8);
                    assert(rest.subrange(0, 3)[2] == 100u8);
                }
                assert(rest.subrange(1, rest.len() as int) =~= command@.subrange(
                    i + 1,
                    command@.len() as int,
                ));
            }
            out.push(command[i]);
            proof {
                let tail = replaced(command@.subrange(i + 1, command@.len() as int), with);
                assert(out@ + tail =~= before + (seq![rest[0]] + tail));
            }
            i += 1;
        }
    }
    proof {
        assert(command@.subrange(i as int, command@.len() as int) =~= Seq::<u8>::empty());
        assert(out@ + Seq::<u8>::empty() =~= out@);
    }
    out
}

/// A class of bytes.
#[derive(Clone, Copy, Debug, PartialEq, Eq, Structural)]
pub enum Class {
    /// Space, tab, carriage return and line feed.
    Space,
    /// Every byte that is no space.
    NoSpace,
    /// Every byte but the given one.
    Not(u8),
}

/// Whether `b` is of the class `c`.
pub open spec fn in_class(b: u8, c: Class) -> bool {
    let space = b == 32 || b == 9 || b == 13 || b == 10;
    match c {
        Class::Space => space,
        Class::NoSpace => !space,
        Class::Not(x) => b != x,
    }
}

/// How many bytes of the class `c` follow one another in `s` from `from`
/// on.
pub open spec fn run(s: Seq<u8>, from: int, c: Class) -> int
    decreases s.len() - from,
{
    if 0 <= from < s.len() && in_class(s[from], c) {
        1 + run(s, from + 1, c)
    } else {
        0
    }
}

/// One word of a command line.
pub ghost struct Word {
    /// Where the word begins.
    pub start: int,
    /// Where the word ends.
    pub end: int,
    /// Where the reading goes on.
    pub next: int,
}

/// The word that begins at `from`: what stands between two double quotes
/// or two single quotes, where the quotes are closed and hold a byte; else
/// the bytes up to the next space. `None` where a space or nothing stands
/// at `from`.
pub open spec fn word_at(s: Seq<u8>, from: int) -> Option<Word> {
    let quoted = 0 <= from < s.len() && (s[from] == 34 || s[from] == 39);
    let inner = if quoted {
        run(s, from + 1, Class::Not(s[from]))
    } else {
        0
    };
    if quoted && inner >= 1 && from + 1 + inner < s.len() {
        Some(Word { start: from + 1, end: from + 1 + inner, next: from + 2 + inner })
    } else {
        let plain = run(s, from, Class::NoSpace);
        if plain >= 1 {
            Some(Word { start: from, end: from + plain, next: from + plain })
        } else {
            None
        }
    }
}

/// The words of a command line from `from` on; every word but the first
/// needs a space before it, and the reading ends where no word follows.
pub open spec fn words_from(s: Seq<u8>, from: int, first: bool) -> Seq<Seq<u8>>
    decreases s.len() - from,
{
    let gap = if first {
        0
    } else {
        run(s, from, Class::Space)
    };
    if from < 0 || (!first && gap == 0) {
        Seq::empty()
    } else {
        match word_at(s, from + gap) {
            Some(w) => if from < w.next <= s.len() {
                seq![s.subrange(w.start, w.end)] + words_from(s, w.next, false)
            } else {
                Seq::empty()
            },
            None => Seq::empty(),
        }
    }
}

/// The program and the arguments of a command line: its words, which are
/// set apart by spaces; a word between quotes may hold spaces.
pub open spec fn command_words(s: Seq<u8>) -> Seq<Seq<u8>> {
    words_from(s, 0, true)
}

/// A run ends within the text.
pub proof fn lemma_run_bound(s: Seq<u8>, from: int, c: Class)
    requires
        0 <= from <= s.len(),
    ensures
        0 <= run(s, from, c) <= s.len() - from,
    decreases s.len() - from,
{
    if from < s.len() && in_class(s[from], c) {
        lemma_run_bound(s, from + 1, c);
    }
}

/// Whether a byte is of a class.
fn is_in_class(b: u8, c: Class) -> (r: bool)
    ensures
        r == in_class(b, c),
{
    let space = b == 32 || b == 9 || b == 13 || b == 10;
    match c {
        Class::Space => space,
        Class::NoSpace => !space,
        Class::Not(x) => b != x,
    }
}

/// Where the run of bytes of the class `c` from `from` on ends.
fn run_end(s: &[u8], from: usize, c: Class) -> (end: usize)
    requires
        from <= s@.len(),
    ensures
        end == from + run(s@, from as int, c),
        from <= end <= s@.len(),
{
    let mut end = from;
    proof {
        lemma_run_bound(s@, from as int, c);
    }
    while end < s.len() && is_in_class(s[end], c)
        invariant
            from <= end <= s@.len(),
            run(s@, from as int, c) == (end - from) + run(s@, end as int, c),
        decreases s@.len() - end,
    {
        end += 1;
    }
    end
}

/// One word of a command line: where it begins and ends, and where the
/// reading goes on.
fn next_word(s: &[u8], from: usize) -> (r: Option<(usize, usize, usize)>)
    requires
        from <= s@.len(),
    ensures
        match r {
            Some((start, end, next)) => word_at(s@, from as int) == Some(
                Word { start: start as int, end: end as int, next: next as int },
            ) && from <= start <= end <= next <= s@.len() && next > from,
            None => word_at(s@, from as int).is_none(),
        },
{
    if from < s.len() && (s[from] == 34 || s[from] == 39) {
        let close = run_end(s, from + 1, Class::Not(s[from]));
        if close > from + 1 && close < s.len() {
            return Some((from + 1, close, close + 1));
        }
    }
    let end = run_end(s, from, Class::NoSpace);
    if end > from {
        Some((from, end, end))
    } else {
        None
    }
}

/// Splits a command line into the program and its arguments.
pub fn parse_command(s: &[u8]) -> (words: Vec<Vec<u8>>)
    ensures
        byte_strings(words@) == command_words(s@),
{
    let mut words: Vec<Vec<u8>> = Vec::new();
    let mut from: usize = 0;
    let mut first = true;
    let ghost view = byte_strings(words@);
    assert(byte_strings(words@) =~= Seq::<Seq<u8>>::empty());
    assert(Seq::<Seq<u8>>::empty() + command_words(s@) =~= command_words(s@));
    loop
        invariant
            from <= s@.len(),
            byte_strings(words@) + words_from(s@, from as int, first)
                == command_words(s@),
        ensures
            byte_strings(words@) == command_words(s@),
        decreases s@.len() - from, first as int,
    {
        let ghost done = byte_strings(words@);
        let ghost rest = words_from(s@, from as int, first);
        let start = if first {
            from
        } else {
            let after = run_end(s, from, Class::Space);
            if after == from {
                assert(done + Seq::<Seq<u8>>::empty() =~= done);
                break ;
            }
            after
        };
        match next_word(s, start) {
            Some((a, b, next)) => {
                let word = vstd::slice::slice_to_vec(vstd::slice::slice_subrange(s, a, b));
                words.push(word);
                proof {
                    let tail = words_from(s@, next as int, false);
                    assert(byte_strings(words@) =~= done.push(
                        s@.subrange(a as int, b as int),
                    ));
                    assert(done.push(s@.subrange(a as int, b as int)) + tail =~= done + (
                    seq![s@.subrange(a as int, b as int)] + tail));
                }
                from = next;
                first = false;
            },
            None => {
                assert(done + Seq::<Seq<u8>>::empty() =~= done);
                break ;
            },
        }
    }
    words
}

/// One cell of the head of a table.
#[derive(Debug)]
pub struct Cell {
    pub content: String,
    pub bold: bool,
}

/// To which side the cells of a column are set.
#[derive(Clone, Copy, Debug, PartialEq, Eq, Structural)]
pub enum CellAlignment {
    Left,
    Right,
}

/// A table for the reader: the head, the side to which each column is
/// set, and the rows.
#[derive(Debug)]
pub struct Table {
    pub header: Vec<Cell>,
    pub alignment: Vec<CellAlignment>,
    pub rows: Vec<Vec<String>>,
}

/// A cell in bold type.
pub fn bold_cell(s: String) -> (cell: Cell)
    ensures
        cell.content == s,
        cell.bold,
{
    Cell { content: s, bold: true }
}

/// A table without head and rows.
pub fn table() -> (t: Table)
    ensures
        t.header@.len() == 0,
        t.alignment@.len() == 0,
        t.rows@.len() == 0,
{
    Table { header: Vec::new(), alignment: Vec::new(), rows: Vec::new() }
}

/// A table with the given titles as its head, in bold type, and every
/// column set to the left.
pub fn table_with_titles(titles: Vec<String>) -> (t: Table)
    ensures
        t.header@.len() == titles@.len(),
        forall|i: int|
            0 <= i < titles@.len() ==> (#[trigger] t.header@[i]).content@ == titles@[i]@
                && t.header@[i].bold,
        t.alignment@.len() == titles@.len(),
        forall|i: int| 0 <= i < titles@.len() ==> #[trigger] t.alignment@[i] == CellAlignment::Left,
        t.rows@.len() == 0,
{
    table_right_from(titles.len(), titles)
}

/// A table with the given titles as its head, in bold type, whose columns
/// are set to the left before `start` and to the right from there on.
pub fn table_right_from(start: usize, titles: Vec<String>) -> (t: Table)
    ensures
        t.header@.len() == titles@.len(),
        forall|i: int|
            0 <= i < titles@.len() ==> (#[trigger] t.header@[i]).content@ == titles@[i]@
                && t.header@[i].bold,
        t.alignment@.len() == titles@.len(),
        forall|i: int|
            0 <= i < titles@.len() ==> #[trigger] t.alignment@[i] == if i < start {
                CellAlignment::Left
            } else {
                CellAlignment::Right
            },
        t.rows@.len() == 0,
{
    let mut t = table();
    let mut i: usize = 0;
    while i < titles.len()
        invariant
            0 <= i <= titles@.len(),
            t.header@.len() == i,
            t.alignment@.len() == i,
            t.rows@.len() == 0,
            forall|k: int|
                0 <= k < i ==> (#[trigger] t.header@[k]).content@ == titles@[k]@
                    && t.header@[k].bold,
            forall|k: int|
                0 <= k < i ==> #[trigger] t.alignment@[k] == if k < start {
                    CellAlignment::Left
                } else {
                    CellAlignment::Right
                },
        decreases titles@.len() - i,
    {
        t.header.push(bold_cell(titles[i].clone()));
        t.alignment.push(
            if i < start {
                CellAlignment::Left
            } else {
                CellAlignment::Right
            },
        );
        i += 1;
    }
    t
}

impl Table {
    /// Appends a row.
    pub fn add_row(&mut self, row: Vec<String>)
        ensures
            final(self).rows@ == old(self).rows@.push(row),
            final(self).header == old(self).header,
            final(self).alignment == old(self).alignment,
    {
        self.rows.push(row);
    }
}

} // verus!
