//! The index of an archive: a magic word, the number of entries, and for
//! each entry its path, the offset of its sealed stream in the archive and
//! the size of that stream. The sealed streams follow the index.

use vstd::prelude::*;

verus! {

/// The number of bytes of the magic word.
pub const MAGIC_LEN: usize = 8;

/// The bytes that an archive begins with: `BSTSEAL` and a zero byte.
pub open spec fn magic() -> Seq<u8> {
    seq![0x42u8, 0x53u8, 0x54u8, 0x53u8, 0x45u8, 0x41u8, 0x4Cu8, 0x00u8]
}

/// Why an index was not read.
#[derive(Debug, Clone, Copy, PartialEq, Eq, Structural)]
pub enum ArchiveError {
    /// The data ends before the index does.
    Truncated,
    /// The data does not begin with the magic word.
    BadMagic,
}

/// A file to be packed: its path and the size of its sealed stream.
pub struct PackedFile {
    pub path: Vec<u8>,
    pub size: u64,
}

/// An entry of the index.
#[derive(Debug, Clone, PartialEq, Eq)]
pub struct IndexEntry {
    pub path: Vec<u8>,
    pub offset: u64,
    pub size: u64,
}

/// An entry of the index as a value.
pub struct EntryModel {
    pub path: Seq<u8>,
    pub offset: u64,
    pub size: u64,
}

impl View for IndexEntry {
    type V = EntryModel;

    open spec fn view(&self) -> EntryModel {
        EntryModel { path: self.path@, offset: self.offset, size: self.size }
    }
}

/// The entries that the vector holds.
pub open spec fn entry_models(entries: Seq<IndexEntry>) -> Seq<EntryModel> {
    Seq::new(entries.len(), |i: int| entries[i]@)
}

/// The `width` low bytes of `v`, least significant first.
pub open spec fn le_bytes(v: nat, width: nat) -> Seq<u8>
    decreases width,
{
    if width == 0 {
        Seq::empty()
    } else {
        seq![(v % 256) as u8] + le_bytes(v / 256, (width - 1) as nat)
    }
}

/// The number that `s` spells, least significant byte first.
pub open spec fn le_value(s: Seq<u8>) -> nat
    decreases s.len(),
{
    if s.len() == 0 {
        0
    } else {
        s[0] as nat + 256 * le_value(s.skip(1))
    }
}

/// The first number that `width` bytes cannot hold.
pub open spec fn le_limit(width: nat) -> nat
    decreases width,
{
    if width == 0 {
        1
    } else {
        256 * le_limit((width - 1) as nat)
    }
}

pub proof fn lemma_le_limits()
    ensures
        le_limit(2) == 0x1_0000,
        le_limit(4) == 0x1_0000_0000,
        le_limit(8) == 0x1_0000_0000_0000_0000,
{
    reveal_with_fuel(le_limit, 9);
}

pub proof fn lemma_le_bytes_len(v: nat, width: nat)
    ensures
        le_bytes(v, width).len() == width,
    decreases width,
{
    if width > 0 {
        lemma_le_bytes_len(v / 256, (width - 1) as nat);
    }
}

pub proof fn lemma_le_value_bound(s: Seq<u8>)
    ensures
        le_value(s) < le_limit(s.len()),
    decreases s.len(),
{
    if s.len() > 0 {
        lemma_le_value_bound(s.skip(1));
    }
}

/// The bytes of a number spell it again, where they can hold it.
pub proof fn lemma_le_round_trip(v: nat, width: nat)
    requires
        v < le_limit(width),
    ensures
        le_value(le_bytes(v, width)) == v,
    decreases width,
{
    if width > 0 {
        let rest = le_bytes(v / 256, (width - 1) as nat);
        lemma_le_round_trip(v / 256, (width - 1) as nat);
        assert(le_bytes(v, width).skip(1) =~= rest);
    }
}

/// One entry as bytes: the length of the path in two bytes, the path, the
/// offset and the size in eight bytes each.
pub open spec fn entry_encoding(e: EntryModel) -> Seq<u8> {
    le_bytes(e.path.len(), 2) + e.path + le_bytes(e.offset as nat, 8) + le_bytes(e.size as nat, 8)
}

/// The entries as bytes, one after the other.
pub open spec fn entries_encoding(entries: Seq<EntryModel>) -> Seq<u8>
    decreases entries.len(),
{
    if entries.len() == 0 {
        Seq::empty()
    } else {
        entries_encoding(entries.drop_last()) + entry_encoding(entries.last())
    }
}

/// The index as bytes.
pub open spec fn index_encoding(entries: Seq<EntryModel>) -> Seq<u8> {
    magic() + le_bytes(entries.len(), 4) + entries_encoding(entries)
}

/// The number of bytes of the index of the first `upto` files.
pub open spec fn index_len(files: Seq<PackedFile>, upto: int) -> nat
    decreases upto,
{
    if upto <= 0 {
        (MAGIC_LEN + 4) as nat
    } else {
        index_len(files, upto - 1) + 18 + files[upto - 1].path@.len()
    }
}

/// The number of bytes of the sealed streams of the first `upto` files.
pub open spec fn payload_len(files: Seq<PackedFile>, upto: int) -> nat
    decreases upto,
{
    if upto <= 0 {
        0
    } else {
        payload_len(files, upto - 1) + files[upto - 1].size as nat
    }
}

/// The files can be packed: no path is longer than two bytes can say, there
/// are no more files than four bytes can say, and the archive is no longer
/// than eight bytes can say.
pub open spec fn packable(files: Seq<PackedFile>) -> bool {
    &&& files.len() <= u32::MAX
    &&& forall|i: int| 0 <= i < files.len() ==> (#[trigger] files[i]).path@.len() <= u16::MAX
    &&& index_len(files, files.len() as int) + payload_len(files, files.len() as int) <= u64::MAX
}

/// The entries of the files: the sealed streams lie behind the index, one
/// after the other, in the order of the files.
pub open spec fn laid_out(files: Seq<PackedFile>) -> Seq<EntryModel> {
    Seq::new(
        files.len(),
        |i: int|
            EntryModel {
                path: files[i].path@,
                offset: (index_len(files, files.len() as int) + payload_len(files, i)) as u64,
                size: files[i].size,
            },
    )
}

/// `entries` put behind `done`, or the error in their place.
pub open spec fn entries_after(
    done: Seq<EntryModel>,
    rest: Result<(Seq<EntryModel>, nat), ArchiveError>,
) -> Result<(Seq<EntryModel>, nat), ArchiveError> {
    match rest {
        Err(e) => Err(e),
        Ok((entries, end)) => Ok((done + entries, end)),
    }
}

/// What a reader makes of `count` entries that begin at `at`: the entries
/// and the index after the last, or `Truncated` where the data ends first.
pub open spec fn entries_decoding(data: Seq<u8>, at: nat, count: nat) -> Result<
    (Seq<EntryModel>, nat),
    ArchiveError,
>
    decreases count,
{
    if count == 0 {
        Ok((Seq::empty(), at))
    } else if at + 2 > data.len() {
        Err(ArchiveError::Truncated)
    } else {
        let a = at as int;
        let path_len = le_value(data.subrange(a, a + 2));
        if at + 18 + path_len > data.len() {
            Err(ArchiveError::Truncated)
        } else {
            let entry = EntryModel {
                path: data.subrange(a + 2, a + 2 + path_len),
                offset: le_value(data.subrange(a + 2 + path_len, a + 10 + path_len)) as u64,
                size: le_value(data.subrange(a + 10 + path_len, a + 18 + path_len)) as u64,
            };
            entries_after(
                seq![entry],
                entries_decoding(data, at + 18 + path_len, (count - 1) as nat),
            )
        }
    }
}

/// What a reader makes of the index at the front of `data`: the entries and
/// the length of the index. `Truncated` where the data ends inside the
/// index, `BadMagic` where its first eight bytes are not the magic word.
pub open spec fn index_decoding(data: Seq<u8>) -> Result<(Seq<EntryModel>, nat), ArchiveError> {
    if data.len() < MAGIC_LEN {
        Err(ArchiveError::Truncated)
    } else if data.take(MAGIC_LEN as int) != magic() {
        Err(ArchiveError::BadMagic)
    } else if data.len() < MAGIC_LEN + 4 {
        Err(ArchiveError::Truncated)
    } else {
        entries_decoding(
            data,
            (MAGIC_LEN + 4) as nat,
            le_value(data.subrange(MAGIC_LEN as int, MAGIC_LEN + 4)),
        )
    }
}

pub proof fn lemma_entries_encoding_front(first: EntryModel, rest: Seq<EntryModel>)
    ensures
        entries_encoding(seq![first] + rest) == entry_encoding(first) + entries_encoding(rest),
    decreases rest.len(),
{
    let whole = seq![first] + rest;
    if rest.len() == 0 {
        assert(whole.drop_last() =~= Seq::<EntryModel>::empty());
        assert(entries_encoding(whole.drop_last()) =~= Seq::<u8>::empty());
        assert(whole.last() == first);
        assert(entries_encoding(rest) =~= Seq::<u8>::empty());
        assert(entries_encoding(whole) =~= entry_encoding(first));
        assert(entry_encoding(first) + entries_encoding(rest) =~= entry_encoding(first));
    } else {
        lemma_entries_encoding_front(first, rest.drop_last());
        assert(whole.drop_last() =~= seq![first] + rest.drop_last());
        assert(whole.last() == rest.last());
        assert(entries_encoding(whole) =~= entry_encoding(first) + entries_encoding(rest));
    }
}

/// Entries that stand in `data` from `at` on are read as they are.
pub proof fn lemma_entries_round_trip(data: Seq<u8>, at: nat, entries: Seq<EntryModel>)
    requires
        forall|i: int| 0 <= i < entries.len() ==> (#[trigger] entries[i]).path.len() <= u16::MAX,
        at + entries_encoding(entries).len() <= data.len(),
        data.subrange(at as int, (at + entries_encoding(entries).len()) as int) == entries_encoding(
            entries,
        ),
    ensures
        entries_decoding(data, at, entries.len()) == Ok::<(Seq<EntryModel>, nat), ArchiveError>(
            (entries, at + entries_encoding(entries).len()),
        ),
    decreases entries.len(),
{
    let all = entries_encoding(entries);
    if entries.len() == 0 {
        assert(entries =~= Seq::<EntryModel>::empty());
    } else {
        let first = entries[0];
        let rest = entries.skip(1);
        assert(entries =~= seq![first] + rest);
        lemma_entries_encoding_front(first, rest);
        let enc = entry_encoding(first);
        let n = first.path.len() as int;
        lemma_le_bytes_len(n as nat, 2);
        lemma_le_bytes_len(first.offset as nat, 8);
        lemma_le_bytes_len(first.size as nat, 8);
        lemma_le_limits();
        lemma_le_round_trip(n as nat, 2);
        lemma_le_round_trip(first.offset as nat, 8);
        lemma_le_round_trip(first.size as nat, 8);
        let a = at as int;
        let part = data.subrange(a, a + all.len() as int);
        assert(enc.len() == 18 + n);
        assert(data.subrange(a, a + 2) =~= part.subrange(0, 2));
        assert(part.subrange(0, 2) =~= le_bytes(n as nat, 2));
        assert(data.subrange(a + 2, a + 2 + n) =~= part.subrange(2, 2 + n));
        assert(part.subrange(2, 2 + n) =~= first.path);
        assert(data.subrange(a + 2 + n, a + 10 + n) =~= part.subrange(2 + n, 10 + n));
        assert(part.subrange(2 + n, 10 + n) =~= le_bytes(first.offset as nat, 8));
        assert(data.subrange(a + 10 + n, a + 18 + n) =~= part.subrange(10 + n, 18 + n));
        assert(part.subrange(10 + n, 18 + n) =~= le_bytes(first.size as nat, 8));
        let tail = entries_encoding(rest);
        let t = tail.len() as int;
        assert(data.subrange(a + 18 + n, a + 18 + n + t) =~= part.subrange(
            18 + n,
            18 + n + t,
        ));
        assert(part.subrange(18 + n, 18 + n + t) =~= tail);
        assert forall|i: int| 0 <= i < rest.len() implies (#[trigger] rest[i]).path.len()
            <= u16::MAX by {
            assert(rest[i] == entries[i + 1]);
        }
        lemma_entries_round_trip(data, (at + 18 + n) as nat, rest);
        let got = EntryModel {
            path: data.subrange(a + 2, a + 2 + n),
            offset: le_value(data.subrange(a + 2 + n, a + 10 + n)) as u64,
            size: le_value(data.subrange(a + 10 + n, a + 18 + n)) as u64,
        };
        assert(got == first);
        assert(seq![first] + rest =~= entries);
    }
}

/// An index is read as it was written, whatever follows it.
pub proof fn lemma_index_round_trip(entries: Seq<EntryModel>, rest: Seq<u8>)
    requires
        entries.len() <= u32::MAX,
        forall|i: int| 0 <= i < entries.len() ==> (#[trigger] entries[i]).path.len() <= u16::MAX,
    ensures
        index_decoding(index_encoding(entries) + rest) == Ok::<(Seq<EntryModel>, nat), ArchiveError>(
            (entries, index_encoding(entries).len()),
        ),
{
    let data = index_encoding(entries) + rest;
    let body = entries_encoding(entries);
    lemma_le_bytes_len(entries.len(), 4);
    lemma_le_limits();
    lemma_le_round_trip(entries.len(), 4);
    assert(data.take(MAGIC_LEN as int) =~= magic());
    assert(data.subrange(MAGIC_LEN as int, MAGIC_LEN + 4) =~= le_bytes(entries.len(), 4));
    assert(data.subrange(MAGIC_LEN + 4, MAGIC_LEN + 4 + body.len() as int) =~= body);
    lemma_entries_round_trip(data, (MAGIC_LEN + 4) as nat, entries);
}

/// Appends the `width` low bytes of `value`, least significant first.
fn push_le(out: &mut Vec<u8>, value: u64, width: usize)
    requires
        width <= 8,
    ensures
        final(out)@ == old(out)@ + le_bytes(value as nat, width as nat),
{
    let mut rest: u64 = value;
    let mut i: usize = 0;
    while i < width
        invariant
            i <= width <= 8,
            out@ + le_bytes(rest as nat, (width - i) as nat) == old(out)@ + le_bytes(
                value as nat,
                width as nat,
            ),
        decreases width - i,
    {
        let byte: u8 = (rest & 0xFF) as u8;
        assert(rest & 0xFF == rest % 256) by (bit_vector);
        assert(rest >> 8 == rest / 256) by (bit_vector);
        proof {
            let tail = le_bytes((rest / 256) as nat, (width - i - 1) as nat);
            assert(le_bytes(rest as nat, (width - i) as nat) == seq![byte] + tail);
            assert(out@.push(byte) + tail =~= out@ + (seq![byte] + tail));
        }
        out.push(byte);
        rest = rest >> 8;
        i = i + 1;
    }
    proof {
        assert(out@ + le_bytes(rest as nat, 0) =~= out@);
    }
}

/// The number that the `width` bytes of `data` from `at` on spell, least
/// significant byte first.
fn read_le(data: &[u8], at: usize, width: usize) -> (value: u64)
    requires
        width <= 8,
        at + width <= data@.len(),
    ensures
        value == le_value(data@.subrange(at as int, at + width)),
{
    let ghost field = data@.subrange(at as int, at + width);
    let len: usize = data.len();
    let mut value: u64 = 0;
    let mut i: usize = width;
    proof {
        assert(field.skip(width as int) =~= Seq::<u8>::empty());
    }
    while i > 0
        invariant
            i <= width <= 8,
            at + width <= data@.len(),
            len == data@.len(),
            field == data@.subrange(at as int, at + width),
            value == le_value(field.skip(i as int)) % 0x1_0000_0000_0000_0000,
        decreases i,
    {
        i = i - 1;
        let byte: u64 = data[at + i] as u64;
        let shifted: u64 = value << 8;
        assert(byte < 256 ==> (shifted | byte) == (value as int * 256 + byte as int)
            % 0x1_0000_0000_0000_0000) by (bit_vector)
            requires
                shifted == value << 8,
        ;
        proof {
            let now = field.skip(i as int);
            let tail = le_value(field.skip(i + 1));
            assert(now.skip(1) =~= field.skip(i + 1));
            assert(now[0] == data@[at + i]);
            assert(le_value(now) == byte + 256 * tail);
            vstd::arithmetic::div_mod::lemma_mul_mod_noop_right(
                256,
                tail as int,
                0x1_0000_0000_0000_0000,
            );
            vstd::arithmetic::div_mod::lemma_add_mod_noop(
                byte as int,
                256 * tail as int,
                0x1_0000_0000_0000_0000,
            );
            vstd::arithmetic::div_mod::lemma_add_mod_noop(
                byte as int,
                256 * value as int,
                0x1_0000_0000_0000_0000,
            );
        }
        value = shifted | byte;
    }
    proof {
        assert(field.skip(0) =~= field);
        lemma_le_value_bound(field);
        lemma_le_limit_grows(field.len(), 8);
        lemma_le_limits();
    }
    value
}

proof fn lemma_le_limit_grows(a: nat, b: nat)
    requires
        a <= b,
    ensures
        le_limit(a) <= le_limit(b),
        le_limit(a) >= 1,
    decreases b,
{
    if a < b {
        lemma_le_limit_grows(a, (b - 1) as nat);
    } else if a > 0 {
        lemma_le_limit_grows((a - 1) as nat, (a - 1) as nat);
    }
}

/// Whether `data` begins with the magic word.
fn has_magic(data: &[u8]) -> (yes: bool)
    requires
        data@.len() >= MAGIC_LEN,
    ensures
        yes == (data@.take(MAGIC_LEN as int) == magic()),
{
    let word: [u8; 8] = [0x42, 0x53, 0x54, 0x53, 0x45, 0x41, 0x4C, 0x00];
    proof {
        assert(word@ =~= magic());
    }
    let mut i: usize = 0;
    while i < MAGIC_LEN
        invariant
            i <= MAGIC_LEN,
            data@.len() >= MAGIC_LEN,
            word@ == magic(),
            forall|k: int| 0 <= k < i ==> data@[k] == word@[k],
        decreases MAGIC_LEN - i,
    {
        if data[i] != word[i] {
            proof {
                assert(data@.take(MAGIC_LEN as int)[i as int] != magic()[i as int]);
            }
            return false;
        }
        i = i + 1;
    }
    proof {
        assert(data@.take(MAGIC_LEN as int) =~= magic());
    }
    true
}

/// Reads the index at the front of `data`; returns its entries and its
/// length.
pub fn read_index(data: &[u8]) -> (r: Result<(Vec<IndexEntry>, usize), ArchiveError>)
    ensures
        match r {
            Ok((entries, used)) => index_decoding(data@) == Ok::<
                (Seq<EntryModel>, nat),
                ArchiveError,
            >((entry_models(entries@), used as nat)),
            Err(e) => index_decoding(data@) == Err::<(Seq<EntryModel>, nat), ArchiveError>(e),
        },
{
    if data.len() < MAGIC_LEN {
        return Err(ArchiveError::Truncated);
    }
    if !has_magic(data) {
        return Err(ArchiveError::BadMagic);
    }
    if data.len() < MAGIC_LEN + 4 {
        return Err(ArchiveError::Truncated);
    }
    let count: u64 = read_le(data, MAGIC_LEN, 4);
    let mut entries: Vec<IndexEntry> = Vec::new();
    let mut at: usize = MAGIC_LEN + 4;
    let mut left: u64 = count;
    let ghost whole = index_decoding(data@);
    proof {
        match whole {
            Ok((all, end)) => {
                assert(entry_models(entries@) + all =~= all);
            },
            Err(_) => {},
        }
    }
    while left > 0
        invariant
            at <= data@.len(),
            whole == index_decoding(data@),
            whole == entries_after(
                entry_models(entries@),
                entries_decoding(data@, at as nat, left as nat),
            ),
        decreases left,
    {
        if data.len() - at < 2 {
            return Err(ArchiveError::Truncated);
        }
        let path_len: usize = read_le(data, at, 2) as usize;
        proof {
            lemma_le_value_bound(data@.subrange(at as int, at + 2));
            lemma_le_limits();
        }
        if data.len() - at - 2 < path_len || data.len() - at - 2 - path_len < 16 {
            return Err(ArchiveError::Truncated);
        }
        let path = vstd::slice::slice_to_vec(
            vstd::slice::slice_subrange(data, at + 2, at + 2 + path_len),
        );
        let offset = read_le(data, at + 2 + path_len, 8);
        let size = read_le(data, at + 10 + path_len, 8);
        let entry = IndexEntry { path, offset, size };
        proof {
            let done = entry_models(entries@);
            match entries_decoding(data@, (at + 18 + path_len) as nat, (left - 1) as nat) {
                Ok((more, end)) => {
                    assert(done + (seq![entry@] + more) =~= done.push(entry@) + more);
                },
                Err(_) => {},
            }
            assert(entry_models(entries@.push(entry)) =~= done.push(entry@));
        }
        entries.push(entry);
        at = at + 18 + path_len;
        left = left - 1;
    }
    proof {
        assert(entry_models(entries@) + Seq::<EntryModel>::empty() =~= entry_models(entries@));
    }
    Ok((entries, at))
}

/// Whether `files` can be packed.
pub fn packable_files(files: &Vec<PackedFile>) -> (yes: bool)
    ensures
        yes == packable(files@),
{
    if files.len() > u32::MAX as usize {
        return false;
    }
    let mut total: u64 = (MAGIC_LEN + 4) as u64;
    let mut i: usize = 0;
    while i < files.len()
        invariant
            i <= files@.len(),
            files@.len() <= u32::MAX,
            forall|k: int| 0 <= k < i ==> (#[trigger] files@[k]).path@.len() <= u16::MAX,
            total == index_len(files@, i as int) + payload_len(files@, i as int),
        decreases files@.len() - i,
    {
        let file = &files[i];
        proof {
            lemma_lens_grow(files@, i + 1, files@.len() as int);
        }
        if file.path.len() > u16::MAX as usize {
            return false;
        }
        let entry: u64 = 18 + file.path.len() as u64;
        if total > u64::MAX - entry {
            return false;
        }
        total = total + entry;
        if total > u64::MAX - file.size {
            return false;
        }
        total = total + file.size;
        i = i + 1;
    }
    true
}

/// Builds the index for `files`, whose sealed streams are to follow it in
/// their order.
pub fn write_index(files: &Vec<PackedFile>) -> (index: Vec<u8>)
    requires
        packable(files@),
    ensures
        index@ == index_encoding(laid_out(files@)),
        index@.len() == index_len(files@, files@.len() as int),
{
    let mut header_len: u64 = (MAGIC_LEN + 4) as u64;
    let mut i: usize = 0;
    proof {
        lemma_lens_grow(files@, 0, files@.len() as int);
    }
    while i < files.len()
        invariant
            i <= files@.len(),
            packable(files@),
            header_len == index_len(files@, i as int),
        decreases files@.len() - i,
    {
        proof {
            lemma_lens_grow(files@, i + 1, files@.len() as int);
            assert(files@[i as int].path@.len() <= u16::MAX);
        }
        header_len = header_len + 18 + files[i].path.len() as u64;
        i = i + 1;
    }
    let mut index: Vec<u8> = Vec::new();
    let word: [u8; 8] = [0x42, 0x53, 0x54, 0x53, 0x45, 0x41, 0x4C, 0x00];
    let mut k: usize = 0;
    while k < MAGIC_LEN
        invariant
            k <= MAGIC_LEN,
            index@ == word@.take(k as int),
        decreases MAGIC_LEN - k,
    {
        index.push(word[k]);
        proof {
            assert(word@.take(k + 1) =~= word@.take(k as int).push(word@[k as int]));
        }
        k = k + 1;
    }
    proof {
        assert(word@.take(MAGIC_LEN as int) =~= magic());
    }
    push_le(&mut index, files.len() as u64, 4);
    proof {
        lemma_le_bytes_len(files@.len(), 4);
    }
    let ghost entries = laid_out(files@);
    let ghost head = index@;
    let mut offset: u64 = header_len;
    let mut i: usize = 0;
    proof {
        assert(entries.take(0) =~= Seq::<EntryModel>::empty());
        assert(head + entries_encoding(entries.take(0)) =~= head);
    }
    while i < files.len()
        invariant
            i <= files@.len(),
            packable(files@),
            entries == laid_out(files@),
            head == magic() + le_bytes(files@.len(), 4),
            header_len == index_len(files@, files@.len() as int),
            offset == header_len + payload_len(files@, i as int),
            index@ == head + entries_encoding(entries.take(i as int)),
            index@.len() == index_len(files@, i as int),
        decreases files@.len() - i,
    {
        let file = &files[i];
        let ghost before = index@;
        proof {
            lemma_lens_grow(files@, i + 1, files@.len() as int);
            assert(file.path@.len() <= u16::MAX);
            lemma_le_bytes_len(file.path@.len(), 2);
            lemma_le_bytes_len(offset as nat, 8);
            lemma_le_bytes_len(file.size as nat, 8);
        }
        push_le(&mut index, file.path.len() as u64, 2);
        let mut j: usize = 0;
        let ghost lead = index@;
        proof {
            assert(lead + file.path@.take(0) =~= lead);
        }
        while j < file.path.len()
            invariant
                j <= file.path@.len(),
                index@ == lead + file.path@.take(j as int),
            decreases file.path@.len() - j,
        {
            index.push(file.path[j]);
            proof {
                assert(lead + file.path@.take(j + 1) =~= (lead + file.path@.take(j as int)).push(
                    file.path@[j as int],
                ));
            }
            j = j + 1;
        }
        proof {
            assert(file.path@.take(file.path@.len() as int) =~= file.path@);
        }
        push_le(&mut index, offset, 8);
        push_le(&mut index, file.size, 8);
        proof {
            let upto = entries.take(i + 1);
            assert(upto.drop_last() =~= entries.take(i as int));
            assert(upto.last() == entries[i as int]);
            assert(index@ =~= before + entry_encoding(entries[i as int]));
        }
        offset = offset + file.size;
        i = i + 1;
    }
    proof {
        assert(entries.take(files@.len() as int) =~= entries);
    }
    index
}

proof fn lemma_lens_grow(files: Seq<PackedFile>, a: int, b: int)
    requires
        0 <= a <= b,
    ensures
        index_len(files, a) <= index_len(files, b),
        payload_len(files, a) <= payload_len(files, b),
        index_len(files, a) >= MAGIC_LEN + 4,
    decreases b,
{
    if a < b {
        lemma_lens_grow(files, a, b - 1);
    } else if a > 0 {
        lemma_lens_grow(files, a - 1, a - 1);
    }
}

} // verus!
