//! Canonical Huffman coding of one block: the codebook, its serialized form,
//! the encoder, and the decoder with its fast table.

use crate::bits::{bits_of, bits_value, pack_bits, zero_bits, BitReader, BitWriter};
use crate::codebook::{
    canonical_code, code_bits, first_code, has_code, kraft_ok, length_count, message_bits,
    stored_code, symbol_at, symbol_with_code, symbols_of, table_entry, valid_lengths,
    FAST_DECODE_BITS, MAX_CODE_LEN, SYMBOLS, TABLE_SIZE,
};
use crate::lengths::{code_lengths, code_lengths_of};
use crate::cache::{cache_after, DecodeCache};
use crate::error::CodecError;
use vstd::arithmetic::power2::pow2;
use vstd::prelude::*;

verus! {

/// One entry of the fast table: the symbol and the length of its code, or
/// length 0 where the pattern begins with no code.
#[derive(Clone, Copy, Debug)]
pub struct FastDecodeEntry {
    pub symbol: u8,
    pub len: u8,
}

/// A codebook: for each symbol the length of its code and the code itself,
/// and the table that maps the next sixteen bits of a stream to a symbol.
#[derive(Debug)]
pub struct CanonicalCode {
    lengths: [u8; 256],
    codes: [u16; 256],
    fast_decode_table: Vec<FastDecodeEntry>,
}

/// Every code starts below this bound.
proof fn lemma_first_code_bound(lengths: Seq<u8>, len: int)
    requires
        1 <= len <= MAX_CODE_LEN,
    ensures
        first_code(lengths, len) + 512 <= 512 * pow2(len as nat),
        first_code(lengths, len) + 512 <= 0x100_0000,
    decreases len,
{
    vstd::arithmetic::power2::lemma2_to64();
    if len > 1 {
        lemma_first_code_bound(lengths, len - 1);
        crate::codebook::lemma_length_count_bound(lengths, len - 1, SYMBOLS as int);
        vstd::arithmetic::power2::lemma_pow2_unfold(len as nat);
    }
    vstd::arithmetic::power2::lemma_pow2_strictly_increases(len as nat, 16);
    assert(512 * pow2(len as nat) <= 512 * pow2(15)) by (nonlinear_arith)
        requires
            pow2(len as nat) <= pow2(15),
    {
    }
    if len < 15 {
        vstd::arithmetic::power2::lemma_pow2_strictly_increases(len as nat, 15);
    }
}

impl View for CanonicalCode {
    type V = Seq<u8>;

    /// The code lengths, which determine everything else.
    closed spec fn view(&self) -> Seq<u8> {
        self.lengths@
    }
}

/// The codes and the table that belong to `lengths`.
pub closed spec fn book_of(
    lengths: Seq<u8>,
    codes: Seq<u16>,
    table: Seq<FastDecodeEntry>,
) -> bool {
    &&& valid_lengths(lengths)
    &&& codes.len() == SYMBOLS
    &&& forall|s: int| 0 <= s < SYMBOLS ==> #[trigger] codes[s] == stored_code(lengths, s)
    &&& table.len() == TABLE_SIZE
    &&& forall|p: int|
        0 <= p < TABLE_SIZE ==> (#[trigger] table[p]).symbol == table_entry(
            lengths,
            p,
            SYMBOLS as int,
        ).0 && table[p].len == table_entry(lengths, p, SYMBOLS as int).1
}

impl CanonicalCode {
    #[verifier::type_invariant]
    spec fn well_formed(&self) -> bool {
        book_of(self.lengths@, self.codes@, self.fast_decode_table@)
    }

    /// The codebook with the given code lengths. Fails if one of them is
    /// longer than the limit.
    pub fn from_lengths(lengths: &[u8; 256]) -> (r: Result<CanonicalCode, CodecError>)
        ensures
            match r {
                Ok(book) => valid_lengths(lengths@) && book@ == lengths@,
                Err(e) => e == CodecError::OversizedCode && !valid_lengths(lengths@),
            },
    {
        let mut i: usize = 0;
        while i < SYMBOLS
            invariant
                i <= SYMBOLS,
                forall|s: int| 0 <= s < i ==> #[trigger] lengths@[s] <= MAX_CODE_LEN,
            decreases SYMBOLS - i,
        {
            if lengths[i] as usize > MAX_CODE_LEN {
                return Err(CodecError::OversizedCode);
            }
            i = i + 1;
        }
        Ok(Self::assemble(lengths))
    }

    /// Assigns the canonical codes and builds the table.
    pub(crate) fn assemble(lengths: &[u8; 256]) -> (book: CanonicalCode)
        requires
            valid_lengths(lengths@),
        ensures
            book@ == lengths@,
    {
        let mut bl_count: [u32; 16] = [0u32; 16];
        let mut i: usize = 0;
        while i < SYMBOLS
            invariant
                i <= SYMBOLS,
                valid_lengths(lengths@),
                forall|l: int|
                    1 <= l <= MAX_CODE_LEN ==> #[trigger] bl_count@[l] == length_count(
                        lengths@,
                        l,
                        i as int,
                    ),
                forall|l: int| 1 <= l <= MAX_CODE_LEN ==> #[trigger] bl_count@[l] <= i,
                bl_count@[0] == 0,
            decreases SYMBOLS - i,
        {
            let len: u8 = lengths[i];
            assert(lengths@[i as int] <= MAX_CODE_LEN);
            if len > 0 {
                bl_count[len as usize] = bl_count[len as usize] + 1;
            }
            i = i + 1;
        }
        let mut next_code: [u32; 16] = [0u32; 16];
        let mut code: u32 = 0;
        let mut bits: usize = 1;
        while bits <= MAX_CODE_LEN
            invariant
                1 <= bits <= MAX_CODE_LEN + 1,
                bl_count@[0] == 0,
                forall|l: int|
                    1 <= l <= MAX_CODE_LEN ==> #[trigger] bl_count@[l] == length_count(
                        lengths@,
                        l,
                        SYMBOLS as int,
                    ),
                forall|l: int| 1 <= l < bits ==> #[trigger] next_code@[l] == first_code(lengths@, l),
                bits == 1 ==> code == 0,
                bits > 1 ==> code == first_code(lengths@, bits - 1),
            decreases MAX_CODE_LEN + 1 - bits,
        {
            proof {
                if bits > 1 {
                    lemma_first_code_bound(lengths@, bits - 1);
                    crate::codebook::lemma_length_count_bound(lengths@, bits - 1, SYMBOLS as int);
                }
            }
            let sum: u32 = code + bl_count[bits - 1];
            assert(sum <= 0x100_0000 ==> sum << 1 == 2 * sum) by (bit_vector);
            code = sum << 1;
            next_code[bits] = code;
            bits = bits + 1;
        }
        let mut codes: [u16; 256] = [0u16; 256];
        let mut s: usize = 0;
        while s < SYMBOLS
            invariant
                s <= SYMBOLS,
                valid_lengths(lengths@),
                forall|l: int|
                    1 <= l <= MAX_CODE_LEN ==> #[trigger] next_code@[l] == first_code(lengths@, l)
                        + length_count(lengths@, l, s as int),
                forall|t: int| 0 <= t < s ==> #[trigger] codes@[t] == stored_code(lengths@, t),
            decreases SYMBOLS - s,
        {
            let len: u8 = lengths[s];
            assert(lengths@[s as int] <= MAX_CODE_LEN);
            if len > 0 {
                let code: u32 = next_code[len as usize];
                proof {
                    lemma_first_code_bound(lengths@, len as int);
                    crate::codebook::lemma_length_count_bound(lengths@, len as int, s as int);
                }
                codes[s] = if code < 0xFFFF {
                    code as u16
                } else {
                    0xFFFF
                };
                next_code[len as usize] = code + 1;
            } else {
                codes[s] = 0;
            }
            s = s + 1;
        }
        let fast_decode_table = Self::build_fast_decode_table(lengths, &codes);
        CanonicalCode { lengths: *lengths, codes, fast_decode_table }
    }

    /// The codebook for the given symbol frequencies: a symbol has a code if
    /// and only if it occurs, and the codes fit the code space.
    pub fn new(freqs: &[u64; 256]) -> (r: Result<CanonicalCode, CodecError>)
        ensures
            match r {
                Ok(book) => {
                    &&& book@ == code_lengths(freqs@)
                    &&& valid_lengths(book@)
                    &&& kraft_ok(book@)
                    &&& forall|s: int|
                        0 <= s < SYMBOLS ==> (#[trigger] book@[s] >= 1) == (freqs@[s] > 0)
                },
                Err(_) => false,
            },
    {
        let lengths = code_lengths_of(freqs);
        Ok(Self::assemble(&lengths))
    }

    /// Fills the fast table: every pattern that begins with the code of a
    /// symbol gets that symbol and the length of its code.
    fn build_fast_decode_table(lengths: &[u8; 256], codes: &[u16; 256]) -> (table: Vec<
        FastDecodeEntry,
    >)
        requires
            valid_lengths(lengths@),
            forall|s: int| 0 <= s < SYMBOLS ==> #[trigger] codes@[s] == stored_code(lengths@, s),
        ensures
            book_of(lengths@, codes@, table@),
    {
        let mut table: Vec<FastDecodeEntry> = vec![FastDecodeEntry { symbol: 0, len: 0 }; TABLE_SIZE];
        let mut s: usize = 0;
        while s < SYMBOLS
            invariant
                s <= SYMBOLS,
                valid_lengths(lengths@),
                forall|t: int| 0 <= t < SYMBOLS ==> #[trigger] codes@[t] == stored_code(lengths@, t),
                table@.len() == TABLE_SIZE,
                forall|p: int|
                    0 <= p < TABLE_SIZE ==> (#[trigger] table@[p]).symbol == table_entry(
                        lengths@,
                        p,
                        s as int,
                    ).0 && table@[p].len == table_entry(lengths@, p, s as int).1,
            decreases SYMBOLS - s,
        {
            let len: u8 = lengths[s];
            assert(lengths@[s as int] <= MAX_CODE_LEN);
            let ghost canon = canonical_code(lengths@, s as int) as int;
            let ghost width = pow2((FAST_DECODE_BITS - len) as nat) as int;
            proof {
                vstd::arithmetic::power2::lemma_pow2_pos((FAST_DECODE_BITS - len) as nat);
                crate::bits::lemma_shl_pow2((FAST_DECODE_BITS - len) as u32);
                if len >= 1 {
                    crate::bits::lemma_shl_pow2(len as u32);
                    vstd::arithmetic::power2::lemma_pow2_adds(
                        len as nat,
                        (FAST_DECODE_BITS - len) as nat,
                    );
                    vstd::arithmetic::power2::lemma2_to64();
                }
            }
            let mut filled: bool = false;
            if len > 0 {
                let shift: u32 = (FAST_DECODE_BITS as u32) - (len as u32);
                let code: u32 = codes[s] as u32;
                assert(codes@[s as int] == stored_code(lengths@, s as int));
                proof {
                    assert(code * pow2(shift as nat) <= 0xFFFF * 0x8000) by (nonlinear_arith)
                        requires
                            code <= 0xFFFF,
                            pow2(shift as nat) <= 0x8000,
                    ;
                    vstd::bits::lemma_u32_shl_is_mul(code, shift);
                }
                let start: u32 = code << shift;
                if start < TABLE_SIZE as u32 {
                    let count: u32 = 1u32 << shift;
                    proof {
                        // the code fits its length, so the stored code is the code itself
                        assert(code == canon) by {
                            if code != canon {
                                assert(code == 0xFFFF);
                                assert(0xFFFF * width >= 0xFFFF * 2) by (nonlinear_arith)
                                    requires
                                        width >= 2,
                                ;
                            }
                        }
                        assert(canon < pow2(len as nat)) by (nonlinear_arith)
                            requires
                                canon * width < 65536,
                                pow2(len as nat) * width == 65536,
                                width > 0,
                        ;
                        assert(canon * width + width <= 65536) by (nonlinear_arith)
                            requires
                                canon + 1 <= pow2(len as nat),
                                pow2(len as nat) * width == 65536,
                                width > 0,
                        ;
                    }
                    let entry = FastDecodeEntry { symbol: s as u8, len };
                    let mut i: u32 = 0;
                    while i < count
                        invariant
                            i <= count,
                            count == width,
                            start == canon * width,
                            start + count <= TABLE_SIZE,
                            entry.symbol == s,
                            entry.len == len,
                            table@.len() == TABLE_SIZE,
                            forall|p: int|
                                0 <= p < TABLE_SIZE ==> (#[trigger] table@[p]).symbol == (if start
                                    <= p < start + i {
                                    s as u8
                                } else {
                                    table_entry(lengths@, p, s as int).0
                                }) && table@[p].len == (if start <= p < start + i {
                                    len
                                } else {
                                    table_entry(lengths@, p, s as int).1
                                }),
                        decreases count - i,
                    {
                        let index: usize = (start + i) as usize;
                        table[index] = entry;
                        i = i + 1;
                    }
                    filled = true;
                }
            }
            proof {
                assert forall|p: int| 0 <= p < TABLE_SIZE implies (#[trigger] table@[p]).symbol
                    == table_entry(lengths@, p, s as int + 1).0 && table@[p].len == table_entry(
                    lengths@,
                    p,
                    s as int + 1,
                ).1 by {
                    crate::codebook::lemma_div_range(p, width, canon);
                    if len >= 1 && !filled {
                        // the code does not fit its length: no pattern begins with it
                        let code = codes@[s as int] as int;
                        assert(code * width >= 65536);
                        if code != canon {
                            assert(canon >= 0xFFFF);
                            assert(canon * width >= 0xFFFF * width) by (nonlinear_arith)
                                requires
                                    canon >= 0xFFFF,
                                    width > 0,
                            ;
                        }
                    }
                }
            }
            s = s + 1;
        }
        table
    }

    /// The entry of the fast table for the sixteen-bit `pattern`.
    pub fn fast_entry(&self, pattern: u16) -> (entry: FastDecodeEntry)
        ensures
            valid_lengths(self@),
            (entry.symbol, entry.len) == table_entry(self@, pattern as int, SYMBOLS as int),
    {
        proof {
            use_type_invariant(self);
        }
        self.fast_decode_table[pattern as usize]
    }

    /// Whether this is the codebook for `lengths`.
    pub fn has_lengths(&self, lengths: &[u8; 256]) -> (same: bool)
        ensures
            same == (self@ == lengths@),
    {
        let mut s: usize = 0;
        while s < SYMBOLS
            invariant
                s <= SYMBOLS,
                forall|t: int| 0 <= t < s ==> #[trigger] self.lengths@[t] == lengths@[t],
            decreases SYMBOLS - s,
        {
            if self.lengths[s] != lengths[s] {
                return false;
            }
            s = s + 1;
        }
        proof {
            assert(self.lengths@ =~= lengths@);
        }
        true
    }

    /// The code of `symbol` and its length in bits; length 0 if the symbol
    /// has no code.
    pub fn get_code(&self, symbol: u8) -> (r: (u16, u8))
        ensures
            valid_lengths(self@),
            r.0 == stored_code(self@, symbol as int),
            r.1 == self@[symbol as int],
    {
        proof {
            use_type_invariant(self);
        }
        (self.codes[symbol as usize], self.lengths[symbol as usize])
    }
}

/// How many symbols below `upto` have a code.
pub open spec fn present_count(lengths: Seq<u8>, upto: int) -> nat
    decreases upto,
{
    if upto <= 0 {
        0
    } else {
        present_count(lengths, upto - 1) + if lengths[upto - 1] > 0 {
            1nat
        } else {
            0nat
        }
    }
}

/// A symbol and a length for each symbol below `upto` that has a code, in
/// ascending order of the symbols.
pub open spec fn length_pairs(lengths: Seq<u8>, upto: int) -> Seq<u8>
    decreases upto,
{
    if upto <= 0 {
        Seq::empty()
    } else if lengths[upto - 1] > 0 {
        length_pairs(lengths, upto - 1) + seq![(upto - 1) as u8, lengths[upto - 1]]
    } else {
        length_pairs(lengths, upto - 1)
    }
}

/// The serialized codebook: one byte with the number of pairs, then the
/// pairs. The count is a single byte: of a book in which all 256 symbols
/// have a code it holds 0.
pub open spec fn lengths_encoding(lengths: Seq<u8>) -> Seq<u8> {
    seq![(present_count(lengths, SYMBOLS as int) % 256) as u8] + length_pairs(lengths, SYMBOLS as int)
}

/// The lengths after the first `count` pairs of `pairs` are written over
/// zeros; a later pair for a symbol replaces an earlier one.
pub open spec fn apply_pairs(pairs: Seq<u8>, count: nat) -> Seq<u8>
    decreases count,
{
    if count == 0 {
        Seq::new(SYMBOLS as nat, |s: int| 0u8)
    } else {
        apply_pairs(pairs, (count - 1) as nat).update(
            pairs[2 * (count - 1)] as int,
            pairs[2 * (count - 1) + 1],
        )
    }
}

/// What a reader makes of a serialized codebook at the front of `s`: the
/// lengths and the number of bytes read. `Truncated` if `s` ends before the
/// last pair, else `OversizedCode` if a pair holds a length above the limit.
pub open spec fn lengths_decoding(s: Seq<u8>) -> Result<(Seq<u8>, nat), CodecError> {
    if s.len() == 0 || s.len() < 1 + 2 * s[0] {
        Err(CodecError::Truncated)
    } else if exists|i: int| 0 <= i < s[0] && #[trigger] s[2 * i + 2] > MAX_CODE_LEN {
        Err(CodecError::OversizedCode)
    } else {
        Ok((apply_pairs(s.skip(1), s[0] as nat), (1 + 2 * s[0]) as nat))
    }
}

/// How often `symbol` occurs in `message`.
pub open spec fn occurrences(message: Seq<u8>, symbol: int) -> nat
    decreases message.len(),
{
    if message.len() == 0 {
        0
    } else {
        occurrences(message.drop_last(), symbol) + if message.last() == symbol {
            1nat
        } else {
            0nat
        }
    }
}

/// The frequency of each symbol in `message`.
pub open spec fn histogram(message: Seq<u8>) -> Seq<u64> {
    Seq::new(SYMBOLS as nat, |s: int| occurrences(message, s) as u64)
}

/// The Huffman payload of `message`: the serialized codebook for its symbol
/// frequencies, then the packed codes of its symbols. Empty for the empty
/// message.
pub open spec fn huffman_encoding(message: Seq<u8>) -> Seq<u8> {
    if message.len() == 0 {
        Seq::empty()
    } else {
        let lengths = code_lengths(histogram(message));
        lengths_encoding(lengths) + pack_bits(message_bits(lengths, message))
    }
}

/// How many symbols a decoder reads at most: the number asked for, or as
/// many as there can be.
pub open spec fn symbol_limit(expected: Option<usize>, payload_len: nat) -> nat {
    match expected {
        Some(n) => n as nat,
        None => 8 * payload_len,
    }
}

/// What a decoder makes of a Huffman payload: the symbols read with its
/// codebook, up to `limit` of them. Nothing for the empty payload.
pub open spec fn huffman_decoding(s: Seq<u8>, limit: nat) -> Result<Seq<u8>, CodecError> {
    if s.len() == 0 {
        Ok(Seq::empty())
    } else {
        match lengths_decoding(s) {
            Err(e) => Err(e),
            Ok((lengths, used)) => Ok(symbols_of(lengths, bits_of(s.skip(used as int)), limit)),
        }
    }
}

/// Every byte value occurs in `message`.
pub open spec fn uses_all_symbols(message: Seq<u8>) -> bool {
    forall|s: int| 0 <= s < SYMBOLS ==> occurrences(message, s) > 0
}

proof fn lemma_length_pairs(lengths: Seq<u8>, upto: int)
    requires
        valid_lengths(lengths),
        0 <= upto <= SYMBOLS,
    ensures
        present_count(lengths, upto) <= upto,
        length_pairs(lengths, upto).len() == 2 * present_count(lengths, upto),
        forall|i: int|
            0 <= i < present_count(lengths, upto) ==> #[trigger] length_pairs(lengths, upto)[2 * i
                + 1] <= MAX_CODE_LEN,
        forall|s: int|
            0 <= s < upto && lengths[s] == 0 ==> present_count(lengths, upto) < upto,
    decreases upto,
{
    if upto > 0 {
        lemma_length_pairs(lengths, upto - 1);
        let prev = length_pairs(lengths, upto - 1);
        let now = length_pairs(lengths, upto);
        assert(lengths[upto - 1] <= MAX_CODE_LEN);
        assert forall|i: int| 0 <= i < present_count(lengths, upto) implies #[trigger] now[2 * i
            + 1] <= MAX_CODE_LEN by {
            if i < present_count(lengths, upto - 1) {
                assert(now[2 * i + 1] == prev[2 * i + 1]);
            }
        }
    }
}

proof fn lemma_apply_pairs_prefix(p: Seq<u8>, q: Seq<u8>, count: nat)
    requires
        p.len() >= 2 * count,
        q.len() >= 2 * count,
        p.take(2 * count as int) == q.take(2 * count as int),
    ensures
        apply_pairs(p, count) == apply_pairs(q, count),
    decreases count,
{
    if count > 0 {
        let k = 2 * (count - 1);
        assert(p.take(k) =~= p.take(2 * count as int).take(k));
        assert(q.take(k) =~= q.take(2 * count as int).take(k));
        lemma_apply_pairs_prefix(p, q, (count - 1) as nat);
        assert(p[k] == p.take(2 * count as int)[k]);
        assert(q[k] == q.take(2 * count as int)[k]);
        assert(p[k + 1] == p.take(2 * count as int)[k + 1]);
        assert(q[k + 1] == q.take(2 * count as int)[k + 1]);
    }
}

proof fn lemma_apply_length_pairs(lengths: Seq<u8>, upto: int)
    requires
        valid_lengths(lengths),
        0 <= upto <= SYMBOLS,
    ensures
        apply_pairs(length_pairs(lengths, upto), present_count(lengths, upto)) == Seq::new(
            SYMBOLS as nat,
            |s: int|
                if s < upto {
                    lengths[s]
                } else {
                    0u8
                },
        ),
    decreases upto,
{
    let target = Seq::new(
        SYMBOLS as nat,
        |s: int|
            if s < upto {
                lengths[s]
            } else {
                0u8
            },
    );
    if upto == 0 {
        assert(apply_pairs(length_pairs(lengths, upto), 0) =~= target);
    } else {
        lemma_apply_length_pairs(lengths, upto - 1);
        lemma_length_pairs(lengths, upto - 1);
        let prev = length_pairs(lengths, upto - 1);
        let c = present_count(lengths, upto - 1);
        if lengths[upto - 1] > 0 {
            let now = prev + seq![(upto - 1) as u8, lengths[upto - 1]];
            assert(now.take(2 * c as int) =~= prev.take(2 * c as int));
            lemma_apply_pairs_prefix(now, prev, c);
            assert(now[2 * c as int] == (upto - 1) as u8);
            assert(now[2 * c as int + 1] == lengths[upto - 1]);
            assert(apply_pairs(now, c + 1) =~= target);
        } else {
            assert(apply_pairs(prev, c) =~= target);
        }
    }
}

/// A serialized codebook is read back as it was, whatever follows it,
/// unless all 256 symbols have a code: the count byte cannot say so.
pub proof fn lemma_lengths_round_trip(lengths: Seq<u8>, rest: Seq<u8>)
    requires
        valid_lengths(lengths),
        present_count(lengths, SYMBOLS as int) < SYMBOLS,
    ensures
        lengths_decoding(lengths_encoding(lengths) + rest) == Ok::<(Seq<u8>, nat), CodecError>(
            (lengths, lengths_encoding(lengths).len()),
        ),
{
    let count = present_count(lengths, SYMBOLS as int);
    let pairs = length_pairs(lengths, SYMBOLS as int);
    let s = lengths_encoding(lengths) + rest;
    lemma_length_pairs(lengths, SYMBOLS as int);
    lemma_apply_length_pairs(lengths, SYMBOLS as int);
    assert(s[0] == count);
    assert forall|i: int| 0 <= i < s[0] implies !(#[trigger] s[2 * i + 2] > MAX_CODE_LEN) by {
        assert(s[2 * i + 2] == pairs[2 * i + 1]);
    }
    assert(s.skip(1).take(2 * count as int) =~= pairs.take(2 * count as int));
    lemma_apply_pairs_prefix(s.skip(1), pairs, count);
    assert(apply_pairs(pairs, count) =~= lengths);
}

proof fn lemma_occurrences_positive(message: Seq<u8>, i: int)
    requires
        0 <= i < message.len(),
    ensures
        occurrences(message, message[i] as int) >= 1,
    decreases message.len(),
{
    if i < message.len() - 1 {
        lemma_occurrences_positive(message.drop_last(), i);
    }
}

/// A Huffman payload is decoded to the message that it was made from,
/// unless every byte value occurs in the message.
pub proof fn lemma_huffman_round_trip(message: Seq<u8>)
    requires
        message.len() <= u64::MAX,
        !uses_all_symbols(message),
    ensures
        huffman_decoding(huffman_encoding(message), message.len()) == Ok::<Seq<u8>, CodecError>(
            message,
        ),
{
    if message.len() > 0 {
        let freqs = histogram(message);
        let lengths = code_lengths(freqs);
        crate::lengths::lemma_code_lengths(freqs);
        let absent = choose|s: int| 0 <= s < SYMBOLS && !(occurrences(message, s) > 0);
        assert(freqs[absent] == 0);
        assert(!(lengths[absent] >= 1));
        lemma_length_pairs(lengths, SYMBOLS as int);
        let bits = message_bits(lengths, message);
        let packed = pack_bits(bits);
        let head = lengths_encoding(lengths);
        let payload = head + packed;
        lemma_lengths_round_trip(lengths, packed);
        assert(payload.skip(head.len() as int) =~= packed);
        crate::bits::lemma_bits_of_pack_bits(bits);
        assert forall|i: int| 0 <= i < message.len() implies lengths[#[trigger] message[i] as int]
            >= 1 by {
            lemma_occurrences_positive(message, i);
            lemma_occurrences_bound(message, message[i] as int);
            assert(freqs[message[i] as int] > 0);
        }
        let padding = zero_bits(crate::bits::padding_len(bits.len()));
        crate::codebook::lemma_symbols_of_message(lengths, message, padding);
        assert(huffman_encoding(message) == payload);
        assert(head.len() >= 1);
        assert(lengths_decoding(payload) == Ok::<(Seq<u8>, nat), CodecError>(
            (lengths, head.len()),
        ));
        assert(bits_of(payload.skip(head.len() as int)) == bits + padding);
        assert(symbols_of(lengths, bits + padding, message.len()) == message);
    } else {
        assert(message =~= Seq::<u8>::empty());
    }
}

pub proof fn lemma_occurrences_bound(message: Seq<u8>, symbol: int)
    ensures
        occurrences(message, symbol) <= message.len(),
    decreases message.len(),
{
    if message.len() > 0 {
        lemma_occurrences_bound(message.drop_last(), symbol);
    }
}

impl CanonicalCode {
    /// Appends the serialized codebook to `out`.
    pub fn write_lengths(&self, out: &mut Vec<u8>) -> (r: Result<(), CodecError>)
        ensures
            r.is_ok(),
            final(out)@ == old(out)@ + lengths_encoding(self@),
    {
        proof {
            use_type_invariant(self);
        }
        let mut count: usize = 0;
        let mut s: usize = 0;
        while s < SYMBOLS
            invariant
                s <= SYMBOLS,
                count == present_count(self.lengths@, s as int),
                count <= s,
            decreases SYMBOLS - s,
        {
            if self.lengths[s] > 0 {
                count = count + 1;
            }
            s = s + 1;
        }
        out.push((count % 256) as u8);
        let ghost head = out@;
        let mut s: usize = 0;
        proof {
            assert(head + length_pairs(self.lengths@, 0) =~= head);
        }
        while s < SYMBOLS
            invariant
                s <= SYMBOLS,
                out@ == head + length_pairs(self.lengths@, s as int),
            decreases SYMBOLS - s,
        {
            let len: u8 = self.lengths[s];
            if len > 0 {
                let ghost before = out@;
                out.push(s as u8);
                out.push(len);
                proof {
                    assert(out@ =~= before + seq![s as u8, len]);
                    assert(out@ =~= head + length_pairs(self.lengths@, s as int + 1));
                }
            }
            s = s + 1;
        }
        proof {
            assert(out@ =~= old(out)@ + lengths_encoding(self@));
        }
        Ok(())
    }

    /// Reads a serialized codebook from the front of `input`; returns the
    /// codebook and the number of bytes that it took.
    pub fn read_lengths(input: &[u8]) -> (r: Result<(CanonicalCode, usize), CodecError>)
        ensures
            match r {
                Ok((book, used)) => lengths_decoding(input@) == Ok::<(Seq<u8>, nat), CodecError>(
                    (book@, used as nat),
                ) && valid_lengths(book@),
                Err(e) => lengths_decoding(input@) == Err::<(Seq<u8>, nat), CodecError>(e),
            },
    {
        let (lengths, used) = parse_lengths(input)?;
        Ok((Self::assemble(&lengths), used))
    }
}

/// Reads the code lengths of a serialized codebook from the front of
/// `input`; returns them and the number of bytes that they took.
pub fn parse_lengths(input: &[u8]) -> (r: Result<([u8; 256], usize), CodecError>)
    ensures
        match r {
            Ok((lengths, used)) => lengths_decoding(input@) == Ok::<(Seq<u8>, nat), CodecError>(
                (lengths@, used as nat),
            ) && valid_lengths(lengths@),
            Err(e) => lengths_decoding(input@) == Err::<(Seq<u8>, nat), CodecError>(e),
        },
{
    if input.len() == 0 {
        return Err(CodecError::Truncated);
    }
    let count: usize = input[0] as usize;
    if input.len() < 1 + 2 * count {
        return Err(CodecError::Truncated);
    }
    let ghost pairs = input@.skip(1);
    let mut lengths: [u8; 256] = [0u8; 256];
    let mut oversized: bool = false;
    let mut i: usize = 0;
    proof {
        assert(lengths@ =~= apply_pairs(pairs, 0));
    }
    while i < count
        invariant
            i <= count,
            count == input@[0],
            input@.len() >= 1 + 2 * count,
            pairs == input@.skip(1),
            lengths@ == apply_pairs(pairs, i as nat),
            oversized == exists|j: int| 0 <= j < i && #[trigger] input@[2 * j + 2] > MAX_CODE_LEN,
            !oversized ==> forall|s: int|
                0 <= s < SYMBOLS ==> #[trigger] lengths@[s] <= MAX_CODE_LEN,
        decreases count - i,
    {
        let symbol: u8 = input[1 + 2 * i];
        let len: u8 = input[2 + 2 * i];
        let ghost before = lengths@;
        lengths[symbol as usize] = len;
        proof {
            assert(pairs[2 * i] == symbol);
            assert(pairs[2 * i + 1] == len);
            assert(lengths@ =~= apply_pairs(pairs, (i + 1) as nat));
            if len as int > MAX_CODE_LEN {
                assert(input@[2 * (i as int) + 2] > MAX_CODE_LEN);
            }
            if !oversized && len as int <= MAX_CODE_LEN {
                assert forall|s: int| 0 <= s < SYMBOLS implies #[trigger] lengths@[s]
                    <= MAX_CODE_LEN by {
                    assert(before[s] <= MAX_CODE_LEN);
                }
            }
        }
        if len as usize > MAX_CODE_LEN {
            oversized = true;
        }
        i = i + 1;
    }
    if oversized {
        return Err(CodecError::OversizedCode);
    }
    Ok((lengths, 1 + 2 * count))
}

/// The Huffman payload of `input`.
pub fn encode(input: &[u8]) -> (r: Result<Vec<u8>, CodecError>)
    ensures
        match r {
            Ok(payload) => payload@ == huffman_encoding(input@),
            Err(_) => false,
        },
{
    if input.len() == 0 {
        return Ok(Vec::new());
    }
    let mut freqs: [u64; 256] = [0u64; 256];
    let mut i: usize = 0;
    proof {
        assert(input@.take(0) =~= Seq::<u8>::empty());
    }
    while i < input.len()
        invariant
            i <= input@.len(),
            forall|s: int| 0 <= s < SYMBOLS ==> #[trigger] freqs@[s] == occurrences(input@.take(i as int), s),
        decreases input@.len() - i,
    {
        let byte: u8 = input[i];
        proof {
            assert(input@.take(i + 1).drop_last() =~= input@.take(i as int));
            lemma_occurrences_bound(input@.take(i as int), byte as int);
        }
        freqs[byte as usize] = freqs[byte as usize] + 1;
        i = i + 1;
    }
    proof {
        assert(input@.take(input@.len() as int) =~= input@);
        assert forall|s: int| 0 <= s < SYMBOLS implies freqs@[s] == #[trigger] histogram(input@)[s] by {
            lemma_occurrences_bound(input@, s);
        }
        assert(freqs@ =~= histogram(input@));
    }
    let book = CanonicalCode::new(&freqs)?;
    let ghost lengths = book@;
    let mut out: Vec<u8> = Vec::new();
    book.write_lengths(&mut out)?;
    assert(out@ =~= lengths_encoding(lengths));
    let mut writer = BitWriter::new();
    let mut i: usize = 0;
    proof {
        assert(input@.take(0) =~= Seq::<u8>::empty());
    }
    while i < input.len()
        invariant
            i <= input@.len(),
            writer.wf(),
            lengths == book@,
            valid_lengths(lengths),
            kraft_ok(lengths),
            writer@ == message_bits(lengths, input@.take(i as int)),
        decreases input@.len() - i,
    {
        let byte: u8 = input[i];
        let (code, len) = book.get_code(byte);
        proof {
            assert(input@.take(i + 1).drop_last() =~= input@.take(i as int));
            assert(lengths[byte as int] <= MAX_CODE_LEN);
            if len > 0 {
                crate::codebook::lemma_code_fits(lengths, byte as int);
                vstd::arithmetic::power2::lemma2_to64();
                vstd::arithmetic::power2::lemma_pow2_strictly_increases(len as nat, 16);
            } else {
                assert(code_bits(lengths, byte) =~= Seq::<bool>::empty());
                assert(writer@ + code_bits(lengths, byte) =~= writer@);
            }
        }
        if len > 0 {
            writer.write(code, len);
        }
        i = i + 1;
    }
    proof {
        assert(input@.take(input@.len() as int) =~= input@);
    }
    let mut packed = writer.into_bytes();
    out.append(&mut packed);
    Ok(out)
}

/// Reads one symbol bit by bit: after each bit, the bits read so far are
/// looked up among the codes of that length. Where no symbol is found the
/// cursor has moved over the bits that were tried: fifteen, or all that
/// were left.
pub fn decode_slow(reader: &mut BitReader, book: &CanonicalCode) -> (r: Option<u8>)
    requires
        old(reader).wf(),
    ensures
        final(reader).wf(),
        final(reader).bits() == old(reader).bits(),
        match symbol_at(book@, old(reader).remaining(), 1) {
            Some((s, used)) => r == Some(s) && final(reader).position() == old(reader).position()
                + used,
            None => r.is_none() && final(reader).position() == if old(reader).position()
                + MAX_CODE_LEN <= old(reader).bits().len() {
                old(reader).position() + MAX_CODE_LEN
            } else {
                old(reader).bits().len() as int
            },
        },
{
    proof {
        use_type_invariant(book);
        reader.lemma_position_in_range();
    }
    let ghost lengths = book@;
    let ghost rest = reader.remaining();
    let ghost start = reader.position() as int;
    let ghost bits = reader.bits();
    let mut code: u16 = 0;
    let mut len: u8 = 1;
    proof {
        assert(rest.take(0) =~= Seq::<bool>::empty());
    }
    while len as usize <= MAX_CODE_LEN
        invariant
            1 <= len <= MAX_CODE_LEN + 1,
            reader.wf(),
            reader.bits() == bits,
            bits == old(reader).bits(),
            start == old(reader).position(),
            rest == old(reader).remaining(),
            start + (len - 1) <= bits.len(),
            reader.position() == start + (len - 1),
            rest == bits.skip(start),
            code == bits_value(rest.take(len - 1)),
            symbol_at(lengths, rest, 1) == symbol_at(lengths, rest, len as int),
            lengths == book@,
            book_of(book.lengths@, book.codes@, book.fast_decode_table@),
        decreases MAX_CODE_LEN + 1 - len,
    {
        let bit: u16 = match reader.read(1) {
            Some(b) => b,
            None => {
                return None;
            },
        };
        proof {
            assert(start + len <= bits.len());
            assert(rest.len() == bits.len() - start);
            let seen = rest.take(len - 1);
            let now = rest.take(len as int);
            assert(now.drop_last() =~= seen);
            assert(bits.subrange(start + len - 1, start + len) =~= seq![now.last()]);
            assert(bits_value(seq![now.last()]) == if now.last() {
                1nat
            } else {
                0nat
            }) by {
                assert(seq![now.last()].drop_last() =~= Seq::<bool>::empty());
                assert(bits_value(seq![now.last()].drop_last()) == 0);
            }
            crate::bits::lemma_bits_value_bound(seen);
            vstd::arithmetic::power2::lemma2_to64();
            if len > 1 {
                vstd::arithmetic::power2::lemma_pow2_strictly_increases((len - 1) as nat, 15);
            }
            assert(code < 0x8000 && bit <= 1 ==> ((code << 1) | bit) == 2 * code + bit)
                by (bit_vector);
            crate::bits::lemma_bits_value_bound(now);
            if len < 15 {
                vstd::arithmetic::power2::lemma_pow2_strictly_increases(len as nat, 15);
            }
            assert(bits_value(now) == 2 * code + bit);
            assert(2 * code + bit < 0x8000);
        }
        code = (code << 1) | bit;
        proof {
            crate::codebook::lemma_symbol_with_code(lengths, len as int, code as nat, 0);
        }
        let mut s: usize = 0;
        while s < SYMBOLS
            invariant
                s <= SYMBOLS,
                1 <= len <= MAX_CODE_LEN,
                code < 0x8000,
                reader.wf(),
                reader.bits() == old(reader).bits(),
                reader.position() == old(reader).position() + len,
                rest == old(reader).remaining(),
                len <= rest.len(),
                code == bits_value(rest.take(len as int)),
                symbol_at(lengths, rest, 1) == symbol_at(lengths, rest, len as int),
                lengths == book@,
                book_of(book.lengths@, book.codes@, book.fast_decode_table@),
                symbol_with_code(lengths, len as int, code as nat, 0) == symbol_with_code(
                    lengths,
                    len as int,
                    code as nat,
                    s as int,
                ),
            decreases SYMBOLS - s,
        {
            assert(book.codes@[s as int] == stored_code(lengths, s as int));
            if book.lengths[s] == len && book.codes[s] == code {
                return Some(s as u8);
            }
            s = s + 1;
        }
        len = len + 1;
    }
    None
}

/// Reads symbols with `book` from the bits of `bit_buf` and appends them to
/// `out`: as many as `expected_size` says, or, if it says nothing, all that
/// can be read. Where sixteen bits are left the fast table is asked first;
/// the last bits of the buffer, and patterns that the table does not know,
/// are read bit by bit.
pub fn decode_symbols(
    book: &CanonicalCode,
    bit_buf: &[u8],
    out: &mut Vec<u8>,
    expected_size: Option<usize>,
)
    ensures
        final(out)@ == old(out)@ + symbols_of(
            book@,
            bits_of(bit_buf@),
            symbol_limit(expected_size, bit_buf@.len()),
        ),
{
    let mut reader = BitReader::new(bit_buf);
    let ghost lengths = book@;
    let ghost bits = bits_of(bit_buf@);
    let ghost limit = symbol_limit(expected_size, bit_buf@.len());
    let ghost all = symbols_of(lengths, bits, limit);
    let ghost mut done = Seq::<u8>::empty();
    let unlimited: bool = expected_size.is_none();
    let expect: usize = match expected_size {
        Some(n) => n,
        None => 0,
    };
    let mut decoded: usize = 0;
    proof {
        use_type_invariant(book);
        assert(bits.skip(0) =~= bits);
        assert(done + all =~= all);
        assert(out@ + done =~= out@);
    }
    while unlimited || decoded < expect
        invariant_except_break
            unlimited ==> done.len() <= reader.position(),
            all == done + symbols_of(lengths, reader.remaining(), (limit - done.len()) as nat),
        invariant
            reader.wf(),
            reader.bits() == bits,
            lengths == book@,
            valid_lengths(lengths),
            book_of(book.lengths@, book.codes@, book.fast_decode_table@),
            out@ == old(out)@ + done,
            !unlimited ==> decoded == done.len(),
            done.len() <= limit,
            unlimited ==> limit >= bits.len(),
            !unlimited ==> limit == expect,
            bits == bits_of(bit_buf@),
            limit == symbol_limit(expected_size, bit_buf@.len()),
        ensures
            all == done,
            out@ == old(out)@ + done,
        decreases bits.len() - reader.position(),
    {
        proof {
            reader.lemma_position_in_range();
        }
        let ghost rest = reader.remaining();
        let ghost before = reader.position();
        let symbol: u8;
        if reader.has_bits(FAST_DECODE_BITS as u8) {
            let index: u16 = reader.peek(FAST_DECODE_BITS as u8);
            proof {
                assert((rest + zero_bits(16)).take(16) =~= rest.take(16));
            }
            let entry = book.fast_decode_table[index as usize];
            if entry.len == 0 {
                match decode_slow(&mut reader, book) {
                    Some(sym) => {
                        symbol = sym;
                    },
                    None => {
                        proof {
                            assert(symbols_of(lengths, rest, (limit - done.len()) as nat)
                                =~= Seq::<u8>::empty());
                            assert(done + Seq::<u8>::empty() =~= done);
                        }
                        break ;
                    },
                }
            } else {
                proof {
                    assert(rest.len() == bits.len() - before);
                    crate::codebook::lemma_fast_entry_is_symbol(lengths, rest);
                    crate::codebook::lemma_symbol_at_is_code(lengths, rest, 1);
                }
                symbol = entry.symbol;
                let ok = reader.consume(entry.len);
                assert(ok);
            }
        } else {
            match decode_slow(&mut reader, book) {
                Some(sym) => {
                    symbol = sym;
                },
                None => {
                    proof {
                        assert(symbols_of(lengths, rest, (limit - done.len()) as nat)
                            =~= Seq::<u8>::empty());
                        assert(done + Seq::<u8>::empty() =~= done);
                    }
                    break ;
                },
            }
        }
        proof {
            crate::codebook::lemma_symbol_at_is_code(lengths, rest, 1);
            let used_bits = reader.position() - before;
            assert(rest.skip(used_bits) =~= reader.remaining());
            let tail = symbols_of(lengths, reader.remaining(), (limit - done.len() - 1) as nat);
            assert(done.len() < limit);
            assert(done + (seq![symbol] + tail) =~= done.push(symbol) + tail);
            done = done.push(symbol);
        }
        out.push(symbol);
        if !unlimited {
            decoded = decoded + 1;
        }
    }
    proof {
        if !(unlimited || decoded < expect) {
            assert(symbols_of(lengths, reader.remaining(), 0) =~= Seq::<u8>::empty());
            assert(done + Seq::<u8>::empty() =~= done);
        }
    }
}

/// A limit that no reading reaches gives what any other such limit gives.
pub proof fn lemma_symbols_of_beyond_bits(lengths: Seq<u8>, bits: Seq<bool>, n: nat, m: nat)
    requires
        n >= bits.len(),
        m >= bits.len(),
    ensures
        symbols_of(lengths, bits, n) == symbols_of(lengths, bits, m),
    decreases bits.len(),
{
    crate::codebook::lemma_symbol_at_is_code(lengths, bits, 1);
    match symbol_at(lengths, bits, 1) {
        None => {},
        Some((s, used)) => {
            lemma_symbols_of_beyond_bits(
                lengths,
                bits.skip(used as int),
                (n - 1) as nat,
                (m - 1) as nat,
            );
        },
    }
}

/// Decodes a Huffman payload and appends the symbols to `out`: as many as
/// `expected_size` says, or, if it says nothing, all that can be read. Fewer
/// are appended where the bits run out or spell no code.
pub fn decode(input: &[u8], out: &mut Vec<u8>, expected_size: Option<usize>) -> (r: Result<
    (),
    CodecError,
>)
    ensures
        match huffman_decoding(input@, symbol_limit(expected_size, input@.len())) {
            Ok(symbols) => r.is_ok() && final(out)@ == old(out)@ + symbols,
            Err(e) => r == Err::<(), CodecError>(e) && final(out)@ == old(out)@,
        },
{
    if input.len() == 0 {
        proof {
            assert(out@ + Seq::<u8>::empty() =~= out@);
        }
        return Ok(());
    }
    let (book, used) = match CanonicalCode::read_lengths(input) {
        Ok(pair) => pair,
        Err(e) => {
            return Err(e);
        },
    };
    let bit_buf = vstd::slice::slice_subrange(input, used, input.len());
    proof {
        assert(bit_buf@ =~= input@.skip(used as int));
        lemma_symbols_of_beyond_bits(
            book@,
            bits_of(bit_buf@),
            8 * input@.len(),
            8 * bit_buf@.len(),
        );
    }
    decode_symbols(&book, bit_buf, out, expected_size);
    Ok(())
}

/// As `decode`, with the codebook taken from `cache` where it is there, and
/// built and put there where it is not.
pub fn decode_cached(
    input: &[u8],
    out: &mut Vec<u8>,
    expected_size: Option<usize>,
    cache: &mut DecodeCache,
) -> (r: Result<(), CodecError>)
    ensures
        match huffman_decoding(input@, symbol_limit(expected_size, input@.len())) {
            Ok(symbols) => r.is_ok() && final(out)@ == old(out)@ + symbols,
            Err(e) => r == Err::<(), CodecError>(e) && final(out)@ == old(out)@ && final(cache)@
                == old(cache)@,
        },
        input@.len() == 0 ==> final(cache)@ == old(cache)@,
        input@.len() > 0 ==> match lengths_decoding(input@) {
            Ok((lengths, _)) => final(cache)@ == cache_after(old(cache)@, lengths),
            Err(_) => final(cache)@ == old(cache)@,
        },
{
    if input.len() == 0 {
        proof {
            assert(out@ + Seq::<u8>::empty() =~= out@);
        }
        return Ok(());
    }
    let (lengths, used) = match parse_lengths(input) {
        Ok(pair) => pair,
        Err(e) => {
            return Err(e);
        },
    };
    let at = cache.lookup_or_insert(&lengths);
    let book = cache.book(at);
    let bit_buf = vstd::slice::slice_subrange(input, used, input.len());
    proof {
        assert(bit_buf@ =~= input@.skip(used as int));
        lemma_symbols_of_beyond_bits(
            book@,
            bits_of(bit_buf@),
            8 * input@.len(),
            8 * bit_buf@.len(),
        );
    }
    decode_symbols(book, bit_buf, out, expected_size);
    Ok(())
}

} // verus!
