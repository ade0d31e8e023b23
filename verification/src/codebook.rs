//! The mathematics of a canonical codebook: which code each symbol gets from
//! the code lengths alone, when the lengths leave room for every code, and
//! why no code is the beginning of another.

use crate::bits::{bits_value, value_bits};
use vstd::arithmetic::power2::pow2;
use vstd::prelude::*;

verus! {

/// The longest code, in bits.
pub const MAX_CODE_LEN: usize = 15;

/// The number of symbols: one for each byte value.
pub const SYMBOLS: usize = 256;

/// Code lengths for all symbols, none longer than the limit. Length 0 marks a
/// symbol that has no code.
pub open spec fn valid_lengths(lengths: Seq<u8>) -> bool {
    &&& lengths.len() == SYMBOLS
    &&& forall|s: int| 0 <= s < SYMBOLS ==> #[trigger] lengths[s] <= MAX_CODE_LEN
}

/// How many symbols below `upto` have a code of `len` bits.
pub open spec fn length_count(lengths: Seq<u8>, len: int, upto: int) -> nat
    decreases upto,
{
    if upto <= 0 {
        0
    } else {
        length_count(lengths, len, upto - 1) + if lengths[upto - 1] == len {
            1nat
        } else {
            0nat
        }
    }
}

/// The code of the first symbol of length `len`: codes of one length are
/// consecutive, and each length starts where the shorter codes end, doubled.
pub open spec fn first_code(lengths: Seq<u8>, len: int) -> nat
    decreases len,
{
    if len <= 1 {
        0
    } else {
        2 * (first_code(lengths, len - 1) + length_count(lengths, len - 1, SYMBOLS as int))
    }
}

/// The canonical code of symbol `s`, as a number of `lengths[s]` bits. A book
/// whose lengths claim more room than there is gives some symbols a number
/// that does not fit their length; such a symbol is never written or read.
pub open spec fn canonical_code(lengths: Seq<u8>, s: int) -> nat {
    first_code(lengths, lengths[s] as int) + length_count(lengths, lengths[s] as int, s)
}

/// The share of the code space that a code of `len` bits takes, in units of
/// `2^-15`.
pub open spec fn kraft_term(len: u8) -> nat {
    if 1 <= len <= MAX_CODE_LEN {
        pow2((MAX_CODE_LEN - len) as nat)
    } else {
        0
    }
}

/// The Kraft sum of the symbols below `upto`, in units of `2^-15`.
pub open spec fn kraft_sum(lengths: Seq<u8>, upto: int) -> nat
    decreases upto,
{
    if upto <= 0 {
        0
    } else {
        kraft_sum(lengths, upto - 1) + kraft_term(lengths[upto - 1])
    }
}

/// The whole code space, in units of `2^-15`.
pub const KRAFT_ONE: u32 = 32768;

/// The codes fit: their shares add up to no more than the whole code space.
pub open spec fn kraft_ok(lengths: Seq<u8>) -> bool {
    kraft_sum(lengths, SYMBOLS as int) <= KRAFT_ONE
}

/// Symbol `s` has the code `v` of `len` bits.
pub open spec fn has_code(lengths: Seq<u8>, s: int, len: int, v: nat) -> bool {
    &&& len > 0
    &&& lengths[s] == len
    &&& canonical_code(lengths, s) == v
}

/// The lowest symbol from `from` on with the code `v` of `len` bits, or -1.
pub open spec fn symbol_with_code(lengths: Seq<u8>, len: int, v: nat, from: int) -> int
    decreases SYMBOLS - from,
{
    if from >= SYMBOLS || from < 0 {
        -1
    } else if has_code(lengths, from, len, v) {
        from
    } else {
        symbol_with_code(lengths, len, v, from + 1)
    }
}

/// The symbol at the front of `bits` and the length of its code, trying the
/// lengths from `len` up: the first length for which the bits read so far are
/// some symbol's code. Nothing if the bits run out or no length up to the
/// limit gives a code.
pub open spec fn symbol_at(lengths: Seq<u8>, bits: Seq<bool>, len: int) -> Option<(u8, nat)>
    decreases MAX_CODE_LEN + 1 - len,
{
    if len < 1 || len > MAX_CODE_LEN || len > bits.len() {
        None
    } else {
        let s = symbol_with_code(lengths, len, bits_value(bits.take(len)), 0);
        if s >= 0 {
            Some((s as u8, len as nat))
        } else {
            symbol_at(lengths, bits, len + 1)
        }
    }
}

/// The symbols read off the front of `bits`, one after the other, until `n`
/// are read or no further one can be.
pub open spec fn symbols_of(lengths: Seq<u8>, bits: Seq<bool>, n: nat) -> Seq<u8>
    decreases n,
{
    if n == 0 {
        Seq::empty()
    } else {
        match symbol_at(lengths, bits, 1) {
            None => Seq::empty(),
            Some((s, used)) => seq![s] + symbols_of(lengths, bits.skip(used as int), (n - 1) as nat),
        }
    }
}

/// The bits of the code of symbol `s`.
pub open spec fn code_bits(lengths: Seq<u8>, s: u8) -> Seq<bool> {
    value_bits(canonical_code(lengths, s as int), lengths[s as int] as nat)
}

/// The bits of a message: the codes of its symbols, in order.
pub open spec fn message_bits(lengths: Seq<u8>, message: Seq<u8>) -> Seq<bool>
    decreases message.len(),
{
    if message.len() == 0 {
        Seq::empty()
    } else {
        message_bits(lengths, message.drop_last()) + code_bits(lengths, message.last())
    }
}

pub proof fn lemma_length_count_monotone(lengths: Seq<u8>, len: int, a: int, b: int)
    requires
        a <= b,
    ensures
        length_count(lengths, len, a) <= length_count(lengths, len, b),
    decreases b - a,
{
    if a < b {
        lemma_length_count_monotone(lengths, len, a, b - 1);
    }
}

pub proof fn lemma_length_count_bound(lengths: Seq<u8>, len: int, upto: int)
    requires
        0 <= upto,
    ensures
        length_count(lengths, len, upto) <= upto,
    decreases upto,
{
    if upto > 0 {
        lemma_length_count_bound(lengths, len, upto - 1);
    }
}

/// Among symbols of one length, a higher symbol has a higher rank.
pub proof fn lemma_rank_increases(lengths: Seq<u8>, s: int, t: int)
    requires
        0 <= s < t,
    ensures
        length_count(lengths, lengths[s] as int, s) < length_count(lengths, lengths[s] as int, t),
{
    lemma_length_count_monotone(lengths, lengths[s] as int, s + 1, t);
}

/// Every length starts beyond all that the shorter codes begin with.
pub proof fn lemma_first_code_grows(lengths: Seq<u8>, short: int, long: int)
    requires
        1 <= short < long,
    ensures
        first_code(lengths, long) >= pow2((long - short) as nat) * (first_code(lengths, short)
            + length_count(lengths, short, SYMBOLS as int)),
    decreases long - short,
{
    let x = first_code(lengths, short) + length_count(lengths, short, SYMBOLS as int);
    if long == short + 1 {
        vstd::arithmetic::power2::lemma2_to64();
    } else {
        lemma_first_code_grows(lengths, short, long - 1);
        let p = pow2((long - 1 - short) as nat);
        vstd::arithmetic::power2::lemma_pow2_unfold((long - short) as nat);
        let f = first_code(lengths, long - 1);
        let c = length_count(lengths, long - 1, SYMBOLS as int);
        assert(2 * (f + c) >= (2 * p) * x) by (nonlinear_arith)
            requires
                f >= p * x,
                c >= 0,
        ;
    }
}

/// No code is the beginning of another symbol's code.
pub proof fn lemma_prefix_free(lengths: Seq<u8>, s: int, t: int)
    requires
        0 <= s < SYMBOLS,
        0 <= t < SYMBOLS,
        s != t,
        lengths.len() == SYMBOLS,
        1 <= lengths[s] <= lengths[t],
    ensures
        canonical_code(lengths, t) / pow2((lengths[t] - lengths[s]) as nat) != canonical_code(
            lengths,
            s,
        ),
{
    let ls = lengths[s] as int;
    let lt = lengths[t] as int;
    if ls == lt {
        vstd::arithmetic::power2::lemma2_to64();
        assert(pow2(0) == 1);
        let ct = canonical_code(lengths, t) as int;
        assert(ct / 1 == ct);
        if s < t {
            lemma_rank_increases(lengths, s, t);
        } else {
            lemma_rank_increases(lengths, t, s);
        }
        assert(canonical_code(lengths, t) != canonical_code(lengths, s));
    } else {
        lemma_first_code_grows(lengths, ls, lt);
        lemma_rank_increases(lengths, s, SYMBOLS as int);
        let p = pow2((lt - ls) as nat) as int;
        vstd::arithmetic::power2::lemma_pow2_pos((lt - ls) as nat);
        let x = (first_code(lengths, ls) + length_count(lengths, ls, SYMBOLS as int)) as int;
        let ct = canonical_code(lengths, t) as int;
        assert(ct >= p * x);
        vstd::arithmetic::div_mod::lemma_div_is_ordered(p * x, ct, p);
        vstd::arithmetic::div_mod::lemma_div_multiples_vanish(x, p);
        assert((p * x) / p == x) by {
            vstd::arithmetic::mul::lemma_mul_is_commutative(p, x);
        }
        assert(ct / p >= x);
        assert(canonical_code(lengths, s) < x);
    }
}

/// The Kraft sum, taken length by length: the symbols below `upto` with codes
/// of up to `len` bits.
pub open spec fn kraft_by_len(lengths: Seq<u8>, len: int, upto: int) -> nat
    decreases len,
{
    if len <= 0 {
        0
    } else {
        kraft_by_len(lengths, len - 1, upto) + length_count(lengths, len, upto) * pow2(
            (MAX_CODE_LEN - len) as nat,
        )
    }
}

proof fn lemma_kraft_by_len_step(lengths: Seq<u8>, len: int, upto: int)
    requires
        0 <= len <= MAX_CODE_LEN,
        0 < upto,
    ensures
        kraft_by_len(lengths, len, upto) == kraft_by_len(lengths, len, upto - 1) + if 1
            <= lengths[upto - 1] <= len {
            pow2((MAX_CODE_LEN - lengths[upto - 1]) as nat)
        } else {
            0
        },
    decreases len,
{
    if len > 0 {
        lemma_kraft_by_len_step(lengths, len - 1, upto);
        let p = pow2((MAX_CODE_LEN - len) as nat);
        let c = length_count(lengths, len, upto - 1);
        if lengths[upto - 1] == len {
            assert((c + 1) * p == c * p + p) by (nonlinear_arith);
        }
    }
}

proof fn lemma_kraft_by_len_zero(lengths: Seq<u8>, len: int)
    requires
        0 <= len,
    ensures
        kraft_by_len(lengths, len, 0) == 0,
    decreases len,
{
    if len > 0 {
        lemma_kraft_by_len_zero(lengths, len - 1);
        assert(0 * pow2((MAX_CODE_LEN - len) as nat) == 0) by (nonlinear_arith);
    }
}

/// Symbol by symbol or length by length, the Kraft sum is the same.
pub proof fn lemma_kraft_sum_by_len(lengths: Seq<u8>, upto: int)
    requires
        0 <= upto,
    ensures
        kraft_sum(lengths, upto) == kraft_by_len(lengths, MAX_CODE_LEN as int, upto),
    decreases upto,
{
    if upto == 0 {
        lemma_kraft_by_len_zero(lengths, MAX_CODE_LEN as int);
    } else {
        lemma_kraft_sum_by_len(lengths, upto - 1);
        lemma_kraft_by_len_step(lengths, MAX_CODE_LEN as int, upto);
    }
}

proof fn lemma_kraft_by_len_monotone(lengths: Seq<u8>, a: int, b: int, upto: int)
    requires
        a <= b,
    ensures
        kraft_by_len(lengths, a, upto) <= kraft_by_len(lengths, b, upto),
    decreases b - a,
{
    if a < b {
        lemma_kraft_by_len_monotone(lengths, a, b - 1, upto);
    }
}

/// What the codes shorter than `len` take of the code space is where the
/// codes of `len` bits begin.
proof fn lemma_first_code_is_kraft(lengths: Seq<u8>, len: int)
    requires
        1 <= len <= MAX_CODE_LEN,
    ensures
        first_code(lengths, len) * pow2((MAX_CODE_LEN - len) as nat) == kraft_by_len(
            lengths,
            len - 1,
            SYMBOLS as int,
        ),
    decreases len,
{
    if len == 1 {
        assert(0 * pow2((MAX_CODE_LEN - len) as nat) == 0) by (nonlinear_arith);
    } else {
        lemma_first_code_is_kraft(lengths, len - 1);
        let f = first_code(lengths, len - 1);
        let c = length_count(lengths, len - 1, SYMBOLS as int);
        let p = pow2((MAX_CODE_LEN - len) as nat);
        vstd::arithmetic::power2::lemma_pow2_unfold((MAX_CODE_LEN - len + 1) as nat);
        assert((2 * (f + c)) * p == f * (2 * p) + c * (2 * p)) by (nonlinear_arith);
    }
}

/// Where the lengths leave room for every code, each code fits its length.
pub proof fn lemma_code_fits(lengths: Seq<u8>, s: int)
    requires
        valid_lengths(lengths),
        kraft_ok(lengths),
        0 <= s < SYMBOLS,
        lengths[s] >= 1,
    ensures
        canonical_code(lengths, s) < pow2(lengths[s] as nat),
{
    let len = lengths[s] as int;
    let f = first_code(lengths, len);
    let c = length_count(lengths, len, SYMBOLS as int);
    let p = pow2((MAX_CODE_LEN - len) as nat);
    let code = canonical_code(lengths, s);
    lemma_first_code_is_kraft(lengths, len);
    lemma_kraft_by_len_monotone(lengths, len, MAX_CODE_LEN as int, SYMBOLS as int);
    lemma_kraft_sum_by_len(lengths, SYMBOLS as int);
    lemma_rank_increases(lengths, s, SYMBOLS as int);
    assert(code + 1 <= f + c);
    assert(f * p + c * p <= KRAFT_ONE);
    vstd::arithmetic::power2::lemma_pow2_adds(len as nat, (MAX_CODE_LEN - len) as nat);
    vstd::arithmetic::power2::lemma2_to64();
    vstd::arithmetic::power2::lemma_pow2_pos((MAX_CODE_LEN - len) as nat);
    let q = pow2(len as nat);
    assert(q * p == 32768);
    assert(code < q) by (nonlinear_arith)
        requires
            code + 1 <= f + c,
            f * p + c * p <= q * p,
            p > 0,
    ;
}

/// What `symbol_with_code` finds has the code, and nothing below it does.
pub proof fn lemma_symbol_with_code(lengths: Seq<u8>, len: int, v: nat, from: int)
    requires
        0 <= from <= SYMBOLS,
    ensures
        ({
            let r = symbol_with_code(lengths, len, v, from);
            &&& r == -1 || from <= r < SYMBOLS
            &&& r >= 0 ==> has_code(lengths, r, len, v)
            &&& forall|t: int| from <= t < SYMBOLS && (r < 0 || t < r) ==> !has_code(lengths, t, len, v)
        }),
    decreases SYMBOLS - from,
{
    if from < SYMBOLS && !has_code(lengths, from, len, v) {
        lemma_symbol_with_code(lengths, len, v, from + 1);
    }
}

proof fn lemma_symbol_at_code_from(lengths: Seq<u8>, bits: Seq<bool>, s: int, len: int)
    requires
        lengths.len() == SYMBOLS,
        0 <= s < SYMBOLS,
        1 <= len <= lengths[s] <= MAX_CODE_LEN,
        lengths[s] <= bits.len(),
        bits_value(bits.take(lengths[s] as int)) == canonical_code(lengths, s),
    ensures
        symbol_at(lengths, bits, len) == Some((s as u8, lengths[s] as nat)),
    decreases lengths[s] - len,
{
    let ls = lengths[s] as int;
    let v = bits_value(bits.take(len));
    let r = symbol_with_code(lengths, len, v, 0);
    lemma_symbol_with_code(lengths, len, v, 0);
    assert(bits.take(ls).take(len) =~= bits.take(len));
    crate::bits::lemma_bits_value_take(bits.take(ls), len as nat);
    assert(v == canonical_code(lengths, s) / pow2((ls - len) as nat));
    if r >= 0 {
        if r != s {
            lemma_prefix_free(lengths, r, s);
        }
        if len < ls {
            assert(false);
        }
    } else {
        if len == ls {
            vstd::arithmetic::power2::lemma2_to64();
            assert(pow2(0) == 1);
            assert(has_code(lengths, s, len, v));
            assert(false);
        }
        lemma_symbol_at_code_from(lengths, bits, s, len + 1);
    }
}

/// Where the front of `bits` spells the code of `s`, `s` is the symbol read
/// there, and no other.
pub proof fn lemma_symbol_at_code(lengths: Seq<u8>, bits: Seq<bool>, s: int)
    requires
        lengths.len() == SYMBOLS,
        0 <= s < SYMBOLS,
        1 <= lengths[s] <= MAX_CODE_LEN,
        lengths[s] <= bits.len(),
        bits_value(bits.take(lengths[s] as int)) == canonical_code(lengths, s),
    ensures
        symbol_at(lengths, bits, 1) == Some((s as u8, lengths[s] as nat)),
{
    lemma_symbol_at_code_from(lengths, bits, s, 1);
}

/// What `symbol_at` reads is a symbol whose code is at the front of `bits`.
pub proof fn lemma_symbol_at_is_code(lengths: Seq<u8>, bits: Seq<bool>, len: int)
    requires
        1 <= len,
    ensures
        match symbol_at(lengths, bits, len) {
            Some((s, used)) => len <= used <= MAX_CODE_LEN && used <= bits.len() && has_code(
                lengths,
                s as int,
                used as int,
                bits_value(bits.take(used as int)),
            ),
            None => true,
        },
    decreases MAX_CODE_LEN + 1 - len,
{
    if len <= MAX_CODE_LEN && len <= bits.len() {
        let v = bits_value(bits.take(len));
        lemma_symbol_with_code(lengths, len, v, 0);
        if symbol_with_code(lengths, len, v, 0) < 0 {
            lemma_symbol_at_is_code(lengths, bits, len + 1);
        }
    }
}

pub proof fn lemma_code_bits_len(lengths: Seq<u8>, s: u8)
    ensures
        code_bits(lengths, s).len() == lengths[s as int],
{
    crate::bits::lemma_value_bits_len(canonical_code(lengths, s as int), lengths[s as int] as nat);
}

/// The bits of a message begin with the code of its first symbol.
pub proof fn lemma_message_bits_front(lengths: Seq<u8>, first: u8, rest: Seq<u8>)
    ensures
        message_bits(lengths, seq![first] + rest) == code_bits(lengths, first) + message_bits(
            lengths,
            rest,
        ),
    decreases rest.len(),
{
    let whole = seq![first] + rest;
    if rest.len() == 0 {
        assert(whole.drop_last() =~= Seq::<u8>::empty());
        assert(message_bits(lengths, whole.drop_last()) =~= Seq::<bool>::empty());
        assert(whole.last() == first);
        assert(message_bits(lengths, rest) =~= Seq::<bool>::empty());
        assert(message_bits(lengths, whole) =~= code_bits(lengths, first));
        assert(code_bits(lengths, first) + message_bits(lengths, rest) =~= code_bits(
            lengths,
            first,
        ));
    } else {
        lemma_message_bits_front(lengths, first, rest.drop_last());
        assert(whole.drop_last() =~= seq![first] + rest.drop_last());
        assert(whole.last() == rest.last());
        assert(message_bits(lengths, whole) =~= code_bits(lengths, first) + message_bits(
            lengths,
            rest,
        ));
    }
}

/// Every symbol of `message` has a code.
pub open spec fn covers(lengths: Seq<u8>, message: Seq<u8>) -> bool {
    forall|i: int| 0 <= i < message.len() ==> lengths[#[trigger] message[i] as int] >= 1
}

/// Reading the bits of a message gives the message back, whatever follows
/// the bits.
pub proof fn lemma_symbols_of_message(lengths: Seq<u8>, message: Seq<u8>, rest: Seq<bool>)
    requires
        valid_lengths(lengths),
        kraft_ok(lengths),
        covers(lengths, message),
    ensures
        symbols_of(lengths, message_bits(lengths, message) + rest, message.len()) == message,
    decreases message.len(),
{
    if message.len() == 0 {
        assert(symbols_of(lengths, message_bits(lengths, message) + rest, 0) =~= message);
    } else {
        let a = message[0];
        let tail = message.skip(1);
        assert(seq![a] + tail =~= message);
        lemma_message_bits_front(lengths, a, tail);
        let code = code_bits(lengths, a);
        let len = lengths[a as int] as int;
        let bits = message_bits(lengths, message) + rest;
        lemma_code_bits_len(lengths, a);
        assert(lengths[message[0] as int] >= 1);
        assert(bits.take(len) =~= code);
        crate::bits::lemma_bits_value_of_value_bits(canonical_code(lengths, a as int), len as nat);
        lemma_code_fits(lengths, a as int);
        vstd::arithmetic::div_mod::lemma_small_mod(
            canonical_code(lengths, a as int),
            pow2(len as nat),
        );
        lemma_symbol_at_code(lengths, bits, a as int);
        assert(bits.skip(len) =~= message_bits(lengths, tail) + rest);
        assert forall|i: int| 0 <= i < tail.len() implies lengths[#[trigger] tail[i] as int]
            >= 1 by {
            assert(tail[i] == message[i + 1]);
        }
        lemma_symbols_of_message(lengths, tail, rest);
        assert(symbols_of(lengths, bits, message.len()) =~= message);
    }
}

/// No more symbols are read than are asked for, and none without bits.
pub proof fn lemma_symbols_of_len(lengths: Seq<u8>, bits: Seq<bool>, n: nat)
    ensures
        symbols_of(lengths, bits, n).len() <= n,
        symbols_of(lengths, bits, n).len() <= bits.len(),
    decreases n,
{
    if n > 0 {
        lemma_symbol_at_is_code(lengths, bits, 1);
        match symbol_at(lengths, bits, 1) {
            None => {},
            Some((s, used)) => {
                lemma_symbols_of_len(lengths, bits.skip(used as int), (n - 1) as nat);
            },
        }
    }
}

/// Asking for more symbols never gives fewer.
pub proof fn lemma_symbols_of_monotone(lengths: Seq<u8>, bits: Seq<bool>, n: nat, m: nat)
    requires
        n <= m,
    ensures
        symbols_of(lengths, bits, n).len() <= symbols_of(lengths, bits, m).len(),
    decreases n,
{
    if n > 0 {
        match symbol_at(lengths, bits, 1) {
            None => {},
            Some((s, used)) => {
                lemma_symbols_of_monotone(
                    lengths,
                    bits.skip(used as int),
                    (n - 1) as nat,
                    (m - 1) as nat,
                );
            },
        }
    }
}

/// The number of leading bits by which the fast table is indexed.
pub const FAST_DECODE_BITS: usize = 16;

/// The number of entries of the fast table.
pub const TABLE_SIZE: usize = 65536;

/// The code of `s` as it is held in sixteen bits: a number too large for
/// them is held as `0xFFFF`, which no code of up to fifteen bits equals. A
/// symbol without a code holds 0.
pub open spec fn stored_code(lengths: Seq<u8>, s: int) -> u16 {
    if lengths[s] == 0 {
        0u16
    } else if canonical_code(lengths, s) < 0xFFFF {
        canonical_code(lengths, s) as u16
    } else {
        0xFFFFu16
    }
}

/// The sixteen-bit `pattern` begins with the code of symbol `s`.
pub open spec fn fills_pattern(lengths: Seq<u8>, s: int, pattern: int) -> bool {
    &&& lengths[s] >= 1
    &&& canonical_code(lengths, s) == pattern / (pow2((FAST_DECODE_BITS - lengths[s]) as nat) as int)
}

/// The entry of the fast table for `pattern`, built from the symbols below
/// `upto`: the symbol whose code the pattern begins with and the length of
/// that code, or `(0, 0)` if it begins with no code.
pub open spec fn table_entry(lengths: Seq<u8>, pattern: int, upto: int) -> (u8, u8)
    decreases upto,
{
    if upto <= 0 {
        (0u8, 0u8)
    } else if fills_pattern(lengths, upto - 1, pattern) {
        ((upto - 1) as u8, lengths[upto - 1])
    } else {
        table_entry(lengths, pattern, upto - 1)
    }
}

/// A table entry with a length names a symbol whose code the pattern begins
/// with.
pub proof fn lemma_table_entry(lengths: Seq<u8>, pattern: int, upto: int)
    requires
        0 <= upto <= SYMBOLS,
    ensures
        ({
            let (s, len) = table_entry(lengths, pattern, upto);
            len >= 1 ==> s < upto && lengths[s as int] == len && fills_pattern(
                lengths,
                s as int,
                pattern,
            )
        }),
    decreases upto,
{
    if upto > 0 && !fills_pattern(lengths, upto - 1, pattern) {
        lemma_table_entry(lengths, pattern, upto - 1);
    }
}

/// Every pattern that begins with the code of a symbol has that symbol and
/// the length of its code as its table entry.
pub proof fn lemma_table_entry_of_code(lengths: Seq<u8>, s: int, pattern: int)
    requires
        valid_lengths(lengths),
        0 <= s < SYMBOLS,
        0 <= pattern < TABLE_SIZE,
        fills_pattern(lengths, s, pattern),
    ensures
        table_entry(lengths, pattern, SYMBOLS as int) == (s as u8, lengths[s]),
{
    let (t, len) = table_entry(lengths, pattern, SYMBOLS as int);
    lemma_table_entry_finds(lengths, s, pattern, SYMBOLS as int);
    lemma_table_entry(lengths, pattern, SYMBOLS as int);
    if t != s {
        let ls = lengths[s] as int;
        let lt = lengths[t as int] as int;
        assert(ls <= MAX_CODE_LEN && lt <= MAX_CODE_LEN);
        let cs = canonical_code(lengths, s) as int;
        let ct = canonical_code(lengths, t as int) as int;
        let ps = pow2((FAST_DECODE_BITS - ls) as nat) as int;
        let pt = pow2((FAST_DECODE_BITS - lt) as nat) as int;
        vstd::arithmetic::power2::lemma_pow2_pos((FAST_DECODE_BITS - ls) as nat);
        vstd::arithmetic::power2::lemma_pow2_pos((FAST_DECODE_BITS - lt) as nat);
        if ls <= lt {
            let d = pow2((lt - ls) as nat) as int;
            vstd::arithmetic::power2::lemma_pow2_pos((lt - ls) as nat);
            vstd::arithmetic::power2::lemma_pow2_adds(
                (FAST_DECODE_BITS - lt) as nat,
                (lt - ls) as nat,
            );
            vstd::arithmetic::div_mod::lemma_div_denominator(pattern, pt, d);
            lemma_prefix_free(lengths, s, t as int);
        } else {
            let d = pow2((ls - lt) as nat) as int;
            vstd::arithmetic::power2::lemma_pow2_pos((ls - lt) as nat);
            vstd::arithmetic::power2::lemma_pow2_adds(
                (FAST_DECODE_BITS - ls) as nat,
                (ls - lt) as nat,
            );
            vstd::arithmetic::div_mod::lemma_div_denominator(pattern, ps, d);
            lemma_prefix_free(lengths, t as int, s);
        }
    }
}

proof fn lemma_table_entry_finds(lengths: Seq<u8>, s: int, pattern: int, upto: int)
    requires
        0 <= s < upto <= SYMBOLS,
        fills_pattern(lengths, s, pattern),
    ensures
        table_entry(lengths, pattern, upto).1 >= 1,
    decreases upto,
{
    if !fills_pattern(lengths, upto - 1, pattern) {
        lemma_table_entry_finds(lengths, s, pattern, upto - 1);
    }
}

/// A quotient names the stretch of numbers that give it.
pub proof fn lemma_div_range(x: int, p: int, c: int)
    requires
        p > 0,
        x >= 0,
    ensures
        (x / p == c) <==> (c * p <= x < c * p + p),
{
    vstd::arithmetic::div_mod::lemma_fundamental_div_mod(x, p);
    vstd::arithmetic::div_mod::lemma_mod_bound(x, p);
    let q = x / p;
    if q != c {
        if q < c {
            assert(q * p + p <= c * p) by (nonlinear_arith)
                requires
                    q + 1 <= c,
                    p > 0,
            ;
        } else {
            assert(c * p + p <= q * p) by (nonlinear_arith)
                requires
                    c + 1 <= q,
                    p > 0,
            ;
        }
    }
    assert(p * q == q * p) by (nonlinear_arith);
}

/// The patterns that begin with the code of `s` are a run of `2^(16 - L)`
/// patterns, where `L` is the length of the code; they, and no others, have
/// `s` and `L` as their table entry.
pub proof fn lemma_table_run(lengths: Seq<u8>, s: int, pattern: int)
    requires
        valid_lengths(lengths),
        0 <= s < SYMBOLS,
        lengths[s] >= 1,
        0 <= pattern < TABLE_SIZE,
    ensures
        ({
            let width = pow2((FAST_DECODE_BITS - lengths[s]) as nat) as int;
            let start = canonical_code(lengths, s) * width;
            (table_entry(lengths, pattern, SYMBOLS as int) == (s as u8, lengths[s])) <==> (start
                <= pattern < start + width)
        }),
{
    let width = pow2((FAST_DECODE_BITS - lengths[s]) as nat) as int;
    assert(lengths[s] <= MAX_CODE_LEN);
    vstd::arithmetic::power2::lemma_pow2_pos((FAST_DECODE_BITS - lengths[s]) as nat);
    lemma_div_range(pattern, width, canonical_code(lengths, s) as int);
    if fills_pattern(lengths, s, pattern) {
        lemma_table_entry_of_code(lengths, s, pattern);
    } else {
        lemma_table_entry(lengths, pattern, SYMBOLS as int);
    }
}

/// The fast table agrees with reading bit by bit: where the next sixteen
/// bits index an entry with a length, that entry is the symbol read there.
pub proof fn lemma_fast_entry_is_symbol(lengths: Seq<u8>, bits: Seq<bool>)
    requires
        valid_lengths(lengths),
        bits.len() >= FAST_DECODE_BITS,
        table_entry(lengths, bits_value(bits.take(FAST_DECODE_BITS as int)) as int, SYMBOLS as int).1
            >= 1,
    ensures
        ({
            let (s, len) = table_entry(
                lengths,
                bits_value(bits.take(FAST_DECODE_BITS as int)) as int,
                SYMBOLS as int,
            );
            symbol_at(lengths, bits, 1) == Some((s, len as nat))
        }),
{
    let window = bits.take(FAST_DECODE_BITS as int);
    let pattern = bits_value(window) as int;
    let (s, len) = table_entry(lengths, pattern, SYMBOLS as int);
    lemma_table_entry(lengths, pattern, SYMBOLS as int);
    assert(lengths[s as int] <= MAX_CODE_LEN);
    crate::bits::lemma_bits_value_take(window, len as nat);
    assert(window.take(len as int) =~= bits.take(len as int));
    lemma_symbol_at_code(lengths, bits, s as int);
}

} // verus!
