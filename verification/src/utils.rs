//! Unsigned LEB128 length prefixes.

use crate::error::CodecError;
use vstd::prelude::*;

verus! {

/// The longest prefix a reader accepts: ten groups of seven bits cover 64 bits.
pub const MAX_VARINT_LEN: usize = 10;

/// The LEB128 bytes of `v`: seven bits per byte, least significant group
/// first, bit `0x80` set on every byte but the last.
pub open spec fn varint_encoding(v: u64) -> Seq<u8>
    decreases v,
{
    if v < 128 {
        seq![v as u8]
    } else {
        seq![((v % 128) + 128) as u8] + varint_encoding(v / 128)
    }
}

/// Index of the first byte of `s` without the continuation bit, looking at the
/// bytes from `from` up to (not including) `limit`; `limit` if there is none.
pub open spec fn terminator_from(s: Seq<u8>, from: nat, limit: nat) -> nat
    decreases limit - from,
{
    if from >= limit {
        limit
    } else if s[from as int] < 128 {
        from
    } else {
        terminator_from(s, from + 1, limit)
    }
}

/// The number that the low seven bits of `s[from..=last]` spell, least
/// significant group first.
pub open spec fn groups_value(s: Seq<u8>, from: int, last: int) -> nat
    decreases last - from + 1,
{
    if from > last || from < 0 || from >= s.len() {
        0
    } else {
        (s[from] % 128) as nat + 128 * groups_value(s, from + 1, last)
    }
}

/// How many leading bytes of `s` a reader inspects.
pub open spec fn varint_window(s: Seq<u8>) -> nat {
    if s.len() < MAX_VARINT_LEN {
        s.len()
    } else {
        MAX_VARINT_LEN as nat
    }
}

/// What a reader makes of the front of `s`: the value and the number of bytes
/// it occupies. Bits beyond the 64th are dropped. An empty input is
/// `Truncated`; a prefix with no final byte among its first ten bytes is
/// `InvalidVarint`.
pub open spec fn varint_decoding(s: Seq<u8>) -> Result<(u64, nat), CodecError> {
    let window = varint_window(s);
    let last = terminator_from(s, 0, window);
    if s.len() == 0 {
        Err(CodecError::Truncated)
    } else if last >= window {
        Err(CodecError::InvalidVarint)
    } else {
        Ok(((groups_value(s, 0, last as int) % 0x1_0000_0000_0000_0000) as u64, last + 1))
    }
}

pub proof fn lemma_terminator_bounds(s: Seq<u8>, from: nat, limit: nat)
    requires
        from <= limit <= s.len(),
    ensures
        from <= terminator_from(s, from, limit) <= limit,
        forall|j: int| from <= j < terminator_from(s, from, limit) ==> s[j] >= 128,
        terminator_from(s, from, limit) < limit ==> s[terminator_from(s, from, limit) as int] < 128,
    decreases limit - from,
{
    if from < limit && s[from as int] >= 128 {
        lemma_terminator_bounds(s, from + 1, limit);
    }
}

/// An encoding is one to ten bytes long, and only its last byte lacks the
/// continuation bit.
pub proof fn lemma_varint_encoding_shape(v: u64)
    ensures
        1 <= varint_encoding(v).len() <= MAX_VARINT_LEN,
        varint_encoding(v).last() < 128,
        forall|j: int| 0 <= j < varint_encoding(v).len() - 1 ==> varint_encoding(v)[j] >= 128,
{
    let p = lemma_pow128(10);
    lemma_varint_encoding_len(v, 10);
}

proof fn lemma_pow128(k: nat) -> (p: nat)
    requires
        k <= 10,
    ensures
        p == vstd::arithmetic::power::pow(128, k),
        k == 0 ==> p == 1,
        k == 1 ==> p == 128,
        k == 2 ==> p == 0x4000,
        k == 3 ==> p == 0x20_0000,
        k == 4 ==> p == 0x1000_0000,
        k == 5 ==> p == 0x8_0000_0000,
        k == 6 ==> p == 0x400_0000_0000,
        k == 7 ==> p == 0x2_0000_0000_0000,
        k == 8 ==> p == 0x100_0000_0000_0000,
        k == 9 ==> p == 0x8000_0000_0000_0000,
        k == 10 ==> p == 0x40_0000_0000_0000_0000,
    decreases k,
{
    reveal(vstd::arithmetic::power::pow);
    if k == 0 {
        1
    } else {
        let q = lemma_pow128((k - 1) as nat);
        128 * q
    }
}

proof fn lemma_varint_encoding_len(v: u64, k: nat)
    requires
        1 <= k <= 10,
        v < vstd::arithmetic::power::pow(128, k),
    ensures
        1 <= varint_encoding(v).len() <= k,
        varint_encoding(v).last() < 128,
        forall|j: int| 0 <= j < varint_encoding(v).len() - 1 ==> varint_encoding(v)[j] >= 128,
    decreases k,
{
    let p = lemma_pow128(k);
    if v >= 128 {
        let q = lemma_pow128((k - 1) as nat);
        reveal(vstd::arithmetic::power::pow);
        assert(p == 128 * q);
        assert(k >= 2);
        assert(v / 128 < q);
        lemma_varint_encoding_len(v / 128, (k - 1) as nat);
        let rest = varint_encoding(v / 128);
        let head = seq![((v % 128) + 128) as u8];
        assert(varint_encoding(v) == head + rest);
        assert forall|j: int| 0 <= j < varint_encoding(v).len() - 1 implies varint_encoding(v)[j]
            >= 128 by {
            if j > 0 {
                assert(varint_encoding(v)[j] == rest[j - 1]);
            }
        }
    }
}

proof fn lemma_groups_value_of_encoding(v: u64, rest: Seq<u8>, from: nat, lead: Seq<u8>)
    requires
        from == lead.len(),
    ensures
        groups_value(
            lead + varint_encoding(v) + rest,
            from as int,
            from + varint_encoding(v).len() - 1,
        ) == v,
        terminator_from(
            lead + varint_encoding(v) + rest,
            from,
            from + varint_encoding(v).len(),
        ) == from + varint_encoding(v).len() - 1,
    decreases v,
{
    let enc = varint_encoding(v);
    let s = lead + enc + rest;
    lemma_varint_encoding_shape(v);
    assert(s[from as int] == enc[0]);
    if v >= 128 {
        let head = seq![((v % 128) + 128) as u8];
        let tail = varint_encoding(v / 128);
        assert(enc == head + tail);
        assert(s == (lead + head) + tail + rest);
        lemma_groups_value_of_encoding(v / 128, rest, from + 1, lead + head);
        assert(s[from as int] % 128 == v % 128);
        assert(groups_value(s, from as int, from + enc.len() - 1) == (v % 128) + 128 * ((v / 128) as nat));
    } else {
        assert(enc.len() == 1);
        assert(groups_value(s, from as int + 1, from as int) == 0);
    }
}

/// Reading back what was written gives the value and the bytes it took,
/// whatever follows.
pub proof fn lemma_varint_round_trip(v: u64, rest: Seq<u8>)
    ensures
        varint_decoding(varint_encoding(v) + rest) == Ok::<(u64, nat), CodecError>(
            (v, varint_encoding(v).len()),
        ),
{
    let enc = varint_encoding(v);
    let s = enc + rest;
    lemma_varint_encoding_shape(v);
    lemma_groups_value_of_encoding(v, rest, 0, Seq::<u8>::empty());
    assert(Seq::<u8>::empty() + enc + rest == s);
    let window = varint_window(s);
    lemma_terminator_extend(s, 0, enc.len(), window);
}

proof fn lemma_terminator_extend(s: Seq<u8>, from: nat, limit: nat, wider: nat)
    requires
        from <= limit <= wider <= s.len(),
        terminator_from(s, from, limit) < limit,
    ensures
        terminator_from(s, from, wider) == terminator_from(s, from, limit),
    decreases limit - from,
{
    if from < limit && s[from as int] >= 128 {
        lemma_terminator_extend(s, from + 1, limit, wider);
    }
}

/// A value below `2^14` takes at most two bytes.
pub proof fn lemma_varint_encoding_short(v: u64)
    requires
        v < 16384,
    ensures
        varint_encoding(v).len() <= 2,
{
    if v >= 128 {
        assert(varint_encoding(v / 128).len() == 1);
    }
}

/// A prefix that is read takes between one and ten bytes, all of them there.
pub proof fn lemma_varint_decoding_used(s: Seq<u8>)
    ensures
        match varint_decoding(s) {
            Ok((_, used)) => 1 <= used <= MAX_VARINT_LEN && used <= s.len(),
            Err(_) => true,
        },
{
    lemma_terminator_bounds(s, 0, varint_window(s));
}

/// Appends the LEB128 bytes of `value` to `out` and returns how many there are.
pub fn write_varint_u64(out: &mut Vec<u8>, value: u64) -> (written: usize)
    ensures
        final(out)@ == old(out)@ + varint_encoding(value),
        written == varint_encoding(value).len(),
{
    let mut rest: u64 = value;
    let mut written: usize = 0;
    proof {
        lemma_varint_encoding_shape(value);
    }
    while rest >= 128
        invariant
            out@ + varint_encoding(rest) == old(out)@ + varint_encoding(value),
            written + varint_encoding(rest).len() == varint_encoding(value).len(),
            varint_encoding(value).len() <= MAX_VARINT_LEN,
        decreases rest,
    {
        let low: u8 = (rest & 0x7F) as u8;
        assert(rest & 0x7F == rest % 128) by (bit_vector);
        assert(rest >> 7 == rest / 128) by (bit_vector);
        let byte: u8 = low | 0x80;
        assert(low < 128 ==> (low | 0x80) == low + 128) by (bit_vector);
        proof {
            let tail = varint_encoding(rest / 128);
            assert(varint_encoding(rest) == seq![byte] + tail);
            assert(out@.push(byte) + tail == out@ + (seq![byte] + tail));
        }
        out.push(byte);
        written = written + 1;
        rest = rest >> 7;
    }
    out.push(rest as u8);
    proof {
        assert(varint_encoding(rest) == seq![rest as u8]);
        assert(old(out)@ + varint_encoding(value) == out@);
    }
    written + 1
}

/// Reads one LEB128 value from the front of `input`.
pub fn read_varint_u64(input: &[u8]) -> (r: Result<(u64, usize), CodecError>)
    ensures
        match r {
            Ok((value, used)) => varint_decoding(input@) == Ok::<(u64, nat), CodecError>(
                (value, used as nat),
            ),
            Err(e) => varint_decoding(input@) == Err::<(u64, nat), CodecError>(e),
        },
{
    if input.len() == 0 {
        return Err(CodecError::Truncated);
    }
    let window: usize = if input.len() < MAX_VARINT_LEN {
        input.len()
    } else {
        MAX_VARINT_LEN
    };
    let mut last: usize = 0;
    while last < window && input[last] >= 128
        invariant
            last <= window <= input.len(),
            window == varint_window(input@),
            terminator_from(input@, 0, window as nat) == terminator_from(
                input@,
                last as nat,
                window as nat,
            ),
        decreases window - last,
    {
        last = last + 1;
    }
    if last >= window {
        return Err(CodecError::InvalidVarint);
    }
    let mut value: u64 = 0;
    let mut i: usize = last + 1;
    while i > 0
        invariant
            i <= last + 1 <= input.len(),
            value == groups_value(input@, i as int, last as int) % 0x1_0000_0000_0000_0000,
        decreases i,
    {
        i = i - 1;
        let group: u64 = (input[i] & 0x7F) as u64;
        let byte: u8 = input[i];
        assert(byte & 0x7F == byte % 128) by (bit_vector);
        let shifted: u64 = value << 7;
        assert(group < 128 ==> (shifted | group) == (value as int * 128 + group as int)
            % 0x1_0000_0000_0000_0000) by (bit_vector)
            requires
                shifted == value << 7,
        ;
        proof {
            let tail = groups_value(input@, i + 1, last as int);
            assert(groups_value(input@, i as int, last as int) == group + 128 * tail);
            assert((group + 128 * tail) % 0x1_0000_0000_0000_0000 == (value as int * 128
                + group as int) % 0x1_0000_0000_0000_0000) by {
                vstd::arithmetic::div_mod::lemma_mul_mod_noop_right(
                    128,
                    tail as int,
                    0x1_0000_0000_0000_0000,
                );
                vstd::arithmetic::div_mod::lemma_add_mod_noop(
                    group as int,
                    128 * tail as int,
                    0x1_0000_0000_0000_0000,
                );
                vstd::arithmetic::div_mod::lemma_add_mod_noop(
                    group as int,
                    128 * value as int,
                    0x1_0000_0000_0000_0000,
                );
            }
        }
        value = shifted | group;
    }
    Ok((value, last + 1))
}

} // verus!
