//! Bit sequences: how bytes spell bits, how bits spell numbers, and a writer
//! and a reader that move codes in and out of bytes, most significant bit
//! first.

use vstd::arithmetic::power2::pow2;
use vstd::prelude::*;

verus! {

/// Bit `k` of `b`, counted from the most significant one (`k` in `0..8`).
pub open spec fn byte_bit(b: u8, k: int) -> bool {
    (b >> ((7 - k) as u8)) & 1 == 1
}

/// The eight bits of `b`, most significant first.
pub open spec fn byte_bits(b: u8) -> Seq<bool> {
    Seq::new(8, |k: int| byte_bit(b, k))
}

/// The bits of a byte string in stream order.
pub open spec fn bits_of(bytes: Seq<u8>) -> Seq<bool> {
    Seq::new(8 * bytes.len(), |i: int| byte_bit(bytes[i / 8], i % 8))
}

/// The number that `bits` spell, most significant bit first.
pub open spec fn bits_value(bits: Seq<bool>) -> nat
    decreases bits.len(),
{
    if bits.len() == 0 {
        0
    } else {
        2 * bits_value(bits.drop_last()) + if bits.last() {
            1nat
        } else {
            0nat
        }
    }
}

/// The `len` low bits of `v`, most significant first.
pub open spec fn value_bits(v: nat, len: nat) -> Seq<bool>
    decreases len,
{
    if len == 0 {
        Seq::empty()
    } else {
        value_bits(v / 2, (len - 1) as nat).push(v % 2 == 1)
    }
}

/// `n` zero bits.
pub open spec fn zero_bits(n: nat) -> Seq<bool> {
    Seq::new(n, |i: int| false)
}

/// How many zero bits bring `len` bits up to a whole number of bytes.
pub open spec fn padding_len(len: nat) -> nat {
    ((8 - len % 8) % 8) as nat
}

/// `bits`, zero-padded to a whole number of bytes and packed eight to a byte.
pub open spec fn pack_bits(bits: Seq<bool>) -> Seq<u8> {
    let padded = bits + zero_bits(padding_len(bits.len()));
    Seq::new(padded.len() / 8, |j: int| bits_value(padded.subrange(8 * j, 8 * j + 8)) as u8)
}

pub proof fn lemma_value_bits_len(v: nat, len: nat)
    ensures
        value_bits(v, len).len() == len,
    decreases len,
{
    if len > 0 {
        lemma_value_bits_len(v / 2, (len - 1) as nat);
    }
}

pub proof fn lemma_bits_value_bound(bits: Seq<bool>)
    ensures
        bits_value(bits) < pow2(bits.len()),
    decreases bits.len(),
{
    if bits.len() == 0 {
        vstd::arithmetic::power2::lemma2_to64();
    } else {
        lemma_bits_value_bound(bits.drop_last());
        vstd::arithmetic::power2::lemma_pow2_unfold(bits.len());
    }
}

/// The bits of a number spell that number again, as far as they reach.
pub proof fn lemma_bits_value_of_value_bits(v: nat, len: nat)
    ensures
        bits_value(value_bits(v, len)) == v % pow2(len),
    decreases len,
{
    if len == 0 {
        vstd::arithmetic::power2::lemma2_to64();
    } else {
        let rest = value_bits(v / 2, (len - 1) as nat);
        lemma_bits_value_of_value_bits(v / 2, (len - 1) as nat);
        lemma_value_bits_len(v / 2, (len - 1) as nat);
        assert(value_bits(v, len).drop_last() == rest);
        vstd::arithmetic::power2::lemma_pow2_unfold(len);
        vstd::arithmetic::power2::lemma_pow2_pos((len - 1) as nat);
        let p = pow2((len - 1) as nat) as int;
        lemma_mod_twice(v as int, p);
    }
}

/// `v % (2 * p)` splits into the low bit and the rest.
proof fn lemma_mod_twice(v: int, p: int)
    requires
        v >= 0,
        p > 0,
    ensures
        v % (2 * p) == 2 * ((v / 2) % p) + v % 2,
{
    let h = v / 2;
    let q = h / p;
    let r = h % p;
    vstd::arithmetic::div_mod::lemma_fundamental_div_mod(h, p);
    assert(h == p * q + r);
    assert(v == 2 * h + v % 2);
    assert(v == (2 * p) * q + (2 * r + v % 2)) by (nonlinear_arith)
        requires
            v == 2 * h + v % 2,
            h == p * q + r,
    ;
    vstd::arithmetic::div_mod::lemma_mod_bound(h, p);
    vstd::arithmetic::div_mod::lemma_fundamental_div_mod_converse(
        v,
        2 * p,
        q,
        2 * r + v % 2,
    );
}

/// Bit strings of one length that spell the same number are equal.
pub proof fn lemma_value_bits_of_bits_value(bits: Seq<bool>)
    ensures
        value_bits(bits_value(bits), bits.len()) == bits,
    decreases bits.len(),
{
    if bits.len() > 0 {
        lemma_value_bits_of_bits_value(bits.drop_last());
        let v = bits_value(bits);
        assert(v / 2 == bits_value(bits.drop_last()));
        assert((v % 2 == 1) == bits.last());
        assert(bits.drop_last().push(bits.last()) == bits);
    } else {
        assert(value_bits(0, 0) == bits);
    }
}

/// Appending bits shifts what came before and adds what comes after.
pub proof fn lemma_bits_value_concat(a: Seq<bool>, b: Seq<bool>)
    ensures
        bits_value(a + b) == bits_value(a) * pow2(b.len()) + bits_value(b),
    decreases b.len(),
{
    if b.len() == 0 {
        assert(a + b == a);
        vstd::arithmetic::power2::lemma2_to64();
        assert(pow2(b.len()) == 1);
        assert(bits_value(b) == 0);
        assert(bits_value(a) * 1 == bits_value(a));
    } else {
        lemma_bits_value_concat(a, b.drop_last());
        assert((a + b).drop_last() == a + b.drop_last());
        assert((a + b).last() == b.last());
        vstd::arithmetic::power2::lemma_pow2_unfold(b.len());
        let p = pow2((b.len() - 1) as nat);
        let va = bits_value(a);
        let low: nat = if b.last() {
            1
        } else {
            0
        };
        assert(pow2(b.len()) == 2 * p);
        assert(bits_value(b) == 2 * bits_value(b.drop_last()) + low);
        assert(bits_value(a + b) == 2 * (va * p + bits_value(b.drop_last())) + low);
        assert(2 * (va * p) == va * (2 * p)) by (nonlinear_arith);
        assert(bits_value(a + b) == va * pow2(b.len()) + bits_value(b));
    }
}

/// Splitting a bit string splits its value by division.
pub proof fn lemma_bits_value_take(bits: Seq<bool>, k: nat)
    requires
        k <= bits.len(),
    ensures
        bits_value(bits.take(k as int)) == bits_value(bits) / pow2((bits.len() - k) as nat),
{
    let a = bits.take(k as int);
    let b = bits.skip(k as int);
    assert(a + b == bits);
    lemma_bits_value_concat(a, b);
    lemma_bits_value_bound(b);
    let p = pow2(b.len()) as int;
    vstd::arithmetic::power2::lemma_pow2_pos(b.len());
    vstd::arithmetic::div_mod::lemma_fundamental_div_mod_converse(
        bits_value(bits) as int,
        p,
        bits_value(a) as int,
        bits_value(b) as int,
    );
}

/// Bit `i` of the `len` low bits of `v` is read off by division.
pub proof fn lemma_value_bits_index(v: nat, len: nat, i: int)
    requires
        0 <= i < len,
    ensures
        value_bits(v, len).len() == len,
        value_bits(v, len)[i] == ((v / pow2((len - 1 - i) as nat)) % 2 == 1),
    decreases len,
{
    lemma_value_bits_len(v, len);
    lemma_value_bits_len(v / 2, (len - 1) as nat);
    let rest = value_bits(v / 2, (len - 1) as nat);
    assert(value_bits(v, len) == rest.push(v % 2 == 1));
    if i == len - 1 {
        vstd::arithmetic::power2::lemma2_to64();
        assert(pow2(0) == 1);
        assert(v / 1 == v);
    } else {
        lemma_value_bits_index(v / 2, (len - 1) as nat, i);
        let e = (len - 2 - i) as nat;
        vstd::arithmetic::power2::lemma_pow2_unfold((len - 1 - i) as nat);
        vstd::arithmetic::power2::lemma_pow2_pos(e);
        vstd::arithmetic::div_mod::lemma_div_denominator(v as int, 2, pow2(e) as int);
        assert(pow2((len - 1 - i) as nat) == 2 * pow2(e));
        assert(value_bits(v, len)[i] == rest[i]);
        assert((v / 2) / pow2(e) == v / (2 * pow2(e)));
    }
}

proof fn lemma_u8_bit(x: u8, j: u8)
    requires
        j < 8,
    ensures
        ((x >> j) & 1 == 1) == ((x as nat / pow2(j as nat)) % 2 == 1),
{
    vstd::bits::lemma_u8_shr_is_div(x, j);
    let y = x >> j;
    assert(y & 1 == y % 2) by (bit_vector);
}

proof fn lemma_u16_bit(x: u16, j: u16)
    requires
        j < 16,
    ensures
        ((x >> j) & 1 == 1) == ((x as nat / pow2(j as nat)) % 2 == 1),
{
    vstd::bits::lemma_u16_shr_is_div(x, j);
    let y = x >> j;
    assert(y & 1 == y % 2) by (bit_vector);
}

/// The bits of a byte are the eight low bits of its value.
pub proof fn lemma_byte_bits_are_value_bits(b: u8)
    ensures
        byte_bits(b) == value_bits(b as nat, 8),
        bits_value(byte_bits(b)) == b,
{
    lemma_value_bits_len(b as nat, 8);
    assert forall|k: int| 0 <= k < 8 implies byte_bits(b)[k] == value_bits(b as nat, 8)[k] by {
        lemma_value_bits_index(b as nat, 8, k);
        lemma_u8_bit(b, (7 - k) as u8);
    }
    assert(byte_bits(b) =~= value_bits(b as nat, 8));
    lemma_bits_value_of_value_bits(b as nat, 8);
    vstd::arithmetic::power2::lemma2_to64();
}

pub proof fn lemma_bits_of_push(bytes: Seq<u8>, b: u8)
    ensures
        bits_of(bytes.push(b)) == bits_of(bytes) + byte_bits(b),
{
    assert(bits_of(bytes.push(b)) =~= bits_of(bytes) + byte_bits(b));
}

/// Bytes whose bits are `bits` followed by the zero padding are the packing
/// of `bits`.
pub proof fn lemma_pack_bits_unique(bits: Seq<bool>, bytes: Seq<u8>)
    requires
        bits_of(bytes) == bits + zero_bits(padding_len(bits.len())),
    ensures
        pack_bits(bits) == bytes,
{
    let padded = bits + zero_bits(padding_len(bits.len()));
    assert(padded.len() == 8 * bytes.len());
    assert forall|j: int| 0 <= j < bytes.len() implies pack_bits(bits)[j] == bytes[j] by {
        let chunk = padded.subrange(8 * j, 8 * j + 8);
        assert forall|k: int| 0 <= k < 8 implies chunk[k] == byte_bits(bytes[j])[k] by {
            assert(chunk[k] == bits_of(bytes)[8 * j + k]);
            assert((8 * j + k) / 8 == j);
            assert((8 * j + k) % 8 == k);
        }
        assert(chunk =~= byte_bits(bytes[j]));
        lemma_byte_bits_are_value_bits(bytes[j]);
    }
    assert(pack_bits(bits) =~= bytes);
}

/// Unpacking a packing gives the bits back, followed by the zero padding.
pub proof fn lemma_bits_of_pack_bits(bits: Seq<bool>)
    ensures
        bits_of(pack_bits(bits)) == bits + zero_bits(padding_len(bits.len())),
        8 * pack_bits(bits).len() == bits.len() + padding_len(bits.len()),
{
    let padded = bits + zero_bits(padding_len(bits.len()));
    let bytes = pack_bits(bits);
    assert(padded.len() % 8 == 0);
    assert(8 * bytes.len() == padded.len());
    assert forall|i: int| 0 <= i < padded.len() implies bits_of(bytes)[i] == padded[i] by {
        let j = i / 8;
        let k = i % 8;
        let chunk = padded.subrange(8 * j, 8 * j + 8);
        lemma_bits_value_bound(chunk);
        vstd::arithmetic::power2::lemma2_to64();
        let b = bits_value(chunk) as u8;
        assert(bytes[j] == b);
        lemma_byte_bits_are_value_bits(b);
        lemma_value_bits_of_bits_value(chunk);
        assert(byte_bits(b) == chunk);
        assert(byte_bits(b)[k] == chunk[k]);
    }
    assert(bits_of(bytes) =~= padded);
}

proof fn lemma_merge_chunk(cur: u8, bits: u16, len: u8, t: u8, n: u8, k: u8)
    by (bit_vector)
    requires
        t < 8,
        1 <= n,
        t + n <= 8,
        n <= len,
        len <= 16,
        k < 8,
        cur & (0xFFu8 >> t) == 0,
    ensures
        ({
            let chunk = ((bits >> ((len - n) as u16)) & (((1u16 << (n as u16)) - 1) as u16)) as u8;
            let merged = cur | (chunk << ((8 - t - n) as u8));
            &&& k < t ==> ((merged >> ((7 - k) as u8)) & 1 == 1) == ((cur >> ((7 - k) as u8)) & 1
                == 1)
            &&& t <= k && k < t + n ==> ((merged >> ((7 - k) as u8)) & 1 == 1) == ((bits >> ((len
                - 1 - (k - t)) as u16)) & 1 == 1)
            &&& k >= t + n ==> (merged >> ((7 - k) as u8)) & 1 == 0
            &&& t + n < 8 ==> merged & (0xFFu8 >> ((t + n) as u8)) == 0
        }),
{
}

/// Collects codes into bytes, most significant bit first.
pub struct BitWriter {
    buffer: Vec<u8>,
    current_byte: u8,
    bit_pos: u8,
}

impl BitWriter {
    /// The pending byte holds fewer than eight bits, and nothing below them.
    pub closed spec fn wf(&self) -> bool {
        &&& self.bit_pos < 8
        &&& self.current_byte & (0xFFu8 >> self.bit_pos) == 0
    }

    /// The bits written so far.
    pub closed spec fn view(&self) -> Seq<bool> {
        bits_of(self.buffer@) + byte_bits(self.current_byte).take(self.bit_pos as int)
    }

    /// A writer that holds no bits.
    pub fn new() -> (w: BitWriter)
        ensures
            w.wf(),
            w@ == Seq::<bool>::empty(),
    {
        let w = BitWriter { buffer: Vec::new(), current_byte: 0, bit_pos: 0 };
        assert(0u8 & (0xFFu8 >> 0u8) == 0) by (bit_vector);
        assert(w@ =~= Seq::<bool>::empty());
        w
    }

    /// Appends the `len` low bits of `bits`, most significant first.
    pub fn write(&mut self, bits: u16, len: u8)
        requires
            old(self).wf(),
            len <= 16,
        ensures
            final(self).wf(),
            final(self)@ == old(self)@ + value_bits(bits as nat, len as nat),
    {
        let ghost start = self@;
        let ghost target = value_bits(bits as nat, len as nat);
        let mut left: u8 = len;
        proof {
            lemma_value_bits_len(bits as nat, len as nat);
            assert(target.take(0) =~= Seq::<bool>::empty());
            assert(start + target.take(0) =~= start);
        }
        while left > 0
            invariant
                self.wf(),
                left <= len <= 16,
                target == value_bits(bits as nat, len as nat),
                target.len() == len,
                self@ == start + target.take(len - left),
            decreases left,
        {
            let room: u8 = 8 - self.bit_pos;
            let n: u8 = if room < left {
                room
            } else {
                left
            };
            let ghost cur = self.current_byte;
            let ghost t = self.bit_pos;
            let ghost before = self@;
            proof {
                lemma_merge_chunk(cur, bits, left, t, n, 0);
            }
            assert(1u16 << (n as u16) >= 1) by (bit_vector)
                requires
                    n <= 8,
            ;
            let mask: u16 = (1u16 << (n as u16)) - 1;
            let chunk: u16 = (bits >> ((left - n) as u16)) & mask;
            assert(chunk < 256) by (bit_vector)
                requires
                    chunk == (bits >> ((left - n) as u16)) & mask,
                    mask == (1u16 << (n as u16)) - 1,
                    n <= 8,
            ;
            let merged: u8 = self.current_byte | ((chunk as u8) << (8 - self.bit_pos - n));
            proof {
                let done = len - left;
                assert forall|k: int| 0 <= k < t + n implies #[trigger] byte_bits(merged)[k] == (
                byte_bits(cur).take(t as int) + target.subrange(done, done + n))[k] by {
                    lemma_merge_chunk(cur, bits, left, t, n, k as u8);
                    if k >= t {
                        let i = done + (k - t);
                        lemma_value_bits_index(bits as nat, len as nat, i);
                        lemma_u16_bit(bits, (left - 1 - (k - t)) as u16);
                    }
                }
                assert(byte_bits(merged).take(t + n) =~= byte_bits(cur).take(t as int)
                    + target.subrange(done, done + n));
                assert(target.take(done + n) =~= target.take(done) + target.subrange(
                    done,
                    done + n,
                ));
                assert(bits_of(self.buffer@) + byte_bits(merged).take(t + n) =~= before
                    + target.subrange(done, done + n));
            }
            self.current_byte = merged;
            self.bit_pos = self.bit_pos + n;
            left = left - n;
            if self.bit_pos == 8 {
                proof {
                    lemma_bits_of_push(self.buffer@, merged);
                    assert(byte_bits(merged).take(8) =~= byte_bits(merged));
                    assert(0u8 & (0xFFu8 >> 0u8) == 0) by (bit_vector);
                }
                self.buffer.push(self.current_byte);
                self.current_byte = 0;
                self.bit_pos = 0;
                assert(self@ =~= bits_of(self.buffer@));
            }
        }
        proof {
            assert(target.take(len as int) =~= target);
        }
    }

    /// The bytes that hold what was written: the last byte is filled up with
    /// zero bits.
    pub fn into_bytes(self) -> (bytes: Vec<u8>)
        requires
            self.wf(),
        ensures
            bytes@ == pack_bits(self@),
    {
        let ghost bits = self@;
        let ghost cur = self.current_byte;
        let ghost t = self.bit_pos;
        let mut buffer = self.buffer;
        if self.bit_pos > 0 {
            proof {
                lemma_bits_of_push(buffer@, cur);
                assert forall|k: int| t <= k < 8 implies !byte_bit(cur, k) by {
                    let kk = k as u8;
                    assert(cur & (0xFFu8 >> t) == 0 && t <= kk && kk < 8 ==> (cur >> ((7 - kk) as u8))
                        & 1 == 0) by (bit_vector);
                }
                assert(byte_bits(cur) =~= byte_bits(cur).take(t as int) + zero_bits(
                    padding_len(bits.len()),
                ));
            }
            buffer.push(self.current_byte);
            proof {
                assert(bits_of(buffer@) =~= bits + zero_bits(padding_len(bits.len())));
            }
        } else {
            proof {
                assert(bits_of(buffer@) =~= bits + zero_bits(padding_len(bits.len())));
            }
        }
        proof {
            lemma_pack_bits_unique(bits, buffer@);
        }
        buffer
    }
}

pub proof fn lemma_zero_bits_value(n: nat)
    ensures
        bits_value(zero_bits(n)) == 0,
    decreases n,
{
    if n > 0 {
        lemma_zero_bits_value((n - 1) as nat);
        assert(zero_bits(n).drop_last() =~= zero_bits((n - 1) as nat));
    }
}

/// The value of a slice of a bit string, by division and remainder.
pub proof fn lemma_bits_value_subrange(bits: Seq<bool>, from: int, to: int)
    requires
        0 <= from <= to <= bits.len(),
    ensures
        bits_value(bits.subrange(from, to)) == (bits_value(bits) / pow2((bits.len() - to) as nat))
            % pow2((to - from) as nat),
{
    let pre = bits.take(to);
    lemma_bits_value_take(bits, to as nat);
    let head = pre.take(from);
    let sub = bits.subrange(from, to);
    assert(head + sub =~= pre);
    lemma_bits_value_concat(head, sub);
    lemma_bits_value_bound(sub);
    vstd::arithmetic::power2::lemma_pow2_pos(sub.len());
    vstd::arithmetic::div_mod::lemma_fundamental_div_mod_converse(
        bits_value(pre) as int,
        pow2(sub.len()) as int,
        bits_value(head) as int,
        bits_value(sub) as int,
    );
}

pub proof fn lemma_shl_pow2(k: u32)
    requires
        k <= 16,
    ensures
        (1u32 << k) == pow2(k as nat),
        pow2(k as nat) <= 0x1_0000,
{
    vstd::arithmetic::power2::lemma2_to64();
    assert(k <= 16 ==> (1u32 << k) <= 0x1_0000) by (bit_vector);
    assert(k <= 16 ==> (k == 0 ==> (1u32 << k) == 1) && (k == 1 ==> (1u32 << k) == 2) && (k == 2
        ==> (1u32 << k) == 4) && (k == 3 ==> (1u32 << k) == 8) && (k == 4 ==> (1u32 << k) == 16)
        && (k == 5 ==> (1u32 << k) == 32) && (k == 6 ==> (1u32 << k) == 64) && (k == 7 ==> (1u32
        << k) == 128) && (k == 8 ==> (1u32 << k) == 256) && (k == 9 ==> (1u32 << k) == 512) && (k
        == 10 ==> (1u32 << k) == 1024) && (k == 11 ==> (1u32 << k) == 2048) && (k == 12 ==> (1u32
        << k) == 4096) && (k == 13 ==> (1u32 << k) == 8192) && (k == 14 ==> (1u32 << k) == 16384)
        && (k == 15 ==> (1u32 << k) == 32768) && (k == 16 ==> (1u32 << k) == 65536))
        by (bit_vector);
}

/// Masking a shifted byte reads off a run of its bits.
proof fn lemma_chunk_value(b: u8, t: u8, n: u8)
    requires
        t < 8,
        1 <= n,
        t + n <= 8,
    ensures
        ((b >> ((8 - t - n) as u8)) & (((1u16 << (n as u16)) - 1) as u8)) == bits_value(
            byte_bits(b).subrange(t as int, t + n),
        ),
{
    let x = byte_bits(b);
    lemma_byte_bits_are_value_bits(b);
    lemma_bits_value_subrange(x, t as int, t + n);
    let s = (8 - t - n) as u8;
    lemma_shl_pow2(s as u32);
    lemma_shl_pow2(n as u32);
    assert(((b >> s) & (((1u16 << (n as u16)) - 1) as u8)) as u32 == ((b as u32) / (1u32 << (
    s as u32))) % (1u32 << (n as u32))) by (bit_vector)
        requires
            s < 8,
            1 <= n <= 8,
    ;
}

/// Shifting an accumulator and or-ing a chunk in appends the chunk.
proof fn lemma_append_chunk(val: u16, chunk: u16, done: u8, n: u8)
    by (bit_vector)
    requires
        done + n <= 16,
        (val as u32) < (1u32 << (done as u32)),
        (chunk as u32) < (1u32 << (n as u32)),
    ensures
        ((val << (n as u16)) | chunk) as u32 == (val as u32) * (1u32 << (n as u32)) + (
        chunk as u32),
{
}

/// Walks over the bits of a byte string, most significant bit first.
pub struct BitReader<'a> {
    buffer: &'a [u8],
    byte_pos: usize,
    bit_pos: u8,
}

impl<'a> BitReader<'a> {
    /// The cursor lies inside the buffer or at its end.
    pub closed spec fn wf(&self) -> bool {
        &&& self.bit_pos < 8
        &&& self.byte_pos <= self.buffer@.len()
        &&& (self.byte_pos == self.buffer@.len() ==> self.bit_pos == 0)
    }

    /// All the bits of the buffer.
    pub closed spec fn bits(&self) -> Seq<bool> {
        bits_of(self.buffer@)
    }

    /// How many bits lie before the cursor.
    pub closed spec fn position(&self) -> nat {
        (8 * self.byte_pos + self.bit_pos) as nat
    }

    /// The bits from the cursor on.
    pub open spec fn remaining(&self) -> Seq<bool> {
        self.bits().skip(self.position() as int)
    }

    pub proof fn lemma_position_in_range(&self)
        requires
            self.wf(),
        ensures
            self.position() <= self.bits().len(),
    {
    }

    /// A reader at the first bit of `buffer`.
    pub fn new(buffer: &'a [u8]) -> (r: BitReader<'a>)
        ensures
            r.wf(),
            r.bits() == bits_of(buffer@),
            r.position() == 0,
    {
        BitReader { buffer, byte_pos: 0, bit_pos: 0 }
    }

    /// Whether at least `len` bits lie after the cursor.
    pub fn has_bits(&self, len: u8) -> (ok: bool)
        requires
            self.wf(),
        ensures
            ok == (self.position() + len <= self.bits().len()),
    {
        let total: usize = self.bit_pos as usize + len as usize;
        let bytes: usize = total / 8;
        let bit: usize = total % 8;
        let room: usize = self.buffer.len() - self.byte_pos;
        !(bytes > room || (bytes == room && bit > 0))
    }

    /// The next `len` bits as a number, without moving; bits past the end of
    /// the buffer read as zero.
    pub fn peek(&self, len: u8) -> (val: u16)
        requires
            self.wf(),
            len <= 16,
        ensures
            val == bits_value((self.remaining() + zero_bits(len as nat)).take(len as int)),
    {
        let mut val: u16 = 0;
        let mut left: u8 = len;
        let mut byte_pos: usize = self.byte_pos;
        let mut bit_pos: u8 = self.bit_pos;
        let ghost bits = self.bits();
        let ghost start = self.position() as int;
        proof {
            assert(bits.subrange(start, start) =~= Seq::<bool>::empty());
        }
        while left > 0 && byte_pos < self.buffer.len()
            invariant
                self.wf(),
                bits == bits_of(self.buffer@),
                start == self.position(),
                bit_pos < 8,
                byte_pos <= self.buffer@.len(),
                byte_pos == self.buffer@.len() ==> bit_pos == 0,
                left <= len <= 16,
                8 * byte_pos + bit_pos == start + (len - left),
                val == bits_value(bits.subrange(start, start + (len - left))),
            decreases left,
        {
            let room: u8 = 8 - bit_pos;
            let n: u8 = if room < left {
                room
            } else {
                left
            };
            let byte: u8 = self.buffer[byte_pos];
            assert(1u16 << (n as u16) >= 1 && (1u16 << (n as u16)) - 1 < 256) by (bit_vector)
                requires
                    n <= 8,
            ;
            let mask: u8 = ((1u16 << (n as u16)) - 1) as u8;
            let chunk: u8 = (byte >> (8 - bit_pos - n)) & mask;
            proof {
                let done = (len - left) as int;
                let p = start + done;
                let seen = bits.subrange(start, p);
                let fresh = bits.subrange(p, p + n);
                lemma_chunk_value(byte, bit_pos, n);
                assert forall|k: int| 0 <= k < n implies fresh[k] == byte_bits(byte).subrange(
                    bit_pos as int,
                    bit_pos + n,
                )[k] by {
                    assert((p + k) / 8 == byte_pos as int);
                    assert((p + k) % 8 == bit_pos + k);
                }
                assert(fresh =~= byte_bits(byte).subrange(bit_pos as int, bit_pos + n));
                assert(bits.subrange(start, p + n) =~= seen + fresh);
                lemma_bits_value_concat(seen, fresh);
                lemma_bits_value_bound(seen);
                lemma_bits_value_bound(fresh);
                lemma_shl_pow2(done as u32);
                lemma_shl_pow2(n as u32);
                lemma_append_chunk(val, chunk as u16, done as u8, n);
                lemma_shl_pow2((done + n) as u32);
                lemma_bits_value_bound(seen + fresh);
            }
            val = (val << (n as u16)) | (chunk as u16);
            bit_pos = bit_pos + n;
            left = left - n;
            if bit_pos == 8 {
                byte_pos = byte_pos + 1;
                bit_pos = 0;
            }
        }
        proof {
            let done = (len - left) as int;
            let seen = bits.subrange(start, start + done);
            let window = (self.remaining() + zero_bits(len as nat)).take(len as int);
            if left > 0 {
                assert(window =~= seen + zero_bits(left as nat));
                lemma_bits_value_concat(seen, zero_bits(left as nat));
                lemma_zero_bits_value(left as nat);
                lemma_bits_value_bound(seen);
                lemma_shl_pow2(done as u32);
                lemma_shl_pow2(left as u32);
                lemma_shl_pow2(len as u32);
                lemma_bits_value_bound(window);
                if left < 16 {
                    assert((0u16 as u32) < (1u32 << (left as u32))) by (bit_vector)
                        requires
                            left < 16,
                    ;
                    lemma_append_chunk(val, 0, done as u8, left);
                    assert((val << (left as u16)) | 0 == val << (left as u16)) by (bit_vector);
                } else {
                    assert(seen =~= Seq::<bool>::empty());
                    assert(val == 0);
                }
            } else {
                assert(window =~= seen);
            }
        }
        if left > 0 && left < 16 {
            val = val << (left as u16);
        }
        val
    }

    /// Moves the cursor `len` bits on, or to the end of the buffer if fewer
    /// are left; reports whether all of them were there.
    pub fn consume(&mut self, len: u8) -> (ok: bool)
        requires
            old(self).wf(),
        ensures
            final(self).wf(),
            final(self).bits() == old(self).bits(),
            ok == (old(self).position() + len <= old(self).bits().len()),
            ok ==> final(self).position() == old(self).position() + len,
            !ok ==> final(self).position() == old(self).bits().len(),
    {
        let total: usize = self.bit_pos as usize + len as usize;
        let bytes: usize = total / 8;
        let bit: u8 = (total % 8) as u8;
        let room: usize = self.buffer.len() - self.byte_pos;
        if bytes > room || (bytes == room && bit > 0) {
            self.byte_pos = self.buffer.len();
            self.bit_pos = 0;
            false
        } else {
            self.byte_pos = self.byte_pos + bytes;
            self.bit_pos = bit;
            true
        }
    }

    /// Takes the next `len` bits as a number. If fewer are left, the cursor
    /// moves to the end and nothing is returned.
    pub fn read(&mut self, len: u8) -> (r: Option<u16>)
        requires
            old(self).wf(),
            len <= 16,
        ensures
            final(self).wf(),
            final(self).bits() == old(self).bits(),
            old(self).position() + len <= old(self).bits().len() ==> r == Some(
                bits_value(
                    old(self).bits().subrange(
                        old(self).position() as int,
                        old(self).position() + len,
                    ),
                ) as u16,
            ) && final(self).position() == old(self).position() + len,
            old(self).position() + len > old(self).bits().len() ==> r.is_none()
                && final(self).position() == old(self).bits().len(),
    {
        let val: u16 = self.peek(len);
        let ghost window = (self.remaining() + zero_bits(len as nat)).take(len as int);
        let ghost start = self.position() as int;
        let ghost bits = self.bits();
        if self.consume(len) {
            proof {
                assert(window =~= bits.subrange(start, start + len));
            }
            Some(val)
        } else {
            None
        }
    }
}

} // verus!
