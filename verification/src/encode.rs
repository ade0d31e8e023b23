//! Streams: the input is cut into blocks, each block is encoded on its own,
//! and the encoded blocks follow one another, each behind its length.

use crate::block_coder::{
    block_decoding, block_encoding, cache_after_block, decode_block, decode_block_cached,
    encode_block, storable, BLOCK_SIZE,
};
use crate::cache::DecodeCache;
use crate::error::CodecError;
use crate::utils::{read_varint_u64, varint_decoding, varint_encoding, write_varint_u64};
use rayon::iter::{IntoParallelRefIterator, ParallelIterator};
use rayon::slice::ParallelSlice;
use vstd::prelude::*;

verus! {

/// Into how many blocks an input of `len` bytes is cut.
pub open spec fn chunk_count(len: nat) -> nat {
    ((len + BLOCK_SIZE - 1) / (BLOCK_SIZE as int)) as nat
}

/// The bytes of `input` that make up block `i`: `BLOCK_SIZE` of them, fewer
/// in the last block.
pub open spec fn chunk(input: Seq<u8>, i: int) -> Seq<u8> {
    input.subrange(
        BLOCK_SIZE * i,
        if BLOCK_SIZE * (i + 1) < input.len() {
            BLOCK_SIZE * (i + 1)
        } else {
            input.len() as int
        },
    )
}

/// The encoded blocks of `input`, in order.
pub open spec fn block_encodings(input: Seq<u8>) -> Seq<Seq<u8>> {
    Seq::new(chunk_count(input.len()), |i: int| block_encoding(chunk(input, i)))
}

/// The blocks one after the other, each behind its length as a varint.
pub open spec fn frames_encoding(blocks: Seq<Seq<u8>>) -> Seq<u8>
    decreases blocks.len(),
{
    if blocks.len() == 0 {
        Seq::empty()
    } else {
        frames_encoding(blocks.drop_last()) + varint_encoding(blocks.last().len() as u64)
            + blocks.last()
    }
}

/// The encoded form of `input`: its encoded blocks, framed. Empty for the
/// empty input.
pub open spec fn stream_encoding(input: Seq<u8>) -> Seq<u8> {
    frames_encoding(block_encodings(input))
}

/// The blocks that a stream holds, found by walking from length prefix to
/// length prefix. A prefix that cannot be read gives its error; a block that
/// ends after the stream does is `Truncated`.
pub open spec fn stream_frames(s: Seq<u8>) -> Result<Seq<Seq<u8>>, CodecError>
    decreases s.len(),
{
    if s.len() == 0 {
        Ok(Seq::empty())
    } else {
        match varint_decoding(s) {
            Err(e) => Err(e),
            Ok((len, used)) => if used + len > s.len() {
                Err(CodecError::Truncated)
            } else {
                match stream_frames(s.skip((used + len) as int)) {
                    Err(e) => Err(e),
                    Ok(rest) => Ok(seq![s.subrange(used as int, (used + len) as int)] + rest),
                }
            },
        }
    }
}

/// The decoded blocks, joined in order; the error of the first block that
/// does not decode.
pub open spec fn frames_decoding(frames: Seq<Seq<u8>>) -> Result<Seq<u8>, CodecError>
    decreases frames.len(),
{
    if frames.len() == 0 {
        Ok(Seq::empty())
    } else {
        match block_decoding(frames[0]) {
            Err(e) => Err(e),
            Ok(bytes) => match frames_decoding(frames.skip(1)) {
                Err(e) => Err(e),
                Ok(rest) => Ok(bytes + rest),
            },
        }
    }
}

/// What a decoder makes of a stream. The framing is walked first, so a
/// fault in the framing comes before a fault inside a block.
pub open spec fn stream_decoding(s: Seq<u8>) -> Result<Seq<u8>, CodecError> {
    match stream_frames(s) {
        Err(e) => Err(e),
        Ok(frames) => frames_decoding(frames),
    }
}

/// The byte strings that the vectors hold.
pub open spec fn views(blocks: Seq<Vec<u8>>) -> Seq<Seq<u8>> {
    Seq::new(blocks.len(), |i: int| blocks[i]@)
}

/// `frames` put behind `done`, or the error in their place.
pub open spec fn frames_after(done: Seq<Seq<u8>>, rest: Result<Seq<Seq<u8>>, CodecError>) -> Result<
    Seq<Seq<u8>>,
    CodecError,
> {
    match rest {
        Err(e) => Err(e),
        Ok(frames) => Ok(done + frames),
    }
}

/// `rest` put behind `done`, or the error in its place.
pub open spec fn bytes_after(done: Seq<u8>, rest: Result<Seq<u8>, CodecError>) -> Result<
    Seq<u8>,
    CodecError,
> {
    match rest {
        Err(e) => Err(e),
        Ok(bytes) => Ok(done + bytes),
    }
}

/// Where the blocks of a stream lie: for each block the index of its first
/// byte and the index after its last.
pub open spec fn ranges_of(data: Seq<u8>, ranges: Seq<(usize, usize)>, frames: Seq<Seq<u8>>) -> bool {
    &&& ranges.len() == frames.len()
    &&& forall|i: int|
        0 <= i < ranges.len() ==> {
            &&& (#[trigger] ranges[i]).0 <= ranges[i].1 <= data.len()
            &&& data.subrange(ranges[i].0 as int, ranges[i].1 as int) == frames[i]
        }
}

/// Decoding the frames from `i` on: the bytes of frame `i`, then the rest.
proof fn lemma_frames_decoding_step(frames: Seq<Seq<u8>>, i: int, done: Seq<u8>)
    requires
        0 <= i < frames.len(),
    ensures
        bytes_after(done, frames_decoding(frames.skip(i))) == match block_decoding(frames[i]) {
            Err(e) => Err::<Seq<u8>, CodecError>(e),
            Ok(bytes) => bytes_after(done + bytes, frames_decoding(frames.skip(i + 1))),
        },
{
    let from = frames.skip(i);
    assert(from[0] == frames[i]);
    assert(from.skip(1) =~= frames.skip(i + 1));
    match block_decoding(frames[i]) {
        Err(e) => {},
        Ok(bytes) => {
            match frames_decoding(frames.skip(i + 1)) {
                Ok(rest) => {
                    assert(done + (bytes + rest) =~= (done + bytes) + rest);
                },
                Err(_) => {},
            }
        },
    }
}

/// Every block of `input` is read back as it was.
pub open spec fn stream_storable(input: Seq<u8>) -> bool {
    forall|i: int| 0 <= i < chunk_count(input.len()) ==> storable(#[trigger] chunk(input, i))
}

/// The byte strings joined in order.
pub open spec fn concat_all(parts: Seq<Seq<u8>>) -> Seq<u8>
    decreases parts.len(),
{
    if parts.len() == 0 {
        Seq::empty()
    } else {
        parts[0] + concat_all(parts.skip(1))
    }
}

proof fn lemma_frames_encoding_front(first: Seq<u8>, rest: Seq<Seq<u8>>)
    ensures
        frames_encoding(seq![first] + rest) == varint_encoding(first.len() as u64) + first
            + frames_encoding(rest),
    decreases rest.len(),
{
    let whole = seq![first] + rest;
    let head = varint_encoding(first.len() as u64) + first;
    if rest.len() == 0 {
        assert(whole.drop_last() =~= Seq::<Seq<u8>>::empty());
        assert(frames_encoding(whole.drop_last()) =~= Seq::<u8>::empty());
        assert(whole.last() == first);
        assert(frames_encoding(rest) =~= Seq::<u8>::empty());
        assert(frames_encoding(whole) =~= head);
        assert(head + frames_encoding(rest) =~= head);
    } else {
        lemma_frames_encoding_front(first, rest.drop_last());
        assert(whole.drop_last() =~= seq![first] + rest.drop_last());
        assert(whole.last() == rest.last());
        assert(frames_encoding(whole) =~= head + frames_encoding(rest));
    }
}

/// Walking the framing of framed blocks finds the blocks.
pub proof fn lemma_frames_round_trip(blocks: Seq<Seq<u8>>)
    requires
        forall|i: int| 0 <= i < blocks.len() ==> (#[trigger] blocks[i]).len() <= u64::MAX,
    ensures
        stream_frames(frames_encoding(blocks)) == Ok::<Seq<Seq<u8>>, CodecError>(blocks),
    decreases blocks.len(),
{
    if blocks.len() == 0 {
        assert(blocks =~= Seq::<Seq<u8>>::empty());
    } else {
        let first = blocks[0];
        let rest = blocks.skip(1);
        assert(blocks =~= seq![first] + rest);
        lemma_frames_encoding_front(first, rest);
        let prefix = varint_encoding(first.len() as u64);
        let tail = frames_encoding(rest);
        let s = prefix + first + tail;
        assert(s =~= prefix + (first + tail));
        crate::utils::lemma_varint_round_trip(first.len() as u64, first + tail);
        crate::utils::lemma_varint_encoding_shape(first.len() as u64);
        assert(s.skip((prefix.len() + first.len()) as int) =~= tail);
        assert(s.subrange(prefix.len() as int, (prefix.len() + first.len()) as int) =~= first);
        assert forall|i: int| 0 <= i < rest.len() implies (#[trigger] rest[i]).len()
            <= u64::MAX by {
            assert(rest[i] == blocks[i + 1]);
        }
        lemma_frames_round_trip(rest);
        assert(seq![first] + rest =~= blocks);
    }
}

proof fn lemma_frames_decoding_all(frames: Seq<Seq<u8>>, parts: Seq<Seq<u8>>)
    requires
        frames.len() == parts.len(),
        forall|i: int|
            0 <= i < frames.len() ==> block_decoding(#[trigger] frames[i]) == Ok::<
                Seq<u8>,
                CodecError,
            >(parts[i]),
    ensures
        frames_decoding(frames) == Ok::<Seq<u8>, CodecError>(concat_all(parts)),
    decreases frames.len(),
{
    if frames.len() > 0 {
        assert forall|i: int| 0 <= i < frames.skip(1).len() implies block_decoding(
            #[trigger] frames.skip(1)[i],
        ) == Ok::<Seq<u8>, CodecError>(parts.skip(1)[i]) by {
            assert(frames.skip(1)[i] == frames[i + 1]);
        }
        lemma_frames_decoding_all(frames.skip(1), parts.skip(1));
        assert(block_decoding(frames[0]) == Ok::<Seq<u8>, CodecError>(parts[0]));
    }
}

/// The blocks of an input, as they are cut.
pub open spec fn chunks(input: Seq<u8>) -> Seq<Seq<u8>> {
    Seq::new(chunk_count(input.len()), |i: int| chunk(input, i))
}

proof fn lemma_chunk_bounds(len: nat, i: int)
    requires
        0 <= i < chunk_count(len),
    ensures
        BLOCK_SIZE * i < len,
        len <= BLOCK_SIZE * chunk_count(len),
        len > BLOCK_SIZE * (chunk_count(len) - 1),
{
}

proof fn lemma_concat_chunks_from(input: Seq<u8>, k: int)
    requires
        0 <= k <= chunk_count(input.len()),
    ensures
        concat_all(chunks(input).skip(k)) == input.skip(
            if BLOCK_SIZE * k < input.len() {
                BLOCK_SIZE * k
            } else {
                input.len() as int
            },
        ),
    decreases chunk_count(input.len()) - k,
{
    let count = chunk_count(input.len());
    let from = chunks(input).skip(k);
    if k == count {
        assert(from =~= Seq::<Seq<u8>>::empty());
        assert(input.skip(input.len() as int) =~= Seq::<u8>::empty());
    } else {
        lemma_chunk_bounds(input.len(), k);
        lemma_concat_chunks_from(input, k + 1);
        assert(from[0] == chunk(input, k));
        assert(from.skip(1) =~= chunks(input).skip(k + 1));
        let end = if BLOCK_SIZE * (k + 1) < input.len() {
            BLOCK_SIZE * (k + 1)
        } else {
            input.len() as int
        };
        assert(chunk(input, k) + input.skip(end) =~= input.skip(BLOCK_SIZE * k));
    }
}

/// Decoding an encoded stream gives the input back, where every block of
/// the input is read back as it was.
pub proof fn lemma_stream_round_trip(input: Seq<u8>)
    requires
        stream_storable(input),
    ensures
        stream_decoding(stream_encoding(input)) == Ok::<Seq<u8>, CodecError>(input),
{
    let blocks = block_encodings(input);
    let parts = chunks(input);
    assert forall|i: int| 0 <= i < blocks.len() implies (#[trigger] blocks[i]).len()
        <= u64::MAX && block_decoding(blocks[i]) == Ok::<Seq<u8>, CodecError>(parts[i]) by {
        lemma_chunk_bounds(input.len(), i);
        assert(storable(chunk(input, i)));
        crate::block_coder::lemma_block_size(chunk(input, i));
        crate::block_coder::lemma_block_round_trip(chunk(input, i));
    }
    lemma_frames_round_trip(blocks);
    lemma_frames_decoding_all(blocks, parts);
    lemma_concat_chunks_from(input, 0);
    assert(chunks(input).skip(0) =~= chunks(input));
    assert(input.skip(0) =~= input);
}

/// A stream made of two inputs put together is decoded to the two put
/// together, wherever in a block the second begins.
pub proof fn lemma_stream_round_trip_concat(first: Seq<u8>, second: Seq<u8>)
    requires
        stream_storable(first + second),
    ensures
        stream_decoding(stream_encoding(first + second)) == Ok::<Seq<u8>, CodecError>(
            first + second,
        ),
{
    lemma_stream_round_trip(first + second);
}

proof fn lemma_frames_size(input: Seq<u8>, k: int)
    requires
        0 <= k <= chunk_count(input.len()),
    ensures
        frames_encoding(block_encodings(input).take(k)).len() <= (if BLOCK_SIZE * k < input.len() {
            BLOCK_SIZE * k
        } else {
            input.len() as int
        }) + 4 * k,
    decreases k,
{
    let upto = block_encodings(input).take(k);
    if k > 0 {
        lemma_frames_size(input, k - 1);
        lemma_chunk_bounds(input.len(), k - 1);
        assert(upto.drop_last() =~= block_encodings(input).take(k - 1));
        assert(upto.last() == block_encoding(chunk(input, k - 1)));
        crate::block_coder::lemma_block_size(chunk(input, k - 1));
        crate::utils::lemma_varint_encoding_short(upto.last().len() as u64);
    }
}

/// An encoded stream is longer than the input by at most four bytes for
/// each block.
pub proof fn lemma_stream_size_bound(input: Seq<u8>)
    ensures
        stream_encoding(input).len() <= input.len() + 4 * chunk_count(input.len()),
{
    let count = chunk_count(input.len());
    lemma_frames_size(input, count as int);
    assert(block_encodings(input).take(count as int) =~= block_encodings(input));
}

/// Frames the encoded blocks: each goes behind its length.
pub fn frame_blocks(blocks: &Vec<Vec<u8>>) -> (stream: Vec<u8>)
    ensures
        stream@ == frames_encoding(views(blocks@)),
{
    let mut stream: Vec<u8> = Vec::new();
    let mut i: usize = 0;
    proof {
        assert(views(blocks@).take(0) =~= Seq::<Seq<u8>>::empty());
    }
    while i < blocks.len()
        invariant
            i <= blocks@.len(),
            stream@ == frames_encoding(views(blocks@).take(i as int)),
        decreases blocks@.len() - i,
    {
        let block = &blocks[i];
        proof {
            let upto = views(blocks@).take(i + 1);
            assert(upto.drop_last() =~= views(blocks@).take(i as int));
            assert(upto.last() == block@);
        }
        let _ = write_varint_u64(&mut stream, block.len() as u64);
        append_bytes(&mut stream, block);
        i = i + 1;
    }
    proof {
        assert(views(blocks@).take(blocks@.len() as int) =~= views(blocks@));
    }
    stream
}

/// Walks the framing of a stream and returns where its blocks lie.
pub fn scan_frames(data: &[u8]) -> (r: Result<Vec<(usize, usize)>, CodecError>)
    ensures
        match r {
            Ok(ranges) => match stream_frames(data@) {
                Ok(frames) => ranges_of(data@, ranges@, frames),
                Err(_) => false,
            },
            Err(e) => stream_frames(data@) == Err::<Seq<Seq<u8>>, CodecError>(e),
        },
{
    let mut ranges: Vec<(usize, usize)> = Vec::new();
    let mut pos: usize = 0;
    let ghost mut done: Seq<Seq<u8>> = Seq::empty();
    proof {
        assert(data@.skip(0) =~= data@);
        match stream_frames(data@) {
            Ok(frames) => {
                assert(done + frames =~= frames);
            },
            Err(_) => {},
        }
    }
    while pos < data.len()
        invariant
            pos <= data@.len(),
            stream_frames(data@) == frames_after(done, stream_frames(data@.skip(pos as int))),
            ranges_of(data@, ranges@, done),
        decreases data@.len() - pos,
    {
        let rest = vstd::slice::slice_subrange(data, pos, data.len());
        proof {
            assert(rest@ =~= data@.skip(pos as int));
            crate::utils::lemma_varint_decoding_used(rest@);
        }
        let (block_len, varint_len) = read_varint_u64(rest)?;
        let start: usize = pos + varint_len;
        if block_len > (data.len() - start) as u64 {
            return Err(CodecError::Truncated);
        }
        let end: usize = start + block_len as usize;
        proof {
            let frame = rest@.subrange(varint_len as int, varint_len + block_len);
            assert(frame =~= data@.subrange(start as int, end as int));
            assert(rest@.skip(varint_len + block_len) =~= data@.skip(end as int));
            match stream_frames(data@.skip(end as int)) {
                Ok(frames) => {
                    assert(done + (seq![frame] + frames) =~= done.push(frame) + frames);
                },
                Err(_) => {},
            }
            done = done.push(frame);
        }
        ranges.push((start, end));
        pos = end;
    }
    proof {
        assert(done + Seq::<Seq<u8>>::empty() =~= done);
    }
    Ok(ranges)
}

/// Appends the bytes of `part` to `out`.
fn append_bytes(out: &mut Vec<u8>, part: &Vec<u8>)
    ensures
        final(out)@ == old(out)@ + part@,
{
    let mut j: usize = 0;
    proof {
        assert(out@ + part@.take(0) =~= out@);
    }
    while j < part.len()
        invariant
            j <= part@.len(),
            out@ == old(out)@ + part@.take(j as int),
        decreases part@.len() - j,
    {
        out.push(part[j]);
        proof {
            assert(old(out)@ + part@.take(j as int + 1) =~= (old(out)@ + part@.take(j as int)).push(
                part@[j as int],
            ));
        }
        j = j + 1;
    }
    proof {
        assert(part@.take(part@.len() as int) =~= part@);
    }
}

/// Encodes `input` block by block, one block after the other.
pub fn encode_stream(input: &[u8]) -> (r: Result<Vec<u8>, CodecError>)
    ensures
        match r {
            Ok(stream) => stream@ == stream_encoding(input@),
            Err(_) => false,
        },
{
    let mut blocks: Vec<Vec<u8>> = Vec::new();
    let mut pos: usize = 0;
    while pos < input.len()
        invariant
            pos <= input@.len(),
            pos % BLOCK_SIZE == 0 || pos == input@.len(),
            blocks@.len() == chunk_count(pos as nat),
            forall|i: int|
                0 <= i < blocks@.len() ==> (#[trigger] blocks@[i])@ == block_encoding(
                    chunk(input@, i),
                ),
        decreases input@.len() - pos,
    {
        let left: usize = input.len() - pos;
        let end: usize = if left > BLOCK_SIZE {
            pos + BLOCK_SIZE
        } else {
            input.len()
        };
        let part = vstd::slice::slice_subrange(input, pos, end);
        proof {
            let i = blocks@.len() as int;
            assert(pos == BLOCK_SIZE * i);
            assert(part@ =~= chunk(input@, i));
        }
        let block = encode_block(part)?;
        blocks.push(block);
        pos = end;
    }
    proof {
        assert(views(blocks@) =~= block_encodings(input@));
    }
    Ok(frame_blocks(&blocks))
}

/// The keys of a cache after the blocks `frames` were decoded with it, one
/// after the other, up to the first that does not decode.
pub open spec fn cache_after_frames(keys: Seq<Seq<u8>>, frames: Seq<Seq<u8>>) -> Seq<Seq<u8>>
    decreases frames.len(),
{
    if frames.len() == 0 {
        keys
    } else {
        let next = cache_after_block(keys, frames[0]);
        match block_decoding(frames[0]) {
            Err(_) => next,
            Ok(_) => cache_after_frames(next, frames.skip(1)),
        }
    }
}

/// Decodes a stream block by block, one block after the other. Blocks that
/// share a codebook share its fast table.
pub fn decode_stream(data: &[u8]) -> (r: Result<Vec<u8>, CodecError>)
    ensures
        match r {
            Ok(bytes) => stream_decoding(data@) == Ok::<Seq<u8>, CodecError>(bytes@),
            Err(e) => stream_decoding(data@) == Err::<Seq<u8>, CodecError>(e),
        },
{
    let mut cache = DecodeCache::new();
    decode_stream_with(data, &mut cache)
}

/// Decodes a stream block by block with the codebooks of `cache`, which
/// takes up the codebooks that it did not hold.
pub fn decode_stream_with(data: &[u8], cache: &mut DecodeCache) -> (r: Result<Vec<u8>, CodecError>)
    ensures
        match r {
            Ok(bytes) => stream_decoding(data@) == Ok::<Seq<u8>, CodecError>(bytes@),
            Err(e) => stream_decoding(data@) == Err::<Seq<u8>, CodecError>(e),
        },
        final(cache)@ == match stream_frames(data@) {
            Ok(frames) => cache_after_frames(old(cache)@, frames),
            Err(_) => old(cache)@,
        },
{
    let ranges = scan_frames(data)?;
    let ghost frames = stream_frames(data@)->Ok_0;
    let mut out: Vec<u8> = Vec::new();
    let mut i: usize = 0;
    proof {
        assert(frames.skip(0) =~= frames);
        match frames_decoding(frames) {
            Ok(bytes) => {
                assert(out@ + bytes =~= bytes);
            },
            Err(_) => {},
        }
    }
    while i < ranges.len()
        invariant
            i <= ranges@.len(),
            ranges_of(data@, ranges@, frames),
            stream_frames(data@) == Ok::<Seq<Seq<u8>>, CodecError>(frames),
            frames_decoding(frames) == bytes_after(out@, frames_decoding(frames.skip(i as int))),
            cache_after_frames(old(cache)@, frames) == cache_after_frames(
                cache@,
                frames.skip(i as int),
            ),
        decreases ranges@.len() - i,
    {
        let (start, end) = ranges[i];
        let block = vstd::slice::slice_subrange(data, start, end);
        proof {
            assert(block@ == frames[i as int]);
            lemma_frames_decoding_step(frames, i as int, out@);
            assert(frames.skip(i as int)[0] == frames[i as int]);
            assert(frames.skip(i as int).skip(1) =~= frames.skip(i + 1));
        }
        let part = decode_block_cached(block, cache)?;
        append_bytes(&mut out, &part);
        i = i + 1;
    }
    proof {
        assert(out@ + Seq::<u8>::empty() =~= out@);
    }
    Ok(out)
}

/// Whether `r` is the executable form of the decoding `d`.
pub open spec fn decodes_as(r: Result<Vec<u8>, CodecError>, d: Result<Seq<u8>, CodecError>) -> bool {
    match r {
        Ok(bytes) => d == Ok::<Seq<u8>, CodecError>(bytes@),
        Err(e) => d == Err::<Seq<u8>, CodecError>(e),
    }
}

/// Calls rayon's `par_chunks`, `map` and `collect` to encode every block of
/// `input` with `encode_block` on the worker threads. The contract claims
/// what rayon documents of them: the chunks are those of `chunks`, and the
/// results come back in the order of the chunks.
#[verifier::external_body]
fn par_encode_blocks(input: &[u8]) -> (blocks: Vec<Result<Vec<u8>, CodecError>>)
    ensures
        blocks@.len() == chunk_count(input@.len()),
        forall|i: int|
            0 <= i < blocks@.len() ==> match #[trigger] blocks@[i] {
                Ok(block) => block@ == block_encoding(chunk(input@, i)),
                Err(_) => false,
            },
{
    input.par_chunks(BLOCK_SIZE).map(|part| encode_block(part)).collect()
}

/// Calls rayon's `par_iter`, `map` and `collect` to decode every block of
/// `data` with `decode_block` on the worker threads. The contract claims
/// what rayon documents of them: the results come back in the order of the
/// ranges.
#[verifier::external_body]
fn par_decode_blocks(data: &[u8], ranges: &Vec<(usize, usize)>) -> (parts: Vec<
    Result<Vec<u8>, CodecError>,
>)
    requires
        forall|i: int| 0 <= i < ranges@.len() ==> (#[trigger] ranges@[i]).0 <= ranges@[i].1 <= data@.len(),
    ensures
        parts@.len() == ranges@.len(),
        forall|i: int|
            0 <= i < parts@.len() ==> decodes_as(
                #[trigger] parts@[i],
                block_decoding(data@.subrange(ranges@[i].0 as int, ranges@[i].1 as int)),
            ),
{
    ranges.par_iter().map(|range| decode_block(&data[range.0..range.1])).collect()
}

/// Encodes `input` block by block, the blocks in parallel.
pub fn encode_parallel(input: &[u8]) -> (r: Result<Vec<u8>, CodecError>)
    ensures
        match r {
            Ok(stream) => stream@ == stream_encoding(input@),
            Err(_) => false,
        },
{
    if input.len() == 0 {
        proof {
            assert(block_encodings(input@) =~= Seq::<Seq<u8>>::empty());
        }
        return Ok(Vec::new());
    }
    let results = par_encode_blocks(input);
    let ghost blocks = block_encodings(input@);
    let mut stream: Vec<u8> = Vec::new();
    let mut i: usize = 0;
    proof {
        assert(blocks.take(0) =~= Seq::<Seq<u8>>::empty());
    }
    while i < results.len()
        invariant
            i <= results@.len(),
            blocks == block_encodings(input@),
            results@.len() == blocks.len(),
            forall|k: int|
                0 <= k < results@.len() ==> match #[trigger] results@[k] {
                    Ok(block) => block@ == blocks[k],
                    Err(_) => false,
                },
            stream@ == frames_encoding(blocks.take(i as int)),
        decreases results@.len() - i,
    {
        match &results[i] {
            Err(e) => {
                return Err(*e);
            },
            Ok(block) => {
                proof {
                    let upto = blocks.take(i + 1);
                    assert(upto.drop_last() =~= blocks.take(i as int));
                    assert(upto.last() == block@);
                }
                let _ = write_varint_u64(&mut stream, block.len() as u64);
                append_bytes(&mut stream, block);
            },
        }
        i = i + 1;
    }
    proof {
        assert(blocks.take(blocks.len() as int) =~= blocks);
    }
    Ok(stream)
}

/// Decodes a stream, the blocks in parallel. Of several blocks that do not
/// decode, the first in the stream gives the error.
pub fn decode_parallel(encoded_data: &[u8]) -> (r: Result<Vec<u8>, CodecError>)
    ensures
        match r {
            Ok(bytes) => stream_decoding(encoded_data@) == Ok::<Seq<u8>, CodecError>(bytes@),
            Err(e) => stream_decoding(encoded_data@) == Err::<Seq<u8>, CodecError>(e),
        },
{
    if encoded_data.len() == 0 {
        return Ok(Vec::new());
    }
    let ranges = scan_frames(encoded_data)?;
    let ghost frames = stream_frames(encoded_data@)->Ok_0;
    let parts = par_decode_blocks(encoded_data, &ranges);
    let mut out: Vec<u8> = Vec::new();
    let mut i: usize = 0;
    proof {
        assert(frames.skip(0) =~= frames);
        match frames_decoding(frames) {
            Ok(bytes) => {
                assert(out@ + bytes =~= bytes);
            },
            Err(_) => {},
        }
    }
    while i < parts.len()
        invariant
            i <= parts@.len(),
            parts@.len() == frames.len(),
            stream_frames(encoded_data@) == Ok::<Seq<Seq<u8>>, CodecError>(frames),
            forall|k: int|
                0 <= k < parts@.len() ==> decodes_as(#[trigger] parts@[k], block_decoding(frames[k])),
            frames_decoding(frames) == bytes_after(out@, frames_decoding(frames.skip(i as int))),
        decreases parts@.len() - i,
    {
        proof {
            lemma_frames_decoding_step(frames, i as int, out@);
            assert(decodes_as(parts@[i as int], block_decoding(frames[i as int])));
        }
        match &parts[i] {
            Err(e) => {
                return Err(*e);
            },
            Ok(part) => {
                append_bytes(&mut out, part);
            },
        }
        i = i + 1;
    }
    proof {
        assert(out@ + Seq::<u8>::empty() =~= out@);
    }
    Ok(out)
}

} // verus!
