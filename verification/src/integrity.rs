//! The integrity footer: a payload is followed by its 32-byte BLAKE3 digest,
//! and a reader accepts the payload only if the digest still matches.

use vstd::prelude::*;

verus! {

/// The number of bytes of a digest, and so of the footer.
pub const HASH_SIZE: usize = 32;

/// The unkeyed BLAKE3 digest of `data`.
pub uninterp spec fn blake3_digest(data: Seq<u8>) -> [u8; 32];

/// Why a footer was not accepted.
#[derive(Clone, Debug)]
pub enum IntegrityError {
    /// The data is shorter than a footer.
    TooSmall,
    /// The digest of the payload is not the one in the footer.
    Mismatch {
        /// The digest of the payload as it is now.
        expected: [u8; 32],
        /// The digest that the footer holds.
        actual: [u8; 32],
    },
}

/// `payload` followed by its digest.
pub open spec fn with_footer(payload: Seq<u8>) -> Seq<u8> {
    payload + blake3_digest(payload)@
}

/// All of `data` but its last `HASH_SIZE` bytes.
pub open spec fn footer_payload(data: Seq<u8>) -> Seq<u8> {
    data.take(data.len() - HASH_SIZE)
}

/// The last `HASH_SIZE` bytes of `data`.
pub open spec fn footer_tag(data: Seq<u8>) -> Seq<u8> {
    data.skip(data.len() - HASH_SIZE)
}

/// `data` ends with the digest of what comes before it.
pub open spec fn footer_intact(data: Seq<u8>) -> bool {
    &&& data.len() >= HASH_SIZE
    &&& blake3_digest(footer_payload(data))@ == footer_tag(data)
}

/// A payload that was given a footer is accepted, and comes back as it was.
pub proof fn lemma_footer_round_trip(payload: Seq<u8>)
    ensures
        footer_intact(with_footer(payload)),
        footer_payload(with_footer(payload)) == payload,
{
    let whole = with_footer(payload);
    assert(blake3_digest(payload)@.len() == HASH_SIZE);
    assert(footer_payload(whole) =~= payload);
    assert(footer_tag(whole) =~= blake3_digest(payload)@);
}

/// Changing one byte of `with_footer(payload)` makes it unacceptable: a
/// change in the footer always, a change in the payload unless the changed
/// payload has the digest of the old one.
pub proof fn lemma_corruption_detected(payload: Seq<u8>, at: int, byte: u8)
    requires
        0 <= at < with_footer(payload).len(),
        byte != with_footer(payload)[at],
        at < payload.len() ==> blake3_digest(payload.update(at, byte))@ != blake3_digest(payload)@,
    ensures
        !footer_intact(with_footer(payload).update(at, byte)),
{
    let whole = with_footer(payload);
    let corrupted = whole.update(at, byte);
    assert(blake3_digest(payload)@.len() == HASH_SIZE);
    if at < payload.len() {
        assert(footer_payload(corrupted) =~= payload.update(at, byte));
        assert(footer_tag(corrupted) =~= blake3_digest(payload)@);
    } else {
        assert(footer_payload(corrupted) =~= payload);
        assert(footer_tag(corrupted)[at - payload.len()] == byte);
        assert(blake3_digest(payload)@[at - payload.len()] == whole[at]);
    }
}

/// Calls `blake3::hash` and copies the 32 bytes out of the `Hash` it
/// returns. The contract gives the result a name; it claims that the digest
/// depends on the bytes of `data` alone.
#[verifier::external_body]
fn blake3_hash(data: &[u8]) -> (digest: [u8; 32])
    ensures
        digest == blake3_digest(data@),
{
    *blake3::hash(data).as_bytes()
}

/// `data` followed by its digest.
pub fn add_footer(data: &[u8]) -> (out: Vec<u8>)
    ensures
        out@ == with_footer(data@),
{
    let mut out: Vec<u8> = vstd::slice::slice_to_vec(data);
    let digest = blake3_hash(data);
    let mut i: usize = 0;
    proof {
        assert(data@ + digest@.take(0) =~= data@);
    }
    while i < HASH_SIZE
        invariant
            i <= HASH_SIZE,
            out@ == data@ + digest@.take(i as int),
        decreases HASH_SIZE - i,
    {
        out.push(digest[i]);
        proof {
            assert(data@ + digest@.take(i as int + 1) =~= (data@ + digest@.take(i as int)).push(
                digest@[i as int],
            ));
        }
        i = i + 1;
    }
    proof {
        assert(digest@.take(HASH_SIZE as int) =~= digest@);
    }
    out
}

/// Checks the footer of `data` and returns the payload before it. Data
/// shorter than a footer is `TooSmall`; a payload whose digest is not the
/// one in the footer is a `Mismatch` that holds both digests.
pub fn verify_footer(data: &[u8]) -> (r: Result<&[u8], IntegrityError>)
    ensures
        match r {
            Ok(payload) => footer_intact(data@) && payload@ == footer_payload(data@),
            Err(IntegrityError::TooSmall) => data@.len() < HASH_SIZE,
            Err(IntegrityError::Mismatch { expected, actual }) => {
                &&& data@.len() >= HASH_SIZE
                &&& !footer_intact(data@)
                &&& expected == blake3_digest(footer_payload(data@))
                &&& actual@ == footer_tag(data@)
            },
        },
{
    if data.len() < HASH_SIZE {
        return Err(IntegrityError::TooSmall);
    }
    let split: usize = data.len() - HASH_SIZE;
    let payload = vstd::slice::slice_subrange(data, 0, split);
    let footer = vstd::slice::slice_subrange(data, split, data.len());
    proof {
        assert(payload@ =~= footer_payload(data@));
        assert(footer@ =~= footer_tag(data@));
    }
    let expected = blake3_hash(payload);
    let mut actual: [u8; 32] = [0u8; 32];
    let mut same: bool = true;
    let mut i: usize = 0;
    while i < HASH_SIZE
        invariant
            i <= HASH_SIZE,
            footer@.len() == HASH_SIZE,
            forall|k: int| 0 <= k < i ==> #[trigger] actual@[k] == footer@[k],
            same == (forall|k: int| 0 <= k < i ==> #[trigger] expected@[k] == footer@[k]),
        decreases HASH_SIZE - i,
    {
        actual[i] = footer[i];
        if expected[i] != footer[i] {
            same = false;
        }
        i = i + 1;
    }
    proof {
        assert(actual@ =~= footer@);
        if same {
            assert(expected@ =~= footer@);
        }
    }
    if same {
        Ok(payload)
    } else {
        Err(IntegrityError::Mismatch { expected, actual })
    }
}

} // verus!
