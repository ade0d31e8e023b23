//! Block-oriented byte-stream compressor built around canonical Huffman
//! coding with a raw fallback, a digest footer that detects corruption, and
//! the index of a multi-file archive.
//!
//! Every executable function carries a contract over a mathematical model of
//! the wire format. The `*_encoding` and `*_decoding` spec functions are that
//! model; the public proof functions state the laws that connect them:
//!
//! - `encode::lemma_stream_round_trip`: decoding an encoded stream gives the
//!   input back;
//! - `encode::lemma_stream_size_bound`: a stream is at most four bytes a
//!   block longer than its input;
//! - `lengths::lemma_code_lengths`: the codes of a codebook fit the code
//!   space;
//! - `codebook::lemma_prefix_free`: no code is the beginning of another;
//! - `codebook::lemma_fast_entry_is_symbol`: the fast table reads what
//!   reading bit by bit reads;
//! - `integrity::lemma_footer_round_trip` and
//!   `integrity::lemma_corruption_detected`: a footer accepts its payload,
//!   and nothing that differs from it in one byte unless the digests collide.
//!
//! Calls into other crates stand behind small functions marked
//! `external_body`, whose contracts are believed, not proved: BLAKE3 in
//! `integrity`, rayon in `encode`, HMAC, base64 and chrono in `license`.

pub mod archive;
pub mod bits;
pub mod block_coder;
pub mod cache;
pub mod codebook;
pub mod encode;
pub mod error;
pub mod huff;
pub mod integrity;
pub mod lengths;
pub mod license;
pub mod raw;
pub mod sealed;
pub mod utils;
