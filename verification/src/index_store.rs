//! Storing a boundary index and reading it back.
//!
//! An index is stored as the `postcard` encoding of its `(offset, size)`
//! pairs, framed with COBS and closed by a zero byte, and then compressed
//! as a zlib stream. The frame is what lets a reader notice a stored index
//! that was cut short.

use crate::record::{covers, tiles, DocOffset};
use std::io::Write;
use vstd::prelude::*;

verus! {

/// The error type of `postcard`, carried through opaquely.
#[verifier::external_type_specification]
#[verifier::external_body]
pub struct ExPostcardError(postcard::Error);

/// The error type of `std::io`, carried through opaquely.
#[verifier::external_type_specification]
#[verifier::external_body]
pub struct ExIoError(std::io::Error);

/// Why an index could not be stored or read back.
#[derive(Clone, Copy, Debug, PartialEq, Eq, Structural)]
pub enum IndexError {
    /// The encoder or the compressor refused the index.
    Encode,
    /// The stored bytes do not decompress or do not decode: the stored
    /// index is corrupt and a fresh scan is called for.
    Corrupt,
}

/// The COBS-framed `postcard` encoding of a list of pairs, where
/// `postcard` encodes the list.
pub uninterp spec fn postcard_cobs(pairs: Seq<(u64, u64)>) -> Option<Seq<u8>>;

/// The list of pairs that `postcard` decodes from COBS-framed bytes, if it
/// decodes one.
pub uninterp spec fn postcard_cobs_decoded(bytes: Seq<u8>) -> Option<Seq<(u64, u64)>>;

/// The zlib stream that `flate2` writes for data at its default level,
/// where it writes one.
pub uninterp spec fn zlib_stream(data: Seq<u8>) -> Option<Seq<u8>>;

/// The data that `flate2` recovers from a zlib stream, if it recovers any.
pub uninterp spec fn zlib_inflated(stream: Seq<u8>) -> Option<Seq<u8>>;

/// Encodes pairs with `postcard` and frames them with COBS.
///
/// Trusted: the body is one call of `postcard::to_allocvec_cobs`. Whether
/// it succeeds and what it returns depend on the pairs alone; the contract
/// names that outcome and adds the one fact that the crate is made for:
/// what it encodes, its own decoder reads back.
#[verifier::external_body]
fn encode_pairs(pairs: &Vec<(u64, u64)>) -> (r: Result<Vec<u8>, postcard::Error>)
    ensures
        match r {
            Ok(bytes) => postcard_cobs(pairs@) == Some(bytes@) && postcard_cobs_decoded(bytes@)
                == Some(pairs@),
            Err(_) => postcard_cobs(pairs@) is None,
        },
{
    postcard::to_allocvec_cobs(pairs)
}

/// Decodes COBS-framed `postcard` bytes as a list of pairs.
///
/// Trusted: the body copies the bytes, because the decoder works in place,
/// and calls `postcard::from_bytes_cobs`. Whether it succeeds and what it
/// returns depend on the bytes alone; the contract names that outcome.
#[verifier::external_body]
fn decode_pairs(bytes: &[u8]) -> (r: Result<Vec<(u64, u64)>, postcard::Error>)
    ensures
        match r {
            Ok(pairs) => postcard_cobs_decoded(bytes@) == Some(pairs@),
            Err(_) => postcard_cobs_decoded(bytes@) is None,
        },
{
    let mut buffer = bytes.to_vec();
    postcard::from_bytes_cobs(&mut buffer)
}

/// Compresses data as a zlib stream.
///
/// Trusted: the body feeds the data to a `flate2::write::ZlibEncoder` at the
/// default level over an empty vector and finishes it. Whether it succeeds
/// and what it returns depend on the data alone; the contract names that
/// outcome and adds that `flate2` recovers the data from the stream.
#[verifier::external_body]
fn compress(data: &[u8]) -> (r: Result<Vec<u8>, std::io::Error>)
    ensures
        match r {
            Ok(stream) => zlib_stream(data@) == Some(stream@) && zlib_inflated(stream@) == Some(
                data@,
            ),
            Err(_) => zlib_stream(data@) is None,
        },
{
    let mut encoder = flate2::write::ZlibEncoder::new(Vec::new(), flate2::Compression::default());
    encoder.write_all(data)?;
    encoder.finish()
}

/// Recovers the data of a zlib stream.
///
/// Trusted: the body feeds the stream to a `flate2::write::ZlibDecoder`
/// over an empty vector and finishes it. Whether it succeeds and what it
/// returns depend on the stream alone; the contract names that outcome.
#[verifier::external_body]
fn decompress(stream: &[u8]) -> (r: Result<Vec<u8>, std::io::Error>)
    ensures
        match r {
            Ok(data) => zlib_inflated(stream@) == Some(data@),
            Err(_) => zlib_inflated(stream@) is None,
        },
{
    let mut decoder = flate2::write::ZlibDecoder::new(Vec::new());
    decoder.write_all(stream)?;
    decoder.finish()
}

/// The pairs that stand for records.
pub open spec fn pairs_of(records: Seq<DocOffset>) -> Seq<(u64, u64)> {
    Seq::new(records.len(), |i: int| (records[i].offset, records[i].size))
}

/// The records that pairs stand for.
pub open spec fn records_of(pairs: Seq<(u64, u64)>) -> Seq<DocOffset> {
    Seq::new(pairs.len(), |i: int| DocOffset { offset: pairs[i].0, size: pairs[i].1 })
}

/// The stored form of an index, where the encoder and the compressor
/// both give one.
pub open spec fn stored(records: Seq<DocOffset>) -> Option<Seq<u8>> {
    match postcard_cobs(pairs_of(records)) {
        Some(framed) => zlib_stream(framed),
        None => None,
    }
}

/// What stored bytes are read back as.
pub open spec fn loaded(bytes: Seq<u8>) -> Result<Seq<DocOffset>, IndexError> {
    match zlib_inflated(bytes) {
        None => Err(IndexError::Corrupt),
        Some(raw) => match postcard_cobs_decoded(raw) {
            None => Err(IndexError::Corrupt),
            Some(pairs) => Ok(records_of(pairs)),
        },
    }
}

/// Records and the pairs that stand for them are the same list.
pub proof fn lemma_pairs_round_trip(records: Seq<DocOffset>)
    ensures
        records_of(pairs_of(records)) == records,
{
    assert(records_of(pairs_of(records)) =~= records);
}

/// The pairs that stand for records.
pub fn to_pairs(records: &Vec<DocOffset>) -> (pairs: Vec<(u64, u64)>)
    ensures
        pairs@ == pairs_of(records@),
{
    let mut pairs: Vec<(u64, u64)> = Vec::new();
    let mut i: usize = 0;
    while i < records.len()
        invariant
            i <= records@.len(),
            pairs@.len() == i,
            forall|k: int|
                0 <= k < i ==> #[trigger] pairs@[k] == (records@[k].offset, records@[k].size),
        decreases records@.len() - i,
    {
        pairs.push((records[i].offset, records[i].size));
        i = i + 1;
    }
    assert(pairs@ =~= pairs_of(records@));
    pairs
}

/// The records that pairs stand for.
pub fn from_pairs(pairs: &Vec<(u64, u64)>) -> (records: Vec<DocOffset>)
    ensures
        records@ == records_of(pairs@),
{
    let mut records: Vec<DocOffset> = Vec::new();
    let mut i: usize = 0;
    while i < pairs.len()
        invariant
            i <= pairs@.len(),
            records@.len() == i,
            forall|k: int|
                0 <= k < i ==> #[trigger] records@[k] == (DocOffset {
                    offset: pairs@[k].0,
                    size: pairs@[k].1,
                }),
        decreases pairs@.len() - i,
    {
        records.push(DocOffset { offset: pairs[i].0, size: pairs[i].1 });
        i = i + 1;
    }
    assert(records@ =~= records_of(pairs@));
    records
}

/// Brings an index into its stored form.
///
/// The bytes come back exactly where the index has a stored form. They are
/// that form, and reading them back gives the same records, the empty
/// index included. Where the encoder or the compressor gives nothing, so
/// that there is no stored form, the index is refused.
pub fn save_index(records: &Vec<DocOffset>) -> (r: Result<Vec<u8>, IndexError>)
    ensures
        match r {
            Ok(bytes) => stored(records@) == Some(bytes@) && loaded(bytes@) == Ok::<
                Seq<DocOffset>,
                IndexError,
            >(records@),
            Err(e) => e == IndexError::Encode && stored(records@) is None,
        },
{
    let pairs = to_pairs(records);
    let framed = match encode_pairs(&pairs) {
        Ok(framed) => framed,
        Err(_) => {
            return Err(IndexError::Encode);
        },
    };
    match compress(framed.as_slice()) {
        Ok(bytes) => {
            proof {
                lemma_pairs_round_trip(records@);
            }
            Ok(bytes)
        },
        Err(_) => Err(IndexError::Encode),
    }
}

/// Reads an index back from its stored form.
pub fn load_index(bytes: &[u8]) -> (r: Result<Vec<DocOffset>, IndexError>)
    ensures
        match r {
            Ok(records) => loaded(bytes@) == Ok::<Seq<DocOffset>, IndexError>(records@),
            Err(e) => loaded(bytes@) == Err::<Seq<DocOffset>, IndexError>(e),
        },
{
    let raw = match decompress(bytes) {
        Ok(raw) => raw,
        Err(_) => {
            return Err(IndexError::Corrupt);
        },
    };
    match decode_pairs(raw.as_slice()) {
        Ok(pairs) => Ok(from_pairs(&pairs)),
        Err(_) => Err(IndexError::Corrupt),
    }
}

/// Decides whether a stored index is used for a source of `length` bytes.
///
/// No checksum ties a stored index to its source, so the index is held
/// against the length of the source: it is used only where it was read
/// back whole and its records tile the source from the first byte to the
/// last. Otherwise there is no usable index and the source is scanned
/// afresh.
pub fn usable_index(loaded: Result<Vec<DocOffset>, IndexError>, length: u64) -> (r: Option<
    Vec<DocOffset>,
>)
    ensures
        r == (match loaded {
            Ok(records) => if tiles(records@, 0, length as int) {
                Some(records)
            } else {
                None
            },
            Err(_) => None,
        }),
{
    match loaded {
        Ok(records) => {
            if covers(&records, length) {
                Some(records)
            } else {
                None
            }
        },
        Err(_) => None,
    }
}

} // verus!
