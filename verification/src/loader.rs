//! Loading single documents from the source file: cutting out the bytes
//! that a record points at, and handing them to the decoder of the
//! document format.

use crate::record::{lemma_tiles_bounds, tiles, DocOffset};
use crate::text::{decimal, unsigned_string};
use vstd::prelude::*;

verus! {

/// Why a document could not be loaded.
#[derive(Clone, Copy, Debug, PartialEq, Eq, Structural)]
pub enum LoadError {
    /// The source holds fewer bytes than the record declares.
    Truncated { offset: u64, size: u64 },
    /// The bytes of the record do not decode as a document.
    Malformed { offset: u64 },
}

impl LoadError {
    /// The message for this failure, which names the offset of the record
    /// that it happened on.
    pub open spec fn text(self) -> Seq<char> {
        match self {
            LoadError::Truncated { offset, size } => "truncated read at offset "@ + decimal(
                offset as int,
            ) + ": the record declares "@ + decimal(size as int) + " bytes"@,
            LoadError::Malformed { offset } => "malformed document at offset "@ + decimal(
                offset as int,
            ),
        }
    }

    /// The message for this failure.
    pub fn message(&self) -> (text: String)
        ensures
            text@ == self.text(),
    {
        match self {
            LoadError::Truncated { offset, size } => {
                let mut text = String::from_str("truncated read at offset ");
                text.append(unsigned_string(*offset).as_str());
                text.append(": the record declares ");
                text.append(unsigned_string(*size).as_str());
                text.append(" bytes");
                text
            },
            LoadError::Malformed { offset } => {
                let mut text = String::from_str("malformed document at offset ");
                text.append(unsigned_string(*offset).as_str());
                text
            },
        }
    }
}

/// A decoded document of the `bson` crate, carried through opaquely.
#[verifier::external_type_specification]
#[verifier::external_body]
pub struct ExBsonDocument(bson::Document);

/// The decoding error of the `bson` crate, carried through opaquely.
#[verifier::external_type_specification]
#[verifier::external_body]
pub struct ExBsonError(bson::de::Error);

/// Whether the `bson` crate decodes the bytes as one document.
pub uninterp spec fn bson_decodes(bytes: Seq<u8>) -> bool;

/// Decodes the bytes of one document.
///
/// Trusted: the body is one call of `bson::Document::from_reader` on the
/// bytes. Nothing is claimed of the document that comes back; the contract
/// only names whether the bytes decode, which depends on the bytes alone.
#[verifier::external_body]
fn decode_bytes(bytes: &[u8]) -> (r: Result<bson::Document, bson::de::Error>)
    ensures
        r is Ok == bson_decodes(bytes@),
{
    bson::Document::from_reader(bytes)
}

/// The bytes of the document that a record points at.
pub open spec fn byte_range(data: Seq<u8>, record: DocOffset) -> Result<Seq<u8>, LoadError> {
    if record.end() <= data.len() {
        Ok(data.subrange(record.offset as int, record.end()))
    } else {
        Err(LoadError::Truncated { offset: record.offset, size: record.size })
    }
}

/// Where to seek and how many bytes to read for a record, in a source of
/// `length` bytes.
pub open spec fn read_window(record: DocOffset, length: u64) -> Result<(u64, usize), LoadError> {
    if record.end() <= length && record.size <= usize::MAX {
        Ok((record.offset, record.size as usize))
    } else {
        Err(LoadError::Truncated { offset: record.offset, size: record.size })
    }
}

/// Where to seek and how many bytes to read for a record, in a source of
/// `length` bytes.
pub fn read_plan(record: &DocOffset, length: u64) -> (r: Result<(u64, usize), LoadError>)
    ensures
        r == read_window(*record, length),
{
    let truncated = LoadError::Truncated { offset: record.offset, size: record.size };
    match record.checked_end() {
        Some(end) => {
            if end <= length && record.size <= usize::MAX as u64 {
                Ok((record.offset, record.size as usize))
            } else {
                Err(truncated)
            }
        },
        None => Err(truncated),
    }
}

/// The bytes of the document that a record points at.
pub fn extract(data: &[u8], record: &DocOffset) -> (r: Result<Vec<u8>, LoadError>)
    ensures
        match r {
            Ok(bytes) => byte_range(data@, *record) == Ok::<Seq<u8>, LoadError>(bytes@),
            Err(e) => byte_range(data@, *record) == Err::<Seq<u8>, LoadError>(e),
        },
{
    let truncated = LoadError::Truncated { offset: record.offset, size: record.size };
    let length = data.len();
    let end = match record.checked_end() {
        Some(end) => end,
        None => {
            return Err(truncated);
        },
    };
    if end > length as u64 {
        return Err(truncated);
    }
    let start: usize = record.offset as usize;
    let stop: usize = end as usize;
    let mut bytes: Vec<u8> = Vec::new();
    let mut i: usize = start;
    while i < stop
        invariant
            start <= i <= stop <= data@.len(),
            bytes@ == data@.subrange(start as int, i as int),
        decreases stop - i,
    {
        bytes.push(data[i]);
        assert(data@.subrange(start as int, i + 1) =~= data@.subrange(start as int, i as int).push(
            data@[i as int],
        ));
        i = i + 1;
    }
    Ok(bytes)
}

/// The bytes of each document of a batch: one outcome for each record, in
/// the order of the records. A record that cannot be loaded does not touch
/// the outcome of another.
pub fn load_ranges(data: &[u8], records: &Vec<DocOffset>) -> (outcomes: Vec<
    Result<Vec<u8>, LoadError>,
>)
    ensures
        outcomes@.len() == records@.len(),
        forall|k: int|
            0 <= k < records@.len() ==> match #[trigger] outcomes@[k] {
                Ok(bytes) => byte_range(data@, records@[k]) == Ok::<Seq<u8>, LoadError>(bytes@),
                Err(e) => byte_range(data@, records@[k]) == Err::<Seq<u8>, LoadError>(e),
            },
{
    let mut outcomes: Vec<Result<Vec<u8>, LoadError>> = Vec::new();
    let mut i: usize = 0;
    while i < records.len()
        invariant
            i <= records@.len(),
            outcomes@.len() == i,
            forall|k: int|
                0 <= k < i ==> match #[trigger] outcomes@[k] {
                    Ok(bytes) => byte_range(data@, records@[k]) == Ok::<Seq<u8>, LoadError>(
                        bytes@,
                    ),
                    Err(e) => byte_range(data@, records@[k]) == Err::<Seq<u8>, LoadError>(e),
                },
        decreases records@.len() - i,
    {
        let outcome = extract(data, &records[i]);
        outcomes.push(outcome);
        i = i + 1;
    }
    outcomes
}

/// Decodes the bytes that were read for a record. Bytes that do not decode
/// make a malformed document at the record's offset.
pub fn decode(record: &DocOffset, bytes: &[u8]) -> (r: Result<bson::Document, LoadError>)
    ensures
        r is Ok == bson_decodes(bytes@),
        r matches Err(e) ==> e == (LoadError::Malformed { offset: record.offset }),
{
    settle_decoded(record, decode_bytes(bytes))
}

/// Loads the documents of a batch from a source held in memory: one outcome
/// for each record, in the order of the records. A record fails as
/// truncated where the source ends before its last byte, and as malformed
/// where its bytes do not decode; neither touches the outcome of another
/// record.
pub fn load_docs(data: &[u8], records: &Vec<DocOffset>) -> (outcomes: Vec<
    Result<bson::Document, LoadError>,
>)
    ensures
        outcomes@.len() == records@.len(),
        forall|k: int|
            0 <= k < records@.len() ==> loaded_as(
                data@,
                records@[k],
                (#[trigger] outcomes@[k]),
            ),
{
    let mut outcomes: Vec<Result<bson::Document, LoadError>> = Vec::new();
    let mut i: usize = 0;
    while i < records.len()
        invariant
            i <= records@.len(),
            outcomes@.len() == i,
            forall|k: int|
                0 <= k < i ==> loaded_as(data@, records@[k], (#[trigger] outcomes@[k])),
        decreases records@.len() - i,
    {
        let outcome = match extract(data, &records[i]) {
            Ok(bytes) => decode(&records[i], bytes.as_slice()),
            Err(e) => Err(e),
        };
        outcomes.push(outcome);
        i = i + 1;
    }
    outcomes
}

/// Whether `outcome` is what loading `record` from `data` may give: the
/// truncation error where the source is too short, else a document where
/// the bytes decode and the malformed-document error where they do not.
pub open spec fn loaded_as(
    data: Seq<u8>,
    record: DocOffset,
    outcome: Result<bson::Document, LoadError>,
) -> bool {
    match byte_range(data, record) {
        Err(e) => outcome == Err::<bson::Document, LoadError>(e),
        Ok(bytes) => match outcome {
            Ok(_) => bson_decodes(bytes),
            Err(e) => !bson_decodes(bytes) && e == (LoadError::Malformed {
                offset: record.offset,
            }),
        },
    }
}

/// What becomes of a record once its bytes went through the decoder: the
/// decoded document, or the record's offset as the place of a malformed
/// document.
pub fn settle_decoded<T, E>(record: &DocOffset, decoded: Result<T, E>) -> (r: Result<T, LoadError>)
    ensures
        r == (match decoded {
            Ok(document) => Ok::<T, LoadError>(document),
            Err(_) => Err::<T, LoadError>(LoadError::Malformed { offset: record.offset }),
        }),
{
    match decoded {
        Ok(document) => Ok(document),
        Err(_) => Err(LoadError::Malformed { offset: record.offset }),
    }
}

/// The byte ranges of the records, one after the other.
pub open spec fn joined(data: Seq<u8>, records: Seq<DocOffset>) -> Seq<u8>
    decreases records.len(),
{
    if records.len() == 0 {
        Seq::empty()
    } else {
        data.subrange(records[0].offset as int, records[0].end()) + joined(
            data,
            records.drop_first(),
        )
    }
}

/// Records that tile a stretch of the source give back that stretch: every
/// record loads, and the loaded ranges, one after the other, are the bytes
/// of the stretch.
pub proof fn lemma_tiles_reconstruct(data: Seq<u8>, records: Seq<DocOffset>, start: int, end: int)
    requires
        0 <= start,
        end <= data.len(),
        tiles(records, start, end),
    ensures
        forall|k: int| 0 <= k < records.len() ==> byte_range(data, #[trigger] records[k]) is Ok,
        joined(data, records) == data.subrange(start, end),
    decreases records.len(),
{
    lemma_tiles_bounds(records, start, end);
    if records.len() == 0 {
        assert(data.subrange(start, end) =~= Seq::empty());
    } else {
        let rest = records.drop_first();
        lemma_tiles_bounds(rest, records[0].end(), end);
        lemma_tiles_reconstruct(data, rest, records[0].end(), end);
        assert forall|k: int| 0 <= k < records.len() implies byte_range(
            data,
            #[trigger] records[k],
        ) is Ok by {
            if k > 0 {
                assert(records[k] == rest[k - 1]);
            }
        }
        assert(data.subrange(start, records[0].end()) + data.subrange(records[0].end(), end)
            =~= data.subrange(start, end));
    }
}

} // verus!
