//! Finding document boundaries from the length prefixes alone.
//!
//! Every document starts with its own length as a signed 32-bit
//! little-endian integer, prefix included. The scanner reads a prefix,
//! records where the document stands, skips the rest of it and goes on with
//! the next prefix until the stream ends.

use crate::record::{lemma_tiles_bounds, tiles, DocOffset, PREFIX_LEN};
use crate::text::{decimal, decimal_string, unsigned_string};
use neoncore::streams::advanced_readers::PatternReader;
use vstd::prelude::*;

verus! {

/// Why a scan stopped.
#[derive(Clone, Copy, Debug, PartialEq, Eq, Structural)]
pub enum ScanError {
    /// A document declares a length below that of its own prefix.
    Malformed { offset: u64, size: i32 },
    /// The stream ends inside the document that starts at `offset`.
    UnexpectedEof { offset: u64 },
}

impl ScanError {
    /// The message for this failure, which names the offset of the
    /// document that it happened on.
    pub open spec fn text(self) -> Seq<char> {
        match self {
            ScanError::Malformed { offset, size } => "malformed document at offset "@ + decimal(
                offset as int,
            ) + ": declared length "@ + decimal(size as int),
            ScanError::UnexpectedEof { offset } => "unexpected end of input in the document at offset "@
                + decimal(offset as int),
        }
    }

    /// The message for this failure.
    pub fn message(&self) -> (text: String)
        ensures
            text@ == self.text(),
    {
        match self {
            ScanError::Malformed { offset, size } => {
                let mut text = String::from_str("malformed document at offset ");
                text.append(unsigned_string(*offset).as_str());
                text.append(": declared length ");
                text.append(decimal_string(*size as i64).as_str());
                text
            },
            ScanError::UnexpectedEof { offset } => {
                let mut text = String::from_str(
                    "unexpected end of input in the document at offset ",
                );
                text.append(unsigned_string(*offset).as_str());
                text
            },
        }
    }
}

/// The signed 32-bit integer that four bytes spell, least significant byte
/// first.
pub open spec fn le_i32(bytes: Seq<u8>) -> int {
    let unsigned = bytes[0] + bytes[1] * 0x100 + bytes[2] * 0x1_0000 + bytes[3] * 0x100_0000;
    if unsigned >= 0x8000_0000 {
        unsigned - 0x1_0000_0000
    } else {
        unsigned
    }
}

/// The length that the document at `pos` declares.
pub open spec fn declared(data: Seq<u8>, pos: int) -> int {
    le_i32(data.subrange(pos, pos + 4))
}

/// `records` followed by what a result holds, or the result's error.
pub open spec fn after(records: Seq<DocOffset>, rest: Result<Seq<DocOffset>, ScanError>)
    -> Result<Seq<DocOffset>, ScanError> {
    match rest {
        Ok(more) => Ok(records + more),
        Err(e) => Err(e),
    }
}

/// The records of the documents of `data` from `pos` on.
pub open spec fn scan_from(data: Seq<u8>, pos: int) -> Result<Seq<DocOffset>, ScanError>
    decreases data.len() - pos,
{
    if pos < 0 || pos >= data.len() {
        Ok(Seq::empty())
    } else if pos + PREFIX_LEN > data.len() {
        Err(ScanError::UnexpectedEof { offset: pos as u64 })
    } else {
        let size = declared(data, pos);
        if size < PREFIX_LEN {
            Err(ScanError::Malformed { offset: pos as u64, size: size as i32 })
        } else if pos + size > data.len() {
            Err(ScanError::UnexpectedEof { offset: pos as u64 })
        } else {
            after(
                seq![DocOffset { offset: pos as u64, size: size as u64 }],
                scan_from(data, pos + size),
            )
        }
    }
}

/// The boundary index of a whole file.
pub open spec fn scan(data: Seq<u8>) -> Result<Seq<DocOffset>, ScanError> {
    scan_from(data, 0)
}

/// Reads the length that a prefix declares.
///
/// Trusted: the body asks `neoncore`'s little-endian `PatternReader` for one
/// signed 32-bit integer from the four bytes and takes it out of the
/// `AnyInt` that comes back. With four bytes at hand the read cannot come
/// short, and an `AnyInt::I32` converts to `i32` without loss, so the
/// result is the integer that the bytes spell.
#[verifier::external_body]
fn read_length(prefix: &[u8; 4]) -> (size: i32)
    ensures
        size == le_i32(prefix@),
{
    let mut pattern = PatternReader::new_le();
    pattern.add_i32();
    let values = pattern.read_pattern(&prefix[..]).unwrap();
    i32::try_from(values[0]).unwrap()
}

/// What the scanner asks of whoever holds the stream.
#[derive(Clone, Copy, Debug, PartialEq, Eq, Structural)]
pub enum ScanStep {
    /// Read the four bytes at `offset` and hand them to [`Scanner::accept`].
    ReadPrefix { offset: u64 },
    /// The stream is exhausted: call [`Scanner::finish`] and put the stream
    /// where the scanner then stands.
    Finished,
    /// The scan cannot go on.
    Failed(ScanError),
}

/// A scan in progress over a stream of known length.
pub struct Scanner {
    length: u64,
    position: u64,
    records: Vec<DocOffset>,
}

impl Scanner {
    /// Length of the stream.
    pub closed spec fn length(&self) -> u64 {
        self.length
    }

    /// Where the stream stands.
    pub closed spec fn position(&self) -> u64 {
        self.position
    }

    /// The records found so far.
    pub closed spec fn records(&self) -> Seq<DocOffset> {
        self.records@
    }

    /// The step that the scanner is at.
    pub open spec fn step(&self) -> ScanStep {
        if self.position() == self.length() {
            ScanStep::Finished
        } else if self.length() - self.position() < PREFIX_LEN {
            ScanStep::Failed(ScanError::UnexpectedEof { offset: self.position() })
        } else {
            ScanStep::ReadPrefix { offset: self.position() }
        }
    }

    /// The scanner stands in a scan of `data`: what it has found, followed
    /// by what is still to be found from its position, is the index of
    /// `data`.
    pub open spec fn follows(&self, data: Seq<u8>) -> bool {
        &&& self.length() == data.len()
        &&& self.position() <= self.length()
        &&& scan(data) == after(self.records(), scan_from(data, self.position() as int))
    }

    /// A scanner at the start of a stream of `length` bytes.
    pub fn new(length: u64) -> (scanner: Scanner)
        ensures
            scanner.length() == length,
            scanner.position() == 0,
            scanner.records() == Seq::<DocOffset>::empty(),
            forall|data: Seq<u8>| data.len() == length ==> #[trigger] scanner.follows(data),
    {
        let scanner = Scanner { length, position: 0, records: Vec::new() };
        assert forall|data: Seq<u8>| data.len() == length implies #[trigger] scanner.follows(
            data,
        ) by {
            assert(after(scanner.records(), scan_from(data, 0)) == scan(data)) by {
                match scan_from(data, 0) {
                    Ok(more) => {
                        assert(Seq::<DocOffset>::empty() + more =~= more);
                    },
                    Err(_) => {},
                }
            }
        }
        scanner
    }

    /// The step that the scanner is at.
    pub fn next_step(&self) -> (step: ScanStep)
        ensures
            step == self.step(),
    {
        if self.position == self.length {
            ScanStep::Finished
        } else if self.position > self.length || self.length - self.position < PREFIX_LEN {
            ScanStep::Failed(ScanError::UnexpectedEof { offset: self.position })
        } else {
            ScanStep::ReadPrefix { offset: self.position }
        }
    }

    /// Where the stream stands.
    pub fn stream_position(&self) -> (position: u64)
        ensures
            position == self.position(),
    {
        self.position
    }

    /// Takes the prefix that was read at the position the scanner asked
    /// for. On success the document is recorded and the scanner stands at
    /// the next prefix. Where the scanner did not ask for a prefix, because
    /// the stream is exhausted or ends inside a prefix, there is none to
    /// take: that is an unexpected end at the scanner's position.
    pub fn accept(&mut self, prefix: &[u8; 4]) -> (r: Result<(), ScanError>)
        ensures
            final(self).length() == old(self).length(),
            match r {
                Ok(()) => {
                    &&& old(self).step() is ReadPrefix
                    &&& le_i32(prefix@) >= PREFIX_LEN
                    &&& final(self).position() == old(self).position() + le_i32(prefix@)
                    &&& final(self).records() == old(self).records().push(
                        DocOffset {
                            offset: old(self).position(),
                            size: le_i32(prefix@) as u64,
                        },
                    )
                },
                Err(e) => {
                    &&& final(self).position() == old(self).position()
                    &&& final(self).records() == old(self).records()
                    &&& e == (if old(self).step() is ReadPrefix && le_i32(prefix@) < PREFIX_LEN {
                        ScanError::Malformed {
                            offset: old(self).position(),
                            size: le_i32(prefix@) as i32,
                        }
                    } else {
                        ScanError::UnexpectedEof { offset: old(self).position() }
                    })
                    &&& !(old(self).step() is ReadPrefix) || le_i32(prefix@) < PREFIX_LEN || old(
                        self,
                    ).position() + le_i32(prefix@) > old(self).length()
                },
            },
            forall|data: Seq<u8>|
                #![trigger old(self).follows(data)]
                old(self).step() is ReadPrefix && old(self).follows(data) && data.subrange(
                    old(self).position() as int,
                    old(self).position() + 4,
                ) == prefix@ ==> match r {
                    Ok(()) => final(self).follows(data),
                    Err(e) => scan(data) == Err::<Seq<DocOffset>, ScanError>(e),
                },
    {
        match self.next_step() {
            ScanStep::ReadPrefix { offset: _ } => {},
            _ => {
                return Err(ScanError::UnexpectedEof { offset: self.position });
            },
        }
        let size = read_length(prefix);
        if size < 4 {
            return Err(ScanError::Malformed { offset: self.position, size });
        }
        let size = size as u64;
        if size > self.length - self.position {
            return Err(ScanError::UnexpectedEof { offset: self.position });
        }
        let record = DocOffset { offset: self.position, size };
        let ghost before = self.records@;
        self.records.push(record);
        self.position = self.position + size;
        proof {
            assert forall|data: Seq<u8>|
                #![trigger old(self).follows(data)]
                old(self).follows(data) && data.subrange(
                    old(self).position() as int,
                    old(self).position() + 4,
                ) == prefix@ implies self.follows(data) by {
                let rest = scan_from(data, self.position as int);
                match rest {
                    Ok(more) => {
                        assert(before + (seq![record] + more) =~= before.push(record) + more);
                    },
                    Err(_) => {},
                }
            }
        }
        Ok(())
    }

    /// Ends the scan: hands out the records and puts the stream back to its
    /// start. Where the scanner stood at the end of a stream that it
    /// followed, the records are the index of that stream.
    pub fn finish(&mut self) -> (records: Vec<DocOffset>)
        ensures
            records@ == old(self).records(),
            final(self).length() == old(self).length(),
            final(self).position() == 0,
            final(self).records() == Seq::<DocOffset>::empty(),
            forall|data: Seq<u8>|
                #![trigger old(self).follows(data)]
                old(self).step() is Finished && old(self).follows(data) ==> scan(data) == Ok::<
                    Seq<DocOffset>,
                    ScanError,
                >(records@),
    {
        proof {
            assert forall|data: Seq<u8>|
                #![trigger self.follows(data)]
                self.step() is Finished && self.follows(data) implies scan(data) == Ok::<
                Seq<DocOffset>,
                ScanError,
            >(self.records()) by {
                assert(self.records() + Seq::<DocOffset>::empty() =~= self.records());
            }
        }
        let mut records: Vec<DocOffset> = Vec::new();
        std::mem::swap(&mut self.records, &mut records);
        self.position = 0;
        records
    }
}

/// The four bytes at `at`.
pub(crate) fn prefix_at(data: &[u8], at: usize) -> (prefix: [u8; 4])
    requires
        at + 4 <= data@.len(),
    ensures
        prefix@ == data@.subrange(at as int, at + 4),
{
    let prefix: [u8; 4] = [data[at], data[at + 1], data[at + 2], data[at + 3]];
    assert(prefix@ =~= data@.subrange(at as int, at + 4));
    prefix
}

/// Builds the boundary index of a file held in memory.
pub fn index_file(data: &[u8]) -> (r: Result<Vec<DocOffset>, ScanError>)
    ensures
        match r {
            Ok(records) => scan(data@) == Ok::<Seq<DocOffset>, ScanError>(records@) && tiles(
                records@,
                0,
                data@.len() as int,
            ),
            Err(e) => scan(data@) == Err::<Seq<DocOffset>, ScanError>(e),
        },
{
    let mut scanner = Scanner::new(data.len() as u64);
    loop
        invariant
            data@.len() <= usize::MAX,
            scanner.follows(data@),
        decreases data@.len() - scanner.position(),
    {
        match scanner.next_step() {
            ScanStep::Finished => {
                let ghost done = scanner;
                assert(done.follows(data@));
                let records = scanner.finish();
                proof {
                    lemma_scan_exact(data@, records@);
                }
                return Ok(records);
            },
            ScanStep::Failed(e) => {
                return Err(e);
            },
            ScanStep::ReadPrefix { offset } => {
                let at: usize = offset as usize;
                let prefix = prefix_at(data, at);
                let ghost before = scanner;
                assert(before.follows(data@));
                match scanner.accept(&prefix) {
                    Ok(()) => {},
                    Err(e) => {
                        return Err(e);
                    },
                }
            },
        }
    }
}

/// Each record has the length that the prefix at its offset declares.
pub open spec fn matches_prefixes(data: Seq<u8>, records: Seq<DocOffset>) -> bool {
    forall|k: int|
        0 <= k < records.len() ==> declared(data, (#[trigger] records[k]).offset as int)
            == records[k].size
}

/// What a scan from `pos` returns tiles the rest of the stream and has the
/// declared lengths.
proof fn lemma_scan_sound(data: Seq<u8>, pos: int, records: Seq<DocOffset>)
    requires
        0 <= pos <= data.len() <= u64::MAX,
        scan_from(data, pos) == Ok::<Seq<DocOffset>, ScanError>(records),
    ensures
        tiles(records, pos, data.len() as int),
        matches_prefixes(data, records),
    decreases data.len() - pos,
{
    if pos < data.len() {
        let size = declared(data, pos);
        let rest = scan_from(data, pos + size)->Ok_0;
        let first = DocOffset { offset: pos as u64, size: size as u64 };
        lemma_scan_sound(data, pos + size, rest);
        assert(records =~= seq![first] + rest);
        assert(records.drop_first() =~= rest);
        assert forall|k: int| 0 <= k < records.len() implies declared(
            data,
            (#[trigger] records[k]).offset as int,
        ) == records[k].size by {
            if k > 0 {
                assert(records[k] == rest[k - 1]);
            }
        }
    } else {
        assert(records =~= Seq::empty());
    }
}

/// Records that tile the rest of the stream with the declared lengths are
/// what a scan from `pos` returns.
proof fn lemma_scan_complete(data: Seq<u8>, pos: int, records: Seq<DocOffset>)
    requires
        0 <= pos,
        data.len() <= u64::MAX,
        tiles(records, pos, data.len() as int),
        matches_prefixes(data, records),
    ensures
        scan_from(data, pos) == Ok::<Seq<DocOffset>, ScanError>(records),
    decreases records.len(),
{
    lemma_tiles_bounds(records, pos, data.len() as int);
    if records.len() == 0 {
        assert(records =~= Seq::empty());
    } else {
        let first = records[0];
        let rest = records.drop_first();
        lemma_tiles_bounds(rest, first.end(), data.len() as int);
        assert forall|k: int| 0 <= k < rest.len() implies declared(
            data,
            (#[trigger] rest[k]).offset as int,
        ) == rest[k].size by {
            assert(rest[k] == records[k + 1]);
        }
        lemma_scan_complete(data, first.end(), rest);
        assert(declared(data, pos) == first.size);
        assert(seq![first] + rest =~= records);
    }
}

/// A scan succeeds exactly on a stream that is made of whole documents, and
/// then returns one record for each document, with the offset at which the
/// document starts and the length that its prefix declares: the records
/// tile the stream from its first byte to its last.
pub proof fn lemma_scan_exact(data: Seq<u8>, records: Seq<DocOffset>)
    requires
        data.len() <= u64::MAX,
    ensures
        scan(data) == Ok::<Seq<DocOffset>, ScanError>(records) <==> tiles(
            records,
            0,
            data.len() as int,
        ) && matches_prefixes(data, records),
{
    if scan(data) == Ok::<Seq<DocOffset>, ScanError>(records) {
        lemma_scan_sound(data, 0, records);
    }
    if tiles(records, 0, data.len() as int) && matches_prefixes(data, records) {
        lemma_scan_complete(data, 0, records);
    }
}

} // verus!
