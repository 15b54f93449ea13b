//! Boundary records: where each document starts and how long it is.

use vstd::prelude::*;

verus! {

/// Number of bytes taken by the length prefix of a document.
pub const PREFIX_LEN: u64 = 4;

/// The location of one document inside the source file.
///
/// `offset` is the position of the first byte of the length prefix and
/// `size` the length of the whole document, prefix included.
#[derive(Clone, Copy, Debug, PartialEq, Eq, Structural)]
pub struct DocOffset {
    pub offset: u64,
    pub size: u64,
}

impl DocOffset {
    /// Position one past the last byte of the document.
    pub open spec fn end(self) -> int {
        self.offset + self.size
    }

    /// The position one past the last byte, or `None` where it does not fit
    /// in 64 bits.
    pub fn checked_end(&self) -> (r: Option<u64>)
        ensures
            r == (if self.end() <= u64::MAX { Some(self.end() as u64) } else { None }),
    {
        self.offset.checked_add(self.size)
    }
}

/// The records tile `[start, end)`: the first begins at `start`, each next
/// one begins where its predecessor ends, and the last ends at `end`.
pub open spec fn tiles(records: Seq<DocOffset>, start: int, end: int) -> bool
    decreases records.len(),
{
    if records.len() == 0 {
        start == end
    } else {
        &&& records[0].offset == start
        &&& records[0].size >= PREFIX_LEN
        &&& tiles(records.drop_first(), records[0].end(), end)
    }
}

/// Records that tile a range end where the range ends, and not before it
/// starts.
pub proof fn lemma_tiles_bounds(records: Seq<DocOffset>, start: int, end: int)
    requires
        tiles(records, start, end),
    ensures
        start <= end,
        records.len() > 0 ==> records[0].offset == start && records.last().end() == end,
        records.len() > 0 ==> start + PREFIX_LEN <= end,
    decreases records.len(),
{
    if records.len() > 0 {
        let rest = records.drop_first();
        lemma_tiles_bounds(rest, records[0].end(), end);
        if rest.len() > 0 {
            assert(rest.last() == records.last());
        }
    }
}

/// Records that tile a range stand in strictly increasing offset order, and
/// each one starts where the one before it ends: no gap and no overlap.
pub proof fn lemma_tiles_ordered(records: Seq<DocOffset>, start: int, end: int)
    requires
        tiles(records, start, end),
    ensures
        forall|i: int|
            0 <= i < records.len() ==> (#[trigger] records[i]).size >= PREFIX_LEN && start
                <= records[i].offset && records[i].end() <= end,
        forall|i: int|
            0 <= i < records.len() - 1 ==> (#[trigger] records[i]).end() == records[i
                + 1].offset,
        forall|i: int, j: int|
            0 <= i < j < records.len() ==> (#[trigger] records[i]).offset < (
            #[trigger] records[j]).offset,
    decreases records.len(),
{
    if records.len() > 0 {
        let rest = records.drop_first();
        lemma_tiles_ordered(rest, records[0].end(), end);
        lemma_tiles_bounds(rest, records[0].end(), end);
        assert forall|i: int| 0 <= i < records.len() implies (#[trigger] records[i]).size
            >= PREFIX_LEN && start <= records[i].offset && records[i].end() <= end by {
            if i > 0 {
                assert(records[i] == rest[i - 1]);
            }
        }
        assert forall|i: int| 0 <= i < records.len() - 1 implies (#[trigger] records[i]).end()
            == records[i + 1].offset by {
            if i > 0 {
                assert(records[i] == rest[i - 1]);
                assert(records[i + 1] == rest[i]);
            } else {
                assert(records[1] == rest[0]);
            }
        }
        assert forall|i: int, j: int| 0 <= i < j < records.len() implies (
        #[trigger] records[i]).offset < (#[trigger] records[j]).offset by {
            assert(records[j] == rest[j - 1]);
            if i > 0 {
                assert(records[i] == rest[i - 1]);
            }
        }
    }
}

/// Whether an index covers a source of `length` bytes: its records tile
/// the source from the first byte to the last. An index that was stored
/// for a source of another length does not.
pub fn covers(records: &Vec<DocOffset>, length: u64) -> (r: bool)
    ensures
        r == tiles(records@, 0, length as int),
{
    let mut at: u64 = 0;
    let mut i: usize = 0;
    assert(records@.subrange(0, records@.len() as int) =~= records@);
    while i < records.len()
        invariant
            i <= records@.len(),
            tiles(records@, 0, length as int) == tiles(
                records@.subrange(i as int, records@.len() as int),
                at as int,
                length as int,
            ),
        decreases records@.len() - i,
    {
        let record = records[i];
        let ghost rest = records@.subrange(i as int, records@.len() as int);
        proof {
            assert(rest[0] == record);
            assert(rest.drop_first() =~= records@.subrange(i + 1, records@.len() as int));
            if record.offset == at && record.size >= PREFIX_LEN && record.end() > u64::MAX {
                if tiles(rest.drop_first(), record.end(), length as int) {
                    lemma_tiles_bounds(rest.drop_first(), record.end(), length as int);
                }
            }
        }
        if record.offset != at || record.size < PREFIX_LEN {
            return false;
        }
        at = match record.checked_end() {
            Some(end) => end,
            None => {
                return false;
            },
        };
        i = i + 1;
    }
    proof {
        assert(records@.subrange(records@.len() as int, records@.len() as int) =~= Seq::empty());
    }
    at == length
}

} // verus!
