//! An index over the keys of a document, for finding a key without walking
//! every entry.
//!
//! The entries are spread over buckets by the hash of their keys. A key is
//! looked for only among the entries of its own bucket, so that reading a
//! table of many entries takes time in proportion to their number.

use crate::builtins::{seahash_bytes, seahash_of};
use crate::value::{
    key_position, lemma_key_position, lemma_upsert_distinct, upsert, DocumentModel,
    StructuredDocument, Value,
};
use vstd::prelude::*;
use vstd::string::StringSliceAdditionalSpecFns;
use vstd::utf8::encode_utf8;

verus! {

/// The hash of a key: the SeaHash of its UTF-8 bytes.
pub open spec fn key_hash(key: Seq<char>) -> u64 {
    seahash_of(encode_utf8(key))
}

/// The bucket of a key among `width` buckets.
pub open spec fn slot_of(key: Seq<char>, width: int) -> int {
    key_hash(key) as int % width
}

/// For each bucket, the positions of the entries whose keys fall into it.
pub(crate) struct KeyIndex {
    buckets: Vec<Vec<usize>>,
}

impl KeyIndex {
    /// The index knows every entry of the document: the position of each
    /// entry stands in the bucket of its key, and every position in a
    /// bucket is one of the document.
    pub(crate) closed spec fn covers(&self, document: DocumentModel) -> bool {
        &&& self.buckets@.len() > 0
        &&& forall|i: int|
            0 <= i < document.len() ==> self.buckets@[slot_of(
                (#[trigger] document[i]).0,
                self.buckets@.len() as int,
            )]@.contains(i as usize)
        &&& forall|b: int, j: int|
            0 <= b < self.buckets@.len() && 0 <= j < self.buckets@[b]@.len() ==> (
            #[trigger] self.buckets@[b]@[j]) < document.len()
    }

    /// An index for a document without entries, laid out for about `size`
    /// entries.
    pub(crate) fn new(size: usize) -> (index: KeyIndex)
        ensures
            index.covers(DocumentModel::empty()),
    {
        let mut buckets: Vec<Vec<usize>> = Vec::new();
        buckets.push(Vec::new());
        let mut i: usize = 1;
        while i < size
            invariant
                buckets@.len() > 0,
                forall|b: int| 0 <= b < buckets@.len() ==> (#[trigger] buckets@[b])@.len() == 0,
            decreases size - i,
        {
            buckets.push(Vec::new());
            i = i + 1;
        }
        KeyIndex { buckets }
    }

    /// The bucket of a key.
    fn slot(&self, key: &String) -> (b: usize)
        requires
            self.buckets@.len() > 0,
        ensures
            b == slot_of(key@, self.buckets@.len() as int),
            b < self.buckets@.len(),
    {
        let hash = seahash_bytes(key.as_str().as_bytes());
        let width = self.buckets.len() as u64;
        (hash % width) as usize
    }

    /// Index of the entry stored under `key`.
    pub(crate) fn find(&self, document: &StructuredDocument, key: &String) -> (r: Option<usize>)
        requires
            self.covers(document@),
            document.wf(),
        ensures
            match r {
                Some(i) => i < document@.len() && key_position(document@, key@, document@.len())
                    == Some(i as int),
                None => key_position(document@, key@, document@.len()) is None,
            },
    {
        let b = self.slot(key);
        let bucket = &self.buckets[b];
        let count = document.entries.len();
        let mut j: usize = 0;
        while j < bucket.len()
            invariant
                j <= bucket@.len(),
                b < self.buckets@.len(),
                *bucket == self.buckets@[b as int],
                b == slot_of(key@, self.buckets@.len() as int),
                self.covers(document@),
                document.wf(),
                document@.len() == document.entries@.len() == count,
                forall|t: int| 0 <= t < j ==> document@[bucket@[t] as int].0 != key@,
            decreases bucket@.len() - j,
        {
            let at = bucket[j];
            assert(self.buckets@[b as int]@[j as int] < document@.len());
            if document.entries[at].0 == *key {
                proof {
                    lemma_key_position(document@, key@, document@.len());
                    assert(document@[at as int].0 == key@);
                    let i = key_position(document@, key@, document@.len())->0;
                    if i != at {
                        assert(document@[i].0 == document@[at as int].0);
                    }
                }
                return Some(at);
            }
            j = j + 1;
        }
        proof {
            lemma_key_position(document@, key@, document@.len());
            if key_position(document@, key@, document@.len()) is Some {
                let i = key_position(document@, key@, document@.len())->0;
                assert(document@[i].0 == key@);
                assert(bucket@.contains(i as usize));
                let t = choose|t: int| 0 <= t < bucket@.len() && bucket@[t] == i as usize;
                assert(bucket@[t] as int == i);
                assert(document@[bucket@[t] as int].0 != key@);
            }
        }
        None
    }

    /// Sets `key` to `value` in the document, as
    /// [`StructuredDocument::insert`] does, and keeps the index up to date.
    pub(crate) fn insert(&mut self, document: &mut StructuredDocument, key: String, value: Value)
        requires
            old(self).covers(old(document)@),
            old(document).wf(),
        ensures
            final(document)@ == upsert(old(document)@, key@, value@),
            final(document).wf(),
            final(self).covers(final(document)@),
    {
        let found = self.find(document, &key);
        let ghost before = document@;
        let ghost k = key@;
        let ghost v = value@;
        proof {
            lemma_upsert_distinct(before, k, v);
            lemma_key_position(before, k, before.len());
        }
        match found {
            Some(at) => {
                document.entries.push((key, value));
                document.entries.swap_remove(at);
                assert(document@ =~= upsert(before, k, v));
                assert forall|i: int| 0 <= i < document@.len() implies self.buckets@[slot_of(
                    (#[trigger] document@[i]).0,
                    self.buckets@.len() as int,
                )]@.contains(i as usize) by {
                    assert(document@[i].0 == before[i].0);
                }
            },
            None => {
                let b = self.slot(&key);
                let at = document.entries.len();
                document.entries.push((key, value));
                assert(document@ =~= upsert(before, k, v));
                let ghost buckets = self.buckets@;
                self.buckets.push(Vec::new());
                let mut bucket = self.buckets.swap_remove(b);
                let ghost earlier = bucket@;
                bucket.push(at);
                self.buckets.push(bucket);
                let _ = self.buckets.swap_remove(b);
                assert(self.buckets@.len() == buckets.len());
                assert(self.buckets@[b as int]@ == earlier.push(at));
                assert(earlier == buckets[b as int]@);
                assert forall|c: int| 0 <= c < buckets.len() && c != b implies self.buckets@[c]
                    == buckets[c] by {}
                assert forall|i: int| 0 <= i < document@.len() implies self.buckets@[slot_of(
                    (#[trigger] document@[i]).0,
                    self.buckets@.len() as int,
                )]@.contains(i as usize) by {
                    let c = slot_of(document@[i].0, buckets.len() as int);
                    if i < before.len() {
                        assert(document@[i] == before[i]);
                        assert(buckets[c]@.contains(i as usize));
                        if c == b {
                            let t = choose|t: int|
                                0 <= t < earlier.len() && earlier[t] == i as usize;
                            assert(earlier.push(at)[t] == i as usize);
                        }
                    } else {
                        assert(c == b);
                        assert(earlier.push(at)[earlier.len() as int] == at);
                    }
                }
                assert forall|c: int, j: int|
                    0 <= c < self.buckets@.len() && 0 <= j < self.buckets@[c]@.len() implies (
                #[trigger] self.buckets@[c]@[j]) < document@.len() by {
                    if c == b {
                        if j < earlier.len() {
                            assert(self.buckets@[c]@[j] == buckets[c]@[j]);
                        }
                    } else {
                        assert(self.buckets@[c]@[j] == buckets[c]@[j]);
                    }
                }
            },
        }
    }
}

} // verus!
