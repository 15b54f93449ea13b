//! Planning an export: batches, the names of the output files, and what
//! becomes of a document that fails.

use crate::config::ConfigError;
use crate::record::DocOffset;
use crate::text::{digits, is_digit, lemma_decimal_digits, push_digits};
use vstd::prelude::*;

verus! {

/// Number of batches that `total` records fall into.
pub open spec fn batch_count(total: int, size: int) -> int {
    if size <= 0 || total <= 0 {
        0
    } else {
        (total + size - 1) / size
    }
}

/// The batch at position `index`: `size` records in a row, or those that
/// are left at the end.
pub open spec fn batch_of(records: Seq<DocOffset>, size: int, index: int) -> Seq<DocOffset> {
    let start = index * size;
    let end = if start + size < records.len() {
        start + size
    } else {
        records.len() as int
    };
    records.subrange(start, end)
}

/// Whether `batches` are the batches of `records`, in order.
pub open spec fn is_partition(
    batches: Seq<Vec<DocOffset>>,
    records: Seq<DocOffset>,
    size: int,
) -> bool {
    &&& batches.len() == batch_count(records.len() as int, size)
    &&& forall|i: int| 0 <= i < batches.len() ==> (#[trigger] batches[i])@ == batch_of(records, size, i)
}

/// The batch count is the one number of whole steps that reaches the total.
proof fn lemma_batch_count(total: int, size: int, k: int)
    requires
        size > 0,
        k >= 0,
        k * size < total <= (k + 1) * size,
    ensures
        batch_count(total, size) == k + 1,
{
    assert((total + size - 1) / size == k + 1) by (nonlinear_arith)
        requires
            size > 0,
            k >= 0,
            k * size < total <= (k + 1) * size,
    ;
}

/// Splits records into batches of `batch_size` in a row, in order; the last
/// batch holds what is left.
pub fn partition(records: &Vec<DocOffset>, batch_size: usize) -> (r: Result<
    Vec<Vec<DocOffset>>,
    ConfigError,
>)
    ensures
        match r {
            Ok(batches) => batch_size > 0 && is_partition(batches@, records@, batch_size as int),
            Err(e) => batch_size == 0 && e == ConfigError::ZeroBatch,
        },
{
    if batch_size == 0 {
        return Err(ConfigError::ZeroBatch);
    }
    let total = records.len();
    let mut batches: Vec<Vec<DocOffset>> = Vec::new();
    let mut start: usize = 0;
    assert(0 * batch_size == 0) by (nonlinear_arith);
    while start < total
        invariant
            batch_size > 0,
            total == records@.len(),
            start <= total,
            start == batches@.len() * batch_size,
            forall|i: int|
                0 <= i < batches@.len() ==> (#[trigger] batches@[i])@ == batch_of(
                    records@,
                    batch_size as int,
                    i,
                ),
        decreases total - start,
    {
        let ghost k = batches@.len() as int;
        let last = total - start <= batch_size;
        let end: usize = if last {
            total
        } else {
            start + batch_size
        };
        let mut batch: Vec<DocOffset> = Vec::new();
        let mut i: usize = start;
        while i < end
            invariant
                start <= i <= end <= records@.len(),
                batch@ == records@.subrange(start as int, i as int),
            decreases end - i,
        {
            batch.push(records[i]);
            assert(records@.subrange(start as int, i + 1) =~= records@.subrange(
                start as int,
                i as int,
            ).push(records@[i as int]));
            i = i + 1;
        }
        proof {
            assert((k + 1) * batch_size == k * batch_size + batch_size) by (nonlinear_arith);
            assert(batch@ == batch_of(records@, batch_size as int, k));
        }
        batches.push(batch);
        if last {
            proof {
                lemma_batch_count(total as int, batch_size as int, k);
            }
            return Ok(batches);
        }
        start = end;
    }
    proof {
        let k = batches@.len() as int;
        if k > 0 {
            assert((k - 1) * batch_size < k * batch_size == (k - 1 + 1) * batch_size)
                by (nonlinear_arith)
                requires
                    batch_size > 0,
            ;
            lemma_batch_count(total as int, batch_size as int, k - 1);
        }
    }
    Ok(batches)
}

/// The record at position `p` is item `p % size` of batch `p / size`.
pub open spec fn placed(
    batches: Seq<Vec<DocOffset>>,
    records: Seq<DocOffset>,
    size: int,
    p: int,
) -> bool {
    &&& 0 <= p / size < batches.len()
    &&& 0 <= p % size < batches[p / size]@.len()
    &&& batches[p / size]@[p % size] == records[p]
}

/// Item `j` of batch `i` is the record at position `i * size + j`.
pub open spec fn drawn(
    batches: Seq<Vec<DocOffset>>,
    records: Seq<DocOffset>,
    size: int,
    i: int,
    j: int,
) -> bool {
    &&& 0 <= i * size + j < records.len()
    &&& batches[i]@[j] == records[i * size + j]
}

/// Every record stands in exactly one batch, at exactly one place: each
/// record is placed, every item of every batch is drawn from the records,
/// and no batch is empty or longer than the batch size.
pub proof fn lemma_partition_exact(batches: Seq<Vec<DocOffset>>, records: Seq<DocOffset>, size: int)
    requires
        size > 0,
        is_partition(batches, records, size),
    ensures
        forall|p: int| 0 <= p < records.len() ==> #[trigger] placed(batches, records, size, p),
        forall|i: int, j: int|
            0 <= i < batches.len() && 0 <= j < batches[i]@.len() ==> #[trigger] drawn(
                batches,
                records,
                size,
                i,
                j,
            ),
        forall|i: int| 0 <= i < batches.len() ==> 1 <= (#[trigger] batches[i])@.len() <= size,
{
    let total = records.len() as int;
    assert forall|i: int| 0 <= i < batches.len() implies 0 <= i * size < total && 1 <= (
    #[trigger] batches[i])@.len() <= size by {
        assert(0 <= i * size < total) by (nonlinear_arith)
            requires
                0 <= i < (total + size - 1) / size,
                size > 0,
                total > 0,
        ;
    }
    assert forall|p: int| 0 <= p < records.len() implies #[trigger] placed(
        batches,
        records,
        size,
        p,
    ) by {
        let i = p / size;
        let j = p % size;
        assert(0 <= i && i * size + j == p && 0 <= j < size && i < (total + size - 1) / size)
            by (nonlinear_arith)
            requires
                0 <= p < total,
                size > 0,
                i == p / size,
                j == p % size,
        ;
        assert(batches[i]@ == batch_of(records, size, i));
    }
    assert forall|i: int, j: int|
        0 <= i < batches.len() && 0 <= j < batches[i]@.len() implies #[trigger] drawn(
        batches,
        records,
        size,
        i,
        j,
    ) by {
        assert(batches[i]@ == batch_of(records, size, i));
        assert(1 <= batches[i]@.len() <= size);
    }
}

/// The name of the file that receives item `nth` of batch `batch`.
pub open spec fn artifact_text(batch: nat, nth: nat) -> Seq<char> {
    digits(batch, 10) + "-"@ + digits(nth, 10) + ".json"@
}

/// The name of the file that receives item `nth` of batch `batch`: the two
/// numbers in decimal with a hyphen between them, and the extension of the
/// output format.
pub fn artifact_name(batch: usize, nth: usize) -> (name: String)
    ensures
        name@ == artifact_text(batch as nat, nth as nat),
{
    let mut name = String::new();
    push_digits(&mut name, batch as u64, 10);
    name.append("-");
    push_digits(&mut name, nth as u64, 10);
    name.append(".json");
    assert(name@ =~= artifact_text(batch as nat, nth as nat));
    name
}

/// Decimal digits that are equal spell equal numbers.
proof fn lemma_digits_injective(a: nat, b: nat)
    requires
        digits(a, 10) == digits(b, 10),
    ensures
        a == b,
{
    lemma_decimal_digits(a);
    lemma_decimal_digits(b);
}

/// No two documents of a run are written to the same file: different
/// places in the run have different names.
pub proof fn lemma_artifact_names_differ(batch: nat, nth: nat, other_batch: nat, other_nth: nat)
    requires
        artifact_text(batch, nth) == artifact_text(other_batch, other_nth),
    ensures
        batch == other_batch,
        nth == other_nth,
{
    reveal_strlit("-");
    reveal_strlit(".json");
    let a = digits(batch, 10);
    let b = digits(other_batch, 10);
    let c = digits(nth, 10);
    let d = digits(other_nth, 10);
    let left = artifact_text(batch, nth);
    let right = artifact_text(other_batch, other_nth);
    lemma_decimal_digits(batch);
    lemma_decimal_digits(other_batch);
    lemma_decimal_digits(nth);
    lemma_decimal_digits(other_nth);
    assert(left.len() == a.len() + 1 + c.len() + 5);
    assert(right.len() == b.len() + 1 + d.len() + 5);
    assert(left[a.len() as int] == '-');
    assert(right[b.len() as int] == '-');
    if a.len() < b.len() {
        assert(right[a.len() as int] == b[a.len() as int]);
        assert(is_digit(b[a.len() as int]));
    }
    if b.len() < a.len() {
        assert(left[b.len() as int] == a[b.len() as int]);
        assert(is_digit(a[b.len() as int]));
    }
    assert(a =~= b) by {
        assert forall|i: int| 0 <= i < a.len() implies a[i] == b[i] by {
            assert(left[i] == a[i]);
            assert(right[i] == b[i]);
        }
    }
    lemma_digits_injective(batch, other_batch);
    assert(c =~= d) by {
        assert forall|i: int| 0 <= i < c.len() implies c[i] == d[i] by {
            assert(left[a.len() + 1 + i] == c[i]);
            assert(right[b.len() + 1 + i] == d[i]);
        }
    }
    lemma_digits_injective(nth, other_nth);
}

/// What a run does when a document fails.
#[derive(Clone, Copy, Debug, PartialEq, Eq, Structural)]
pub enum FailurePolicy {
    /// The first failure ends the run.
    Abort,
    /// A failed document is left out and reported; the run goes on.
    Skip,
}

/// A failure together with the offset of the record that it happened on.
#[derive(Debug, PartialEq)]
pub struct RecordFailure<E> {
    pub offset: u64,
    pub cause: E,
}

/// Ties an outcome to the record that it belongs to, so that a failure can
/// be traced to its place in the source.
pub fn locate<T, E>(record: &DocOffset, outcome: Result<T, E>) -> (r: Result<T, RecordFailure<E>>)
    ensures
        r == (match outcome {
            Ok(value) => Ok::<T, RecordFailure<E>>(value),
            Err(cause) => Err::<T, RecordFailure<E>>(
                RecordFailure { offset: record.offset, cause },
            ),
        }),
{
    match outcome {
        Ok(value) => Ok(value),
        Err(cause) => Err(RecordFailure { offset: record.offset, cause }),
    }
}

/// The values of the successes among the first `n` outcomes, in order.
pub open spec fn kept<T, E>(outcomes: Seq<Result<T, E>>, n: nat) -> Seq<T>
    decreases n,
{
    if n == 0 || n > outcomes.len() {
        Seq::empty()
    } else {
        match outcomes[n - 1] {
            Ok(value) => kept(outcomes, (n - 1) as nat).push(value),
            Err(_) => kept(outcomes, (n - 1) as nat),
        }
    }
}

/// The failures among the first `n` outcomes, in order.
pub open spec fn failed<T, E>(outcomes: Seq<Result<T, E>>, n: nat) -> Seq<E>
    decreases n,
{
    if n == 0 || n > outcomes.len() {
        Seq::empty()
    } else {
        match outcomes[n - 1] {
            Ok(_) => failed(outcomes, (n - 1) as nat),
            Err(cause) => failed(outcomes, (n - 1) as nat).push(cause),
        }
    }
}

/// Every outcome is either kept or reported: nothing is lost.
pub proof fn lemma_nothing_lost<T, E>(outcomes: Seq<Result<T, E>>, n: nat)
    requires
        n <= outcomes.len(),
    ensures
        kept(outcomes, n).len() + failed(outcomes, n).len() == n,
    decreases n,
{
    if n > 0 {
        lemma_nothing_lost(outcomes, (n - 1) as nat);
    }
}

/// The first failure stays the first however many outcomes follow.
proof fn lemma_first_failure<T, E>(outcomes: Seq<Result<T, E>>, n: nat, m: nat)
    requires
        n <= m <= outcomes.len(),
        failed(outcomes, n).len() > 0,
    ensures
        failed(outcomes, m).len() > 0,
        failed(outcomes, m)[0] == failed(outcomes, n)[0],
    decreases m,
{
    if n < m {
        lemma_first_failure(outcomes, n, (m - 1) as nat);
    }
}

/// Applies the failure policy to the outcomes of a batch.
///
/// Under [`FailurePolicy::Skip`] the successes are kept in order and every
/// failure is reported in order. Under [`FailurePolicy::Abort`] the first
/// failure is the result; without a failure all values are kept.
pub fn settle<T, E>(outcomes: Vec<Result<T, E>>, policy: FailurePolicy) -> (r: Result<
    (Vec<T>, Vec<E>),
    E,
>)
    ensures
        match r {
            Ok((values, reported)) => {
                &&& values@ == kept(outcomes@, outcomes@.len())
                &&& reported@ == failed(outcomes@, outcomes@.len())
                &&& policy == FailurePolicy::Abort ==> reported@.len() == 0
            },
            Err(cause) => {
                &&& policy == FailurePolicy::Abort
                &&& failed(outcomes@, outcomes@.len()).len() > 0
                &&& cause == failed(outcomes@, outcomes@.len())[0]
            },
        },
{
    let ghost all = outcomes@;
    let mut values: Vec<T> = Vec::new();
    let mut reported: Vec<E> = Vec::new();
    for outcome in it: outcomes
        invariant
            it.seq() == all,
            values@ == kept(all, it.index() as nat),
            reported@ == failed(all, it.index() as nat),
            policy == FailurePolicy::Abort ==> reported@.len() == 0,
    {
        match outcome {
            Ok(value) => {
                values.push(value);
            },
            Err(cause) => {
                match policy {
                    FailurePolicy::Abort => {
                        proof {
                            lemma_first_failure(all, (it.index() + 1) as nat, all.len());
                        }
                        return Err(cause);
                    },
                    FailurePolicy::Skip => {
                        reported.push(cause);
                    },
                }
            },
        }
    }
    Ok((values, reported))
}

/// How many documents of a run are done.
#[derive(Clone, Copy, Debug, PartialEq, Eq, Structural)]
pub struct Progress {
    pub done: u64,
    pub total: u64,
}

impl Progress {
    /// The progress of a run of `total` documents at its start.
    pub fn new(total: u64) -> (progress: Progress)
        ensures
            progress == (Progress { done: 0, total }),
    {
        Progress { done: 0, total }
    }

    /// Counts one more finished document. The count never goes down and
    /// never passes the total.
    pub fn advance(&mut self)
        ensures
            final(self).total == old(self).total,
            final(self).done == (if old(self).done < old(self).total {
                (old(self).done + 1) as u64
            } else {
                old(self).done
            }),
    {
        if self.done < self.total {
            self.done = self.done + 1;
        }
    }

    /// Counts `count` more finished documents, up to the total.
    pub fn advance_by(&mut self, count: u64)
        ensures
            final(self).total == old(self).total,
            final(self).done == (if old(self).done >= old(self).total {
                old(self).done
            } else if count >= old(self).total - old(self).done {
                old(self).total
            } else {
                (old(self).done + count) as u64
            }),
    {
        if self.done < self.total {
            if count >= self.total - self.done {
                self.done = self.total;
            } else {
                self.done = self.done + count;
            }
        }
    }

    /// Whether every document of the run is done.
    pub fn is_finished(&self) -> (r: bool)
        ensures
            r == (self.done >= self.total),
    {
        self.done >= self.total
    }
}

} // verus!
