//! Writing one aggregated output in the order of the records while the
//! batches are finished in any order.
//!
//! Workers hand in finished batches as they come. A batch whose turn it is
//! goes out at once, together with the batches that were waiting right
//! behind it; a batch that comes early waits until every batch before it
//! has gone out.

use vstd::prelude::*;

verus! {

/// Why a batch was not taken.
#[derive(Clone, Copy, Debug, PartialEq, Eq, Structural)]
pub enum AggregateError {
    /// The run has no batch at that position.
    OutOfRange,
    /// The batch at that position was handed in before.
    Duplicate,
}

/// Mathematical model of an [`Aggregator`].
pub ghost struct AggregatorModel<T> {
    /// Position of the batch whose turn it is.
    pub next: nat,
    /// For each position, the batch that waits there.
    pub slots: Seq<Option<Seq<T>>>,
}

/// Batches on their way into one output, in the order of their positions.
pub struct Aggregator<T> {
    next: usize,
    slots: Vec<Option<Vec<T>>>,
}

/// The model of the waiting batches.
pub open spec fn slots_view<T>(slots: Seq<Option<Vec<T>>>) -> Seq<Option<Seq<T>>> {
    Seq::new(
        slots.len(),
        |i: int|
            match slots[i] {
                Some(batch) => Some(batch@),
                None => None,
            },
    )
}

/// The first position at or after `from` where no batch waits.
pub open spec fn run_end<T>(slots: Seq<Option<Seq<T>>>, from: nat) -> nat
    decreases slots.len() - from,
{
    if from < slots.len() && slots[from as int] is Some {
        run_end(slots, from + 1)
    } else {
        from
    }
}

/// The items of the batches that wait at the positions from `from` up to
/// `to`, in order.
pub open spec fn run_items<T>(slots: Seq<Option<Seq<T>>>, from: nat, to: nat) -> Seq<T>
    decreases to,
{
    if to <= from || to > slots.len() {
        Seq::empty()
    } else {
        run_items(slots, from, (to - 1) as nat) + (match slots[to - 1] {
            Some(batch) => batch,
            None => Seq::empty(),
        })
    }
}

/// The waiting batches without those at the positions from `from` up to
/// `to`.
pub open spec fn cleared<T>(slots: Seq<Option<Seq<T>>>, from: nat, to: nat) -> Seq<
    Option<Seq<T>>,
> {
    Seq::new(slots.len(), |i: int| if from <= i < to { None } else { slots[i] })
}

/// What handing in `batch` for position `index` does: the state afterwards
/// and the items that go out, or why the batch is not taken.
pub open spec fn step<T>(model: AggregatorModel<T>, index: int, batch: Seq<T>) -> Result<
    (AggregatorModel<T>, Seq<T>),
    AggregateError,
> {
    if index < 0 || index >= model.slots.len() {
        Err(AggregateError::OutOfRange)
    } else if index < model.next || model.slots[index] is Some {
        Err(AggregateError::Duplicate)
    } else {
        let placed = model.slots.update(index, Some(batch));
        let end = run_end(placed, model.next);
        Ok(
            (
                AggregatorModel { next: end, slots: cleared(placed, model.next, end) },
                run_items(placed, model.next, end),
            ),
        )
    }
}

impl<T> View for Aggregator<T> {
    type V = AggregatorModel<T>;

    closed spec fn view(&self) -> AggregatorModel<T> {
        AggregatorModel { next: self.next as nat, slots: slots_view(self.slots@) }
    }
}

impl<T> Aggregator<T> {
    /// An aggregator for a run of `count` batches, none handed in yet.
    pub fn new(count: usize) -> (aggregator: Aggregator<T>)
        ensures
            aggregator@.next == 0,
            aggregator@.slots == Seq::new(count as nat, |i: int| None::<Seq<T>>),
    {
        let mut slots: Vec<Option<Vec<T>>> = Vec::new();
        let mut i: usize = 0;
        while i < count
            invariant
                i <= count,
                slots@.len() == i,
                forall|k: int| 0 <= k < i ==> (#[trigger] slots@[k]) is None,
            decreases count - i,
        {
            slots.push(None);
            i = i + 1;
        }
        let aggregator = Aggregator { next: 0, slots };
        assert(aggregator@.slots =~= Seq::new(count as nat, |i: int| None::<Seq<T>>));
        aggregator
    }

    /// Position of the batch whose turn it is.
    pub fn next(&self) -> (next: usize)
        ensures
            next == self@.next,
    {
        self.next
    }

    /// Whether every batch of the run has gone out.
    pub fn is_complete(&self) -> (r: bool)
        ensures
            r == (self@.next >= self@.slots.len()),
    {
        self.next >= self.slots.len()
    }

    /// Hands in the finished batch of position `index`. What comes back are
    /// the items to write now, in order: nothing while an earlier batch is
    /// missing, else this batch and every batch that waited right behind
    /// it.
    pub fn submit(&mut self, index: usize, batch: Vec<T>) -> (r: Result<Vec<T>, AggregateError>)
        ensures
            match step(old(self)@, index as int, batch@) {
                Ok((model, items)) => r matches Ok(out) && out@ == items && final(self)@ == model,
                Err(e) => r == Err::<Vec<T>, AggregateError>(e) && final(self)@ == old(self)@,
            },
    {
        let count = self.slots.len();
        if index >= count {
            return Err(AggregateError::OutOfRange);
        }
        if index < self.next || self.slots[index].is_some() {
            return Err(AggregateError::Duplicate);
        }
        let ghost before = self@;
        let ghost placed = before.slots.update(index as int, Some(batch@));
        self.slots.push(Some(batch));
        let _ = self.slots.swap_remove(index);
        assert(slots_view(self.slots@) =~= placed);
        let first = self.next;
        let mut out: Vec<T> = Vec::new();
        while self.next < count && self.slots[self.next].is_some()
            invariant
                count == self.slots@.len(),
                placed.len() == count,
                first <= self.next <= count,
                forall|i: int| first <= i < self.next ==> (#[trigger] placed[i]) is Some,
                out@ == run_items(placed, first as nat, self.next as nat),
                slots_view(self.slots@) == cleared(placed, first as nat, self.next as nat),
            decreases count - self.next,
        {
            let at = self.next;
            let ghost held = self.slots@;
            assert(slots_view(held)[at as int] == placed[at as int]);
            self.slots.push(None);
            let taken = self.slots.swap_remove(at);
            assert(self.slots@ =~= held.update(at as int, None));
            match taken {
                Some(mut batch) => {
                    assert(placed[at as int] == Some(batch@));
                    out.append(&mut batch);
                },
                None => {},
            }
            self.next = at + 1;
            assert(slots_view(self.slots@) =~= cleared(
                placed,
                first as nat,
                self.next as nat,
            )) by {
                assert forall|i: int| 0 <= i < count implies slots_view(self.slots@)[i]
                    == cleared(placed, first as nat, self.next as nat)[i] by {
                    if i != at {
                        assert(slots_view(held)[i] == cleared(placed, first as nat, at as nat)[i]);
                    }
                }
            }
        }
        proof {
            if self.next < count {
                assert(slots_view(self.slots@)[self.next as int] == placed[self.next as int]);
            }
            lemma_run_end(placed, first as nat, self.next as nat);
        }
        Ok(out)
    }
}

/// A run of waiting batches ends at the first position without one.
pub proof fn lemma_run_end<T>(slots: Seq<Option<Seq<T>>>, from: nat, to: nat)
    requires
        from <= to <= slots.len(),
        forall|i: int| from <= i < to ==> (#[trigger] slots[i]) is Some,
        to == slots.len() || slots[to as int] is None,
    ensures
        run_end(slots, from) == to,
    decreases to - from,
{
    if from < to {
        lemma_run_end(slots, from + 1, to);
    }
}

/// What a run of waiting batches is: it starts at `from`, every position
/// in it holds a batch, and it ends at the end or before a gap.
pub proof fn lemma_run_end_is<T>(slots: Seq<Option<Seq<T>>>, from: nat)
    requires
        from <= slots.len(),
    ensures
        from <= run_end(slots, from) <= slots.len(),
        forall|i: int| from <= i < run_end(slots, from) ==> (#[trigger] slots[i]) is Some,
        run_end(slots, from) == slots.len() || slots[run_end(slots, from) as int] is None,
    decreases slots.len() - from,
{
    if from < slots.len() && slots[from as int] is Some {
        lemma_run_end_is(slots, from + 1);
    }
}

/// An aggregator for `count` batches before any batch was handed in.
pub open spec fn fresh<T>(count: nat) -> AggregatorModel<T> {
    AggregatorModel { next: 0, slots: Seq::new(count, |i: int| None::<Seq<T>>) }
}

/// The items of the first `n` batches, in order.
pub open spec fn concat<T>(batches: Seq<Seq<T>>, n: nat) -> Seq<T>
    decreases n,
{
    if n == 0 || n > batches.len() {
        Seq::empty()
    } else {
        concat(batches, (n - 1) as nat) + batches[n - 1]
    }
}

/// The state of a fresh aggregator after the batches at the first `n`
/// positions of `order` were handed in, and everything that went out so
/// far.
pub open spec fn replay<T>(batches: Seq<Seq<T>>, order: Seq<int>, n: nat) -> (
    AggregatorModel<T>,
    Seq<T>,
)
    decreases n,
{
    if n == 0 || n > order.len() {
        (fresh(batches.len()), Seq::empty())
    } else {
        let (model, out) = replay(batches, order, (n - 1) as nat);
        let index = order[n - 1];
        match step(model, index, batches[index]) {
            Ok((after, items)) => (after, out + items),
            Err(_) => (model, out),
        }
    }
}

/// Whether `order` names every position below `count` exactly once.
pub open spec fn is_arrival_order(order: Seq<int>, count: nat) -> bool {
    &&& order.len() == count
    &&& forall|k: int| 0 <= k < order.len() ==> 0 <= #[trigger] order[k] < count
    &&& forall|j: int, k: int| 0 <= j < k < order.len() ==> order[j] != order[k]
    &&& forall|i: int| 0 <= i < count ==> arrived(order, count, i)
}

/// Whether position `i` is among the first `n` of `order`.
pub open spec fn arrived(order: Seq<int>, n: nat, i: int) -> bool {
    exists|k: int| 0 <= k < n && k < order.len() && #[trigger] order[k] == i
}

/// What holds of an aggregator while batches arrive: everything before
/// `next` has arrived and gone out in order, what has arrived early waits
/// in its slot, and the batch at `next` is still missing.
spec fn in_step<T>(
    batches: Seq<Seq<T>>,
    order: Seq<int>,
    n: nat,
    model: AggregatorModel<T>,
    out: Seq<T>,
) -> bool {
    &&& model.slots.len() == batches.len()
    &&& model.next <= batches.len()
    &&& forall|i: int| 0 <= i < model.next ==> arrived(order, n, i) && (#[trigger] model.slots[i]) is None
    &&& forall|i: int|
        model.next <= i < batches.len() ==> (#[trigger] model.slots[i]) == (if arrived(
            order,
            n,
            i,
        ) {
            Some(batches[i])
        } else {
            None
        })
    &&& model.next < batches.len() ==> !arrived(order, n, model.next as int)
    &&& out == concat(batches, model.next)
}

/// The items of a run of waiting batches continue the items of the
/// batches before it.
proof fn lemma_run_items<T>(batches: Seq<Seq<T>>, slots: Seq<Option<Seq<T>>>, from: nat, to: nat)
    requires
        from <= to <= batches.len(),
        slots.len() == batches.len(),
        forall|i: int| from <= i < to ==> (#[trigger] slots[i]) == Some(batches[i]),
    ensures
        concat(batches, from) + run_items(slots, from, to) == concat(batches, to),
    decreases to,
{
    if from < to {
        lemma_run_items(batches, slots, from, (to - 1) as nat);
        assert(slots[to - 1] == Some(batches[to - 1]));
        assert(concat(batches, from) + (run_items(slots, from, (to - 1) as nat) + batches[to
            - 1]) =~= (concat(batches, from) + run_items(slots, from, (to - 1) as nat))
            + batches[to - 1]);
    } else {
        assert(concat(batches, from) + Seq::<T>::empty() =~= concat(batches, from));
    }
}

/// One more arrival keeps the aggregator in step.
proof fn lemma_step_in_order<T>(batches: Seq<Seq<T>>, order: Seq<int>, n: nat)
    requires
        is_arrival_order(order, batches.len()),
        n < order.len(),
        in_step(batches, order, n, replay(batches, order, n).0, replay(batches, order, n).1),
    ensures
        in_step(
            batches,
            order,
            n + 1,
            replay(batches, order, n + 1).0,
            replay(batches, order, n + 1).1,
        ),
{
    let (model, out) = replay(batches, order, n);
    let count = batches.len();
    let index = order[n as int];
    let batch = batches[index];
    assert(!arrived(order, n, index));
    assert(index >= model.next);
    assert(model.slots[index] is None);
    let placed = model.slots.update(index, Some(batch));
    let end = run_end(placed, model.next);
    let after = AggregatorModel { next: end, slots: cleared(placed, model.next, end) };
    let items = run_items(placed, model.next, end);
    assert(step(model, index, batch) == Ok::<(AggregatorModel<T>, Seq<T>), AggregateError>(
        (after, items),
    ));
    assert(replay(batches, order, n + 1) == (after, out + items));
    lemma_run_end_is(placed, model.next);
    assert forall|i: int| 0 <= i < count implies (arrived(order, n + 1, i) <==> (arrived(
        order,
        n,
        i,
    ) || i == index)) by {
        if arrived(order, n, i) {
            let k = choose|k: int| 0 <= k < n && k < order.len() && #[trigger] order[k] == i;
            assert(0 <= k < n + 1 && order[k] == i);
        }
        if i == index {
            assert(0 <= n < n + 1 && order[n as int] == i);
        }
        if arrived(order, n + 1, i) {
            let k = choose|k: int| 0 <= k < n + 1 && k < order.len() && #[trigger] order[k] == i;
            if k < n {
                assert(arrived(order, n, i));
            }
        }
    }
    assert forall|i: int| model.next <= i < count implies (#[trigger] placed[i]) == (if arrived(
        order,
        n + 1,
        i,
    ) {
        Some(batches[i])
    } else {
        None
    }) by {
        assert(placed[i] == if i == index {
            Some(batch)
        } else {
            model.slots[i]
        });
    }
    assert forall|i: int| model.next <= i < end implies (#[trigger] placed[i]) == Some(
        batches[i],
    ) by {
        assert(placed[i] is Some);
    }
    lemma_run_items(batches, placed, model.next, end);
    assert(out + items =~= concat(batches, end));
    assert forall|i: int| 0 <= i < after.next implies arrived(order, n + 1, i) && (
    #[trigger] after.slots[i]) is None by {
        if i >= model.next {
            assert(placed[i] is Some);
        } else {
            assert(model.slots[i] is None);
        }
    }
    assert forall|i: int| after.next <= i < count implies (#[trigger] after.slots[i]) == (
    if arrived(order, n + 1, i) {
        Some(batches[i])
    } else {
        None
    }) by {
        assert(after.slots[i] == placed[i]);
    }
    if end < count {
        assert(placed[end as int] is None);
    }
}

/// Whatever the order in which the batches of a run are finished, once each
/// was handed in exactly once everything has gone out, and what went out
/// are the items of the batches in the order of their positions.
pub proof fn lemma_any_arrival_order<T>(batches: Seq<Seq<T>>, order: Seq<int>)
    requires
        is_arrival_order(order, batches.len()),
    ensures
        replay(batches, order, order.len()).0.next == batches.len(),
        replay(batches, order, order.len()).1 == concat(batches, batches.len()),
{
    lemma_replay_in_step(batches, order, order.len());
    let (model, out) = replay(batches, order, order.len());
    if model.next < batches.len() {
        assert(arrived(order, batches.len(), model.next as int));
    }
}

/// The aggregator stays in step through any number of arrivals.
proof fn lemma_replay_in_step<T>(batches: Seq<Seq<T>>, order: Seq<int>, n: nat)
    requires
        is_arrival_order(order, batches.len()),
        n <= order.len(),
    ensures
        in_step(batches, order, n, replay(batches, order, n).0, replay(batches, order, n).1),
    decreases n,
{
    if n == 0 {
        let model = fresh::<T>(batches.len());
        assert forall|i: int| 0 <= i < batches.len() implies !arrived(order, 0, i) by {}
    } else {
        lemma_replay_in_step(batches, order, (n - 1) as nat);
        lemma_step_in_order(batches, order, (n - 1) as nat);
    }
}

/// What opens the aggregated output: the start of an array.
pub const ARRAY_OPEN: &'static str = "[";

/// What closes the aggregated output: the end of the array.
pub const ARRAY_CLOSE: &'static str = "]";

/// The text of the first `n` items as items of one array, where `continued`
/// tells that items were written before them: a comma stands before every
/// item but the very first of the array.
pub open spec fn array_items(items: Seq<Seq<char>>, n: nat, continued: bool) -> Seq<char>
    decreases n,
{
    if n == 0 || n > items.len() {
        Seq::empty()
    } else if n == 1 && !continued {
        items[0]
    } else {
        array_items(items, (n - 1) as nat, continued) + ","@ + items[n - 1]
    }
}

/// The models of texts.
pub open spec fn texts(items: Seq<String>) -> Seq<Seq<char>> {
    Seq::new(items.len(), |i: int| items[i]@)
}

/// The text to write for items that go out, as items of the one array that
/// the output is. `continued` tells that items were written before.
pub fn array_fragment(items: &Vec<String>, continued: bool) -> (text: String)
    ensures
        text@ == array_items(texts(items@), items@.len(), continued),
{
    let mut text = String::new();
    let mut i: usize = 0;
    while i < items.len()
        invariant
            i <= items@.len(),
            text@ == array_items(texts(items@), i as nat, continued),
        decreases items@.len() - i,
    {
        if continued || i > 0 {
            text.append(",");
        }
        text.append(items[i].as_str());
        proof {
            assert(texts(items@)[i as int] == items@[i as int]@);
            if !(continued || i > 0) {
                assert(text@ =~= items@[0]@);
            }
        }
        i = i + 1;
    }
    text
}

/// Items that are written in several goes read as if they were written in
/// one: the fragments of two runs of items, one after the other, are the
/// fragment of the two runs together.
pub proof fn lemma_fragments_join(first: Seq<Seq<char>>, second: Seq<Seq<char>>, continued: bool, n: nat)
    requires
        n <= second.len(),
    ensures
        array_items(first, first.len(), continued) + array_items(
            second,
            n,
            continued || first.len() > 0,
        ) == array_items(first + second, first.len() + n, continued),
    decreases n,
{
    let all = first + second;
    if n == 0 {
        lemma_array_items_prefix(first, all, first.len(), continued);
        assert(array_items(first, first.len(), continued) + Seq::<char>::empty()
            =~= array_items(first, first.len(), continued));
    } else {
        lemma_fragments_join(first, second, continued, (n - 1) as nat);
        assert(all[first.len() + n - 1] == second[n - 1]);
        let head = array_items(first, first.len(), continued);
        let before = array_items(second, (n - 1) as nat, continued || first.len() > 0);
        if n == 1 && !(continued || first.len() > 0) {
            assert(first.len() == 0);
            assert(head + second[0] =~= second[0]);
        } else {
            assert(head + (before + ","@ + second[n - 1]) =~= (head + before) + ","@ + second[n
                - 1]);
        }
    }
}

/// The text of the first items does not depend on the items that follow.
proof fn lemma_array_items_prefix(a: Seq<Seq<char>>, b: Seq<Seq<char>>, n: nat, continued: bool)
    requires
        n <= a.len() <= b.len(),
        forall|i: int| 0 <= i < n ==> a[i] == b[i],
    ensures
        array_items(a, n, continued) == array_items(b, n, continued),
    decreases n,
{
    if n > 0 {
        lemma_array_items_prefix(a, b, (n - 1) as nat, continued);
    }
}

/// The one output of an aggregated run: an array whose items are the
/// documents of the batches, in the order of the records.
pub struct ArrayOutput {
    aggregator: Aggregator<String>,
    continued: bool,
}

impl ArrayOutput {
    /// The batches on their way into the output.
    pub closed spec fn batches(&self) -> AggregatorModel<String> {
        self.aggregator@
    }

    /// Whether an item was written already.
    pub closed spec fn continued(&self) -> bool {
        self.continued
    }

    /// The output of a run of `count` batches, before anything is written.
    pub fn new(count: usize) -> (output: ArrayOutput)
        ensures
            output.batches() == fresh::<String>(count as nat),
            !output.continued(),
    {
        let output = ArrayOutput { aggregator: Aggregator::new(count), continued: false };
        assert(output.batches().slots =~= fresh::<String>(count as nat).slots);
        output
    }

    /// Whether every batch of the run has gone out.
    pub fn is_complete(&self) -> (r: bool)
        ensures
            r == (self.batches().next >= self.batches().slots.len()),
    {
        self.aggregator.is_complete()
    }

    /// Hands in the rendered documents of the batch at position `index`.
    /// What comes back is the text to write now: the items that go out, as
    /// items of the one array.
    pub fn submit(&mut self, index: usize, batch: Vec<String>) -> (r: Result<
        String,
        AggregateError,
    >)
        ensures
            match step(old(self).batches(), index as int, batch@) {
                Ok((model, items)) => {
                    &&& r matches Ok(text)
                    &&& text@ == array_items(texts(items), items.len(), old(self).continued())
                    &&& final(self).batches() == model
                    &&& final(self).continued() == (old(self).continued() || items.len() > 0)
                },
                Err(e) => {
                    &&& r == Err::<String, AggregateError>(e)
                    &&& final(self).batches() == old(self).batches()
                    &&& final(self).continued() == old(self).continued()
                },
            },
    {
        match self.aggregator.submit(index, batch) {
            Ok(items) => {
                let text = array_fragment(&items, self.continued);
                if items.len() > 0 {
                    self.continued = true;
                }
                Ok(text)
            },
            Err(e) => Err(e),
        }
    }
}

} // verus!
