//! What waits for an instant: requests queued by the sim time they take
//! effect at, first come first served within one instant.
use vstd::prelude::*;

use crate::time::SimTime;

verus! {

/// Whether a queue runs from early to late.
pub open spec fn early_first<V>(queue: Seq<(i64, V)>) -> bool {
    forall|i: int, j: int|
        0 <= i < j < queue.len() ==> (#[trigger] queue[i]).0 <= (#[trigger] queue[j]).0
}

/// How many leading entries are not for later than `time`.
pub open spec fn not_later<V>(queue: Seq<(i64, V)>, time: i64) -> nat
    decreases queue.len(),
{
    if queue.len() == 0 || queue[0].0 > time {
        0
    } else {
        1 + not_later(queue.drop_first(), time)
    }
}

/// The queue with an item behind everything that is not for later than it.
pub open spec fn enqueued<V>(queue: Seq<(i64, V)>, time: i64, item: V) -> Seq<(i64, V)> {
    queue.insert(not_later(queue, time) as int, (time, item))
}

/// The place in a queue is behind what is not for later, and in front of what
/// is.
pub proof fn lemma_not_later<V>(queue: Seq<(i64, V)>, time: i64)
    requires
        early_first(queue),
    ensures
        not_later(queue, time) <= queue.len(),
        forall|i: int| 0 <= i < not_later(queue, time) ==> (#[trigger] queue[i]).0 <= time,
        forall|i: int| not_later(queue, time) <= i < queue.len() ==> (#[trigger] queue[i]).0 > time,
    decreases queue.len(),
{
    if queue.len() > 0 {
        if queue[0].0 <= time {
            let rest = queue.drop_first();
            assert forall|i: int, j: int| 0 <= i < j < rest.len() implies (
            #[trigger] rest[i]).0 <= (#[trigger] rest[j]).0 by {
                assert(queue[i + 1].0 <= queue[j + 1].0);
            }
            lemma_not_later(rest, time);
            assert forall|i: int| 0 <= i < not_later(queue, time) implies (
            #[trigger] queue[i]).0 <= time by {
                if i > 0 {
                    assert(rest[i - 1] == queue[i]);
                }
            }
            assert forall|i: int| not_later(queue, time) <= i < queue.len() implies (
            #[trigger] queue[i]).0 > time by {
                assert(rest[i - 1] == queue[i]);
            }
        } else {
            assert forall|i: int| 0 <= i < queue.len() implies (#[trigger] queue[i]).0 > time by {
                if i > 0 {
                    assert(queue[0].0 <= queue[i].0);
                }
            }
        }
    }
}

/// Queuing keeps a queue running from early to late, and holds what it held
/// and the newcomer.
pub proof fn lemma_enqueued<V>(queue: Seq<(i64, V)>, time: i64, item: V)
    requires
        early_first(queue),
    ensures
        early_first(enqueued(queue, time, item)),
        enqueued(queue, time, item).len() == queue.len() + 1,
        forall|i: int|
            0 <= i < enqueued(queue, time, item).len() ==> queue.contains(
                #[trigger] enqueued(queue, time, item)[i],
            ) || enqueued(queue, time, item)[i] == (time, item),
{
    lemma_not_later(queue, time);
    let place = not_later(queue, time) as int;
    let result = enqueued(queue, time, item);
    assert forall|i: int, j: int| 0 <= i < j < result.len() implies (#[trigger] result[i]).0 <= (
    #[trigger] result[j]).0 by {
        if j < place {
            assert(queue[i].0 <= queue[j].0);
        } else if i > place {
            assert(queue[i - 1].0 <= queue[j - 1].0);
        } else if i < place && j > place {
            assert(queue[i].0 <= queue[j - 1].0);
        }
    }
    assert forall|i: int| 0 <= i < result.len() implies queue.contains(#[trigger] result[i])
        || result[i] == (time, item) by {
        if i < place {
            assert(result[i] == queue[i]);
        } else if i > place {
            assert(result[i] == queue[i - 1]);
        }
    }
}

/// What waits is served first come first served: an item goes behind
/// everything that is for its instant or an earlier one, in front of
/// everything that is for a later one, and nothing else changes its place.
pub proof fn law_first_come_first_served<V>(queue: Seq<(i64, V)>, time: i64, item: V)
    requires
        early_first(queue),
    ensures
        exists|place: int|
            {
                &&& 0 <= place <= queue.len()
                &&& #[trigger] queue.insert(place, (time, item)) == enqueued(queue, time, item)
                &&& forall|i: int| 0 <= i < place ==> (#[trigger] queue[i]).0 <= time
                &&& forall|i: int| place <= i < queue.len() ==> (#[trigger] queue[i]).0 > time
            },
{
    lemma_not_later(queue, time);
    let place = not_later(queue, time) as int;
    assert(queue.insert(place, (time, item)) == enqueued(queue, time, item));
}

/// Taking an entry out keeps a queue running from early to late.
pub proof fn lemma_taken_out<V>(queue: Seq<(i64, V)>, k: int)
    requires
        early_first(queue),
        0 <= k < queue.len(),
    ensures
        early_first(queue.remove(k)),
        forall|i: int|
            0 <= i < queue.remove(k).len() ==> queue.contains(#[trigger] queue.remove(k)[i]),
{
    let result = queue.remove(k);
    assert forall|i: int, j: int| 0 <= i < j < result.len() implies (#[trigger] result[i]).0 <= (
    #[trigger] result[j]).0 by {
        let x = if i < k {
            i
        } else {
            i + 1
        };
        let y = if j < k {
            j
        } else {
            j + 1
        };
        assert(result[i] == queue[x] && result[j] == queue[y]);
        assert(queue[x].0 <= queue[y].0);
    }
    assert forall|i: int| 0 <= i < result.len() implies queue.contains(#[trigger] result[i]) by {
        if i < k {
            assert(result[i] == queue[i]);
        } else {
            assert(result[i] == queue[i + 1]);
        }
    }
}

/// Entries as what they say.
pub open spec fn waiting<T: View>(items: Seq<(i64, T)>) -> Seq<(i64, T::V)> {
    Seq::new(items.len(), |i: int| (items[i].0, items[i].1@))
}

/// Items waiting for instants, early first, and first come first served
/// within one instant.
pub struct Queue<T> {
    pub items: Vec<(i64, T)>,
}

impl<T: View> View for Queue<T> {
    type V = Seq<(i64, T::V)>;

    open spec fn view(&self) -> Seq<(i64, T::V)> {
        waiting(self.items@)
    }
}

impl<T: View> Queue<T> {
    /// An empty queue.
    pub fn new() -> (queue: Self)
        ensures
            queue@ == Seq::<(i64, T::V)>::empty(),
    {
        let queue = Queue { items: Vec::new() };
        proof {
            assert(queue@ =~= Seq::<(i64, T::V)>::empty());
        }
        queue
    }

    /// How many items wait.
    pub fn len(&self) -> (count: usize)
        ensures
            count == self@.len(),
    {
        self.items.len()
    }

    /// The item at a place.
    pub fn item(&self, i: usize) -> (item: &T)
        requires
            i < self@.len(),
        ensures
            item@ == self@[i as int].1,
    {
        &self.items[i].1
    }

    /// The earliest instant that anything waits for.
    pub fn earliest(&self) -> (time: Option<SimTime>)
        ensures
            match time {
                Some(t) => self@.len() > 0 && t.0 == self@[0].0,
                None => self@.len() == 0,
            },
    {
        if self.items.len() == 0 {
            None
        } else {
            Some(SimTime(self.items[0].0))
        }
    }

    /// Queues an item for an instant.
    pub fn enqueue(&mut self, time: SimTime, item: T)
        requires
            early_first(old(self)@),
        ensures
            final(self)@ == enqueued(old(self)@, time.0, item@),
            early_first(final(self)@),
            final(self).items@ == old(self).items@.insert(
                not_later(old(self)@, time.0) as int,
                (time.0, item),
            ),
    {
        let mut place: usize = 0;
        proof {
            lemma_enqueued(self@, time.0, item@);
            lemma_not_later(self@, time.0);
            assert(self@.skip(0) =~= self@);
        }
        while place < self.items.len() && self.items[place].0 <= time.0
            invariant
                0 <= place <= self.items@.len(),
                *self == *old(self),
                not_later(self@, time.0) == place + not_later(self@.skip(place as int), time.0),
            decreases self.items@.len() - place,
        {
            proof {
                let rest = self@.skip(place as int);
                assert(rest[0] == self@[place as int]);
                assert(rest.drop_first() =~= self@.skip(place + 1));
            }
            place += 1;
        }
        proof {
            let rest = self@.skip(place as int);
            if place < self.items@.len() {
                assert(rest[0] == self@[place as int]);
            }
            assert(not_later(self@, time.0) == place);
        }
        self.items.insert(place, (time.0, item));
        proof {
            assert(self@ =~= old(self)@.insert(place as int, (time.0, item@)));
        }
    }

    /// Takes out the item at a place.
    pub fn take_out(&mut self, i: usize) -> (taken: (i64, T))
        requires
            i < old(self)@.len(),
        ensures
            (taken.0, taken.1@) == old(self)@[i as int],
            final(self)@ == old(self)@.remove(i as int),
            taken == old(self).items@[i as int],
            final(self).items@ == old(self).items@.remove(i as int),
    {
        let taken = self.items.remove(i);
        proof {
            assert(self@ =~= old(self)@.remove(i as int));
        }
        taken
    }
}

} // verus!
