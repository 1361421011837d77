//! The event schedule: which components are due, and when.
use vstd::prelude::*;

use crate::time::SimTime;

verus! {

/// One thing due: an instant in nanoseconds, and the declaration index of the
/// component that steps at it.
pub type Due = (i64, usize);

/// Whether one due entry comes before another: by instant, then by
/// declaration index.
pub open spec fn before(a: Due, b: Due) -> bool {
    a.0 < b.0 || (a.0 == b.0 && a.1 < b.1)
}

/// Whether a queue is in order and holds nothing twice.
pub open spec fn in_order(queue: Seq<Due>) -> bool {
    forall|i: int, j: int|
        0 <= i < j < queue.len() ==> before(#[trigger] queue[i], #[trigger] queue[j])
}

/// How many leading entries come before `due`.
pub open spec fn rank(queue: Seq<Due>, due: Due) -> nat
    decreases queue.len(),
{
    if queue.len() == 0 || !before(queue[0], due) {
        0
    } else {
        1 + rank(queue.drop_first(), due)
    }
}

/// The queue with `due` in its place; unchanged where it is there already.
pub open spec fn inserted(queue: Seq<Due>, due: Due) -> Seq<Due> {
    let place = rank(queue, due) as int;
    if place < queue.len() && queue[place] == due {
        queue
    } else {
        queue.insert(place, due)
    }
}

/// The queue without anything due for `index`.
pub open spec fn without(queue: Seq<Due>, index: usize) -> Seq<Due> {
    queue.filter(|due: Due| due.1 != index)
}

/// The earliest instant that anything is due at.
pub open spec fn earliest_of(queue: Seq<Due>) -> Option<i64> {
    if queue.len() == 0 {
        None
    } else {
        Some(queue[0].0)
    }
}

/// How many leading entries are due at `instant`.
pub open spec fn lead(queue: Seq<Due>, instant: i64) -> nat
    decreases queue.len(),
{
    if queue.len() == 0 || queue[0].0 != instant {
        0
    } else {
        1 + lead(queue.drop_first(), instant)
    }
}

/// The declaration indexes due at the earliest instant, earliest declared
/// first.
pub open spec fn due_first(queue: Seq<Due>) -> Seq<usize> {
    let count = lead(queue, queue[0].0);
    Seq::new(count, |i: int| queue[i].1)
}

/// The queue after its earliest instant.
pub open spec fn after_first(queue: Seq<Due>) -> Seq<Due> {
    queue.skip(lead(queue, queue[0].0) as int)
}

/// Every entry ranked before `due` comes before it, and no other does.
pub proof fn lemma_rank(queue: Seq<Due>, due: Due)
    requires
        in_order(queue),
    ensures
        rank(queue, due) <= queue.len(),
        forall|i: int| 0 <= i < rank(queue, due) ==> before(#[trigger] queue[i], due),
        forall|i: int| rank(queue, due) <= i < queue.len() ==> !before(#[trigger] queue[i], due),
    decreases queue.len(),
{
    if queue.len() > 0 {
        if before(queue[0], due) {
            let rest = queue.drop_first();
            assert forall|i: int, j: int| 0 <= i < j < rest.len() implies before(
                #[trigger] rest[i],
                #[trigger] rest[j],
            ) by {
                assert(before(queue[i + 1], queue[j + 1]));
            }
            lemma_rank(rest, due);
            assert forall|i: int| 0 <= i < rank(queue, due) implies before(
                #[trigger] queue[i],
                due,
            ) by {
                if i > 0 {
                    assert(queue[i] == rest[i - 1]);
                }
            }
            assert forall|i: int| rank(queue, due) <= i < queue.len() implies !before(
                #[trigger] queue[i],
                due,
            ) by {
                assert(queue[i] == rest[i - 1]);
            }
        } else {
            assert forall|i: int| 0 <= i < queue.len() implies !before(
                #[trigger] queue[i],
                due,
            ) by {
                if i > 0 {
                    assert(before(queue[0], queue[i]));
                }
            }
        }
    }
}

/// Inserting keeps the order, adds what was inserted, and drops nothing.
pub proof fn lemma_inserted(queue: Seq<Due>, due: Due)
    requires
        in_order(queue),
    ensures
        in_order(inserted(queue, due)),
        forall|d: Due|
            #[trigger] inserted(queue, due).contains(d) <==> queue.contains(d) || d == due,
{
    lemma_rank(queue, due);
    let place = rank(queue, due) as int;
    let result = inserted(queue, due);
    if place < queue.len() && queue[place] == due {
        assert(queue.contains(due));
    } else {
        assert forall|i: int, j: int| 0 <= i < j < result.len() implies before(
            #[trigger] result[i],
            #[trigger] result[j],
        ) by {
            if j < place {
                assert(before(queue[i], queue[j]));
            } else if j == place {
                assert(before(queue[i], due));
            } else if i == place {
                assert(!before(queue[j - 1], due));
                if j - 1 > place {
                    assert(before(queue[place], queue[j - 1]));
                }
                assert(queue[place] != due);
                assert(!before(queue[place], due));
            } else if i < place {
                assert(before(queue[i], queue[j - 1]));
            } else {
                assert(before(queue[i - 1], queue[j - 1]));
            }
        }
        assert forall|d: Due|
            #[trigger] result.contains(d) <==> queue.contains(d) || d == due by {
            if queue.contains(d) {
                let i = choose|i: int| 0 <= i < queue.len() && queue[i] == d;
                if i < place {
                    assert(result[i] == d);
                } else {
                    assert(result[i + 1] == d);
                }
            }
            if d == due {
                assert(result[place] == d);
            }
            if result.contains(d) {
                let i = choose|i: int| 0 <= i < result.len() && result[i] == d;
                if i < place {
                    assert(queue[i] == d);
                } else if i > place {
                    assert(queue[i - 1] == d);
                }
            }
        }
    }
}

/// Scheduling adds one thing that is due and takes nothing away, the queue
/// runs from early to late with the earlier declared first within an instant,
/// and its front is the earliest instant that anything is due at.
pub proof fn law_scheduling_keeps_the_earliest_in_front(queue: Seq<Due>, due: Due)
    requires
        in_order(queue),
    ensures
        in_order(inserted(queue, due)),
        forall|d: Due|
            #[trigger] inserted(queue, due).contains(d) <==> queue.contains(d) || d == due,
        forall|i: int, j: int|
            0 <= i < j < queue.len() ==> (#[trigger] queue[i]).0 < (#[trigger] queue[j]).0 || (
            queue[i].0 == queue[j].0 && queue[i].1 < queue[j].1),
        earliest_of(queue) is None <==> forall|d: Due| !#[trigger] queue.contains(d),
        earliest_of(queue) is Some ==> exists|d: Due| #[trigger]
            queue.contains(d) && d.0 == earliest_of(queue)->0,
        earliest_of(queue) is Some ==> forall|d: Due| #[trigger]
            queue.contains(d) ==> earliest_of(queue)->0 <= d.0,
{
    lemma_inserted(queue, due);
    if queue.len() > 0 {
        assert(queue.contains(queue[0]));
        assert forall|d: Due| #[trigger] queue.contains(d) implies queue[0].0 <= d.0 by {
            let i = choose|i: int| 0 <= i < queue.len() && queue[i] == d;
            if i > 0 {
                assert(before(queue[0], queue[i]));
            }
        }
    }
}

/// Dropping everything due for one index leaves everyone else exactly as they
/// were, co-due components among them.
pub proof fn law_removal_leaves_others_untouched(queue: Seq<Due>, index: usize)
    requires
        in_order(queue),
    ensures
        in_order(without(queue, index)),
        forall|d: Due|
            #[trigger] without(queue, index).contains(d) <==> queue.contains(d) && d.1 != index,
    decreases queue.len(),
{
    let keep = |due: Due| due.1 != index;
    reveal(Seq::filter);
    if queue.len() > 0 {
        let front = queue.drop_last();
        assert forall|i: int, j: int| 0 <= i < j < front.len() implies before(
            #[trigger] front[i],
            #[trigger] front[j],
        ) by {
            assert(before(queue[i], queue[j]));
        }
        law_removal_leaves_others_untouched(front, index);
        let kept = without(front, index);
        let result = without(queue, index);
        let last = queue.last();
        assert(result == if keep(last) {
            kept.push(last)
        } else {
            kept
        });
        assert forall|d: Due|
            #[trigger] result.contains(d) <==> queue.contains(d) && d.1 != index by {
            if queue.contains(d) && d.1 != index {
                let i = choose|i: int| 0 <= i < queue.len() && queue[i] == d;
                if i < front.len() {
                    assert(front[i] == d);
                    assert(front.contains(d));
                    assert(kept.contains(d));
                    let k = choose|k: int| 0 <= k < kept.len() && kept[k] == d;
                    assert(result[k] == d);
                } else {
                    assert(result[kept.len() as int] == d);
                }
            }
            if result.contains(d) {
                let k = choose|k: int| 0 <= k < result.len() && result[k] == d;
                if k < kept.len() {
                    assert(kept[k] == d);
                    assert(kept.contains(d));
                    assert(front.contains(d));
                    let i = choose|i: int| 0 <= i < front.len() && front[i] == d;
                    assert(queue[i] == d);
                } else {
                    assert(queue[queue.len() - 1] == d);
                }
            }
        }
        assert forall|i: int, j: int| 0 <= i < j < result.len() implies before(
            #[trigger] result[i],
            #[trigger] result[j],
        ) by {
            if j < kept.len() {
                assert(before(kept[i], kept[j]));
            } else {
                assert(kept.contains(kept[i]));
                assert(front.contains(kept[i]));
                let k = choose|k: int| 0 <= k < front.len() && front[k] == kept[i];
                assert(before(queue[k], queue[queue.len() - 1]));
            }
        }
    }
}

/// The leading entries of an ordered queue are everything due at its earliest
/// instant, in declaration order, and what is left is due later.
pub proof fn law_earliest_instant(queue: Seq<Due>)
    requires
        in_order(queue),
        queue.len() > 0,
    ensures
        due_first(queue).len() >= 1,
        lead(queue, queue[0].0) <= queue.len(),
        in_order(after_first(queue)),
        forall|i: int, j: int|
            0 <= i < j < due_first(queue).len() ==> #[trigger] due_first(queue)[i]
                < #[trigger] due_first(queue)[j],
        forall|index: usize|
            #[trigger] due_first(queue).contains(index) <==> queue.contains((queue[0].0, index)),
        forall|d: Due|
            #[trigger] after_first(queue).contains(d) <==> queue.contains(d) && d.0 > queue[0].0,
{
    let instant = queue[0].0;
    lemma_lead(queue, instant);
    let count = lead(queue, instant) as int;
    let due = due_first(queue);
    let rest = after_first(queue);
    assert forall|i: int, j: int| 0 <= i < j < due.len() implies #[trigger] due[i]
        < #[trigger] due[j] by {
        assert(before(queue[i], queue[j]));
        assert(queue[i].0 == instant && queue[j].0 == instant);
    }
    assert forall|i: int, j: int| 0 <= i < j < rest.len() implies before(
        #[trigger] rest[i],
        #[trigger] rest[j],
    ) by {
        assert(before(queue[count + i], queue[count + j]));
    }
    assert forall|index: usize|
        #[trigger] due.contains(index) <==> queue.contains((instant, index)) by {
        if due.contains(index) {
            let i = choose|i: int| 0 <= i < due.len() && due[i] == index;
            assert(queue[i].0 == instant);
            assert(queue[i] == (instant, index));
        }
        if queue.contains((instant, index)) {
            let i = choose|i: int| 0 <= i < queue.len() && queue[i] == (instant, index);
            if i >= count {
                assert(queue[i].0 != instant);
            }
            assert(due[i] == index);
        }
    }
    assert forall|d: Due|
        #[trigger] rest.contains(d) <==> queue.contains(d) && d.0 > instant by {
        if rest.contains(d) {
            let i = choose|i: int| 0 <= i < rest.len() && rest[i] == d;
            assert(queue[count + i] == d);
            assert(queue[count + i].0 != instant);
            if count + i > 0 {
                assert(before(queue[0], queue[count + i]));
            }
        }
        if queue.contains(d) && d.0 > instant {
            let i = choose|i: int| 0 <= i < queue.len() && queue[i] == d;
            if i < count {
                assert(queue[i].0 == instant);
            }
            assert(rest[i - count] == d);
        }
    }
}

/// The leading entries are those at the instant, and none after them is.
proof fn lemma_lead(queue: Seq<Due>, instant: i64)
    requires
        in_order(queue),
        forall|i: int| 0 <= i < queue.len() ==> (#[trigger] queue[i]).0 >= instant,
    ensures
        lead(queue, instant) <= queue.len(),
        forall|i: int| 0 <= i < lead(queue, instant) ==> (#[trigger] queue[i]).0 == instant,
        forall|i: int|
            lead(queue, instant) <= i < queue.len() ==> (#[trigger] queue[i]).0 > instant,
    decreases queue.len(),
{
    if queue.len() > 0 {
        if queue[0].0 == instant {
            let rest = queue.drop_first();
            assert forall|i: int, j: int| 0 <= i < j < rest.len() implies before(
                #[trigger] rest[i],
                #[trigger] rest[j],
            ) by {
                assert(before(queue[i + 1], queue[j + 1]));
            }
            assert forall|i: int| 0 <= i < rest.len() implies (#[trigger] rest[i]).0
                >= instant by {
                assert(queue[i + 1].0 >= instant);
            }
            lemma_lead(rest, instant);
            assert forall|i: int| 0 <= i < lead(queue, instant) implies (#[trigger] queue[i]).0
                == instant by {
                if i > 0 {
                    assert(queue[i] == rest[i - 1]);
                }
            }
            assert forall|i: int| lead(queue, instant) <= i < queue.len() implies (
            #[trigger] queue[i]).0 > instant by {
                assert(queue[i] == rest[i - 1]);
            }
        } else {
            assert forall|i: int| 0 <= i < queue.len() implies (#[trigger] queue[i]).0
                > instant by {
                if i > 0 {
                    assert(before(queue[0], queue[i]));
                }
            }
        }
    }
}

/// The event schedule: due time and declaration index of each due component,
/// earliest instant first, declaration order within an instant.
#[derive(Debug)]
pub struct Schedule {
    pub queue: Vec<Due>,
}

impl View for Schedule {
    type V = Seq<Due>;

    open spec fn view(&self) -> Seq<Due> {
        self.queue@
    }
}

impl Schedule {
    /// The queue is in order and holds nothing twice.
    pub open spec fn wf(&self) -> bool {
        in_order(self@)
    }

    /// A schedule with nothing due.
    pub fn new() -> (schedule: Self)
        ensures
            schedule@ == Seq::<Due>::empty(),
            schedule.wf(),
    {
        Schedule { queue: Vec::new() }
    }

    /// Makes a component due at an instant.
    pub fn insert(&mut self, due: SimTime, index: usize)
        requires
            old(self).wf(),
        ensures
            final(self).wf(),
            final(self)@ == inserted(old(self)@, (due.0, index)),
    {
        let entry: Due = (due.0, index);
        let mut place: usize = 0;
        proof {
            lemma_inserted(self@, entry);
            assert(self@.skip(0) =~= self@);
        }
        while place < self.queue.len() && (self.queue[place].0 < entry.0 || (self.queue[place].0
            == entry.0 && self.queue[place].1 < entry.1))
            invariant
                self@ == old(self)@,
                0 <= place <= self@.len(),
                rank(self@, entry) == place + rank(self@.skip(place as int), entry),
            decreases self@.len() - place,
        {
            proof {
                let rest = self@.skip(place as int);
                assert(rest[0] == self@[place as int]);
                assert(rest.drop_first() =~= self@.skip(place + 1));
            }
            place += 1;
        }
        proof {
            let rest = self@.skip(place as int);
            if place < self@.len() {
                assert(rest[0] == self@[place as int]);
            }
            assert(rank(self@, entry) == place);
        }
        if place < self.queue.len() && self.queue[place].0 == entry.0 && self.queue[place].1
            == entry.1 {
            return;
        }
        self.queue.insert(place, entry);
    }

    /// The earliest instant that anything is due at.
    pub fn earliest(&self) -> (instant: Option<SimTime>)
        ensures
            match instant {
                Some(t) => earliest_of(self@) == Some(t.0),
                None => earliest_of(self@) is None,
            },
    {
        if self.queue.len() == 0 {
            None
        } else {
            Some(SimTime(self.queue[0].0))
        }
    }

    /// Takes the earliest instant out, with everyone due at it in declaration
    /// order.
    pub fn pop_earliest(&mut self) -> (popped: Option<(SimTime, Vec<usize>)>)
        requires
            old(self).wf(),
        ensures
            final(self).wf(),
            match popped {
                Some((instant, due)) => old(self)@.len() > 0 && instant.0 == old(self)@[0].0
                    && due@ == due_first(old(self)@) && final(self)@ == after_first(old(self)@),
                None => old(self)@.len() == 0 && final(self)@ == old(self)@,
            },
    {
        if self.queue.len() == 0 {
            return None;
        }
        let instant: i64 = self.queue[0].0;
        let mut due: Vec<usize> = Vec::new();
        let mut count: usize = 0;
        proof {
            law_earliest_instant(self@);
            assert(self@.skip(0) =~= self@);
        }
        while count < self.queue.len() && self.queue[count].0 == instant
            invariant
                self@ == old(self)@,
                0 <= count <= self@.len(),
                due@.len() == count,
                forall|i: int| 0 <= i < count ==> #[trigger] due@[i] == self@[i].1,
                lead(self@, instant) == count + lead(self@.skip(count as int), instant),
            decreases self@.len() - count,
        {
            proof {
                let rest = self@.skip(count as int);
                assert(rest[0] == self@[count as int]);
                assert(rest.drop_first() =~= self@.skip(count + 1));
            }
            due.push(self.queue[count].1);
            count += 1;
        }
        proof {
            let rest = self@.skip(count as int);
            if count < self@.len() {
                assert(rest[0] == self@[count as int]);
            }
            assert(lead(self@, instant) == count);
            assert(due@ =~= due_first(self@));
        }
        self.queue = self.queue.split_off(count);
        proof {
            assert(self@ =~= after_first(old(self)@));
        }
        Some((SimTime(instant), due))
    }

    /// Unschedules `index` everywhere it is due; called when a component
    /// leaves, so a departed slot can never be stepped. An instant emptied by
    /// it is gone entirely rather than left with no one due.
    pub fn remove_index(&mut self, index: usize)
        requires
            old(self).wf(),
        ensures
            final(self).wf(),
            final(self)@ == without(old(self)@, index),
    {
        let mut kept: Vec<Due> = Vec::new();
        let mut i: usize = 0;
        proof {
            law_removal_leaves_others_untouched(self@, index);
            reveal(Seq::filter);
            assert(without(self@.take(0), index) =~= Seq::<Due>::empty());
        }
        while i < self.queue.len()
            invariant
                self@ == old(self)@,
                0 <= i <= self@.len(),
                kept@ == without(self@.take(i as int), index),
            decreases self@.len() - i,
        {
            proof {
                reveal(Seq::filter);
                assert(self@.take(i + 1).drop_last() =~= self@.take(i as int));
                assert(self@.take(i + 1).last() == self@[i as int]);
            }
            let entry = self.queue[i];
            if entry.1 != index {
                kept.push(entry);
            }
            i += 1;
        }
        proof {
            assert(self@.take(i as int) =~= self@);
        }
        self.queue = kept;
    }
}

} // verus!
