//! A map keyed by name that is walked in name order, so that whatever walks it
//! does so the same way in every run.
use vstd::prelude::*;

use crate::text::{chars_of, same_text};

verus! {

/// Whether one text comes before another: by their first differing character,
/// or by being its beginning.
pub open spec fn text_before(a: Seq<char>, b: Seq<char>) -> bool
    decreases a.len(),
{
    if b.len() == 0 {
        false
    } else if a.len() == 0 {
        true
    } else if a[0] != b[0] {
        a[0] < b[0]
    } else {
        text_before(a.drop_first(), b.drop_first())
    }
}

/// Of two texts one comes before the other, unless they are the same, and
/// never both.
pub proof fn lemma_one_comes_first(a: Seq<char>, b: Seq<char>)
    ensures
        text_before(a, b) || text_before(b, a) || a == b,
        !(text_before(a, b) && text_before(b, a)),
        a == b ==> !text_before(a, b),
    decreases a.len(),
{
    if a.len() > 0 && b.len() > 0 {
        if a[0] == b[0] {
            lemma_one_comes_first(a.drop_first(), b.drop_first());
            if a.drop_first() == b.drop_first() {
                assert(a =~= seq![a[0]] + a.drop_first());
                assert(b =~= seq![b[0]] + b.drop_first());
            }
        }
    } else if a.len() == 0 && b.len() == 0 {
        assert(a =~= b);
    }
}

/// What comes before a text comes before everything after it.
pub proof fn lemma_before_is_transitive(a: Seq<char>, b: Seq<char>, c: Seq<char>)
    requires
        text_before(a, b),
        text_before(b, c),
    ensures
        text_before(a, c),
    decreases a.len(),
{
    if a.len() > 0 && a[0] == b[0] && b[0] == c[0] {
        lemma_before_is_transitive(a.drop_first(), b.drop_first(), c.drop_first());
    }
}

/// Whether one text comes before another.
pub fn comes_before(a: &str, b: &str) -> (before: bool)
    ensures
        before == text_before(a@, b@),
{
    let x = chars_of(a);
    let y = chars_of(b);
    let mut i: usize = 0;
    proof {
        assert(a@.skip(0) =~= a@);
        assert(b@.skip(0) =~= b@);
    }
    while i < x.len() && i < y.len()
        invariant
            x@ == a@,
            y@ == b@,
            0 <= i <= x@.len(),
            i <= y@.len(),
            text_before(a@, b@) == text_before(a@.skip(i as int), b@.skip(i as int)),
        decreases x@.len() - i,
    {
        proof {
            assert(a@.skip(i as int)[0] == x@[i as int]);
            assert(b@.skip(i as int)[0] == y@[i as int]);
            assert(a@.skip(i as int).drop_first() =~= a@.skip(i + 1));
            assert(b@.skip(i as int).drop_first() =~= b@.skip(i + 1));
        }
        if x[i] != y[i] {
            return x[i] < y[i];
        }
        i += 1;
    }
    i < y.len()
}

/// Whether names run in order, none twice.
pub open spec fn in_name_order<T>(entries: Seq<(Seq<char>, T)>) -> bool {
    forall|i: int, j: int|
        0 <= i < j < entries.len() ==> text_before(
            (#[trigger] entries[i]).0,
            (#[trigger] entries[j]).0,
        )
}

/// How many leading names come before a name.
pub open spec fn name_rank<T>(entries: Seq<(Seq<char>, T)>, name: Seq<char>) -> nat
    decreases entries.len(),
{
    if entries.len() == 0 || !text_before(entries[0].0, name) {
        0
    } else {
        1 + name_rank(entries.drop_first(), name)
    }
}

/// The entries with a value under a name, in place of one that was there.
pub open spec fn with_name<T>(entries: Seq<(Seq<char>, T)>, name: Seq<char>, value: T) -> Seq<
    (Seq<char>, T),
> {
    let place = name_rank(entries, name) as int;
    if place < entries.len() && entries[place].0 == name {
        entries.update(place, (name, value))
    } else {
        entries.insert(place, (name, value))
    }
}

/// Whether a name is among the entries.
pub open spec fn has_name<T>(entries: Seq<(Seq<char>, T)>, name: Seq<char>) -> bool {
    exists|i: int| 0 <= i < entries.len() && (#[trigger] entries[i]).0 == name
}

/// The rank of a name is its place: names before it stand before it, and no
/// others do.
pub proof fn lemma_name_rank<T>(entries: Seq<(Seq<char>, T)>, name: Seq<char>)
    requires
        in_name_order(entries),
    ensures
        name_rank(entries, name) <= entries.len(),
        forall|i: int|
            0 <= i < name_rank(entries, name) ==> text_before((#[trigger] entries[i]).0, name),
        forall|i: int|
            name_rank(entries, name) <= i < entries.len() ==> !text_before(
                (#[trigger] entries[i]).0,
                name,
            ),
    decreases entries.len(),
{
    if entries.len() > 0 {
        if text_before(entries[0].0, name) {
            let rest = entries.drop_first();
            assert forall|i: int, j: int| 0 <= i < j < rest.len() implies text_before(
                (#[trigger] rest[i]).0,
                (#[trigger] rest[j]).0,
            ) by {
                assert(text_before(entries[i + 1].0, entries[j + 1].0));
            }
            lemma_name_rank(rest, name);
            assert forall|i: int| 0 <= i < name_rank(entries, name) implies text_before(
                (#[trigger] entries[i]).0,
                name,
            ) by {
                if i > 0 {
                    assert(entries[i] == rest[i - 1]);
                }
            }
            assert forall|i: int| name_rank(entries, name) <= i < entries.len() implies !text_before(
                (#[trigger] entries[i]).0,
                name,
            ) by {
                assert(entries[i] == rest[i - 1]);
            }
        } else {
            assert forall|i: int| 0 <= i < entries.len() implies !text_before(
                (#[trigger] entries[i]).0,
                name,
            ) by {
                if i > 0 && text_before(entries[i].0, name) {
                    assert(text_before(entries[0].0, entries[i].0));
                    lemma_before_is_transitive(entries[0].0, entries[i].0, name);
                }
            }
        }
    }
}

/// One text comes before another exactly where they agree up to some place
/// and there the first ends, or has the lesser character.
pub proof fn law_texts_are_ordered_by_their_first_difference(a: Seq<char>, b: Seq<char>)
    ensures
        text_before(a, b) <==> exists|k: int|
            {
                &&& 0 <= k <= a.len()
                &&& k < b.len()
                &&& #[trigger] a.take(k) == b.take(k)
                &&& k == a.len() || a[k] < b[k]
            },
    decreases a.len(),
{
    let differs = |x: Seq<char>, y: Seq<char>, k: int|
        {
            &&& 0 <= k <= x.len()
            &&& k < y.len()
            &&& x.take(k) == y.take(k)
            &&& k == x.len() || x[k] < y[k]
        };
    if b.len() > 0 && a.len() == 0 {
        assert(a.take(0) =~= b.take(0));
    } else if b.len() > 0 && a[0] != b[0] {
        assert(a.take(0) =~= b.take(0));
        assert forall|k: int| #[trigger] differs(a, b, k) implies k == 0 by {
            if k > 0 {
                assert(a.take(k)[0] == b.take(k)[0]);
            }
        }
        if exists|k: int|
            {
                &&& 0 <= k <= a.len()
                &&& k < b.len()
                &&& #[trigger] a.take(k) == b.take(k)
                &&& k == a.len() || a[k] < b[k]
            } {
            let k = choose|k: int|
                {
                    &&& 0 <= k <= a.len()
                    &&& k < b.len()
                    &&& #[trigger] a.take(k) == b.take(k)
                    &&& k == a.len() || a[k] < b[k]
                };
            assert(differs(a, b, k));
        }
    } else if b.len() > 0 {
        let x = a.drop_first();
        let y = b.drop_first();
        law_texts_are_ordered_by_their_first_difference(x, y);
        if text_before(x, y) {
            let k = choose|k: int|
                {
                    &&& 0 <= k <= x.len()
                    &&& k < y.len()
                    &&& #[trigger] x.take(k) == y.take(k)
                    &&& k == x.len() || x[k] < y[k]
                };
            assert(a.take(k + 1) =~= seq![a[0]] + x.take(k));
            assert(b.take(k + 1) =~= seq![b[0]] + y.take(k));
        }
        if exists|k: int|
            {
                &&& 0 <= k <= a.len()
                &&& k < b.len()
                &&& #[trigger] a.take(k) == b.take(k)
                &&& k == a.len() || a[k] < b[k]
            } {
            let k = choose|k: int|
                {
                    &&& 0 <= k <= a.len()
                    &&& k < b.len()
                    &&& #[trigger] a.take(k) == b.take(k)
                    &&& k == a.len() || a[k] < b[k]
                };
            assert(k > 0);
            assert(x.take(k - 1) =~= a.take(k).drop_first());
            assert(y.take(k - 1) =~= b.take(k).drop_first());
        }
    }
}

/// Putting a value under a name leaves nothing else under it, and adds
/// nothing under another name.
pub proof fn law_putting_replaces_what_was_there<T>(
    entries: Seq<(Seq<char>, T)>,
    name: Seq<char>,
    value: T,
    other: Seq<char>,
    held: T,
)
    requires
        in_name_order(entries),
    ensures
        with_name(entries, name, value).contains((other, held)) <==> if other == name {
            held == value
        } else {
            entries.contains((other, held))
        },
{
    law_putting_keeps_name_order(entries, name, value);
    lemma_name_rank(entries, name);
    let place = name_rank(entries, name) as int;
    let result = with_name(entries, name, value);
    let there = place < entries.len() && entries[place].0 == name;
    assert(result[place] == (name, value));
    if result.contains((other, held)) {
        let k = choose|k: int| 0 <= k < result.len() && result[k] == (other, held);
        if k != place {
            lemma_one_comes_first(name, name);
            if k < place {
                assert(text_before(result[k].0, result[place].0));
                assert(entries[k] == result[k]);
            } else {
                assert(text_before(result[place].0, result[k].0));
                assert(entries[if there { k } else { k - 1 }] == result[k]);
            }
        }
    }
    if other != name && entries.contains((other, held)) {
        let k = choose|k: int| 0 <= k < entries.len() && entries[k] == (other, held);
        assert(entries[k].0 != name);
    }
}

/// Putting a value under a name keeps the order, and every other name.
pub proof fn law_putting_keeps_name_order<T>(
    entries: Seq<(Seq<char>, T)>,
    name: Seq<char>,
    value: T,
)
    requires
        in_name_order(entries),
    ensures
        in_name_order(with_name(entries, name, value)),
        forall|i: int|
            0 <= i < entries.len() && (#[trigger] entries[i]).0 != name ==> with_name(
                entries,
                name,
                value,
            ).contains(entries[i]),
        with_name(entries, name, value).contains((name, value)),
        with_name(entries, name, value).len() == entries.len() + (if has_name(entries, name) {
            0int
        } else {
            1int
        }),
{
    lemma_name_rank(entries, name);
    let place = name_rank(entries, name) as int;
    let result = with_name(entries, name, value);
    let there = place < entries.len() && entries[place].0 == name;
    if has_name(entries, name) {
        let k = choose|k: int| 0 <= k < entries.len() && (#[trigger] entries[k]).0 == name;
        lemma_one_comes_first(name, name);
        if k < place {
            assert(text_before(entries[k].0, name));
        } else if k > place {
            assert(text_before(entries[place].0, entries[k].0));
            assert(!text_before(entries[place].0, name));
        }
        assert(there);
    }
    assert forall|i: int, j: int| 0 <= i < j < result.len() implies text_before(
        (#[trigger] result[i]).0,
        (#[trigger] result[j]).0,
    ) by {
        if there {
            assert(result[i].0 == entries[i].0 && result[j].0 == entries[j].0);
            assert(text_before(entries[i].0, entries[j].0));
        } else {
            if j < place {
                assert(text_before(entries[i].0, entries[j].0));
            } else if j == place {
                assert(text_before(entries[i].0, name));
            } else if i == place {
                assert(!text_before(entries[j - 1].0, name));
                lemma_one_comes_first(entries[j - 1].0, name);
                if entries[j - 1].0 == name {
                    if j - 1 > place {
                        assert(text_before(entries[place].0, entries[j - 1].0));
                        assert(!text_before(entries[place].0, name));
                    }
                }
            } else if i < place {
                assert(text_before(entries[i].0, entries[j - 1].0));
            } else {
                assert(text_before(entries[i - 1].0, entries[j - 1].0));
            }
        }
    }
    assert(result[place] == (name, value));
    assert forall|i: int| 0 <= i < entries.len() && (#[trigger] entries[i]).0 != name implies result.contains(
        entries[i],
    ) by {
        if there || i < place {
            assert(result[i] == entries[i]);
        } else {
            assert(result[i + 1] == entries[i]);
        }
    }
}

/// A map keyed by name, walked in name order.
#[derive(Debug)]
pub struct NameMap<T> {
    entries: Vec<(String, T)>,
}

impl<T> View for NameMap<T> {
    type V = Seq<(Seq<char>, T)>;

    closed spec fn view(&self) -> Seq<(Seq<char>, T)> {
        Seq::new(self.entries@.len(), |i: int| (self.entries@[i].0@, self.entries@[i].1))
    }
}

impl<T> NameMap<T> {
    /// An empty map.
    pub fn new() -> (map: Self)
        ensures
            map@ == Seq::<(Seq<char>, T)>::empty(),
    {
        let map = NameMap { entries: Vec::new() };
        proof {
            assert(map@ =~= Seq::<(Seq<char>, T)>::empty());
        }
        map
    }

    /// How many names there are.
    pub fn len(&self) -> (count: usize)
        ensures
            count == self@.len(),
    {
        self.entries.len()
    }

    /// The name at a place.
    pub fn name(&self, i: usize) -> (name: &str)
        requires
            i < self@.len(),
        ensures
            name@ == self@[i as int].0,
    {
        self.entries[i].0.as_str()
    }

    /// The value at a place.
    pub fn value(&self, i: usize) -> (value: &T)
        requires
            i < self@.len(),
        ensures
            *value == self@[i as int].1,
    {
        &self.entries[i].1
    }

    /// How many leading names come before a name.
    fn rank(&self, name: &str) -> (place: usize)
        requires
            in_name_order(self@),
        ensures
            place == name_rank(self@, name@),
            place <= self@.len(),
    {
        let mut place: usize = 0;
        proof {
            assert(self@.skip(0) =~= self@);
        }
        while place < self.entries.len() && comes_before(self.entries[place].0.as_str(), name)
            invariant
                0 <= place <= self.entries@.len(),
                name_rank(self@, name@) == place + name_rank(self@.skip(place as int), name@),
            decreases self.entries@.len() - place,
        {
            proof {
                assert(self@.skip(place as int)[0] == self@[place as int]);
                assert(self@.skip(place as int).drop_first() =~= self@.skip(place + 1));
            }
            place += 1;
        }
        proof {
            if place < self.entries@.len() {
                assert(self@.skip(place as int)[0] == self@[place as int]);
            }
        }
        place
    }

    /// The place of a name, if it is there.
    pub fn find(&self, name: &str) -> (place: Option<usize>)
        requires
            in_name_order(self@),
        ensures
            match place {
                Some(i) => i < self@.len() && self@[i as int].0 == name@,
                None => !has_name(self@, name@),
            },
    {
        let place: usize = self.rank(name);
        if place < self.entries.len() && same_text(self.entries[place].0.as_str(), name) {
            return Some(place);
        }
        proof {
            lemma_name_rank(self@, name@);
            if has_name(self@, name@) {
                let k = choose|k: int| 0 <= k < self@.len() && (#[trigger] self@[k]).0 == name@;
                lemma_one_comes_first(name@, name@);
                if k < place {
                    assert(text_before(self@[k].0, name@));
                } else if k > place {
                    assert(text_before(self@[place as int].0, self@[k].0));
                }
            }
        }
        None
    }

    /// Puts a value under a name, in place of one that was there. Returns
    /// whether the name is new.
    pub fn put(&mut self, name: String, value: T) -> (fresh: bool)
        requires
            in_name_order(old(self)@),
        ensures
            final(self)@ == with_name(old(self)@, name@, value),
            in_name_order(final(self)@),
            fresh == !has_name(old(self)@, name@),
    {
        proof {
            law_putting_keeps_name_order(self@, name@, value);
        }
        let place: usize = self.rank(name.as_str());
        if place < self.entries.len() && same_text(
            self.entries[place].0.as_str(),
            name.as_str(),
        ) {
            proof {
                assert(self@[place as int].0 == name@);
            }
            let ghost text = name@;
            self.entries.set(place, (name, value));
            proof {
                assert(self@ =~= old(self)@.update(place as int, (text, value)));
            }
            false
        } else {
            let ghost text = name@;
            self.entries.insert(place, (name, value));
            proof {
                assert(self@ =~= old(self)@.insert(place as int, (text, value)));
            }
            true
        }
    }

    /// Takes out the entry at a place.
    pub fn take_out(&mut self, i: usize) -> (taken: (String, T))
        requires
            i < old(self)@.len(),
        ensures
            (taken.0@, taken.1) == old(self)@[i as int],
            final(self)@ == old(self)@.remove(i as int),
    {
        let taken = self.entries.remove(i);
        proof {
            assert(self@ =~= old(self)@.remove(i as int));
        }
        taken
    }
}

} // verus!
