//! Publish and subscribe within one process: who waits for what, what has
//! been published since, and the order it is handed over in.
use vstd::prelude::*;

use crate::ids::ComponentPath;
use crate::keyexpr::KeyExpr;
use crate::messages::{Message, MessageModel};
use crate::names::comes_before;
use crate::time::SimTime;
use crate::tree::Tree;

verus! {

// ---------------------------------------------------------------------------
// The order of an inbox
// ---------------------------------------------------------------------------

/// Whether one path comes before another: by their first differing name, or
/// by being its beginning.
pub open spec fn path_before(a: Seq<Seq<char>>, b: Seq<Seq<char>>) -> bool
    decreases a.len(),
{
    if b.len() == 0 {
        false
    } else if a.len() == 0 {
        true
    } else if a[0] != b[0] {
        crate::names::text_before(a[0], b[0])
    } else {
        path_before(a.drop_first(), b.drop_first())
    }
}

/// Of two paths one comes before the other, unless they are the same, and
/// never both.
pub proof fn lemma_one_path_comes_first(a: Seq<Seq<char>>, b: Seq<Seq<char>>)
    ensures
        path_before(a, b) || path_before(b, a) || a == b,
        !(path_before(a, b) && path_before(b, a)),
    decreases a.len(),
{
    if a.len() > 0 && b.len() > 0 {
        crate::names::lemma_one_comes_first(a[0], b[0]);
        if a[0] == b[0] {
            lemma_one_path_comes_first(a.drop_first(), b.drop_first());
            if a.drop_first() == b.drop_first() {
                assert(a =~= seq![a[0]] + a.drop_first());
                assert(b =~= seq![b[0]] + b.drop_first());
            }
        }
    } else if a.len() == 0 && b.len() == 0 {
        assert(a =~= b);
    }
}

/// What comes before a path comes before everything after it.
pub proof fn lemma_path_before_is_transitive(
    a: Seq<Seq<char>>,
    b: Seq<Seq<char>>,
    c: Seq<Seq<char>>,
)
    requires
        path_before(a, b),
        path_before(b, c),
    ensures
        path_before(a, c),
    decreases a.len(),
{
    if a.len() > 0 {
        if a[0] == b[0] && b[0] == c[0] {
            lemma_path_before_is_transitive(a.drop_first(), b.drop_first(), c.drop_first());
        } else if a[0] != b[0] && b[0] != c[0] {
            crate::names::lemma_before_is_transitive(a[0], b[0], c[0]);
            crate::names::lemma_one_comes_first(a[0], c[0]);
        }
    }
}

/// Whether one path comes before another.
pub fn path_comes_before(a: &ComponentPath, b: &ComponentPath) -> (before: bool)
    ensures
        before == path_before(a@, b@),
{
    let mut i: usize = 0;
    proof {
        assert(a@.skip(0) =~= a@);
        assert(b@.skip(0) =~= b@);
    }
    while i < a.len() && i < b.len()
        invariant
            0 <= i <= a@.len(),
            i <= b@.len(),
            path_before(a@, b@) == path_before(a@.skip(i as int), b@.skip(i as int)),
        decreases a@.len() - i,
    {
        proof {
            assert(a@.skip(i as int)[0] == a@[i as int]);
            assert(b@.skip(i as int)[0] == b@[i as int]);
            assert(a@.skip(i as int).drop_first() =~= a@.skip(i + 1));
            assert(b@.skip(i as int).drop_first() =~= b@.skip(i + 1));
        }
        if a.segment(i) != b.segment(i) {
            return comes_before(a.segment(i).as_str(), b.segment(i).as_str());
        }
        i += 1;
    }
    i < b.len()
}

/// Whether one message goes in front of another: by publisher, and of one
/// publisher's by their numbers.
pub open spec fn sent_before(a: MessageModel, b: MessageModel) -> bool {
    path_before(a.publisher, b.publisher) || (a.publisher == b.publisher && a.seq < b.seq)
}

proof fn lemma_sent_before_is_transitive(a: MessageModel, b: MessageModel, c: MessageModel)
    requires
        sent_before(a, b),
        sent_before(b, c),
    ensures
        sent_before(a, c),
{
    if path_before(a.publisher, b.publisher) && path_before(b.publisher, c.publisher) {
        lemma_path_before_is_transitive(a.publisher, b.publisher, c.publisher);
    }
}

proof fn lemma_never_both_first(a: MessageModel, b: MessageModel)
    ensures
        !(sent_before(a, b) && sent_before(b, a)),
        sent_before(a, b) || sent_before(b, a) || (a.publisher == b.publisher && a.seq == b.seq),
{
    lemma_one_path_comes_first(a.publisher, b.publisher);
}

/// How many leading messages a message does not go in front of.
pub open spec fn in_front(list: Seq<MessageModel>, m: MessageModel) -> nat
    decreases list.len(),
{
    if list.len() == 0 || sent_before(m, list[0]) {
        0
    } else {
        1 + in_front(list.drop_first(), m)
    }
}

/// A list with a message behind everything that it does not go in front of.
pub open spec fn filed(list: Seq<MessageModel>, m: MessageModel) -> Seq<MessageModel> {
    list.insert(in_front(list, m) as int, m)
}

/// Messages in the order they are handed over in.
pub open spec fn in_order(messages: Seq<MessageModel>) -> Seq<MessageModel>
    decreases messages.len(),
{
    if messages.len() == 0 {
        Seq::empty()
    } else {
        filed(in_order(messages.drop_last()), messages.last())
    }
}

/// Whether no message stands behind one that it goes in front of.
pub open spec fn is_sorted(list: Seq<MessageModel>) -> bool {
    forall|i: int, j: int|
        0 <= i < j < list.len() ==> !sent_before(#[trigger] list[j], #[trigger] list[i])
}

proof fn lemma_in_front(list: Seq<MessageModel>, m: MessageModel)
    requires
        is_sorted(list),
    ensures
        in_front(list, m) <= list.len(),
        forall|i: int| 0 <= i < in_front(list, m) ==> !sent_before(m, #[trigger] list[i]),
        forall|i: int|
            in_front(list, m) <= i < list.len() ==> !sent_before(#[trigger] list[i], m),
    decreases list.len(),
{
    if list.len() > 0 {
        if sent_before(m, list[0]) {
            assert forall|i: int| 0 <= i < list.len() implies !sent_before(
                #[trigger] list[i],
                m,
            ) by {
                if sent_before(list[i], m) {
                    lemma_sent_before_is_transitive(list[i], m, list[0]);
                    if i == 0 {
                        lemma_never_both_first(list[0], list[0]);
                    }
                }
            }
        } else {
            let rest = list.drop_first();
            assert forall|i: int, j: int| 0 <= i < j < rest.len() implies !sent_before(
                #[trigger] rest[j],
                #[trigger] rest[i],
            ) by {
                assert(!sent_before(list[j + 1], list[i + 1]));
            }
            lemma_in_front(rest, m);
            assert forall|i: int| 0 <= i < in_front(list, m) implies !sent_before(
                m,
                #[trigger] list[i],
            ) by {
                if i > 0 {
                    assert(list[i] == rest[i - 1]);
                }
            }
            assert forall|i: int| in_front(list, m) <= i < list.len() implies !sent_before(
                #[trigger] list[i],
                m,
            ) by {
                assert(list[i] == rest[i - 1]);
            }
        }
    }
}

proof fn lemma_filed(list: Seq<MessageModel>, m: MessageModel)
    requires
        is_sorted(list),
    ensures
        is_sorted(filed(list, m)),
        filed(list, m).to_multiset() == list.to_multiset().insert(m),
{
    lemma_in_front(list, m);
    let place = in_front(list, m) as int;
    let result = filed(list, m);
    assert forall|i: int, j: int| 0 <= i < j < result.len() implies !sent_before(
        #[trigger] result[j],
        #[trigger] result[i],
    ) by {
        if j < place {
            assert(!sent_before(list[j], list[i]));
        } else if j == place {
            assert(!sent_before(m, list[i]));
        } else if i == place {
            assert(!sent_before(list[j - 1], m));
        } else if i < place {
            assert(!sent_before(list[j - 1], list[i]));
        } else {
            assert(!sent_before(list[j - 1], list[i - 1]));
        }
    }
    vstd::seq_lib::to_multiset_insert(list, place, m);
}

/// An inbox is sorted by publisher and number, and holds exactly what was
/// released into it.
pub proof fn law_an_inbox_is_sorted(messages: Seq<MessageModel>)
    ensures
        is_sorted(in_order(messages)),
        in_order(messages).to_multiset() == messages.to_multiset(),
        in_order(messages).len() == messages.len(),
    decreases messages.len(),
{
    if messages.len() > 0 {
        law_an_inbox_is_sorted(messages.drop_last());
        lemma_filed(in_order(messages.drop_last()), messages.last());
        vstd::seq_lib::to_multiset_build(messages.drop_last(), messages.last());
        assert(messages.drop_last().push(messages.last()) =~= messages);
    } else {
        assert(messages =~= Seq::<MessageModel>::empty());
    }
    vstd::seq_lib::to_multiset_len(messages);
    vstd::seq_lib::to_multiset_len(in_order(messages));
}

/// One path comes before another exactly where they agree up to some segment
/// and there the first ends, or has the segment that comes first.
pub proof fn law_paths_are_ordered_by_their_first_difference(
    a: Seq<Seq<char>>,
    b: Seq<Seq<char>>,
)
    ensures
        path_before(a, b) <==> exists|k: int|
            {
                &&& 0 <= k <= a.len()
                &&& k < b.len()
                &&& #[trigger] a.take(k) == b.take(k)
                &&& k == a.len() || (a[k] != b[k] && crate::names::text_before(a[k], b[k]))
            },
    decreases a.len(),
{
    if b.len() > 0 && a.len() == 0 {
        assert(a.take(0) =~= b.take(0));
    } else if b.len() > 0 && a[0] != b[0] {
        assert(a.take(0) =~= b.take(0));
        if exists|k: int|
            {
                &&& 0 <= k <= a.len()
                &&& k < b.len()
                &&& #[trigger] a.take(k) == b.take(k)
                &&& k == a.len() || (a[k] != b[k] && crate::names::text_before(a[k], b[k]))
            } {
            let k = choose|k: int|
                {
                    &&& 0 <= k <= a.len()
                    &&& k < b.len()
                    &&& #[trigger] a.take(k) == b.take(k)
                    &&& k == a.len() || (a[k] != b[k] && crate::names::text_before(a[k], b[k]))
                };
            if k > 0 {
                assert(a.take(k)[0] == b.take(k)[0]);
            }
        }
    } else if b.len() > 0 {
        let x = a.drop_first();
        let y = b.drop_first();
        law_paths_are_ordered_by_their_first_difference(x, y);
        if path_before(x, y) {
            let k = choose|k: int|
                {
                    &&& 0 <= k <= x.len()
                    &&& k < y.len()
                    &&& #[trigger] x.take(k) == y.take(k)
                    &&& k == x.len() || (x[k] != y[k] && crate::names::text_before(x[k], y[k]))
                };
            assert(a.take(k + 1) =~= seq![a[0]] + x.take(k));
            assert(b.take(k + 1) =~= seq![b[0]] + y.take(k));
        }
        if exists|k: int|
            {
                &&& 0 <= k <= a.len()
                &&& k < b.len()
                &&& #[trigger] a.take(k) == b.take(k)
                &&& k == a.len() || (a[k] != b[k] && crate::names::text_before(a[k], b[k]))
            } {
            let k = choose|k: int|
                {
                    &&& 0 <= k <= a.len()
                    &&& k < b.len()
                    &&& #[trigger] a.take(k) == b.take(k)
                    &&& k == a.len() || (a[k] != b[k] && crate::names::text_before(a[k], b[k]))
                };
            assert(k > 0);
            assert(x.take(k - 1) =~= a.take(k).drop_first());
            assert(y.take(k - 1) =~= b.take(k).drop_first());
        }
    }
}

/// An inbox holds what it is made of, by publisher, and of one publisher by
/// number.
pub proof fn law_an_inbox_goes_by_publisher_and_number(
    messages: Seq<MessageModel>,
    i: int,
    j: int,
)
    requires
        0 <= i < j < in_order(messages).len(),
    ensures
        ({
            let a = in_order(messages)[i];
            let b = in_order(messages)[j];
            path_before(a.publisher, b.publisher) || (a.publisher == b.publisher && a.seq
                <= b.seq)
        }),
{
    law_an_inbox_is_sorted(messages);
    let a = in_order(messages)[i];
    let b = in_order(messages)[j];
    assert(!sent_before(b, a));
    lemma_one_path_comes_first(a.publisher, b.publisher);
}

/// Whether no two messages carry the same number of the same publisher.
pub open spec fn numbers_differ(messages: Seq<MessageModel>) -> bool {
    forall|i: int, j: int|
        0 <= i < j < messages.len() ==> !((#[trigger] messages[i]).publisher == (
        #[trigger] messages[j]).publisher && messages[i].seq == messages[j].seq)
}

/// Whether every message goes in front of all that stand behind it.
spec fn strictly_sorted(list: Seq<MessageModel>) -> bool {
    forall|i: int, j: int|
        0 <= i < j < list.len() ==> sent_before(#[trigger] list[i], #[trigger] list[j])
}

proof fn lemma_numbers_differ_as_a_multiset(a: Seq<MessageModel>, b: Seq<MessageModel>)
    requires
        numbers_differ(a),
        a.to_multiset() == b.to_multiset(),
    ensures
        numbers_differ(b),
{
    broadcast use {
        vstd::seq_lib::group_to_multiset_ensures,
        vstd::multiset::group_multiset_axioms,
    };

    assert forall|i: int, j: int| 0 <= i < j < b.len() implies !((#[trigger] b[i]).publisher == (
    #[trigger] b[j]).publisher && b[i].seq == b[j].seq) by {
        if b[i].publisher == b[j].publisher && b[i].seq == b[j].seq {
            assert(b.contains(b[i]) && b.contains(b[j]));
            assert(a.to_multiset().count(b[i]) > 0 && a.to_multiset().count(b[j]) > 0);
            let x = choose|x: int| 0 <= x < a.len() && a[x] == b[i];
            let y = choose|y: int| 0 <= y < a.len() && a[y] == b[j];
            if x < y {
                assert(!(a[x].publisher == a[y].publisher && a[x].seq == a[y].seq));
            } else if y < x {
                assert(!(a[y].publisher == a[x].publisher && a[y].seq == a[x].seq));
            } else {
                // One message twice, which `a` would hold twice too.
                let one = b[i];
                let fewer = b.remove(j);
                assert(fewer[i] == one);
                assert(fewer.contains(one));
                assert(fewer.to_multiset().count(one) > 0);
                assert(fewer.to_multiset() == b.to_multiset().remove(one));
                assert(b.to_multiset().count(one) >= 2);
                let left = a.remove(x);
                assert(left.to_multiset() == a.to_multiset().remove(one));
                assert(left.to_multiset().count(one) > 0);
                assert(left.contains(one));
                let z = choose|z: int| 0 <= z < left.len() && left[z] == one;
                let w = if z < x {
                    z
                } else {
                    z + 1
                };
                assert(a[w] == one);
                if w < x {
                    assert(!(a[w].publisher == a[x].publisher && a[w].seq == a[x].seq));
                } else {
                    assert(!(a[x].publisher == a[w].publisher && a[x].seq == a[w].seq));
                }
            }
        }
    }
}

proof fn lemma_sorted_is_unique(a: Seq<MessageModel>, b: Seq<MessageModel>)
    requires
        strictly_sorted(a),
        strictly_sorted(b),
        a.to_multiset() == b.to_multiset(),
    ensures
        a == b,
    decreases a.len(),
{
    broadcast use vstd::seq_lib::group_to_multiset_ensures;

    vstd::seq_lib::to_multiset_len(a);
    vstd::seq_lib::to_multiset_len(b);
    if a.len() == 0 {
        assert(a =~= b);
    } else {
        let n = a.len() - 1;
        assert(a.contains(a[n]) && b.contains(b[n]));
        assert(b.to_multiset().count(a[n]) > 0 && a.to_multiset().count(b[n]) > 0);
        let x = choose|x: int| 0 <= x < b.len() && b[x] == a[n];
        let y = choose|y: int| 0 <= y < a.len() && a[y] == b[n];
        if x < n && y < n {
            assert(sent_before(b[x], b[n]));
            assert(sent_before(a[y], a[n]));
            lemma_never_both_first(a[n], b[n]);
        }
        assert(a[n] == b[n]);
        let fa = a.drop_last();
        let fb = b.drop_last();
        assert(fa =~= a.remove(n) && fb =~= b.remove(n));
        assert forall|i: int, j: int| 0 <= i < j < fa.len() implies sent_before(
            #[trigger] fa[i],
            #[trigger] fa[j],
        ) by {
            assert(sent_before(a[i], a[j]));
        }
        assert forall|i: int, j: int| 0 <= i < j < fb.len() implies sent_before(
            #[trigger] fb[i],
            #[trigger] fb[j],
        ) by {
            assert(sent_before(b[i], b[j]));
        }
        lemma_sorted_is_unique(fa, fb);
        assert(a =~= fa.push(a[n]) && b =~= fb.push(b[n]));
    }
}

proof fn lemma_strictly(list: Seq<MessageModel>)
    requires
        is_sorted(list),
        numbers_differ(list),
    ensures
        strictly_sorted(list),
{
    assert forall|i: int, j: int| 0 <= i < j < list.len() implies sent_before(
        #[trigger] list[i],
        #[trigger] list[j],
    ) by {
        assert(!sent_before(list[j], list[i]));
        assert(!(list[i].publisher == list[j].publisher && list[i].seq == list[j].seq));
        lemma_never_both_first(list[i], list[j]);
    }
}

/// What a component is handed never depends on the order in which it arrived:
/// the same messages make the same inbox, since a publisher numbers each of
/// its messages once.
pub proof fn law_an_inbox_does_not_depend_on_arrival(a: Seq<MessageModel>, b: Seq<MessageModel>)
    requires
        numbers_differ(a),
        a.to_multiset() == b.to_multiset(),
    ensures
        in_order(a) == in_order(b),
{
    law_an_inbox_is_sorted(a);
    law_an_inbox_is_sorted(b);
    lemma_numbers_differ_as_a_multiset(a, in_order(a));
    lemma_numbers_differ_as_a_multiset(a, in_order(b));
    lemma_strictly(in_order(a));
    lemma_strictly(in_order(b));
    lemma_sorted_is_unique(in_order(a), in_order(b));
}

// ---------------------------------------------------------------------------
// What is released
// ---------------------------------------------------------------------------

/// Which messages a component that steps now may receive.
///
/// Everything published before this instant is released; what was published
/// at it only from an earlier-ordered sibling branch within the same
/// composite.
pub struct ReleaseRule<'a> {
    tree: &'a Tree,
    now: SimTime,
    path: &'a ComponentPath,
}

/// Whether a message is released to a component that steps now.
pub open spec fn is_released(
    children: Map<Seq<Seq<char>>, Seq<Seq<char>>>,
    publisher: Seq<Seq<char>>,
    sim_time: SimTime,
    subscriber: Seq<Seq<char>>,
    now: SimTime,
) -> bool {
    sim_time.0 < now.0 || (sim_time.0 == now.0 && crate::tree::releases(
        children,
        publisher,
        subscriber,
    ))
}

impl<'a> ReleaseRule<'a> {
    #[verifier::type_invariant]
    spec fn is_valid(self) -> bool {
        &&& self.tree.wf()
        &&& forall|p: Seq<Seq<char>>|
            self.tree@.contains_key(p) ==> (#[trigger] self.tree@[p]).no_duplicates()
    }

    /// The tree whose order the rule goes by.
    pub closed spec fn children(&self) -> Map<Seq<Seq<char>>, Seq<Seq<char>>> {
        self.tree@
    }

    /// The instant that is being stepped.
    pub closed spec fn instant(&self) -> SimTime {
        self.now
    }

    /// The component that steps.
    pub closed spec fn subscriber(&self) -> Seq<Seq<char>> {
        self.path@
    }

    /// The rule for a component that steps now.
    pub fn new(tree: &'a Tree, now: SimTime, path: &'a ComponentPath) -> (rule: Self)
        requires
            tree.wf(),
            forall|p: Seq<Seq<char>>|
                tree@.contains_key(p) ==> (#[trigger] tree@[p]).no_duplicates(),
        ensures
            rule.children() == tree@,
            rule.instant() == now,
            rule.subscriber() == path@,
    {
        ReleaseRule { tree, now, path }
    }

    /// Whether a message is released.
    pub fn releases(&self, message: &Message) -> (released: bool)
        ensures
            released == is_released(
                self.children(),
                message.publisher@,
                message.sim_time,
                self.subscriber(),
                self.instant(),
            ),
    {
        proof {
            use_type_invariant(self);
        }
        message.sim_time.0 < self.now.0 || (message.sim_time.0 == self.now.0
            && self.tree.releases_same_instant(&message.publisher, self.path))
    }
}

// ---------------------------------------------------------------------------
// Mailboxes
// ---------------------------------------------------------------------------

/// What waits for one component.
#[verifier::ext_equal]
pub struct MailboxModel {
    /// Whose it is.
    pub path: Seq<Seq<char>>,
    /// What the component asked for.
    pub keys: Seq<Seq<char>>,
    /// What was published since, oldest first.
    pub waiting: Seq<MessageModel>,
}

/// Where a component's mailbox stands, or the end where it has none.
pub open spec fn place_of(boxes: Seq<MailboxModel>, path: Seq<Seq<char>>) -> nat
    decreases boxes.len(),
{
    if boxes.len() == 0 || boxes[0].path == path {
        0
    } else {
        1 + place_of(boxes.drop_first(), path)
    }
}

/// Whether no component has two mailboxes.
pub open spec fn one_box_each(boxes: Seq<MailboxModel>) -> bool {
    forall|i: int, j: int|
        0 <= i < j < boxes.len() ==> (#[trigger] boxes[i]).path != (#[trigger] boxes[j]).path
}

/// The mailboxes once a component asked for a key.
pub open spec fn subscribed(
    boxes: Seq<MailboxModel>,
    path: Seq<Seq<char>>,
    key: Seq<char>,
) -> Seq<MailboxModel> {
    let place = place_of(boxes, path) as int;
    if place < boxes.len() {
        boxes.update(
            place,
            MailboxModel { keys: boxes[place].keys.push(key), ..boxes[place] },
        )
    } else {
        boxes.push(MailboxModel { path, keys: seq![key], waiting: Seq::empty() })
    }
}

/// The mailboxes once a component asked for nothing more.
pub open spec fn unsubscribed(boxes: Seq<MailboxModel>, path: Seq<Seq<char>>) -> Seq<
    MailboxModel,
> {
    let place = place_of(boxes, path) as int;
    if place < boxes.len() {
        boxes.remove(place)
    } else {
        boxes
    }
}

/// Whether one of the keys a component asked for matches a key.
pub open spec fn is_wanted(keys: Seq<Seq<char>>, key: Seq<char>) -> bool {
    exists|i: int|
        0 <= i < keys.len() && crate::keyexpr::key_matches(#[trigger] keys[i], key)
}

/// A mailbox once a message was published.
pub open spec fn delivered(mailbox: MailboxModel, m: MessageModel) -> MailboxModel {
    if is_wanted(mailbox.keys, m.key) {
        MailboxModel { waiting: mailbox.waiting.push(m), ..mailbox }
    } else {
        mailbox
    }
}

/// The mailboxes once a message was published.
pub open spec fn all_delivered(boxes: Seq<MailboxModel>, m: MessageModel) -> Seq<MailboxModel> {
    Seq::new(boxes.len(), |i: int| delivered(boxes[i], m))
}

/// Which of some messages a rule releases, or which it does not, oldest
/// first.
pub open spec fn sifted(
    messages: Seq<MessageModel>,
    children: Map<Seq<Seq<char>>, Seq<Seq<char>>>,
    subscriber: Seq<Seq<char>>,
    now: SimTime,
    released: bool,
) -> Seq<MessageModel>
    decreases messages.len(),
{
    if messages.len() == 0 {
        Seq::empty()
    } else {
        let m = messages.last();
        let before = sifted(messages.drop_last(), children, subscriber, now, released);
        if is_released(children, m.publisher, m.sim_time, subscriber, now)
            == released {
            before.push(m)
        } else {
            before
        }
    }
}

/// The mailboxes once a component asked for several keys, in order.
pub open spec fn all_subscribed(
    boxes: Seq<MailboxModel>,
    path: Seq<Seq<char>>,
    keys: Seq<Seq<char>>,
) -> Seq<MailboxModel>
    decreases keys.len(),
{
    if keys.len() == 0 {
        boxes
    } else {
        subscribed(all_subscribed(boxes, path, keys.drop_last()), path, keys.last())
    }
}

/// The mailboxes once several messages were published, in order.
pub open spec fn all_published(
    boxes: Seq<MailboxModel>,
    messages: Seq<MessageModel>,
) -> Seq<MailboxModel>
    decreases messages.len(),
{
    if messages.len() == 0 {
        boxes
    } else {
        all_delivered(all_published(boxes, messages.drop_last()), messages.last())
    }
}

/// What a component is handed: everything that waits for it and is released,
/// in order.
pub open spec fn handed_over(
    boxes: Seq<MailboxModel>,
    path: Seq<Seq<char>>,
    children: Map<Seq<Seq<char>>, Seq<Seq<char>>>,
    subscriber: Seq<Seq<char>>,
    now: SimTime,
) -> Seq<MessageModel> {
    let place = place_of(boxes, path) as int;
    if place < boxes.len() {
        in_order(sifted(boxes[place].waiting, children, subscriber, now, true))
    } else {
        Seq::empty()
    }
}

/// The mailboxes once a component was handed what is released to it: the rest
/// goes on waiting.
pub open spec fn left_waiting(
    boxes: Seq<MailboxModel>,
    path: Seq<Seq<char>>,
    children: Map<Seq<Seq<char>>, Seq<Seq<char>>>,
    subscriber: Seq<Seq<char>>,
    now: SimTime,
) -> Seq<MailboxModel> {
    let place = place_of(boxes, path) as int;
    if place < boxes.len() {
        boxes.update(
            place,
            MailboxModel {
                waiting: sifted(boxes[place].waiting, children, subscriber, now, false),
                ..boxes[place]
            },
        )
    } else {
        boxes
    }
}

/// Nothing that waits is lost or handed over twice: what is released and what
/// goes on waiting make up what waited.
pub proof fn law_every_message_is_released_or_waits(
    messages: Seq<MessageModel>,
    children: Map<Seq<Seq<char>>, Seq<Seq<char>>>,
    subscriber: Seq<Seq<char>>,
    now: SimTime,
)
    ensures
        sifted(messages, children, subscriber, now, true).to_multiset().add(
            sifted(messages, children, subscriber, now, false).to_multiset(),
        ) == messages.to_multiset(),
    decreases messages.len(),
{
    broadcast use vstd::multiset::group_multiset_axioms;

    let out = sifted(messages, children, subscriber, now, true);
    let kept = sifted(messages, children, subscriber, now, false);
    if messages.len() > 0 {
        let front = messages.drop_last();
        let m = messages.last();
        law_every_message_is_released_or_waits(front, children, subscriber, now);
        let out_before = sifted(front, children, subscriber, now, true);
        let kept_before = sifted(front, children, subscriber, now, false);
        vstd::seq_lib::to_multiset_build(front, m);
        vstd::seq_lib::to_multiset_build(out_before, m);
        vstd::seq_lib::to_multiset_build(kept_before, m);
        assert(front.push(m) =~= messages);
    } else {
        assert(messages =~= Seq::<MessageModel>::empty());
        assert(out =~= messages && kept =~= messages);
        assert forall|m: MessageModel| messages.to_multiset().count(m) == 0 by {
            vstd::seq_lib::to_multiset_contains(messages, m);
        }
    }
    assert(out.to_multiset().add(kept.to_multiset()) =~= messages.to_multiset());
}

/// What a component is handed was published before this instant, or at it by
/// an earlier-ordered branch of its own composite; what goes on waiting was
/// not.
pub proof fn law_only_what_is_released_is_handed_over(
    messages: Seq<MessageModel>,
    children: Map<Seq<Seq<char>>, Seq<Seq<char>>>,
    subscriber: Seq<Seq<char>>,
    now: SimTime,
    released: bool,
)
    ensures
        forall|i: int|
            0 <= i < sifted(messages, children, subscriber, now, released).len() ==> {
                let m = #[trigger] sifted(messages, children, subscriber, now, released)[i];
                is_released(
                    children,
                    m.publisher,
                    m.sim_time,
                    subscriber,
                    now,
                ) == released
            },
    decreases messages.len(),
{
    if messages.len() > 0 {
        law_only_what_is_released_is_handed_over(
            messages.drop_last(),
            children,
            subscriber,
            now,
            released,
        );
        let before = sifted(messages.drop_last(), children, subscriber, now, released);
        let all = sifted(messages, children, subscriber, now, released);
        assert forall|i: int| 0 <= i < all.len() implies {
            let m = #[trigger] all[i];
            is_released(children, m.publisher, m.sim_time, subscriber, now)
                == released
        } by {
            if i < before.len() {
                assert(all[i] == before[i]);
            } else {
                assert(all[i] == messages.last());
            }
        }
    }
}

/// A component that asked for nothing more has no mailbox, and everyone
/// else's is as it was.
pub proof fn law_a_mailbox_goes_with_its_owner(boxes: Seq<MailboxModel>, path: Seq<Seq<char>>)
    requires
        one_box_each(boxes),
    ensures
        one_box_each(unsubscribed(boxes, path)),
        forall|i: int|
            0 <= i < unsubscribed(boxes, path).len() ==> (#[trigger] unsubscribed(
                boxes,
                path,
            )[i]).path != path,
        forall|i: int|
            0 <= i < boxes.len() && (#[trigger] boxes[i]).path != path ==> unsubscribed(
                boxes,
                path,
            ).contains(boxes[i]),
{
    lemma_place_of(boxes, path);
    let place = place_of(boxes, path) as int;
    let after = unsubscribed(boxes, path);
    if place < boxes.len() {
        assert forall|i: int, j: int| 0 <= i < j < after.len() implies (#[trigger] after[i]).path
            != (#[trigger] after[j]).path by {
            let x = if i < place {
                i
            } else {
                i + 1
            };
            let y = if j < place {
                j
            } else {
                j + 1
            };
            assert(boxes[x].path != boxes[y].path);
        }
        assert forall|i: int| 0 <= i < after.len() implies (#[trigger] after[i]).path != path by {
            if i < place {
                assert(boxes[i].path != boxes[place].path);
            } else {
                assert(boxes[place].path != boxes[i + 1].path);
            }
        }
        assert forall|i: int| 0 <= i < boxes.len() && (#[trigger] boxes[i]).path
            != path implies after.contains(boxes[i]) by {
            if i < place {
                assert(after[i] == boxes[i]);
            } else {
                assert(after[i - 1] == boxes[i]);
            }
        }
    } else {
        assert forall|i: int| 0 <= i < boxes.len() implies after.contains(
            #[trigger] boxes[i],
        ) by {
            assert(after[i] == boxes[i]);
        }
    }
}

/// A mailbox stands where it says.
pub proof fn lemma_place_of(boxes: Seq<MailboxModel>, path: Seq<Seq<char>>)
    ensures
        place_of(boxes, path) <= boxes.len(),
        place_of(boxes, path) < boxes.len() ==> boxes[place_of(boxes, path) as int].path == path,
        forall|i: int| 0 <= i < place_of(boxes, path) ==> (#[trigger] boxes[i]).path != path,
    decreases boxes.len(),
{
    if boxes.len() > 0 && boxes[0].path != path {
        let rest = boxes.drop_first();
        lemma_place_of(rest, path);
        assert forall|i: int| 0 <= i < place_of(boxes, path) implies (#[trigger] boxes[i]).path
            != path by {
            if i > 0 {
                assert(boxes[i] == rest[i - 1]);
            }
        }
    }
}

/// Asking for a key leaves everyone with one mailbox.
pub proof fn lemma_subscribed(boxes: Seq<MailboxModel>, path: Seq<Seq<char>>, key: Seq<char>)
    requires
        one_box_each(boxes),
    ensures
        one_box_each(subscribed(boxes, path, key)),
{
    lemma_place_of(boxes, path);
    let after = subscribed(boxes, path, key);
    assert forall|i: int, j: int| 0 <= i < j < after.len() implies (#[trigger] after[i]).path != (
    #[trigger] after[j]).path by {
        if j < boxes.len() {
            assert(boxes[i].path != boxes[j].path);
        }
    }
}

/// What waits for one component, and what it asked for.
struct Mailbox {
    path: ComponentPath,
    keys: Vec<KeyExpr>,
    waiting: Vec<Message>,
}

impl View for Mailbox {
    type V = MailboxModel;

    closed spec fn view(&self) -> MailboxModel {
        MailboxModel {
            path: self.path@,
            keys: crate::keyexpr::key_texts(self.keys@),
            waiting: crate::messages::message_models(self.waiting@),
        }
    }
}

/// Files a message behind everything that it does not go in front of.
fn file(list: &mut Vec<Message>, message: Message)
    ensures
        crate::messages::message_models(final(list)@) == filed(
            crate::messages::message_models(old(list)@),
            message@,
        ),
{
    let ghost all = crate::messages::message_models(list@);
    let mut place: usize = 0;
    proof {
        assert(all.skip(0) =~= all);
    }
    loop
        invariant
            list@ == old(list)@,
            all == crate::messages::message_models(list@),
            0 <= place <= list@.len(),
            in_front(all, message@) == place + in_front(all.skip(place as int), message@),
        ensures
            place == in_front(all, message@),
        decreases list@.len() - place,
    {
        if place == list.len() {
            break;
        }
        proof {
            assert(all.skip(place as int)[0] == list@[place as int]@);
            assert(all.skip(place as int).drop_first() =~= all.skip(place + 1));
        }
        let other = &list[place];
        let goes_in_front = path_comes_before(&message.publisher, &other.publisher) || (
        message.publisher == other.publisher && message.seq < other.seq);
        if goes_in_front {
            break;
        }
        place += 1;
    }
    list.insert(place, message);
    proof {
        assert(crate::messages::message_models(list@) =~= filed(all, message@));
    }
}

/// Asking for a key adds it to what a component asks for, and to nobody
/// else's; what waits for anyone stays as it is, and a component that had
/// asked for nothing finds nothing waiting that was published before.
pub proof fn law_asking_for_a_key(
    boxes: Seq<MailboxModel>,
    path: Seq<Seq<char>>,
    key: Seq<char>,
)
    requires
        one_box_each(boxes),
    ensures
        one_box_each(subscribed(boxes, path, key)),
        forall|i: int|
            0 <= i < boxes.len() && (#[trigger] boxes[i]).path != path ==> subscribed(
                boxes,
                path,
                key,
            )[i] == boxes[i],
        forall|i: int|
            0 <= i < boxes.len() && (#[trigger] boxes[i]).path == path ==> subscribed(
                boxes,
                path,
                key,
            ) == boxes.update(i, MailboxModel { keys: boxes[i].keys.push(key), ..boxes[i] }),
        (forall|i: int| 0 <= i < boxes.len() ==> (#[trigger] boxes[i]).path != path) ==> subscribed(
            boxes,
            path,
            key,
        ) == boxes.push(MailboxModel { path, keys: seq![key], waiting: Seq::empty() }),
{
    lemma_place_of(boxes, path);
    let place = place_of(boxes, path) as int;
    let after = subscribed(boxes, path, key);
    assert forall|i: int| 0 <= i < boxes.len() && (#[trigger] boxes[i]).path == path implies i
        == place by {
        if i < place {
            assert(boxes[i].path != path);
        } else if place < i {
            assert(boxes[place].path != boxes[i].path);
        }
    }
    assert forall|i: int, j: int| 0 <= i < j < after.len() implies (#[trigger] after[i]).path != (
    #[trigger] after[j]).path by {
        if j < boxes.len() {
            assert(boxes[i].path != boxes[j].path);
        } else {
            assert(boxes[i].path != path);
        }
    }
}

/// Asking for several keys is asking for one after the other.
pub proof fn law_keys_are_asked_for_one_by_one(
    boxes: Seq<MailboxModel>,
    path: Seq<Seq<char>>,
    keys: Seq<Seq<char>>,
    last: Seq<char>,
)
    ensures
        all_subscribed(boxes, path, Seq::<Seq<char>>::empty()) == boxes,
        all_subscribed(boxes, path, keys.push(last)) == subscribed(
            all_subscribed(boxes, path, keys),
            path,
            last,
        ),
{
    assert(keys.push(last).drop_last() =~= keys);
}

/// A message waits for a component exactly where one of the keys that the
/// component asked for matches its key, and goes behind what waits already.
pub proof fn law_a_message_waits_where_a_key_matches(
    boxes: Seq<MailboxModel>,
    message: MessageModel,
    i: int,
)
    requires
        0 <= i < boxes.len(),
    ensures
        all_delivered(boxes, message).len() == boxes.len(),
        all_delivered(boxes, message)[i].path == boxes[i].path,
        all_delivered(boxes, message)[i].keys == boxes[i].keys,
        (exists|k: int|
            0 <= k < boxes[i].keys.len() && crate::keyexpr::key_matches(
                #[trigger] boxes[i].keys[k],
                message.key,
            )) ==> all_delivered(boxes, message)[i].waiting == boxes[i].waiting.push(message),
        (forall|k: int|
            0 <= k < boxes[i].keys.len() ==> !crate::keyexpr::key_matches(
                #[trigger] boxes[i].keys[k],
                message.key,
            )) ==> all_delivered(boxes, message)[i].waiting == boxes[i].waiting,
{
}

/// A component is handed exactly the messages of its own mailbox that were
/// published before this instant, and of those published at it the ones that
/// its place in the tree lets through; the others go on waiting, and nobody
/// else's mailbox is touched.
pub proof fn law_what_a_component_is_handed(
    boxes: Seq<MailboxModel>,
    children: Map<Seq<Seq<char>>, Seq<Seq<char>>>,
    now: SimTime,
    i: int,
    message: MessageModel,
)
    requires
        one_box_each(boxes),
        0 <= i < boxes.len(),
    ensures
        ({
            let path = boxes[i].path;
            let after = left_waiting(boxes, path, children, path, now);
            let goes = message.sim_time.0 < now.0 || (message.sim_time == now
                && crate::tree::releases(children, message.publisher, path));
            &&& handed_over(boxes, path, children, path, now).contains(message)
                <==> boxes[i].waiting.contains(message) && goes
            &&& after.len() == boxes.len()
            &&& after[i].waiting.contains(message) <==> boxes[i].waiting.contains(message) && !goes
            &&& after[i].path == path
            &&& after[i].keys == boxes[i].keys
            &&& forall|j: int|
                0 <= j < boxes.len() && j != i ==> after[j] == #[trigger] boxes[j]
        }),
{
    let path = boxes[i].path;
    lemma_place_of(boxes, path);
    let place = place_of(boxes, path) as int;
    if place < i {
        assert(boxes[place].path != boxes[i].path);
    } else if i < place {
        assert(boxes[i].path != path);
    }
    let waiting = boxes[i].waiting;
    lemma_sifted_holds(waiting, children, path, now, true, message);
    lemma_sifted_holds(waiting, children, path, now, false, message);
    let out = sifted(waiting, children, path, now, true);
    law_an_inbox_is_sorted(out);
    vstd::seq_lib::to_multiset_contains(out, message);
    vstd::seq_lib::to_multiset_contains(in_order(out), message);
}

proof fn lemma_sifted_holds(
    messages: Seq<MessageModel>,
    children: Map<Seq<Seq<char>>, Seq<Seq<char>>>,
    subscriber: Seq<Seq<char>>,
    now: SimTime,
    released: bool,
    message: MessageModel,
)
    ensures
        sifted(messages, children, subscriber, now, released).contains(message)
            <==> messages.contains(message) && is_released(
            children,
            message.publisher,
            message.sim_time,
            subscriber,
            now,
        ) == released,
    decreases messages.len(),
{
    if messages.len() > 0 {
        let front = messages.drop_last();
        let before = sifted(front, children, subscriber, now, released);
        let all = sifted(messages, children, subscriber, now, released);
        lemma_sifted_holds(front, children, subscriber, now, released, message);
        if all.contains(message) {
            let k = choose|k: int| 0 <= k < all.len() && all[k] == message;
            if k < before.len() {
                assert(before[k] == message);
                let j = choose|j: int| 0 <= j < front.len() && front[j] == message;
                assert(messages[j] == message);
            } else {
                assert(messages[messages.len() - 1] == message);
            }
        }
        if messages.contains(message) && is_released(
            children,
            message.publisher,
            message.sim_time,
            subscriber,
            now,
        ) == released {
            let j = choose|j: int| 0 <= j < messages.len() && messages[j] == message;
            if j < front.len() {
                assert(front[j] == message);
                let k = choose|k: int| 0 <= k < before.len() && before[k] == message;
                assert(all[k] == message);
            } else {
                assert(all[all.len() - 1] == message);
            }
        }
    }
}

/// What carries messages between components.
pub trait Transport: Sized {
    /// What holds of a transport at every moment.
    spec fn wf(&self) -> bool;

    /// What waits for whom.
    spec fn mail(&self) -> Seq<MailboxModel>;

    /// Every message that was published, in order, whoever asked for it.
    spec fn carried(&self) -> Seq<MessageModel>;

    /// Whether this is what calls of the methods below have made of `first`,
    /// as far as a transport keeps anything of what it was.
    spec fn comes_from(&self, first: &Self) -> bool;

    /// A transport comes from itself.
    proof fn lemma_comes_from_itself(&self)
        ensures
            self.comes_from(self),
    ;

    /// Has what is published under a key wait for a component.
    fn subscribe(&mut self, path: ComponentPath, key: KeyExpr)
        requires
            old(self).wf(),
        ensures
            final(self).wf(),
            final(self).mail() == subscribed(old(self).mail(), path@, key@),
            final(self).carried() == old(self).carried(),
            forall|first: Self| #[trigger]
                old(self).comes_from(&first) ==> final(self).comes_from(&first),
    ;

    /// Has nothing more wait for a component, and drops what did.
    fn unsubscribe(&mut self, path: &ComponentPath)
        requires
            old(self).wf(),
        ensures
            final(self).wf(),
            final(self).mail() == unsubscribed(old(self).mail(), path@),
            final(self).carried() == old(self).carried(),
            forall|first: Self| #[trigger]
                old(self).comes_from(&first) ==> final(self).comes_from(&first),
    ;

    /// Has a message wait for every component that asked for its key.
    fn publish(&mut self, message: &Message)
        requires
            old(self).wf(),
        ensures
            final(self).wf(),
            final(self).mail() == all_delivered(old(self).mail(), message@),
            final(self).carried() == old(self).carried().push(message@),
            forall|first: Self| #[trigger]
                old(self).comes_from(&first) ==> final(self).comes_from(&first),
    ;

    /// Hands over what waits for a component and is released to it, sorted by
    /// publisher and number; the rest goes on waiting.
    fn drain(&mut self, path: &ComponentPath, rule: &ReleaseRule) -> (inbox: Vec<Message>)
        requires
            old(self).wf(),
        ensures
            final(self).wf(),
            crate::messages::message_models(inbox@) == handed_over(
                old(self).mail(),
                path@,
                rule.children(),
                rule.subscriber(),
                rule.instant(),
            ),
            final(self).mail() == left_waiting(
                old(self).mail(),
                path@,
                rule.children(),
                rule.subscriber(),
                rule.instant(),
            ),
            final(self).carried() == old(self).carried(),
            forall|first: Self| #[trigger]
                old(self).comes_from(&first) ==> final(self).comes_from(&first),
    ;
}

/// Publish and subscribe within one process.
pub struct InProcTransport {
    mailboxes: Vec<Mailbox>,
    carried: Ghost<Seq<MessageModel>>,
}

impl View for InProcTransport {
    type V = Seq<MailboxModel>;

    closed spec fn view(&self) -> Seq<MailboxModel> {
        Seq::new(self.mailboxes@.len(), |i: int| self.mailboxes@[i]@)
    }
}

impl InProcTransport {
    /// A transport that nobody has asked anything of.
    pub fn new() -> (transport: Self)
        ensures
            transport.wf(),
            transport@ == Seq::<MailboxModel>::empty(),
            transport.carried() == Seq::<MessageModel>::empty(),
    {
        let transport = InProcTransport { mailboxes: Vec::new(), carried: Ghost(Seq::empty()) };
        proof {
            assert(transport@ =~= Seq::<MailboxModel>::empty());
        }
        transport
    }

    /// Where a component's mailbox stands.
    fn place(&self, path: &ComponentPath) -> (place: usize)
        ensures
            place == place_of(self@, path@),
            place <= self.mailboxes@.len(),
    {
        let ghost all = self@;
        let mut place: usize = 0;
        proof {
            assert(all.skip(0) =~= all);
        }
        while place < self.mailboxes.len() && self.mailboxes[place].path != *path
            invariant
                all == self@,
                0 <= place <= self.mailboxes@.len(),
                place_of(all, path@) == place + place_of(all.skip(place as int), path@),
            decreases self.mailboxes@.len() - place,
        {
            proof {
                assert(all.skip(place as int)[0] == self.mailboxes@[place as int]@);
                assert(all.skip(place as int).drop_first() =~= all.skip(place + 1));
            }
            place += 1;
        }
        proof {
            if place < self.mailboxes@.len() {
                assert(all.skip(place as int)[0] == self.mailboxes@[place as int]@);
            }
        }
        place
    }
}

impl Transport for InProcTransport {
    closed spec fn wf(&self) -> bool {
        one_box_each(self@)
    }

    open spec fn mail(&self) -> Seq<MailboxModel> {
        self@
    }

    closed spec fn carried(&self) -> Seq<MessageModel> {
        self.carried@
    }

    open spec fn comes_from(&self, first: &Self) -> bool {
        true
    }

    proof fn lemma_comes_from_itself(&self) {
    }

    fn subscribe(&mut self, path: ComponentPath, key: KeyExpr) {
        let ghost before = self@;
        proof {
            lemma_subscribed(before, path@, key@);
        }
        let place = self.place(&path);
        if place < self.mailboxes.len() {
            let ghost kept = self.mailboxes@[place as int];
            self.mailboxes[place].keys.push(key);
            proof {
                assert(crate::keyexpr::key_texts(self.mailboxes@[place as int].keys@)
                    =~= crate::keyexpr::key_texts(kept.keys@).push(key@));
            }
        } else {
            let mut keys: Vec<KeyExpr> = Vec::new();
            keys.push(key);
            let mailbox = Mailbox { path, keys, waiting: Vec::new() };
            proof {
                assert(mailbox@.keys =~= seq![key@]);
                assert(mailbox@.waiting =~= Seq::<MessageModel>::empty());
            }
            self.mailboxes.push(mailbox);
        }
        proof {
            assert(self@ =~= subscribed(before, path@, key@));
        }
    }

    fn unsubscribe(&mut self, path: &ComponentPath) {
        let ghost before = self@;
        proof {
            law_a_mailbox_goes_with_its_owner(before, path@);
        }
        let place = self.place(path);
        if place < self.mailboxes.len() {
            let _ = self.mailboxes.remove(place);
        }
        proof {
            assert(self@ =~= unsubscribed(before, path@));
        }
    }

    fn publish(&mut self, message: &Message) {
        let ghost before = self@;
        let mut i: usize = 0;
        proof {
            self.carried@ = self.carried@.push(message@);
        }
        while i < self.mailboxes.len()
            invariant
                before == old(self)@,
                self.carried@ == old(self).carried@.push(message@),
                self.mailboxes@.len() == before.len(),
                0 <= i <= self.mailboxes@.len(),
                forall|j: int|
                    0 <= j < i ==> (#[trigger] self.mailboxes@[j])@ == delivered(
                        before[j],
                        message@,
                    ),
                forall|j: int|
                    i <= j < before.len() ==> (#[trigger] self.mailboxes@[j])@ == before[j],
            decreases self.mailboxes@.len() - i,
        {
            let ghost kept = self.mailboxes@[i as int];
            if wants(&self.mailboxes[i].keys, &message.key) {
                self.mailboxes[i].waiting.push(message.duplicate());
                proof {
                    assert(crate::messages::message_models(self.mailboxes@[i as int].waiting@)
                        =~= crate::messages::message_models(kept.waiting@).push(message@));
                }
            }
            i += 1;
        }
        proof {
            assert(self@ =~= all_delivered(before, message@));
            assert forall|x: int, y: int| 0 <= x < y < self@.len() implies (
            #[trigger] self@[x]).path != (#[trigger] self@[y]).path by {
                assert(before[x].path != before[y].path);
            }
        }
    }

    fn drain(&mut self, path: &ComponentPath, rule: &ReleaseRule) -> (inbox: Vec<Message>) {
        let ghost before = self@;
        let mut inbox: Vec<Message> = Vec::new();
        let place = self.place(path);
        if place >= self.mailboxes.len() {
            proof {
                assert(crate::messages::message_models(inbox@) =~= Seq::<MessageModel>::empty());
            }
            return inbox;
        }
        let ghost all = before[place as int].waiting;
        let mut arrived: Vec<Message> = Vec::new();
        arrived.append(&mut self.mailboxes[place].waiting);
        let mut kept: Vec<Message> = Vec::new();
        let ghost mut taken: int = 0;
        proof {
            assert(crate::messages::message_models(arrived@) =~= all);
            assert(all.take(0) =~= Seq::<MessageModel>::empty());
            assert(all.skip(0) =~= all);
            assert(crate::messages::message_models(inbox@) =~= Seq::<MessageModel>::empty());
            assert(crate::messages::message_models(kept@) =~= Seq::<MessageModel>::empty());
        }
        let ghost shell = *self;
        while arrived.len() > 0
            invariant
                *self == shell,
                0 <= taken,
                taken + arrived@.len() == all.len(),
                crate::messages::message_models(arrived@) == all.skip(taken),
                crate::messages::message_models(inbox@) == in_order(
                    sifted(
                        all.take(taken),
                        rule.children(),
                        rule.subscriber(),
                        rule.instant(),
                        true,
                    ),
                ),
                crate::messages::message_models(kept@) == sifted(
                    all.take(taken),
                    rule.children(),
                    rule.subscriber(),
                    rule.instant(),
                    false,
                ),
            decreases arrived@.len(),
        {
            proof {
                assert(arrived@[0]@ == crate::messages::message_models(arrived@)[0]);
                assert(all.skip(taken)[0] == all[taken]);
                assert(all.take(taken + 1).drop_last() =~= all.take(taken));
                assert(all.take(taken + 1).last() == all[taken]);
                assert forall|j: int| 0 <= j < arrived@.len() - 1 implies arrived@.remove(0)[j]@
                    == all.skip(taken + 1)[j] by {
                    assert(arrived@[j + 1]@ == crate::messages::message_models(arrived@)[j + 1]);
                }
                assert(crate::messages::message_models(arrived@.remove(0)) =~= all.skip(taken + 1));
            }
            let message = arrived.remove(0);
            if rule.releases(&message) {
                let ghost out = sifted(
                    all.take(taken),
                    rule.children(),
                    rule.subscriber(),
                    rule.instant(),
                    true,
                );
                file(&mut inbox, message);
                proof {
                    assert(out.push(message@).drop_last() =~= out);
                }
            } else {
                let ghost earlier = kept@;
                kept.push(message);
                proof {
                    assert(crate::messages::message_models(kept@)
                        =~= crate::messages::message_models(earlier).push(message@));
                }
            }
            proof {
                taken = taken + 1;
            }
        }
        proof {
            assert(all.take(taken) =~= all);
        }
        self.mailboxes[place].waiting = kept;
        proof {
            assert(self@ =~= before.update(
                place as int,
                MailboxModel {
                    waiting: sifted(
                        all,
                        rule.children(),
                        rule.subscriber(),
                        rule.instant(),
                        false,
                    ),
                    ..before[place as int]
                },
            ));
            assert forall|x: int, y: int| 0 <= x < y < self@.len() implies (
            #[trigger] self@[x]).path != (#[trigger] self@[y]).path by {
                assert(before[x].path != before[y].path);
            }
        }
        inbox
    }
}

/// Someone who is shown every message that is published.
pub trait Monitor {
    fn published(&mut self, message: &Message);
}

/// Shows a message to a monitor, and gives the monitor back.
pub fn show<M: Monitor>(monitor: M, message: &Message) -> (after: M)
    ensures
        exists|m: &mut M|
            *m == monitor && *final(m) == after && #[trigger] call_ensures(
                M::published,
                (m, message),
                (),
            ),
{
    let mut after = monitor;
    after.published(message);
    after
}

/// Whether being shown a message makes a monitor what it is after it: what
/// [`show`] can give back.
pub open spec fn saw_it<M: Monitor>(before: M, message: Message, after: M) -> bool {
    call_ensures(show::<M>, (before, &message), after)
}

/// Whether being shown one message makes a monitor what it is after it.
pub open spec fn saw_one<M: Monitor>(before: M, message: MessageModel, after: M) -> bool {
    exists|shown: Message| shown@ == message && #[trigger] saw_it(before, shown, after)
}

/// Whether being shown one message after the other makes a monitor what it
/// is.
pub open spec fn looked_on<M: Monitor>(first: M, messages: Seq<MessageModel>, now: M) -> bool
    decreases messages.len(),
{
    if messages.len() == 0 {
        now == first
    } else {
        exists|before: M|
            looked_on(first, messages.drop_last(), before) && #[trigger] saw_one(
                before,
                messages.last(),
                now,
            )
    }
}

/// A transport whose every message is shown to a monitor as it is published,
/// whoever asked for it. What waits for whom is the inner transport's.
pub struct MonitorTransport<T: Transport, M: Monitor> {
    inner: T,
    monitor: Option<M>,
    first: Ghost<M>,
    shown: Ghost<Seq<MessageModel>>,
}

impl<T: Transport, M: Monitor> MonitorTransport<T, M> {
    /// What the monitor was shown, in order.
    pub closed spec fn shown(&self) -> Seq<MessageModel> {
        self.shown@
    }

    /// The monitor.
    pub closed spec fn monitor(&self) -> M {
        self.monitor->0
    }

    /// The monitor, as it was when it was layered on.
    pub closed spec fn first(&self) -> M {
        self.first@
    }

    /// The monitor is what being shown every message that was published made
    /// of it, one after the other.
    pub proof fn lemma_shown_all(&self)
        requires
            self.wf(),
        ensures
            looked_on(self.first(), self.carried(), self.monitor()),
    {
    }

    /// A transport with a monitor layered on.
    pub fn new(inner: T, monitor: M) -> (transport: Self)
        requires
            inner.wf(),
        ensures
            transport.wf(),
            transport.mail() == inner.mail(),
            transport.monitor() == monitor,
            transport.first() == monitor,
            transport.shown() == Seq::<MessageModel>::empty(),
    {
        MonitorTransport {
            inner,
            monitor: Some(monitor),
            first: Ghost(monitor),
            shown: Ghost(Seq::empty()),
        }
    }
}

impl<T: Transport, M: Monitor> Transport for MonitorTransport<T, M> {
    closed spec fn wf(&self) -> bool {
        &&& self.inner.wf()
        &&& self.monitor is Some
        &&& looked_on(self.first@, self.shown@, self.monitor->0)
    }

    closed spec fn mail(&self) -> Seq<MailboxModel> {
        self.inner.mail()
    }

    open spec fn carried(&self) -> Seq<MessageModel> {
        self.shown()
    }

    /// The monitor is still the one that was layered on.
    open spec fn comes_from(&self, first: &Self) -> bool {
        self.first() == first.first()
    }

    proof fn lemma_comes_from_itself(&self) {
    }

    fn subscribe(&mut self, path: ComponentPath, key: KeyExpr)
        ensures
            final(self).shown() == old(self).shown(),
            final(self).monitor() == old(self).monitor(),
            final(self).first() == old(self).first(),
    {
        self.inner.subscribe(path, key);
    }

    fn unsubscribe(&mut self, path: &ComponentPath)
        ensures
            final(self).shown() == old(self).shown(),
            final(self).monitor() == old(self).monitor(),
            final(self).first() == old(self).first(),
    {
        self.inner.unsubscribe(path);
    }

    fn publish(&mut self, message: &Message)
        ensures
            final(self).shown() == old(self).shown().push(message@),
            final(self).first() == old(self).first(),
            saw_it(old(self).monitor(), *message, final(self).monitor()),
    {
        match self.monitor.take() {
            Some(monitor) => {
                let after = show(monitor, message);
                proof {
                    assert(saw_it(monitor, *message, after));
                    let longer = self.shown@.push(message@);
                    assert(longer.drop_last() =~= self.shown@);
                    assert(saw_one(monitor, longer.last(), after));
                    assert(looked_on(self.first@, longer, after));
                    self.shown@ = longer;
                }
                self.monitor = Some(after);
            },
            None => {},
        }
        self.inner.publish(message);
    }

    fn drain(&mut self, path: &ComponentPath, rule: &ReleaseRule) -> (inbox: Vec<Message>)
        ensures
            final(self).shown() == old(self).shown(),
            final(self).monitor() == old(self).monitor(),
            final(self).first() == old(self).first(),
    {
        self.inner.drain(path, rule)
    }
}

/// Whether one of some key expressions matches a key.
fn wants(keys: &Vec<KeyExpr>, key: &KeyExpr) -> (wanted: bool)
    ensures
        wanted == is_wanted(crate::keyexpr::key_texts(keys@), key@),
{
    let ghost all = crate::keyexpr::key_texts(keys@);
    let mut i: usize = 0;
    while i < keys.len()
        invariant
            all == crate::keyexpr::key_texts(keys@),
            0 <= i <= keys@.len(),
            forall|j: int|
                0 <= j < i ==> !crate::keyexpr::key_matches(#[trigger] all[j], key@),
        decreases keys@.len() - i,
    {
        proof {
            assert(all[i as int] == keys@[i as int]@);
        }
        if keys[i].matches(key) {
            return true;
        }
        i += 1;
    }
    false
}

} // verus!
