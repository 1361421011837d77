//! Laws of what a component sees when: everything across actors at its next
//! step, and within an actor in the order its parts are declared.
use vstd::prelude::*;

use crate::coherence::{coherent, is_live};
use crate::messages::MessageModel;
use crate::time::SimTime;
use crate::transport::{in_order, is_released, left_waiting, place_of, sifted};
use crate::transport::{all_delivered, all_published, is_wanted, MailboxModel};
use crate::world::WorldModel;

verus! {

/// What is handed over is exactly what waited and is released.
proof fn lemma_handed_over(
    messages: Seq<MessageModel>,
    children: Map<Seq<Seq<char>>, Seq<Seq<char>>>,
    subscriber: Seq<Seq<char>>,
    now: SimTime,
    m: MessageModel,
)
    ensures
        in_order(sifted(messages, children, subscriber, now, true)).contains(m) <==> (
        messages.contains(m) && is_released(children, m.publisher, m.sim_time, subscriber, now)),
        sifted(messages, children, subscriber, now, false).contains(m) <==> (messages.contains(m)
            && !is_released(children, m.publisher, m.sim_time, subscriber, now)),
{
    let out = sifted(messages, children, subscriber, now, true);
    crate::transport::law_an_inbox_is_sorted(out);
    vstd::seq_lib::to_multiset_contains(out, m);
    vstd::seq_lib::to_multiset_contains(in_order(out), m);
    lemma_sifted(messages, children, subscriber, now, true, m);
    lemma_sifted(messages, children, subscriber, now, false, m);
}

/// Sifting keeps what it says.
proof fn lemma_sifted(
    messages: Seq<MessageModel>,
    children: Map<Seq<Seq<char>>, Seq<Seq<char>>>,
    subscriber: Seq<Seq<char>>,
    now: SimTime,
    released: bool,
    m: MessageModel,
)
    ensures
        sifted(messages, children, subscriber, now, released).contains(m) <==> (
        messages.contains(m) && is_released(
            children,
            m.publisher,
            m.sim_time,
            subscriber,
            now,
        ) == released),
    decreases messages.len(),
{
    if messages.len() > 0 {
        let front = messages.drop_last();
        let last = messages.last();
        let before = sifted(front, children, subscriber, now, released);
        lemma_sifted(front, children, subscriber, now, released, m);
        lemma_push_contains(front, last, m);
        lemma_push_contains(before, last, m);
        assert(front.push(last) =~= messages);
    }
}

proof fn lemma_push_contains(messages: Seq<MessageModel>, last: MessageModel, m: MessageModel)
    ensures
        messages.push(last).contains(m) <==> messages.contains(m) || m == last,
{
    let all = messages.push(last);
    if messages.contains(m) {
        let i = choose|i: int| 0 <= i < messages.len() && messages[i] == m;
        assert(all[i] == m);
    }
    if m == last {
        assert(all[messages.len() as int] == m);
    }
    if all.contains(m) {
        let i = choose|i: int| 0 <= i < all.len() && all[i] == m;
        if i < messages.len() {
            assert(messages[i] == m);
        }
    }
}

/// What waits for a component that is about to step.
pub open spec fn waiting_for(m: WorldModel, path: Seq<Seq<char>>) -> Seq<MessageModel> {
    let place = place_of(m.mail, path) as int;
    if place < m.mail.len() {
        m.mail[place].waiting
    } else {
        Seq::empty()
    }
}

/// What a component reads of what waits for it.
proof fn lemma_inbox(m: WorldModel, index: usize, message: MessageModel)
    ensures
        ({
            let path = m.registry.entries[index as int]->0.path;
            crate::world::call_of(m, index).inbox.contains(message) <==> (waiting_for(
                m,
                path,
            ).contains(message) && is_released(
                m.registry.children,
                message.publisher,
                message.sim_time,
                path,
                m.sim_time,
            ))
        }),
{
    let path = m.registry.entries[index as int]->0.path;
    let place = place_of(m.mail, path) as int;
    if place < m.mail.len() {
        lemma_handed_over(
            m.mail[place].waiting,
            m.registry.children,
            path,
            m.sim_time,
            message,
        );
    }
}

/// Lockstep isolation: what a component reads was published by an instant
/// that has been, and nothing of this very instant comes from another actor
/// or from the component itself.
pub proof fn law_co_due_actors_do_not_see_each_other(
    m: WorldModel,
    index: usize,
    message: MessageModel,
)
    requires
        coherent(m),
        is_live(m.registry.entries, index as int),
        crate::world::call_of(m, index).inbox.contains(message),
    ensures
        ({
            let path = m.registry.entries[index as int]->0.path;
            &&& message.sim_time.0 <= m.sim_time.0
            &&& message.publisher.len() > 0 && message.publisher[0] != path[0]
                ==> message.sim_time.0 < m.sim_time.0
            &&& message.publisher == path ==> message.sim_time.0 < m.sim_time.0
        }),
{
    let path = m.registry.entries[index as int]->0.path;
    lemma_inbox(m, index, message);
    crate::registry::law_same_instant_isolation(m.registry.children, message.publisher, path);
    assert(path.len() > 0);
}

/// Next-step visibility: whatever waits for a component and was published
/// before this instant is read at this step, and waits no longer.
pub proof fn law_what_was_published_before_is_read_now(
    m: WorldModel,
    index: usize,
    message: MessageModel,
)
    requires
        ({
            let path = m.registry.entries[index as int]->0.path;
            waiting_for(m, path).contains(message)
        }),
        message.sim_time.0 < m.sim_time.0,
    ensures
        crate::world::call_of(m, index).inbox.contains(message),
        ({
            let path = m.registry.entries[index as int]->0.path;
            !waiting_for(crate::world::asked(m, index), path).contains(message)
        }),
{
    let path = m.registry.entries[index as int]->0.path;
    lemma_inbox(m, index, message);
    lemma_left(m, index);
    lemma_handed_over(
        waiting_for(m, path),
        m.registry.children,
        path,
        m.sim_time,
        message,
    );
}

/// What goes on waiting for a component once it is asked to step.
proof fn lemma_left(m: WorldModel, index: usize)
    ensures
        ({
            let path = m.registry.entries[index as int]->0.path;
            waiting_for(crate::world::asked(m, index), path) == sifted(
                waiting_for(m, path),
                m.registry.children,
                path,
                m.sim_time,
                false,
            )
        }),
{
    let path = m.registry.entries[index as int]->0.path;
    let place = place_of(m.mail, path) as int;
    let after = crate::world::asked(m, index).mail;
    lemma_same_places(m.mail, after, path);
}

/// Mailboxes of the same owners stand at the same places.
proof fn lemma_same_places(
    a: Seq<MailboxModel>,
    b: Seq<MailboxModel>,
    path: Seq<Seq<char>>,
)
    requires
        a.len() == b.len(),
        forall|i: int| 0 <= i < a.len() ==> (#[trigger] a[i]).path == (#[trigger] b[i]).path,
    ensures
        place_of(a, path) == place_of(b, path),
    decreases a.len(),
{
    if a.len() > 0 {
        assert(a[0].path == b[0].path);
        let x = a.drop_first();
        let y = b.drop_first();
        assert forall|i: int| 0 <= i < x.len() implies (#[trigger] x[i]).path == (
        #[trigger] y[i]).path by {
            assert(a[i + 1].path == b[i + 1].path);
        }
        lemma_same_places(x, y, path);
    }
}

/// The pipeline within an actor: of two parts of one composite, what the one
/// declared first publishes reaches the other within the instant, and what
/// the other publishes does not reach it back.
pub proof fn law_an_earlier_part_is_read_within_the_instant(
    m: WorldModel,
    first: usize,
    second: usize,
    message: MessageModel,
)
    requires
        coherent(m),
        is_live(m.registry.entries, first as int),
        is_live(m.registry.entries, second as int),
        first < second,
        m.registry.entries[first as int]->0.path.len() > 1,
        m.registry.entries[first as int]->0.path.drop_last()
            == m.registry.entries[second as int]->0.path.drop_last(),
        message.sim_time == m.sim_time,
    ensures
        message.publisher == m.registry.entries[first as int]->0.path ==> (
        crate::world::call_of(m, second).inbox.contains(message) <==> waiting_for(
            m,
            m.registry.entries[second as int]->0.path,
        ).contains(message)),
        message.publisher == m.registry.entries[second as int]->0.path
            ==> !crate::world::call_of(m, first).inbox.contains(message),
{
    lemma_inbox(m, first, message);
    lemma_inbox(m, second, message);
    crate::registry::law_declaration_order_is_visibility_order(
        m.registry,
        first as int,
        second as int,
    );
    crate::registry::law_declaration_order_is_visibility_order(
        m.registry,
        second as int,
        first as int,
    );
}

/// Which of some messages a component asked for, in the order they were
/// published.
pub open spec fn wanted_of(keys: Seq<Seq<char>>, messages: Seq<MessageModel>) -> Seq<MessageModel>
    decreases messages.len(),
{
    if messages.len() == 0 {
        Seq::empty()
    } else {
        let earlier = wanted_of(keys, messages.drop_last());
        if is_wanted(keys, messages.last().key) {
            earlier.push(messages.last())
        } else {
            earlier
        }
    }
}

/// What is published waits for everyone who asked for its key, behind what
/// already waited, and for nobody else.
pub proof fn law_what_is_published_waits_for_everyone_who_asked(
    boxes: Seq<MailboxModel>,
    messages: Seq<MessageModel>,
    i: int,
)
    requires
        0 <= i < boxes.len(),
    ensures
        all_published(boxes, messages).len() == boxes.len(),
        all_published(boxes, messages)[i] == (MailboxModel {
            waiting: boxes[i].waiting + wanted_of(boxes[i].keys, messages),
            ..boxes[i]
        }),
    decreases messages.len(),
{
    let keys = boxes[i].keys;
    if messages.len() == 0 {
        assert(boxes[i].waiting + wanted_of(keys, messages) =~= boxes[i].waiting);
    } else {
        let front = messages.drop_last();
        let last = messages.last();
        law_what_is_published_waits_for_everyone_who_asked(boxes, front, i);
        let before = all_published(boxes, front);
        assert(all_published(boxes, messages) == all_delivered(before, last));
        assert((boxes[i].waiting + wanted_of(keys, front)).push(last) =~= boxes[i].waiting
            + wanted_of(keys, front).push(last));
    }
}

/// What waits for a component waits until that component steps or leaves: a
/// step of another one takes nothing of it.
pub proof fn law_another_step_takes_nothing(m: WorldModel, index: usize, path: Seq<Seq<char>>)
    requires
        m.registry.entries[index as int]->0.path != path,
    ensures
        waiting_for(crate::world::asked(m, index), path) == waiting_for(m, path),
{
    let who = m.registry.entries[index as int]->0.path;
    let after = left_waiting(m.mail, who, m.registry.children, who, m.sim_time);
    assert(crate::world::asked(m, index).mail == after);
    lemma_same_places(m.mail, after, path);
    crate::transport::lemma_place_of(m.mail, path);
    crate::transport::lemma_place_of(m.mail, who);
}

} // verus!
