//! What a tick's fingerprint covers, and that its fields cannot run into each
//! other.
use vstd::prelude::*;

use crate::time::SimTime;
use crate::world::TickModel;

verus! {

/// What one step contributes to a tick's fingerprint.
#[verifier::ext_equal]
pub struct StepRecord {
    pub path: Seq<Seq<char>>,
    pub next_due: SimTime,
    pub first_seq: u64,
    pub outbox: Seq<(Seq<char>, Seq<u8>)>,
    pub state: Option<Seq<u8>>,
}

/// The bytes of one step.
pub open spec fn record_bytes(r: StepRecord) -> Seq<u8> {
    crate::world::step_bytes(r.path, r.next_due, r.first_seq, r.outbox, r.state)
}

/// The bytes of a tick's steps, in order.
pub open spec fn records_bytes(records: Seq<StepRecord>) -> Seq<u8>
    decreases records.len(),
{
    if records.len() == 0 {
        Seq::empty()
    } else {
        record_bytes(records[0]) + records_bytes(records.drop_first())
    }
}

/// Whether a length can be written in eight bytes, as every length can that a
/// machine can hold.
pub open spec fn fits_field(bytes: Seq<u8>) -> bool {
    bytes.len() <= u64::MAX
}

/// Whether a step can have happened: its path is one, and its fields can be
/// written.
pub open spec fn is_step(r: StepRecord) -> bool {
    &&& crate::ids::valid_path(r.path)
    &&& fits_field(vstd::utf8::encode_utf8(crate::ids::path_text(r.path)))
    &&& r.outbox.len() <= u64::MAX
    &&& forall|i: int|
        0 <= i < r.outbox.len() ==> fits_field(
            vstd::utf8::encode_utf8((#[trigger] r.outbox[i]).0),
        ) && fits_field(r.outbox[i].1)
    &&& r.state matches Some(state) ==> fits_field(state)
}

/// Whether two steps are of one shape: as many messages, and a state or none
/// in both.
pub open spec fn same_shape(a: StepRecord, b: StepRecord) -> bool {
    a.outbox.len() == b.outbox.len() && a.state is Some == b.state is Some
}

/// Bytes that start with the same number of bytes each are equal part by
/// part.
proof fn lemma_split(a: Seq<u8>, x: Seq<u8>, b: Seq<u8>, y: Seq<u8>)
    requires
        a.len() == b.len(),
        a + x == b + y,
    ensures
        a == b,
        x == y,
{
    assert(a =~= (a + x).take(a.len() as int));
    assert(b =~= (b + y).take(b.len() as int));
    assert(x =~= (a + x).skip(a.len() as int));
    assert(y =~= (b + y).skip(b.len() as int));
}

/// Where a field ends is never in doubt: the bytes of two streams that start
/// with a field are equal only where the fields are and the rest is.
pub proof fn law_a_field_ends_where_it_says(a: Seq<u8>, x: Seq<u8>, b: Seq<u8>, y: Seq<u8>)
    requires
        fits_field(a),
        fits_field(b),
        crate::world::field(a) + x == crate::world::field(b) + y,
    ensures
        a == b,
        x == y,
{
    let m = crate::hash::le_bytes(a.len() as u64);
    let n = crate::hash::le_bytes(b.len() as u64);
    assert(crate::world::field(a) + x =~= m + (a + x));
    assert(crate::world::field(b) + y =~= n + (b + y));
    lemma_split(m, a + x, n, b + y);
    crate::hash::lemma_le_bytes_injective(a.len() as u64, b.len() as u64);
    lemma_split(a, x, b, y);
}

/// Different texts have different bytes.
proof fn lemma_text_bytes(a: Seq<char>, b: Seq<char>)
    requires
        vstd::utf8::encode_utf8(a) == vstd::utf8::encode_utf8(b),
    ensures
        a == b,
{
    vstd::utf8::encode_utf8_decode_utf8(a);
    vstd::utf8::encode_utf8_decode_utf8(b);
}

/// A text field ends where it says, and holds one text.
proof fn lemma_text_field(a: Seq<char>, x: Seq<u8>, b: Seq<char>, y: Seq<u8>)
    requires
        fits_field(vstd::utf8::encode_utf8(a)),
        fits_field(vstd::utf8::encode_utf8(b)),
        crate::world::field(vstd::utf8::encode_utf8(a)) + x == crate::world::field(
            vstd::utf8::encode_utf8(b),
        ) + y,
    ensures
        a == b,
        x == y,
{
    law_a_field_ends_where_it_says(
        vstd::utf8::encode_utf8(a),
        x,
        vstd::utf8::encode_utf8(b),
        y,
    );
    lemma_text_bytes(a, b);
}

/// One message's bytes are read one way.
proof fn lemma_message(
    a: (Seq<char>, Seq<u8>),
    m: u64,
    x: Seq<u8>,
    b: (Seq<char>, Seq<u8>),
    n: u64,
    y: Seq<u8>,
)
    requires
        fits_field(vstd::utf8::encode_utf8(a.0)),
        fits_field(vstd::utf8::encode_utf8(b.0)),
        fits_field(a.1),
        fits_field(b.1),
        crate::world::message_bytes(a.0, m, a.1) + x == crate::world::message_bytes(b.0, n, b.1)
            + y,
    ensures
        a == b,
        m == n,
        x == y,
{
    let p = crate::world::field(vstd::utf8::encode_utf8(a.0));
    let q = crate::world::field(vstd::utf8::encode_utf8(b.0));
    let s = crate::hash::le_bytes(m);
    let t = crate::hash::le_bytes(n);
    assert(crate::world::message_bytes(a.0, m, a.1) + x =~= p + (s + (crate::world::field(a.1)
        + x)));
    assert(crate::world::message_bytes(b.0, n, b.1) + y =~= q + (t + (crate::world::field(b.1)
        + y)));
    lemma_text_field(
        a.0,
        s + (crate::world::field(a.1) + x),
        b.0,
        t + (crate::world::field(b.1) + y),
    );
    lemma_split(s, crate::world::field(a.1) + x, t, crate::world::field(b.1) + y);
    crate::hash::lemma_le_bytes_injective(m, n);
    law_a_field_ends_where_it_says(a.1, x, b.1, y);
}

/// The bytes of messages whose numbers start at `first`, from the front.
pub open spec fn outbox_from(first: u64, skip: nat, outbox: Seq<(Seq<char>, Seq<u8>)>) -> Seq<u8>
    decreases outbox.len(),
{
    if outbox.len() == 0 {
        Seq::empty()
    } else {
        crate::world::message_bytes(
            outbox[0].0,
            first.wrapping_add(skip as u64),
            outbox[0].1,
        ) + outbox_from(first, skip + 1, outbox.drop_first())
    }
}

/// Reading messages from the front gives the bytes written to the back.
proof fn lemma_outbox_from(first: u64, skip: nat, outbox: Seq<(Seq<char>, Seq<u8>)>)
    ensures
        outbox.len() > 0 ==> outbox_from(first, skip, outbox) == outbox_from(
            first,
            skip,
            outbox.drop_last(),
        ) + crate::world::message_bytes(
            outbox.last().0,
            first.wrapping_add((skip + outbox.len() - 1) as u64),
            outbox.last().1,
        ),
    decreases outbox.len(),
{
    if outbox.len() == 1 {
        assert(outbox.drop_last() =~= Seq::<(Seq<char>, Seq<u8>)>::empty());
        assert(outbox.drop_first() =~= Seq::<(Seq<char>, Seq<u8>)>::empty());
        assert(outbox.last() == outbox[0]);
        let message = crate::world::message_bytes(
            outbox[0].0,
            first.wrapping_add(skip as u64),
            outbox[0].1,
        );
        assert(message + Seq::<u8>::empty() =~= message);
        assert(Seq::<u8>::empty() + message =~= message);
        assert(outbox_from(first, skip, outbox.drop_last()) == Seq::<u8>::empty());
        assert(outbox_from(first, skip + 1, outbox.drop_first()) == Seq::<u8>::empty());
        assert(skip + outbox.len() - 1 == skip);
    } else if outbox.len() > 1 {
        let rest = outbox.drop_first();
        lemma_outbox_from(first, skip + 1, rest);
        assert(rest.drop_last() =~= outbox.drop_last().drop_first());
        assert(rest.last() == outbox.last());
        assert(outbox.drop_last()[0] == outbox[0]);
        assert(skip + 1 + rest.len() - 1 == skip + outbox.len() - 1);
        assert(outbox_from(first, skip, outbox) =~= outbox_from(first, skip, outbox.drop_last())
            + crate::world::message_bytes(
            outbox.last().0,
            first.wrapping_add((skip + outbox.len() - 1) as u64),
            outbox.last().1,
        ));
    }
}

/// A step's messages read from the front.
proof fn lemma_outbox_front(first: u64, outbox: Seq<(Seq<char>, Seq<u8>)>)
    ensures
        crate::world::outbox_bytes(first, outbox) == outbox_from(first, 0, outbox),
    decreases outbox.len(),
{
    if outbox.len() > 0 {
        lemma_outbox_front(first, outbox.drop_last());
        lemma_outbox_from(first, 0, outbox);
    }
}

/// As many messages are read one way.
proof fn lemma_outboxes(
    first: u64,
    other: u64,
    skip: nat,
    a: Seq<(Seq<char>, Seq<u8>)>,
    x: Seq<u8>,
    b: Seq<(Seq<char>, Seq<u8>)>,
    y: Seq<u8>,
)
    requires
        a.len() == b.len(),
        forall|i: int|
            0 <= i < a.len() ==> fits_field(vstd::utf8::encode_utf8((#[trigger] a[i]).0))
                && fits_field(a[i].1),
        forall|i: int|
            0 <= i < b.len() ==> fits_field(vstd::utf8::encode_utf8((#[trigger] b[i]).0))
                && fits_field(b[i].1),
        outbox_from(first, skip, a) + x == outbox_from(other, skip, b) + y,
    ensures
        a == b,
        x == y,
        a.len() > 0 ==> first.wrapping_add(skip as u64) == other.wrapping_add(skip as u64),
    decreases a.len(),
{
    if a.len() == 0 {
        assert(Seq::<u8>::empty() + x =~= x);
        assert(Seq::<u8>::empty() + y =~= y);
        assert(a =~= b);
    } else {
        let m = first.wrapping_add(skip as u64);
        let n = other.wrapping_add(skip as u64);
        let p = outbox_from(first, skip + 1, a.drop_first()) + x;
        let q = outbox_from(other, skip + 1, b.drop_first()) + y;
        assert(outbox_from(first, skip, a) + x =~= crate::world::message_bytes(
            a[0].0,
            m,
            a[0].1,
        ) + p);
        assert(outbox_from(other, skip, b) + y =~= crate::world::message_bytes(
            b[0].0,
            n,
            b[0].1,
        ) + q);
        lemma_message(a[0], m, p, b[0], n, q);
        assert forall|i: int| 0 <= i < a.drop_first().len() implies fits_field(
            vstd::utf8::encode_utf8((#[trigger] a.drop_first()[i]).0),
        ) && fits_field(a.drop_first()[i].1) by {
            assert(a.drop_first()[i] == a[i + 1]);
        }
        assert forall|i: int| 0 <= i < b.drop_first().len() implies fits_field(
            vstd::utf8::encode_utf8((#[trigger] b.drop_first()[i]).0),
        ) && fits_field(b.drop_first()[i].1) by {
            assert(b.drop_first()[i] == b[i + 1]);
        }
        lemma_outboxes(first, other, skip + 1, a.drop_first(), x, b.drop_first(), y);
        assert(a =~= seq![a[0]] + a.drop_first());
        assert(b =~= seq![b[0]] + b.drop_first());
    }
}

/// Whether two steps say the same. Where neither published anything, the
/// number of the message that neither published says nothing.
pub open spec fn same_record(a: StepRecord, b: StepRecord) -> bool {
    &&& a.path == b.path
    &&& a.next_due == b.next_due
    &&& a.outbox == b.outbox
    &&& a.state == b.state
    &&& a.outbox.len() > 0 ==> a.first_seq == b.first_seq
}

/// How five runs of bytes are bracketed makes no difference.
proof fn lemma_brackets(p: Seq<u8>, s: Seq<u8>, m: Seq<u8>, h: Seq<u8>, x: Seq<u8>)
    ensures
        p + s + m + h + x == p + (s + (m + (h + x))),
{
    assert(p + s + m + h + x =~= p + (s + (m + (h + x))));
}

/// One step's bytes are read one way: moving a byte from the end of a field
/// to the start of the next changes the stream.
proof fn lemma_record(a: StepRecord, x: Seq<u8>, b: StepRecord, y: Seq<u8>)
    requires
        is_step(a),
        is_step(b),
        same_shape(a, b),
        record_bytes(a) + x == record_bytes(b) + y,
    ensures
        same_record(a, b),
        x == y,
{
    let p = crate::ids::path_text(a.path);
    let q = crate::ids::path_text(b.path);
    let s = crate::hash::le_bytes(a.next_due.0 as u64);
    let t = crate::hash::le_bytes(b.next_due.0 as u64);
    lemma_outbox_front(a.first_seq, a.outbox);
    lemma_outbox_front(b.first_seq, b.outbox);
    let m = outbox_from(a.first_seq, 0, a.outbox);
    let n = outbox_from(b.first_seq, 0, b.outbox);
    let h = crate::world::state_field(a.state);
    let g = crate::world::state_field(b.state);
    let pf = crate::world::field(vstd::utf8::encode_utf8(p));
    let qf = crate::world::field(vstd::utf8::encode_utf8(q));
    lemma_brackets(pf, s, m, h, x);
    lemma_brackets(qf, t, n, g, y);
    lemma_text_field(p, s + (m + (h + x)), q, t + (n + (g + y)));
    crate::ids::law_path_text_is_unique(a.path, b.path);
    lemma_split(s, m + (h + x), t, n + (g + y));
    lemma_same_instant(a.next_due.0, b.next_due.0);
    lemma_outboxes(a.first_seq, b.first_seq, 0, a.outbox, h + x, b.outbox, g + y);
    lemma_states(a.state, x, b.state, y);
}

/// An instant's eight bytes are read one way.
proof fn lemma_same_instant(c: i64, d: i64)
    requires
        crate::hash::le_bytes(c as u64) == crate::hash::le_bytes(d as u64),
    ensures
        c == d,
{
    crate::hash::lemma_le_bytes_injective(c as u64, d as u64);
    assert(c == d) by (bit_vector)
        requires
            c as u64 == d as u64,
    ;
}

/// A state, or none, is read one way where it is known which.
proof fn lemma_states(a: Option<Seq<u8>>, x: Seq<u8>, b: Option<Seq<u8>>, y: Seq<u8>)
    requires
        a is Some == b is Some,
        a matches Some(held) ==> fits_field(held),
        b matches Some(held) ==> fits_field(held),
        crate::world::state_field(a) + x == crate::world::state_field(b) + y,
    ensures
        a == b,
        x == y,
{
    match (a, b) {
        (Some(held), Some(other)) => {
            law_a_field_ends_where_it_says(held, x, other, y);
        },
        _ => {
            assert(Seq::<u8>::empty() + x =~= x);
            assert(Seq::<u8>::empty() + y =~= y);
        },
    }
}

/// One tick's contents cannot be read two ways: two ticks of one shape whose
/// fingerprints cover the same bytes had the same steps, field by field.
/// Whatever moves only a boundary between two fields changes the bytes.
pub proof fn law_a_tick_is_read_one_way(
    a: Seq<StepRecord>,
    b: Seq<StepRecord>,
)
    requires
        a.len() == b.len(),
        forall|i: int| 0 <= i < a.len() ==> is_step(#[trigger] a[i]),
        forall|i: int| 0 <= i < b.len() ==> is_step(#[trigger] b[i]),
        forall|i: int| 0 <= i < a.len() ==> same_shape(#[trigger] a[i], b[i]),
        records_bytes(a) == records_bytes(b),
    ensures
        forall|i: int| 0 <= i < a.len() ==> same_record(#[trigger] a[i], b[i]),
    decreases a.len(),
{
    if a.len() > 0 {
        lemma_record(a[0], records_bytes(a.drop_first()), b[0], records_bytes(b.drop_first()));
        let c = a.drop_first();
        let d = b.drop_first();
        assert forall|i: int| 0 <= i < c.len() implies is_step(#[trigger] c[i]) by {
            assert(c[i] == a[i + 1]);
        }
        assert forall|i: int| 0 <= i < d.len() implies is_step(#[trigger] d[i]) by {
            assert(d[i] == b[i + 1]);
        }
        assert forall|i: int| 0 <= i < c.len() implies same_shape(#[trigger] c[i], d[i]) by {
            assert(c[i] == a[i + 1] && d[i] == b[i + 1]);
        }
        law_a_tick_is_read_one_way(c, d);
        assert forall|i: int| 0 <= i < a.len() implies same_record(#[trigger] a[i], b[i]) by {
            if i > 0 {
                assert(same_record(c[i - 1], d[i - 1]));
            }
        }
    }
}

/// Runs whose fingerprints have parted stay apart through every tick that is
/// the same in both.
pub proof fn law_parted_runs_stay_apart(a: TickModel, b: TickModel)
    requires
        a.bytes == b.bytes,
        a.world.world_hash != b.world.world_hash,
    ensures
        crate::world::closed(a).world_hash != crate::world::closed(b).world_hash,
{
    crate::hash::law_different_states_stay_different(
        a.world.world_hash,
        b.world.world_hash,
        crate::hash::le_bytes(crate::hash::hash_of(a.bytes)),
    );
}

/// Worlds of one name and different seeds differ before the first tick.
pub proof fn law_different_seeds_differ_from_the_start(
    name: Seq<char>,
    a: u64,
    b: u64,
    mail: Seq<crate::transport::MailboxModel>,
)
    requires
        a != b,
    ensures
        crate::world::fresh_world(name, a, mail).world_hash != crate::world::fresh_world(
            name,
            b,
            mail,
        ).world_hash,
{
    crate::seed::law_mixing_keeps_the_first_apart(
        a,
        b,
        crate::hash::hash_of(vstd::utf8::encode_utf8(name)),
    );
}

/// What an instant's fingerprint covers, byte for byte: the tick and the
/// instant, eight bytes each; of every step who stepped, behind its length,
/// and the eight bytes of when it is next due; of every message its key,
/// behind its length, the eight bytes of its number, and its payload, behind
/// its length; and where a state is exposed, that state behind its length.
pub proof fn law_what_the_fingerprint_covers(
    tick: u64,
    now: SimTime,
    path: Seq<Seq<char>>,
    next_due: SimTime,
    first_seq: u64,
    outbox: Seq<(Seq<char>, Seq<u8>)>,
    last: (Seq<char>, Seq<u8>),
    state: Seq<u8>,
)
    requires
        first_seq + outbox.len() <= u64::MAX,
    ensures
        crate::world::opening_bytes(tick, now) == crate::hash::le_bytes(tick)
            + crate::hash::le_bytes(now.0 as u64),
        ({
            let who = vstd::utf8::encode_utf8(crate::ids::path_text(path));
            crate::world::step_bytes(path, next_due, first_seq, outbox, None)
                == crate::hash::le_bytes(who.len() as u64) + who + crate::hash::le_bytes(
                next_due.0 as u64,
            ) + crate::world::outbox_bytes(first_seq, outbox)
        }),
        crate::world::step_bytes(path, next_due, first_seq, outbox, Some(state))
            == crate::world::step_bytes(path, next_due, first_seq, outbox, None)
            + crate::hash::le_bytes(state.len() as u64) + state,
        crate::world::outbox_bytes(first_seq, Seq::<(Seq<char>, Seq<u8>)>::empty()).len() == 0,
        ({
            let key = vstd::utf8::encode_utf8(last.0);
            crate::world::outbox_bytes(first_seq, outbox.push(last)) == crate::world::outbox_bytes(
                first_seq,
                outbox,
            ) + crate::hash::le_bytes(key.len() as u64) + key + crate::hash::le_bytes(
                (first_seq + outbox.len()) as u64,
            ) + crate::hash::le_bytes(last.1.len() as u64) + last.1
        }),
{
    let who = vstd::utf8::encode_utf8(crate::ids::path_text(path));
    let key = vstd::utf8::encode_utf8(last.0);
    let none = crate::world::step_bytes(path, next_due, first_seq, outbox, None);
    assert(none =~= crate::hash::le_bytes(who.len() as u64) + who + crate::hash::le_bytes(
        next_due.0 as u64,
    ) + crate::world::outbox_bytes(first_seq, outbox));
    assert(crate::world::step_bytes(path, next_due, first_seq, outbox, Some(state)) =~= none
        + crate::hash::le_bytes(state.len() as u64) + state);
    assert(outbox.push(last).drop_last() =~= outbox);
    assert(crate::world::outbox_bytes(first_seq, outbox.push(last))
        =~= crate::world::outbox_bytes(first_seq, outbox) + crate::hash::le_bytes(
        key.len() as u64,
    ) + key + crate::hash::le_bytes((first_seq + outbox.len()) as u64) + crate::hash::le_bytes(
        last.1.len() as u64,
    ) + last.1);
}

/// A world's hash starts from its seed and its name.
pub proof fn law_where_a_world_hash_starts(
    name: Seq<char>,
    seed: u64,
    mail: Seq<crate::transport::MailboxModel>,
)
    ensures
        crate::world::fresh_world(name, seed, mail).world_hash == crate::seed::mixed(
            seed,
            crate::hash::hash_of(vstd::utf8::encode_utf8(name)),
        ),
{
}

} // verus!
