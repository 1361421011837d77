//! What the sample actors decide without a float: the keys they speak on,
//! which of their messages count, and when they are due.
use vstd::prelude::*;
use vstd::string::*;

use crate::keyexpr::KeyExpr;
use crate::messages::Message;
use crate::names::NameMap;
use crate::text::{chars_of, same_text, split_text};
use crate::time::{SimDuration, SimTime};

verus! {

/// A 64-bit float, as its bits. Nothing here computes with one.
#[derive(Debug, Clone, Copy, PartialEq, Eq, Structural)]
pub struct FloatBits(pub u64);

/// How many detections a scan carries at most.
pub const MAX_DETECTIONS: usize = 64;

// ---------------------------------------------------------------------------
// Keys
// ---------------------------------------------------------------------------

/// The key of something that belongs to an actor.
pub open spec fn actor_key(world_name: Seq<char>, actor_name: Seq<char>, what: Seq<char>) -> Seq<
    char,
> {
    crate::keyexpr::rooted(world_name + "/actor/"@ + actor_name + "/"@ + what)
}

/// The key of something that belongs to an actor.
fn key_of(world_name: &str, actor_name: &str, what: &str) -> (key: KeyExpr)
    requires
        crate::keyexpr::key_error(actor_key(world_name@, actor_name@, what@)) is None,
    ensures
        key@ == actor_key(world_name@, actor_name@, what@),
{
    let path = world_name.to_owned().concat("/actor/").concat(actor_name).concat("/").concat(what);
    KeyExpr::new_rooted(path.as_str()).unwrap()
}

/// Key for an actor's pose in a world.
pub fn pose_key(world_name: &str, actor_name: &str) -> (key: KeyExpr)
    requires
        crate::keyexpr::key_error(actor_key(world_name@, actor_name@, "pose"@)) is None,
    ensures
        key@ == actor_key(world_name@, actor_name@, "pose"@),
{
    key_of(world_name, actor_name, "pose")
}

/// Key for the acceleration commanded to an actor in a world.
pub fn accel_cmd_key(world_name: &str, actor_name: &str) -> (key: KeyExpr)
    requires
        crate::keyexpr::key_error(actor_key(world_name@, actor_name@, "accel_cmd"@)) is None,
    ensures
        key@ == actor_key(world_name@, actor_name@, "accel_cmd"@),
{
    key_of(world_name, actor_name, "accel_cmd")
}

/// Key for the steering commanded to an actor in a world.
pub fn steer_cmd_key(world_name: &str, actor_name: &str) -> (key: KeyExpr)
    requires
        crate::keyexpr::key_error(actor_key(world_name@, actor_name@, "steer_cmd"@)) is None,
    ensures
        key@ == actor_key(world_name@, actor_name@, "steer_cmd"@),
{
    key_of(world_name, actor_name, "steer_cmd")
}

/// Key for the scans of an actor's radar in a world.
pub fn radar_key(world_name: &str, actor_name: &str) -> (key: KeyExpr)
    requires
        crate::keyexpr::key_error(actor_key(world_name@, actor_name@, "radar"@)) is None,
    ensures
        key@ == actor_key(world_name@, actor_name@, "radar"@),
{
    key_of(world_name, actor_name, "radar")
}

/// The first part that is `actor`, from `from` on, or the end.
pub open spec fn actor_mark(parts: Seq<Seq<char>>, from: int) -> int
    decreases parts.len() - from,
{
    if 0 <= from < parts.len() && parts[from] != "actor"@ {
        actor_mark(parts, from + 1)
    } else {
        from
    }
}

/// Whether a key names an actor: a segment follows one that is `actor`.
pub open spec fn names_actor(key: Seq<char>) -> bool {
    let parts = crate::text::split(key, '/');
    actor_mark(parts, 0) + 1 < parts.len()
}

/// The actor that a key names: the segment after the first that is `actor`.
pub open spec fn named_actor(key: Seq<char>) -> Seq<char> {
    let parts = crate::text::split(key, '/');
    parts[actor_mark(parts, 0) + 1]
}

/// The actor name in a pose key: the segment after `actor`, wherever that
/// sits in the key.
pub fn actor_of(pose_key: &str) -> (name: String)
    requires
        names_actor(pose_key@),
    ensures
        name@ == named_actor(pose_key@),
{
    let parts = split_text(pose_key, '/');
    let ghost all = crate::text::split(pose_key@, '/');
    let mut i: usize = 0;
    while i < parts.len() && !same_text(parts[i].as_str(), "actor")
        invariant
            crate::text::texts(parts@) == all,
            all == crate::text::split(pose_key@, '/'),
            0 <= i <= parts@.len(),
            actor_mark(all, 0) == actor_mark(all, i as int),
        decreases parts@.len() - i,
    {
        proof {
            assert(all[i as int] == parts@[i as int]@);
        }
        i += 1;
    }
    proof {
        if i < parts@.len() {
            assert(all[i as int] == parts@[i as int]@);
            assert(actor_mark(all, i as int) == i);
        }
        assert(all[i + 1] == parts@[i + 1]@);
    }
    parts[i + 1].clone()
}

/// The key texts of an inbox.
pub open spec fn inbox_keys(inbox: Seq<Message>) -> Seq<Seq<char>> {
    Seq::new(inbox.len(), |i: int| inbox[i].key@)
}

/// For each actor that some keys name, in name order, which of them came
/// last.
pub open spec fn newest(keys: Seq<Seq<char>>) -> Seq<(Seq<char>, usize)>
    decreases keys.len(),
{
    if keys.len() == 0 {
        Seq::empty()
    } else {
        crate::names::with_name(
            newest(keys.drop_last()),
            named_actor(keys.last()),
            (keys.len() - 1) as usize,
        )
    }
}

/// The newest message per actor in an inbox of poses.
///
/// The inbox is sorted by publisher and number, so reading it forward and
/// overwriting leaves each actor's latest. Two runs read the same order, and
/// walk the actors in the same order.
pub fn latest_poses(inbox: &[Message]) -> (latest: NameMap<usize>)
    requires
        forall|i: int| 0 <= i < inbox@.len() ==> names_actor((#[trigger] inbox@[i]).key@),
    ensures
        latest@ == newest(inbox_keys(inbox@)),
        crate::names::in_name_order(latest@),
{
    let ghost keys = inbox_keys(inbox@);
    let mut latest: NameMap<usize> = NameMap::new();
    let mut i: usize = 0;
    proof {
        assert(keys.take(0) =~= Seq::<Seq<char>>::empty());
    }
    while i < inbox.len()
        invariant
            keys == inbox_keys(inbox@),
            forall|i: int| 0 <= i < inbox@.len() ==> names_actor((#[trigger] inbox@[i]).key@),
            0 <= i <= inbox@.len(),
            latest@ == newest(keys.take(i as int)),
            crate::names::in_name_order(latest@),
        decreases inbox@.len() - i,
    {
        proof {
            assert(keys.take(i + 1).drop_last() =~= keys.take(i as int));
            assert(keys.take(i + 1).last() == inbox@[i as int].key@);
        }
        let name = actor_of(inbox[i].key.as_str());
        let _ = latest.put(name, i);
        i += 1;
    }
    proof {
        assert(keys.take(i as int) =~= keys);
    }
    latest
}

// ---------------------------------------------------------------------------
// Commands
// ---------------------------------------------------------------------------

/// Which of a plant's two commands a message carries.
#[derive(Debug, Clone, Copy, PartialEq, Eq, Structural)]
pub enum CommandKind {
    Accel,
    Steer,
}

/// Whether a text ends with another.
pub open spec fn ends_with(text: Seq<char>, tail: Seq<char>) -> bool {
    text.len() >= tail.len() && text.skip(text.len() - tail.len()) == tail
}

/// The last of some keys that ends with a text, if one does.
pub open spec fn last_ending(keys: Seq<Seq<char>>, tail: Seq<char>) -> Option<int>
    decreases keys.len(),
{
    if keys.len() == 0 {
        None
    } else if ends_with(keys.last(), tail) {
        Some(keys.len() - 1)
    } else {
        last_ending(keys.drop_last(), tail)
    }
}

/// The newest message on each command key, newest first.
pub open spec fn newest_commands(keys: Seq<Seq<char>>) -> Seq<(CommandKind, int)> {
    match (last_ending(keys, "/accel_cmd"@), last_ending(keys, "/steer_cmd"@)) {
        (Some(accel), Some(steer)) => if accel > steer {
            seq![(CommandKind::Accel, accel), (CommandKind::Steer, steer)]
        } else {
            seq![(CommandKind::Steer, steer), (CommandKind::Accel, accel)]
        },
        (Some(accel), None) => seq![(CommandKind::Accel, accel)],
        (None, Some(steer)) => seq![(CommandKind::Steer, steer)],
        (None, None) => Seq::empty(),
    }
}

/// Whether a text ends with another.
fn text_ends_with(text: &str, tail: &str) -> (ends: bool)
    ensures
        ends == ends_with(text@, tail@),
{
    let whole = chars_of(text);
    let part = chars_of(tail);
    if whole.len() < part.len() {
        return false;
    }
    let total: usize = whole.len();
    let start: usize = total - part.len();
    let mut i: usize = 0;
    while i < part.len()
        invariant
            total == whole@.len(),
            whole@ == text@,
            part@ == tail@,
            start == whole@.len() - part@.len(),
            0 <= i <= part@.len(),
            forall|k: int| 0 <= k < i ==> whole@[start + k] == part@[k],
        decreases part@.len() - i,
    {
        if whole[start + i] != part[i] {
            proof {
                assert(text@.skip(start as int)[i as int] != tail@[i as int]);
            }
            return false;
        }
        i += 1;
    }
    proof {
        assert(text@.skip(start as int) =~= tail@);
    }
    true
}

/// The last message whose key ends with a text, if one does.
fn last_on(inbox: &[Message], tail: &str) -> (found: Option<usize>)
    ensures
        match found {
            Some(i) => i < inbox@.len() && last_ending(inbox_keys(inbox@), tail@) == Some(i as int),
            None => last_ending(inbox_keys(inbox@), tail@) is None,
        },
{
    let ghost keys = inbox_keys(inbox@);
    let mut i: usize = inbox.len();
    proof {
        assert(keys.take(i as int) =~= keys);
    }
    while i > 0
        invariant
            keys == inbox_keys(inbox@),
            0 <= i <= inbox@.len(),
            last_ending(keys, tail@) == last_ending(keys.take(i as int), tail@),
        decreases i,
    {
        i -= 1;
        proof {
            assert(keys.take(i + 1).drop_last() =~= keys.take(i as int));
            assert(keys.take(i + 1).last() == inbox@[i as int].key@);
        }
        if text_ends_with(inbox[i].key.as_str(), tail) {
            return Some(i);
        }
    }
    None
}

/// Commands as what they say.
pub open spec fn command_models(commands: Seq<(CommandKind, usize)>) -> Seq<(CommandKind, int)> {
    Seq::new(commands.len(), |i: int| (commands[i].0, commands[i].1 as int))
}

/// Picks the newest message on each command key out of an inbox, in the order
/// they are to be read.
///
/// Newest *per key* rather than newest overall, because holding one command
/// must not depend on whether the other spoke. Older ones are left unread.
pub fn take_commands(inbox: &[Message]) -> (commands: Vec<(CommandKind, usize)>)
    ensures
        command_models(commands@) == newest_commands(inbox_keys(inbox@)),
        forall|i: int| 0 <= i < commands@.len() ==> (#[trigger] commands@[i]).1 < inbox@.len(),
{
    let accel = last_on(inbox, "/accel_cmd");
    let steer = last_on(inbox, "/steer_cmd");
    let mut commands: Vec<(CommandKind, usize)> = Vec::new();
    match (accel, steer) {
        (Some(a), Some(s)) => {
            if a > s {
                commands.push((CommandKind::Accel, a));
                commands.push((CommandKind::Steer, s));
            } else {
                commands.push((CommandKind::Steer, s));
                commands.push((CommandKind::Accel, a));
            }
        },
        (Some(a), None) => {
            commands.push((CommandKind::Accel, a));
        },
        (None, Some(s)) => {
            commands.push((CommandKind::Steer, s));
        },
        (None, None) => {},
    }
    proof {
        assert(command_models(commands@) =~= newest_commands(inbox_keys(inbox@)));
    }
    commands
}

/// Whether a text is another with something written in front of it.
pub open spec fn is_tail(text: Seq<char>, tail: Seq<char>) -> bool {
    exists|front: Seq<char>| text == #[trigger] (front + tail)
}

/// A text ends with another exactly where something in front of the other
/// makes it.
proof fn lemma_ends_with(text: Seq<char>, tail: Seq<char>)
    ensures
        ends_with(text, tail) == is_tail(text, tail),
{
    if ends_with(text, tail) {
        let front = text.take(text.len() - tail.len());
        assert(text =~= front + tail);
    }
    if is_tail(text, tail) {
        let front = choose|front: Seq<char>| text == #[trigger] (front + tail);
        assert(text.skip(text.len() - tail.len()) =~= tail);
    }
}

/// What the last key that ends with a text is.
proof fn lemma_last_ending(keys: Seq<Seq<char>>, tail: Seq<char>)
    ensures
        match last_ending(keys, tail) {
            Some(last) => 0 <= last < keys.len() && is_tail(keys[last], tail) && forall|i: int|
                last < i < keys.len() ==> !is_tail(#[trigger] keys[i], tail),
            None => forall|i: int| 0 <= i < keys.len() ==> !is_tail(#[trigger] keys[i], tail),
        },
    decreases keys.len(),
{
    if keys.len() > 0 {
        lemma_ends_with(keys.last(), tail);
        if !ends_with(keys.last(), tail) {
            lemma_last_ending(keys.drop_last(), tail);
            assert forall|i: int| 0 <= i < keys.len() - 1 implies keys.drop_last()[i]
                == #[trigger] keys[i] by {}
        }
    }
}

/// What the keys of a kind of command end with.
pub open spec fn command_tail(kind: CommandKind) -> Seq<char> {
    match kind {
        CommandKind::Accel => "/accel_cmd"@,
        CommandKind::Steer => "/steer_cmd"@,
    }
}

/// Each kind of command is taken on its own: there is one of the kind exactly
/// where some message of the inbox is on its key, it is the last of those,
/// and there is no second, whatever there is of the other kind.
pub proof fn law_each_command_is_taken_on_its_own(keys: Seq<Seq<char>>, kind: CommandKind)
    ensures
        forall|last: int|
            newest_commands(keys).contains((kind, last)) <==> {
                &&& 0 <= last < keys.len()
                &&& is_tail(#[trigger] keys[last], command_tail(kind))
                &&& forall|i: int|
                    last < i < keys.len() ==> !is_tail(#[trigger] keys[i], command_tail(kind))
            },
        forall|p: int, q: int|
            0 <= p < newest_commands(keys).len() && 0 <= q < newest_commands(keys).len()
                && #[trigger] newest_commands(keys)[p].0 == kind && #[trigger] newest_commands(
                keys,
            )[q].0 == kind ==> p == q,
{
    let commands = newest_commands(keys);
    lemma_last_ending(keys, "/accel_cmd"@);
    lemma_last_ending(keys, "/steer_cmd"@);
    let found = last_ending(keys, command_tail(kind));
    assert forall|last: int| commands.contains((kind, last)) implies found == Some(last) by {
        let p = choose|p: int| 0 <= p < commands.len() && commands[p] == (kind, last);
    }
    if found is Some {
        if commands[0].0 == kind {
            assert(commands[0] == (kind, found->0));
        } else {
            assert(commands[1] == (kind, found->0));
        }
        assert(commands.contains((kind, found->0)));
    }
    assert forall|last: int|
        {
            &&& 0 <= last < keys.len()
            &&& is_tail(#[trigger] keys[last], command_tail(kind))
            &&& forall|i: int|
                last < i < keys.len() ==> !is_tail(#[trigger] keys[i], command_tail(kind))
        } implies commands.contains((kind, last)) by {
        assert(found is Some);
        let there = found->0;
        if there < last {
            assert(!is_tail(keys[last], command_tail(kind)));
        } else if last < there {
            assert(!is_tail(keys[there], command_tail(kind)));
        }
    }
}

/// Commands are read newest first.
pub proof fn law_commands_are_read_newest_first(keys: Seq<Seq<char>>, p: int, q: int)
    requires
        0 <= p < q < newest_commands(keys).len(),
    ensures
        newest_commands(keys)[p].1 > newest_commands(keys)[q].1,
{
    let accel = "/accel_cmd"@;
    let steer = "/steer_cmd"@;
    lemma_last_ending(keys, accel);
    lemma_last_ending(keys, steer);
    let a = last_ending(keys, accel)->0;
    let s = last_ending(keys, steer)->0;
    if a == s {
        reveal_strlit("/accel_cmd");
        reveal_strlit("/steer_cmd");
        let key = keys[a];
        let n = key.len();
        let one = choose|front: Seq<char>| key == #[trigger] (front + accel);
        let two = choose|front: Seq<char>| key == #[trigger] (front + steer);
        assert((one + accel)[n - 5] == accel[5]);
        assert((two + steer)[n - 5] == steer[5]);
    }
}

/// The newest pose of every actor is found: under an actor's name stands the
/// last message whose key names it, and nobody else stands there.
pub proof fn law_the_newest_pose_of_every_actor_is_found(
    keys: Seq<Seq<char>>,
    name: Seq<char>,
    place: usize,
)
    requires
        keys.len() <= usize::MAX,
    ensures
        crate::names::in_name_order(newest(keys)),
        newest(keys).contains((name, place)) <==> {
            &&& place < keys.len()
            &&& named_actor(keys[place as int]) == name
            &&& forall|i: int|
                place < i < keys.len() ==> named_actor(#[trigger] keys[i]) != name
        },
    decreases keys.len(),
{
    if keys.len() > 0 {
        let front = keys.drop_last();
        let n = (keys.len() - 1) as usize;
        let before = newest(front);
        law_the_newest_pose_of_every_actor_is_found(front, name, place);
        crate::names::law_putting_keeps_name_order(before, named_actor(keys.last()), n);
        crate::names::law_putting_replaces_what_was_there(
            before,
            named_actor(keys.last()),
            n,
            name,
            place,
        );
        assert forall|i: int| 0 <= i < front.len() implies front[i] == #[trigger] keys[i] by {}
        if named_actor(keys.last()) == name {
            assert(named_actor(keys[keys.len() - 1]) == name);
            if place < n {
                assert(!(forall|i: int|
                    place < i < keys.len() ==> named_actor(#[trigger] keys[i]) != name)) by {
                    assert(place < keys.len() - 1 < keys.len());
                }
            }
        } else {
            assert(named_actor(keys[keys.len() - 1]) != name);
            if before.contains((name, place)) {
                assert forall|i: int| place < i < keys.len() implies named_actor(
                    #[trigger] keys[i],
                ) != name by {
                    if i < front.len() {
                        assert(front[i] == keys[i]);
                    }
                }
            }
        }
    }
}

/// The actor that a key names is the chunk behind the first that is `actor`.
pub proof fn law_a_key_names_the_actor_behind_the_mark(parts: Seq<Seq<char>>, mark: int)
    requires
        0 <= mark,
        mark + 1 < parts.len(),
        parts[mark] == "actor"@,
        forall|i: int| 0 <= i < mark ==> #[trigger] parts[i] != "actor"@,
        forall|i: int| 0 <= i < parts.len() ==> !(#[trigger] parts[i]).contains('/'),
    ensures
        names_actor(crate::text::join(parts, '/')),
        named_actor(crate::text::join(parts, '/')) == parts[mark + 1],
{
    crate::text::law_split_undoes_join(parts, '/');
    lemma_actor_mark(parts, 0, mark);
}

/// The first part that is `actor` is found from any place before it.
proof fn lemma_actor_mark(parts: Seq<Seq<char>>, from: int, mark: int)
    requires
        0 <= from <= mark < parts.len(),
        parts[mark] == "actor"@,
        forall|i: int| 0 <= i < mark ==> #[trigger] parts[i] != "actor"@,
    ensures
        actor_mark(parts, from) == mark,
    decreases mark - from,
{
    if from < mark {
        assert(parts[from] != "actor"@);
        lemma_actor_mark(parts, from + 1, mark);
    }
}

/// The keys of an actor are written with the world's name, the mark, the
/// actor's name and what they are for behind the simulation root.
pub proof fn law_what_an_actors_keys_say(
    world_name: Seq<char>,
    actor_name: Seq<char>,
    what: Seq<char>,
)
    ensures
        actor_key(world_name, actor_name, what) == crate::text::join(
            seq!["continuo"@, world_name, "actor"@, actor_name, what],
            '/',
        ),
{
    let parts = seq!["continuo"@, world_name, "actor"@, actor_name, what];
    reveal_with_fuel(crate::text::join, 5);
    reveal_strlit("/actor/");
    reveal_strlit("actor");
    reveal_strlit("/");
    assert(parts.drop_last() =~= seq!["continuo"@, world_name, "actor"@, actor_name]);
    assert(parts.drop_last().drop_last() =~= seq!["continuo"@, world_name, "actor"@]);
    assert(parts.drop_last().drop_last().drop_last() =~= seq!["continuo"@, world_name]);
    assert(parts.drop_last().drop_last().drop_last().drop_last() =~= seq!["continuo"@]);
    assert(actor_key(world_name, actor_name, what) =~= crate::text::join(parts, '/'));
}

/// Floats are ordered as numbers are: of two without a sign the one of lesser
/// bits comes first, of two with a sign the one of greater bits, and one with
/// a sign before one without.
pub proof fn law_floats_are_ordered_as_numbers(a: u64, b: u64)
    ensures
        a < 0x8000_0000_0000_0000 && b < 0x8000_0000_0000_0000 ==> (total_order(a) < total_order(b)
            <==> a < b),
        a >= 0x8000_0000_0000_0000 && b >= 0x8000_0000_0000_0000 ==> (total_order(a) < total_order(
            b,
        ) <==> a > b),
        a >= 0x8000_0000_0000_0000 && b < 0x8000_0000_0000_0000 ==> total_order(a) < total_order(b),
        total_order(a) == total_order(b) ==> a == b,
{
}

// ---------------------------------------------------------------------------
// The radar's cap
// ---------------------------------------------------------------------------

/// Where a float stands in the order of all floats: from the negative ones of
/// largest magnitude to the positive ones of largest magnitude.
pub open spec fn total_order(bits: u64) -> int {
    if bits < 0x8000_0000_0000_0000 {
        bits as int
    } else {
        0x7fff_ffff_ffff_ffff - bits
    }
}

/// Whether one detection is nearer than another; of two at one range the one
/// found first is.
pub open spec fn is_nearer(ranges: Seq<FloatBits>, i: int, j: int) -> bool {
    total_order(ranges[i].0) < total_order(ranges[j].0) || (total_order(ranges[i].0)
        == total_order(ranges[j].0) && i < j)
}

/// How many of the first `n` detections are nearer than one.
pub open spec fn nearer_count(ranges: Seq<FloatBits>, j: int, n: int) -> nat
    decreases n,
{
    if n <= 0 {
        0
    } else {
        nearer_count(ranges, j, n - 1) + (if is_nearer(ranges, n - 1, j) {
            1nat
        } else {
            0nat
        })
    }
}

/// Where a float stands in the order of all floats.
fn order_key(bits: u64) -> (key: i128)
    ensures
        key == total_order(bits),
{
    if bits < 0x8000_0000_0000_0000 {
        bits as i128
    } else {
        0x7fff_ffff_ffff_ffff_i128 - bits as i128
    }
}

/// Which detections a scan keeps when it carries `most`: the nearest, and of
/// two at one range the one found first. Only membership is decided; what
/// survives keeps its place.
pub fn cap(ranges: &Vec<FloatBits>, most: usize) -> (kept: Vec<bool>)
    ensures
        kept@.len() == ranges@.len(),
        forall|j: int|
            0 <= j < kept@.len() ==> (#[trigger] kept@[j]) == (nearer_count(
                ranges@,
                j,
                ranges@.len() as int,
            ) < most),
{
    let mut kept: Vec<bool> = Vec::new();
    let mut j: usize = 0;
    while j < ranges.len()
        invariant
            0 <= j <= ranges@.len(),
            kept@.len() == j,
            forall|k: int|
                0 <= k < j ==> (#[trigger] kept@[k]) == (nearer_count(
                    ranges@,
                    k,
                    ranges@.len() as int,
                ) < most),
        decreases ranges@.len() - j,
    {
        let mine: i128 = order_key(ranges[j].0);
        let mut nearer: usize = 0;
        let mut i: usize = 0;
        while i < ranges.len()
            invariant
                0 <= i <= ranges@.len(),
                0 <= j < ranges@.len(),
                nearer <= i,
                mine == total_order(ranges@[j as int].0),
                nearer == nearer_count(ranges@, j as int, i as int),
            decreases ranges@.len() - i,
        {
            let other: i128 = order_key(ranges[i].0);
            if other < mine || (other == mine && i < j) {
                nearer += 1;
            }
            i += 1;
        }
        kept.push(nearer < most);
        j += 1;
    }
    kept
}

/// A scan keeps no detection while it drops a nearer one.
pub proof fn law_a_scan_keeps_the_nearest(ranges: Seq<FloatBits>, most: nat, i: int, j: int)
    requires
        0 <= i < ranges.len(),
        0 <= j < ranges.len(),
        is_nearer(ranges, i, j),
        nearer_count(ranges, j, ranges.len() as int) < most,
    ensures
        nearer_count(ranges, i, ranges.len() as int) < most,
{
    lemma_nearer_is_transitive(ranges, i, j, ranges.len() as int);
}

/// Whatever is nearer than the nearer of two is nearer than the other.
proof fn lemma_nearer_is_transitive(ranges: Seq<FloatBits>, i: int, j: int, n: int)
    requires
        is_nearer(ranges, i, j),
    ensures
        nearer_count(ranges, i, n) <= nearer_count(ranges, j, n),
    decreases n,
{
    if n > 0 {
        lemma_nearer_is_transitive(ranges, i, j, n - 1);
    }
}

/// A scan that fits its cap keeps everything.
pub proof fn law_a_scan_within_its_cap_keeps_everything(
    ranges: Seq<FloatBits>,
    most: nat,
    j: int,
)
    requires
        0 <= j < ranges.len(),
        ranges.len() <= most,
    ensures
        nearer_count(ranges, j, ranges.len() as int) < most,
{
    lemma_not_nearer_than_itself(ranges, j, ranges.len() as int);
}

/// A detection is not among those nearer than it.
proof fn lemma_not_nearer_than_itself(ranges: Seq<FloatBits>, j: int, n: int)
    requires
        0 <= n,
    ensures
        nearer_count(ranges, j, n) <= n,
        0 <= j < n ==> nearer_count(ranges, j, n) < n,
    decreases n,
{
    if n > 0 {
        lemma_not_nearer_than_itself(ranges, j, n - 1);
    }
}

/// The detections that a scan keeps when it carries `most`.
pub open spec fn kept_places(ranges: Seq<FloatBits>, most: nat) -> Set<int> {
    Set::new(
        |j: int|
            0 <= j < ranges.len() && nearer_count(ranges, j, ranges.len() as int) < most,
    )
}

/// A scan that keeps a detection keeps every one of lesser range, and every
/// one at the same range that was found before it.
pub proof fn law_a_scan_keeps_who_is_nearer_or_was_found_first(
    ranges: Seq<FloatBits>,
    most: nat,
    i: int,
    j: int,
)
    requires
        0 <= i < ranges.len(),
        0 <= j < ranges.len(),
        total_order(ranges[i].0) < total_order(ranges[j].0) || (ranges[i] == ranges[j] && i < j),
        kept_places(ranges, most).contains(j),
    ensures
        kept_places(ranges, most).contains(i),
{
    law_a_scan_keeps_the_nearest(ranges, most, i, j);
}

/// The nearer of two has fewer nearer than it.
proof fn lemma_nearer_has_fewer(ranges: Seq<FloatBits>, i: int, j: int, n: int)
    requires
        0 <= i < n,
        is_nearer(ranges, i, j),
    ensures
        nearer_count(ranges, i, n) < nearer_count(ranges, j, n),
    decreases n,
{
    if i == n - 1 {
        lemma_nearer_is_transitive(ranges, i, j, n - 1);
    } else {
        lemma_nearer_has_fewer(ranges, i, j, n - 1);
    }
}

/// A scan carries as many detections as it may: all of them, or as many as
/// the cap says.
pub proof fn law_a_scan_is_as_full_as_its_cap_allows(ranges: Seq<FloatBits>, most: nat)
    ensures
        kept_places(ranges, most).finite(),
        kept_places(ranges, most).len() == (if ranges.len() <= most {
            ranges.len()
        } else {
            most
        }),
{
    let n = ranges.len() as int;
    let cap = if n <= most {
        n
    } else {
        most as int
    };
    let places = vstd::set_lib::set_int_range(0, n);
    let rank = |j: int| nearer_count(ranges, j, n) as int;
    vstd::set_lib::lemma_int_range(0, n);
    vstd::set_lib::lemma_int_range(0, cap);
    assert(vstd::relations::injective_on(rank, places)) by {
        assert forall|i: int, j: int|
            places.contains(i) && places.contains(j) && #[trigger] rank(i) == #[trigger] rank(
                j,
            ) implies i == j by {
            if is_nearer(ranges, i, j) {
                lemma_nearer_has_fewer(ranges, i, j, n);
            } else if is_nearer(ranges, j, i) {
                lemma_nearer_has_fewer(ranges, j, i, n);
            }
        }
    }
    // Every rank below the number of detections is some detection's.
    let ranks = places.map(rank);
    vstd::set_lib::lemma_map_size(places, ranks, rank);
    assert(ranks.subset_of(places)) by {
        assert forall|r: int| ranks.contains(r) implies places.contains(r) by {
            let j = choose|j: int| places.contains(j) && r == rank(j);
            lemma_not_nearer_than_itself(ranges, j, n);
        }
    }
    vstd::set_lib::lemma_subset_equality(ranks, places);
    // So those that are kept have exactly the ranks below the cap.
    let kept = kept_places(ranges, most);
    assert(kept.subset_of(places));
    vstd::set_lib::lemma_len_subset(kept, places);
    vstd::relations::lemma_injective_on_subset(rank, kept, places);
    assert(kept.map(rank) =~= vstd::set_lib::set_int_range(0, cap)) by {
        assert forall|r: int| 0 <= r < cap implies kept.map(rank).contains(r) by {
            assert(ranks.contains(r));
            let j = choose|j: int| places.contains(j) && r == rank(j);
            assert(kept.contains(j));
        }
        assert forall|r: int| kept.map(rank).contains(r) implies 0 <= r < cap by {
            let j = choose|j: int| kept.contains(j) && r == rank(j);
            lemma_not_nearer_than_itself(ranges, j, n);
        }
    }
    vstd::set_lib::lemma_map_size(kept, vstd::set_lib::set_int_range(0, cap), rank);
}

// ---------------------------------------------------------------------------
// The logger's schedule
// ---------------------------------------------------------------------------

/// When a sampling observer is due next: after its first step by an offset
/// that takes it past the period boundaries, and then every period.
pub fn logger_next_due(
    now: SimTime,
    dt: Option<SimDuration>,
    period: SimDuration,
    offset: SimDuration,
) -> (next: SimTime)
    requires
        dt is None ==> crate::time::fits(now.0 + offset.0),
        dt is Some ==> crate::time::fits(now.0 + period.0),
    ensures
        next.0 == now.0 + (if dt is None {
            offset.0
        } else {
            period.0
        }),
{
    if dt.is_none() {
        // The first step, at join time, establishes the phase offset.
        now + offset
    } else {
        now + period
    }
}

} // verus!
