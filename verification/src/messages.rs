//! The units that travel: tick protocol messages and routed payloads.
use vstd::prelude::*;

use crate::error::CoreError;
use crate::ids::{ComponentId, ComponentPath};
use crate::keyexpr::KeyExpr;
use crate::time::SimTime;

verus! {

/// Conductor to components: a new step boundary.
#[derive(Debug, Clone, Copy, PartialEq, Eq, Structural)]
pub struct TickStart {
    pub tick: u64,
    pub sim_time: SimTime,
}

/// Component to conductor: step completed; `next_due` is the next sim time
/// this component should step (strictly greater than the instant it stepped
/// at).
#[derive(Debug, PartialEq)]
pub struct TickDone {
    pub tick: u64,
    pub component_id: ComponentId,
    pub next_due: SimTime,
}

/// A routed unit on the transport: canonical JSON payload bytes plus the
/// metadata that makes delivery deterministic.
///
/// `seq` is a per-publisher counter stamped at publish time; inboxes are
/// delivered sorted by `(publisher, seq)` so ordering never depends on
/// execution or arrival order. Payloads stay serialized bytes end-to-end so
/// the canonical form survives for hashing.
#[derive(Debug, PartialEq)]
pub struct Message {
    pub key: KeyExpr,
    pub publisher: ComponentPath,
    pub seq: u64,
    pub sim_time: SimTime,
    pub payload: Vec<u8>,
}

/// What a [`Message`] says.
#[verifier::ext_equal]
pub struct MessageModel {
    pub key: Seq<char>,
    pub publisher: Seq<Seq<char>>,
    pub seq: u64,
    pub sim_time: SimTime,
    pub payload: Seq<u8>,
}

impl View for Message {
    type V = MessageModel;

    open spec fn view(&self) -> MessageModel {
        MessageModel {
            key: self.key@,
            publisher: self.publisher@,
            seq: self.seq,
            sim_time: self.sim_time,
            payload: self.payload@,
        }
    }
}

/// The views of a sequence of messages.
pub open spec fn message_models(messages: Seq<Message>) -> Seq<MessageModel> {
    Seq::new(messages.len(), |i: int| messages[i]@)
}

impl Message {
    /// What reading this message's payload comes to, given what the
    /// deserializer made of it.
    ///
    /// An error names this message's key and publisher, because a component
    /// that cannot read a payload is rarely the one at fault. It is a
    /// [`CoreError`] so that the usual shape inside a step is to hand it on,
    /// which halts the world; swallowing one stays possible but then says so
    /// where anyone can see it.
    pub fn decode<T>(&self, parsed: Result<T, String>) -> (value: Result<T, CoreError>)
        ensures
            match parsed {
                Ok(v) => value == Ok::<T, CoreError>(v),
                Err(source) => value matches Err(error)
                    && error matches CoreError::PayloadDecode { key, publisher, source: said }
                    && key@ == self.key@ && publisher@ == crate::ids::path_text(self.publisher@)
                    && said@ == source@,
            },
    {
        match parsed {
            Ok(value) => Ok(value),
            Err(source) => Err(
                CoreError::PayloadDecode {
                    key: self.key.to_string(),
                    publisher: self.publisher.to_string(),
                    source,
                },
            ),
        }
    }

    /// A copy of this message.
    pub fn duplicate(&self) -> (copy: Message)
        ensures
            copy@ == self@,
    {
        let payload = copy_bytes(&self.payload);
        Message {
            key: self.key.clone(),
            publisher: self.publisher.clone(),
            seq: self.seq,
            sim_time: self.sim_time,
            payload,
        }
    }
}

/// A copy of some bytes.
pub fn copy_bytes(bytes: &Vec<u8>) -> (copy: Vec<u8>)
    ensures
        copy@ == bytes@,
{
    let mut copy: Vec<u8> = Vec::new();
    let mut i: usize = 0;
    while i < bytes.len()
        invariant
            0 <= i <= bytes@.len(),
            copy@ == bytes@.take(i as int),
        decreases bytes@.len() - i,
    {
        copy.push(bytes[i]);
        proof {
            assert(copy@ =~= bytes@.take(i + 1));
        }
        i += 1;
    }
    proof {
        assert(bytes@.take(i as int) =~= bytes@);
    }
    copy
}

} // verus!
