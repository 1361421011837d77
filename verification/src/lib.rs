//! A deterministic discrete-event simulation core.
use vstd::prelude::*;

pub mod actors;
pub mod base64;
pub mod cast;
pub mod cast_laws;
pub mod coherence;
pub mod component;
pub mod conductor;
pub mod conductor_error;
pub mod config;
pub mod determinism;
pub mod elapsed_laws;
pub mod error;
pub mod fingerprint;
pub mod finite;
pub mod hash;
pub mod ids;
pub mod json;
pub mod keyexpr;
pub mod membership;
pub mod membership_laws;
pub mod messages;
pub mod names;
pub mod observers;
pub mod pacing;
pub mod playback;
pub mod presence;
pub mod queue;
pub mod random;
pub mod record;
pub mod registry;
pub mod replay_laws;
pub mod request_laws;
pub mod run_laws;
pub mod schedule;
pub mod seed;
pub mod spawner;
pub mod stage;
pub mod stage_laws;
pub mod stopwatch;
pub mod text;
pub mod time;
pub mod timeliness;
pub mod timing;
pub mod traffic;
pub mod traffic_laws;
pub mod traffic_world;
pub mod transport;
pub mod tree;
pub mod verify;
pub mod visibility;
pub mod world;
pub mod world_laws;

verus! {

} // verus!
