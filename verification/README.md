# continuo

A deterministic discrete-event simulation core in Verus. A conductor owns
simulation time: every component says when it is next due, the conductor
advances to the earliest due instant, steps exactly the components due there
in the order they were declared, and routes what they publish. Components join
and leave at runtime, each at an instant that is named.

What the conductor decides is stated in `src/world.rs` as functions over a
plain value, `WorldModel`; every operation of `src/conductor.rs` is proved to
be the function of the same name. What a component replies is what its own
step makes of what it is told: `src/stage.rs` states every instant over the
components themselves. The laws of a run follow from both.

| Modules | Contents |
| ------- | -------- |
| `time`, `ids`, `keyexpr`, `messages`, `component`, `error` | Sim time, names and paths, key expressions, messages, what a component is |
| `hash`, `fingerprint`, `seed`, `random`, `base64`, `finite`, `json`, `text`, `names` | Fingerprints, seeds and streams, payload checks, text |
| `tree`, `registry`, `schedule`, `queue`, `membership`, `transport`, `observers`, `pacing`, `timing`, `stopwatch` | What a conductor is made of |
| `world`, `stage`, `coherence`, `conductor`, `conductor_error`, `config` | The world as a value, the components that take part in it, what holds at every moment, and the conductor |
| `visibility`, `presence`, `stage_laws`, `determinism`, `run_laws`, `replay_laws`, `request_laws`, `timeliness` | Laws: what a component sees when, that two runs of one world are the same run, that a refused request leaves no trace |
| `record`, `verify`, `playback` | Event logs, checking a re-run against one, playing one back |
| `actors`, `traffic`, `spawner`, `traffic_world`, `cast` | The decisions of the traffic demo |

`app/` is the traffic demo itself: floating-point cars on a road, files, and
the machine's clock. `tests/` runs the library from outside.
