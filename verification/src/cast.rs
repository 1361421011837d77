//! A cast: components that join a world one after another.
use vstd::prelude::*;

use crate::component::Component;
use crate::conductor::Conductor;
use crate::conductor_error::{ConductorError, ConductorErrorModel};
use crate::ids::ComponentId;
use crate::keyexpr::KeyExpr;
use crate::membership::JoinMetadata;
use crate::observers::Observer;
use crate::pacing::WallClock;
use crate::stage::StageModel;
use crate::time::SimTime;
use crate::timing::{OnTimeout, StepTiming};
use crate::transport::Transport;

verus! {

/// Who a component of a cast can be, where it goes, and when it first steps.
#[verifier::reject_recursive_types(K)]
pub struct Part<K> {
    pub who: spec_fn(K) -> bool,
    pub parent: Seq<char>,
    pub first_due: SimTime,
}

/// A declaration without limits.
pub open spec fn no_limits() -> StepTiming {
    StepTiming { budget: None, timeout: None, on_timeout: OnTimeout::Halt }
}

/// An outcome as what it says.
pub open spec fn outcome_model(outcome: Result<(), ConductorError>) -> Result<
    (),
    ConductorErrorModel,
> {
    match outcome {
        Ok(_) => Ok(()),
        Err(error) => Err(error@),
    }
}

/// Whether a component that says it goes by a name and asks for some keys
/// takes a part, or is refused it.
pub open spec fn takes<K: Component, C: WallClock>(
    before: StageModel<K, C>,
    part: Part<K>,
    component: K,
    id: ComponentId,
    keys: Vec<KeyExpr>,
    after: StageModel<K, C>,
    outcome: Result<(), ConductorErrorModel>,
) -> bool {
    let answer = crate::world::join_request(
        before.world,
        part.parent,
        part.first_due,
        no_limits(),
        id@,
        crate::keyexpr::key_texts(keys@),
    );
    &&& (part.who)(component)
    &&& crate::conductor::introduces(component, id, keys)
    &&& after == (StageModel {
        world: answer.world,
        cast: crate::stage::cast_after_join(
            before.cast,
            before.world,
            part.first_due,
            component,
            answer.answer,
        ),
        ..before
    })
    &&& match answer.answer {
        Ok(_) => outcome == Ok::<(), ConductorErrorModel>(()),
        Err(error) => outcome == Err::<(), ConductorErrorModel>(error),
    }
}

/// Whether a component that a part is for takes it, or is refused it.
pub open spec fn is_taken<K: Component, C: WallClock>(
    before: StageModel<K, C>,
    part: Part<K>,
    after: StageModel<K, C>,
    outcome: Result<(), ConductorErrorModel>,
) -> bool {
    exists|component: K, id: ComponentId, keys: Vec<KeyExpr>| #[trigger]
        takes(before, part, component, id, keys, after, outcome)
}

/// Whether taking a part leads from one stage to the next.
pub open spec fn taken_at<K: Component, C: WallClock>(
    parts: Seq<Part<K>>,
    stages: Seq<StageModel<K, C>>,
    i: int,
) -> bool {
    is_taken(stages[i], parts[i], stages[i + 1], Ok::<(), ConductorErrorModel>(()))
}

/// Whether the leading parts of a cast have been taken, one after another.
pub open spec fn taken_so_far<K: Component, C: WallClock>(
    parts: Seq<Part<K>>,
    stages: Seq<StageModel<K, C>>,
) -> bool {
    &&& 1 <= stages.len() <= parts.len() + 1
    &&& forall|i: int| 0 <= i < stages.len() - 1 ==> #[trigger] taken_at(parts, stages, i)
}

/// Whether casting leads from one stage to another: every part is taken, in
/// order, or one of them is refused and the rest never asked for.
pub open spec fn casts<K: Component, C: WallClock>(
    before: StageModel<K, C>,
    parts: Seq<Part<K>>,
    stages: Seq<StageModel<K, C>>,
    after: StageModel<K, C>,
    outcome: Result<(), ConductorErrorModel>,
) -> bool {
    &&& taken_so_far(parts, stages)
    &&& stages[0] == before
    &&& match outcome {
        Ok(_) => stages.len() == parts.len() + 1 && after == stages.last(),
        Err(error) => stages.len() <= parts.len() && is_taken(
            stages.last(),
            parts[stages.len() - 1],
            after,
            Err::<(), ConductorErrorModel>(error),
        ),
    }
}

/// Taking a part is joining: under the part's parent, for its first step, by
/// the name and with the keys that the component itself gives, and with no
/// limit on its steps. The part is taken exactly where the join is accepted,
/// and a part that is refused is refused for what the join is.
pub proof fn law_taking_a_part_is_joining<K: Component, C: WallClock>(
    before: StageModel<K, C>,
    part: Part<K>,
    component: K,
    id: ComponentId,
    keys: Vec<KeyExpr>,
    after: StageModel<K, C>,
    outcome: Result<(), ConductorErrorModel>,
)
    requires
        takes(before, part, component, id, keys, after, outcome),
    ensures
        (part.who)(component),
        ({
            let answer = crate::world::join_request(
                before.world,
                part.parent,
                part.first_due,
                StepTiming { budget: None, timeout: None, on_timeout: OnTimeout::Halt },
                id@,
                crate::keyexpr::key_texts(keys@),
            );
            &&& after.world == answer.world
            &&& outcome is Ok <==> answer.answer is Ok
            &&& answer.answer matches Err(error) ==> outcome == Err::<(), ConductorErrorModel>(
                error,
            )
        }),
        after.clock == before.clock,
        after.pace == before.pace,
        after.moments == before.moments,
{
}

/// A cast is taken part by part, in order; it is complete where every part is
/// taken, and ends at the first that is refused.
pub proof fn law_a_cast_is_taken_in_order<K: Component, C: WallClock>(
    before: StageModel<K, C>,
    parts: Seq<Part<K>>,
    stages: Seq<StageModel<K, C>>,
    after: StageModel<K, C>,
    outcome: Result<(), ConductorErrorModel>,
)
    requires
        casts(before, parts, stages, after, outcome),
    ensures
        stages[0] == before,
        forall|i: int|
            0 <= i < stages.len() - 1 ==> is_taken(
                #[trigger] stages[i],
                parts[i],
                stages[i + 1],
                Ok::<(), ConductorErrorModel>(()),
            ),
        outcome is Ok ==> stages.len() == parts.len() + 1 && after == stages.last(),
        outcome is Err ==> stages.len() <= parts.len() && is_taken(
            stages.last(),
            parts[stages.len() - 1],
            after,
            outcome,
        ),
{
    assert forall|i: int| 0 <= i < stages.len() - 1 implies is_taken(
        #[trigger] stages[i],
        parts[i],
        stages[i + 1],
        Ok::<(), ConductorErrorModel>(()),
    ) by {
        assert(taken_at(parts, stages, i));
    }
}

/// Has a component take the next part of a cast.
pub(crate) fn cast_part<K: Component, T: Transport, O: Observer, C: WallClock>(
    conductor: &mut Conductor<K, T, O, C>,
    parent: &str,
    first_due: SimTime,
    component: K,
    Ghost(parts): Ghost<Seq<Part<K>>>,
    stages: &mut Ghost<Seq<StageModel<K, C>>>,
) -> (done: Result<(), ConductorError>)
    requires
        old(conductor).wf(),
        old(conductor)@.tick == 0 || old(conductor)@.sim_time.0 < i64::MAX,
        taken_so_far(parts, old(stages)@),
        old(stages)@.last() == old(conductor).stage(),
        old(stages)@.len() <= parts.len(),
        parts[old(stages)@.len() - 1].parent == parent@,
        parts[old(stages)@.len() - 1].first_due == first_due,
        (parts[old(stages)@.len() - 1].who)(component),
    ensures
        final(conductor).wf(),
        final(conductor)@.tick == old(conductor)@.tick,
        final(conductor)@.sim_time == old(conductor)@.sim_time,
        match done {
            Ok(_) => final(stages)@ == old(stages)@.push(final(conductor).stage()) && taken_so_far(
                parts,
                final(stages)@,
            ),
            Err(error) => casts(
                old(stages)@[0],
                parts,
                old(stages)@,
                final(conductor).stage(),
                Err::<(), ConductorErrorModel>(error@),
            ),
        },
{
    let ghost before = conductor.stage();
    let ghost part = parts[stages@.len() - 1];
    let join = JoinMetadata::at(parent, first_due);
    let joined = conductor.add_component(join, component);
    let ghost (name, asked) = choose|name: ComponentId, asked: Vec<KeyExpr>|
        #![trigger crate::conductor::introduces(component, name, asked)]
        crate::conductor::introduces(component, name, asked) && crate::conductor::answers_join(
            crate::world::join_request(
                before.world,
                parent@,
                first_due,
                no_limits(),
                name@,
                crate::keyexpr::key_texts(asked@),
            ),
            conductor@,
            joined,
        );
    match joined {
        Ok(_) => {
            proof {
                assert(takes(
                    before,
                    part,
                    component,
                    name,
                    asked,
                    conductor.stage(),
                    Ok::<(), ConductorErrorModel>(()),
                ));
                let was = stages@;
                let longer = was.push(conductor.stage());
                assert forall|i: int| 0 <= i < longer.len() - 1 implies #[trigger] taken_at(
                    parts,
                    longer,
                    i,
                ) by {
                    if i < was.len() - 1 {
                        assert(taken_at(parts, was, i));
                    } else {
                        assert(longer[i] == before && longer[i + 1] == conductor.stage());
                    }
                }
                stages@ = longer;
            }
            Ok(())
        },
        Err(error) => {
            proof {
                assert(takes(
                    before,
                    part,
                    component,
                    name,
                    asked,
                    conductor.stage(),
                    Err::<(), ConductorErrorModel>(error@),
                ));
            }
            Err(error)
        },
    }
}

} // verus!
