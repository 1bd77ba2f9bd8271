//! A room: the record of every call observed at one model endpoint, and what
//! can be learned from it.

use vstd::prelude::*;
use vstd::string::*;
use crate::decision::{
    count_distillable, decision_point, distillable_steps, distinct_step_names,
    is_decision_point_for, };
use crate::hash::{room_id, room_id_for};
use crate::observations::{
    copy_optional, copy_strings, distinct_steps, ticks_with_step, views,
};
use crate::types::{DecisionPoint, ExpertType, McpTick, Ratio, TrainingExample};

verus! {

/// A model endpoint wrapped for observation.
pub struct McpRoom {
    pub id: String,
    pub mcp_endpoint: String,
    /// Every observed call, in the order it was seen.
    pub perception_db: Vec<McpTick>,
    /// Every predicted call, in the order it was predicted.
    pub prediction_db: Vec<McpTick>,
    pub decision_points: Vec<DecisionPoint>,
    pub expert_catalog: Vec<ExpertType>,
    pub distillation_progress: Ratio,
}

/// `e` is the training example that the tick `t` gives.
pub open spec fn is_training_example_of(e: TrainingExample, t: McpTick) -> bool {
    &&& e.input@ == t.prompt@
    &&& e.options@ == t.options@
    &&& e.correct_output@ == t.chosen@
    &&& e.reasoning == t.reasoning
}

/// How many of the decision points of a log are marked distillable.
pub(crate) fn count_marked(dps: &Vec<DecisionPoint>, Ghost(db): Ghost<Seq<McpTick>>) -> (n: usize)
    requires
        dps@.len() == distinct_steps(db).len(),
        forall|k: int|
            0 <= k < dps@.len() ==> is_decision_point_for(
                #[trigger] dps@[k],
                db,
                distinct_steps(db)[k],
            ),
    ensures
        n == distillable_steps(db),
        n <= dps@.len(),
{
    let ghost steps = distinct_steps(db);
    let mut n: usize = 0;
    let mut i: usize = 0;
    assert(steps.take(0) =~= Seq::<Seq<char>>::empty());
    while i < dps.len()
        invariant
            dps@.len() == steps.len(),
            steps == distinct_steps(db),
            forall|k: int|
                0 <= k < dps@.len() ==> is_decision_point_for(#[trigger] dps@[k], db, steps[k]),
            i <= dps@.len(),
            n <= i,
            n == count_distillable(db, steps.take(i as int)),
        decreases dps@.len() - i,
    {
        assert(steps.take(i as int + 1).drop_last() =~= steps.take(i as int));
        assert(is_decision_point_for(dps@[i as int], db, steps[i as int]));
        if dps[i].distillable {
            n = n + 1;
        }
        i = i + 1;
    }
    assert(steps.take(i as int) =~= steps);
    n
}

/// As many calls were predicted as were observed.
pub open spec fn is_balanced(room: McpRoom) -> bool {
    room.perception_db@.len() == room.prediction_db@.len()
}

/// Intercepting a call in a balanced room leaves it unbalanced until one more
/// prediction is recorded.
pub proof fn lemma_intercept_unbalances(
    before: McpRoom,
    after: McpRoom,
    again: McpRoom,
    call: McpTick,
    predicted: McpTick,
)
    requires
        is_balanced(before),
        after.perception_db@ == before.perception_db@.push(call),
        after.prediction_db@ == before.prediction_db@,
        again.perception_db@ == after.perception_db@,
        again.prediction_db@ == after.prediction_db@.push(predicted),
    ensures
        !is_balanced(after),
        is_balanced(again),
{
}

impl McpRoom {
    /// Wraps the endpoint `endpoint`: an empty room whose identifier is
    /// derived from the endpoint's hash.
    pub fn wrap(endpoint: &str) -> (room: McpRoom)
        ensures
            room.id@ == room_id(endpoint.spec_bytes()),
            room.mcp_endpoint@ == endpoint@,
            room.perception_db@.len() == 0,
            room.prediction_db@.len() == 0,
            room.decision_points@.len() == 0,
            room.expert_catalog@.len() == 0,
            room.distillation_progress == Ratio::of(0, 1),
    {
        let id = room_id_for(endpoint);
        McpRoom {
            id,
            mcp_endpoint: String::from_str(endpoint),
            perception_db: Vec::new(),
            prediction_db: Vec::new(),
            decision_points: Vec::new(),
            expert_catalog: Vec::new(),
            distillation_progress: Ratio::zero(),
        }
    }

    /// Logs an observed call.
    pub fn intercept_call(&mut self, call: McpTick)
        ensures
            final(self).perception_db@ == old(self).perception_db@.push(call),
            final(self).prediction_db@ == old(self).prediction_db@,
            final(self).id == old(self).id,
            final(self).mcp_endpoint == old(self).mcp_endpoint,
            final(self).decision_points@ == old(self).decision_points@,
            final(self).expert_catalog@ == old(self).expert_catalog@,
            final(self).distillation_progress == old(self).distillation_progress,
    {
        self.perception_db.push(call);
    }

    /// One decision point per distinct observed step, in order of the step's
    /// first appearance.
    pub fn find_distillable_steps(&self) -> (dps: Vec<DecisionPoint>)
        ensures
            dps@.len() == distinct_steps(self.perception_db@).len(),
            forall|k: int|
                0 <= k < dps@.len() ==> is_decision_point_for(
                    #[trigger] dps@[k],
                    self.perception_db@,
                    distinct_steps(self.perception_db@)[k],
                ),
    {
        let steps = distinct_step_names(&self.perception_db);
        let mut dps: Vec<DecisionPoint> = Vec::new();
        let mut i: usize = 0;
        while i < steps.len()
            invariant
                views(steps@) == distinct_steps(self.perception_db@),
                i <= steps@.len(),
                dps@.len() == i,
                forall|k: int|
                    0 <= k < i ==> is_decision_point_for(
                        #[trigger] dps@[k],
                        self.perception_db@,
                        distinct_steps(self.perception_db@)[k],
                    ),
            decreases steps@.len() - i,
        {
            assert(views(steps@)[i as int] == steps@[i as int]@);
            dps.push(decision_point(&self.perception_db, &steps[i]));
            i = i + 1;
        }
        dps
    }

    /// How many distinct steps can be distilled into an expert.
    pub fn count_experts(&self) -> (n: usize)
        ensures
            n == distillable_steps(self.perception_db@),
    {
        let dps = self.find_distillable_steps();
        count_marked(&dps, Ghost(self.perception_db@))
    }

    /// The training examples of `step`: one per tick of the step, in log order.
    pub fn generate_training_data(&self, step: &str) -> (data: Vec<TrainingExample>)
        ensures
            data@.len() == ticks_with_step(self.perception_db@, step@).len(),
            forall|k: int|
                0 <= k < data@.len() ==> is_training_example_of(
                    #[trigger] data@[k],
                    ticks_with_step(self.perception_db@, step@)[k],
                ),
    {
        let step = String::from_str(step);
        let db = &self.perception_db;
        let mut data: Vec<TrainingExample> = Vec::new();
        let mut i: usize = 0;
        assert(db@.take(0) =~= Seq::<McpTick>::empty());
        while i < db.len()
            invariant
                i <= db@.len(),
                data@.len() == ticks_with_step(db@.take(i as int), step@).len(),
                forall|k: int|
                    0 <= k < data@.len() ==> is_training_example_of(
                        #[trigger] data@[k],
                        ticks_with_step(db@.take(i as int), step@)[k],
                    ),
            decreases db@.len() - i,
        {
            let ghost prev = ticks_with_step(db@.take(i as int), step@);
            assert(db@.take(i as int + 1).drop_last() =~= db@.take(i as int));
            assert(db@.take(i as int + 1).last() == db@[i as int]);
            let tick = &db[i];
            if tick.step == step {
                assert(ticks_with_step(db@.take(i as int + 1), step@) == prev.push(*tick));
                data.push(
                    TrainingExample {
                        input: tick.prompt.clone(),
                        options: copy_strings(&tick.options),
                        correct_output: tick.chosen.clone(),
                        reasoning: copy_optional(&tick.reasoning),
                    },
                );
            } else {
                assert(ticks_with_step(db@.take(i as int + 1), step@) == prev);
            }
            i = i + 1;
        }
        assert(db@.take(i as int) =~= db@);
        data
    }

    /// Whether as many calls were predicted as were observed.
    pub fn balance_check(&self) -> (balanced: bool)
        ensures
            balanced == is_balanced(*self),
    {
        self.perception_db.len() == self.prediction_db.len()
    }
}

} // verus!
