//! Predicting the next choice at a step from the recorded frequencies, and
//! scoring recorded predictions against what was observed.

use vstd::prelude::*;
use vstd::string::*;
use crate::observations::{
    chosen_names, index_of, lemma_first_occurrences, lemma_occurrences, occurrences, tally_step,
    ticks_with_step, views,
};
use crate::ranking::{as_ints, is_ranking, rank_by_count, ranking};
use crate::room::McpRoom;
use crate::types::{McpTick, Prediction, Ratio};

verus! {

/// How often each of `options` was chosen at `step`.
pub open spec fn option_counts(db: Seq<McpTick>, step: Seq<char>, options: Seq<String>) -> Seq<int> {
    options.map_values(|o: String| occurrences(chosen_names(ticks_with_step(db, step)), o@) as int)
}

/// `p` is the prediction for `step` among `options` given the log `db`.
///
/// With no tick of the step, or no option, the prediction is the first option
/// (or the empty string) with confidence zero and no alternatives.  Otherwise
/// the options are ranked by how often they were chosen at the step (ties in
/// the order given): the first is predicted and the others follow as
/// alternatives, each with its frequency among the step's ticks.
pub open spec fn is_prediction_for(
    p: Prediction,
    db: Seq<McpTick>,
    step: Seq<char>,
    options: Seq<String>,
) -> bool {
    let n = ticks_with_step(db, step).len();
    if n == 0 || options.len() == 0 {
        &&& p.predicted_choice@ == (if options.len() > 0 {
            options[0]@
        } else {
            Seq::<char>::empty()
        })
        &&& p.confidence == Ratio::of(0, 1)
        &&& p.alternatives@.len() == 0
    } else {
        let counts = option_counts(db, step, options);
        let order = ranking(counts);
        &&& p.predicted_choice@ == options[order[0]]@
        &&& p.confidence == Ratio::of(counts[order[0]], n as int)
        &&& p.alternatives@.len() == options.len() - 1
        &&& forall|r: int|
            0 <= r < options.len() - 1 ==> {
                &&& (#[trigger] p.alternatives@[r]).0@ == options[order[r + 1]]@
                &&& p.alternatives@[r].1 == Ratio::of(counts[order[r + 1]], n as int)
            }
    }
}

/// How many of the first `len` predictions chose what was observed.
pub open spec fn agreements(pred: Seq<McpTick>, perc: Seq<McpTick>, len: int) -> nat
    decreases len,
{
    if len <= 0 {
        0
    } else {
        agreements(pred, perc, len - 1) + if pred[len - 1].chosen@ == perc[len - 1].chosen@ {
            1nat
        } else {
            0nat
        }
    }
}

/// The share of predictions that agree with the observation at the same
/// position, over the positions both logs have; zero when either is empty.
pub open spec fn accuracy_of(pred: Seq<McpTick>, perc: Seq<McpTick>) -> Ratio {
    if pred.len() == 0 || perc.len() == 0 {
        Ratio::of(0, 1)
    } else {
        let m = if pred.len() < perc.len() {
            pred.len()
        } else {
            perc.len()
        };
        Ratio::of(agreements(pred, perc, m as int) as int, m as int)
    }
}

/// At most `len` of the first `len` predictions agree.
pub proof fn lemma_agreements_bound(pred: Seq<McpTick>, perc: Seq<McpTick>, len: int)
    requires
        len >= 0,
    ensures
        agreements(pred, perc, len) <= len,
    decreases len,
{
    if len > 0 {
        lemma_agreements_bound(pred, perc, len - 1);
    }
}

/// The predicted choice is an option chosen at least as often as every other
/// option, and no alternative is more frequent than the prediction.
pub proof fn lemma_prediction_most_frequent(
    p: Prediction,
    db: Seq<McpTick>,
    step: Seq<char>,
    options: Seq<String>,
)
    requires
        is_prediction_for(p, db, step, options),
        db.len() <= usize::MAX,
        ticks_with_step(db, step).len() > 0,
        options.len() > 0,
    ensures
        exists|j: int|
            0 <= j < options.len() && p.predicted_choice@ == (#[trigger] options[j])@
                && p.confidence.numerator == option_counts(db, step, options)[j],
        forall|j: int|
            0 <= j < options.len() ==> #[trigger] option_counts(db, step, options)[j]
                <= p.confidence.numerator,
        forall|r: int|
            0 <= r < p.alternatives@.len() ==> (#[trigger] p.alternatives@[r]).1.numerator
                <= p.confidence.numerator,
        p.confidence.numerator <= p.confidence.denominator,
{
    let ticks = ticks_with_step(db, step);
    let names = chosen_names(ticks);
    let counts = option_counts(db, step, options);
    let order = ranking(counts);
    crate::ranking::lemma_ranking_by_count(counts);
    crate::observations::lemma_ticks_with_step_len(db, step);
    assert forall|j: int| 0 <= j < options.len() implies 0 <= #[trigger] counts[j] <= ticks.len() by {
        lemma_occurrences(names, options[j]@);
    }
    let first = order[0];
    assert(0 <= first < options.len());
    assert(counts[first] <= ticks.len());
    assert(p.confidence.numerator == counts[first]);
    assert forall|r: int| 0 <= r < p.alternatives@.len() implies (
    #[trigger] p.alternatives@[r]).1.numerator <= p.confidence.numerator by {
        let o = order[r + 1];
        assert(0 <= o < options.len());
        assert(counts[o] <= ticks.len());
        assert(counts[first] >= counts[o]);
    }
}

/// Accuracy lies between 0 and 1.
pub proof fn lemma_accuracy_unit(pred: Seq<McpTick>, perc: Seq<McpTick>)
    requires
        pred.len() <= usize::MAX,
        perc.len() <= usize::MAX,
    ensures
        accuracy_of(pred, perc).is_unit(),
{
    if pred.len() > 0 && perc.len() > 0 {
        let m = if pred.len() < perc.len() {
            pred.len()
        } else {
            perc.len()
        };
        lemma_agreements_bound(pred, perc, m as int);
    }
}

/// Predictions that agree with every observation they can be compared with
/// are fully accurate.
pub proof fn lemma_accuracy_perfect(pred: Seq<McpTick>, perc: Seq<McpTick>)
    requires
        pred.len() > 0,
        perc.len() > 0,
        pred.len() <= usize::MAX,
        perc.len() <= usize::MAX,
        forall|i: int|
            0 <= i < pred.len() && i < perc.len() ==> (#[trigger] pred[i]).chosen@ == perc[i].chosen@,
    ensures
        accuracy_of(pred, perc).numerator == accuracy_of(pred, perc).denominator,
{
    let m = if pred.len() < perc.len() {
        pred.len()
    } else {
        perc.len()
    };
    lemma_agreements_all(pred, perc, m as int);
}

/// When no position agrees on the chosen answer, none of the first `len` count.
proof fn lemma_agreements_none(pred: Seq<McpTick>, perc: Seq<McpTick>, len: int)
    requires
        0 <= len <= pred.len(),
        len <= perc.len(),
        forall|i: int|
            0 <= i < pred.len() && i < perc.len() ==> (#[trigger] pred[i]).chosen@ != perc[i].chosen@,
    ensures
        agreements(pred, perc, len) == 0,
    decreases len,
{
    if len > 0 {
        lemma_agreements_none(pred, perc, len - 1);
        assert(pred[len - 1].chosen@ != perc[len - 1].chosen@);
    }
}

/// Agreements depend on nothing but the chosen answers at each position.
proof fn lemma_agreements_chosen_only(
    pred1: Seq<McpTick>,
    perc1: Seq<McpTick>,
    pred2: Seq<McpTick>,
    perc2: Seq<McpTick>,
    len: int,
)
    requires
        0 <= len <= pred1.len(),
        len <= perc1.len(),
        pred1.len() == pred2.len(),
        perc1.len() == perc2.len(),
        forall|i: int| 0 <= i < pred1.len() ==> (#[trigger] pred1[i]).chosen@ == pred2[i].chosen@,
        forall|i: int| 0 <= i < perc1.len() ==> (#[trigger] perc1[i]).chosen@ == perc2[i].chosen@,
    ensures
        agreements(pred1, perc1, len) == agreements(pred2, perc2, len),
    decreases len,
{
    if len > 0 {
        lemma_agreements_chosen_only(pred1, perc1, pred2, perc2, len - 1);
        assert(pred1[len - 1].chosen@ == pred2[len - 1].chosen@);
        assert(perc1[len - 1].chosen@ == perc2[len - 1].chosen@);
    }
}

/// A prediction counts only when it chose what was observed: if no position
/// agrees on the chosen answer, accuracy is zero over the number of positions
/// compared.
pub proof fn lemma_accuracy_none(pred: Seq<McpTick>, perc: Seq<McpTick>)
    requires
        pred.len() > 0,
        perc.len() > 0,
        pred.len() <= usize::MAX,
        perc.len() <= usize::MAX,
        forall|i: int|
            0 <= i < pred.len() && i < perc.len() ==> (#[trigger] pred[i]).chosen@ != perc[i].chosen@,
    ensures
        accuracy_of(pred, perc).numerator == 0,
        accuracy_of(pred, perc).denominator == if pred.len() < perc.len() {
            pred.len()
        } else {
            perc.len()
        },
{
    let m = if pred.len() < perc.len() {
        pred.len()
    } else {
        perc.len()
    };
    lemma_agreements_none(pred, perc, m as int);
}

/// Accuracy depends on nothing but the lengths of the logs and the chosen
/// answers at each position: the prompts, options and other fields of the
/// ticks do not matter.
pub proof fn lemma_accuracy_chosen_only(
    pred1: Seq<McpTick>,
    perc1: Seq<McpTick>,
    pred2: Seq<McpTick>,
    perc2: Seq<McpTick>,
)
    requires
        pred1.len() == pred2.len(),
        perc1.len() == perc2.len(),
        forall|i: int| 0 <= i < pred1.len() ==> (#[trigger] pred1[i]).chosen@ == pred2[i].chosen@,
        forall|i: int| 0 <= i < perc1.len() ==> (#[trigger] perc1[i]).chosen@ == perc2[i].chosen@,
    ensures
        accuracy_of(pred1, perc1) == accuracy_of(pred2, perc2),
{
    let m = if pred1.len() < perc1.len() {
        pred1.len()
    } else {
        perc1.len()
    };
    lemma_agreements_chosen_only(pred1, perc1, pred2, perc2, m as int);
}

/// Turning one disagreeing position into an agreeing one raises the number
/// of agreements by exactly one.
pub proof fn lemma_accuracy_one_more_agreement(
    pred: Seq<McpTick>,
    perc: Seq<McpTick>,
    j: int,
    fixed: McpTick,
)
    requires
        pred.len() > 0,
        perc.len() > 0,
        pred.len() <= usize::MAX,
        perc.len() <= usize::MAX,
        0 <= j < pred.len(),
        j < perc.len(),
        pred[j].chosen@ != perc[j].chosen@,
        fixed.chosen@ == perc[j].chosen@,
    ensures
        accuracy_of(pred.update(j, fixed), perc).numerator == accuracy_of(pred, perc).numerator + 1,
        accuracy_of(pred.update(j, fixed), perc).denominator == accuracy_of(pred, perc).denominator,
{
    let m = if pred.len() < perc.len() {
        pred.len()
    } else {
        perc.len()
    };
    lemma_agreements_update(pred, perc, j, fixed, m as int);
    lemma_agreements_bound(pred, perc, m as int);
}

/// Agreements after fixing position `j`.
proof fn lemma_agreements_update(pred: Seq<McpTick>, perc: Seq<McpTick>, j: int, fixed: McpTick, len: int)
    requires
        0 <= j < pred.len(),
        j < perc.len(),
        0 <= len <= pred.len(),
        len <= perc.len(),
        pred[j].chosen@ != perc[j].chosen@,
        fixed.chosen@ == perc[j].chosen@,
    ensures
        agreements(pred.update(j, fixed), perc, len) == agreements(pred, perc, len) + if j < len {
            1nat
        } else {
            0nat
        },
    decreases len,
{
    if len > 0 {
        lemma_agreements_update(pred, perc, j, fixed, len - 1);
    }
}

/// When every one of the first `len` positions agrees, all of them count.
proof fn lemma_agreements_all(pred: Seq<McpTick>, perc: Seq<McpTick>, len: int)
    requires
        0 <= len <= pred.len(),
        len <= perc.len(),
        forall|i: int|
            0 <= i < pred.len() && i < perc.len() ==> (#[trigger] pred[i]).chosen@ == perc[i].chosen@,
    ensures
        agreements(pred, perc, len) == len,
    decreases len,
{
    if len > 0 {
        lemma_agreements_all(pred, perc, len - 1);
        assert(pred[len - 1].chosen@ == perc[len - 1].chosen@);
    }
}

impl McpRoom {
    /// Predicts which of `options` will be chosen next at `step`.
    pub fn predict_next_choice(&self, step: &str, options: &[String]) -> (p: Prediction)
        ensures
            is_prediction_for(p, self.perception_db@, step@, options@),
    {
        let step = String::from_str(step);
        let t = tally_step(&self.perception_db, &step);
        if t.count == 0 || options.len() == 0 {
            let predicted = if options.len() > 0 {
                options[0].clone()
            } else {
                String::new()
            };
            return Prediction {
                predicted_choice: predicted,
                confidence: Ratio::zero(),
                alternatives: Vec::new(),
            };
        }
        let ghost ticks = ticks_with_step(self.perception_db@, step@);
        let ghost names = chosen_names(ticks);
        let ghost want = option_counts(self.perception_db@, step@, options@);
        proof {
            lemma_first_occurrences(names);
        }
        let mut counts: Vec<usize> = Vec::new();
        let mut j: usize = 0;
        while j < options.len()
            invariant
                t.describes(self.perception_db@, step@),
                names == chosen_names(ticks_with_step(self.perception_db@, step@)),
                want == option_counts(self.perception_db@, step@, options@),
                forall|x: Seq<char>|
                    views(t.choices@).contains(x) <==> names.contains(x),
                j <= options@.len(),
                counts@.len() == j,
                forall|q: int| 0 <= q < j ==> as_ints(counts@)[q] == want[q],
            decreases options@.len() - j,
        {
            match index_of(&t.choices, &options[j]) {
                Some(k) => {
                    counts.push(t.counts[k]);
                },
                None => {
                    proof {
                        lemma_occurrences(names, options@[j as int]@);
                    }
                    counts.push(0);
                },
            }
            j = j + 1;
        }
        assert(as_ints(counts@) =~= want);
        let order = rank_by_count(&counts);
        assert(as_ints(order@).contains(as_ints(order@)[0]));
        let first = order[0];
        let predicted = options[first].clone();
        let confidence = Ratio::new(counts[first] as u128, t.count as u128);
        let mut alternatives: Vec<(String, Ratio)> = Vec::new();
        let mut r: usize = 1;
        while r < order.len()
            invariant
                as_ints(counts@) == want,
                as_ints(order@) == ranking(want),
                is_ranking(as_ints(order@), want),
                order@.len() == options@.len(),
                counts@.len() == options@.len(),
                t.count == ticks_with_step(self.perception_db@, step@).len(),
                1 <= r <= order@.len(),
                alternatives@.len() == r - 1,
                forall|q: int|
                    0 <= q < r - 1 ==> {
                        &&& (#[trigger] alternatives@[q]).0@ == options@[ranking(want)[q + 1]]@
                        &&& alternatives@[q].1 == Ratio::of(
                            want[ranking(want)[q + 1]],
                            t.count as int,
                        )
                    },
            decreases order@.len() - r,
        {
            assert(as_ints(order@).contains(as_ints(order@)[r as int]));
            let o = order[r];
            alternatives.push((options[o].clone(), Ratio::new(counts[o] as u128, t.count as u128)));
            r = r + 1;
        }
        Prediction { predicted_choice: predicted, confidence, alternatives }
    }

    /// The share of recorded predictions that match the observed choice at the
    /// same position.
    pub fn prediction_accuracy(&self) -> (acc: Ratio)
        ensures
            acc == accuracy_of(self.prediction_db@, self.perception_db@),
    {
        if self.prediction_db.len() == 0 || self.perception_db.len() == 0 {
            return Ratio::zero();
        }
        let m = if self.prediction_db.len() < self.perception_db.len() {
            self.prediction_db.len()
        } else {
            self.perception_db.len()
        };
        let mut correct: usize = 0;
        let mut i: usize = 0;
        while i < m
            invariant
                m <= self.prediction_db@.len(),
                m <= self.perception_db@.len(),
                i <= m,
                correct <= i,
                correct == agreements(self.prediction_db@, self.perception_db@, i as int),
            decreases m - i,
        {
            if self.prediction_db[i].chosen == self.perception_db[i].chosen {
                correct = correct + 1;
            }
            i = i + 1;
        }
        Ratio::new(correct as u128, m as u128)
    }
}

} // verus!
