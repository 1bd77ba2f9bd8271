//! What a room learns about each step: how many options it offers, which
//! answers are chosen most, which kind of expert fits it, and whether it can
//! be distilled.

use vstd::prelude::*;
use crate::observations::{
    chosen_names, distinct_steps, first_occurrences, lemma_first_occurrences, occurrences,
    option_total, step_names, tally_step, ticks_with_step, views, index_of,
    lemma_contains_drop_last,
};
use crate::ranking::{as_ints, is_ranking, lemma_ranking_by_count, rank_by_count, ranking};
use crate::types::{DecisionPoint, ExpertType, McpTick, Ratio};

verus! {

/// The most answers a decision point keeps as its top choices.
pub const TOP_CHOICES: usize = 5;

/// The distinct answers chosen at `step`, in order of first appearance.
pub open spec fn step_choices(db: Seq<McpTick>, step: Seq<char>) -> Seq<Seq<char>> {
    first_occurrences(chosen_names(ticks_with_step(db, step)))
}

/// How often each of [`step_choices`] was chosen.
pub open spec fn step_choice_counts(db: Seq<McpTick>, step: Seq<char>) -> Seq<int> {
    step_choices(db, step).map_values(
        |c: Seq<char>| occurrences(chosen_names(ticks_with_step(db, step)), c) as int,
    )
}

/// The choices of `step` ranked by frequency, ties in order of first appearance.
pub open spec fn step_ranking(db: Seq<McpTick>, step: Seq<char>) -> Seq<int> {
    ranking(step_choice_counts(db, step))
}

/// How many top choices a decision point keeps: at most five.
pub open spec fn top_len(db: Seq<McpTick>, step: Seq<char>) -> int {
    if step_choices(db, step).len() < TOP_CHOICES {
        step_choices(db, step).len() as int
    } else {
        TOP_CHOICES as int
    }
}

/// The expert that fits a step whose `count` ticks offered `total` options in
/// all and which keeps `top` top choices.  The average number of options,
/// `total / count`, decides: at most 3 with 3 or more ticks makes a
/// classifier, above 3 and at most 10 a selector, above 10 a router; a step
/// with a single top choice is a validator, any other a generator.
pub open spec fn classify(total: int, count: int, top: int) -> ExpertType {
    if total <= 3 * count && count >= 3 {
        ExpertType::Classifier
    } else if total > 3 * count && total <= 10 * count {
        ExpertType::Selector
    } else if total > 10 * count {
        ExpertType::Router
    } else if top == 1 {
        ExpertType::Validator
    } else {
        ExpertType::Generator
    }
}

/// A step can be distilled when it was seen at least twice, keeps no more top
/// choices than ticks, and offered some options.
pub open spec fn step_distillable(db: Seq<McpTick>, step: Seq<char>) -> bool {
    let count = ticks_with_step(db, step).len() as int;
    &&& count >= 2
    &&& top_len(db, step) <= count
    &&& option_total(ticks_with_step(db, step)) > 0
}

/// The expert type of `step`.
pub open spec fn step_expert_type(db: Seq<McpTick>, step: Seq<char>) -> ExpertType {
    classify(
        option_total(ticks_with_step(db, step)) as int,
        ticks_with_step(db, step).len() as int,
        top_len(db, step),
    )
}

/// `dp` is the decision point of `step` in the log `db`.
pub open spec fn is_decision_point_for(dp: DecisionPoint, db: Seq<McpTick>, step: Seq<char>) -> bool {
    let ticks = ticks_with_step(db, step);
    let choices = step_choices(db, step);
    let counts = step_choice_counts(db, step);
    let order = step_ranking(db, step);
    &&& dp.step@ == step
    &&& dp.average_options == Ratio::of(option_total(ticks) as int, ticks.len() as int)
    &&& dp.top_choices@.len() == top_len(db, step)
    &&& forall|r: int|
        0 <= r < top_len(db, step) ==> {
            &&& (#[trigger] dp.top_choices@[r]).0@ == choices[order[r]]
            &&& dp.top_choices@[r].1 == Ratio::of(counts[order[r]], ticks.len() as int)
        }
    &&& dp.expert_type == step_expert_type(db, step)
    &&& dp.distillable == step_distillable(db, step)
}

/// How many of `steps` can be distilled.
pub open spec fn count_distillable(db: Seq<McpTick>, steps: Seq<Seq<char>>) -> nat
    decreases steps.len(),
{
    if steps.len() == 0 {
        0
    } else {
        count_distillable(db, steps.drop_last()) + if step_distillable(db, steps.last()) {
            1nat
        } else {
            0nat
        }
    }
}

/// How many distinct steps of the log can be distilled.
pub open spec fn distillable_steps(db: Seq<McpTick>) -> nat {
    count_distillable(db, distinct_steps(db))
}

/// No more steps can be distilled than there are.
pub proof fn lemma_count_distillable_bound(db: Seq<McpTick>, steps: Seq<Seq<char>>)
    ensures
        count_distillable(db, steps) <= steps.len(),
    decreases steps.len(),
{
    if steps.len() > 0 {
        lemma_count_distillable_bound(db, steps.drop_last());
    }
}

/// The decision points of a log cover exactly its observed steps, each once.
pub proof fn lemma_decision_steps_distinct(db: Seq<McpTick>)
    ensures
        distinct_steps(db).no_duplicates(),
        forall|s: Seq<char>| distinct_steps(db).contains(s) <==> step_names(db).contains(s),
        distinct_steps(db).len() <= db.len(),
{
    lemma_first_occurrences(step_names(db));
}

/// The top choices of a step are its most frequent answers, most frequent
/// first: no answer left out is chosen more often than one kept.
pub proof fn lemma_top_choices_ordered(db: Seq<McpTick>, step: Seq<char>)
    ensures
        top_len(db, step) <= TOP_CHOICES,
        top_len(db, step) <= step_choices(db, step).len(),
        forall|a: int, b: int|
            0 <= a < b < step_choices(db, step).len() ==> step_choice_counts(db, step)[
                #[trigger] step_ranking(db, step)[a]
            ] >= step_choice_counts(db, step)[#[trigger] step_ranking(db, step)[b]],
        forall|i: int|
            0 <= i < step_choices(db, step).len() ==> step_choice_counts(db, step)[step_ranking(
                db,
                step,
            )[0]] >= #[trigger] step_choice_counts(db, step)[i],
{
    lemma_ranking_by_count(step_choice_counts(db, step));
}

/// Which expert a step gets, read off its ticks: with `n` ticks offering `t`
/// options in all and `k` distinct answers, a step seen at least three times
/// with at most three options per tick on average is a classifier, whatever
/// its answers; more than three and at most ten options make a selector, more
/// than ten a router; a step seen fewer than three times with at most three
/// options is a validator when it has one answer and a generator otherwise.
pub proof fn lemma_expert_type_rules(db: Seq<McpTick>, step: Seq<char>)
    ensures
        ({
            let n = ticks_with_step(db, step).len() as int;
            let t = option_total(ticks_with_step(db, step)) as int;
            let k = step_choices(db, step).len() as int;
            &&& n >= 3 && t <= 3 * n ==> step_expert_type(db, step) == ExpertType::Classifier
            &&& 3 * n < t <= 10 * n ==> step_expert_type(db, step) == ExpertType::Selector
            &&& t > 10 * n ==> step_expert_type(db, step) == ExpertType::Router
            &&& n < 3 && t <= 3 * n && k == 1 ==> step_expert_type(db, step)
                == ExpertType::Validator
            &&& n < 3 && t <= 3 * n && k != 1 ==> step_expert_type(db, step)
                == ExpertType::Generator
        }),
{
}

/// A decision point's expert type follows the rules of [`lemma_expert_type_rules`]:
/// in particular a step seen at least three times with at most three options
/// per tick on average is a classifier, however many answers it has.
pub proof fn lemma_decision_point_classifier(dp: DecisionPoint, db: Seq<McpTick>, step: Seq<char>)
    requires
        is_decision_point_for(dp, db, step),
        ticks_with_step(db, step).len() >= 3,
        option_total(ticks_with_step(db, step)) <= 3 * ticks_with_step(db, step).len(),
    ensures
        dp.expert_type == ExpertType::Classifier,
{
    lemma_expert_type_rules(db, step);
}

/// If some step among `steps` cannot be distilled, fewer than all of them count
/// as distillable.
pub proof fn lemma_count_distillable_strict(db: Seq<McpTick>, steps: Seq<Seq<char>>, s: Seq<char>)
    requires
        steps.contains(s),
        !step_distillable(db, s),
    ensures
        count_distillable(db, steps) < steps.len(),
    decreases steps.len(),
{
    lemma_contains_drop_last(steps, s);
    lemma_count_distillable_bound(db, steps.drop_last());
    if steps.drop_last().contains(s) {
        lemma_count_distillable_strict(db, steps.drop_last(), s);
    }
}

/// The expert for a step that `count` ticks offering `total` options reached.
pub fn classify_step(total: u128, count: usize, top: usize) -> (e: ExpertType)
    ensures
        e == classify(total as int, count as int, top as int),
{
    let count = count as u128;
    if total <= 3 * count && count >= 3 {
        ExpertType::Classifier
    } else if total > 3 * count && total <= 10 * count {
        ExpertType::Selector
    } else if total > 10 * count {
        ExpertType::Router
    } else if top == 1 {
        ExpertType::Validator
    } else {
        ExpertType::Generator
    }
}

/// The decision point of `step` in the log `db`.
pub fn decision_point(db: &Vec<McpTick>, step: &String) -> (dp: DecisionPoint)
    ensures
        is_decision_point_for(dp, db@, step@),
{
    let t = tally_step(db, step);
    let ghost ticks = ticks_with_step(db@, step@);
    let ghost counts = step_choice_counts(db@, step@);
    assert(as_ints(t.counts@) =~= counts) by {
        assert forall|k: int| 0 <= k < t.counts@.len() implies as_ints(t.counts@)[k] == counts[k] by {
            assert(views(t.choices@)[k] == t.choices@[k]@);
        }
    }
    let order = rank_by_count(&t.counts);
    let k = if order.len() < TOP_CHOICES {
        order.len()
    } else {
        TOP_CHOICES
    };
    let mut top: Vec<(String, Ratio)> = Vec::new();
    let mut r: usize = 0;
    while r < k
        invariant
            t.describes(db@, step@),
            as_ints(t.counts@) == counts,
            as_ints(order@) == ranking(counts),
            is_ranking(as_ints(order@), counts),
            order@.len() == t.counts@.len(),
            k <= order@.len(),
            r <= k,
            top@.len() == r,
            forall|q: int|
                0 <= q < r ==> {
                    &&& (#[trigger] top@[q]).0@ == step_choices(db@, step@)[ranking(counts)[q]]
                    &&& top@[q].1 == Ratio::of(counts[ranking(counts)[q]], t.count as int)
                },
        decreases k - r,
    {
        let o = order[r];
        assert(as_ints(order@)[r as int] == o as int);
        assert(as_ints(order@).contains(as_ints(order@)[r as int]));
        assert(views(t.choices@)[o as int] == t.choices@[o as int]@);
        let name = t.choices[o].clone();
        top.push((name, Ratio::new(t.counts[o] as u128, t.count as u128)));
        r = r + 1;
    }
    let expert = classify_step(t.option_total, t.count, top.len());
    let distillable = t.count >= 2 && top.len() <= t.count && t.option_total > 0;
    DecisionPoint {
        step: step.clone(),
        average_options: Ratio::new(t.option_total, t.count as u128),
        top_choices: top,
        expert_type: expert,
        distillable,
    }
}

/// The distinct steps of `db`, in order of first appearance.
pub fn distinct_step_names(db: &Vec<McpTick>) -> (steps: Vec<String>)
    ensures
        views(steps@) == distinct_steps(db@),
{
    let mut steps: Vec<String> = Vec::new();
    let mut i: usize = 0;
    assert(step_names(db@).take(0) =~= Seq::<Seq<char>>::empty());
    while i < db.len()
        invariant
            i <= db.len(),
            views(steps@) == first_occurrences(step_names(db@).take(i as int)),
        decreases db.len() - i,
    {
        let ghost prev = step_names(db@).take(i as int);
        let ghost next = step_names(db@).take(i as int + 1);
        assert(next.drop_last() =~= prev);
        assert(next.last() == db@[i as int].step@);
        proof {
            lemma_first_occurrences(prev);
        }
        match index_of(&steps, &db[i].step) {
            Some(k) => {
                assert(views(steps@)[k as int] == db@[i as int].step@);
                assert(views(steps@).contains(db@[i as int].step@));
            },
            None => {
                let ghost before = steps@;
                steps.push(db[i].step.clone());
                assert(views(steps@) =~= views(before).push(db@[i as int].step@));
            },
        }
        i = i + 1;
    }
    assert(step_names(db@).take(i as int) =~= step_names(db@));
    steps
}

} // verus!
