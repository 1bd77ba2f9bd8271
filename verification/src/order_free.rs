//! What a room learns about a step does not depend on the order in which the
//! calls were observed: two logs holding the same ticks in any order give the
//! same counts, expert types, distillability and frequency lists.

use vstd::prelude::*;
use vstd::relations::{sorted_by, total_ordering};
use crate::decision::{
    is_decision_point_for, step_choice_counts, step_choices, step_distillable,
    step_expert_type, step_ranking, top_len,
};
use crate::observations::{
    chosen_names, distinct_steps, lemma_contains_drop_last, lemma_first_occurrences,
    lemma_occurrences, occurrences, option_total, step_names, ticks_with_step,
};
use crate::ranking::{lemma_ranking_by_count, lemma_ranking_exists};
use crate::types::{DecisionPoint, McpTick};

verus! {

broadcast use {vstd::seq_lib::group_to_multiset_ensures, vstd::multiset::group_multiset_axioms};

/// The weights `w` of all ticks of `db`, added up.
pub open spec fn weight_sum(db: Seq<McpTick>, w: spec_fn(McpTick) -> nat) -> nat
    decreases db.len(),
{
    if db.len() == 0 {
        0
    } else {
        weight_sum(db.drop_last(), w) + w(db.last())
    }
}

/// One for a tick of `step`, zero for any other.
pub open spec fn in_step(step: Seq<char>) -> spec_fn(McpTick) -> nat {
    |t: McpTick|
        if t.step@ == step {
            1nat
        } else {
            0nat
        }
}

/// The options of a tick of `step`, zero for any other tick.
pub open spec fn options_in_step(step: Seq<char>) -> spec_fn(McpTick) -> nat {
    |t: McpTick|
        if t.step@ == step {
            t.options@.len()
        } else {
            0nat
        }
}

/// One for a tick of `step` that chose `choice`, zero for any other.
pub open spec fn choice_in_step(step: Seq<char>, choice: Seq<char>) -> spec_fn(McpTick) -> nat {
    |t: McpTick|
        if t.step@ == step && t.chosen@ == choice {
            1nat
        } else {
            0nat
        }
}

/// The counts of the choices of `step`, from the largest down.
pub open spec fn ranked_counts(db: Seq<McpTick>, step: Seq<char>) -> Seq<int> {
    let counts = step_choice_counts(db, step);
    step_ranking(db, step).map_values(|i: int| counts[i])
}

/// Sequences with the same elements, each once, have the same multiset.
proof fn lemma_same_elements_multiset<A>(s1: Seq<A>, s2: Seq<A>)
    requires
        s1.no_duplicates(),
        s2.no_duplicates(),
        forall|x: A| s1.contains(x) <==> s2.contains(x),
    ensures
        s1.to_multiset() == s2.to_multiset(),
{
    s1.lemma_multiset_has_no_duplicates();
    s2.lemma_multiset_has_no_duplicates();
    assert forall|x: A| s1.to_multiset().count(x) == s2.to_multiset().count(x) by {
        if s1.contains(x) {
            assert(s1.to_multiset().contains(x));
            assert(s2.to_multiset().contains(x));
        }
    }
    assert(s1.to_multiset() =~= s2.to_multiset());
}

/// Rearranging a sequence rearranges its image.
proof fn lemma_map_multiset<A, B>(s1: Seq<A>, s2: Seq<A>, f: spec_fn(A) -> B)
    requires
        s1.to_multiset() == s2.to_multiset(),
    ensures
        s1.map_values(f).to_multiset() == s2.map_values(f).to_multiset(),
    decreases s1.len(),
{
    if s1.len() == 0 {
        assert(s2.to_multiset().len() == 0);
        assert(s1.map_values(f) =~= Seq::<B>::empty());
        assert(s2.map_values(f) =~= Seq::<B>::empty());
    } else {
        let t = s1.last();
        let r1 = s1.drop_last();
        assert(r1.push(t) =~= s1);
        assert(s1[s1.len() - 1] == t);
        assert(s1.contains(t));
        assert(s2.to_multiset().count(t) > 0);
        assert(s2.contains(t));
        let j = choose|j: int| 0 <= j < s2.len() && s2[j] == t;
        let r2 = s2.remove(j);
        assert(r2.to_multiset() =~= r1.to_multiset()) by {
            assert(r2.to_multiset() == s2.to_multiset().remove(t));
            assert(s1.to_multiset() == r1.to_multiset().insert(t));
        }
        lemma_map_multiset(r1, r2, f);
        let m1 = s1.map_values(f);
        let m2 = s2.map_values(f);
        assert(m1 =~= r1.map_values(f).push(f(t)));
        assert(m2.remove(j) =~= r2.map_values(f));
        assert(m2[j] == f(t));
        assert(m2.contains(f(t)));
        assert(m2.to_multiset().count(f(t)) > 0);
        assert(m2.remove(j).to_multiset() == m2.to_multiset().remove(f(t)));
        assert(m1.to_multiset() == r1.map_values(f).to_multiset().insert(f(t)));
        assert(m1.to_multiset() =~= m2.to_multiset());
    }
}

/// Taking one tick out takes its weight out.
proof fn lemma_weight_remove(db: Seq<McpTick>, w: spec_fn(McpTick) -> nat, j: int)
    requires
        0 <= j < db.len(),
    ensures
        weight_sum(db.remove(j), w) + w(db[j]) == weight_sum(db, w),
    decreases db.len(),
{
    if j == db.len() - 1 {
        assert(db.remove(j) =~= db.drop_last());
    } else {
        lemma_weight_remove(db.drop_last(), w, j);
        assert(db.remove(j).drop_last() =~= db.drop_last().remove(j));
        assert(db.remove(j).last() == db.last());
    }
}

/// The weight of a log does not depend on the order of its ticks.
proof fn lemma_weight_rearranged(db1: Seq<McpTick>, db2: Seq<McpTick>, w: spec_fn(McpTick) -> nat)
    requires
        db1.to_multiset() == db2.to_multiset(),
    ensures
        weight_sum(db1, w) == weight_sum(db2, w),
    decreases db1.len(),
{
    if db1.len() == 0 {
        assert(db2.to_multiset().len() == 0);
    } else {
        let t = db1.last();
        let r1 = db1.drop_last();
        assert(r1.push(t) =~= db1);
        assert(db1[db1.len() - 1] == t);
        assert(db1.contains(t));
        assert(db2.to_multiset().count(t) > 0);
        assert(db2.contains(t));
        let j = choose|j: int| 0 <= j < db2.len() && db2[j] == t;
        let r2 = db2.remove(j);
        assert(r2.to_multiset() =~= r1.to_multiset()) by {
            assert(r2.to_multiset() == db2.to_multiset().remove(t));
            assert(db1.to_multiset() == r1.to_multiset().insert(t));
        }
        lemma_weight_rearranged(r1, r2, w);
        lemma_weight_remove(db2, w, j);
    }
}

/// The quantities of a step are weights of the log.
proof fn lemma_step_weights(db: Seq<McpTick>, step: Seq<char>, choice: Seq<char>)
    ensures
        ticks_with_step(db, step).len() == weight_sum(db, in_step(step)),
        option_total(ticks_with_step(db, step)) == weight_sum(db, options_in_step(step)),
        occurrences(chosen_names(ticks_with_step(db, step)), choice) == weight_sum(
            db,
            choice_in_step(step, choice),
        ),
        step_names(db).contains(step) <==> ticks_with_step(db, step).len() > 0,
    decreases db.len(),
{
    if db.len() > 0 {
        lemma_step_weights(db.drop_last(), step, choice);
        let prev = ticks_with_step(db.drop_last(), step);
        let t = db.last();
        if t.step@ == step {
            assert(prev.push(t).drop_last() =~= prev);
            assert(chosen_names(prev.push(t)) =~= chosen_names(prev).push(t.chosen@));
            assert(chosen_names(prev.push(t)).drop_last() =~= chosen_names(prev));
        }
        assert(step_names(db).drop_last() =~= step_names(db.drop_last()));
        lemma_contains_drop_last(step_names(db), step);
    }
}

/// Two logs with the same ticks have the same distinct steps, in some order.
pub proof fn lemma_steps_order_free(db1: Seq<McpTick>, db2: Seq<McpTick>)
    requires
        db1.to_multiset() == db2.to_multiset(),
    ensures
        forall|s: Seq<char>| distinct_steps(db1).contains(s) <==> distinct_steps(db2).contains(s),
        distinct_steps(db1).len() == distinct_steps(db2).len(),
{
    lemma_first_occurrences(step_names(db1));
    lemma_first_occurrences(step_names(db2));
    assert forall|s: Seq<char>| distinct_steps(db1).contains(s) <==> distinct_steps(db2).contains(s) by {
        lemma_step_weights(db1, s, s);
        lemma_step_weights(db2, s, s);
        lemma_weight_rearranged(db1, db2, in_step(s));
    }
    lemma_same_elements_multiset(distinct_steps(db1), distinct_steps(db2));
    assert(distinct_steps(db1).to_multiset().len() == distinct_steps(db2).to_multiset().len());
}

/// Two logs with the same ticks, in any order, say the same of every step:
/// as many ticks and options, the same answers, as many top choices, the
/// same expert type and distillability, and the same counts from the largest
/// down.
pub proof fn lemma_step_summary_order_free(db1: Seq<McpTick>, db2: Seq<McpTick>, step: Seq<char>)
    requires
        db1.to_multiset() == db2.to_multiset(),
    ensures
        ticks_with_step(db1, step).len() == ticks_with_step(db2, step).len(),
        option_total(ticks_with_step(db1, step)) == option_total(ticks_with_step(db2, step)),
        forall|c: Seq<char>| step_choices(db1, step).contains(c) <==> step_choices(db2, step).contains(c),
        top_len(db1, step) == top_len(db2, step),
        step_expert_type(db1, step) == step_expert_type(db2, step),
        step_distillable(db1, step) == step_distillable(db2, step),
        ranked_counts(db1, step) == ranked_counts(db2, step),
        ranked_counts(db1, step).len() == step_choices(db1, step).len(),
{
    let names1 = chosen_names(ticks_with_step(db1, step));
    let names2 = chosen_names(ticks_with_step(db2, step));
    let choices1 = step_choices(db1, step);
    let choices2 = step_choices(db2, step);
    lemma_step_weights(db1, step, step);
    lemma_step_weights(db2, step, step);
    lemma_weight_rearranged(db1, db2, in_step(step));
    lemma_weight_rearranged(db1, db2, options_in_step(step));
    lemma_first_occurrences(names1);
    lemma_first_occurrences(names2);
    let f = |c: Seq<char>| weight_sum(db1, choice_in_step(step, c)) as int;
    assert forall|c: Seq<char>|
        occurrences(names1, c) as int == f(c) && occurrences(names2, c) as int == f(c) by {
        lemma_step_weights(db1, step, c);
        lemma_step_weights(db2, step, c);
        lemma_weight_rearranged(db1, db2, choice_in_step(step, c));
    }
    assert forall|c: Seq<char>| choices1.contains(c) <==> choices2.contains(c) by {
        lemma_occurrences(names1, c);
        lemma_occurrences(names2, c);
        assert(occurrences(names1, c) as int == f(c) && occurrences(names2, c) as int == f(c));
    }
    lemma_same_elements_multiset(choices1, choices2);
    assert(choices1.len() == choices2.len()) by {
        assert(choices1.to_multiset().len() == choices2.to_multiset().len());
    }

    // the counts are the same values, in another order
    let counts1 = step_choice_counts(db1, step);
    let counts2 = step_choice_counts(db2, step);
    assert(counts1 =~= choices1.map_values(f)) by {
        assert forall|k: int| 0 <= k < counts1.len() implies counts1[k] == choices1.map_values(f)[k] by {
            assert(occurrences(names1, choices1[k]) as int == f(choices1[k]));
        }
    }
    assert(counts2 =~= choices2.map_values(f)) by {
        assert forall|k: int| 0 <= k < counts2.len() implies counts2[k] == choices2.map_values(f)[k] by {
            assert(occurrences(names2, choices2[k]) as int == f(choices2[k]));
        }
    }
    lemma_map_multiset(choices1, choices2, f);
    lemma_ranked_counts_multiset(db1, step);
    lemma_ranked_counts_multiset(db2, step);

    // both rankings list them from the largest down
    let leq = |a: int, b: int| a >= b;
    assert(total_ordering(leq));
    lemma_ranked_counts_sorted(db1, step);
    lemma_ranked_counts_sorted(db2, step);
    vstd::seq_lib::lemma_sorted_unique(ranked_counts(db1, step), ranked_counts(db2, step), leq);
}

/// The counts from the largest down are the counts, rearranged.
proof fn lemma_ranked_counts_multiset(db: Seq<McpTick>, step: Seq<char>)
    ensures
        ranked_counts(db, step).to_multiset() == step_choice_counts(db, step).to_multiset(),
        ranked_counts(db, step).len() == step_choice_counts(db, step).len(),
{
    let counts = step_choice_counts(db, step);
    let order = step_ranking(db, step);
    let g = |i: int| counts[i];
    let ids = Seq::new(counts.len(), |i: int| i);
    lemma_ranking_exists(counts);
    assert(ids.no_duplicates());
    assert forall|v: int| order.contains(v) <==> ids.contains(v) by {
        if 0 <= v < counts.len() {
            assert(ids[v] == v);
        }
    }
    lemma_same_elements_multiset(order, ids);
    lemma_map_multiset(order, ids, g);
    assert(ids.map_values(g) =~= counts);
}

/// The counts from the largest down are sorted.
proof fn lemma_ranked_counts_sorted(db: Seq<McpTick>, step: Seq<char>)
    ensures
        sorted_by(ranked_counts(db, step), |a: int, b: int| a >= b),
{
    let counts = step_choice_counts(db, step);
    lemma_ranking_exists(counts);
    lemma_ranking_by_count(counts);
    let r = ranked_counts(db, step);
    assert forall|i: int, j: int| 0 <= i < j < r.len() implies (|a: int, b: int| a >= b)(
        r[i],
        r[j],
    ) by {
        assert(counts[step_ranking(db, step)[i]] >= counts[step_ranking(db, step)[j]]);
    }
}

/// Decision points of the same step in two logs with the same ticks, in any
/// order, agree on the average number of options, the expert type, the
/// distillability and the frequencies of the top choices.
pub proof fn lemma_decision_points_order_free(
    dp1: DecisionPoint,
    dp2: DecisionPoint,
    db1: Seq<McpTick>,
    db2: Seq<McpTick>,
    step: Seq<char>,
)
    requires
        db1.to_multiset() == db2.to_multiset(),
        is_decision_point_for(dp1, db1, step),
        is_decision_point_for(dp2, db2, step),
    ensures
        dp1.average_options == dp2.average_options,
        dp1.expert_type == dp2.expert_type,
        dp1.distillable == dp2.distillable,
        dp1.top_choices@.len() == dp2.top_choices@.len(),
        forall|r: int|
            0 <= r < dp1.top_choices@.len() ==> (#[trigger] dp1.top_choices@[r]).1
                == dp2.top_choices@[r].1,
{
    lemma_step_summary_order_free(db1, db2, step);
    assert forall|r: int| 0 <= r < dp1.top_choices@.len() implies (
    #[trigger] dp1.top_choices@[r]).1 == dp2.top_choices@[r].1 by {
        assert(ranked_counts(db1, step)[r] == ranked_counts(db2, step)[r]);
    }
}

} // verus!
