//! Garbage collection of old observations.

use vstd::prelude::*;
use crate::decision::distinct_step_names;
use crate::observations::{
    distinct_steps, lemma_contains_drop_last, lemma_first_occurrences,
    step_names, tally_step, ticks_with_step, views,
};
use crate::room::McpRoom;
use crate::types::{GcReport, McpTick, Ratio};

verus! {

/// The latest timestamp of the log, or 0 for an empty log.
pub open spec fn max_timestamp(db: Seq<McpTick>) -> u64
    decreases db.len(),
{
    if db.len() == 0 {
        0
    } else if max_timestamp(db.drop_last()) < db.last().timestamp {
        db.last().timestamp
    } else {
        max_timestamp(db.drop_last())
    }
}

/// How long before `now` the time `ts` lies; zero for times at or after `now`.
pub open spec fn age(now: u64, ts: u64) -> int {
    if now > ts {
        now - ts
    } else {
        0
    }
}

/// The tick is at most `max_age` older than `now`.
pub open spec fn is_recent(t: McpTick, now: u64, max_age: u64) -> bool {
    age(now, t.timestamp) <= max_age
}

/// The ticks of `db` that are recent relative to `now`, in log order.
pub open spec fn recent_ticks(db: Seq<McpTick>, now: u64, max_age: u64) -> Seq<McpTick>
    decreases db.len(),
{
    if db.len() == 0 {
        Seq::empty()
    } else {
        let prev = recent_ticks(db.drop_last(), now, max_age);
        if is_recent(db.last(), now, max_age) {
            prev.push(db.last())
        } else {
            prev
        }
    }
}

/// How many ticks of a step with `count` ticks could be merged: half of those
/// beyond three, for steps with more than five ticks.
pub open spec fn merge_estimate(count: nat) -> nat {
    if count > 5 {
        ((count - 3) / 2) as nat
    } else {
        0
    }
}

/// The merge estimates of `steps`, added up.
pub open spec fn merged_over(db: Seq<McpTick>, steps: Seq<Seq<char>>) -> nat
    decreases steps.len(),
{
    if steps.len() == 0 {
        0
    } else {
        merged_over(db, steps.drop_last()) + merge_estimate(
            ticks_with_step(db, steps.last()).len(),
        )
    }
}

/// The number of ticks of `steps`, added up.
pub open spec fn ticks_over(db: Seq<McpTick>, steps: Seq<Seq<char>>) -> nat
    decreases steps.len(),
{
    if steps.len() == 0 {
        0
    } else {
        ticks_over(db, steps.drop_last()) + ticks_with_step(db, steps.last()).len()
    }
}

/// How many ticks of the whole log could be merged.
pub open spec fn mergeable(db: Seq<McpTick>) -> nat {
    merged_over(db, distinct_steps(db))
}

/// The report of a collection that found `db` and kept `kept`.
pub open spec fn gc_report_of(db: Seq<McpTick>, kept: Seq<McpTick>) -> GcReport {
    GcReport {
        observations_before: db.len() as usize,
        observations_after: kept.len() as usize,
        merged: mergeable(db) as usize,
        pruned: (db.len() - kept.len()) as usize,
        information_preserved: if db.len() > 0 {
            Ratio::of(kept.len() as int, db.len() as int)
        } else {
            Ratio::of(1, 1)
        },
    }
}

/// A step that never occurs has no ticks.
proof fn lemma_absent_step(db: Seq<McpTick>, s: Seq<char>)
    requires
        !step_names(db).contains(s),
    ensures
        ticks_with_step(db, s).len() == 0,
    decreases db.len(),
{
    if db.len() > 0 {
        let names = step_names(db);
        assert(names.drop_last() =~= step_names(db.drop_last()));
        lemma_contains_drop_last(names, s);
        lemma_absent_step(db.drop_last(), s);
    }
}

/// Adding a tick adds one to the count of its step, if `steps` lists that step.
proof fn lemma_ticks_over_push(db: Seq<McpTick>, t: McpTick, steps: Seq<Seq<char>>)
    requires
        steps.no_duplicates(),
    ensures
        ticks_over(db.push(t), steps) == ticks_over(db, steps) + if steps.contains(t.step@) {
            1nat
        } else {
            0nat
        },
    decreases steps.len(),
{
    if steps.len() > 0 {
        let rest = steps.drop_last();
        assert(rest.no_duplicates());
        lemma_ticks_over_push(db, t, rest);
        assert(db.push(t).drop_last() =~= db);
        lemma_contains_drop_last(steps, t.step@);
        if rest.contains(t.step@) {
            let k = choose|k: int| 0 <= k < rest.len() && rest[k] == t.step@;
            assert(steps[k] == steps[steps.len() - 1] ==> k == steps.len() - 1);
        }
    }
}

/// Every tick belongs to exactly one distinct step.
pub proof fn lemma_ticks_over_distinct_steps(db: Seq<McpTick>)
    ensures
        ticks_over(db, distinct_steps(db)) == db.len(),
    decreases db.len(),
{
    if db.len() > 0 {
        let prev_db = db.drop_last();
        let t = db.last();
        assert(prev_db.push(t) =~= db);
        lemma_ticks_over_distinct_steps(prev_db);
        let names = step_names(db);
        assert(names.drop_last() =~= step_names(prev_db));
        let prev = distinct_steps(prev_db);
        lemma_first_occurrences(step_names(prev_db));
        lemma_ticks_over_push(prev_db, t, prev);
        if !prev.contains(t.step@) {
            lemma_absent_step(prev_db, t.step@);
            assert(prev.push(t.step@).drop_last() =~= prev);
            assert(db.drop_last() =~= prev_db);
        }
    }
}

/// Merge estimates never exceed the ticks they are taken from.
proof fn lemma_merged_bound(db: Seq<McpTick>, steps: Seq<Seq<char>>)
    ensures
        merged_over(db, steps) <= ticks_over(db, steps),
    decreases steps.len(),
{
    if steps.len() > 0 {
        lemma_merged_bound(db, steps.drop_last());
    }
}

/// The sums over a prefix of the steps are at most the sums over all of them.
proof fn lemma_prefix_bound(db: Seq<McpTick>, steps: Seq<Seq<char>>, i: int)
    requires
        0 <= i <= steps.len(),
    ensures
        ticks_over(db, steps.take(i)) <= ticks_over(db, steps),
    decreases steps.len(),
{
    if i == steps.len() {
        assert(steps.take(i) =~= steps);
    } else {
        assert(steps.drop_last().take(i) =~= steps.take(i));
        lemma_prefix_bound(db, steps.drop_last(), i);
    }
}

/// The latest timestamp bounds every timestamp.
pub proof fn lemma_max_timestamp_bounds(db: Seq<McpTick>)
    ensures
        forall|i: int| 0 <= i < db.len() ==> (#[trigger] db[i]).timestamp <= max_timestamp(db),
    decreases db.len(),
{
    if db.len() > 0 {
        lemma_max_timestamp_bounds(db.drop_last());
        assert forall|i: int| 0 <= i < db.len() implies (#[trigger] db[i]).timestamp
            <= max_timestamp(db) by {
            if i < db.len() - 1 {
                assert(db.drop_last()[i] == db[i]);
            }
        }
    }
}

/// The latest timestamp of a non-empty log is the timestamp of one of its ticks.
proof fn lemma_max_timestamp_attained(db: Seq<McpTick>)
    requires
        db.len() > 0,
    ensures
        exists|i: int| 0 <= i < db.len() && (#[trigger] db[i]).timestamp == max_timestamp(db),
    decreases db.len(),
{
    if max_timestamp(db.drop_last()) < db.last().timestamp || db.len() == 1 {
        assert(db[db.len() - 1].timestamp == max_timestamp(db));
    } else {
        lemma_max_timestamp_attained(db.drop_last());
        let i = choose|i: int|
            0 <= i < db.drop_last().len() && (#[trigger] db.drop_last()[i]).timestamp
                == max_timestamp(db.drop_last());
        assert(db[i] == db.drop_last()[i]);
    }
}

/// Every kept tick is recent, and no later than a bound of the whole log.
proof fn lemma_recent_ticks_facts(db: Seq<McpTick>, now: u64, max_age: u64, bound: u64)
    requires
        forall|i: int| 0 <= i < db.len() ==> (#[trigger] db[i]).timestamp <= bound,
    ensures
        recent_ticks(db, now, max_age).len() <= db.len(),
        forall|i: int|
            0 <= i < recent_ticks(db, now, max_age).len() ==> is_recent(
                #[trigger] recent_ticks(db, now, max_age)[i],
                now,
                max_age,
            ),
        forall|i: int|
            0 <= i < recent_ticks(db, now, max_age).len() ==> (#[trigger] recent_ticks(
                db,
                now,
                max_age,
            )[i]).timestamp <= bound,
    decreases db.len(),
{
    if db.len() > 0 {
        assert forall|i: int| 0 <= i < db.drop_last().len() implies (
        #[trigger] db.drop_last()[i]).timestamp <= bound by {
            assert(db.drop_last()[i] == db[i]);
        }
        assert(db[db.len() - 1].timestamp <= bound);
        lemma_recent_ticks_facts(db.drop_last(), now, max_age, bound);
    }
}

/// A log whose ticks are all recent keeps all of them.
proof fn lemma_recent_ticks_identity(db: Seq<McpTick>, now: u64, max_age: u64)
    requires
        forall|i: int| 0 <= i < db.len() ==> is_recent(#[trigger] db[i], now, max_age),
    ensures
        recent_ticks(db, now, max_age) == db,
    decreases db.len(),
{
    if db.len() > 0 {
        assert forall|i: int| 0 <= i < db.drop_last().len() implies is_recent(
            #[trigger] db.drop_last()[i],
            now,
            max_age,
        ) by {
            assert(db.drop_last()[i] == db[i]);
        }
        assert(is_recent(db[db.len() - 1], now, max_age));
        lemma_recent_ticks_identity(db.drop_last(), now, max_age);
        assert(db.drop_last().push(db.last()) =~= db);
    }
}

/// Collecting relative to a time that some tick carries, and that no tick
/// exceeds, keeps the latest timestamp.
proof fn lemma_recent_keeps_latest(db: Seq<McpTick>, now: u64, max_age: u64)
    requires
        forall|i: int| 0 <= i < db.len() ==> (#[trigger] db[i]).timestamp <= now,
        exists|i: int| 0 <= i < db.len() && (#[trigger] db[i]).timestamp == now,
    ensures
        max_timestamp(recent_ticks(db, now, max_age)) == now,
    decreases db.len(),
{
    let prev_db = db.drop_last();
    assert forall|i: int| 0 <= i < prev_db.len() implies (#[trigger] prev_db[i]).timestamp
        <= now by {
        assert(prev_db[i] == db[i]);
    }
    let prev = recent_ticks(prev_db, now, max_age);
    lemma_recent_ticks_facts(prev_db, now, max_age, now);
    lemma_max_timestamp_bounds(prev);
    assert(db[db.len() - 1].timestamp <= now);
    if prev.len() > 0 {
        lemma_max_timestamp_attained(prev);
    }
    assert(max_timestamp(prev) <= now);
    if db.last().timestamp == now {
        assert(is_recent(db.last(), now, max_age));
        assert(prev.push(db.last()).drop_last() =~= prev);
        assert(recent_ticks(db, now, max_age) == prev.push(db.last()));
    } else {
        let i = choose|i: int| 0 <= i < db.len() && (#[trigger] db[i]).timestamp == now;
        assert(i != db.len() - 1);
        assert(prev_db[i] == db[i]);
        lemma_recent_keeps_latest(prev_db, now, max_age);
        if is_recent(db.last(), now, max_age) {
            assert(prev.push(db.last()).drop_last() =~= prev);
        }
    }
}

/// Collecting twice with the same maximum age removes nothing the second time.
pub proof fn lemma_gc_idempotent(db: Seq<McpTick>, max_age: u64)
    ensures
        ({
            let once = recent_ticks(db, max_timestamp(db), max_age);
            recent_ticks(once, max_timestamp(once), max_age) == once
        }),
{
    let now = max_timestamp(db);
    let once = recent_ticks(db, now, max_age);
    lemma_max_timestamp_bounds(db);
    lemma_recent_ticks_facts(db, now, max_age, now);
    if db.len() > 0 {
        lemma_max_timestamp_attained(db);
        lemma_recent_keeps_latest(db, now, max_age);
    } else {
        assert(once.len() == 0);
    }
    lemma_recent_ticks_identity(once, now, max_age);
}

/// A collection accounts for every observation: those kept and those pruned
/// make up those found, the merge estimate never exceeds them, a non-empty log
/// keeps at least its latest tick, and the preserved share lies in [0, 1].
pub proof fn lemma_gc_accounting(db: Seq<McpTick>, max_age: u64)
    requires
        db.len() <= usize::MAX,
    ensures
        ({
            let kept = recent_ticks(db, max_timestamp(db), max_age);
            let report = gc_report_of(db, kept);
            &&& kept.len() <= db.len()
            &&& report.observations_after + report.pruned == report.observations_before
            &&& report.merged <= report.observations_before
            &&& db.len() > 0 ==> kept.len() > 0 && max_timestamp(kept) == max_timestamp(db)
            &&& report.information_preserved.is_unit()
        }),
{
    let now = max_timestamp(db);
    lemma_max_timestamp_bounds(db);
    lemma_recent_ticks_facts(db, now, max_age, now);
    lemma_ticks_over_distinct_steps(db);
    lemma_merged_bound(db, distinct_steps(db));
    if db.len() > 0 {
        lemma_max_timestamp_attained(db);
        lemma_recent_keeps_latest(db, now, max_age);
        let kept = recent_ticks(db, now, max_age);
        if kept.len() == 0 {
            assert(max_timestamp(kept) == 0);
            let i = choose|i: int| 0 <= i < db.len() && (#[trigger] db[i]).timestamp == now;
            assert(is_recent(db[i], now, max_age));
            lemma_recent_keeps_tick(db, now, max_age, i);
        }
    }
}

/// Filtering the ticks kept under a larger maximum age with the smaller one
/// gives the ticks kept under the smaller one: they are a subsequence.
proof fn lemma_recent_nested(db: Seq<McpTick>, now: u64, a: u64, b: u64)
    requires
        a <= b,
    ensures
        recent_ticks(recent_ticks(db, now, b), now, a) == recent_ticks(db, now, a),
    decreases db.len(),
{
    if db.len() > 0 {
        lemma_recent_nested(db.drop_last(), now, a, b);
        let prev_b = recent_ticks(db.drop_last(), now, b);
        if is_recent(db.last(), now, b) {
            assert(prev_b.push(db.last()).drop_last() =~= prev_b);
        }
    }
}

/// Keeping only recent ticks never lengthens a log.
proof fn lemma_recent_len(db: Seq<McpTick>, now: u64, max_age: u64)
    ensures
        recent_ticks(db, now, max_age).len() <= db.len(),
    decreases db.len(),
{
    if db.len() > 0 {
        lemma_recent_len(db.drop_last(), now, max_age);
    }
}

/// A larger maximum age keeps more: the ticks kept under `a` are those kept
/// under `b >= a` filtered again with `a`, so no fewer are kept under `b`, no
/// more are pruned, and the preserved share is at least as large.
pub proof fn lemma_gc_monotone(db: Seq<McpTick>, a: u64, b: u64)
    requires
        a <= b,
        db.len() <= usize::MAX,
    ensures
        ({
            let now = max_timestamp(db);
            let kept_a = recent_ticks(db, now, a);
            let kept_b = recent_ticks(db, now, b);
            let report_a = gc_report_of(db, kept_a);
            let report_b = gc_report_of(db, kept_b);
            &&& kept_a == recent_ticks(kept_b, now, a)
            &&& kept_a.len() <= kept_b.len()
            &&& report_a.observations_after <= report_b.observations_after
            &&& report_a.pruned >= report_b.pruned
            &&& report_a.information_preserved.denominator
                == report_b.information_preserved.denominator
            &&& report_a.information_preserved.numerator
                <= report_b.information_preserved.numerator
        }),
{
    let now = max_timestamp(db);
    lemma_recent_nested(db, now, a, b);
    lemma_recent_len(recent_ticks(db, now, b), now, a);
    lemma_recent_len(db, now, b);
}

/// A recent tick is kept.
proof fn lemma_recent_keeps_tick(db: Seq<McpTick>, now: u64, max_age: u64, i: int)
    requires
        0 <= i < db.len(),
        is_recent(db[i], now, max_age),
    ensures
        recent_ticks(db, now, max_age).len() > 0,
    decreases db.len(),
{
    if i < db.len() - 1 {
        assert(db.drop_last()[i] == db[i]);
        lemma_recent_keeps_tick(db.drop_last(), now, max_age, i);
    }
}

impl McpRoom {
    /// Drops every observation more than `max_age` older than the latest one,
    /// and reports how many ticks could have been merged.
    pub fn gc(&mut self, max_age: u64) -> (report: GcReport)
        ensures
            final(self).perception_db@ == recent_ticks(
                old(self).perception_db@,
                max_timestamp(old(self).perception_db@),
                max_age,
            ),
            report == gc_report_of(old(self).perception_db@, final(self).perception_db@),
            final(self).prediction_db@ == old(self).prediction_db@,
            final(self).id == old(self).id,
            final(self).mcp_endpoint == old(self).mcp_endpoint,
            final(self).decision_points@ == old(self).decision_points@,
            final(self).expert_catalog@ == old(self).expert_catalog@,
            final(self).distillation_progress == old(self).distillation_progress,
    {
        let before = self.perception_db.len();
        let ghost db = self.perception_db@;

        // the latest timestamp
        let mut max_ts: u64 = 0;
        let mut i: usize = 0;
        while i < self.perception_db.len()
            invariant
                db == self.perception_db@,
                i <= db.len(),
                max_ts == max_timestamp(db.take(i as int)),
            decreases db.len() - i,
        {
            assert(db.take(i as int + 1).drop_last() =~= db.take(i as int));
            let ts = self.perception_db[i].timestamp;
            if max_ts < ts {
                max_ts = ts;
            }
            i = i + 1;
        }
        assert(db.take(i as int) =~= db);

        // ticks that could be merged, step by step
        let steps = distinct_step_names(&self.perception_db);
        let ghost all_steps = distinct_steps(db);
        proof {
            lemma_ticks_over_distinct_steps(db);
            lemma_merged_bound(db, all_steps);
        }
        let mut merged: usize = 0;
        let mut k: usize = 0;
        assert(all_steps.take(0) =~= Seq::<Seq<char>>::empty());
        while k < steps.len()
            invariant
                db == self.perception_db@,
                views(steps@) == all_steps,
                ticks_over(db, all_steps) == db.len(),
                k <= steps@.len(),
                merged == merged_over(db, all_steps.take(k as int)),
            decreases steps@.len() - k,
        {
            let ghost prefix = all_steps.take(k as int + 1);
            assert(prefix.drop_last() =~= all_steps.take(k as int));
            assert(prefix.last() == steps@[k as int]@);
            proof {
                lemma_merged_bound(db, prefix);
                lemma_prefix_bound(db, all_steps, k as int + 1);
            }
            let count = tally_step(&self.perception_db, &steps[k]).count;
            assert(merged + merge_estimate(count as nat) == merged_over(db, prefix));
            assert(merged_over(db, prefix) <= self.perception_db.len());
            if count > 5 {
                merged = merged + count.saturating_sub(3) / 2;
            }
            k = k + 1;
        }
        assert(all_steps.take(k as int) =~= all_steps);

        // keep the recent ticks
        let mut old_db: Vec<McpTick> = Vec::new();
        std::mem::swap(&mut old_db, &mut self.perception_db);
        let mut kept: Vec<McpTick> = Vec::new();
        assert(db.take(0) =~= Seq::<McpTick>::empty());
        for tick in it: old_db.into_iter()
            invariant
                it.seq() == db,
                kept@ == recent_ticks(db.take(it.index() as int), max_ts, max_age),
        {
            let ghost idx = it.index() as int;
            assert(db.take(idx + 1).drop_last() =~= db.take(idx));
            assert(db.take(idx + 1).last() == tick);
            if max_ts.saturating_sub(tick.timestamp) <= max_age {
                kept.push(tick);
            }
        }
        assert(db.take(db.len() as int) =~= db);
        proof {
            lemma_max_timestamp_bounds(db);
            lemma_recent_ticks_facts(db, max_ts, max_age, max_ts);
        }
        self.perception_db = kept;
        let after = self.perception_db.len();
        let preserved = if before > 0 {
            Ratio::new(after as u128, before as u128)
        } else {
            Ratio::new(1, 1)
        };
        GcReport {
            observations_before: before,
            observations_after: after,
            merged,
            pruned: before - after,
            information_preserved: preserved,
        }
    }
}

} // verus!
