//! Whole-room summaries: the analysis of the observations and how ready the
//! room is for distillation.

use vstd::prelude::*;
use crate::decision::{distillable_steps, lemma_count_distillable_bound};
use crate::observations::{distinct_steps, lemma_first_occurrences, step_names};
use crate::room::{count_marked, McpRoom};
use crate::types::{Analysis, McpTick, Ratio, SavingsEstimate};

verus! {

/// Parameters counted for every distilled expert.
pub const PARAMS_PER_EXPERT: usize = 1_000_000;

/// The total latency of all ticks, in milliseconds.
pub open spec fn latency_total(db: Seq<McpTick>) -> nat
    decreases db.len(),
{
    if db.len() == 0 {
        0
    } else {
        latency_total(db.drop_last()) + db.last().latency_ms as nat
    }
}

/// The savings expected from distilling the log `db`: a call costs 3/1000
/// before and 3/100000 after (a hundredfold reduction); the latency drops to a
/// tenth of the average latency, whole milliseconds rounded down.
pub open spec fn savings_of(db: Seq<McpTick>) -> SavingsEstimate {
    let n = db.len();
    let total = latency_total(db);
    SavingsEstimate {
        original_cost_per_call: Ratio::of(3, 1000),
        distilled_cost_per_call: Ratio::of(3, 100000),
        reduction_factor: Ratio::of(100, 1),
        original_latency_ms: if n > 0 {
            (total / n) as u64
        } else {
            0
        },
        distilled_latency_ms: if n > 0 {
            (total / (10 * n)) as u64
        } else {
            0
        },
        latency_improvement: if n > 0 && total > 0 {
            Ratio::of(9, 10)
        } else {
            Ratio::of(0, 1)
        },
    }
}

/// The analysis of the log `db`.
pub open spec fn analysis_of(db: Seq<McpTick>) -> Analysis {
    let steps = distinct_steps(db).len();
    let experts = distillable_steps(db);
    Analysis {
        total_calls: db.len() as usize,
        unique_steps: steps as usize,
        decision_points: steps as usize,
        experts_needed: experts as usize,
        estimated_distillation_size: (experts * PARAMS_PER_EXPERT) as usize,
        coverage: if steps > 0 {
            Ratio::of(experts as int, steps as int)
        } else {
            Ratio::of(0, 1)
        },
        savings_estimate: savings_of(db),
    }
}

/// How ready the log `db` is for distillation, between 0 and 1:
/// `0.3 * min(n / 100, 1) + 0.4 * d / s + 0.3 * min(n / (10 * s), 1)`, capped at 1,
/// for `n` ticks over `s` distinct steps of which `d` are distillable; 0 for
/// an empty log.  Over the common denominator `1000 * s` this is
/// `(3 * min(n, 100) * s + 400 * d + 30 * min(n, 10 * s)) / (1000 * s)`.
pub open spec fn readiness_of(db: Seq<McpTick>) -> Ratio {
    let n = db.len() as int;
    if n == 0 {
        Ratio::of(0, 1)
    } else {
        let s = if distinct_steps(db).len() == 0 {
            1
        } else {
            distinct_steps(db).len() as int
        };
        let d = distillable_steps(db) as int;
        let volume = if n < 100 {
            n
        } else {
            100
        };
        let per_step = if n < 10 * s {
            n
        } else {
            10 * s
        };
        let numerator = 3 * volume * s + 400 * d + 30 * per_step;
        let denominator = 1000 * s;
        if numerator > denominator {
            Ratio::of(1, 1)
        } else {
            Ratio::of(numerator, denominator)
        }
    }
}

/// A non-empty log has at least one distinct step.
pub proof fn lemma_steps_nonempty(db: Seq<McpTick>)
    requires
        db.len() > 0,
    ensures
        distinct_steps(db).len() > 0,
        distinct_steps(db).len() <= db.len(),
{
    lemma_first_occurrences(step_names(db));
    assert(step_names(db).contains(step_names(db)[0]));
    assert(distinct_steps(db).contains(step_names(db)[0]));
}

/// Readiness lies between 0 and 1, and is 0 exactly for an empty log.
pub proof fn lemma_readiness_bounds(db: Seq<McpTick>)
    requires
        db.len() <= usize::MAX,
    ensures
        readiness_of(db).is_unit(),
        readiness_of(db).numerator == 0 <==> db.len() == 0,
{
    if db.len() > 0 {
        lemma_steps_nonempty(db);
        lemma_count_distillable_bound(db, distinct_steps(db));
        let n = db.len() as int;
        let s = distinct_steps(db).len() as int;
        let d = distillable_steps(db) as int;
        let volume = if n < 100 {
            n
        } else {
            100
        };
        let per_step = if n < 10 * s {
            n
        } else {
            10 * s
        };
        assert(3 * volume * s <= 300 * s && 3 * volume * s >= 3) by (nonlinear_arith)
            requires
                1 <= volume <= 100,
                s >= 1,
        ;
        assert(1000 * s <= 1000 * (usize::MAX as int));
        let numerator = 3 * volume * s + 400 * d + 30 * per_step;
        assert(numerator <= 1000 * s);
        assert(numerator > 0);
    }
}

/// Readiness of a non-empty log with `n` ticks over `s` distinct steps, `d`
/// of them distillable, is `0.3 * min(n / 100, 1) + 0.4 * d / s +
/// 0.3 * min(n / (10 * s), 1)`: over the denominator `1000 * s` the volume
/// term contributes `3 * min(n, 100) * s`, the coverage term `400 * d` and the
/// per-step term `30 * min(n, 10 * s)`.  With no distillable step the
/// coverage term vanishes and readiness is at most 6/10; each distillable
/// step adds exactly `400` to the numerator.
pub proof fn lemma_readiness_terms(db: Seq<McpTick>)
    requires
        db.len() > 0,
        db.len() <= usize::MAX,
    ensures
        ({
            let n = db.len() as int;
            let s = distinct_steps(db).len() as int;
            let d = distillable_steps(db) as int;
            let volume = if n < 100 {
                3 * n * s
            } else {
                300 * s
            };
            let per_step = if n < 10 * s {
                30 * n
            } else {
                300 * s
            };
            &&& s >= 1
            &&& d <= s
            &&& readiness_of(db).denominator == 1000 * s
            &&& readiness_of(db).numerator == volume + 400 * d + per_step
            &&& d == 0 ==> 10 * readiness_of(db).numerator <= 6 * readiness_of(db).denominator
            &&& d == 0 ==> readiness_of(db).numerator == volume + per_step
        }),
{
    lemma_readiness_bounds(db);
    lemma_steps_nonempty(db);
    lemma_count_distillable_bound(db, distinct_steps(db));
    let n = db.len() as int;
    let s = distinct_steps(db).len() as int;
    let v = if n < 100 {
        n
    } else {
        100
    };
    assert(3 * v * s == if n < 100 {
        3 * n * s
    } else {
        300 * s
    });
    assert(3 * v * s <= 300 * s) by (nonlinear_arith)
        requires
            v <= 100,
            s >= 1,
    ;
}

/// Of two logs with as many ticks and as many distinct steps, the one with
/// more distillable steps is readier: its numerator, over the same
/// denominator, is larger by 400 per distillable step.
pub proof fn lemma_readiness_grows_with_distillable(db1: Seq<McpTick>, db2: Seq<McpTick>)
    requires
        db1.len() > 0,
        db1.len() <= usize::MAX,
        db1.len() == db2.len(),
        distinct_steps(db1).len() == distinct_steps(db2).len(),
    ensures
        readiness_of(db1).denominator == readiness_of(db2).denominator,
        readiness_of(db1).numerator - readiness_of(db2).numerator == 400 * (distillable_steps(db1)
            - distillable_steps(db2)),
{
    lemma_readiness_terms(db1);
    lemma_readiness_terms(db2);
}

/// The analysis counts one decision point per distinct step, needs no more
/// experts than there are decision points, and its coverage lies in [0, 1].
pub proof fn lemma_analysis_consistent(db: Seq<McpTick>)
    requires
        db.len() <= usize::MAX,
    ensures
        analysis_of(db).decision_points == analysis_of(db).unique_steps,
        analysis_of(db).experts_needed <= analysis_of(db).decision_points,
        analysis_of(db).unique_steps <= analysis_of(db).total_calls,
        analysis_of(db).unique_steps > 0 ==> analysis_of(db).coverage.is_unit(),
{
    lemma_count_distillable_bound(db, distinct_steps(db));
    lemma_first_occurrences(step_names(db));
}

impl McpRoom {
    /// Summarizes the observations: calls, steps, decision points, experts and
    /// the expected savings.
    pub fn analyze(&self) -> (a: Analysis)
        requires
            distillable_steps(self.perception_db@) * PARAMS_PER_EXPERT <= usize::MAX,
        ensures
            a == analysis_of(self.perception_db@),
    {
        let db = &self.perception_db;
        let total_calls = db.len();
        let steps = crate::decision::distinct_step_names(db);
        let unique_steps = steps.len();
        assert(crate::observations::views(steps@).len() == steps@.len());
        let dps = self.find_distillable_steps();
        let decision_points = dps.len();
        let experts_needed = self.count_experts();
        let estimated_distillation_size = experts_needed * PARAMS_PER_EXPERT;
        let coverage = if unique_steps > 0 {
            let distillable = count_marked(&dps, Ghost(db@));
            Ratio::new(distillable as u128, unique_steps as u128)
        } else {
            Ratio::zero()
        };

        let mut total: u128 = 0;
        let mut i: usize = 0;
        while i < db.len()
            invariant
                i <= db@.len(),
                total == latency_total(db@.take(i as int)),
                total <= i * (u64::MAX as int),
            decreases db@.len() - i,
        {
            assert(db@.take(i as int + 1).drop_last() =~= db@.take(i as int));
            let lat = db[i].latency_ms;
            assert(total + lat <= (i + 1) * (u64::MAX as int)) by (nonlinear_arith)
                requires
                    total <= i * (u64::MAX as int),
                    lat <= u64::MAX,
            ;
            assert((i + 1) * (u64::MAX as int) <= (usize::MAX as int) * (u64::MAX as int))
                by (nonlinear_arith)
                requires
                    i + 1 <= usize::MAX,
            ;
            total = total + lat as u128;
            i = i + 1;
        }
        assert(db@.take(i as int) =~= db@);

        let n = total_calls as u128;
        let (original_latency_ms, distilled_latency_ms, latency_improvement) = if n > 0 {
            let avg = total / n;
            let tenth = total / (10 * n);
            assert(avg <= u64::MAX) by (nonlinear_arith)
                requires
                    total <= n * (u64::MAX as int),
                    n > 0,
                    avg == total / n,
            ;
            assert(tenth <= avg) by (nonlinear_arith)
                requires
                    n > 0,
                    avg as int == total as int / n as int,
                    tenth as int == total as int / (10 * n as int),
            ;
            let improvement = if total > 0 {
                Ratio::new(9, 10)
            } else {
                Ratio::zero()
            };
            (avg as u64, tenth as u64, improvement)
        } else {
            (0u64, 0u64, Ratio::zero())
        };
        Analysis {
            total_calls,
            unique_steps,
            decision_points,
            experts_needed,
            estimated_distillation_size,
            coverage,
            savings_estimate: SavingsEstimate {
                original_cost_per_call: Ratio::new(3, 1000),
                distilled_cost_per_call: Ratio::new(3, 100000),
                reduction_factor: Ratio::new(100, 1),
                original_latency_ms,
                distilled_latency_ms,
                latency_improvement,
            },
        }
    }

    /// How ready the room is for distillation, from 0 to 1.
    pub fn distillation_readiness(&self) -> (r: Ratio)
        ensures
            r == readiness_of(self.perception_db@),
    {
        if self.perception_db.len() == 0 {
            return Ratio::zero();
        }
        let ghost db = self.perception_db@;
        let dps = self.find_distillable_steps();
        let distillable = count_marked(&dps, Ghost(db));
        proof {
            lemma_steps_nonempty(db);
        }
        let s = if dps.len() == 0 {
            1u128
        } else {
            dps.len() as u128
        };
        let n = self.perception_db.len() as u128;
        let volume = if n < 100 {
            n
        } else {
            100
        };
        let per_step = if n < 10 * s {
            n
        } else {
            10 * s
        };
        let v3 = 3 * volume;
        assert(v3 * s <= 300 * (usize::MAX as int)) by (nonlinear_arith)
            requires
                v3 <= 300,
                s <= usize::MAX,
        ;
        let numerator = v3 * s + 400 * (distillable as u128) + 30 * per_step;
        let denominator = 1000 * s;
        if numerator > denominator {
            Ratio::new(1, 1)
        } else {
            Ratio::new(numerator, denominator)
        }
    }
}

} // verus!
