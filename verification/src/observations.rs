//! The mathematical reading of a log of observed calls: which steps occur,
//! which ticks belong to a step, and how often each answer was chosen.

use vstd::prelude::*;
use crate::types::McpTick;

verus! {

/// The contents of a sequence of strings.
pub open spec fn views(v: Seq<String>) -> Seq<Seq<char>> {
    v.map_values(|s: String| s@)
}

/// The step of every tick, in log order.
pub open spec fn step_names(db: Seq<McpTick>) -> Seq<Seq<char>> {
    db.map_values(|t: McpTick| t.step@)
}

/// The chosen answer of every tick, in log order.
pub open spec fn chosen_names(ticks: Seq<McpTick>) -> Seq<Seq<char>> {
    ticks.map_values(|t: McpTick| t.chosen@)
}

/// The distinct values of `s`, each at the place where it first occurs.
pub open spec fn first_occurrences(s: Seq<Seq<char>>) -> Seq<Seq<char>>
    decreases s.len(),
{
    if s.len() == 0 {
        Seq::empty()
    } else {
        let prev = first_occurrences(s.drop_last());
        if prev.contains(s.last()) {
            prev
        } else {
            prev.push(s.last())
        }
    }
}

/// How many times `x` occurs in `s`.
pub open spec fn occurrences(s: Seq<Seq<char>>, x: Seq<char>) -> nat
    decreases s.len(),
{
    if s.len() == 0 {
        0
    } else {
        occurrences(s.drop_last(), x) + if s.last() == x {
            1nat
        } else {
            0nat
        }
    }
}

/// The ticks of `db` recorded for `step`, in log order.
pub open spec fn ticks_with_step(db: Seq<McpTick>, step: Seq<char>) -> Seq<McpTick>
    decreases db.len(),
{
    if db.len() == 0 {
        Seq::empty()
    } else {
        let prev = ticks_with_step(db.drop_last(), step);
        if db.last().step@ == step {
            prev.push(db.last())
        } else {
            prev
        }
    }
}

/// The number of options offered over all `ticks`.
pub open spec fn option_total(ticks: Seq<McpTick>) -> nat
    decreases ticks.len(),
{
    if ticks.len() == 0 {
        0
    } else {
        option_total(ticks.drop_last()) + ticks.last().options@.len()
    }
}

/// The distinct steps of the log, in order of first appearance.
pub open spec fn distinct_steps(db: Seq<McpTick>) -> Seq<Seq<char>> {
    first_occurrences(step_names(db))
}

/// `s` holds `x` exactly when `s` without its last element holds it or the last element is `x`.
pub proof fn lemma_contains_drop_last(s: Seq<Seq<char>>, x: Seq<char>)
    requires
        s.len() > 0,
    ensures
        s.contains(x) <==> (s.drop_last().contains(x) || s.last() == x),
{
    if s.contains(x) {
        let i = choose|i: int| 0 <= i < s.len() && s[i] == x;
        if i < s.len() - 1 {
            assert(s.drop_last()[i] == x);
        }
    }
    if s.drop_last().contains(x) {
        let i = choose|i: int| 0 <= i < s.drop_last().len() && s.drop_last()[i] == x;
        assert(s[i] == x);
    }
    if s.last() == x {
        assert(s[s.len() - 1] == x);
    }
}

/// First occurrences keep exactly the values of `s`, each once.
pub proof fn lemma_first_occurrences(s: Seq<Seq<char>>)
    ensures
        forall|x: Seq<char>| first_occurrences(s).contains(x) <==> s.contains(x),
        first_occurrences(s).no_duplicates(),
        first_occurrences(s).len() <= s.len(),
    decreases s.len(),
{
    if s.len() > 0 {
        lemma_first_occurrences(s.drop_last());
        let prev = first_occurrences(s.drop_last());
        assert forall|x: Seq<char>| first_occurrences(s).contains(x) <==> s.contains(x) by {
            lemma_contains_drop_last(s, x);
            if !prev.contains(s.last()) {
                lemma_contains_drop_last(prev.push(s.last()), x);
                assert(prev.push(s.last()).drop_last() =~= prev);
            }
        }
        if !prev.contains(s.last()) {
            let next = prev.push(s.last());
            assert forall|i: int, j: int|
                0 <= i < next.len() && 0 <= j < next.len() && i != j implies next[i] != next[j] by {
                if i == prev.len() as int {
                    assert(prev[j] == next[j]);
                } else if j == prev.len() as int {
                    assert(prev[i] == next[i]);
                }
            }
        }
    }
}

/// `x` occurs in `s` exactly when it is counted there, at most `s.len()` times.
pub proof fn lemma_occurrences(s: Seq<Seq<char>>, x: Seq<char>)
    ensures
        s.contains(x) <==> occurrences(s, x) > 0,
        occurrences(s, x) <= s.len(),
    decreases s.len(),
{
    if s.len() > 0 {
        lemma_occurrences(s.drop_last(), x);
        lemma_contains_drop_last(s, x);
    }
}

/// The ticks of a step are at most all the ticks.
pub proof fn lemma_ticks_with_step_len(db: Seq<McpTick>, step: Seq<char>)
    ensures
        ticks_with_step(db, step).len() <= db.len(),
    decreases db.len(),
{
    if db.len() > 0 {
        lemma_ticks_with_step_len(db.drop_last(), step);
    }
}

/// The first index at which `v` holds `s`, if it holds it.
pub fn index_of(v: &Vec<String>, s: &String) -> (r: Option<usize>)
    ensures
        match r {
            Some(k) => k < v.len() && v@[k as int]@ == s@,
            None => !views(v@).contains(s@),
        },
{
    let mut i: usize = 0;
    while i < v.len()
        invariant
            i <= v.len(),
            forall|j: int| 0 <= j < i ==> v@[j]@ != s@,
        decreases v.len() - i,
    {
        if v[i] == *s {
            return Some(i);
        }
        i = i + 1;
    }
    proof {
        if views(v@).contains(s@) {
            let j = choose|j: int| 0 <= j < views(v@).len() && views(v@)[j] == s@;
            assert(v@[j]@ == s@);
        }
    }
    None
}

/// A copy of a sequence of strings.
pub fn copy_strings(v: &Vec<String>) -> (r: Vec<String>)
    ensures
        r@ == v@,
{
    let mut r: Vec<String> = Vec::new();
    let mut i: usize = 0;
    while i < v.len()
        invariant
            i <= v.len(),
            r@ == v@.take(i as int),
        decreases v.len() - i,
    {
        r.push(v[i].clone());
        i = i + 1;
        assert(r@ =~= v@.take(i as int));
    }
    assert(v@.take(i as int) =~= v@);
    r
}

/// A copy of an optional string.
pub fn copy_optional(o: &Option<String>) -> (r: Option<String>)
    ensures
        r == *o,
{
    match o {
        Some(s) => Some(s.clone()),
        None => None,
    }
}

/// What the log records for one step.
pub struct StepTally {
    /// How many ticks carry the step.
    pub count: usize,
    /// How many options those ticks offered in all.
    pub option_total: u128,
    /// The distinct chosen answers, in order of first appearance.
    pub choices: Vec<String>,
    /// How often each of `choices` was chosen.
    pub counts: Vec<usize>,
}

impl StepTally {
    /// This tally describes the ticks of `step` in `db`.
    pub open spec fn describes(self, db: Seq<McpTick>, step: Seq<char>) -> bool {
        let ticks = ticks_with_step(db, step);
        &&& self.count == ticks.len()
        &&& self.option_total == option_total(ticks)
        &&& views(self.choices@) == first_occurrences(chosen_names(ticks))
        &&& self.counts@.len() == self.choices@.len()
        &&& forall|k: int|
            0 <= k < self.counts@.len() ==> self.counts@[k] as nat == occurrences(
                chosen_names(ticks),
                #[trigger] self.choices@[k]@,
            )
    }
}

/// Tallies the ticks of `step` in `db`.
pub fn tally_step(db: &Vec<McpTick>, step: &String) -> (t: StepTally)
    ensures
        t.describes(db@, step@),
{
    let mut t = StepTally { count: 0, option_total: 0, choices: Vec::new(), counts: Vec::new() };
    let mut i: usize = 0;
    assert(db@.take(0) =~= Seq::<McpTick>::empty());
    assert(views(t.choices@) =~= Seq::<Seq<char>>::empty());
    while i < db.len()
        invariant
            i <= db.len(),
            t.describes(db@.take(i as int), step@),
            t.option_total <= i * (usize::MAX as int),
        decreases db.len() - i,
    {
        let ghost prev_ticks = ticks_with_step(db@.take(i as int), step@);
        let ghost prev_names = chosen_names(prev_ticks);
        let ghost old_t_choices = t.choices@;
        let ghost old_t_counts = t.counts@;
        assert(db@.take(i as int + 1).drop_last() =~= db@.take(i as int));
        proof {
            lemma_ticks_with_step_len(db@.take(i as int), step@);
            lemma_first_occurrences(prev_names);
        }
        let tick = &db[i];
        assert(db@.take(i as int + 1).last() == *tick);
        if tick.step == *step {
            assert(ticks_with_step(db@.take(i as int + 1), step@) == prev_ticks.push(*tick));
            assert(prev_ticks.push(*tick).drop_last() =~= prev_ticks);
            let ghost names = chosen_names(prev_ticks.push(*tick));
            assert(names =~= prev_names.push(tick.chosen@));
            assert(names.drop_last() =~= prev_names);
            t.count = t.count + 1;
            let n_options = tick.options.len();
            assert(t.option_total + n_options <= (i + 1) * (usize::MAX as int)) by (nonlinear_arith)
                requires
                    t.option_total <= i * (usize::MAX as int),
                    n_options <= usize::MAX,
            ;
            assert((i + 1) * (usize::MAX as int) <= (usize::MAX as int) * (usize::MAX as int))
                by (nonlinear_arith)
                requires
                    i + 1 <= usize::MAX,
            ;
            t.option_total = t.option_total + n_options as u128;
            match index_of(&t.choices, &tick.chosen) {
                Some(k) => {
                    proof {
                        lemma_occurrences(prev_names, tick.chosen@);
                        assert(views(old_t_choices)[k as int] == tick.chosen@);
                    }
                    let c = t.counts[k];
                    t.counts.set(k, c + 1);
                    assert forall|j: int| 0 <= j < t.counts@.len() implies t.counts@[j] as nat
                        == occurrences(names, #[trigger] t.choices@[j]@) by {
                        if j != k as int {
                            assert(views(old_t_choices)[j] == t.choices@[j]@);
                            assert(views(old_t_choices)[k as int] == t.choices@[k as int]@);
                        }
                    }
                    assert(views(t.choices@) =~= first_occurrences(names)) by {
                        assert(views(old_t_choices).contains(tick.chosen@));
                    }
                },
                None => {
                    proof {
                        lemma_occurrences(prev_names, tick.chosen@);
                    }
                    t.choices.push(tick.chosen.clone());
                    t.counts.push(1);
                    assert(views(t.choices@) =~= first_occurrences(names));
                    assert forall|j: int| 0 <= j < t.counts@.len() implies t.counts@[j] as nat
                        == occurrences(names, #[trigger] t.choices@[j]@) by {
                        if j < old_t_counts.len() {
                            assert(views(old_t_choices)[j] == t.choices@[j]@);
                            assert(views(old_t_choices).contains(t.choices@[j]@));
                        }
                    }
                },
            }
        } else {
            assert(ticks_with_step(db@.take(i as int + 1), step@) == prev_ticks);
            assert(t.option_total <= (i + 1) * (usize::MAX as int)) by (nonlinear_arith)
                requires
                    t.option_total <= i * (usize::MAX as int),
            ;
        }
        i = i + 1;
    }
    assert(db@.take(i as int) =~= db@);
    t
}

} // verus!
