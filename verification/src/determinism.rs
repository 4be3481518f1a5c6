//! What a result depends on: the repositories, the packages, the
//! dependency expressions, the choice of the installed repository and the
//! jobs, and nothing else. Two pools that agree on these give the same
//! solution and the same transaction, whatever strings they have interned
//! besides, whatever their level of diagnostics, and whether or not their
//! index of providers is up to date.

use vstd::prelude::*;
use crate::order::{arrange, eligible, next, ordered, pick, ready};
use crate::pool::PoolView;
use crate::queue::Job;
use crate::search::{can_add, kept, needs_of, order, satisfied, search, try_from, Need};
use crate::solver::{
    explanation_of, first_unsupported, job_need, needs_of_jobs, outcome, Outcome,
};
use crate::transaction::{
    first_installed_named, operation_for, operations, placements, removals, replaced,
};

verus! {

/// The two pools hold the same repositories, packages and dependency
/// expressions, and the same repository is the installed one.
pub open spec fn same_packages(a: PoolView, b: PoolView) -> bool {
    &&& a.repos == b.repos
    &&& a.solvables == b.solvables
    &&& a.deps == b.deps
    &&& a.installed == b.installed
}

proof fn lemma_kept_same(a: PoolView, b: PoolView, list: Seq<usize>, n: int, installed: bool)
    requires
        same_packages(a, b),
    ensures
        kept(a, list, n, installed) == kept(b, list, n, installed),
    decreases n,
{
    if n > 0 {
        lemma_kept_same(a, b, list, n - 1, installed);
    }
}

proof fn lemma_order_same(a: PoolView, b: PoolView, d: int, newest: bool)
    requires
        same_packages(a, b),
    ensures
        order(a, d, newest) == order(b, d, newest),
{
    let c = a.candidates(d);
    assert(c == b.candidates(d));
    lemma_kept_same(a, b, c, c.len() as int, true);
    lemma_kept_same(a, b, c, c.len() as int, false);
}

proof fn lemma_search_same(a: PoolView, b: PoolView, chosen: Seq<usize>, todo: Seq<Need>)
    requires
        same_packages(a, b),
    ensures
        search(a, chosen, todo) == search(b, chosen, todo),
    decreases a.solvables.len() - chosen.len(), todo.len(), 0int,
{
    if todo.len() > 0 {
        let d = todo[0].dep as int;
        assert(satisfied(a, chosen, d) == satisfied(b, chosen, d));
        if satisfied(a, chosen, d) {
            lemma_search_same(a, b, chosen, todo.skip(1));
        } else {
            lemma_order_same(a, b, d, todo[0].newest);
            lemma_try_same(a, b, chosen, todo.skip(1), order(a, d, todo[0].newest), 0);
        }
    }
}

proof fn lemma_try_same(
    a: PoolView,
    b: PoolView,
    chosen: Seq<usize>,
    rest: Seq<Need>,
    cands: Seq<usize>,
    k: int,
)
    requires
        same_packages(a, b),
    ensures
        try_from(a, chosen, rest, cands, k) == try_from(b, chosen, rest, cands, k),
    decreases a.solvables.len() - chosen.len(), rest.len(), 1 + cands.len() - k,
{
    if 0 <= k < cands.len() {
        let s = cands[k] as int;
        assert(can_add(a, chosen, s) == can_add(b, chosen, s));
        assert(needs_of(a, s) =~= needs_of(b, s));
        if can_add(a, chosen, s) {
            lemma_search_same(a, b, chosen.push(cands[k]), rest + needs_of(a, s));
        }
        lemma_try_same(a, b, chosen, rest, cands, k + 1);
    }
}

proof fn lemma_first_unsupported_same(a: PoolView, b: PoolView, jobs: Seq<Job>, from: int)
    requires
        same_packages(a, b),
    ensures
        first_unsupported(a, jobs, from) == first_unsupported(b, jobs, from),
    decreases jobs.len() - from,
{
    if 0 <= from < jobs.len() {
        assert(job_need(a, jobs[from]) == job_need(b, jobs[from]));
        lemma_first_unsupported_same(a, b, jobs, from + 1);
    }
}

proof fn lemma_explanation_same(a: PoolView, b: PoolView, needs: Seq<Need>, n: int)
    requires
        same_packages(a, b),
    ensures
        explanation_of(a, needs, n) == explanation_of(b, needs, n),
    decreases n,
{
    if n > 0 {
        lemma_explanation_same(a, b, needs, n - 1);
    }
}

proof fn lemma_pick_same(
    a: PoolView,
    b: PoolView,
    c: Seq<usize>,
    placed: Seq<usize>,
    strict: bool,
    n: int,
)
    requires
        same_packages(a, b),
    ensures
        pick(a, c, placed, strict, n) == pick(b, c, placed, strict, n),
    decreases n,
{
    if n > 0 {
        lemma_pick_same(a, b, c, placed, strict, n - 1);
        assert(ready(a, c, placed, c[n - 1]) == ready(b, c, placed, c[n - 1]));
        assert(eligible(a, c, placed, strict, c[n - 1]) == eligible(b, c, placed, strict, c[n - 1]));
    }
}

proof fn lemma_arrange_same(a: PoolView, b: PoolView, c: Seq<usize>, placed: Seq<usize>)
    requires
        same_packages(a, b),
    ensures
        arrange(a, c, placed) == arrange(b, c, placed),
    decreases c.len() - placed.len(),
{
    if placed.len() < c.len() {
        lemma_pick_same(a, b, c, placed, true, c.len() as int);
        lemma_pick_same(a, b, c, placed, false, c.len() as int);
        assert(next(a, c, placed) == next(b, c, placed));
        lemma_arrange_same(a, b, c, placed.push(next(a, c, placed)));
    }
}

proof fn lemma_first_installed_same(a: PoolView, b: PoolView, name: Seq<char>, n: int)
    requires
        same_packages(a, b),
    ensures
        first_installed_named(a, name, n) == first_installed_named(b, name, n),
    decreases n,
{
    if n > 0 {
        lemma_first_installed_same(a, b, name, n - 1);
    }
}

proof fn lemma_removals_same(a: PoolView, b: PoolView, c: Seq<usize>, n: int)
    requires
        same_packages(a, b),
    ensures
        removals(a, c, n) == removals(b, c, n),
    decreases n,
{
    if n > 0 {
        lemma_removals_same(a, b, c, n - 1);
        assert(replaced(a, c, n - 1) == replaced(b, c, n - 1));
    }
}

/// Solving is deterministic: pools that hold the same packages give, for the
/// same jobs, the same outcome, with the same explanation where they fail.
pub proof fn lemma_same_outcome(a: PoolView, b: PoolView, jobs: Seq<Job>)
    requires
        same_packages(a, b),
    ensures
        outcome(a, jobs) == outcome(b, jobs),
        needs_of_jobs(a, jobs) == needs_of_jobs(b, jobs),
        explanation_of(a, needs_of_jobs(a, jobs), jobs.len() as int) == explanation_of(
            b,
            needs_of_jobs(b, jobs),
            jobs.len() as int,
        ),
{
    lemma_first_unsupported_same(a, b, jobs, 0);
    assert(needs_of_jobs(a, jobs) =~= needs_of_jobs(b, jobs)) by {
        assert forall|i: int| 0 <= i < jobs.len() implies job_need(a, jobs[i]) == job_need(
            b,
            jobs[i],
        ) by {}
    }
    lemma_search_same(a, b, Seq::empty(), needs_of_jobs(a, jobs));
    lemma_explanation_same(a, b, needs_of_jobs(a, jobs), jobs.len() as int);
}

/// The transaction is deterministic: pools that hold the same packages
/// give, for the same solution, the same steps in the same order.
pub proof fn lemma_same_operations(a: PoolView, b: PoolView, c: Seq<usize>)
    requires
        same_packages(a, b),
    ensures
        ordered(a, c) == ordered(b, c),
        operations(a, c) == operations(b, c),
{
    lemma_arrange_same(a, b, c, Seq::empty());
    lemma_removals_same(a, b, c, a.solvables.len() as int);
    assert(placements(a, c) =~= placements(b, c)) by {
        assert forall|k: int| 0 <= k < c.len() implies operation_for(a, ordered(a, c)[k] as int)
            == operation_for(b, ordered(b, c)[k] as int) by {
            let s = ordered(a, c)[k] as int;
            lemma_first_installed_same(a, b, a.solvables[s].name, a.solvables.len() as int);
        }
    }
}

/// Solving twice gives the same plan: for the same packages and the same
/// jobs, the outcome is the same, and where it is a solution, so is the
/// transaction.
pub proof fn lemma_deterministic(a: PoolView, b: PoolView, p: Seq<Job>, q: Seq<Job>)
    requires
        same_packages(a, b),
        p == q,
    ensures
        outcome(a, p) == outcome(b, q),
        outcome(a, p) matches Outcome::Solution(c) ==> operations(a, c) == operations(b, c),
{
    lemma_same_outcome(a, b, p);
    if outcome(a, p) is Solution {
        lemma_same_operations(a, b, outcome(a, p)->Solution_0);
    }
}

} // verus!
