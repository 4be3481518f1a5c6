//! The solver: it takes the jobs of a queue and looks for a consistent set
//! of packages that carries them out.

use vstd::prelude::*;
use crate::pool::{Pool, PoolView};
use crate::queue::{Job, Queue};
use crate::search::{
    allows, answers, can_add, consistent, kept, lemma_search_complete, lemma_search_relevant,
    lemma_search_sound, members_valid, needs_of, needs_valid, order, satisfied, search,
    try_from, wanted, Need,
};

verus! {

/// Selection flag of a job: the identifier is a dependency expression, and
/// the job is about the packages that satisfy it.
pub const SOLVER_SOLVABLE_PROVIDES: u32 = 0x03;

/// Verb flag of a job: a package that satisfies the expression has to be in
/// the solution. An installed package that does is kept.
pub const SOLVER_INSTALL: u32 = 0x0100;

/// Verb flag of a job: a package that satisfies the expression has to be in
/// the solution, the newest one where possible.
pub const SOLVER_UPDATE: u32 = 0x0300;

/// What a job asks for, or `None` for a job that the solver does not
/// support: the selection has to be `SOLVER_SOLVABLE_PROVIDES`, the
/// identifier a dependency expression of the pool, and the verb
/// `SOLVER_INSTALL` or `SOLVER_UPDATE`. Flags above the verb are not read.
pub open spec fn job_need(v: PoolView, job: Job) -> Option<Need> {
    if job.flags & 0xff != SOLVER_SOLVABLE_PROVIDES || job.id >= v.deps.len() {
        None
    } else if job.flags & 0xff00 == SOLVER_INSTALL {
        Some(Need { dep: job.id, newest: false })
    } else if job.flags & 0xff00 == SOLVER_UPDATE {
        Some(Need { dep: job.id, newest: true })
    } else {
        None
    }
}

/// The position of the first job at or after `from` that the solver does not
/// support, or the number of jobs if it supports all.
pub open spec fn first_unsupported(v: PoolView, jobs: Seq<Job>, from: int) -> int
    decreases jobs.len() - from,
{
    if from < 0 || from >= jobs.len() {
        jobs.len() as int
    } else if job_need(v, jobs[from]) is None {
        from
    } else {
        first_unsupported(v, jobs, from + 1)
    }
}

/// What the jobs ask for, in their order.
pub open spec fn needs_of_jobs(v: PoolView, jobs: Seq<Job>) -> Seq<Need> {
    Seq::new(jobs.len(), |i: int| job_need(v, jobs[i]).unwrap())
}

/// How a solve ends.
pub enum Outcome {
    /// The packages of the solution, in the order in which they were chosen.
    Solution(Seq<usize>),
    /// The job at this position is not supported.
    UnsupportedJob(usize),
    /// No consistent set of packages carries out all jobs.
    Unsatisfiable,
}

/// How solving the jobs against the pool ends.
pub open spec fn outcome(v: PoolView, jobs: Seq<Job>) -> Outcome {
    if first_unsupported(v, jobs, 0) < jobs.len() {
        Outcome::UnsupportedJob(first_unsupported(v, jobs, 0) as usize)
    } else {
        match search(v, Seq::empty(), needs_of_jobs(v, jobs)) {
            Some(c) => Outcome::Solution(c),
            None => Outcome::Unsatisfiable,
        }
    }
}

/// The first line of the explanation of a failure.
pub open spec fn explanation_header() -> Seq<char> {
    "the requested packages cannot be installed together:\n"@
}

/// The explanation of a failure up to the need at position `n`: the header
/// and one line for each need, with the text of its expression.
pub open spec fn explanation_of(v: PoolView, needs: Seq<Need>, n: int) -> Seq<char>
    decreases n,
{
    if n <= 0 {
        explanation_header()
    } else {
        explanation_of(v, needs, n - 1) + "  "@ + v.deps[needs[n - 1].dep as int].text + "\n"@
    }
}

/// Why a solve failed.
#[derive(Debug)]
pub enum SolveError {
    /// The job at this position of the queue is not supported.
    UnsupportedJob {
        /// The position of the job.
        index: usize,
    },
    /// No consistent set of packages carries out all jobs.
    Unsatisfiable {
        /// The explanation, one line for each request.
        explanation: String,
    },
}

impl SolveError {
    /// The error as a text for the user.
    pub fn message(&self) -> (text: String)
        ensures
            match self {
                SolveError::UnsupportedJob { .. } => text@ == "unsupported job in the queue"@,
                SolveError::Unsatisfiable { explanation } => text@ == explanation@,
            },
    {
        match self {
            SolveError::UnsupportedJob { .. } => "unsupported job in the queue".to_owned(),
            SolveError::Unsatisfiable { explanation } => explanation.clone(),
        }
    }
}

/// A solution is a consistent installation that satisfies what every job
/// asks for.
pub proof fn lemma_solution_is_consistent(v: PoolView, jobs: Seq<Job>)
    requires
        v.wf(),
        outcome(v, jobs) is Solution,
    ensures
        consistent(v, outcome(v, jobs)->Solution_0),
        answers(v, outcome(v, jobs)->Solution_0, needs_of_jobs(v, jobs)),
{
    lemma_all_supported(v, jobs, 0);
    lemma_search_sound(v, Seq::empty(), needs_of_jobs(v, jobs));
}

/// A solution holds nothing that nobody asked for: each of its packages
/// satisfies the expression of a job or a run requirement of a package of
/// the solution.
pub proof fn lemma_solution_is_wanted(v: PoolView, jobs: Seq<Job>)
    requires
        v.wf(),
        outcome(v, jobs) is Solution,
    ensures
        forall|i: int|
            0 <= i < outcome(v, jobs)->Solution_0.len() ==> wanted(
                v,
                outcome(v, jobs)->Solution_0,
                needs_of_jobs(v, jobs),
                i,
            ),
{
    lemma_all_supported(v, jobs, 0);
    lemma_search_relevant(v, Seq::empty(), needs_of_jobs(v, jobs));
}

/// The solver gives up only where nothing can be done: no consistent
/// installation satisfies what every job asks for.
pub proof fn lemma_unsatisfiable_is_final(v: PoolView, jobs: Seq<Job>, w: Seq<usize>)
    requires
        v.wf(),
        outcome(v, jobs) is Unsatisfiable,
        consistent(v, w),
    ensures
        !answers(v, w, needs_of_jobs(v, jobs)),
{
    lemma_all_supported(v, jobs, 0);
    if answers(v, w, needs_of_jobs(v, jobs)) {
        lemma_search_complete(v, Seq::empty(), needs_of_jobs(v, jobs), w);
    }
}

/// Two jobs that ask for the same package name, where no package satisfies
/// both, cannot be solved: the outcome is a failure, never a part of what
/// was asked for.
pub proof fn lemma_conflicting_jobs_fail(v: PoolView, jobs: Seq<Job>, i: int, j: int)
    requires
        v.wf(),
        first_unsupported(v, jobs, 0) == jobs.len(),
        0 <= i < jobs.len(),
        0 <= j < jobs.len(),
        v.deps[jobs[i].id as int].name == v.deps[jobs[j].id as int].name,
        forall|s: int|
            0 <= s < v.solvables.len() ==> !(#[trigger] v.provides(s, jobs[i].id as int)
                && v.provides(s, jobs[j].id as int)),
    ensures
        outcome(v, jobs) is Unsatisfiable,
{
    if outcome(v, jobs) is Solution {
        let c = outcome(v, jobs)->Solution_0;
        let needs = needs_of_jobs(v, jobs);
        lemma_solution_is_consistent(v, jobs);
        lemma_all_supported(v, jobs, 0);
        assert(job_need(v, jobs[i]) is Some);
        assert(job_need(v, jobs[j]) is Some);
        assert(needs[i].dep == jobs[i].id);
        assert(needs[j].dep == jobs[j].id);
        assert(satisfied(v, c, needs[i].dep as int));
        assert(satisfied(v, c, needs[j].dep as int));
        let a = choose|a: int| 0 <= a < c.len() && v.provides(#[trigger] c[a] as int, jobs[i].id as int);
        let b = choose|b: int| 0 <= b < c.len() && v.provides(#[trigger] c[b] as int, jobs[j].id as int);
        if a < b {
            assert(v.solvables[c[a] as int].name != v.solvables[c[b] as int].name);
        } else if b < a {
            assert(v.solvables[c[b] as int].name != v.solvables[c[a] as int].name);
        }
        assert(false);
    }
}

/// Where every job is supported, every need speaks of an expression of the
/// pool.
pub proof fn lemma_all_supported(v: PoolView, jobs: Seq<Job>, from: int)
    requires
        0 <= from <= jobs.len(),
    ensures
        from <= first_unsupported(v, jobs, from) <= jobs.len(),
        first_unsupported(v, jobs, from) < jobs.len() ==> job_need(
            v,
            jobs[first_unsupported(v, jobs, from)],
        ) is None,
        forall|k: int|
            from <= k < first_unsupported(v, jobs, from) ==> job_need(v, #[trigger] jobs[k])
                is Some,
        from == 0 && first_unsupported(v, jobs, from) == jobs.len() ==> needs_valid(
            v,
            needs_of_jobs(v, jobs),
        ),
    decreases jobs.len() - from,
{
    if from < jobs.len() && job_need(v, jobs[from]) is Some {
        lemma_all_supported(v, jobs, from + 1);
    }
    if from == 0 && first_unsupported(v, jobs, from) == jobs.len() {
        assert forall|j: int| 0 <= j < needs_of_jobs(v, jobs).len() implies (
        #[trigger] needs_of_jobs(v, jobs)[j]).dep < v.deps.len() by {
            assert(job_need(v, jobs[j]) is Some);
        }
    }
}

/// What a job asks for.
fn need_of(pool: &Pool, job: Job) -> (need: Option<Need>)
    ensures
        need == job_need(pool@, job),
{
    if job.flags & 0xff != SOLVER_SOLVABLE_PROVIDES || job.id >= pool.dep_count() {
        None
    } else if job.flags & 0xff00 == SOLVER_INSTALL {
        Some(Need { dep: job.id, newest: false })
    } else if job.flags & 0xff00 == SOLVER_UPDATE {
        Some(Need { dep: job.id, newest: true })
    } else {
        None
    }
}

/// Whether a chosen package satisfies the expression.
fn is_satisfied(pool: &Pool, chosen: &Vec<usize>, d: usize) -> (b: bool)
    requires
        members_valid(pool@, chosen@),
        d < pool@.deps.len(),
    ensures
        b == satisfied(pool@, chosen@, d as int),
{
    let mut i: usize = 0;
    while i < chosen.len()
        invariant
            0 <= i <= chosen@.len(),
            members_valid(pool@, chosen@),
            d < pool@.deps.len(),
            forall|j: int| 0 <= j < i ==> !pool@.provides(#[trigger] chosen@[j] as int, d as int),
        decreases chosen@.len() - i,
    {
        if pool.satisfies(chosen[i], d) {
            return true;
        }
        i += 1;
    }
    false
}

/// Whether the constraints of package `t` allow package `s`.
fn is_allowed(pool: &Pool, t: usize, s: usize) -> (b: bool)
    requires
        t < pool@.solvables.len(),
        s < pool@.solvables.len(),
    ensures
        b == allows(pool@, t as int, s as int),
{
    let list = pool.constrains_of(t);
    let name = pool.name_id(s);
    proof {
        assert(pool@.solvable_wf(pool@.solvables[t as int]));
    }
    let mut k: usize = 0;
    while k < list.len()
        invariant
            0 <= k <= list@.len(),
            list@ == pool@.solvables[t as int].constrains,
            pool@.wf(),
            s < pool@.solvables.len(),
            name < pool@.strings.len(),
            pool@.strings[name as int] == pool@.solvables[s as int].name,
            forall|j: int| 0 <= j < list@.len() ==> (#[trigger] list@[j]) < pool@.deps.len(),
            forall|j: int|
                0 <= j < k && pool@.deps[(#[trigger] list@[j]) as int].name
                    == pool@.solvables[s as int].name ==> pool@.provides(s as int, list@[j] as int),
        decreases list@.len() - k,
    {
        let d = list[k];
        let asked = pool.dep_name_id(d);
        if asked == name && !pool.satisfies(s, d) {
            return false;
        }
        k += 1;
    }
    true
}

/// Whether package `s` can join the chosen packages.
fn is_addable(pool: &Pool, chosen: &Vec<usize>, s: usize) -> (b: bool)
    requires
        members_valid(pool@, chosen@),
    ensures
        b == can_add(pool@, chosen@, s as int),
{
    let n = pool.solvable_count();
    if s >= n || chosen.len() >= n {
        return false;
    }
    if !is_allowed(pool, s, s) {
        return false;
    }
    let name = pool.name_id(s);
    let mut i: usize = 0;
    while i < chosen.len()
        invariant
            0 <= i <= chosen@.len(),
            members_valid(pool@, chosen@),
            pool@.wf(),
            s < pool@.solvables.len(),
            name < pool@.strings.len(),
            pool@.strings[name as int] == pool@.solvables[s as int].name,
            forall|j: int|
                0 <= j < i ==> pool@.solvables[#[trigger] chosen@[j] as int].name
                    != pool@.solvables[s as int].name,
            forall|j: int|
                0 <= j < i ==> allows(pool@, #[trigger] chosen@[j] as int, s as int) && allows(
                    pool@,
                    s as int,
                    chosen@[j] as int,
                ),
        decreases chosen@.len() - i,
    {
        let t = chosen[i];
        let other = pool.name_id(t);
        if other == name {
            return false;
        }
        if !is_allowed(pool, t, s) || !is_allowed(pool, s, t) {
            return false;
        }
        i += 1;
    }
    true
}

/// Appends to `out` the packages of `list` that are installed, or those that
/// are not.
fn keep(pool: &Pool, list: &Vec<usize>, installed: bool, out: &mut Vec<usize>)
    requires
        members_valid(pool@, list@),
    ensures
        final(out)@ == old(out)@ + kept(pool@, list@, list@.len() as int, installed),
{
    let ghost before = out@;
    let mut i: usize = 0;
    assert(out@ =~= before + kept(pool@, list@, 0, installed));
    while i < list.len()
        invariant
            0 <= i <= list@.len(),
            members_valid(pool@, list@),
            out@ == before + kept(pool@, list@, i as int, installed),
        decreases list@.len() - i,
    {
        let s = list[i];
        if pool.is_installed(s) == installed {
            out.push(s);
            assert(out@ =~= before + kept(pool@, list@, i + 1, installed));
        }
        i += 1;
    }
}

/// The packages that satisfy the expression, in the order in which they are
/// tried.
fn candidates_in_order(pool: &Pool, d: usize, newest: bool) -> (list: Vec<usize>)
    requires
        pool@.wf(),
        pool@.whatprovides,
        d < pool@.deps.len(),
    ensures
        list@ == order(pool@, d as int, newest),
{
    let all = pool.providers(d);
    proof {
        crate::pool::lemma_candidates_among(
            pool@.repos,
            pool@.solvables,
            pool@.deps[d as int],
            pool@.solvables.len() as int,
        );
    }
    let mut list: Vec<usize> = Vec::new();
    if newest {
        let mut i: usize = 0;
        while i < all.len()
            invariant
                0 <= i <= all@.len(),
                list@ == all@.subrange(0, i as int),
            decreases all@.len() - i,
        {
            list.push(all[i]);
            assert(list@ =~= all@.subrange(0, i + 1));
            i += 1;
        }
        assert(list@ =~= all@);
    } else {
        keep(pool, all, true, &mut list);
        keep(pool, all, false, &mut list);
        assert(list@ =~= kept(pool@, all@, all@.len() as int, true) + kept(
            pool@,
            all@,
            all@.len() as int,
            false,
        ));
    }
    list
}

/// Puts the run requirements of package `s` at the end of the work.
fn push_needs(pool: &Pool, s: usize, todo: &mut Vec<Need>)
    requires
        s < pool@.solvables.len(),
    ensures
        final(todo)@ == old(todo)@ + needs_of(pool@, s as int),
{
    let ghost before = todo@;
    let list = pool.depends_of(s);
    let mut k: usize = 0;
    assert(todo@ =~= before + needs_of(pool@, s as int).subrange(0, 0));
    while k < list.len()
        invariant
            0 <= k <= list@.len(),
            list@ == pool@.solvables[s as int].depends,
            todo@ == before + needs_of(pool@, s as int).subrange(0, k as int),
        decreases list@.len() - k,
    {
        todo.push(Need { dep: list[k], newest: false });
        assert(todo@ =~= before + needs_of(pool@, s as int).subrange(0, k + 1));
        k += 1;
    }
    assert(needs_of(pool@, s as int).subrange(0, k as int) =~= needs_of(pool@, s as int));
}

/// The search, on the work from position `start` on. Where it fails, the
/// chosen packages and the work are as they were.
#[verifier::loop_isolation(false)]
fn run_search(pool: &Pool, chosen: &mut Vec<usize>, todo: &mut Vec<Need>, start: usize) -> (found:
    bool)
    requires
        pool@.wf(),
        pool@.whatprovides,
        members_valid(pool@, old(chosen)@),
        needs_valid(pool@, old(todo)@),
        start <= old(todo)@.len(),
    ensures
        found ==> search(pool@, old(chosen)@, old(todo)@.skip(start as int)) == Some(
            final(chosen)@,
        ),
        !found ==> search(pool@, old(chosen)@, old(todo)@.skip(start as int)) is None,
        !found ==> final(chosen)@ == old(chosen)@ && final(todo)@ == old(todo)@,
    decreases pool@.solvables.len() - old(chosen)@.len(),
{
    let ghost v = pool@;
    let ghost c0 = chosen@;
    let ghost t0 = todo@;
    let mut pos = start;
    while pos < todo.len() && is_satisfied(pool, chosen, todo[pos].dep)
        invariant
            start <= pos <= todo@.len(),
            chosen@ == c0,
            todo@ == t0,
            v == pool@,
            members_valid(v, c0),
            needs_valid(v, t0),
            search(v, c0, t0.skip(start as int)) == search(v, c0, t0.skip(pos as int)),
        decreases todo@.len() - pos,
    {
        proof {
            assert(t0.skip(pos as int)[0] == t0[pos as int]);
            assert(t0.skip(pos as int).skip(1) =~= t0.skip(pos + 1));
        }
        pos += 1;
    }
    if pos >= todo.len() {
        proof {
            assert(t0.skip(pos as int).len() == 0);
        }
        return true;
    }
    let need = todo[pos];
    let cands = candidates_in_order(pool, need.dep, need.newest);
    let ghost rest = t0.skip(pos + 1);
    proof {
        assert(t0.skip(pos as int)[0] == t0[pos as int]);
        assert(t0.skip(pos as int).skip(1) =~= rest);
        assert(search(v, c0, t0.skip(pos as int)) == try_from(v, c0, rest, cands@, 0));
    }
    let mut k: usize = 0;
    while k < cands.len()
        invariant
            0 <= k <= cands@.len(),
            chosen@ == c0,
            todo@ == t0,
            v == pool@,
            v.wf(),
            v.whatprovides,
            members_valid(v, c0),
            needs_valid(v, t0),
            pos < t0.len(),
            rest == t0.skip(pos + 1),
            try_from(v, c0, rest, cands@, 0) == try_from(v, c0, rest, cands@, k as int),
        decreases cands@.len() - k,
    {
        let s = cands[k];
        if is_addable(pool, chosen, s) {
            let len = todo.len();
            chosen.push(s);
            push_needs(pool, s, todo);
            proof {
                assert(v.solvable_wf(v.solvables[s as int]));
                assert forall|j: int| 0 <= j < todo@.len() implies (#[trigger] todo@[j]).dep
                    < v.deps.len() by {
                    if j < t0.len() {
                        assert(todo@[j] == t0[j]);
                    } else {
                        assert(todo@[j] == needs_of(v, s as int)[j - t0.len()]);
                    }
                }
                assert forall|j: int| 0 <= j < chosen@.len() implies (#[trigger] chosen@[j])
                    < v.solvables.len() by {
                    if j < c0.len() {
                        assert(chosen@[j] == c0[j]);
                    }
                }
                assert(todo@.skip(pos + 1) =~= rest + needs_of(v, s as int));
            }
            let ghost pushed = chosen@;
            let ghost grown = todo@;
            if run_search(pool, chosen, todo, pos + 1) {
                return true;
            }
            chosen.pop();
            todo.truncate(len);
            proof {
                assert(chosen@ =~= c0);
                assert(todo@ =~= t0);
            }
        }
        k += 1;
    }
    false
}

/// Where a solver stands.
#[derive(Clone, Copy, Debug, PartialEq, Eq, Structural)]
pub enum SolverState {
    /// Nothing has been solved yet.
    Fresh,
    /// A solve succeeded: the solver holds a solution.
    Solved,
    /// A solve failed: the solver holds nothing.
    Failed,
}

/// A solver for one attempt. It borrows the pool, so the pool cannot change
/// while the solver lives.
pub struct Solver<'a> {
    pool: &'a Pool,
    state: SolverState,
    solution: Vec<usize>,
}

impl<'a> Solver<'a> {
    #[verifier::type_invariant]
    spec fn sane(&self) -> bool {
        &&& self.pool@.wf()
        &&& self.pool@.whatprovides
        &&& self.state is Solved ==> consistent(self.pool@, self.solution@)
    }

    /// The contents of the pool that the solver works on.
    pub closed spec fn pool_view(&self) -> PoolView {
        self.pool@
    }

    /// Where the solver stands.
    pub closed spec fn state(&self) -> SolverState {
        self.state
    }

    /// The packages of the solution in the order in which they were chosen;
    /// empty unless a solve succeeded.
    pub closed spec fn solution(&self) -> Seq<usize> {
        if self.state is Solved {
            self.solution@
        } else {
            Seq::empty()
        }
    }

    /// A solver for the pool. The index of providers has to be up to date.
    pub fn new(pool: &'a Pool) -> (solver: Solver<'a>)
        requires
            pool@.whatprovides,
        ensures
            solver.pool_view() == pool@,
            solver.state() == SolverState::Fresh,
            solver.solution() == Seq::<usize>::empty(),
    {
        let _ = pool.is_whatprovides_ready();
        Solver { pool, state: SolverState::Fresh, solution: Vec::new() }
    }

    /// Where the solver stands.
    pub fn current_state(&self) -> (state: SolverState)
        ensures
            state == self.state(),
    {
        self.state
    }

    /// The pool that the solver works on.
    pub fn pool(&self) -> (pool: &'a Pool)
        ensures
            pool@ == self.pool_view(),
            pool@.wf(),
            pool@.whatprovides,
    {
        proof {
            use_type_invariant(self);
        }
        self.pool
    }

    /// The packages of the solution. The solver has to have solved.
    pub fn chosen(&self) -> (list: &Vec<usize>)
        requires
            self.state() is Solved,
        ensures
            list@ == self.solution(),
            consistent(self.pool_view(), list@),
    {
        proof {
            use_type_invariant(self);
        }
        &self.solution
    }

    /// Carries out the jobs of the queue: looks for a consistent set of
    /// packages that holds, for each job, a package that satisfies its
    /// expression. A solver solves once; the queue is left as it is.
    pub fn solve(&mut self, queue: &mut Queue) -> (r: Result<(), SolveError>)
        requires
            old(self).state() is Fresh,
        ensures
            final(queue)@ == old(queue)@,
            final(self).pool_view() == old(self).pool_view(),
            match outcome(old(self).pool_view(), old(queue)@) {
                Outcome::Solution(c) => {
                    &&& r is Ok
                    &&& final(self).state() is Solved
                    &&& final(self).solution() == c
                    &&& consistent(final(self).pool_view(), c)
                    &&& answers(
                        final(self).pool_view(),
                        c,
                        needs_of_jobs(final(self).pool_view(), old(queue)@),
                    )
                },
                Outcome::UnsupportedJob(i) => {
                    &&& r matches Err(SolveError::UnsupportedJob { index })
                    &&& index == i
                    &&& final(self).state() is Failed
                },
                Outcome::Unsatisfiable => {
                    &&& r matches Err(SolveError::Unsatisfiable { explanation })
                    &&& explanation@ == explanation_of(
                        final(self).pool_view(),
                        needs_of_jobs(final(self).pool_view(), old(queue)@),
                        old(queue)@.len() as int,
                    )
                    &&& explanation@.len() > 0
                    &&& final(self).state() is Failed
                },
            },
    {
        proof {
            use_type_invariant(&*self);
        }
        let pool = self.pool;
        let ghost v = pool@;
        let ghost jobs = queue@;
        let n = queue.len();
        let mut needs: Vec<Need> = Vec::new();
        let mut unsupported: Option<usize> = None;
        let mut i: usize = 0;
        while i < n && unsupported.is_none()
            invariant
                0 <= i <= n,
                n == jobs.len(),
                queue@ == jobs,
                v == pool@,
                unsupported is None ==> needs@.len() == i,
                first_unsupported(v, jobs, 0) == first_unsupported(v, jobs, i as int),
                unsupported is None ==> forall|j: int|
                    0 <= j < i ==> Some(#[trigger] needs@[j]) == job_need(v, jobs[j]),
                unsupported matches Some(bad) ==> bad < n && first_unsupported(v, jobs, 0) == bad,
            decreases n - i + (if unsupported is None { 1int } else { 0int }),
        {
            let job = match queue.get(i) {
                Some(job) => job,
                None => vstd::pervasive::unreached(),
            };
            match need_of(pool, job) {
                Some(need) => {
                    needs.push(need);
                    i += 1;
                },
                None => {
                    unsupported = Some(i);
                },
            }
        }
        match unsupported {
            Some(index) => {
                self.state = SolverState::Failed;
                return Err(SolveError::UnsupportedJob { index });
            },
            None => {},
        }
        proof {
            lemma_all_supported(v, jobs, 0);
            assert(needs@ =~= needs_of_jobs(v, jobs));
            assert(needs@.skip(0) =~= needs@);
        }
        let mut chosen: Vec<usize> = Vec::new();
        if run_search(pool, &mut chosen, &mut needs, 0) {
            proof {
                assert(chosen@ == search(v, Seq::empty(), needs_of_jobs(v, jobs)).unwrap());
                lemma_solution_is_consistent(v, jobs);
            }
            self.solution = chosen;
            self.state = SolverState::Solved;
            Ok(())
        } else {
            self.state = SolverState::Failed;
            let explanation = explain(pool, &needs);
            Err(SolveError::Unsatisfiable { explanation })
        }
    }
}

/// The explanation of a failure: the header and one line for each need.
fn explain(pool: &Pool, needs: &Vec<Need>) -> (text: String)
    requires
        needs_valid(pool@, needs@),
    ensures
        text@ == explanation_of(pool@, needs@, needs@.len() as int),
        text@.len() > 0,
{
    let mut text = "the requested packages cannot be installed together:\n".to_owned();
    proof {
        reveal_strlit("the requested packages cannot be installed together:\n");
    }
    let mut i: usize = 0;
    while i < needs.len()
        invariant
            0 <= i <= needs@.len(),
            needs_valid(pool@, needs@),
            text@ == explanation_of(pool@, needs@, i as int),
            text@.len() > 0,
        decreases needs@.len() - i,
    {
        let line = match pool.dep_text(needs[i].dep) {
            Some(line) => line,
            None => vstd::pervasive::unreached(),
        };
        text.append("  ");
        text.append(line.as_str());
        text.append("\n");
        i += 1;
    }
    text
}

impl Pool {
    /// A solver for this pool. The index of providers has to be up to date:
    /// it is built by `create_whatprovides` after the repositories have been
    /// filled.
    pub fn create_solver(&self) -> (solver: Solver<'_>)
        requires
            self@.whatprovides,
        ensures
            solver.pool_view() == self@,
            solver.state() == SolverState::Fresh,
            solver.solution() == Seq::<usize>::empty(),
    {
        Solver::new(self)
    }
}

} // verus!
