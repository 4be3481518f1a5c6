//! Transactions: what has to be done to turn the installed packages into
//! the packages of a solution, in an order in which it can be done.

use vstd::prelude::*;
use crate::order::{
    acyclic, arrange_packages, dependencies_first, depends_on, lemma_names_distinct,
    lemma_ordered, ordered,
};
use crate::pool::{Pool, PoolView};
use crate::search::{members_valid, names_distinct, within};
use crate::solver::Solver;
use crate::version_order::{version_order, VersionOrder};

verus! {

/// What is done with a package.
#[derive(Clone, Copy, Debug, PartialEq, Eq, Structural)]
pub enum OperationKind {
    /// The package is in the solution, and no package of its name is
    /// installed.
    Install,
    /// A package of the same name, version, build number and build string is
    /// installed, and the solution takes it from another repository.
    Reinstall,
    /// An older version of the package is installed, or the same version
    /// with a lower build number.
    Upgrade,
    /// A newer version of the package is installed, or the same version with
    /// a higher build number.
    Downgrade,
    /// The installed package differs in the build string only.
    Change,
    /// The package is installed, and the solution holds no package of its
    /// name.
    Remove,
    /// The package is installed and in the solution: nothing is done.
    Ignore,
}

/// One step of a transaction.
#[derive(Clone, Copy, Debug, PartialEq, Eq)]
pub struct InstallOperation {
    /// What is done.
    pub operation: OperationKind,
    /// The package it is done with: the installed one for a removal, the one
    /// of the solution otherwise.
    pub solvable: usize,
    /// The installed package that the step replaces, if it replaces one.
    pub replaces: Option<usize>,
}

/// How many steps of each kind a transaction has.
#[derive(Clone, Copy, Debug, PartialEq, Eq)]
pub struct TransactionStats {
    /// The number of installations.
    pub install: usize,
    /// The number of reinstallations.
    pub reinstall: usize,
    /// The number of upgrades.
    pub upgrade: usize,
    /// The number of downgrades.
    pub downgrade: usize,
    /// The number of changes of the build.
    pub change: usize,
    /// The number of removals.
    pub remove: usize,
    /// The number of packages that are left as they are.
    pub ignore: usize,
}

/// The installed package with the given name that was registered first,
/// among the first `n` packages of the pool.
pub open spec fn first_installed_named(v: PoolView, name: Seq<char>, n: int) -> Option<usize>
    decreases n,
{
    if n <= 0 {
        None
    } else {
        match first_installed_named(v, name, n - 1) {
            Some(s) => Some(s),
            None => if v.is_installed(n - 1) && v.solvables[n - 1].name == name {
                Some((n - 1) as usize)
            } else {
                None
            },
        }
    }
}

/// The installed package that package `s` takes the place of.
pub open spec fn previous(v: PoolView, s: int) -> Option<usize> {
    first_installed_named(v, v.solvables[s].name, v.solvables.len() as int)
}

/// What it is to put package `new` in the place of the installed package
/// `old`: the versions decide, then the build numbers, then the build
/// strings.
pub open spec fn relation(v: PoolView, old: int, new: int) -> OperationKind {
    match version_order(v.solvables[old].version, v.solvables[new].version) {
        VersionOrder::Older => OperationKind::Upgrade,
        VersionOrder::Newer => OperationKind::Downgrade,
        VersionOrder::Same => if v.solvables[old].build_number < v.solvables[new].build_number {
            OperationKind::Upgrade
        } else if v.solvables[old].build_number > v.solvables[new].build_number {
            OperationKind::Downgrade
        } else if v.solvables[old].build == v.solvables[new].build {
            OperationKind::Reinstall
        } else {
            OperationKind::Change
        },
    }
}

/// The step for package `s` of the solution.
pub open spec fn operation_for(v: PoolView, s: int) -> InstallOperation {
    if v.is_installed(s) {
        InstallOperation { operation: OperationKind::Ignore, solvable: s as usize, replaces: None }
    } else {
        match previous(v, s) {
            None => InstallOperation {
                operation: OperationKind::Install,
                solvable: s as usize,
                replaces: None,
            },
            Some(p) => InstallOperation {
                operation: relation(v, p as int, s),
                solvable: s as usize,
                replaces: Some(p),
            },
        }
    }
}

/// The solution holds a package with the name of package `s`.
pub open spec fn replaced(v: PoolView, c: Seq<usize>, s: int) -> bool {
    exists|i: int|
        0 <= i < c.len() && v.solvables[#[trigger] c[i] as int].name == v.solvables[s].name
}

/// The removal of package `s`.
pub open spec fn removal_of(s: int) -> InstallOperation {
    InstallOperation { operation: OperationKind::Remove, solvable: s as usize, replaces: None }
}

/// The removals among the first `n` packages of the pool: one for each
/// installed package whose name the solution does not hold, in the order of
/// registration.
pub open spec fn removals(v: PoolView, c: Seq<usize>, n: int) -> Seq<InstallOperation>
    decreases n,
{
    if n <= 0 {
        Seq::empty()
    } else if v.is_installed(n - 1) && !replaced(v, c, n - 1) {
        removals(v, c, n - 1).push(removal_of(n - 1))
    } else {
        removals(v, c, n - 1)
    }
}

/// The steps for the packages of the solution, in the order of the
/// transaction.
pub open spec fn placements(v: PoolView, c: Seq<usize>) -> Seq<InstallOperation> {
    Seq::new(c.len(), |k: int| operation_for(v, ordered(v, c)[k] as int))
}

/// The steps that turn the installed packages into the solution `c`: the
/// removals first, then the packages of the solution, each behind the
/// packages it requires.
pub open spec fn operations(v: PoolView, c: Seq<usize>) -> Seq<InstallOperation> {
    removals(v, c, v.solvables.len() as int) + placements(v, c)
}

/// The number of steps of one kind among the first `n` steps.
pub open spec fn count_kind(ops: Seq<InstallOperation>, kind: OperationKind, n: int) -> nat
    decreases n,
{
    if n <= 0 {
        0
    } else {
        count_kind(ops, kind, n - 1) + (if ops[n - 1].operation == kind {
            1nat
        } else {
            0nat
        })
    }
}

/// What `first_installed_named` finds is installed and has the name; it
/// finds nothing only where no installed package has the name.
pub proof fn lemma_first_installed_named(v: PoolView, name: Seq<char>, n: int)
    requires
        0 <= n <= v.solvables.len(),
        v.solvables.len() <= usize::MAX,
    ensures
        first_installed_named(v, name, n) matches Some(p) ==> p < n && v.is_installed(p as int)
            && v.solvables[p as int].name == name,
        first_installed_named(v, name, n) is None ==> forall|s: int|
            0 <= s < n && #[trigger] v.is_installed(s) ==> v.solvables[s].name != name,
    decreases n,
{
    if n > 0 {
        lemma_first_installed_named(v, name, n - 1);
    }
}

/// What the kind of a step says about the package of the solution and the
/// installed packages: a package is installed where no installed package has
/// its name; it is left alone where it is installed itself; where another
/// installed package has its name, the step is a reinstallation if version,
/// build number and build string agree, and an upgrade, a downgrade or a
/// change if they do not. A package of the solution is never removed.
pub proof fn lemma_operation_kinds(v: PoolView, s: int)
    requires
        v.wf(),
        0 <= s < v.solvables.len(),
    ensures
        operation_for(v, s).solvable == s,
        match operation_for(v, s).operation {
            OperationKind::Install => !v.is_installed(s) && forall|p: int|
                0 <= p < v.solvables.len() && #[trigger] v.is_installed(p) ==> v.solvables[p].name
                    != v.solvables[s].name,
            OperationKind::Ignore => v.is_installed(s),
            OperationKind::Remove => false,
            OperationKind::Reinstall => operation_for(v, s).replaces matches Some(p) && {
                &&& v.is_installed(p as int)
                &&& v.solvables[p as int].name == v.solvables[s].name
                &&& version_order(v.solvables[p as int].version, v.solvables[s].version)
                    == VersionOrder::Same
                &&& v.solvables[p as int].build_number == v.solvables[s].build_number
                &&& v.solvables[p as int].build == v.solvables[s].build
            },
            _ => operation_for(v, s).replaces matches Some(p) && {
                &&& v.is_installed(p as int)
                &&& v.solvables[p as int].name == v.solvables[s].name
                &&& (version_order(v.solvables[p as int].version, v.solvables[s].version)
                    != VersionOrder::Same || v.solvables[p as int].build_number
                    != v.solvables[s].build_number || v.solvables[p as int].build
                    != v.solvables[s].build)
            },
        },
{
    lemma_first_installed_named(v, v.solvables[s].name, v.solvables.len() as int);
}

/// The removals are exactly the installed packages whose name the solution
/// does not hold, each once.
pub proof fn lemma_removals(v: PoolView, c: Seq<usize>, n: int)
    requires
        0 <= n <= v.solvables.len(),
        v.solvables.len() <= usize::MAX,
    ensures
        forall|p: int|
            0 <= p < removals(v, c, n).len() ==> {
                &&& (#[trigger] removals(v, c, n)[p]) == removal_of(
                    removals(v, c, n)[p].solvable as int,
                )
                &&& removals(v, c, n)[p].solvable < n
                &&& v.is_installed(removals(v, c, n)[p].solvable as int)
                &&& !replaced(v, c, removals(v, c, n)[p].solvable as int)
            },
        forall|s: int|
            0 <= s < n && #[trigger] v.is_installed(s) && !replaced(v, c, s) ==> removals(
                v,
                c,
                n,
            ).contains(removal_of(s)),
        removals(v, c, n).no_duplicates(),
    decreases n,
{
    if n > 0 {
        lemma_removals(v, c, n - 1);
        let prev = removals(v, c, n - 1);
        let cur = removals(v, c, n);
        if v.is_installed(n - 1) && !replaced(v, c, n - 1) {
            assert forall|s: int|
                0 <= s < n && #[trigger] v.is_installed(s) && !replaced(v, c, s) implies cur.contains(
                removal_of(s),
            ) by {
                if s < n - 1 {
                    let q = prev.index_of(removal_of(s));
                    assert(prev.contains(removal_of(s)));
                    assert(cur[q] == removal_of(s));
                } else {
                    assert(cur[prev.len() as int] == removal_of(s));
                }
            }
            assert forall|i: int, j: int| 0 <= i < cur.len() && 0 <= j < cur.len() && i != j implies cur[i]
                != cur[j] by {
                if i < prev.len() && j < prev.len() {
                    assert(prev[i] != prev[j]);
                } else if i < prev.len() {
                    assert(prev[i].solvable < n - 1);
                } else {
                    assert(prev[j].solvable < n - 1);
                }
            }
        } else {
            assert forall|s: int|
                0 <= s < n && #[trigger] v.is_installed(s) && !replaced(v, c, s) implies cur.contains(
                removal_of(s),
            ) by {
                assert(prev.contains(removal_of(s)));
            }
        }
    }
}

/// A transaction misses nothing and does nothing twice. Every step is the
/// removal of an installed package whose name the solution does not hold, or
/// the step for a package of the solution. Every such package has its step,
/// and no two steps are the same.
pub proof fn lemma_operations_complete(v: PoolView, c: Seq<usize>)
    requires
        v.wf(),
        members_valid(v, c),
        names_distinct(v, c),
    ensures
        forall|p: int|
            0 <= p < operations(v, c).len() ==> {
                let op = #[trigger] operations(v, c)[p];
                ||| op == removal_of(op.solvable as int) && op.solvable < v.solvables.len()
                    && v.is_installed(op.solvable as int) && !replaced(v, c, op.solvable as int)
                ||| c.contains(op.solvable) && op == operation_for(v, op.solvable as int)
            },
        forall|i: int|
            0 <= i < c.len() ==> operations(v, c).contains(
                operation_for(v, (#[trigger] c[i]) as int),
            ),
        forall|s: int|
            0 <= s < v.solvables.len() && #[trigger] v.is_installed(s) && !replaced(v, c, s)
                ==> operations(v, c).contains(removal_of(s)),
        operations(v, c).no_duplicates(),
        operations(v, c).len() == removals(v, c, v.solvables.len() as int).len() + c.len(),
{
    let n = v.solvables.len() as int;
    let r = removals(v, c, n);
    let pl = placements(v, c);
    let o = ordered(v, c);
    let ops = operations(v, c);
    lemma_removals(v, c, n);
    lemma_names_distinct(v, c);
    lemma_ordered(v, c);
    assert forall|k: int| 0 <= k < o.len() implies (#[trigger] o[k]) < n && operation_for(
        v,
        o[k] as int,
    ).solvable == o[k] && operation_for(v, o[k] as int).operation != OperationKind::Remove by {
        assert(c.contains(o[k]));
        let i = c.index_of(o[k]);
        assert(c[i] == o[k]);
        lemma_operation_kinds(v, o[k] as int);
    }
    assert forall|p: int| 0 <= p < ops.len() implies {
        let op = #[trigger] ops[p];
        ||| op == removal_of(op.solvable as int) && op.solvable < v.solvables.len()
            && v.is_installed(op.solvable as int) && !replaced(v, c, op.solvable as int)
        ||| c.contains(op.solvable) && op == operation_for(v, op.solvable as int)
    } by {
        if p < r.len() {
            assert(ops[p] == r[p]);
        } else {
            let k = p - r.len();
            assert(ops[p] == pl[k]);
            assert(c.contains(o[k]));
        }
    }
    assert forall|i: int| 0 <= i < c.len() implies ops.contains(
        operation_for(v, (#[trigger] c[i]) as int),
    ) by {
        assert(o.contains(c[i]));
        let k = o.index_of(c[i]);
        assert(pl[k] == operation_for(v, c[i] as int));
        assert(ops[r.len() + k] == pl[k]);
    }
    assert forall|s: int|
        0 <= s < v.solvables.len() && #[trigger] v.is_installed(s) && !replaced(
            v,
            c,
            s,
        ) implies ops.contains(removal_of(s)) by {
        assert(r.contains(removal_of(s)));
        let q = r.index_of(removal_of(s));
        assert(ops[q] == removal_of(s));
    }
    assert forall|i: int, j: int| 0 <= i < ops.len() && 0 <= j < ops.len() && i != j implies ops[i]
        != ops[j] by {
        if i < r.len() && j < r.len() {
            assert(ops[i] == r[i] && ops[j] == r[j]);
        } else if i >= r.len() && j >= r.len() {
            assert(ops[i] == pl[i - r.len()] && ops[j] == pl[j - r.len()]);
            assert(o[i - r.len()] != o[j - r.len()]);
        } else if i < r.len() {
            assert(ops[i] == r[i] && ops[j] == pl[j - r.len()]);
        } else {
            assert(ops[j] == r[j] && ops[i] == pl[i - r.len()]);
        }
    }
}

/// The order of a transaction is safe: where the packages of the solution
/// do not require each other in a circle, the step for a package comes
/// after the steps for the packages of the solution that it requires.
pub proof fn lemma_requirements_come_first(
    v: PoolView,
    c: Seq<usize>,
    rank: spec_fn(usize) -> nat,
)
    requires
        v.wf(),
        members_valid(v, c),
        names_distinct(v, c),
        acyclic(v, c, rank),
    ensures
        forall|p: int, q: int|
            0 <= p < operations(v, c).len() && 0 <= q < operations(v, c).len() && (
            #[trigger] operations(v, c)[p]).operation != OperationKind::Remove && (
            #[trigger] operations(v, c)[q]).operation != OperationKind::Remove && operations(
                v,
                c,
            )[p].solvable != operations(v, c)[q].solvable && depends_on(
                v,
                operations(v, c)[p].solvable as int,
                operations(v, c)[q].solvable as int,
            ) ==> q < p,
{
    let n = v.solvables.len() as int;
    let r = removals(v, c, n);
    let pl = placements(v, c);
    let o = ordered(v, c);
    let ops = operations(v, c);
    lemma_removals(v, c, n);
    lemma_names_distinct(v, c);
    lemma_ordered(v, c);
    assert(dependencies_first(v, c, o));
    assert forall|p: int, q: int|
        0 <= p < ops.len() && 0 <= q < ops.len() && (#[trigger] ops[p]).operation
            != OperationKind::Remove && (#[trigger] ops[q]).operation != OperationKind::Remove
            && ops[p].solvable != ops[q].solvable && depends_on(
            v,
            ops[p].solvable as int,
            ops[q].solvable as int,
        ) implies q < p by {
        if p < r.len() {
            assert(ops[p] == r[p]);
        }
        if q < r.len() {
            assert(ops[q] == r[q]);
        }
        let kp = p - r.len();
        let kq = q - r.len();
        assert(ops[p] == pl[kp] && ops[q] == pl[kq]);
        assert(ops[p].solvable == o[kp] && ops[q].solvable == o[kq]);
        assert(c.contains(o[kq]));
        let j = c.index_of(o[kq]);
        assert(c[j] == o[kq]);
        let w = choose|w: int| 0 <= w < kp && o[w] == c[j];
        assert(w == kq);
    }
}

/// The installed package that package `s` takes the place of.
fn find_previous(pool: &Pool, s: usize) -> (p: Option<usize>)
    requires
        s < pool@.solvables.len(),
    ensures
        p == previous(pool@, s as int),
{
    let n = pool.solvable_count();
    let name = pool.name_id(s);
    let mut found: Option<usize> = None;
    let mut t: usize = 0;
    while t < n
        invariant
            0 <= t <= n,
            n == pool@.solvables.len(),
            pool@.wf(),
            name < pool@.strings.len(),
            pool@.strings[name as int] == pool@.solvables[s as int].name,
            found == first_installed_named(pool@, pool@.solvables[s as int].name, t as int),
        decreases n - t,
    {
        if found.is_none() && pool.is_installed(t) {
            let other = pool.name_id(t);
            if other == name {
                found = Some(t);
            }
        }
        t += 1;
    }
    found
}

/// What it is to put package `new` in the place of package `old`.
fn relate(pool: &Pool, old: usize, new: usize) -> (kind: OperationKind)
    requires
        old < pool@.solvables.len(),
        new < pool@.solvables.len(),
    ensures
        kind == relation(pool@, old as int, new as int),
{
    match pool.version_relation(old, new) {
        VersionOrder::Older => OperationKind::Upgrade,
        VersionOrder::Newer => OperationKind::Downgrade,
        VersionOrder::Same => {
            let a = pool.build_number_of(old);
            let b = pool.build_number_of(new);
            if a < b {
                OperationKind::Upgrade
            } else if a > b {
                OperationKind::Downgrade
            } else if pool.same_build(old, new) {
                OperationKind::Reinstall
            } else {
                OperationKind::Change
            }
        },
    }
}

/// The step for package `s` of the solution.
fn operation_of(pool: &Pool, s: usize) -> (op: InstallOperation)
    requires
        s < pool@.solvables.len(),
    ensures
        op == operation_for(pool@, s as int),
{
    if pool.is_installed(s) {
        return InstallOperation { operation: OperationKind::Ignore, solvable: s, replaces: None };
    }
    let _ = pool.solvable_count();
    proof {
        lemma_first_installed_named(
            pool@,
            pool@.solvables[s as int].name,
            pool@.solvables.len() as int,
        );
    }
    match find_previous(pool, s) {
        None => InstallOperation { operation: OperationKind::Install, solvable: s, replaces: None },
        Some(p) => InstallOperation {
            operation: relate(pool, p, s),
            solvable: s,
            replaces: Some(p),
        },
    }
}

/// Whether the solution holds a package with the name of package `s`.
fn is_replaced(pool: &Pool, c: &Vec<usize>, s: usize) -> (b: bool)
    requires
        members_valid(pool@, c@),
        s < pool@.solvables.len(),
    ensures
        b == replaced(pool@, c@, s as int),
{
    let name = pool.name_id(s);
    let mut i: usize = 0;
    while i < c.len()
        invariant
            0 <= i <= c@.len(),
            members_valid(pool@, c@),
            pool@.wf(),
            s < pool@.solvables.len(),
            name < pool@.strings.len(),
            pool@.strings[name as int] == pool@.solvables[s as int].name,
            forall|j: int|
                0 <= j < i ==> pool@.solvables[#[trigger] c@[j] as int].name
                    != pool@.solvables[s as int].name,
        decreases c@.len() - i,
    {
        let other = pool.name_id(c[i]);
        if other == name {
            return true;
        }
        i += 1;
    }
    false
}

/// The steps of a transaction. It borrows the solver it was made from, and
/// with it the pool.
pub struct Transaction<'a> {
    pool: &'a Pool,
    operations: Vec<InstallOperation>,
}

impl<'a> View for Transaction<'a> {
    type V = Seq<InstallOperation>;

    closed spec fn view(&self) -> Seq<InstallOperation> {
        self.operations@
    }
}

impl<'a> Transaction<'a> {
    /// The steps in the order in which they are to be carried out.
    pub fn get_solvable_operations(&self) -> (list: Vec<InstallOperation>)
        ensures
            list@ == self@,
    {
        let mut list: Vec<InstallOperation> = Vec::new();
        let mut i: usize = 0;
        while i < self.operations.len()
            invariant
                0 <= i <= self.operations@.len(),
                list@ == self.operations@.subrange(0, i as int),
            decreases self.operations@.len() - i,
        {
            list.push(self.operations[i]);
            assert(list@ =~= self.operations@.subrange(0, i + 1));
            i += 1;
        }
        assert(list@ =~= self.operations@);
        list
    }

    /// The number of steps.
    pub fn len(&self) -> (n: usize)
        ensures
            n == self@.len(),
    {
        self.operations.len()
    }

    /// The contents of the pool whose packages the steps speak of.
    pub closed spec fn pool_view(&self) -> PoolView {
        self.pool@
    }

    /// The pool whose packages the steps speak of.
    pub fn pool(&self) -> (pool: &'a Pool)
        ensures
            pool@ == self.pool_view(),
    {
        self.pool
    }

    /// The number of steps of each kind.
    pub fn stats(&self) -> (stats: TransactionStats)
        ensures
            stats.install == count_kind(self@, OperationKind::Install, self@.len() as int),
            stats.reinstall == count_kind(self@, OperationKind::Reinstall, self@.len() as int),
            stats.upgrade == count_kind(self@, OperationKind::Upgrade, self@.len() as int),
            stats.downgrade == count_kind(self@, OperationKind::Downgrade, self@.len() as int),
            stats.change == count_kind(self@, OperationKind::Change, self@.len() as int),
            stats.remove == count_kind(self@, OperationKind::Remove, self@.len() as int),
            stats.ignore == count_kind(self@, OperationKind::Ignore, self@.len() as int),
            stats.install + stats.reinstall + stats.upgrade + stats.downgrade + stats.change
                + stats.remove + stats.ignore == self@.len(),
    {
        let mut stats = TransactionStats {
            install: 0,
            reinstall: 0,
            upgrade: 0,
            downgrade: 0,
            change: 0,
            remove: 0,
            ignore: 0,
        };
        let mut i: usize = 0;
        while i < self.operations.len()
            invariant
                0 <= i <= self.operations@.len(),
                stats.install == count_kind(self@, OperationKind::Install, i as int),
                stats.reinstall == count_kind(self@, OperationKind::Reinstall, i as int),
                stats.upgrade == count_kind(self@, OperationKind::Upgrade, i as int),
                stats.downgrade == count_kind(self@, OperationKind::Downgrade, i as int),
                stats.change == count_kind(self@, OperationKind::Change, i as int),
                stats.remove == count_kind(self@, OperationKind::Remove, i as int),
                stats.ignore == count_kind(self@, OperationKind::Ignore, i as int),
                stats.install + stats.reinstall + stats.upgrade + stats.downgrade + stats.change
                    + stats.remove + stats.ignore == i,
            decreases self.operations@.len() - i,
        {
            match self.operations[i].operation {
                OperationKind::Install => {
                    stats.install += 1;
                },
                OperationKind::Reinstall => {
                    stats.reinstall += 1;
                },
                OperationKind::Upgrade => {
                    stats.upgrade += 1;
                },
                OperationKind::Downgrade => {
                    stats.downgrade += 1;
                },
                OperationKind::Change => {
                    stats.change += 1;
                },
                OperationKind::Remove => {
                    stats.remove += 1;
                },
                OperationKind::Ignore => {
                    stats.ignore += 1;
                },
            }
            i += 1;
        }
        stats
    }

    /// The number of steps that change what is installed: all but those
    /// that leave a package as it is.
    pub fn prefix_operation_count(&self) -> (n: usize)
        ensures
            n == self@.len() - count_kind(self@, OperationKind::Ignore, self@.len() as int),
    {
        let stats = self.stats();
        self.operations.len() - stats.ignore
    }
}

impl<'a> Solver<'a> {
    /// The transaction that turns the installed packages into the solution.
    /// The solver has to have solved. For each installed package whose name
    /// the solution does not hold there is a removal; for each package of
    /// the solution there is a step that says what it is to the installed
    /// package of its name. The removals come first, in the order of
    /// registration; the packages of the solution follow, each behind the
    /// packages it requires.
    pub fn create_transaction(&self) -> (transaction: Transaction<'_>)
        requires
            self.state() is Solved,
        ensures
            transaction@ == operations(self.pool_view(), self.solution()),
            transaction.pool_view() == self.pool_view(),
    {
        let pool = self.pool();
        let c = self.chosen();
        let ghost v = pool@;
        proof {
            lemma_names_distinct(v, c@);
            lemma_ordered(v, c@);
        }
        let n = pool.solvable_count();
        let mut ops: Vec<InstallOperation> = Vec::new();
        let mut s: usize = 0;
        while s < n
            invariant
                0 <= s <= n,
                n == v.solvables.len(),
                v == pool@,
                members_valid(v, c@),
                ops@ == removals(v, c@, s as int),
            decreases n - s,
        {
            if pool.is_installed(s) && !is_replaced(pool, c, s) {
                ops.push(InstallOperation {
                    operation: OperationKind::Remove,
                    solvable: s,
                    replaces: None,
                });
            }
            s += 1;
        }
        let order = arrange_packages(pool, c);
        let ghost gone = ops@;
        let mut k: usize = 0;
        while k < order.len()
            invariant
                0 <= k <= order@.len(),
                v == pool@,
                order@ == ordered(v, c@),
                order@.len() == c@.len(),
                members_valid(v, c@),
                within(order@, c@),
                gone == removals(v, c@, v.solvables.len() as int),
                ops@ == gone + placements(v, c@).subrange(0, k as int),
            decreases order@.len() - k,
        {
            proof {
                assert(c@.contains(order@[k as int]));
                let i = c@.index_of(order@[k as int]);
                assert(c@[i] == order@[k as int]);
            }
            let op = operation_of(pool, order[k]);
            ops.push(op);
            assert(ops@ =~= gone + placements(v, c@).subrange(0, k + 1));
            k += 1;
        }
        assert(ops@ =~= gone + placements(v, c@));
        Transaction { pool, operations: ops }
    }
}

} // verus!
