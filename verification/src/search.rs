//! The constraint search, as mathematics: what it means for a set of
//! packages to be a solution, the order in which the search tries packages,
//! and the proofs that the search finds a solution exactly when there is one.

use vstd::prelude::*;
use crate::pool::{lemma_candidates_among, PoolView};

verus! {

/// Something the solution has to hold: a package that satisfies the
/// dependency expression `dep`.
#[derive(Clone, Copy, Debug, PartialEq, Eq, Structural)]
pub struct Need {
    /// The identifier of the dependency expression.
    pub dep: usize,
    /// `true` where the newest package is tried first even if an older one
    /// is installed; `false` where installed packages are tried first.
    pub newest: bool,
}

/// No package of `chosen` has the name of package `s`.
pub open spec fn name_free(v: PoolView, chosen: Seq<usize>, s: int) -> bool {
    forall|i: int|
        0 <= i < chosen.len() ==> v.solvables[#[trigger] chosen[i] as int].name
            != v.solvables[s].name
}

/// The constraints of package `t` allow package `s`: each constraint that
/// speaks of the name of `s` is satisfied by `s`.
pub open spec fn allows(v: PoolView, t: int, s: int) -> bool {
    forall|k: int|
        0 <= k < v.solvables[t].constrains.len() && v.deps[(
        #[trigger] v.solvables[t].constrains[k]) as int].name == v.solvables[s].name
            ==> v.provides(s, v.solvables[t].constrains[k] as int)
}

/// Package `s` and each package of `chosen` allow each other.
pub open spec fn compatible(v: PoolView, chosen: Seq<usize>, s: int) -> bool {
    &&& allows(v, s, s)
    &&& forall|i: int|
        0 <= i < chosen.len() ==> allows(v, #[trigger] chosen[i] as int, s) && allows(
            v,
            s,
            chosen[i] as int,
        )
}

/// Package `s` can join the packages chosen so far.
pub open spec fn can_add(v: PoolView, chosen: Seq<usize>, s: int) -> bool {
    &&& 0 <= s < v.solvables.len()
    &&& chosen.len() < v.solvables.len()
    &&& name_free(v, chosen, s)
    &&& compatible(v, chosen, s)
}

/// Some package of `chosen` satisfies the dependency expression `d`.
pub open spec fn satisfied(v: PoolView, chosen: Seq<usize>, d: int) -> bool {
    exists|i: int| 0 <= i < chosen.len() && v.provides(#[trigger] chosen[i] as int, d)
}

/// What package `s` adds to the work: one need for each of its run
/// requirements, installed packages tried first.
pub open spec fn needs_of(v: PoolView, s: int) -> Seq<Need> {
    Seq::new(
        v.solvables[s].depends.len(),
        |k: int| Need { dep: v.solvables[s].depends[k], newest: false },
    )
}

/// The packages among the first `n` of `list` that are installed, or those
/// that are not, in the order of the list.
pub open spec fn kept(v: PoolView, list: Seq<usize>, n: int, installed: bool) -> Seq<usize>
    decreases n,
{
    if n <= 0 {
        Seq::empty()
    } else if v.is_installed(list[n - 1] as int) == installed {
        kept(v, list, n - 1, installed).push(list[n - 1])
    } else {
        kept(v, list, n - 1, installed)
    }
}

/// The order in which the packages that satisfy `d` are tried: the candidates
/// in their order of preference, and, unless the newest is asked for, the
/// installed ones before the others.
pub open spec fn order(v: PoolView, d: int, newest: bool) -> Seq<usize> {
    let c = v.candidates(d);
    if newest {
        c
    } else {
        kept(v, c, c.len() as int, true) + kept(v, c, c.len() as int, false)
    }
}

/// The search. It works the needs off from the front. A need that a chosen
/// package satisfies is dropped. For any other need the packages that satisfy
/// it are tried in their order: one that can join is chosen, its run
/// requirements are put at the end of the work, and the search goes on; where
/// that fails, the next package is tried. The result is the list of chosen
/// packages in the order in which they were chosen, or `None` where every
/// attempt failed.
pub open spec fn search(v: PoolView, chosen: Seq<usize>, todo: Seq<Need>) -> Option<Seq<usize>>
    decreases v.solvables.len() - chosen.len(), todo.len(), 0int,
{
    if todo.len() == 0 {
        Some(chosen)
    } else if satisfied(v, chosen, todo[0].dep as int) {
        search(v, chosen, todo.skip(1))
    } else {
        try_from(v, chosen, todo.skip(1), order(v, todo[0].dep as int, todo[0].newest), 0)
    }
}

/// The search over the packages `cands` from position `k` on, for a need
/// that has been taken off the work already.
pub open spec fn try_from(
    v: PoolView,
    chosen: Seq<usize>,
    rest: Seq<Need>,
    cands: Seq<usize>,
    k: int,
) -> Option<Seq<usize>>
    decreases v.solvables.len() - chosen.len(), rest.len(), 1 + cands.len() - k,
{
    if k < 0 || k >= cands.len() {
        None
    } else {
        let found = if can_add(v, chosen, cands[k] as int) {
            search(v, chosen.push(cands[k]), rest + needs_of(v, cands[k] as int))
        } else {
            None
        };
        if found is Some {
            found
        } else {
            try_from(v, chosen, rest, cands, k + 1)
        }
    }
}

/// Every package of the list is one of the pool.
pub open spec fn members_valid(v: PoolView, c: Seq<usize>) -> bool {
    forall|i: int| 0 <= i < c.len() ==> (#[trigger] c[i]) < v.solvables.len()
}

/// No two packages of the list have the same name.
pub open spec fn names_distinct(v: PoolView, c: Seq<usize>) -> bool {
    forall|i: int, j: int|
        0 <= i < j < c.len() ==> v.solvables[#[trigger] c[i] as int].name != v.solvables[
        #[trigger] c[j] as int].name
}

/// The constraints of every package of the list allow every package of the
/// list.
pub open spec fn constraints_hold(v: PoolView, c: Seq<usize>) -> bool {
    forall|i: int, j: int|
        0 <= i < c.len() && 0 <= j < c.len() ==> allows(
            v,
            #[trigger] c[i] as int,
            #[trigger] c[j] as int,
        )
}

/// The packages can be installed side by side: one package per name, and
/// all constraints hold.
pub open spec fn coherent(v: PoolView, c: Seq<usize>) -> bool {
    &&& members_valid(v, c)
    &&& names_distinct(v, c)
    &&& constraints_hold(v, c)
}

/// Every run requirement of every package of the list is satisfied by a
/// package of the list.
pub open spec fn closed(v: PoolView, c: Seq<usize>) -> bool {
    forall|i: int, k: int|
        0 <= i < c.len() && 0 <= k < v.solvables[c[i] as int].depends.len() ==> satisfied(
            v,
            c,
            #[trigger] v.solvables[c[i] as int].depends[k] as int,
        )
}

/// The packages are a consistent installation: they can be installed side
/// by side and miss no run requirement.
pub open spec fn consistent(v: PoolView, c: Seq<usize>) -> bool {
    coherent(v, c) && closed(v, c)
}

/// The packages satisfy every need of the list.
pub open spec fn answers(v: PoolView, c: Seq<usize>, needs: Seq<Need>) -> bool {
    forall|j: int| 0 <= j < needs.len() ==> satisfied(v, c, (#[trigger] needs[j]).dep as int)
}

/// Every need speaks of a dependency expression of the pool.
pub open spec fn needs_valid(v: PoolView, needs: Seq<Need>) -> bool {
    forall|j: int| 0 <= j < needs.len() ==> (#[trigger] needs[j]).dep < v.deps.len()
}

/// Every run requirement of a chosen package is satisfied already or still
/// on the list of work.
pub open spec fn pending(v: PoolView, chosen: Seq<usize>, todo: Seq<Need>) -> bool {
    forall|i: int, k: int|
        0 <= i < chosen.len() && 0 <= k < v.solvables[chosen[i] as int].depends.len() ==> {
            ||| satisfied(v, chosen, #[trigger] v.solvables[chosen[i] as int].depends[k] as int)
            ||| exists|j: int|
                0 <= j < todo.len() && (#[trigger] todo[j]).dep
                    == v.solvables[chosen[i] as int].depends[k]
        }
}

/// `c` starts with `chosen`.
pub open spec fn extends(chosen: Seq<usize>, c: Seq<usize>) -> bool {
    chosen.len() <= c.len() && c.subrange(0, chosen.len() as int) == chosen
}

/// The installed and the other packages of a list, put one after the other,
/// are the packages of the list.
pub proof fn lemma_kept(v: PoolView, list: Seq<usize>, n: int, installed: bool)
    requires
        0 <= n <= list.len(),
    ensures
        forall|x: usize|
            kept(v, list, n, installed).contains(x) <==> (exists|i: int|
                0 <= i < n && #[trigger] list[i] == x && v.is_installed(x as int) == installed),
    decreases n,
{
    if n > 0 {
        lemma_kept(v, list, n - 1, installed);
        let prev = kept(v, list, n - 1, installed);
        let cur = kept(v, list, n, installed);
        assert forall|x: usize| cur.contains(x) <==> (exists|i: int|
            0 <= i < n && #[trigger] list[i] == x && v.is_installed(x as int) == installed) by {
            if cur.contains(x) {
                let idx = cur.index_of(x);
                if idx < prev.len() {
                    assert(prev[idx] == x);
                    assert(prev.contains(x));
                } else {
                    assert(list[n - 1] == x);
                }
            }
            if exists|i: int|
                0 <= i < n && #[trigger] list[i] == x && v.is_installed(x as int) == installed {
                let i = choose|i: int|
                    0 <= i < n && #[trigger] list[i] == x && v.is_installed(x as int) == installed;
                if i < n - 1 {
                    assert(prev.contains(x));
                    let idx = prev.index_of(x);
                    assert(cur[idx] == x);
                } else {
                    assert(cur[cur.len() - 1] == x);
                }
            }
        }
    }
}

/// The packages that are tried for an expression are exactly the packages
/// of the pool that satisfy it.
pub proof fn lemma_order(v: PoolView, d: int, newest: bool)
    requires
        v.wf(),
        0 <= d < v.deps.len(),
    ensures
        forall|k: int|
            0 <= k < order(v, d, newest).len() ==> (#[trigger] order(v, d, newest)[k])
                < v.solvables.len() && v.provides(order(v, d, newest)[k] as int, d),
        forall|s: int|
            0 <= s < v.solvables.len() && #[trigger] v.provides(s, d) ==> order(
                v,
                d,
                newest,
            ).contains(s as usize),
{
    let c = v.candidates(d);
    lemma_candidates_among(v.repos, v.solvables, v.deps[d], v.solvables.len() as int);
    if !newest {
        let a = kept(v, c, c.len() as int, true);
        let b = kept(v, c, c.len() as int, false);
        lemma_kept(v, c, c.len() as int, true);
        lemma_kept(v, c, c.len() as int, false);
        let o = a + b;
        assert forall|k: int| 0 <= k < o.len() implies (#[trigger] o[k]) < v.solvables.len()
            && v.provides(o[k] as int, d) by {
            if k < a.len() {
                assert(a[k] == o[k]);
                assert(a.contains(o[k]));
            } else {
                assert(b[k - a.len()] == o[k]);
                assert(b.contains(o[k]));
            }
        }
        assert forall|s: int|
            0 <= s < v.solvables.len() && #[trigger] v.provides(s, d) implies o.contains(
            s as usize,
        ) by {
            let x = s as usize;
            assert(c.contains(x));
            let i = c.index_of(x);
            assert(c[i] == x);
            if v.is_installed(s) {
                assert(a.contains(x));
                let idx = a.index_of(x);
                assert(o[idx] == x);
            } else {
                assert(b.contains(x));
                let idx = b.index_of(x);
                assert(o[a.len() + idx] == x);
            }
        }
    }
}

/// A list of distinct numbers from zero to below `n` has at most `n`
/// entries.
pub proof fn lemma_distinct_numbers_bounded(s: Seq<int>, n: int)
    requires
        s.no_duplicates(),
        forall|i: int| 0 <= i < s.len() ==> 0 <= (#[trigger] s[i]) < n,
        0 <= n,
    ensures
        s.len() <= n,
    decreases n,
{
    if n == 0 {
        if s.len() > 0 {
            assert(s[0] < 0);
        }
    } else {
        let top = n - 1;
        if s.contains(top) {
            let idx = s.index_of(top);
            let r = s.remove(idx);
            s.remove_ensures(idx);
            assert forall|i: int| 0 <= i < r.len() implies 0 <= (#[trigger] r[i]) < n - 1 by {
                if i < idx {
                    assert(r[i] == s[i]);
                } else {
                    assert(r[i] == s[i + 1]);
                }
            }
            assert forall|i: int, j: int| 0 <= i < r.len() && 0 <= j < r.len() && i != j implies r[i]
                != r[j] by {
                let a = if i < idx { i } else { i + 1 };
                let b = if j < idx { j } else { j + 1 };
                assert(r[i] == s[a]);
                assert(r[j] == s[b]);
            }
            lemma_distinct_numbers_bounded(r, n - 1);
        } else {
            assert forall|i: int| 0 <= i < s.len() implies 0 <= (#[trigger] s[i]) < n - 1 by {
                if s[i] == top {
                    assert(s.contains(top));
                }
            }
            lemma_distinct_numbers_bounded(s, n - 1);
        }
    }
}

/// A list of distinct identifiers below `n` has at most `n` entries.
pub proof fn lemma_distinct_bounded(s: Seq<usize>, n: int)
    requires
        s.no_duplicates(),
        forall|i: int| 0 <= i < s.len() ==> (#[trigger] s[i]) < n,
        0 <= n,
    ensures
        s.len() <= n,
{
    let t = Seq::new(s.len(), |i: int| s[i] as int);
    assert forall|i: int, j: int| 0 <= i < t.len() && 0 <= j < t.len() && i != j implies t[i]
        != t[j] by {
        assert(s[i] != s[j]);
    }
    assert forall|i: int| 0 <= i < t.len() implies 0 <= (#[trigger] t[i]) < n by {
        assert(s[i] < n);
    }
    lemma_distinct_numbers_bounded(t, n);
}

/// What a shorter list satisfies, a list that starts with it satisfies too.
pub proof fn lemma_satisfied_extends(v: PoolView, chosen: Seq<usize>, c: Seq<usize>, d: int)
    requires
        extends(chosen, c),
        satisfied(v, chosen, d),
    ensures
        satisfied(v, c, d),
{
    let i = choose|i: int| 0 <= i < chosen.len() && v.provides(#[trigger] chosen[i] as int, d);
    assert(c.subrange(0, chosen.len() as int)[i] == c[i]);
    assert(v.provides(c[i] as int, d));
}

/// A package that can join leaves the list coherent.
pub proof fn lemma_push_coherent(v: PoolView, chosen: Seq<usize>, s: usize)
    requires
        coherent(v, chosen),
        can_add(v, chosen, s as int),
    ensures
        coherent(v, chosen.push(s)),
{
    let c = chosen.push(s);
    assert forall|i: int, j: int| 0 <= i < j < c.len() implies v.solvables[#[trigger] c[i] as int].name
        != v.solvables[#[trigger] c[j] as int].name by {
        if j == chosen.len() {
            assert(c[i] == chosen[i]);
        } else {
            assert(c[i] == chosen[i] && c[j] == chosen[j]);
        }
    }
    assert forall|i: int, j: int| 0 <= i < c.len() && 0 <= j < c.len() implies allows(
        v,
        #[trigger] c[i] as int,
        #[trigger] c[j] as int,
    ) by {
        if i < chosen.len() {
            assert(c[i] == chosen[i]);
        }
        if j < chosen.len() {
            assert(c[j] == chosen[j]);
        }
    }
}

/// Once a package that satisfies `d` has joined, with its run requirements
/// put on the list of work, nothing chosen misses a requirement that is
/// neither satisfied nor on the list.
proof fn lemma_push_pending(v: PoolView, chosen: Seq<usize>, rest: Seq<Need>, s: usize, d: int)
    requires
        v.provides(s as int, d),
        forall|i: int, k: int|
            0 <= i < chosen.len() && 0 <= k < v.solvables[chosen[i] as int].depends.len() ==> {
                ||| satisfied(v, chosen, #[trigger] v.solvables[chosen[i] as int].depends[k] as int)
                ||| v.solvables[chosen[i] as int].depends[k] == d
                ||| exists|j: int|
                    0 <= j < rest.len() && (#[trigger] rest[j]).dep
                        == v.solvables[chosen[i] as int].depends[k]
            },
    ensures
        pending(v, chosen.push(s), rest + needs_of(v, s as int)),
{
    let c = chosen.push(s);
    let todo = rest + needs_of(v, s as int);
    assert(extends(chosen, c)) by {
        assert(c.subrange(0, chosen.len() as int) =~= chosen);
    }
    assert(c[chosen.len() as int] == s);
    assert forall|i: int, k: int|
        0 <= i < c.len() && 0 <= k < v.solvables[c[i] as int].depends.len() implies {
        ||| satisfied(v, c, #[trigger] v.solvables[c[i] as int].depends[k] as int)
        ||| exists|j: int|
            0 <= j < todo.len() && (#[trigger] todo[j]).dep == v.solvables[c[i] as int].depends[k]
    } by {
        let dep = v.solvables[c[i] as int].depends[k];
        if i < chosen.len() {
            assert(c[i] == chosen[i]);
            if satisfied(v, chosen, dep as int) {
                lemma_satisfied_extends(v, chosen, c, dep as int);
            } else if dep == d {
                assert(v.provides(c[chosen.len() as int] as int, d));
            } else {
                let j = choose|j: int| 0 <= j < rest.len() && (#[trigger] rest[j]).dep == dep;
                assert(todo[j].dep == dep);
            }
        } else {
            assert(todo[rest.len() + k] == needs_of(v, s as int)[k]);
            assert(todo[rest.len() + k].dep == dep);
        }
    }
}

/// The search is sound: what it returns starts with the packages chosen
/// before, is a consistent installation, and satisfies every need that was on
/// the list of work.
pub proof fn lemma_search_sound(v: PoolView, chosen: Seq<usize>, todo: Seq<Need>)
    requires
        v.wf(),
        coherent(v, chosen),
        needs_valid(v, todo),
        pending(v, chosen, todo),
        search(v, chosen, todo) is Some,
    ensures
        consistent(v, search(v, chosen, todo).unwrap()),
        answers(v, search(v, chosen, todo).unwrap(), todo),
        extends(chosen, search(v, chosen, todo).unwrap()),
    decreases v.solvables.len() - chosen.len(), todo.len(), 0int,
{
    let c = search(v, chosen, todo).unwrap();
    if todo.len() == 0 {
        assert(c.subrange(0, chosen.len() as int) =~= chosen);
    } else {
        let rest = todo.skip(1);
        let d = todo[0].dep as int;
        assert forall|j: int| 0 <= j < rest.len() implies (#[trigger] rest[j]).dep
            < v.deps.len() by {
            assert(rest[j] == todo[j + 1]);
        }
        if satisfied(v, chosen, d) {
            assert forall|i: int, k: int|
                0 <= i < chosen.len() && 0 <= k < v.solvables[chosen[i] as int].depends.len() implies {
                ||| satisfied(v, chosen, #[trigger] v.solvables[chosen[i] as int].depends[k] as int)
                ||| exists|j: int|
                    0 <= j < rest.len() && (#[trigger] rest[j]).dep
                        == v.solvables[chosen[i] as int].depends[k]
            } by {
                let dep = v.solvables[chosen[i] as int].depends[k];
                if !satisfied(v, chosen, dep as int) {
                    let j = choose|j: int| 0 <= j < todo.len() && (#[trigger] todo[j]).dep == dep;
                    assert(j > 0);
                    assert(rest[j - 1] == todo[j]);
                }
            }
            lemma_search_sound(v, chosen, rest);
            assert forall|j: int| 0 <= j < todo.len() implies satisfied(
                v,
                c,
                (#[trigger] todo[j]).dep as int,
            ) by {
                if j == 0 {
                    lemma_satisfied_extends(v, chosen, c, d);
                } else {
                    assert(rest[j - 1] == todo[j]);
                }
            }
        } else {
            let cands = order(v, d, todo[0].newest);
            lemma_order(v, d, todo[0].newest);
            assert forall|i: int, k: int|
                0 <= i < chosen.len() && 0 <= k < v.solvables[chosen[i] as int].depends.len() implies {
                ||| satisfied(v, chosen, #[trigger] v.solvables[chosen[i] as int].depends[k] as int)
                ||| v.solvables[chosen[i] as int].depends[k] == d
                ||| exists|j: int|
                    0 <= j < rest.len() && (#[trigger] rest[j]).dep
                        == v.solvables[chosen[i] as int].depends[k]
            } by {
                let dep = v.solvables[chosen[i] as int].depends[k];
                if !satisfied(v, chosen, dep as int) && dep != d {
                    let j = choose|j: int| 0 <= j < todo.len() && (#[trigger] todo[j]).dep == dep;
                    assert(j > 0);
                    assert(rest[j - 1] == todo[j]);
                }
            }
            lemma_try_sound(v, chosen, rest, cands, 0, d);
            assert forall|j: int| 0 <= j < todo.len() implies satisfied(
                v,
                c,
                (#[trigger] todo[j]).dep as int,
            ) by {
                if j > 0 {
                    assert(rest[j - 1] == todo[j]);
                }
            }
        }
    }
}

/// Soundness of the search over the packages that satisfy one need.
pub proof fn lemma_try_sound(
    v: PoolView,
    chosen: Seq<usize>,
    rest: Seq<Need>,
    cands: Seq<usize>,
    k: int,
    d: int,
)
    requires
        v.wf(),
        coherent(v, chosen),
        needs_valid(v, rest),
        0 <= d < v.deps.len(),
        0 <= k,
        forall|i: int|
            0 <= i < cands.len() ==> (#[trigger] cands[i]) < v.solvables.len() && v.provides(
                cands[i] as int,
                d,
            ),
        forall|i: int, k: int|
            0 <= i < chosen.len() && 0 <= k < v.solvables[chosen[i] as int].depends.len() ==> {
                ||| satisfied(v, chosen, #[trigger] v.solvables[chosen[i] as int].depends[k] as int)
                ||| v.solvables[chosen[i] as int].depends[k] == d
                ||| exists|j: int|
                    0 <= j < rest.len() && (#[trigger] rest[j]).dep
                        == v.solvables[chosen[i] as int].depends[k]
            },
        try_from(v, chosen, rest, cands, k) is Some,
    ensures
        consistent(v, try_from(v, chosen, rest, cands, k).unwrap()),
        answers(v, try_from(v, chosen, rest, cands, k).unwrap(), rest),
        satisfied(v, try_from(v, chosen, rest, cands, k).unwrap(), d),
        extends(chosen, try_from(v, chosen, rest, cands, k).unwrap()),
    decreases v.solvables.len() - chosen.len(), rest.len(), 1 + cands.len() - k,
{
    let s = cands[k];
    let found = if can_add(v, chosen, s as int) {
        search(v, chosen.push(s), rest + needs_of(v, s as int))
    } else {
        None
    };
    if found is Some {
        let next = chosen.push(s);
        let todo = rest + needs_of(v, s as int);
        let c = found.unwrap();
        lemma_push_coherent(v, chosen, s);
        lemma_push_pending(v, chosen, rest, s, d);
        assert(v.solvable_wf(v.solvables[s as int]));
        assert forall|j: int| 0 <= j < todo.len() implies (#[trigger] todo[j]).dep
            < v.deps.len() by {
            if j < rest.len() {
                assert(todo[j] == rest[j]);
            } else {
                assert(todo[j] == needs_of(v, s as int)[j - rest.len()]);
            }
        }
        lemma_search_sound(v, next, todo);
        assert(extends(chosen, c)) by {
            assert(c.subrange(0, next.len() as int) == next);
            assert(c.subrange(0, chosen.len() as int) =~= next.subrange(0, chosen.len() as int));
            assert(next.subrange(0, chosen.len() as int) =~= chosen);
        }
        assert(satisfied(v, c, d)) by {
            assert(c.subrange(0, next.len() as int)[chosen.len() as int] == c[chosen.len() as int]);
            assert(v.provides(c[chosen.len() as int] as int, d));
        }
        assert forall|j: int| 0 <= j < rest.len() implies satisfied(
            v,
            c,
            (#[trigger] rest[j]).dep as int,
        ) by {
            assert(todo[j] == rest[j]);
        }
    } else {
        lemma_try_sound(v, chosen, rest, cands, k + 1, d);
    }
}

/// Every package of `chosen` is one of `w`.
pub open spec fn within(chosen: Seq<usize>, w: Seq<usize>) -> bool {
    forall|i: int| 0 <= i < chosen.len() ==> w.contains(#[trigger] chosen[i])
}

/// The search is complete: where some consistent installation holds the
/// packages chosen so far and satisfies every need on the list of work, the
/// search finds a solution.
pub proof fn lemma_search_complete(
    v: PoolView,
    chosen: Seq<usize>,
    todo: Seq<Need>,
    w: Seq<usize>,
)
    requires
        v.wf(),
        coherent(v, chosen),
        needs_valid(v, todo),
        consistent(v, w),
        within(chosen, w),
        answers(v, w, todo),
    ensures
        search(v, chosen, todo) is Some,
    decreases v.solvables.len() - chosen.len(), todo.len(), 0int,
{
    if todo.len() > 0 {
        let rest = todo.skip(1);
        let d = todo[0].dep as int;
        assert forall|j: int| 0 <= j < rest.len() implies (#[trigger] rest[j]).dep < v.deps.len()
            && satisfied(v, w, rest[j].dep as int) by {
            assert(rest[j] == todo[j + 1]);
        }
        if satisfied(v, chosen, d) {
            lemma_search_complete(v, chosen, rest, w);
        } else {
            let cands = order(v, d, todo[0].newest);
            lemma_order(v, d, todo[0].newest);
            assert(satisfied(v, w, todo[0].dep as int));
            let a = choose|a: int| 0 <= a < w.len() && v.provides(#[trigger] w[a] as int, d);
            let t = w[a];
            assert(v.provides(t as int, d));
            assert(cands.contains(t));
            let j = cands.index_of(t);
            assert(w.contains(cands[j]));
            lemma_try_complete(v, chosen, rest, cands, 0, w, j, d);
        }
    }
}

/// Completeness of the search over the packages that satisfy one need: the
/// package at position `j` is one of a consistent installation.
pub proof fn lemma_try_complete(
    v: PoolView,
    chosen: Seq<usize>,
    rest: Seq<Need>,
    cands: Seq<usize>,
    k: int,
    w: Seq<usize>,
    j: int,
    d: int,
)
    requires
        v.wf(),
        coherent(v, chosen),
        needs_valid(v, rest),
        consistent(v, w),
        within(chosen, w),
        answers(v, w, rest),
        0 <= k <= j < cands.len(),
        w.contains(cands[j]),
        v.provides(cands[j] as int, d),
        !satisfied(v, chosen, d),
    ensures
        try_from(v, chosen, rest, cands, k) is Some,
    decreases v.solvables.len() - chosen.len(), rest.len(), 1 + cands.len() - k,
{
    let s = cands[k];
    let found = if can_add(v, chosen, s as int) {
        search(v, chosen.push(s), rest + needs_of(v, s as int))
    } else {
        None
    };
    if found is Some {
    } else if k < j {
        lemma_try_complete(v, chosen, rest, cands, k + 1, w, j, d);
    } else {
        let b = w.index_of(s);
        assert(w[b] == s);
        assert(s < v.solvables.len());
        assert forall|i: int| 0 <= i < chosen.len() implies v.solvables[
        #[trigger] chosen[i] as int].name != v.solvables[s as int].name by {
            let a = w.index_of(chosen[i]);
            assert(w[a] == chosen[i]);
            if a == b {
                assert(v.provides(chosen[i] as int, d));
            } else if a < b {
                assert(v.solvables[w[a] as int].name != v.solvables[w[b] as int].name);
            } else {
                assert(v.solvables[w[b] as int].name != v.solvables[w[a] as int].name);
            }
        }
        assert(compatible(v, chosen, s as int)) by {
            assert(allows(v, w[b] as int, w[b] as int));
            assert forall|i: int| 0 <= i < chosen.len() implies allows(
                v,
                #[trigger] chosen[i] as int,
                s as int,
            ) && allows(v, s as int, chosen[i] as int) by {
                let a = w.index_of(chosen[i]);
                assert(w[a] == chosen[i]);
                assert(allows(v, w[a] as int, w[b] as int));
                assert(allows(v, w[b] as int, w[a] as int));
            }
        }
        let next = chosen.push(s);
        assert(next.len() <= v.solvables.len()) by {
            assert forall|x: int, y: int| 0 <= x < next.len() && 0 <= y < next.len() && x != y implies next[x]
                != next[y] by {
                let lo = if x < y { x } else { y };
                let hi = if x < y { y } else { x };
                if hi < chosen.len() {
                    assert(v.solvables[chosen[lo] as int].name != v.solvables[chosen[hi] as int].name);
                } else {
                    assert(v.solvables[chosen[lo] as int].name != v.solvables[s as int].name);
                }
            }
            assert forall|x: int| 0 <= x < next.len() implies (#[trigger] next[x])
                < v.solvables.len() by {
                if x < chosen.len() {
                    assert(next[x] == chosen[x]);
                }
            }
            lemma_distinct_bounded(next, v.solvables.len() as int);
        }
        assert(can_add(v, chosen, s as int));
        lemma_push_coherent(v, chosen, s);
        let todo = rest + needs_of(v, s as int);
        assert(v.solvable_wf(v.solvables[s as int]));
        assert forall|x: int| 0 <= x < todo.len() implies (#[trigger] todo[x]).dep
            < v.deps.len() && satisfied(v, w, todo[x].dep as int) by {
            if x < rest.len() {
                assert(todo[x] == rest[x]);
            } else {
                let kk = x - rest.len();
                assert(todo[x] == needs_of(v, s as int)[kk]);
                assert(satisfied(v, w, v.solvables[w[b] as int].depends[kk] as int));
            }
        }
        assert forall|x: int| 0 <= x < next.len() implies w.contains(#[trigger] next[x]) by {
            if x < chosen.len() {
                assert(next[x] == chosen[x]);
            }
        }
        lemma_search_complete(v, next, todo, w);
    }
}


/// The package at position `i` of `c` is there for a reason: it satisfies a
/// need of the list, or a run requirement of a package of `c`.
pub open spec fn wanted(v: PoolView, c: Seq<usize>, needs: Seq<Need>, i: int) -> bool {
    ||| exists|j: int|
        0 <= j < needs.len() && v.provides(c[i] as int, (#[trigger] needs[j]).dep as int)
    ||| exists|a: int, k: int|
        0 <= a < c.len() && 0 <= k < v.solvables[c[a] as int].depends.len() && v.provides(
            c[i] as int,
            #[trigger] v.solvables[c[a] as int].depends[k] as int,
        )
}

/// The search chooses nothing without a reason: every package that it adds
/// satisfies a need of the work or a run requirement of a package of the
/// result.
pub proof fn lemma_search_relevant(v: PoolView, chosen: Seq<usize>, todo: Seq<Need>)
    requires
        v.wf(),
        coherent(v, chosen),
        needs_valid(v, todo),
        pending(v, chosen, todo),
        search(v, chosen, todo) is Some,
    ensures
        forall|i: int|
            chosen.len() <= i < search(v, chosen, todo).unwrap().len() ==> wanted(
                v,
                search(v, chosen, todo).unwrap(),
                todo,
                i,
            ),
    decreases v.solvables.len() - chosen.len(), todo.len(), 0int,
{
    let c = search(v, chosen, todo).unwrap();
    if todo.len() > 0 {
        let rest = todo.skip(1);
        let d = todo[0].dep as int;
        assert forall|j: int| 0 <= j < rest.len() implies (#[trigger] rest[j]).dep
            < v.deps.len() by {
            assert(rest[j] == todo[j + 1]);
        }
        if satisfied(v, chosen, d) {
            assert forall|i: int, k: int|
                0 <= i < chosen.len() && 0 <= k < v.solvables[chosen[i] as int].depends.len() implies {
                ||| satisfied(v, chosen, #[trigger] v.solvables[chosen[i] as int].depends[k] as int)
                ||| exists|j: int|
                    0 <= j < rest.len() && (#[trigger] rest[j]).dep
                        == v.solvables[chosen[i] as int].depends[k]
            } by {
                let dep = v.solvables[chosen[i] as int].depends[k];
                if !satisfied(v, chosen, dep as int) {
                    let j = choose|j: int| 0 <= j < todo.len() && (#[trigger] todo[j]).dep == dep;
                    assert(rest[j - 1] == todo[j]);
                }
            }
            lemma_search_relevant(v, chosen, rest);
            assert forall|i: int| chosen.len() <= i < c.len() implies wanted(v, c, todo, i) by {
                assert(wanted(v, c, rest, i));
                if exists|j: int|
                    0 <= j < rest.len() && v.provides(c[i] as int, (#[trigger] rest[j]).dep as int) {
                    let j = choose|j: int|
                        0 <= j < rest.len() && v.provides(
                            c[i] as int,
                            (#[trigger] rest[j]).dep as int,
                        );
                    assert(todo[j + 1] == rest[j]);
                    assert(v.provides(c[i] as int, todo[j + 1].dep as int));
                }
            }
        } else {
            let cands = order(v, d, todo[0].newest);
            lemma_order(v, d, todo[0].newest);
            assert forall|i: int, k: int|
                0 <= i < chosen.len() && 0 <= k < v.solvables[chosen[i] as int].depends.len() implies {
                ||| satisfied(v, chosen, #[trigger] v.solvables[chosen[i] as int].depends[k] as int)
                ||| v.solvables[chosen[i] as int].depends[k] == d
                ||| exists|j: int|
                    0 <= j < rest.len() && (#[trigger] rest[j]).dep
                        == v.solvables[chosen[i] as int].depends[k]
            } by {
                let dep = v.solvables[chosen[i] as int].depends[k];
                if !satisfied(v, chosen, dep as int) && dep != d {
                    let j = choose|j: int| 0 <= j < todo.len() && (#[trigger] todo[j]).dep == dep;
                    assert(rest[j - 1] == todo[j]);
                }
            }
            lemma_try_relevant(v, chosen, rest, cands, 0, d);
            assert forall|i: int| chosen.len() <= i < c.len() implies wanted(v, c, todo, i) by {
                if v.provides(c[i] as int, d) {
                    assert(v.provides(c[i] as int, todo[0].dep as int));
                } else {
                    assert(wanted(v, c, rest, i));
                    if exists|j: int|
                        0 <= j < rest.len() && v.provides(
                            c[i] as int,
                            (#[trigger] rest[j]).dep as int,
                        ) {
                        let j = choose|j: int|
                            0 <= j < rest.len() && v.provides(
                                c[i] as int,
                                (#[trigger] rest[j]).dep as int,
                            );
                        assert(todo[j + 1] == rest[j]);
                        assert(v.provides(c[i] as int, todo[j + 1].dep as int));
                    }
                }
            }
        }
    }
}

/// The same for the search over the packages that satisfy one need.
pub proof fn lemma_try_relevant(
    v: PoolView,
    chosen: Seq<usize>,
    rest: Seq<Need>,
    cands: Seq<usize>,
    k: int,
    d: int,
)
    requires
        v.wf(),
        coherent(v, chosen),
        needs_valid(v, rest),
        0 <= d < v.deps.len(),
        0 <= k,
        forall|i: int|
            0 <= i < cands.len() ==> (#[trigger] cands[i]) < v.solvables.len() && v.provides(
                cands[i] as int,
                d,
            ),
        forall|i: int, k: int|
            0 <= i < chosen.len() && 0 <= k < v.solvables[chosen[i] as int].depends.len() ==> {
                ||| satisfied(v, chosen, #[trigger] v.solvables[chosen[i] as int].depends[k] as int)
                ||| v.solvables[chosen[i] as int].depends[k] == d
                ||| exists|j: int|
                    0 <= j < rest.len() && (#[trigger] rest[j]).dep
                        == v.solvables[chosen[i] as int].depends[k]
            },
        try_from(v, chosen, rest, cands, k) is Some,
    ensures
        forall|i: int|
            chosen.len() <= i < try_from(v, chosen, rest, cands, k).unwrap().len() ==> v.provides(
                try_from(v, chosen, rest, cands, k).unwrap()[i] as int,
                d,
            ) || wanted(v, try_from(v, chosen, rest, cands, k).unwrap(), rest, i),
    decreases v.solvables.len() - chosen.len(), rest.len(), 1 + cands.len() - k,
{
    let s = cands[k];
    let found = if can_add(v, chosen, s as int) {
        search(v, chosen.push(s), rest + needs_of(v, s as int))
    } else {
        None
    };
    if found is Some {
        let next = chosen.push(s);
        let todo = rest + needs_of(v, s as int);
        let c = found.unwrap();
        lemma_push_coherent(v, chosen, s);
        lemma_push_pending(v, chosen, rest, s, d);
        assert(v.solvable_wf(v.solvables[s as int]));
        assert forall|j: int| 0 <= j < todo.len() implies (#[trigger] todo[j]).dep
            < v.deps.len() by {
            if j < rest.len() {
                assert(todo[j] == rest[j]);
            } else {
                assert(todo[j] == needs_of(v, s as int)[j - rest.len()]);
            }
        }
        lemma_search_sound(v, next, todo);
        lemma_search_relevant(v, next, todo);
        let at = chosen.len() as int;
        assert(c[at] == s) by {
            assert(c.subrange(0, next.len() as int)[at] == c[at]);
        }
        assert forall|i: int| chosen.len() <= i < c.len() implies v.provides(c[i] as int, d)
            || wanted(v, c, rest, i) by {
            if i > at {
                assert(wanted(v, c, todo, i));
                if exists|j: int|
                    0 <= j < todo.len() && v.provides(c[i] as int, (#[trigger] todo[j]).dep as int) {
                    let j = choose|j: int|
                        0 <= j < todo.len() && v.provides(
                            c[i] as int,
                            (#[trigger] todo[j]).dep as int,
                        );
                    if j < rest.len() {
                        assert(todo[j] == rest[j]);
                        assert(v.provides(c[i] as int, rest[j].dep as int));
                    } else {
                        let kk = j - rest.len();
                        assert(todo[j] == needs_of(v, s as int)[kk]);
                        assert(v.provides(c[i] as int, v.solvables[c[at] as int].depends[kk] as int));
                    }
                }
            }
        }
    } else {
        lemma_try_relevant(v, chosen, rest, cands, k + 1, d);
    }
}

} // verus!
