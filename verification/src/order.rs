//! The order of a transaction: a package comes after the packages of the
//! solution that it requires.

use vstd::prelude::*;
use crate::pool::{Pool, PoolView};
use crate::search::{lemma_distinct_numbers_bounded, members_valid, names_distinct, within};

verus! {

/// Package `s` requires package `t`: `t` satisfies one of the run
/// requirements of `s`.
pub open spec fn depends_on(v: PoolView, s: int, t: int) -> bool {
    exists|k: int|
        0 <= k < v.solvables[s].depends.len() && v.provides(
            t,
            #[trigger] v.solvables[s].depends[k] as int,
        )
}

/// Every other package of `c` that `s` requires has been placed.
pub open spec fn ready(v: PoolView, c: Seq<usize>, placed: Seq<usize>, s: usize) -> bool {
    forall|j: int|
        0 <= j < c.len() && #[trigger] c[j] != s && depends_on(v, s as int, c[j] as int)
            ==> placed.contains(c[j])
}

/// Package `s` can be placed next: it has not been placed, and, where
/// `strict`, it is ready.
pub open spec fn eligible(
    v: PoolView,
    c: Seq<usize>,
    placed: Seq<usize>,
    strict: bool,
    s: usize,
) -> bool {
    !placed.contains(s) && (strict ==> ready(v, c, placed, s))
}

/// The package with the least identifier among the eligible ones of the
/// first `n` packages of `c`.
pub open spec fn pick(
    v: PoolView,
    c: Seq<usize>,
    placed: Seq<usize>,
    strict: bool,
    n: int,
) -> Option<usize>
    decreases n,
{
    if n <= 0 {
        None
    } else {
        let best = pick(v, c, placed, strict, n - 1);
        if eligible(v, c, placed, strict, c[n - 1]) && (best is None || c[n - 1] < best.unwrap()) {
            Some(c[n - 1])
        } else {
            best
        }
    }
}

/// The package that is placed next: the ready one that was registered
/// first; where none is ready, because packages require each other in a
/// circle, the one that was registered first.
pub open spec fn next(v: PoolView, c: Seq<usize>, placed: Seq<usize>) -> usize {
    match pick(v, c, placed, true, c.len() as int) {
        Some(s) => s,
        None => match pick(v, c, placed, false, c.len() as int) {
            Some(s) => s,
            None => 0,
        },
    }
}

/// The packages of `c`, placed one after the other behind `placed`.
pub open spec fn arrange(v: PoolView, c: Seq<usize>, placed: Seq<usize>) -> Seq<usize>
    decreases c.len() - placed.len(),
{
    if placed.len() >= c.len() {
        placed
    } else {
        arrange(v, c, placed.push(next(v, c, placed)))
    }
}

/// The packages of `c` in the order in which a transaction handles them.
pub open spec fn ordered(v: PoolView, c: Seq<usize>) -> Seq<usize> {
    arrange(v, c, Seq::empty())
}

/// The packages of `c` do not require each other in a circle: `rank` gives
/// each package a number above the numbers of the packages it requires.
pub open spec fn acyclic(v: PoolView, c: Seq<usize>, rank: spec_fn(usize) -> nat) -> bool {
    forall|i: int, j: int|
        0 <= i < c.len() && 0 <= j < c.len() && c[i] != c[j] && depends_on(
            v,
            #[trigger] c[i] as int,
            #[trigger] c[j] as int,
        ) ==> rank(c[j]) < rank(c[i])
}

/// Every package of `c` that a package of `r` requires stands before it in
/// `r`.
pub open spec fn dependencies_first(v: PoolView, c: Seq<usize>, r: Seq<usize>) -> bool {
    forall|p: int, j: int|
        0 <= p < r.len() && 0 <= j < c.len() && c[j] != r[p] && depends_on(
            v,
            #[trigger] r[p] as int,
            #[trigger] c[j] as int,
        ) ==> exists|q: int| 0 <= q < p && r[q] == c[j]
}

/// What `pick` finds is eligible and has the least identifier among the
/// eligible packages; it finds nothing only where none is eligible.
pub proof fn lemma_pick(v: PoolView, c: Seq<usize>, placed: Seq<usize>, strict: bool, n: int)
    requires
        0 <= n <= c.len(),
    ensures
        pick(v, c, placed, strict, n) matches Some(s) ==> {
            &&& eligible(v, c, placed, strict, s)
            &&& exists|k: int| 0 <= k < n && c[k] == s
            &&& forall|k: int|
                0 <= k < n && eligible(v, c, placed, strict, #[trigger] c[k]) ==> s <= c[k]
        },
        pick(v, c, placed, strict, n) is None ==> forall|k: int|
            0 <= k < n ==> !eligible(v, c, placed, strict, #[trigger] c[k]),
    decreases n,
{
    if n > 0 {
        lemma_pick(v, c, placed, strict, n - 1);
        let best = pick(v, c, placed, strict, n - 1);
        if eligible(v, c, placed, strict, c[n - 1]) && (best is None || c[n - 1] < best.unwrap()) {
            assert(c[n - 1] == c[n - 1]);
        } else if best is Some {
            let k = choose|k: int| 0 <= k < n - 1 && c[k] == best.unwrap();
            assert(c[k] == best.unwrap());
        }
    }
}

/// A list without repetitions whose entries all occur in a second list is
/// not longer than that one.
pub proof fn lemma_within_bounded(a: Seq<usize>, b: Seq<usize>)
    requires
        a.no_duplicates(),
        within(a, b),
    ensures
        a.len() <= b.len(),
{
    let idx = Seq::new(a.len(), |i: int| b.index_of(a[i]));
    assert forall|i: int| 0 <= i < idx.len() implies 0 <= (#[trigger] idx[i]) < b.len() && b[idx[i]]
        == a[i] by {
        assert(b.contains(a[i]));
        let k = b.index_of(a[i]);
        assert(0 <= k < b.len() && b[k] == a[i]);
    }
    assert forall|i: int, j: int| 0 <= i < idx.len() && 0 <= j < idx.len() && i != j implies idx[i]
        != idx[j] by {
        assert(b[idx[i]] == a[i]);
        assert(b[idx[j]] == a[j]);
    }
    lemma_distinct_numbers_bounded(idx, b.len() as int);
}

/// While fewer packages are placed than there are, one is left to place.
pub proof fn lemma_one_left(c: Seq<usize>, placed: Seq<usize>) -> (k: int)
    requires
        c.no_duplicates(),
        placed.len() < c.len(),
    ensures
        0 <= k < c.len(),
        !placed.contains(c[k]),
{
    if forall|k: int| 0 <= k < c.len() ==> placed.contains(#[trigger] c[k]) {
        lemma_within_bounded(c, placed);
    }
    choose|k: int| 0 <= k < c.len() && !placed.contains(#[trigger] c[k])
}

/// The package placed next is one of `c` that has not been placed.
pub proof fn lemma_next(v: PoolView, c: Seq<usize>, placed: Seq<usize>)
    requires
        c.no_duplicates(),
        placed.len() < c.len(),
    ensures
        c.contains(next(v, c, placed)),
        !placed.contains(next(v, c, placed)),
        pick(v, c, placed, true, c.len() as int) is Some ==> ready(
            v,
            c,
            placed,
            next(v, c, placed),
        ),
{
    let k = lemma_one_left(c, placed);
    lemma_pick(v, c, placed, true, c.len() as int);
    lemma_pick(v, c, placed, false, c.len() as int);
    assert(eligible(v, c, placed, false, c[k]));
}

/// Arranging places every package of `c` once.
pub proof fn lemma_arrange(v: PoolView, c: Seq<usize>, placed: Seq<usize>)
    requires
        c.no_duplicates(),
        placed.no_duplicates(),
        within(placed, c),
    ensures
        arrange(v, c, placed).no_duplicates(),
        within(arrange(v, c, placed), c),
        within(c, arrange(v, c, placed)),
        arrange(v, c, placed).len() == c.len(),
    decreases c.len() - placed.len(),
{
    lemma_within_bounded(placed, c);
    if placed.len() >= c.len() {
        if exists|k: int| 0 <= k < c.len() && !placed.contains(#[trigger] c[k]) {
            let k = choose|k: int| 0 <= k < c.len() && !placed.contains(#[trigger] c[k]);
            let more = placed.push(c[k]);
            assert forall|i: int, j: int| 0 <= i < more.len() && 0 <= j < more.len() && i != j implies more[i]
                != more[j] by {
                if i < placed.len() && j < placed.len() {
                } else if i < placed.len() {
                    assert(placed.contains(placed[i]));
                } else {
                    assert(placed.contains(placed[j]));
                }
            }
            assert forall|i: int| 0 <= i < more.len() implies c.contains(#[trigger] more[i]) by {
                if i < placed.len() {
                    assert(more[i] == placed[i]);
                }
            }
            lemma_within_bounded(more, c);
        }
    } else {
        lemma_next(v, c, placed);
        let s = next(v, c, placed);
        let more = placed.push(s);
        assert forall|i: int, j: int| 0 <= i < more.len() && 0 <= j < more.len() && i != j implies more[i]
            != more[j] by {
            if i < placed.len() && j < placed.len() {
            } else if i < placed.len() {
                assert(placed.contains(placed[i]));
            } else {
                assert(placed.contains(placed[j]));
            }
        }
        assert forall|i: int| 0 <= i < more.len() implies c.contains(#[trigger] more[i]) by {
            if i < placed.len() {
                assert(more[i] == placed[i]);
            }
        }
        lemma_arrange(v, c, more);
    }
}

/// Where packages do not require each other in a circle, one of those that
/// are left to place is ready.
pub proof fn lemma_ready_exists(
    v: PoolView,
    c: Seq<usize>,
    placed: Seq<usize>,
    rank: spec_fn(usize) -> nat,
    k: int,
) -> (r: int)
    requires
        acyclic(v, c, rank),
        0 <= k < c.len(),
        !placed.contains(c[k]),
    ensures
        0 <= r < c.len(),
        eligible(v, c, placed, true, c[r]),
    decreases rank(c[k]),
{
    if ready(v, c, placed, c[k]) {
        k
    } else {
        let j = choose|j: int|
            0 <= j < c.len() && #[trigger] c[j] != c[k] && depends_on(v, c[k] as int, c[j] as int)
                && !placed.contains(c[j]);
        lemma_ready_exists(v, c, placed, rank, j)
    }
}

/// Where packages do not require each other in a circle, arranging keeps
/// every package behind the packages it requires.
pub proof fn lemma_arrange_dependencies_first(
    v: PoolView,
    c: Seq<usize>,
    placed: Seq<usize>,
    rank: spec_fn(usize) -> nat,
)
    requires
        c.no_duplicates(),
        placed.no_duplicates(),
        within(placed, c),
        acyclic(v, c, rank),
        dependencies_first(v, c, placed),
    ensures
        dependencies_first(v, c, arrange(v, c, placed)),
    decreases c.len() - placed.len(),
{
    if placed.len() < c.len() {
        lemma_next(v, c, placed);
        let s = next(v, c, placed);
        let more = placed.push(s);
        let k = lemma_one_left(c, placed);
        let r = lemma_ready_exists(v, c, placed, rank, k);
        lemma_pick(v, c, placed, true, c.len() as int);
        assert(pick(v, c, placed, true, c.len() as int) is Some);
        assert(ready(v, c, placed, s));
        assert forall|i: int, j: int| 0 <= i < more.len() && 0 <= j < more.len() && i != j implies more[i]
            != more[j] by {
            if i < placed.len() && j < placed.len() {
            } else if i < placed.len() {
                assert(placed.contains(placed[i]));
            } else {
                assert(placed.contains(placed[j]));
            }
        }
        assert forall|i: int| 0 <= i < more.len() implies c.contains(#[trigger] more[i]) by {
            if i < placed.len() {
                assert(more[i] == placed[i]);
            }
        }
        assert forall|p: int, j: int|
            0 <= p < more.len() && 0 <= j < c.len() && c[j] != more[p] && depends_on(
                v,
                #[trigger] more[p] as int,
                #[trigger] c[j] as int,
            ) implies exists|q: int| 0 <= q < p && more[q] == c[j] by {
            if p < placed.len() {
                assert(more[p] == placed[p]);
                let q = choose|q: int| 0 <= q < p && placed[q] == c[j];
                assert(more[q] == c[j]);
            } else {
                assert(placed.contains(c[j]));
                let q = placed.index_of(c[j]);
                assert(more[q] == c[j]);
            }
        }
        lemma_arrange_dependencies_first(v, c, more, rank);
    }
}

/// The order of a transaction holds every package of the solution once.
/// Where the packages do not require each other in a circle, each package
/// stands behind every package that it requires.
pub proof fn lemma_ordered(v: PoolView, c: Seq<usize>)
    requires
        c.no_duplicates(),
    ensures
        ordered(v, c).len() == c.len(),
        ordered(v, c).no_duplicates(),
        within(ordered(v, c), c),
        within(c, ordered(v, c)),
        forall|rank: spec_fn(usize) -> nat| #[trigger]
            acyclic(v, c, rank) ==> dependencies_first(v, c, ordered(v, c)),
{
    lemma_arrange(v, c, Seq::empty());
    assert forall|rank: spec_fn(usize) -> nat| #[trigger] acyclic(v, c, rank) implies dependencies_first(
        v,
        c,
        ordered(v, c),
    ) by {
        lemma_arrange_dependencies_first(v, c, Seq::empty(), rank);
    }
}

/// Packages with different names are different packages.
pub proof fn lemma_names_distinct(v: PoolView, c: Seq<usize>)
    requires
        names_distinct(v, c),
    ensures
        c.no_duplicates(),
{
    assert forall|i: int, j: int| 0 <= i < c.len() && 0 <= j < c.len() && i != j implies c[i]
        != c[j] by {
        if i < j {
            assert(v.solvables[c[i] as int].name != v.solvables[c[j] as int].name);
        } else {
            assert(v.solvables[c[j] as int].name != v.solvables[c[i] as int].name);
        }
    }
}

/// Whether package `s` requires package `t`.
fn requires_package(pool: &Pool, s: usize, t: usize) -> (b: bool)
    requires
        s < pool@.solvables.len(),
        t < pool@.solvables.len(),
    ensures
        b == depends_on(pool@, s as int, t as int),
{
    let list = pool.depends_of(s);
    let _ = pool.solvable_count();
    proof {
        assert(pool@.solvable_wf(pool@.solvables[s as int]));
    }
    let mut k: usize = 0;
    while k < list.len()
        invariant
            0 <= k <= list@.len(),
            list@ == pool@.solvables[s as int].depends,
            t < pool@.solvables.len(),
            forall|j: int| 0 <= j < list@.len() ==> (#[trigger] list@[j]) < pool@.deps.len(),
            forall|j: int| 0 <= j < k ==> !pool@.provides(t as int, #[trigger] list@[j] as int),
        decreases list@.len() - k,
    {
        if pool.satisfies(t, list[k]) {
            return true;
        }
        k += 1;
    }
    false
}

/// For each package of `c`, which packages of `c` it requires.
fn requirement_table(pool: &Pool, c: &Vec<usize>) -> (table: Vec<Vec<bool>>)
    requires
        members_valid(pool@, c@),
    ensures
        table@.len() == c@.len(),
        forall|i: int| 0 <= i < c@.len() ==> (#[trigger] table@[i])@.len() == c@.len(),
        forall|i: int, j: int|
            0 <= i < c@.len() && 0 <= j < c@.len() ==> (#[trigger] table@[i]@[j]) == depends_on(
                pool@,
                c@[i] as int,
                c@[j] as int,
            ),
{
    let mut table: Vec<Vec<bool>> = Vec::new();
    let mut i: usize = 0;
    while i < c.len()
        invariant
            0 <= i <= c@.len(),
            members_valid(pool@, c@),
            table@.len() == i,
            forall|a: int| 0 <= a < i ==> (#[trigger] table@[a])@.len() == c@.len(),
            forall|a: int, b: int|
                0 <= a < i && 0 <= b < c@.len() ==> (#[trigger] table@[a]@[b]) == depends_on(
                    pool@,
                    c@[a] as int,
                    c@[b] as int,
                ),
        decreases c@.len() - i,
    {
        let mut row: Vec<bool> = Vec::new();
        let mut j: usize = 0;
        while j < c.len()
            invariant
                0 <= j <= c@.len(),
                i < c@.len(),
                members_valid(pool@, c@),
                row@.len() == j,
                forall|b: int|
                    0 <= b < j ==> (#[trigger] row@[b]) == depends_on(
                        pool@,
                        c@[i as int] as int,
                        c@[b] as int,
                    ),
            decreases c@.len() - j,
        {
            let b = requires_package(pool, c[i], c[j]);
            row.push(b);
            j += 1;
        }
        table.push(row);
        i += 1;
    }
    table
}

/// Whether the package at position `k` is ready.
fn is_ready(table: &Vec<Vec<bool>>, done: &Vec<bool>, k: usize) -> (b: bool)
    requires
        k < table@.len(),
        done@.len() == table@.len(),
        forall|i: int| 0 <= i < table@.len() ==> (#[trigger] table@[i])@.len() == table@.len(),
    ensures
        b == (forall|j: int|
            0 <= j < done@.len() && j != k && #[trigger] table@[k as int]@[j] ==> done@[j]),
{
    let row = &table[k];
    let mut j: usize = 0;
    while j < row.len()
        invariant
            0 <= j <= row@.len(),
            row@.len() == done@.len(),
            k < table@.len(),
            row@ == table@[k as int]@,
            forall|a: int| 0 <= a < j && a != k && #[trigger] row@[a] ==> done@[a],
        decreases row@.len() - j,
    {
        if j != k && row[j] && !done[j] {
            return false;
        }
        j += 1;
    }
    true
}

/// The position of the package that `pick` finds.
fn pick_position(
    c: &Vec<usize>,
    table: &Vec<Vec<bool>>,
    done: &Vec<bool>,
    strict: bool,
    Ghost(v): Ghost<PoolView>,
    Ghost(placed): Ghost<Seq<usize>>,
) -> (found: Option<usize>)
    requires
        c@.no_duplicates(),
        table@.len() == c@.len(),
        done@.len() == c@.len(),
        forall|i: int| 0 <= i < c@.len() ==> (#[trigger] table@[i])@.len() == c@.len(),
        forall|i: int, j: int|
            0 <= i < c@.len() && 0 <= j < c@.len() ==> (#[trigger] table@[i]@[j]) == depends_on(
                v,
                c@[i] as int,
                c@[j] as int,
            ),
        forall|j: int| 0 <= j < c@.len() ==> (#[trigger] done@[j]) == placed.contains(c@[j]),
    ensures
        found is Some == pick(v, c@, placed, strict, c@.len() as int) is Some,
        found matches Some(k) ==> k < c@.len() && Some(c@[k as int]) == pick(
            v,
            c@,
            placed,
            strict,
            c@.len() as int,
        ),
{
    let mut best: Option<usize> = None;
    let mut k: usize = 0;
    while k < c.len()
        invariant
            0 <= k <= c@.len(),
            c@.no_duplicates(),
            table@.len() == c@.len(),
            done@.len() == c@.len(),
            forall|i: int| 0 <= i < c@.len() ==> (#[trigger] table@[i])@.len() == c@.len(),
            forall|i: int, j: int|
                0 <= i < c@.len() && 0 <= j < c@.len() ==> (#[trigger] table@[i]@[j])
                    == depends_on(v, c@[i] as int, c@[j] as int),
            forall|j: int| 0 <= j < c@.len() ==> (#[trigger] done@[j]) == placed.contains(c@[j]),
            best is Some == pick(v, c@, placed, strict, k as int) is Some,
            best matches Some(b) ==> b < k && Some(c@[b as int]) == pick(
                v,
                c@,
                placed,
                strict,
                k as int,
            ),
        decreases c@.len() - k,
    {
        let free = !done[k];
        let fit = free && (!strict || is_ready(table, done, k));
        proof {
            let s = c@[k as int];
            if free && strict {
                if is_ready_spec(table@, done@, k as int) {
                    assert forall|j: int|
                        0 <= j < c@.len() && #[trigger] c@[j] != s && depends_on(
                            v,
                            s as int,
                            c@[j] as int,
                        ) implies placed.contains(c@[j]) by {
                        assert(table@[k as int]@[j]);
                        assert(done@[j]);
                    }
                } else {
                    let j = choose|j: int|
                        0 <= j < done@.len() && j != k && #[trigger] table@[k as int]@[j]
                            && !done@[j];
                    assert(c@[j] != s);
                    assert(depends_on(v, s as int, c@[j] as int));
                    assert(!placed.contains(c@[j]));
                }
            }
            assert(fit == eligible(v, c@, placed, strict, s));
        }
        let better = match best {
            Some(b) => c[k] < c[b],
            None => true,
        };
        if fit && better {
            best = Some(k);
        }
        k += 1;
    }
    best
}

/// What `is_ready` computes, as a formula.
spec fn is_ready_spec(table: Seq<Vec<bool>>, done: Seq<bool>, k: int) -> bool {
    forall|j: int| 0 <= j < done.len() && j != k && #[trigger] table[k]@[j] ==> done[j]
}

/// The packages of the solution in the order in which a transaction handles
/// them.
pub(crate) fn arrange_packages(pool: &Pool, c: &Vec<usize>) -> (r: Vec<usize>)
    requires
        members_valid(pool@, c@),
        c@.no_duplicates(),
    ensures
        r@ == ordered(pool@, c@),
{
    let ghost v = pool@;
    let table = requirement_table(pool, c);
    let mut done: Vec<bool> = Vec::new();
    let mut i: usize = 0;
    while i < c.len()
        invariant
            0 <= i <= c@.len(),
            done@.len() == i,
            forall|j: int| 0 <= j < i ==> !(#[trigger] done@[j]),
        decreases c@.len() - i,
    {
        done.push(false);
        i += 1;
    }
    let mut r: Vec<usize> = Vec::new();
    while r.len() < c.len()
        invariant
            v == pool@,
            c@.no_duplicates(),
            r@.no_duplicates(),
            within(r@, c@),
            r@.len() <= c@.len(),
            table@.len() == c@.len(),
            done@.len() == c@.len(),
            forall|i: int| 0 <= i < c@.len() ==> (#[trigger] table@[i])@.len() == c@.len(),
            forall|i: int, j: int|
                0 <= i < c@.len() && 0 <= j < c@.len() ==> (#[trigger] table@[i]@[j])
                    == depends_on(v, c@[i] as int, c@[j] as int),
            forall|j: int| 0 <= j < c@.len() ==> (#[trigger] done@[j]) == r@.contains(c@[j]),
            ordered(v, c@) == arrange(v, c@, r@),
        decreases c@.len() - r@.len(),
    {
        let ghost placed = r@;
        proof {
            lemma_next(v, c@, placed);
            lemma_pick(v, c@, placed, true, c@.len() as int);
            lemma_pick(v, c@, placed, false, c@.len() as int);
            let k = lemma_one_left(c@, placed);
            assert(eligible(v, c@, placed, false, c@[k]));
        }
        let k = match pick_position(c, &table, &done, true, Ghost(v), Ghost(placed)) {
            Some(k) => k,
            None => match pick_position(c, &table, &done, false, Ghost(v), Ghost(placed)) {
                Some(k) => k,
                None => vstd::pervasive::unreached(),
            },
        };
        assert(c@[k as int] == next(v, c@, placed));
        done.set(k, true);
        r.push(c[k]);
        proof {
            let s = c@[k as int];
            assert forall|i: int, j: int| 0 <= i < r@.len() && 0 <= j < r@.len() && i != j implies r@[i]
                != r@[j] by {
                if i < placed.len() && j < placed.len() {
                } else if i < placed.len() {
                    assert(placed.contains(placed[i]));
                } else {
                    assert(placed.contains(placed[j]));
                }
            }
            assert forall|i: int| 0 <= i < r@.len() implies c@.contains(#[trigger] r@[i]) by {
                if i < placed.len() {
                    assert(r@[i] == placed[i]);
                }
            }
            assert forall|j: int| 0 <= j < c@.len() implies (#[trigger] done@[j]) == r@.contains(
                c@[j],
            ) by {
                if j == k {
                    assert(r@[placed.len() as int] == c@[j]);
                } else {
                    if placed.contains(c@[j]) {
                        let q = placed.index_of(c@[j]);
                        assert(r@[q] == c@[j]);
                    }
                    if r@.contains(c@[j]) {
                        let q = r@.index_of(c@[j]);
                        if q < placed.len() {
                            assert(placed[q] == c@[j]);
                        }
                    }
                }
            }
            lemma_within_bounded(r@, c@);
        }
    }
    r
}

} // verus!
