//! The interning arena. A [`Pool`] maps strings, version-build pairs and
//! dependency expressions to small identifiers and owns the repositories and
//! their package records.

use vstd::prelude::*;
use crate::conda_types::{
    match_spec_name, match_spec_parses, normalize_package_name, normalized_package_name,
    spec_accepts, version_parses,
};
use crate::match_spec::{match_spec_package_name, MatchSpec};
use crate::record::{
    lemma_first_unparsable, record_problem, texts, PackageRecord, RecordView,
};
use crate::repo::Repo;
use crate::version_order::{version_order, VersionOrder};

verus! {

/// How much the pool reports while it works. The level is kept for whoever
/// prints diagnostics; no result of the library depends on it.
#[derive(Clone, Copy, Debug, PartialEq, Eq, Structural)]
pub enum Verbosity {
    /// Nothing is reported.
    Quiet,
    /// Only the outline of a run.
    Low,
    /// Each decision.
    Medium,
    /// Everything.
    Extreme,
}

impl Verbosity {
    /// The level as a number: the higher, the more is reported.
    pub open spec fn rank(self) -> int {
        match self {
            Verbosity::Quiet => 0,
            Verbosity::Low => 1,
            Verbosity::Medium => 2,
            Verbosity::Extreme => 3,
        }
    }

    /// The level as a number.
    pub fn level(&self) -> (n: u8)
        ensures
            n == self.rank(),
    {
        match self {
            Verbosity::Quiet => 0,
            Verbosity::Low => 1,
            Verbosity::Medium => 2,
            Verbosity::Extreme => 3,
        }
    }
}

/// A dependency expression as the pool holds it.
pub struct DepView {
    /// The normalized name of the package asked for.
    pub name: Seq<char>,
    /// The expression as it was written.
    pub text: Seq<char>,
}

/// A repository as the pool holds it.
pub struct RepoView {
    /// The name the repository was created with.
    pub name: Seq<char>,
    /// `false` once the repository has been deleted.
    pub alive: bool,
}

/// One installable package as the pool holds it.
pub struct SolvableView {
    /// The repository the package belongs to.
    pub repo: usize,
    /// The normalized package name.
    pub name: Seq<char>,
    /// The version.
    pub version: Seq<char>,
    /// The build string.
    pub build: Seq<char>,
    /// The build number.
    pub build_number: u64,
    /// The platform directory.
    pub subdir: Seq<char>,
    /// The identifiers of the run requirements.
    pub depends: Seq<usize>,
    /// The identifiers of the constraints on other packages.
    pub constrains: Seq<usize>,
}

/// The contents of a pool as mathematical values. Identifiers are positions
/// in the sequences.
pub struct PoolView {
    /// The interned strings.
    pub strings: Seq<Seq<char>>,
    /// The interned pairs of a version and a build string.
    pub version_builds: Seq<(Seq<char>, Seq<char>)>,
    /// The interned dependency expressions.
    pub deps: Seq<DepView>,
    /// The repositories, in the order of their creation.
    pub repos: Seq<RepoView>,
    /// The packages of all repositories, in the order of their registration.
    pub solvables: Seq<SolvableView>,
    /// The repository that holds the installed packages, if one was named.
    pub installed: Option<usize>,
    /// Whether the index of providers is up to date.
    pub whatprovides: bool,
    /// The level of diagnostics.
    pub verbosity: Verbosity,
    /// The tag of the pool, which its handles carry.
    pub tag: u64,
}

/// The position of `item` in a table, which is its identifier, and the table
/// after the item has been interned: unchanged where the table holds the item
/// already, one longer where it does not.
pub open spec fn intern_in<T>(table: Seq<T>, item: T) -> (Seq<T>, usize) {
    if table.contains(item) {
        (table, table.index_of(item) as usize)
    } else {
        (table.push(item), table.len() as usize)
    }
}

/// Interning is idempotent: a second call gives the identifier of the first
/// and leaves the table as the first call left it.
pub proof fn lemma_intern_idempotent<T>(table: Seq<T>, item: T)
    requires
        table.len() <= usize::MAX,
    ensures
        intern_in(intern_in(table, item).0, item) == intern_in(table, item),
        intern_in(table, item).0[intern_in(table, item).1 as int] == item,
{
    let (t1, i1) = intern_in(table, item);
    if table.contains(item) {
        table.index_of_first_ensures(item);
    } else {
        assert(t1[table.len() as int] == item);
        assert(t1.contains(item));
        let j = t1.index_of(item);
        assert(t1[j] == item);
        assert(j == table.len()) by {
            if j < table.len() {
                assert(table[j] == item);
                assert(table.contains(item));
            }
        }
    }
}


impl PoolView {
    /// The contents of a pool that holds nothing.
    pub open spec fn empty() -> PoolView {
        PoolView {
            strings: Seq::empty(),
            version_builds: Seq::empty(),
            deps: Seq::empty(),
            repos: Seq::empty(),
            solvables: Seq::empty(),
            installed: None,
            whatprovides: false,
            verbosity: Verbosity::Quiet,
            tag: 0,
        }
    }

    /// Whether a handle with the given identifier and tag stands for a
    /// repository of this pool: the tag is that of the pool, and the
    /// repository exists and has not been deleted.
    pub open spec fn holds(self, repo: usize, tag: u64) -> bool {
        &&& tag == self.tag
        &&& repo < self.repos.len()
        &&& self.repos[repo as int].alive
    }

    /// The contents after `text` has been interned as a string.
    pub open spec fn with_string(self, text: Seq<char>) -> PoolView {
        PoolView { strings: intern_in(self.strings, text).0, ..self }
    }

    /// The identifier that `text` has, or gets, as a string.
    pub open spec fn string_id(self, text: Seq<char>) -> usize {
        intern_in(self.strings, text).1
    }

    /// The contents after the pair of `version` and `build` has been
    /// interned: both strings are interned first, then the pair.
    pub open spec fn with_version_build(self, version: Seq<char>, build: Seq<char>) -> PoolView {
        let a = self.with_string(version).with_string(build);
        PoolView { version_builds: intern_in(a.version_builds, (version, build)).0, ..a }
    }

    /// The identifier that the pair of `version` and `build` has, or gets.
    pub open spec fn version_build_id(self, version: Seq<char>, build: Seq<char>) -> usize {
        intern_in(self.version_builds, (version, build)).1
    }

    /// The texts of the interned dependency expressions.
    pub open spec fn dep_texts(self) -> Seq<Seq<char>> {
        Seq::new(self.deps.len(), |i: int| self.deps[i].text)
    }

    /// The contents after the dependency expression `text`, which asks for
    /// the package `name`, has been interned: both strings are interned
    /// first, then the expression.
    pub open spec fn with_dep(self, name: Seq<char>, text: Seq<char>) -> PoolView {
        let a = self.with_string(name).with_string(text);
        if a.dep_texts().contains(text) {
            a
        } else {
            PoolView { deps: a.deps.push(DepView { name, text }), ..a }
        }
    }

    /// The identifier that the dependency expression `text` has, or gets.
    pub open spec fn dep_id(self, text: Seq<char>) -> usize {
        intern_in(self.dep_texts(), text).1
    }

    /// The contents after the dependency expressions `texts` have been
    /// interned one after the other.
    pub open spec fn with_deps(self, texts: Seq<Seq<char>>) -> PoolView
        decreases texts.len(),
    {
        if texts.len() == 0 {
            self
        } else {
            self.with_deps(texts.drop_last()).with_dep(
                match_spec_name(texts.last()).unwrap(),
                texts.last(),
            )
        }
    }

    /// The identifiers of the dependency expressions `texts`.
    pub open spec fn dep_ids(self, texts: Seq<Seq<char>>) -> Seq<usize> {
        Seq::new(texts.len(), |i: int| self.dep_texts().index_of(texts[i]) as usize)
    }

    /// The contents after an empty repository with the given name has been
    /// created. Its identifier is the number of repositories before.
    pub open spec fn with_repo(self, name: Seq<char>) -> PoolView {
        let a = self.with_string(name);
        PoolView { repos: a.repos.push(RepoView { name, alive: true }), whatprovides: false, ..a }
    }

    /// The contents after repository `r` has been deleted: its packages stay
    /// in place and satisfy nothing any more.
    pub open spec fn without_repo(self, r: usize) -> PoolView {
        if r < self.repos.len() {
            PoolView {
                repos: self.repos.update(
                    r as int,
                    RepoView { name: self.repos[r as int].name, alive: false },
                ),
                installed: if self.installed == Some(r) {
                    None
                } else {
                    self.installed
                },
                whatprovides: false,
                ..self
            }
        } else {
            self
        }
    }

    /// The contents after repository `r` has been named as the one that
    /// holds the installed packages; unchanged where `r` is no repository or
    /// has been deleted.
    pub open spec fn with_installed(self, r: usize) -> PoolView {
        if r < self.repos.len() && self.repos[r as int].alive {
            PoolView { installed: Some(r), ..self }
        } else {
            self
        }
    }

    /// The contents after the record `r` has been registered in repository
    /// `repo`: its name in normalized form, its version-build pair, its
    /// platform directory and its expressions are interned in this order, and
    /// a package is appended.
    pub open spec fn with_record(self, repo: usize, r: RecordView) -> PoolView {
        let name = normalized_package_name(r.name).unwrap();
        let a = (PoolView { whatprovides: false, ..self }).with_string(name).with_version_build(
            r.version,
            r.build,
        ).with_string(r.subdir).with_deps(r.depends).with_deps(r.constrains);
        PoolView {
            solvables: a.solvables.push(
                SolvableView {
                    repo,
                    name,
                    version: r.version,
                    build: r.build,
                    build_number: r.build_number,
                    subdir: r.subdir,
                    depends: a.dep_ids(r.depends),
                    constrains: a.dep_ids(r.constrains),
                },
            ),
            ..a
        }
    }

    /// The contents after the records have been registered in repository
    /// `repo`, in their order.
    pub open spec fn with_records(self, repo: usize, records: Seq<RecordView>) -> PoolView
        decreases records.len(),
    {
        if records.len() == 0 {
            self
        } else {
            self.with_records(repo, records.drop_last()).with_record(repo, records.last())
        }
    }
}

/// The records of a list as mathematical values.
pub open spec fn record_views(records: Seq<PackageRecord>) -> Seq<RecordView> {
    Seq::new(records.len(), |i: int| records[i]@)
}

/// Whether package `p` satisfies the dependency expression `q`: its
/// repository still exists, it has the name that the expression asks for, and
/// the expression accepts its version and build.
pub open spec fn provides(repos: Seq<RepoView>, p: SolvableView, q: DepView) -> bool {
    &&& repos[p.repo as int].alive
    &&& p.name == q.name
    &&& spec_accepts(q.text, p.name, p.version, p.build, p.build_number)
}

/// Whether package `a` is tried before package `b` where both satisfy an
/// expression: it has the newer version, or the same version and the higher
/// build number.
pub open spec fn prefers(a: SolvableView, b: SolvableView) -> bool {
    match version_order(a.version, b.version) {
        VersionOrder::Newer => true,
        VersionOrder::Same => a.build_number > b.build_number,
        VersionOrder::Older => false,
    }
}

/// Where package `s` goes into the list `list` of preferred packages: before
/// the first package at or after `from` that it is preferred to, or at the
/// end.
pub open spec fn insert_position(
    solvables: Seq<SolvableView>,
    list: Seq<usize>,
    s: int,
    from: int,
) -> int
    decreases list.len() - from,
{
    if from < 0 || from >= list.len() {
        list.len() as int
    } else if prefers(solvables[s], solvables[list[from] as int]) {
        from
    } else {
        insert_position(solvables, list, s, from + 1)
    }
}

/// The packages among the first `n` that satisfy the expression `q`, the
/// preferred ones first; among packages of which none is preferred, the one
/// registered earlier comes first.
pub open spec fn candidates_among(
    repos: Seq<RepoView>,
    solvables: Seq<SolvableView>,
    q: DepView,
    n: int,
) -> Seq<usize>
    decreases n,
{
    if n <= 0 {
        Seq::empty()
    } else {
        let rest = candidates_among(repos, solvables, q, n - 1);
        if provides(repos, solvables[n - 1], q) {
            rest.insert(insert_position(solvables, rest, n - 1, 0), (n - 1) as usize)
        } else {
            rest
        }
    }
}

/// The position that `insert_position` gives lies between `from` and the end
/// of the list, and the new package is preferred to none of the packages that
/// it passes.
pub proof fn lemma_insert_position(
    solvables: Seq<SolvableView>,
    list: Seq<usize>,
    s: int,
    from: int,
)
    requires
        0 <= from <= list.len(),
    ensures
        from <= insert_position(solvables, list, s, from) <= list.len(),
        forall|k: int|
            from <= k < insert_position(solvables, list, s, from) ==> !prefers(
                solvables[s],
                solvables[#[trigger] list[k] as int],
            ),
        insert_position(solvables, list, s, from) < list.len() ==> prefers(
            solvables[s],
            solvables[list[insert_position(solvables, list, s, from)] as int],
        ),
    decreases list.len() - from,
{
    if from < list.len() && !prefers(solvables[s], solvables[list[from] as int]) {
        lemma_insert_position(solvables, list, s, from + 1);
    }
}

/// The candidates are exactly the packages among the first `n` that satisfy
/// the expression, each of them once.
pub proof fn lemma_candidates_among(
    repos: Seq<RepoView>,
    solvables: Seq<SolvableView>,
    q: DepView,
    n: int,
)
    requires
        0 <= n <= solvables.len(),
        solvables.len() <= usize::MAX,
    ensures
        candidates_among(repos, solvables, q, n).len() <= n,
        candidates_among(repos, solvables, q, n).no_duplicates(),
        forall|k: int|
            0 <= k < candidates_among(repos, solvables, q, n).len() ==> {
                &&& (#[trigger] candidates_among(repos, solvables, q, n)[k]) < n
                &&& provides(repos, solvables[candidates_among(repos, solvables, q, n)[k] as int], q)
            },
        forall|s: int|
            0 <= s < n && #[trigger] provides(repos, solvables[s], q) ==> candidates_among(
                repos,
                solvables,
                q,
                n,
            ).contains(s as usize),
    decreases n,
{
    if n > 0 {
        let rest = candidates_among(repos, solvables, q, n - 1);
        lemma_candidates_among(repos, solvables, q, n - 1);
        if provides(repos, solvables[n - 1], q) {
            let pos = insert_position(solvables, rest, n - 1, 0);
            lemma_insert_position(solvables, rest, n - 1, 0);
            let c = rest.insert(pos, (n - 1) as usize);
            rest.insert_ensures(pos, (n - 1) as usize);
            assert forall|k: int| 0 <= k < c.len() implies (#[trigger] c[k]) < n && provides(
                repos,
                solvables[c[k] as int],
                q,
            ) by {
                if k < pos {
                    assert(c[k] == rest[k]);
                } else if k > pos {
                    assert(c[k] == rest[k - 1]);
                }
            }
            assert forall|s: int| 0 <= s < n && #[trigger] provides(
                repos,
                solvables[s],
                q,
            ) implies c.contains(s as usize) by {
                if s == n - 1 {
                    assert(c[pos] == s as usize);
                } else {
                    assert(rest.contains(s as usize));
                    let k = rest.index_of(s as usize);
                    if k < pos {
                        assert(c[k] == s as usize);
                    } else {
                        assert(c[k + 1] == s as usize);
                    }
                }
            }
            assert forall|i: int, j: int| 0 <= i < c.len() && 0 <= j < c.len() && i != j implies c[i]
                != c[j] by {
                let a = if i < pos { i } else { i - 1 };
                let b = if j < pos { j } else { j - 1 };
                if i != pos {
                    assert(c[i] == rest[a]);
                }
                if j != pos {
                    assert(c[j] == rest[b]);
                }
            }
        }
    }
}

impl PoolView {
    /// The invariant of a pool: nothing is interned twice, every dependency
    /// expression and every version parses, and every reference points to
    /// something the pool holds.
    pub open spec fn wf(self) -> bool {
        &&& self.strings.no_duplicates()
        &&& self.version_builds.no_duplicates()
        &&& forall|i: int, j: int|
            0 <= i < j < self.deps.len() ==> (#[trigger] self.deps[i]).text != (
            #[trigger] self.deps[j]).text
        &&& forall|d: int|
            0 <= d < self.deps.len() ==> {
                &&& match_spec_parses((#[trigger] self.deps[d]).text)
                &&& match_spec_name(self.deps[d].text) == Some(self.deps[d].name)
            }
        &&& forall|s: int|
            0 <= s < self.solvables.len() ==> self.solvable_wf(#[trigger] self.solvables[s])
        &&& self.installed matches Some(r) ==> r < self.repos.len()
        &&& self.strings.len() <= usize::MAX
        &&& self.version_builds.len() <= usize::MAX
        &&& self.deps.len() <= usize::MAX
        &&& self.repos.len() <= usize::MAX
        &&& self.solvables.len() <= usize::MAX
    }

    /// What the invariant asks of one package.
    pub open spec fn solvable_wf(self, p: SolvableView) -> bool {
        &&& p.repo < self.repos.len()
        &&& version_parses(p.version)
        &&& forall|k: int| 0 <= k < p.depends.len() ==> #[trigger] p.depends[k] < self.deps.len()
        &&& forall|k: int|
            0 <= k < p.constrains.len() ==> #[trigger] p.constrains[k] < self.deps.len()
    }

    /// Whether package `s` satisfies the dependency expression `d`.
    pub open spec fn provides(self, s: int, d: int) -> bool {
        provides(self.repos, self.solvables[s], self.deps[d])
    }

    /// The packages that satisfy the dependency expression `d`, in the order
    /// in which the solver tries them.
    pub open spec fn candidates(self, d: int) -> Seq<usize> {
        candidates_among(self.repos, self.solvables, self.deps[d], self.solvables.len() as int)
    }

    /// Whether package `s` belongs to the repository of installed packages.
    pub open spec fn is_installed(self, s: int) -> bool {
        self.installed == Some(self.solvables[s].repo) && self.repos[self.solvables[s].repo as int].alive
    }
}

/// Looks `text` up in `table` and appends it where the table does not hold
/// it. Returns its position.
pub(crate) fn intern_string(table: &mut Vec<String>, text: &str) -> (id: usize)
    requires
        texts(old(table)@).no_duplicates(),
    ensures
        texts(final(table)@) == intern_in(texts(old(table)@), text@).0,
        id == intern_in(texts(old(table)@), text@).1,
        texts(final(table)@).no_duplicates(),
        id < final(table)@.len(),
        final(table)@[id as int]@ == text@,
        old(table)@.len() <= final(table)@.len(),
        final(table)@.len() <= usize::MAX,
        forall|i: int| 0 <= i < old(table)@.len() ==> final(table)@[i] == old(table)@[i],
{
    let owned = text.to_owned();
    let mut i: usize = 0;
    while i < table.len()
        invariant
            0 <= i <= table@.len(),
            *table == *old(table),
            owned@ == text@,
            texts(table@).no_duplicates(),
            forall|j: int| 0 <= j < i ==> texts(table@)[j] != text@,
        decreases table@.len() - i,
    {
        if table[i] == owned {
            proof {
                let t = texts(table@);
                assert(t[i as int] == text@);
                assert(t.contains(text@));
                let k = t.index_of(text@);
                assert(t[k] == text@);
                assert(k == i);
            }
            return i;
        }
        i += 1;
    }
    proof {
        let t = texts(table@);
        assert(!t.contains(text@)) by {
            if t.contains(text@) {
                let k = t.index_of(text@);
                assert(t[k] == text@);
            }
        }
    }
    let ghost before = table@;
    table.push(owned);
    let _ = table.len();
    proof {
        assert(texts(table@) =~= texts(before).push(text@));
        assert(texts(table@).no_duplicates());
    }
    i
}


/// A dependency expression in the table: the identifiers of its name and of
/// its text among the strings.
#[derive(Clone, Copy)]
struct Dep {
    name: usize,
    text: usize,
}

/// A version-build pair in the table: the identifiers of the two strings.
#[derive(Clone, Copy)]
struct VersionBuild {
    version: usize,
    build: usize,
}

/// A repository in the table.
#[derive(Clone, Copy)]
struct RepoData {
    name: usize,
    alive: bool,
}

/// A package in the table.
struct Solvable {
    repo: usize,
    name: usize,
    version_build: usize,
    build_number: u64,
    subdir: usize,
    depends: Vec<usize>,
    constrains: Vec<usize>,
}

/// The tables of a pool.
struct Tables {
    strings: Vec<String>,
    version_builds: Vec<VersionBuild>,
    deps: Vec<Dep>,
    repos: Vec<RepoData>,
    solvables: Vec<Solvable>,
    installed: Option<usize>,
    whatprovides: Option<Vec<Vec<usize>>>,
    verbosity: Verbosity,
    tag: u64,
}

spec fn dep_view(strings: Seq<String>, d: Dep) -> DepView {
    DepView { name: strings[d.name as int]@, text: strings[d.text as int]@ }
}

spec fn version_build_view(strings: Seq<String>, p: VersionBuild) -> (Seq<char>, Seq<char>) {
    (strings[p.version as int]@, strings[p.build as int]@)
}

spec fn repo_view(strings: Seq<String>, r: RepoData) -> RepoView {
    RepoView { name: strings[r.name as int]@, alive: r.alive }
}

spec fn solvable_view(
    strings: Seq<String>,
    version_builds: Seq<VersionBuild>,
    p: Solvable,
) -> SolvableView {
    SolvableView {
        repo: p.repo,
        name: strings[p.name as int]@,
        version: strings[version_builds[p.version_build as int].version as int]@,
        build: strings[version_builds[p.version_build as int].build as int]@,
        build_number: p.build_number,
        subdir: strings[p.subdir as int]@,
        depends: p.depends@,
        constrains: p.constrains@,
    }
}

impl Tables {
    spec fn view(&self) -> PoolView {
        PoolView {
            strings: texts(self.strings@),
            version_builds: Seq::new(
                self.version_builds@.len(),
                |i: int| version_build_view(self.strings@, self.version_builds@[i]),
            ),
            deps: Seq::new(self.deps@.len(), |i: int| dep_view(self.strings@, self.deps@[i])),
            repos: Seq::new(self.repos@.len(), |i: int| repo_view(self.strings@, self.repos@[i])),
            solvables: Seq::new(
                self.solvables@.len(),
                |i: int| solvable_view(self.strings@, self.version_builds@, self.solvables@[i]),
            ),
            installed: self.installed,
            whatprovides: self.whatprovides is Some,
            verbosity: self.verbosity,
            tag: self.tag,
        }
    }

    /// Every identifier in the tables points into the table it is meant for.
    spec fn in_range(&self) -> bool {
        &&& forall|i: int|
            0 <= i < self.version_builds@.len() ==> {
                &&& (#[trigger] self.version_builds@[i]).version < self.strings@.len()
                &&& self.version_builds@[i].build < self.strings@.len()
            }
        &&& forall|i: int|
            0 <= i < self.deps@.len() ==> {
                &&& (#[trigger] self.deps@[i]).name < self.strings@.len()
                &&& self.deps@[i].text < self.strings@.len()
            }
        &&& forall|i: int|
            0 <= i < self.repos@.len() ==> (#[trigger] self.repos@[i]).name < self.strings@.len()
        &&& forall|i: int|
            0 <= i < self.solvables@.len() ==> {
                &&& (#[trigger] self.solvables@[i]).name < self.strings@.len()
                &&& self.solvables@[i].subdir < self.strings@.len()
                &&& self.solvables@[i].version_build < self.version_builds@.len()
            }
    }

    /// The index of providers, where there is one, holds for each dependency
    /// expression the candidates in their order.
    spec fn index_ok(&self) -> bool {
        self.whatprovides matches Some(index) ==> {
            &&& index@.len() == self.deps@.len()
            &&& forall|d: int|
                0 <= d < index@.len() ==> (#[trigger] index@[d])@ == self.view().candidates(d)
        }
    }

    spec fn wf(&self) -> bool {
        &&& self.in_range()
        &&& self.view().wf()
        &&& self.index_ok()
    }

    fn new() -> (t: Tables)
        ensures
            t.wf(),
            t.view() == PoolView::empty(),
    {
        Tables::tagged(0)
    }

    fn tagged(tag: u64) -> (t: Tables)
        ensures
            t.wf(),
            t.view() == (PoolView { tag, ..PoolView::empty() }),
    {
        let t = Tables {
            strings: Vec::new(),
            version_builds: Vec::new(),
            deps: Vec::new(),
            repos: Vec::new(),
            solvables: Vec::new(),
            installed: None,
            whatprovides: None,
            verbosity: Verbosity::Quiet,
            tag,
        };
        proof {
            assert(t.view().strings =~= Seq::empty());
            assert(t.view().version_builds =~= Seq::empty());
            assert(t.view().deps =~= Seq::empty());
            assert(t.view().repos =~= Seq::empty());
            assert(t.view().solvables =~= Seq::empty());
        }
        t
    }
}


/// Tables that differ only in that the second holds more strings show the
/// same dependency expressions, repositories and packages.
proof fn lemma_more_strings(a: Tables, b: Tables)
    requires
        a.wf(),
        a.strings@.len() <= b.strings@.len(),
        forall|i: int| 0 <= i < a.strings@.len() ==> b.strings@[i] == a.strings@[i],
        texts(b.strings@).no_duplicates(),
        b.strings@.len() <= usize::MAX,
        b.version_builds == a.version_builds,
        b.deps == a.deps,
        b.repos == a.repos,
        b.solvables == a.solvables,
        b.installed == a.installed,
        b.whatprovides == a.whatprovides,
        b.verbosity == a.verbosity,
        b.tag == a.tag,
    ensures
        b.wf(),
        b.view() == (PoolView { strings: texts(b.strings@), ..a.view() }),
{
    assert(b.view().version_builds =~= a.view().version_builds);
    assert(b.view().deps =~= a.view().deps);
    assert(b.view().repos =~= a.view().repos);
    assert(b.view().solvables =~= a.view().solvables) by {
        assert forall|i: int| 0 <= i < a.solvables@.len() implies b.view().solvables[i]
            == a.view().solvables[i] by {
            let p = a.solvables@[i];
            assert(p.version_build < a.version_builds@.len());
            let _ = a.version_builds@[p.version_build as int];
        }
    }
    assert(b.view() == (PoolView { strings: texts(b.strings@), ..a.view() }));
    assert(b.view().wf()) by {
        assert forall|s: int| 0 <= s < b.view().solvables.len() implies b.view().solvable_wf(
            #[trigger] b.view().solvables[s],
        ) by {
            assert(a.view().solvable_wf(a.view().solvables[s]));
        }
    }
}

impl Tables {
    fn intern_str(&mut self, text: &str) -> (id: usize)
        requires
            old(self).wf(),
        ensures
            final(self).wf(),
            final(self).view() == old(self).view().with_string(text@),
            id == old(self).view().string_id(text@),
            id < final(self).strings@.len(),
            final(self).strings@[id as int]@ == text@,
            old(self).strings@.len() <= final(self).strings@.len(),
            forall|i: int|
                0 <= i < old(self).strings@.len() ==> final(self).strings@[i] == old(self).strings@[i],
            final(self).version_builds == old(self).version_builds,
            final(self).deps == old(self).deps,
            final(self).repos == old(self).repos,
            final(self).solvables == old(self).solvables,
            final(self).installed == old(self).installed,
            final(self).whatprovides == old(self).whatprovides,
            final(self).verbosity == old(self).verbosity,
    {
        let id = intern_string(&mut self.strings, text);
        proof {
            lemma_more_strings(*old(self), *self);
        }
        id
    }

    #[verifier::loop_isolation(false)]
    fn intern_version_build(&mut self, version: &str, build: &str) -> (id: usize)
        requires
            old(self).wf(),
        ensures
            final(self).wf(),
            final(self).view() == old(self).view().with_version_build(version@, build@),
            id == old(self).view().with_string(version@).with_string(build@).version_build_id(
                version@,
                build@,
            ),
            id < final(self).version_builds@.len(),
            version_build_view(final(self).strings@, final(self).version_builds@[id as int]) == (
                version@,
                build@,
            ),
            final(self).deps == old(self).deps,
            final(self).repos == old(self).repos,
            final(self).solvables == old(self).solvables,
            final(self).installed == old(self).installed,
            final(self).verbosity == old(self).verbosity,
            final(self).whatprovides == old(self).whatprovides,
            old(self).strings@.len() <= final(self).strings@.len(),
            forall|i: int|
                0 <= i < old(self).strings@.len() ==> final(self).strings@[i] == old(self).strings@[i],
    {
        let v = self.intern_str(version);
        let b = self.intern_str(build);
        let ghost mid = *self;
        let ghost table = self.view().version_builds;
        let ghost pair = (version@, build@);
        proof {
            assert(texts(self.strings@)[v as int] == version@);
            assert(texts(self.strings@)[b as int] == build@);
        }
        let mut i: usize = 0;
        while i < self.version_builds.len()
            invariant
                0 <= i <= self.version_builds@.len(),
                *self == mid,
                self.wf(),
                table == self.view().version_builds,
                pair == (version@, build@),
                v < self.strings@.len(),
                b < self.strings@.len(),
                texts(self.strings@)[v as int] == version@,
                texts(self.strings@)[b as int] == build@,
                forall|j: int| 0 <= j < i ==> table[j] != pair,
            decreases self.version_builds@.len() - i,
        {
            let entry = self.version_builds[i];
            proof {
                let t = texts(self.strings@);
                assert(t[entry.version as int] == table[i as int].0);
                assert(t[entry.build as int] == table[i as int].1);
            }
            if entry.version == v && entry.build == b {
                proof {
                    assert(table[i as int] == pair);
                    assert(table.contains(pair));
                    let k = table.index_of(pair);
                    assert(table[k] == pair);
                    assert(k == i);
                }
                return i;
            }
            i += 1;
        }
        proof {
            assert(!table.contains(pair)) by {
                if table.contains(pair) {
                    let k = table.index_of(pair);
                    assert(table[k] == pair);
                }
            }
        }
        self.version_builds.push(VersionBuild { version: v, build: b });
        let _ = self.version_builds.len();
        proof {
            assert(self.view().version_builds =~= table.push(pair));
            assert(self.view().deps =~= mid.view().deps);
            assert(self.view().repos =~= mid.view().repos);
            assert(self.view().solvables =~= mid.view().solvables);
            assert(self.view().wf()) by {
                assert forall|s: int| 0 <= s < self.view().solvables.len() implies self.view().solvable_wf(
                    #[trigger] self.view().solvables[s],
                ) by {
                    assert(mid.view().solvable_wf(mid.view().solvables[s]));
                }
            }
        }
        i
    }
}


impl Tables {
    /// Whether package `s` is preferred to package `t`.
    fn is_preferred(&self, s: usize, t: usize) -> (b: bool)
        requires
            self.wf(),
            s < self.solvables@.len(),
            t < self.solvables@.len(),
        ensures
            b == prefers(self.view().solvables[s as int], self.view().solvables[t as int]),
    {
        let p = &self.solvables[s];
        let q = &self.solvables[t];
        proof {
            assert(self.view().solvable_wf(self.view().solvables[s as int]));
            assert(self.view().solvable_wf(self.view().solvables[t as int]));
        }
        let pv = self.version_builds[p.version_build].version;
        let qv = self.version_builds[q.version_build].version;
        let order = crate::version_order::compare_versions(
            self.strings[pv].as_str(),
            self.strings[qv].as_str(),
        );
        match order {
            VersionOrder::Newer => true,
            VersionOrder::Same => p.build_number > q.build_number,
            VersionOrder::Older => false,
        }
    }

    /// Whether package `s` satisfies the expression `q`.
    fn satisfies(&self, s: usize, q: Dep) -> (b: bool)
        requires
            self.wf(),
            s < self.solvables@.len(),
            q.name < self.strings@.len(),
            q.text < self.strings@.len(),
            match_spec_parses(self.strings@[q.text as int]@),
        ensures
            b == provides(
                self.view().repos,
                self.view().solvables[s as int],
                dep_view(self.strings@, q),
            ),
    {
        let p = &self.solvables[s];
        proof {
            assert(self.view().solvable_wf(self.view().solvables[s as int]));
            let t = texts(self.strings@);
            assert(t[p.name as int] == self.strings@[p.name as int]@);
            assert(t[q.name as int] == self.strings@[q.name as int]@);
            assert(self.view().repos[p.repo as int].alive == self.repos@[p.repo as int].alive);
        }
        if !self.repos[p.repo].alive {
            return false;
        }
        if p.name != q.name {
            return false;
        }
        let pair = self.version_builds[p.version_build];
        crate::conda_types::match_spec_accepts(
            self.strings[q.text].as_str(),
            self.strings[p.name].as_str(),
            self.strings[pair.version].as_str(),
            self.strings[pair.build].as_str(),
            p.build_number,
        )
    }

    /// Where package `s` goes into the list of preferred packages.
    fn position_in(&self, list: &Vec<usize>, s: usize) -> (pos: usize)
        requires
            self.wf(),
            s < self.solvables@.len(),
            forall|k: int| 0 <= k < list@.len() ==> list@[k] < self.solvables@.len(),
        ensures
            pos == insert_position(self.view().solvables, list@, s as int, 0),
            pos <= list@.len(),
    {
        let mut from: usize = 0;
        while from < list.len()
            invariant
                0 <= from <= list@.len(),
                self.wf(),
                s < self.solvables@.len(),
                forall|k: int| 0 <= k < list@.len() ==> list@[k] < self.solvables@.len(),
                insert_position(self.view().solvables, list@, s as int, 0) == insert_position(
                    self.view().solvables,
                    list@,
                    s as int,
                    from as int,
                ),
            decreases list@.len() - from,
        {
            if self.is_preferred(s, list[from]) {
                return from;
            }
            from += 1;
        }
        from
    }

    /// The packages that satisfy the expression `q`, in order of preference.
    fn compute_candidates(&self, q: Dep) -> (list: Vec<usize>)
        requires
            self.wf(),
            q.name < self.strings@.len(),
            q.text < self.strings@.len(),
            match_spec_parses(self.strings@[q.text as int]@),
        ensures
            list@ == candidates_among(
                self.view().repos,
                self.view().solvables,
                dep_view(self.strings@, q),
                self.solvables@.len() as int,
            ),
    {
        let mut list: Vec<usize> = Vec::new();
        let mut s: usize = 0;
        while s < self.solvables.len()
            invariant
                0 <= s <= self.solvables@.len(),
                self.wf(),
                q.name < self.strings@.len(),
                q.text < self.strings@.len(),
                match_spec_parses(self.strings@[q.text as int]@),
                list@ == candidates_among(
                    self.view().repos,
                    self.view().solvables,
                    dep_view(self.strings@, q),
                    s as int,
                ),
            decreases self.solvables@.len() - s,
        {
            proof {
                lemma_candidates_among(
                    self.view().repos,
                    self.view().solvables,
                    dep_view(self.strings@, q),
                    s as int,
                );
            }
            if self.satisfies(s, q) {
                let pos = self.position_in(&list, s);
                list.insert(pos, s);
            }
            s += 1;
        }
        list
    }
}


impl Tables {
    #[verifier::loop_isolation(false)]
    fn intern_dep(&mut self, name: &str, text: &str) -> (id: usize)
        requires
            old(self).wf(),
            match_spec_parses(text@),
            match_spec_name(text@) == Some(name@),
        ensures
            final(self).wf(),
            final(self).view() == old(self).view().with_dep(name@, text@),
            id == old(self).view().with_string(name@).with_string(text@).dep_id(text@),
            id < final(self).deps@.len(),
            final(self).view().deps[id as int].text == text@,
            old(self).deps@.len() <= final(self).deps@.len(),
            forall|j: int|
                0 <= j < old(self).deps@.len() ==> final(self).view().deps[j] == old(self).view().deps[j],
            old(self).strings@.len() <= final(self).strings@.len(),
            forall|i: int|
                0 <= i < old(self).strings@.len() ==> final(self).strings@[i] == old(self).strings@[i],
            final(self).version_builds == old(self).version_builds,
            final(self).repos == old(self).repos,
            final(self).solvables == old(self).solvables,
            final(self).installed == old(self).installed,
            final(self).verbosity == old(self).verbosity,
            final(self).whatprovides is Some == old(self).whatprovides is Some,
    {
        let n = self.intern_str(name);
        let t = self.intern_str(text);
        let ghost mid = *self;
        let ghost table = self.view().dep_texts();
        proof {
            assert(texts(self.strings@)[n as int] == name@);
            assert(texts(self.strings@)[t as int] == text@);
        }
        let mut i: usize = 0;
        while i < self.deps.len()
            invariant
                0 <= i <= self.deps@.len(),
                *self == mid,
                forall|j: int| 0 <= j < i ==> table[j] != text@,
            decreases self.deps@.len() - i,
        {
            let entry = self.deps[i];
            proof {
                let all = texts(self.strings@);
                assert(all[entry.text as int] == table[i as int]);
            }
            if entry.text == t {
                proof {
                    assert(table[i as int] == text@);
                    assert(table.contains(text@));
                    let k = table.index_of(text@);
                    assert(table[k] == text@);
                    assert(k == i) by {
                        if k < i {
                        } else if k > i {
                            assert(mid.view().deps[i as int].text != mid.view().deps[k].text);
                        }
                    }
                }
                return i;
            }
            i += 1;
        }
        proof {
            assert(!table.contains(text@)) by {
                if table.contains(text@) {
                    let k = table.index_of(text@);
                    assert(table[k] == text@);
                }
            }
        }
        let dep = Dep { name: n, text: t };
        let list = match &self.whatprovides {
            Some(_) => Some(self.compute_candidates(dep)),
            None => None,
        };
        self.deps.push(dep);
        let _ = self.deps.len();
        match list {
            Some(list) => {
                let mut index = Vec::new();
                std::mem::swap(&mut index, self.whatprovides.as_mut().unwrap());
                index.push(list);
                self.whatprovides = Some(index);
            },
            None => {},
        }
        proof {
            assert(self.view().version_builds =~= mid.view().version_builds);
            assert(self.view().repos =~= mid.view().repos);
            assert(self.view().solvables =~= mid.view().solvables);
            assert(self.view().deps =~= mid.view().deps.push(DepView { name: name@, text: text@ }));
            assert(self.view().wf()) by {
                assert forall|s: int| 0 <= s < self.view().solvables.len() implies self.view().solvable_wf(
                    #[trigger] self.view().solvables[s],
                ) by {
                    assert(mid.view().solvable_wf(mid.view().solvables[s]));
                }
                assert forall|a: int, b: int| 0 <= a < b < self.view().deps.len() implies (
                #[trigger] self.view().deps[a]).text != (#[trigger] self.view().deps[b]).text by {
                    if b == mid.view().deps.len() {
                        assert(table[a] == mid.view().deps[a].text);
                    }
                }
            }
        }
        i
    }
}


/// Identifiers that point at the given texts are the identifiers of those
/// texts.
proof fn lemma_dep_ids(v: PoolView, texts: Seq<Seq<char>>, ids: Seq<usize>)
    requires
        v.wf(),
        ids.len() == texts.len(),
        forall|k: int|
            0 <= k < ids.len() ==> (#[trigger] ids[k]) < v.deps.len() && v.deps[ids[k] as int].text
                == texts[k],
    ensures
        ids == v.dep_ids(texts),
{
    let table = v.dep_texts();
    assert forall|k: int| 0 <= k < ids.len() implies ids[k] == v.dep_ids(texts)[k] by {
        let i = ids[k] as int;
        assert(table[i] == texts[k]);
        assert(table.contains(texts[k]));
        let j = table.index_of(texts[k]);
        assert(table[j] == texts[k]);
        if i < j {
            assert(v.deps[i].text != v.deps[j].text);
        } else if j < i {
            assert(v.deps[j].text != v.deps[i].text);
        }
    }
    assert(ids =~= v.dep_ids(texts));
}

impl Tables {
    /// Interns the expressions of a list and returns their identifiers.
    #[verifier::loop_isolation(false)]
    fn intern_deps(&mut self, list: &Vec<String>) -> (ids: Vec<usize>)
        requires
            old(self).wf(),
            forall|k: int| 0 <= k < list@.len() ==> match_spec_parses(#[trigger] list@[k]@),
        ensures
            final(self).wf(),
            final(self).view() == old(self).view().with_deps(texts(list@)),
            ids@.len() == list@.len(),
            forall|k: int|
                0 <= k < ids@.len() ==> (#[trigger] ids@[k]) < final(self).deps@.len() && final(self).view().deps[ids@[k] as int].text == list@[k]@,
            old(self).deps@.len() <= final(self).deps@.len(),
            forall|j: int|
                0 <= j < old(self).deps@.len() ==> final(self).view().deps[j] == old(self).view().deps[j],
            old(self).strings@.len() <= final(self).strings@.len(),
            forall|i: int|
                0 <= i < old(self).strings@.len() ==> final(self).strings@[i] == old(self).strings@[i],
            final(self).version_builds == old(self).version_builds,
            final(self).repos == old(self).repos,
            final(self).solvables == old(self).solvables,
            final(self).installed == old(self).installed,
            final(self).verbosity == old(self).verbosity,
            final(self).whatprovides is Some == old(self).whatprovides is Some,
    {
        let mut ids: Vec<usize> = Vec::new();
        let mut i: usize = 0;
        let ghost all = texts(list@);
        assert(all.take(0) =~= Seq::<Seq<char>>::empty());
        while i < list.len()
            invariant
                0 <= i <= list@.len(),
                self.wf(),
                self.view() == old(self).view().with_deps(all.take(i as int)),
                ids@.len() == i,
                forall|k: int|
                    0 <= k < i ==> (#[trigger] ids@[k]) < self.deps@.len() && self.view().deps[ids@[k] as int].text
                        == list@[k]@,
                old(self).deps@.len() <= self.deps@.len(),
                forall|j: int|
                    0 <= j < old(self).deps@.len() ==> self.view().deps[j] == old(self).view().deps[j],
                old(self).strings@.len() <= self.strings@.len(),
                forall|j: int|
                    0 <= j < old(self).strings@.len() ==> self.strings@[j] == old(self).strings@[j],
                self.version_builds == old(self).version_builds,
                self.repos == old(self).repos,
                self.solvables == old(self).solvables,
                self.installed == old(self).installed,
                self.verbosity == old(self).verbosity,
                self.whatprovides is Some == old(self).whatprovides is Some,
            decreases list@.len() - i,
        {
            let text = list[i].as_str();
            let name = match match_spec_package_name(text) {
                Some(name) => name,
                None => vstd::pervasive::unreached(),
            };
            let ghost before = *self;
            let ghost seen = ids@;
            let id = self.intern_dep(name.as_str(), text);
            ids.push(id);
            proof {
                let next = all.take(i + 1);
                assert(next.drop_last() =~= all.take(i as int));
                assert(next.last() == text@);
                assert forall|k: int| 0 <= k < i + 1 implies (#[trigger] ids@[k]) < self.deps@.len()
                    && self.view().deps[ids@[k] as int].text == list@[k]@ by {
                    if k < i {
                        assert(ids@[k] == seen[k]);
                        assert(self.view().deps[seen[k] as int] == before.view().deps[seen[k] as int]);
                    }
                }
            }
            i += 1;
        }
        assert(all.take(i as int) =~= all);
        ids
    }

    /// Registers one record that has nothing wrong with it.
    fn add_record(&mut self, repo: usize, record: &PackageRecord)
        requires
            old(self).wf(),
            repo < old(self).repos@.len(),
            record_problem(record@) is None,
        ensures
            final(self).wf(),
            final(self).view() == old(self).view().with_record(repo, record@),
            final(self).solvables@.len() == old(self).solvables@.len() + 1,
            final(self).repos == old(self).repos,
            final(self).installed == old(self).installed,
            final(self).verbosity == old(self).verbosity,
            final(self).whatprovides is None,
    {
        proof {
            lemma_first_unparsable(record@.depends, 0);
            lemma_first_unparsable(record@.constrains, 0);
            assert forall|k: int| 0 <= k < record.depends@.len() implies match_spec_parses(
                #[trigger] record.depends@[k]@,
            ) by {
                assert(record@.depends[k] == record.depends@[k]@);
            }
            assert forall|k: int| 0 <= k < record.constrains@.len() implies match_spec_parses(
                #[trigger] record.constrains@[k]@,
            ) by {
                assert(record@.constrains[k] == record.constrains@[k]@);
            }
        }
        self.whatprovides = None;
        assert(self.view() == (PoolView { whatprovides: false, ..old(self).view() }));
        assert(self.wf()) by {
            assert forall|s: int| 0 <= s < self.view().solvables.len() implies self.view().solvable_wf(
                #[trigger] self.view().solvables[s],
            ) by {
                assert(old(self).view().solvable_wf(old(self).view().solvables[s]));
            }
        }
        let name = match normalize_package_name(record.name.as_str()) {
            Some(name) => name,
            None => vstd::pervasive::unreached(),
        };
        let n = self.intern_str(name.as_str());
        let pair = self.intern_version_build(record.version.as_str(), record.build.as_str());
        let ghost pair_ids = self.version_builds@[pair as int];
        let subdir = self.intern_str(record.subdir.as_str());
        let depends = self.intern_deps(&record.depends);
        let ghost mid = *self;
        let constrains = self.intern_deps(&record.constrains);
        let ghost a = self.view();
        let ghost rest = *self;
        proof {
            assert forall|k: int| 0 <= k < depends@.len() implies (#[trigger] depends@[k])
                < a.deps.len() && a.deps[depends@[k] as int].text == record@.depends[k] by {
                assert(a.deps[depends@[k] as int] == mid.view().deps[depends@[k] as int]);
            }
            assert forall|k: int| 0 <= k < constrains@.len() implies (#[trigger] constrains@[k])
                < a.deps.len() && a.deps[constrains@[k] as int].text == record@.constrains[k] by {}
            lemma_dep_ids(a, record@.depends, depends@);
            lemma_dep_ids(a, record@.constrains, constrains@);
        }
        self.solvables.push(
            Solvable {
                repo,
                name: n,
                version_build: pair,
                build_number: record.build_number,
                subdir,
                depends,
                constrains,
            },
        );
        let _ = self.solvables.len();
        proof {
            let p = SolvableView {
                repo,
                name: name@,
                version: record@.version,
                build: record@.build,
                build_number: record@.build_number,
                subdir: record@.subdir,
                depends: a.dep_ids(record@.depends),
                constrains: a.dep_ids(record@.constrains),
            };
            assert(self.strings@[n as int]@ == name@);
            assert(self.strings@[subdir as int]@ == record@.subdir);
            assert(self.version_builds@[pair as int] == pair_ids);
            assert(self.strings@[pair_ids.version as int]@ == record@.version);
            assert(self.strings@[pair_ids.build as int]@ == record@.build);
            assert(self.view().version_builds =~= a.version_builds);
            assert(self.view().deps =~= a.deps);
            assert(self.view().repos =~= a.repos);
            assert(self.view().solvables =~= a.solvables.push(p));
            assert(self.view().wf()) by {
                assert forall|s: int| 0 <= s < self.view().solvables.len() implies self.view().solvable_wf(
                    #[trigger] self.view().solvables[s],
                ) by {
                    if s < a.solvables.len() {
                        assert(a.solvable_wf(a.solvables[s]));
                    }
                }
            }
        }
    }

    /// Registers records that have nothing wrong with them.
    #[verifier::loop_isolation(false)]
    fn add_records(&mut self, repo: usize, records: &Vec<PackageRecord>)
        requires
            old(self).wf(),
            repo < old(self).repos@.len(),
            forall|i: int|
                0 <= i < records@.len() ==> record_problem((#[trigger] records@[i])@) is None,
        ensures
            final(self).wf(),
            final(self).view() == old(self).view().with_records(repo, record_views(records@)),
            final(self).solvables@.len() == old(self).solvables@.len() + records@.len(),
    {
        let ghost all = record_views(records@);
        assert(all.take(0) =~= Seq::<RecordView>::empty());
        let mut i: usize = 0;
        while i < records.len()
            invariant
                0 <= i <= records@.len(),
                self.wf(),
                self.repos == old(self).repos,
                self.view() == old(self).view().with_records(repo, all.take(i as int)),
                self.solvables@.len() == old(self).solvables@.len() + i,
            decreases records@.len() - i,
        {
            self.add_record(repo, &records[i]);
            proof {
                let next = all.take(i + 1);
                assert(next.drop_last() =~= all.take(i as int));
                assert(next.last() == records@[i as int]@);
            }
            i += 1;
        }
        assert(all.take(i as int) =~= all);
    }

    /// Creates an empty repository.
    fn create_repo(&mut self, name: &str) -> (id: usize)
        requires
            old(self).wf(),
        ensures
            final(self).wf(),
            final(self).view() == old(self).view().with_repo(name@),
            id == old(self).view().repos.len(),
    {
        let n = self.intern_str(name);
        let ghost a = *self;
        self.whatprovides = None;
        let id = self.repos.len();
        self.repos.push(RepoData { name: n, alive: true });
        let _ = self.repos.len();
        proof {
            assert(self.view().version_builds =~= a.view().version_builds);
            assert(self.view().deps =~= a.view().deps);
            assert(self.view().solvables =~= a.view().solvables);
            assert(self.view().repos =~= a.view().repos.push(RepoView { name: name@, alive: true }));
            assert(self.view().wf()) by {
                assert forall|s: int| 0 <= s < self.view().solvables.len() implies self.view().solvable_wf(
                    #[trigger] self.view().solvables[s],
                ) by {
                    assert(a.view().solvable_wf(a.view().solvables[s]));
                }
            }
        }
        id
    }

    /// Deletes a repository. Returns whether there was such a repository.
    fn delete_repo(&mut self, r: usize) -> (done: bool)
        requires
            old(self).wf(),
        ensures
            final(self).wf(),
            final(self).view() == old(self).view().without_repo(r),
            done == (r < old(self).view().repos.len()),
    {
        if r >= self.repos.len() {
            return false;
        }
        let entry = self.repos[r];
        self.whatprovides = None;
        self.repos.set(r, RepoData { name: entry.name, alive: false });
        let keep = match self.installed {
            Some(i) => i != r,
            None => true,
        };
        if !keep {
            self.installed = None;
        }
        proof {
            let a = *old(self);
            assert(self.view().version_builds =~= a.view().version_builds);
            assert(self.view().deps =~= a.view().deps);
            assert(self.view().solvables =~= a.view().solvables);
            assert(self.view().repos =~= a.view().repos.update(
                r as int,
                RepoView { name: a.view().repos[r as int].name, alive: false },
            ));
            assert(self.view().wf()) by {
                assert forall|s: int| 0 <= s < self.view().solvables.len() implies self.view().solvable_wf(
                    #[trigger] self.view().solvables[s],
                ) by {
                    assert(a.view().solvable_wf(a.view().solvables[s]));
                }
            }
        }
        true
    }

    /// Names the repository of installed packages. Returns whether `r` is a
    /// repository that has not been deleted.
    fn set_installed(&mut self, r: usize) -> (done: bool)
        requires
            old(self).wf(),
        ensures
            final(self).wf(),
            final(self).view() == old(self).view().with_installed(r),
            done == (r < old(self).view().repos.len() && old(self).view().repos[r as int].alive),
    {
        if r < self.repos.len() && self.repos[r].alive {
            self.installed = Some(r);
            proof {
                let a = *old(self);
                assert(self.view().wf()) by {
                    assert forall|s: int|
                        0 <= s < self.view().solvables.len() implies self.view().solvable_wf(
                        #[trigger] self.view().solvables[s],
                    ) by {
                        assert(a.view().solvable_wf(a.view().solvables[s]));
                    }
                }
            }
            true
        } else {
            false
        }
    }

    /// Builds the index of providers.
    #[verifier::loop_isolation(false)]
    fn create_whatprovides(&mut self)
        requires
            old(self).wf(),
        ensures
            final(self).wf(),
            final(self).view() == (PoolView { whatprovides: true, ..old(self).view() }),
    {
        let mut index: Vec<Vec<usize>> = Vec::new();
        let mut d: usize = 0;
        while d < self.deps.len()
            invariant
                0 <= d <= self.deps@.len(),
                *self == *old(self),
                index@.len() == d,
                forall|j: int| 0 <= j < d ==> (#[trigger] index@[j])@ == self.view().candidates(j),
            decreases self.deps@.len() - d,
        {
            let q = self.deps[d];
            proof {
                assert(self.view().deps[d as int] == dep_view(self.strings@, q));
                assert(match_spec_parses(self.view().deps[d as int].text));
            }
            let list = self.compute_candidates(q);
            index.push(list);
            d += 1;
        }
        self.whatprovides = Some(index);
        proof {
            let a = *old(self);
            assert(self.view() == (PoolView { whatprovides: true, ..a.view() }));
            assert(self.view().wf()) by {
                assert forall|s: int| 0 <= s < self.view().solvables.len() implies self.view().solvable_wf(
                    #[trigger] self.view().solvables[s],
                ) by {
                    assert(a.view().solvable_wf(a.view().solvables[s]));
                }
            }
        }
    }
}


/// What the pool knows of one package, as owned values.
#[derive(Debug)]
pub struct SolvableInfo {
    /// The identifier of the repository the package belongs to.
    pub repo: usize,
    /// The normalized package name.
    pub name: String,
    /// The version.
    pub version: String,
    /// The build string.
    pub build: String,
    /// The build number.
    pub build_number: u64,
    /// The platform directory.
    pub subdir: String,
}

/// The interning arena: the owner of all strings, dependency expressions,
/// repositories and packages of one resolution.
pub struct Pool {
    tables: Tables,
}

impl View for Pool {
    type V = PoolView;

    closed spec fn view(&self) -> PoolView {
        self.tables.view()
    }
}

impl Pool {
    #[verifier::type_invariant]
    spec fn consistent(&self) -> bool {
        self.tables.wf()
    }

    /// A pool that holds nothing.
    pub fn new() -> (pool: Pool)
        ensures
            pool@ == PoolView::empty(),
            pool@.wf(),
    {
        Pool { tables: Tables::new() }
    }

    /// A pool that holds nothing and has the given tag. The handles of a
    /// pool carry its tag, and a pool refuses a handle with another tag:
    /// pools that are to be told apart get different tags.
    pub fn with_tag(tag: u64) -> (pool: Pool)
        ensures
            pool@ == (PoolView { tag, ..PoolView::empty() }),
            pool@.wf(),
    {
        Pool { tables: Tables::tagged(tag) }
    }

    /// The tag of the pool.
    pub fn tag(&self) -> (tag: u64)
        ensures
            tag == self@.tag,
    {
        self.tables.tag
    }

    /// Interns a string: returns the identifier it has, and gives it one
    /// where it has none.
    pub fn intern_str(&mut self, text: &str) -> (id: usize)
        ensures
            final(self)@ == old(self)@.with_string(text@),
            id == old(self)@.string_id(text@),
            id < final(self)@.strings.len(),
            final(self)@.strings[id as int] == text@,
            final(self)@.wf(),
    {
        proof {
            use_type_invariant(&*self);
        }
        let mut tables = Tables::new();
        std::mem::swap(&mut tables, &mut self.tables);
        let id = tables.intern_str(text);
        self.tables = tables;
        id
    }

    /// Interns the pair of a version and a build string.
    pub fn intern_version_build(&mut self, version: &str, build: &str) -> (id: usize)
        ensures
            final(self)@ == old(self)@.with_version_build(version@, build@),
            id == old(self)@.with_string(version@).with_string(build@).version_build_id(
                version@,
                build@,
            ),
            id < final(self)@.version_builds.len(),
            final(self)@.version_builds[id as int] == (version@, build@),
            final(self)@.wf(),
    {
        proof {
            use_type_invariant(&*self);
        }
        let mut tables = Tables::new();
        std::mem::swap(&mut tables, &mut self.tables);
        let id = tables.intern_version_build(version, build);
        self.tables = tables;
        id
    }

    /// Interns a dependency expression. Where the index of providers is up
    /// to date it stays so: the providers of a new expression are looked up
    /// at once.
    pub fn intern_match_spec(&mut self, spec: &MatchSpec) -> (id: usize)
        ensures
            final(self)@ == old(self)@.with_dep(spec@.name, spec@.text),
            id == old(self)@.with_string(spec@.name).with_string(spec@.text).dep_id(spec@.text),
            id < final(self)@.deps.len(),
            final(self)@.deps[id as int] == (DepView { name: spec@.name, text: spec@.text }),
            final(self)@.wf(),
    {
        proof {
            use_type_invariant(&*self);
        }
        let text = spec.as_str();
        let name = spec.package_name();
        let mut tables = Tables::new();
        std::mem::swap(&mut tables, &mut self.tables);
        let id = tables.intern_dep(name, text);
        self.tables = tables;
        id
    }

    /// Creates an empty repository with the given name and registers it. The
    /// index of providers is out of date afterwards.
    pub fn create_repo(&mut self, name: &str) -> (repo: Repo)
        ensures
            final(self)@ == old(self)@.with_repo(name@),
            repo@ == old(self)@.repos.len(),
            repo.tag() == old(self)@.tag,
            final(self)@.wf(),
    {
        proof {
            use_type_invariant(&*self);
        }
        let mut tables = Tables::new();
        std::mem::swap(&mut tables, &mut self.tables);
        let id = tables.create_repo(name);
        let tag = tables.tag;
        self.tables = tables;
        Repo::new(id, tag)
    }

    /// Deletes a repository: its packages satisfy nothing any more, other
    /// repositories are not touched. Returns `false`, and changes nothing,
    /// where the handle is of another pool or the pool has no such
    /// repository.
    pub fn delete_repo(&mut self, repo: Repo) -> (done: bool)
        ensures
            final(self)@ == (if repo.tag() == old(self)@.tag {
                old(self)@.without_repo(repo@)
            } else {
                old(self)@
            }),
            done == (repo.tag() == old(self)@.tag && repo@ < old(self)@.repos.len()),
            final(self)@.wf(),
    {
        proof {
            use_type_invariant(&*self);
        }
        if repo.pool_tag() != self.tables.tag {
            return false;
        }
        let mut tables = Tables::new();
        std::mem::swap(&mut tables, &mut self.tables);
        let done = tables.delete_repo(repo.id());
        self.tables = tables;
        done
    }

    /// Names the repository that holds the installed packages. Returns
    /// `false`, and changes nothing, where the handle is of another pool or
    /// the repository does not exist or has been deleted.
    pub fn set_installed(&mut self, repo: Repo) -> (done: bool)
        ensures
            final(self)@ == (if repo.tag() == old(self)@.tag {
                old(self)@.with_installed(repo@)
            } else {
                old(self)@
            }),
            done == old(self)@.holds(repo@, repo.tag()),
            final(self)@.wf(),
    {
        proof {
            use_type_invariant(&*self);
        }
        if repo.pool_tag() != self.tables.tag {
            return false;
        }
        let mut tables = Tables::new();
        std::mem::swap(&mut tables, &mut self.tables);
        let done = tables.set_installed(repo.id());
        self.tables = tables;
        done
    }

    /// Builds the index that says which packages satisfy which dependency
    /// expression. It has to be built after the repositories are filled and
    /// before a solver is created.
    pub fn create_whatprovides(&mut self)
        ensures
            final(self)@ == (PoolView { whatprovides: true, ..old(self)@ }),
            final(self)@.wf(),
    {
        proof {
            use_type_invariant(&*self);
        }
        let mut tables = Tables::new();
        std::mem::swap(&mut tables, &mut self.tables);
        tables.create_whatprovides();
        self.tables = tables;
    }

    /// Sets the level of diagnostics. Nothing else changes.
    pub fn set_debug_level(&mut self, verbosity: Verbosity)
        ensures
            final(self)@ == (PoolView { verbosity, ..old(self)@ }),
            final(self)@.wf(),
    {
        proof {
            use_type_invariant(&*self);
        }
        let mut tables = Tables::new();
        std::mem::swap(&mut tables, &mut self.tables);
        tables.verbosity = verbosity;
        proof {
            assert(tables.view() == (PoolView { verbosity, ..old(self)@ }));
            assert(tables.view().wf()) by {
                assert forall|s: int|
                    0 <= s < tables.view().solvables.len() implies tables.view().solvable_wf(
                    #[trigger] tables.view().solvables[s],
                ) by {
                    assert(old(self)@.solvable_wf(old(self)@.solvables[s]));
                }
            }
        }
        self.tables = tables;
    }

    /// Whether a diagnostic message of the given level is to be handed to
    /// whoever listens: its level is not above the level of the pool. A
    /// message of the level `Quiet` is never handed on.
    pub fn reports(&self, level: Verbosity) -> (wanted: bool)
        ensures
            wanted == (1 <= level.rank() <= self@.verbosity.rank()),
    {
        let n = level.level();
        1 <= n && n <= self.tables.verbosity.level()
    }

    /// The level of diagnostics.
    pub fn debug_level(&self) -> (verbosity: Verbosity)
        ensures
            verbosity == self@.verbosity,
    {
        self.tables.verbosity
    }

    /// Registers records in a repository.
    pub(crate) fn add_checked_records(&mut self, repo: usize, records: &Vec<PackageRecord>)
        requires
            repo < old(self)@.repos.len(),
            forall|i: int|
                0 <= i < records@.len() ==> record_problem((#[trigger] records@[i])@) is None,
        ensures
            final(self)@ == old(self)@.with_records(repo, record_views(records@)),
            final(self)@.solvables.len() == old(self)@.solvables.len() + records@.len(),
            final(self)@.wf(),
    {
        proof {
            use_type_invariant(&*self);
        }
        let mut tables = Tables::new();
        std::mem::swap(&mut tables, &mut self.tables);
        tables.add_records(repo, records);
        self.tables = tables;
    }

    /// Whether the index of providers is up to date.
    pub fn is_whatprovides_ready(&self) -> (ready: bool)
        ensures
            ready == self@.whatprovides,
            self@.wf(),
    {
        proof {
            use_type_invariant(self);
        }
        self.tables.whatprovides.is_some()
    }

    /// The number of interned strings.
    pub fn string_count(&self) -> (n: usize)
        ensures
            n == self@.strings.len(),
            self@.wf(),
    {
        proof {
            use_type_invariant(self);
        }
        self.tables.strings.len()
    }

    /// The number of interned dependency expressions.
    pub fn dep_count(&self) -> (n: usize)
        ensures
            n == self@.deps.len(),
            self@.wf(),
    {
        proof {
            use_type_invariant(self);
        }
        self.tables.deps.len()
    }

    /// The number of repositories, deleted ones included.
    pub fn repo_count(&self) -> (n: usize)
        ensures
            n == self@.repos.len(),
            self@.wf(),
    {
        proof {
            use_type_invariant(self);
        }
        self.tables.repos.len()
    }

    /// The number of packages in all repositories.
    pub fn solvable_count(&self) -> (n: usize)
        ensures
            n == self@.solvables.len(),
            self@.wf(),
    {
        proof {
            use_type_invariant(self);
        }
        self.tables.solvables.len()
    }

    /// Whether the handle stands for a repository of this pool that has not
    /// been deleted.
    pub fn is_repo_alive(&self, repo: Repo) -> (alive: bool)
        ensures
            alive == self@.holds(repo@, repo.tag()),
    {
        proof {
            use_type_invariant(self);
        }
        let r = repo.id();
        repo.pool_tag() == self.tables.tag && r < self.tables.repos.len()
            && self.tables.repos[r].alive
    }

    /// The repository of installed packages, if one has been named.
    pub fn installed_repo(&self) -> (repo: Option<Repo>)
        ensures
            repo is Some == self@.installed is Some,
            repo matches Some(r) ==> Some(r@) == self@.installed && r.tag() == self@.tag,
    {
        match self.tables.installed {
            Some(r) => Some(Repo::new(r, self.tables.tag)),
            None => None,
        }
    }

    /// The string with the given identifier.
    pub fn string(&self, id: usize) -> (text: Option<String>)
        ensures
            text is Some == (id < self@.strings.len()),
            text matches Some(t) ==> t@ == self@.strings[id as int],
    {
        if id < self.tables.strings.len() {
            Some(self.tables.strings[id].clone())
        } else {
            None
        }
    }

    /// The text of the dependency expression with the given identifier.
    pub fn dep_text(&self, id: usize) -> (text: Option<String>)
        ensures
            text is Some == (id < self@.deps.len()),
            text matches Some(t) ==> t@ == self@.deps[id as int].text,
    {
        proof {
            use_type_invariant(self);
        }
        if id < self.tables.deps.len() {
            Some(self.tables.strings[self.tables.deps[id].text].clone())
        } else {
            None
        }
    }

    /// What the pool knows of the package with the given identifier.
    pub fn solvable_info(&self, id: usize) -> (info: Option<SolvableInfo>)
        ensures
            info is Some == (id < self@.solvables.len()),
            info matches Some(p) ==> {
                &&& p.repo == self@.solvables[id as int].repo
                &&& p.name@ == self@.solvables[id as int].name
                &&& p.version@ == self@.solvables[id as int].version
                &&& p.build@ == self@.solvables[id as int].build
                &&& p.build_number == self@.solvables[id as int].build_number
                &&& p.subdir@ == self@.solvables[id as int].subdir
            },
    {
        proof {
            use_type_invariant(self);
        }
        if id < self.tables.solvables.len() {
            let p = &self.tables.solvables[id];
            let pair = self.tables.version_builds[p.version_build];
            Some(
                SolvableInfo {
                    repo: p.repo,
                    name: self.tables.strings[p.name].clone(),
                    version: self.tables.strings[pair.version].clone(),
                    build: self.tables.strings[pair.build].clone(),
                    build_number: p.build_number,
                    subdir: self.tables.strings[p.subdir].clone(),
                },
            )
        } else {
            None
        }
    }

    /// The identifier of the name of package `s` among the strings.
    pub(crate) fn name_id(&self, s: usize) -> (id: usize)
        requires
            s < self@.solvables.len(),
        ensures
            id < self@.strings.len(),
            self@.strings[id as int] == self@.solvables[s as int].name,
            self@.wf(),
    {
        proof {
            use_type_invariant(self);
        }
        self.tables.solvables[s].name
    }

    /// The identifier of the name that expression `d` asks for.
    pub(crate) fn dep_name_id(&self, d: usize) -> (id: usize)
        requires
            d < self@.deps.len(),
        ensures
            id < self@.strings.len(),
            self@.strings[id as int] == self@.deps[d as int].name,
            self@.wf(),
    {
        proof {
            use_type_invariant(self);
        }
        self.tables.deps[d].name
    }

    /// The run requirements of package `s`.
    pub(crate) fn depends_of(&self, s: usize) -> (list: &Vec<usize>)
        requires
            s < self@.solvables.len(),
        ensures
            list@ == self@.solvables[s as int].depends,
    {
        &self.tables.solvables[s].depends
    }

    /// The constraints of package `s`.
    pub(crate) fn constrains_of(&self, s: usize) -> (list: &Vec<usize>)
        requires
            s < self@.solvables.len(),
        ensures
            list@ == self@.solvables[s as int].constrains,
    {
        &self.tables.solvables[s].constrains
    }

    /// The packages that satisfy expression `d`, in the order of preference.
    pub(crate) fn providers(&self, d: usize) -> (list: &Vec<usize>)
        requires
            self@.whatprovides,
            d < self@.deps.len(),
        ensures
            list@ == self@.candidates(d as int),
    {
        proof {
            use_type_invariant(self);
        }
        match &self.tables.whatprovides {
            Some(index) => &index[d],
            None => vstd::pervasive::unreached(),
        }
    }

    /// Whether package `s` belongs to the repository of installed packages.
    pub(crate) fn is_installed(&self, s: usize) -> (b: bool)
        requires
            s < self@.solvables.len(),
        ensures
            b == self@.is_installed(s as int),
    {
        proof {
            use_type_invariant(self);
            assert(self@.solvable_wf(self@.solvables[s as int]));
        }
        let r = self.tables.solvables[s].repo;
        match self.tables.installed {
            Some(i) => i == r && self.tables.repos[r].alive,
            None => false,
        }
    }

    /// Whether package `s` satisfies expression `d`.
    pub(crate) fn satisfies(&self, s: usize, d: usize) -> (b: bool)
        requires
            s < self@.solvables.len(),
            d < self@.deps.len(),
        ensures
            b == self@.provides(s as int, d as int),
    {
        proof {
            use_type_invariant(self);
            assert(match_spec_parses(self@.deps[d as int].text));
        }
        self.tables.satisfies(s, self.tables.deps[d])
    }

    /// How the version of package `a` stands to the version of package `b`.
    pub(crate) fn version_relation(&self, a: usize, b: usize) -> (order: VersionOrder)
        requires
            a < self@.solvables.len(),
            b < self@.solvables.len(),
        ensures
            order == version_order(
                self@.solvables[a as int].version,
                self@.solvables[b as int].version,
            ),
    {
        proof {
            use_type_invariant(self);
            assert(self@.solvable_wf(self@.solvables[a as int]));
            assert(self@.solvable_wf(self@.solvables[b as int]));
        }
        let pa = self.tables.version_builds[self.tables.solvables[a].version_build].version;
        let pb = self.tables.version_builds[self.tables.solvables[b].version_build].version;
        crate::version_order::compare_versions(
            self.tables.strings[pa].as_str(),
            self.tables.strings[pb].as_str(),
        )
    }

    /// The build number of package `s`.
    pub(crate) fn build_number_of(&self, s: usize) -> (n: u64)
        requires
            s < self@.solvables.len(),
        ensures
            n == self@.solvables[s as int].build_number,
    {
        self.tables.solvables[s].build_number
    }

    /// Whether packages `a` and `b` have the same build string.
    pub(crate) fn same_build(&self, a: usize, b: usize) -> (same: bool)
        requires
            a < self@.solvables.len(),
            b < self@.solvables.len(),
        ensures
            same == (self@.solvables[a as int].build == self@.solvables[b as int].build),
    {
        proof {
            use_type_invariant(self);
        }
        let pa = self.tables.version_builds[self.tables.solvables[a].version_build].build;
        let pb = self.tables.version_builds[self.tables.solvables[b].version_build].build;
        proof {
            let t = texts(self.tables.strings@);
            assert(t[pa as int] == self@.solvables[a as int].build);
            assert(t[pb as int] == self@.solvables[b as int].build);
        }
        pa == pb
    }
}

impl Default for Pool {
    fn default() -> (pool: Pool)
        ensures
            pool@ == PoolView::empty(),
    {
        Pool::new()
    }
}

/// Interning a string is idempotent.
pub proof fn lemma_string_interned_once(v: PoolView, text: Seq<char>)
    requires
        v.wf(),
    ensures
        v.with_string(text).with_string(text) == v.with_string(text),
        v.with_string(text).string_id(text) == v.string_id(text),
        v.with_string(text).strings.contains(text),
{
    lemma_intern_idempotent(v.strings, text);
    assert(v.with_string(text).strings[v.string_id(text) as int] == text);
}

/// Interning the pair of a version and a build string is idempotent.
pub proof fn lemma_version_build_interned_once(
    v: PoolView,
    version: Seq<char>,
    build: Seq<char>,
)
    requires
        v.wf(),
        v.strings.len() + 2 <= usize::MAX,
    ensures
        v.with_version_build(version, build).with_version_build(version, build)
            == v.with_version_build(version, build),
        v.with_version_build(version, build).with_string(version).with_string(
            build,
        ).version_build_id(version, build) == v.with_string(version).with_string(
            build,
        ).version_build_id(version, build),
{
    let a = v.with_string(version).with_string(build);
    let b = v.with_version_build(version, build);
    lemma_more_strings_bounded(v, version);
    lemma_more_strings_bounded(v.with_string(version), build);
    lemma_string_interned_once(v.with_string(version), build);
    assert(a.strings.contains(version)) by {
        lemma_string_interned_once(v, version);
        let s1 = v.with_string(version).strings;
        let i = s1.index_of(version);
        assert(s1[i] == version);
        assert(a.strings[i] == version);
    }
    assert(b.with_string(version) == b);
    assert(b.with_string(version).with_string(build) == b);
    lemma_intern_idempotent(a.version_builds, (version, build));
}

/// Interning a dependency expression is idempotent.
pub proof fn lemma_dep_interned_once(v: PoolView, name: Seq<char>, text: Seq<char>)
    requires
        v.wf(),
        v.strings.len() + 2 <= usize::MAX,
    ensures
        v.with_dep(name, text).with_dep(name, text) == v.with_dep(name, text),
        v.with_dep(name, text).with_string(name).with_string(text).dep_id(text) == v.with_string(
            name,
        ).with_string(text).dep_id(text),
{
    let a = v.with_string(name).with_string(text);
    let b = v.with_dep(name, text);
    lemma_more_strings_bounded(v, name);
    lemma_more_strings_bounded(v.with_string(name), text);
    lemma_string_interned_once(v.with_string(name), text);
    assert(a.strings.contains(name)) by {
        lemma_string_interned_once(v, name);
        let s1 = v.with_string(name).strings;
        let i = s1.index_of(name);
        assert(s1[i] == name);
        assert(a.strings[i] == name);
    }
    assert(b.with_string(name) == b);
    assert(b.with_string(name).with_string(text) == b);
    let table = a.dep_texts();
    if table.contains(text) {
        assert(b == a);
    } else {
        let more = b.dep_texts();
        assert(more =~= table.push(text));
        assert(more[table.len() as int] == text);
        assert(more.contains(text));
        let j = more.index_of(text);
        assert(more[j] == text);
        if j < table.len() {
            assert(table[j] == text);
            assert(table.contains(text));
        }
    }
}

/// Interning a string keeps the pool well formed.
proof fn lemma_more_strings_bounded(v: PoolView, text: Seq<char>)
    requires
        v.wf(),
        v.strings.len() < usize::MAX,
    ensures
        v.with_string(text).wf(),
{
    let w = v.with_string(text);
    if !v.strings.contains(text) {
        assert forall|i: int, j: int| 0 <= i < w.strings.len() && 0 <= j < w.strings.len() && i
            != j implies w.strings[i] != w.strings[j] by {
            if i < v.strings.len() && j < v.strings.len() {
            } else if i < v.strings.len() {
                assert(v.strings.contains(v.strings[i]));
            } else {
                assert(v.strings.contains(v.strings[j]));
            }
        }
    }
    assert forall|s: int| 0 <= s < w.solvables.len() implies w.solvable_wf(
        #[trigger] w.solvables[s],
    ) by {
        assert(v.solvable_wf(v.solvables[s]));
    }
}

/// A value that a pool can intern.
pub trait Intern {
    /// The contents of the pool after the value has been interned, and the
    /// identifier of the value.
    spec fn interned(&self, pool: PoolView) -> (PoolView, usize);

    /// Interning is idempotent: a second call gives the identifier of the
    /// first and leaves the pool as the first call left it.
    proof fn lemma_interned_once(&self, pool: PoolView)
        requires
            pool.wf(),
            pool.strings.len() + 2 <= usize::MAX,
        ensures
            self.interned(self.interned(pool).0) == self.interned(pool),
    ;

    /// Interns the value: returns the identifier it has in the pool, and
    /// gives it one where it has none.
    fn intern(&self, pool: &mut Pool) -> (id: usize)
        ensures
            (final(pool)@, id) == self.interned(old(pool)@),
            final(pool)@.wf(),
    ;
}

impl Intern for str {
    open spec fn interned(&self, pool: PoolView) -> (PoolView, usize) {
        (pool.with_string(self@), pool.string_id(self@))
    }

    proof fn lemma_interned_once(&self, pool: PoolView) {
        lemma_string_interned_once(pool, self@);
    }

    fn intern(&self, pool: &mut Pool) -> (id: usize) {
        pool.intern_str(self)
    }
}

impl Intern for MatchSpec {
    open spec fn interned(&self, pool: PoolView) -> (PoolView, usize) {
        (
            pool.with_dep(self@.name, self@.text),
            pool.with_string(self@.name).with_string(self@.text).dep_id(self@.text),
        )
    }

    proof fn lemma_interned_once(&self, pool: PoolView) {
        lemma_dep_interned_once(pool, self@.name, self@.text);
    }

    fn intern(&self, pool: &mut Pool) -> (id: usize) {
        pool.intern_match_spec(self)
    }
}

/// A version together with a build string.
#[derive(Debug)]
pub struct VersionAndBuild {
    /// The version.
    pub version: String,
    /// The build string.
    pub build: String,
}

impl Intern for VersionAndBuild {
    open spec fn interned(&self, pool: PoolView) -> (PoolView, usize) {
        (
            pool.with_version_build(self.version@, self.build@),
            pool.with_string(self.version@).with_string(self.build@).version_build_id(
                self.version@,
                self.build@,
            ),
        )
    }

    proof fn lemma_interned_once(&self, pool: PoolView) {
        lemma_version_build_interned_once(pool, self.version@, self.build@);
    }

    fn intern(&self, pool: &mut Pool) -> (id: usize) {
        pool.intern_version_build(self.version.as_str(), self.build.as_str())
    }
}

} // verus!
