//! Package names and package records as they are handed across the
//! boundary to Python.

use vstd::prelude::*;
use crate::order::{acyclic, arrange_packages, dependencies_first, lemma_ordered, ordered};
use crate::pool::{record_views, Pool, PoolView};
use crate::record::{PackageRecord, RecordView};
use crate::repo::first_bad_record;
use crate::search::within;

verus! {

/// A package name that is taken as it is given, without a check.
#[derive(Debug)]
pub struct PyPackageName {
    /// The name, which is expected to be normalized.
    pub normalized: String,
}

impl PyPackageName {
    /// Keeps the name as it is given.
    pub fn new(normalised_name: String) -> (name: PyPackageName)
        ensures
            name.normalized@ == normalised_name@,
    {
        PyPackageName { normalized: normalised_name }
    }
}

/// A package record.
#[derive(Debug)]
pub struct PyPackageRecord {
    /// The record.
    pub inner: PackageRecord,
}

/// How a record is written: name and version with a space between them
/// where the build string is empty, else name, version and build string with
/// `=` between them.
pub open spec fn record_text(r: RecordView) -> Seq<char> {
    if r.build.len() == 0 {
        r.name + " "@ + r.version
    } else {
        r.name + "="@ + r.version + "="@ + r.build
    }
}

impl PyPackageRecord {
    /// A record with the bare minimum: the name, the version, the build
    /// string and the platform directory. The build number is zero, and the
    /// record requires and constrains nothing.
    pub fn new(name: PyPackageName, version: String, build: String, subdir: String) -> (record:
        PyPackageRecord)
        ensures
            record.inner@ == (RecordView {
                name: name.normalized@,
                version: version@,
                build: build@,
                build_number: 0,
                subdir: subdir@,
                depends: Seq::empty(),
                constrains: Seq::empty(),
            }),
    {
        let inner = PackageRecord {
            name: name.normalized,
            version,
            build,
            build_number: 0,
            subdir,
            depends: Vec::new(),
            constrains: Vec::new(),
        };
        assert(inner@.depends =~= Seq::empty());
        assert(inner@.constrains =~= Seq::empty());
        PyPackageRecord { inner }
    }

    /// The record as a text.
    pub fn as_str(&self) -> (text: String)
        ensures
            text@ == record_text(self.inner@),
    {
        let mut text = self.inner.name.clone();
        if self.inner.build.as_str().unicode_len() == 0 {
            text.append(" ");
            text.append(self.inner.version.as_str());
        } else {
            text.append("=");
            text.append(self.inner.version.as_str());
            text.append("=");
            text.append(self.inner.build.as_str());
        }
        text
    }
}


/// The positions from zero to below `n`.
pub open spec fn positions(n: int) -> Seq<usize> {
    Seq::new(n as nat, |i: int| i as usize)
}

/// The pool in which records are sorted: one repository that holds them in
/// the order of the list.
pub open spec fn sorting_pool(records: Seq<RecordView>) -> PoolView {
    PoolView::empty().with_repo("records"@).with_records(0, records)
}

/// The positions of the records in topological order: a record comes after
/// the records of the list that satisfy one of its run requirements; among
/// records that are free to come next, the one that stands first in the list
/// comes first. Where a record of the list cannot be registered, because its
/// name, its version or one of its expressions does not parse, the order is
/// that of the list.
pub open spec fn record_order(records: Seq<RecordView>) -> Seq<usize> {
    if first_bad_record(records, 0) < records.len() {
        positions(records.len() as int)
    } else {
        ordered(sorting_pool(records), positions(records.len() as int))
    }
}

/// The positions from zero to below `n`, as a list.
fn count_up(n: usize) -> (list: Vec<usize>)
    ensures
        list@ == positions(n as int),
{
    let mut list: Vec<usize> = Vec::new();
    let mut i: usize = 0;
    while i < n
        invariant
            0 <= i <= n,
            list@.len() == i,
            forall|j: int| 0 <= j < i ==> list@[j] == j,
        decreases n - i,
    {
        list.push(i);
        i += 1;
    }
    assert(list@ =~= positions(n as int));
    list
}

/// The positions of the records in topological order. Every position
/// occurs once.
pub fn topological_order(records: &Vec<PackageRecord>) -> (order: Vec<usize>)
    ensures
        order@ == record_order(record_views(records@)),
        order@.len() == records@.len(),
        order@.no_duplicates(),
        forall|k: int| 0 <= k < order@.len() ==> (#[trigger] order@[k]) < records@.len(),
{
    let all = count_up(records.len());
    let mut pool = Pool::new();
    let repo = pool.create_repo("records");
    match repo.add_records(&mut pool, records) {
        Err(_) => all,
        Ok(_) => {
            proof {
                lemma_ordered(pool@, all@);
                assert forall|k: int| 0 <= k < ordered(pool@, all@).len() implies (
                #[trigger] ordered(pool@, all@)[k]) < records@.len() by {
                    let s = ordered(pool@, all@)[k];
                    assert(all@.contains(s));
                    let i = all@.index_of(s);
                    assert(all@[i] == s);
                }
            }
            arrange_packages(&pool, &all)
        },
    }
}

/// Sorting keeps a record behind the records it requires: where the records
/// can be registered and do not require each other in a circle, a record
/// that satisfies a run requirement of another one stands before it.
pub proof fn lemma_record_order(records: Seq<RecordView>, rank: spec_fn(usize) -> nat)
    requires
        first_bad_record(records, 0) == records.len(),
        records.len() <= usize::MAX,
        acyclic(sorting_pool(records), positions(records.len() as int), rank),
    ensures
        dependencies_first(
            sorting_pool(records),
            positions(records.len() as int),
            record_order(records),
        ),
        within(positions(records.len() as int), record_order(records)),
{
    lemma_ordered(sorting_pool(records), positions(records.len() as int));
}

impl Clone for PyPackageRecord {
    fn clone(&self) -> (copy: Self)
        ensures
            copy.inner@ == self.inner@,
    {
        PyPackageRecord { inner: self.inner.clone() }
    }
}

/// The records of a list, without their wrapping.
fn unwrapped(records: &Vec<PyPackageRecord>) -> (inner: Vec<PackageRecord>)
    ensures
        record_views(inner@) == wrapped_views(records@),
{
    let mut inner: Vec<PackageRecord> = Vec::new();
    let mut i: usize = 0;
    while i < records.len()
        invariant
            0 <= i <= records@.len(),
            inner@.len() == i,
            forall|j: int| 0 <= j < i ==> (#[trigger] inner@[j])@ == records@[j].inner@,
        decreases records@.len() - i,
    {
        inner.push(records[i].inner.clone());
        i += 1;
    }
    assert(record_views(inner@) =~= wrapped_views(records@));
    inner
}

/// The records of a list as mathematical values.
pub open spec fn wrapped_views(records: Seq<PyPackageRecord>) -> Seq<RecordView> {
    Seq::new(records.len(), |i: int| records[i].inner@)
}

impl PyPackageRecord {
    /// Sorts the records topologically: the result holds the records of the
    /// list, each once, in the order that `record_order` gives.
    pub fn sort_topologically(records: Vec<PyPackageRecord>) -> (sorted: Vec<PyPackageRecord>)
        ensures
            sorted@.len() == records@.len(),
            forall|k: int|
                0 <= k < sorted@.len() ==> (#[trigger] sorted@[k]).inner@ == wrapped_views(
                    records@,
                )[record_order(wrapped_views(records@))[k] as int],
    {
        let inner = unwrapped(&records);
        let order = topological_order(&inner);
        let mut sorted: Vec<PyPackageRecord> = Vec::new();
        let mut k: usize = 0;
        while k < order.len()
            invariant
                0 <= k <= order@.len(),
                order@.len() == records@.len(),
                order@ == record_order(wrapped_views(records@)),
                forall|j: int| 0 <= j < order@.len() ==> (#[trigger] order@[j]) < records@.len(),
                sorted@.len() == k,
                forall|j: int|
                    0 <= j < k ==> (#[trigger] sorted@[j]).inner@ == wrapped_views(
                        records@,
                    )[order@[j] as int],
            decreases order@.len() - k,
        {
            sorted.push(records[order[k]].clone());
            k += 1;
        }
        sorted
    }
}

} // verus!
