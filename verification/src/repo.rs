//! Repositories: named collections of packages that a pool owns.

use vstd::prelude::*;
use crate::pool::{record_views, Pool};
use crate::record::{problem_text, record_problem, PackageRecord, RecordProblem, RecordView};

verus! {

/// A handle to a repository of a pool. It is an identifier and owns nothing:
/// the pool it came from holds the data. It carries the tag of that pool; a
/// pool refuses a handle with another tag, and a handle to a deleted
/// repository.
#[derive(Clone, Copy, Debug)]
pub struct Repo {
    id: usize,
    pool: u64,
}

impl View for Repo {
    type V = usize;

    closed spec fn view(&self) -> usize {
        self.id
    }
}

/// Why records were not registered.
#[derive(Debug)]
pub enum AddRecordError {
    /// The handle is of another pool, or the pool has no such repository,
    /// or the repository has been deleted.
    UnknownRepository,
    /// A record was rejected. Nothing was registered.
    InvalidRecord {
        /// The position of the record in the list.
        record: usize,
        /// What is wrong with it.
        problem: RecordProblem,
        /// The offending name, version or expression.
        text: String,
    },
}

/// The position of the first record at or after `from` that has something
/// wrong with it, or the number of records if none has.
pub open spec fn first_bad_record(records: Seq<RecordView>, from: int) -> int
    decreases records.len() - from,
{
    if from < 0 || from >= records.len() {
        records.len() as int
    } else if record_problem(records[from]) is Some {
        from
    } else {
        first_bad_record(records, from + 1)
    }
}

/// All records before the first bad one have nothing wrong with them.
pub proof fn lemma_first_bad_record(records: Seq<RecordView>, from: int)
    requires
        0 <= from <= records.len(),
    ensures
        from <= first_bad_record(records, from) <= records.len(),
        first_bad_record(records, from) < records.len() ==> record_problem(
            records[first_bad_record(records, from)],
        ) is Some,
        forall|k: int|
            from <= k < first_bad_record(records, from) ==> record_problem(
                #[trigger] records[k],
            ) is None,
    decreases records.len() - from,
{
    if from < records.len() && record_problem(records[from]) is None {
        lemma_first_bad_record(records, from + 1);
    }
}

impl Repo {
    /// The tag of the pool that the handle came from.
    pub closed spec fn tag(&self) -> u64 {
        self.pool
    }

    pub(crate) fn new(id: usize, tag: u64) -> (repo: Repo)
        ensures
            repo@ == id,
            repo.tag() == tag,
    {
        Repo { id, pool: tag }
    }

    /// The tag of the pool that the handle came from.
    pub fn pool_tag(&self) -> (tag: u64)
        ensures
            tag == self.tag(),
    {
        self.pool
    }

    /// The identifier of the repository.
    pub fn id(&self) -> (id: usize)
        ensures
            id == self@,
    {
        self.id
    }

    /// Registers the records in this repository, one package per record, in
    /// the order of the list. All records are checked first: where one of
    /// them has a name, a version or an expression that does not parse,
    /// nothing is registered and the error names the first such record and
    /// the offending text. The index of providers is out of date afterwards.
    #[verifier::loop_isolation(false)]
    pub fn add_records(&self, pool: &mut Pool, records: &Vec<PackageRecord>) -> (r: Result<
        (),
        AddRecordError,
    >)
        ensures
            final(pool)@.wf(),
            r is Ok == (old(pool)@.holds(self@, self.tag())
                && first_bad_record(record_views(records@), 0) == records@.len()),
            r is Ok ==> final(pool)@ == old(pool)@.with_records(self@, record_views(records@)),
            r is Ok ==> forall|i: int|
                0 <= i < records@.len() ==> record_problem((#[trigger] records@[i])@) is None,
            r is Ok ==> final(pool)@.solvables.len() == old(pool)@.solvables.len()
                + records@.len(),
            r is Err ==> final(pool)@ == old(pool)@,
            r matches Err(AddRecordError::UnknownRepository) ==> !old(pool)@.holds(
                self@,
                self.tag(),
            ),
            r matches Err(AddRecordError::InvalidRecord { record, problem, text }) ==> {
                &&& old(pool)@.holds(self@, self.tag())
                &&& record == first_bad_record(record_views(records@), 0)
                &&& record < records@.len()
                &&& Some(problem) == record_problem(records@[record as int]@)
                &&& text@ == problem_text(records@[record as int]@, problem)
            },
    {
        let _ = pool.repo_count();
        if !pool.is_repo_alive(*self) {
            return Err(AddRecordError::UnknownRepository);
        }
        let ghost all = record_views(records@);
        let mut i: usize = 0;
        while i < records.len()
            invariant
                0 <= i <= records@.len(),
                all == record_views(records@),
                first_bad_record(all, 0) == first_bad_record(all, i as int),
                forall|k: int| 0 <= k < i ==> record_problem((#[trigger] records@[k])@) is None,
            decreases records@.len() - i,
        {
            assert(all[i as int] == records@[i as int]@);
            match records[i].check() {
                Some(problem) => {
                    let text = records[i].offending_text(problem);
                    proof {
                        crate::record::lemma_first_unparsable(records@[i as int]@.depends, 0);
                        crate::record::lemma_first_unparsable(records@[i as int]@.constrains, 0);
                    }
                    return Err(AddRecordError::InvalidRecord { record: i, problem, text });
                },
                None => {},
            }
            i += 1;
        }
        proof {
            lemma_first_bad_record(all, 0);
        }
        pool.add_checked_records(self.id, records);
        Ok(())
    }

    /// Deletes the repository from the pool. Returns `false`, and changes
    /// nothing, where the handle is of another pool or the pool has no such
    /// repository.
    pub fn free(self, pool: &mut Pool) -> (done: bool)
        ensures
            final(pool)@ == (if self.tag() == old(pool)@.tag {
                old(pool)@.without_repo(self@)
            } else {
                old(pool)@
            }),
            done == (self.tag() == old(pool)@.tag && self@ < old(pool)@.repos.len()),
            final(pool)@.wf(),
    {
        pool.delete_repo(self)
    }
}

} // verus!
