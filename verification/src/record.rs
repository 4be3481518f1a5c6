//! Package records: what a repository is filled with.

use vstd::prelude::*;
use crate::conda_types::{
    match_spec_parses, normalize_package_name, normalized_package_name, parse_version,
    version_parses,
};
use crate::match_spec::match_spec_package_name;

verus! {

/// One installable package as it is handed to a repository.
#[derive(Debug)]
pub struct PackageRecord {
    /// The name of the package.
    pub name: String,
    /// The version.
    pub version: String,
    /// The build string.
    pub build: String,
    /// The build number.
    pub build_number: u64,
    /// The platform directory of the channel, such as `linux-64`.
    pub subdir: String,
    /// The run requirements, each a match specification.
    pub depends: Vec<String>,
    /// Constraints on packages that need not be installed, each a match
    /// specification.
    pub constrains: Vec<String>,
}

/// A package record as mathematical values.
pub struct RecordView {
    /// The name of the package.
    pub name: Seq<char>,
    /// The version.
    pub version: Seq<char>,
    /// The build string.
    pub build: Seq<char>,
    /// The build number.
    pub build_number: u64,
    /// The platform directory.
    pub subdir: Seq<char>,
    /// The run requirements.
    pub depends: Seq<Seq<char>>,
    /// The constraints.
    pub constrains: Seq<Seq<char>>,
}

/// The strings of a table as mathematical values.
pub open spec fn texts(table: Seq<String>) -> Seq<Seq<char>> {
    Seq::new(table.len(), |i: int| table[i]@)
}

impl View for PackageRecord {
    type V = RecordView;

    open spec fn view(&self) -> RecordView {
        RecordView {
            name: self.name@,
            version: self.version@,
            build: self.build@,
            build_number: self.build_number,
            subdir: self.subdir@,
            depends: texts(self.depends@),
            constrains: texts(self.constrains@),
        }
    }
}

/// A copy of a list of strings.
fn copy_strings(list: &Vec<String>) -> (copy: Vec<String>)
    ensures
        texts(copy@) == texts(list@),
{
    let mut copy: Vec<String> = Vec::new();
    let mut i: usize = 0;
    while i < list.len()
        invariant
            0 <= i <= list@.len(),
            copy@.len() == i,
            forall|j: int| 0 <= j < i ==> (#[trigger] copy@[j])@ == list@[j]@,
        decreases list@.len() - i,
    {
        copy.push(list[i].clone());
        i += 1;
    }
    assert(texts(copy@) =~= texts(list@));
    copy
}

impl Clone for PackageRecord {
    fn clone(&self) -> (copy: Self)
        ensures
            copy@ == self@,
    {
        PackageRecord {
            name: self.name.clone(),
            version: self.version.clone(),
            build: self.build.clone(),
            build_number: self.build_number,
            subdir: self.subdir.clone(),
            depends: copy_strings(&self.depends),
            constrains: copy_strings(&self.constrains),
        }
    }
}

/// What is wrong with a record.
#[derive(Clone, Copy, Debug, PartialEq, Eq, Structural)]
pub enum RecordProblem {
    /// The name is no package name.
    InvalidName,
    /// The version does not parse.
    InvalidVersion,
    /// The run requirement at this position is no match specification.
    InvalidDependency(usize),
    /// The constraint at this position is no match specification.
    InvalidConstraint(usize),
}

/// The position of the first text at or after `from` that is no match
/// specification, or the number of texts if all of them are.
pub open spec fn first_unparsable(texts: Seq<Seq<char>>, from: int) -> int
    decreases texts.len() - from,
{
    if from < 0 || from >= texts.len() {
        texts.len() as int
    } else if !match_spec_parses(texts[from]) {
        from
    } else {
        first_unparsable(texts, from + 1)
    }
}

/// The first thing wrong with a record, in the order name, version, run
/// requirements, constraints; `None` for a record that can be registered.
pub open spec fn record_problem(r: RecordView) -> Option<RecordProblem> {
    if normalized_package_name(r.name) is None {
        Some(RecordProblem::InvalidName)
    } else if !version_parses(r.version) {
        Some(RecordProblem::InvalidVersion)
    } else if first_unparsable(r.depends, 0) < r.depends.len() {
        Some(RecordProblem::InvalidDependency(first_unparsable(r.depends, 0) as usize))
    } else if first_unparsable(r.constrains, 0) < r.constrains.len() {
        Some(RecordProblem::InvalidConstraint(first_unparsable(r.constrains, 0) as usize))
    } else {
        None
    }
}

/// The text that a problem is about.
pub open spec fn problem_text(r: RecordView, problem: RecordProblem) -> Seq<char> {
    match problem {
        RecordProblem::InvalidName => r.name,
        RecordProblem::InvalidVersion => r.version,
        RecordProblem::InvalidDependency(k) => r.depends[k as int],
        RecordProblem::InvalidConstraint(k) => r.constrains[k as int],
    }
}

/// Where all texts from `from` on parse, `first_unparsable` gives the number
/// of texts; where it gives a position, the text there does not parse and all
/// texts between `from` and it do.
pub proof fn lemma_first_unparsable(texts: Seq<Seq<char>>, from: int)
    requires
        0 <= from <= texts.len(),
    ensures
        from <= first_unparsable(texts, from) <= texts.len(),
        first_unparsable(texts, from) < texts.len() ==> !match_spec_parses(
            texts[first_unparsable(texts, from)],
        ),
        forall|k: int|
            from <= k < first_unparsable(texts, from) ==> match_spec_parses(#[trigger] texts[k]),
    decreases texts.len() - from,
{
    if from < texts.len() && match_spec_parses(texts[from]) {
        lemma_first_unparsable(texts, from + 1);
    }
}

/// The position of the first text that is no match specification, or the
/// number of texts.
fn find_unparsable(list: &Vec<String>) -> (k: usize)
    ensures
        k == first_unparsable(texts(list@), 0),
        k <= list@.len(),
{
    let mut i: usize = 0;
    while i < list.len()
        invariant
            0 <= i <= list@.len(),
            first_unparsable(texts(list@), 0) == first_unparsable(texts(list@), i as int),
        decreases list@.len() - i,
    {
        assert(texts(list@)[i as int] == list@[i as int]@);
        if match_spec_package_name(list[i].as_str()).is_none() {
            return i;
        }
        i += 1;
    }
    i
}

impl PackageRecord {
    /// Looks for the first thing wrong with the record.
    pub fn check(&self) -> (problem: Option<RecordProblem>)
        ensures
            problem == record_problem(self@),
    {
        if normalize_package_name(self.name.as_str()).is_none() {
            return Some(RecordProblem::InvalidName);
        }
        if !parse_version(self.version.as_str()) {
            return Some(RecordProblem::InvalidVersion);
        }
        let d = find_unparsable(&self.depends);
        if d < self.depends.len() {
            return Some(RecordProblem::InvalidDependency(d));
        }
        let c = find_unparsable(&self.constrains);
        if c < self.constrains.len() {
            return Some(RecordProblem::InvalidConstraint(c));
        }
        None
    }

    /// The text that a problem of this record is about: the name, the
    /// version, or the expression at the position the problem gives. The
    /// empty string where the position is past the end.
    pub fn offending_text(&self, problem: RecordProblem) -> (text: String)
        ensures
            match problem {
                RecordProblem::InvalidName => text@ == self@.name,
                RecordProblem::InvalidVersion => text@ == self@.version,
                RecordProblem::InvalidDependency(k) => text@ == (if k < self@.depends.len() {
                    self@.depends[k as int]
                } else {
                    Seq::empty()
                }),
                RecordProblem::InvalidConstraint(k) => text@ == (if k < self@.constrains.len() {
                    self@.constrains[k as int]
                } else {
                    Seq::empty()
                }),
            },
    {
        match problem {
            RecordProblem::InvalidName => self.name.clone(),
            RecordProblem::InvalidVersion => self.version.clone(),
            RecordProblem::InvalidDependency(k) => {
                if k < self.depends.len() {
                    assert(texts(self.depends@)[k as int] == self.depends@[k as int]@);
                    self.depends[k].clone()
                } else {
                    String::new()
                }
            },
            RecordProblem::InvalidConstraint(k) => {
                if k < self.constrains.len() {
                    assert(texts(self.constrains@)[k as int] == self.constrains@[k as int]@);
                    self.constrains[k].clone()
                } else {
                    String::new()
                }
            },
        }
    }
}

} // verus!
