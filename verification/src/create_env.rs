//! The decisions behind the functions that look at an environment on disk
//! and at repositories on the network. Reading directories, loading files
//! and sending requests is left to the caller; what to do next is decided
//! here.

use vstd::multiset::*;
use vstd::prelude::*;
use crate::error::PyRattlerError;

verus! {

/// A character that an HTTP method may hold: an ASCII letter, a digit, or
/// one of `!`, `*`, `+`, `-`, `.`, `^`, `_`, the backtick, `|` and `~`.
pub open spec fn is_method_char(c: char) -> bool {
    ||| 'a' <= c <= 'z'
    ||| 'A' <= c <= 'Z'
    ||| '0' <= c <= '9'
    ||| c == '!'
    ||| c == '*'
    ||| c == '+'
    ||| c == '-'
    ||| c == '.'
    ||| c == '^'
    ||| c == '_'
    ||| c == '`'
    ||| c == '|'
    ||| c == '~'
}

/// Whether the text is an HTTP method: it is not empty and holds only
/// characters that a method may hold. This is when `Method::from_str`
/// succeeds.
pub open spec fn http_method_parses(text: Seq<char>) -> bool {
    text.len() > 0 && forall|i: int| 0 <= i < text.len() ==> is_method_char(#[trigger] text[i])
}

/// Whether the text is a URL. Stands for the success of `Url::parse`.
pub uninterp spec fn url_parses(text: Seq<char>) -> bool;

/// Calls `Method::from_str` and says whether it succeeded. The contract
/// claims that it succeeds exactly on a text that is not empty and holds
/// only characters that a method may hold.
#[verifier::external_body]
fn parse_method(text: &str) -> (ok: bool)
    ensures
        ok == http_method_parses(text@),
{
    text.parse::<reqwest::Method>().is_ok()
}

/// Calls `Url::parse` and says whether it succeeded.
#[verifier::external_body]
fn parse_url(text: &str) -> (ok: bool)
    ensures
        ok == url_parses(text@),
{
    url::Url::parse(text).is_ok()
}

/// Checks the method of a request before the request is built: anything
/// that is no HTTP method is an unknown error.
pub fn check_request_method(method: &str) -> (r: Result<(), PyRattlerError>)
    ensures
        r is Ok == http_method_parses(method@),
        r matches Err(e) ==> e is Unknown,
{
    if parse_method(method) {
        Ok(())
    } else {
        Err(PyRattlerError::Unknown)
    }
}

/// Checks the address of a channel directory before its repository data is
/// fetched: anything that is no URL is an unknown error.
pub fn check_subdir_url(subdir_url: &str) -> (r: Result<(), PyRattlerError>)
    ensures
        r is Ok == url_parses(subdir_url@),
        r matches Err(e) ==> e is Unknown,
{
    if parse_url(subdir_url) {
        Ok(())
    } else {
        Err(PyRattlerError::Unknown)
    }
}

/// Where a scan of the installed packages stands.
#[derive(Clone, Copy, Debug, PartialEq, Eq, Structural)]
pub enum ScanPhase {
    /// The directory of records is being listed.
    Listing,
    /// An entry is held back until one of the running loads has finished.
    Holding,
    /// The directory has been listed; the running loads are awaited.
    Draining,
    /// The scan is over.
    Finished,
}

/// What happened in a scan.
#[derive(Clone, Copy, Debug, PartialEq, Eq, Structural)]
pub enum ScanEvent {
    /// The listing gave an entry; `skipped` says whether its path ends with
    /// the component `.json`.
    Entry { skipped: bool },
    /// The listing failed on an entry.
    EntryFailed,
    /// The listing is over.
    NoMoreEntries,
    /// A load has finished and gave a record.
    Loaded,
    /// A load has finished with an error.
    LoadFailed,
    /// A load was cancelled.
    Cancelled,
}

/// What the caller has to do next.
#[derive(Clone, Copy, Debug, PartialEq, Eq, Structural)]
pub enum ScanAction {
    /// Take the next entry of the listing.
    NextEntry,
    /// Start loading the entry that was given last, then take the next
    /// entry.
    Load,
    /// Wait for one of the running loads.
    Wait,
    /// Keep the record that was loaded, start loading the entry that is
    /// held back, then take the next entry.
    KeepAndLoad,
    /// Keep the record that was loaded, then wait for one of the running
    /// loads.
    KeepAndWait,
    /// Keep the record that was loaded, and return the records.
    KeepAndReturn,
    /// Return the records that have been kept.
    Return,
    /// Return the error.
    Fail,
}

/// The state of a scan: the most loads that run at a time, the number of
/// loads that run, and the phase.
#[derive(Clone, Copy, Debug, PartialEq, Eq, Structural)]
pub struct InstalledScan {
    /// The most loads that run at a time.
    pub limit: usize,
    /// The number of loads that run.
    pub pending: usize,
    /// The phase.
    pub phase: ScanPhase,
}

impl InstalledScan {
    /// The invariant of a scan: an entry is held back, or loads are awaited,
    /// only while loads run; the limit is not zero and never exceeded.
    pub open spec fn wf(self) -> bool {
        &&& self.limit > 0
        &&& self.pending <= self.limit
        &&& self.phase is Holding ==> self.pending == self.limit
        &&& self.phase is Draining ==> self.pending > 0
    }

    /// Whether the event can happen in the state: entries come while the
    /// directory is listed, loads finish while the scan waits for one.
    pub open spec fn expects(self, event: ScanEvent) -> bool {
        match event {
            ScanEvent::Entry { .. } | ScanEvent::EntryFailed | ScanEvent::NoMoreEntries => self.phase
                is Listing,
            ScanEvent::Loaded | ScanEvent::LoadFailed | ScanEvent::Cancelled => self.phase
                is Holding || self.phase is Draining,
        }
    }

    /// The state after the event and what the caller has to do.
    pub open spec fn next(self, event: ScanEvent) -> (InstalledScan, ScanAction) {
        let over = InstalledScan { phase: ScanPhase::Finished, ..self };
        match event {
            ScanEvent::Entry { skipped } => if skipped {
                (self, ScanAction::NextEntry)
            } else if self.pending >= self.limit {
                (InstalledScan { phase: ScanPhase::Holding, ..self }, ScanAction::Wait)
            } else {
                (InstalledScan { pending: (self.pending + 1) as usize, ..self }, ScanAction::Load)
            },
            ScanEvent::EntryFailed => (over, ScanAction::Fail),
            ScanEvent::NoMoreEntries => if self.pending == 0 {
                (over, ScanAction::Return)
            } else {
                (InstalledScan { phase: ScanPhase::Draining, ..self }, ScanAction::Wait)
            },
            ScanEvent::Loaded => if self.phase is Holding {
                (InstalledScan { phase: ScanPhase::Listing, ..self }, ScanAction::KeepAndLoad)
            } else if self.pending <= 1 {
                (InstalledScan { pending: 0, ..over }, ScanAction::KeepAndReturn)
            } else {
                (
                    InstalledScan { pending: (self.pending - 1) as usize, ..self },
                    ScanAction::KeepAndWait,
                )
            },
            ScanEvent::LoadFailed => (over, ScanAction::Fail),
            ScanEvent::Cancelled => (over, ScanAction::Return),
        }
    }

    /// A scan that is about to list the directory. `None` where the limit
    /// is zero: such a scan could start no load.
    pub fn new(concurrency_limit: usize) -> (scan: Option<InstalledScan>)
        ensures
            scan is Some == (concurrency_limit > 0),
            scan matches Some(s) ==> s == (InstalledScan {
                limit: concurrency_limit,
                pending: 0,
                phase: ScanPhase::Listing,
            }) && s.wf(),
    {
        if concurrency_limit == 0 {
            None
        } else {
            Some(InstalledScan { limit: concurrency_limit, pending: 0, phase: ScanPhase::Listing })
        }
    }

    /// Takes an event and says what to do next. An event that cannot happen
    /// in the state is answered with `None`, and nothing changes.
    pub fn step(&mut self, event: ScanEvent) -> (action: Option<ScanAction>)
        ensures
            old(self).wf() ==> final(self).wf(),
            old(self).expects(event) ==> action == Some(old(self).next(event).1) && *final(self)
                == old(self).next(event).0,
            !old(self).expects(event) ==> action is None && *final(self) == *old(self),
    {
        match event {
            ScanEvent::Entry { skipped } => {
                if !matches!(self.phase, ScanPhase::Listing) {
                    None
                } else if skipped {
                    Some(ScanAction::NextEntry)
                } else if self.pending >= self.limit {
                    self.phase = ScanPhase::Holding;
                    Some(ScanAction::Wait)
                } else {
                    self.pending = self.pending + 1;
                    Some(ScanAction::Load)
                }
            },
            ScanEvent::EntryFailed => {
                if !matches!(self.phase, ScanPhase::Listing) {
                    None
                } else {
                    self.phase = ScanPhase::Finished;
                    Some(ScanAction::Fail)
                }
            },
            ScanEvent::NoMoreEntries => {
                if !matches!(self.phase, ScanPhase::Listing) {
                    None
                } else if self.pending == 0 {
                    self.phase = ScanPhase::Finished;
                    Some(ScanAction::Return)
                } else {
                    self.phase = ScanPhase::Draining;
                    Some(ScanAction::Wait)
                }
            },
            ScanEvent::Loaded => {
                match self.phase {
                    ScanPhase::Holding => {
                        self.phase = ScanPhase::Listing;
                        Some(ScanAction::KeepAndLoad)
                    },
                    ScanPhase::Draining => {
                        if self.pending <= 1 {
                            self.pending = 0;
                            self.phase = ScanPhase::Finished;
                            Some(ScanAction::KeepAndReturn)
                        } else {
                            self.pending = self.pending - 1;
                            Some(ScanAction::KeepAndWait)
                        }
                    },
                    _ => None,
                }
            },
            ScanEvent::LoadFailed => {
                match self.phase {
                    ScanPhase::Holding | ScanPhase::Draining => {
                        self.phase = ScanPhase::Finished;
                        Some(ScanAction::Fail)
                    },
                    _ => None,
                }
            },
            ScanEvent::Cancelled => {
                match self.phase {
                    ScanPhase::Holding | ScanPhase::Draining => {
                        self.phase = ScanPhase::Finished;
                        Some(ScanAction::Return)
                    },
                    _ => None,
                }
            },
        }
    }
}

/// Whether an entry of the directory of records is skipped: its file name
/// is `.json`, with nothing before the dot.
pub fn skips_entry(file_name: &str) -> (skipped: bool)
    ensures
        skipped == (file_name@ == ".json"@),
{
    let name = file_name.to_owned();
    let json = ".json".to_owned();
    name == json
}


/// What happens in a scan that goes well, with the entry it happens to:
/// the listing gives an entry, the listing ends, or the load of an entry
/// gives its record.
pub enum Happening {
    /// The listing gives the entry `id`.
    Entry { id: int, skipped: bool },
    /// The listing is over.
    NoMoreEntries,
    /// The load of the entry `id` has finished and gave its record.
    Loaded { id: int },
}

impl Happening {
    /// What the scan is told.
    pub open spec fn event(self) -> ScanEvent {
        match self {
            Happening::Entry { id, skipped } => ScanEvent::Entry { skipped },
            Happening::NoMoreEntries => ScanEvent::NoMoreEntries,
            Happening::Loaded { id } => ScanEvent::Loaded,
        }
    }
}

/// A scan together with the entries that the caller has in hand: the one
/// held back, those whose load runs, those whose record has been kept, and
/// all that were taken from the listing and not skipped.
pub struct Progress {
    /// The state of the scan.
    pub scan: InstalledScan,
    /// The entry that is held back.
    pub held: Option<int>,
    /// The entries whose load runs.
    pub running: Multiset<int>,
    /// The entries whose record has been kept.
    pub kept: Multiset<int>,
    /// The entries that were taken and not skipped.
    pub taken: Multiset<int>,
}

/// Where a scan begins.
pub open spec fn start(limit: usize) -> Progress {
    Progress {
        scan: InstalledScan { limit, pending: 0, phase: ScanPhase::Listing },
        held: None,
        running: Multiset::empty(),
        kept: Multiset::empty(),
        taken: Multiset::empty(),
    }
}

/// Whether the happening can follow: the scan expects it, and a load that
/// finishes is one that runs.
pub open spec fn admissible(p: Progress, h: Happening) -> bool {
    &&& p.scan.expects(h.event())
    &&& h matches Happening::Loaded { id } ==> p.running.count(id) > 0
}

/// The progress after the happening, where the caller does what the scan
/// tells it to do.
pub open spec fn advance(p: Progress, h: Happening) -> Progress {
    let scan = p.scan.next(h.event()).0;
    let action = p.scan.next(h.event()).1;
    match h {
        Happening::Entry { id, skipped } => if action == ScanAction::Load {
            Progress { scan, running: p.running.insert(id), taken: p.taken.insert(id), ..p }
        } else if action == ScanAction::Wait {
            Progress { scan, held: Some(id), taken: p.taken.insert(id), ..p }
        } else {
            Progress { scan, ..p }
        },
        Happening::NoMoreEntries => Progress { scan, ..p },
        Happening::Loaded { id } => if action == ScanAction::KeepAndLoad {
            Progress {
                scan,
                held: None,
                running: p.running.remove(id).insert(p.held.unwrap()),
                kept: p.kept.insert(id),
                ..p
            }
        } else {
            Progress { scan, running: p.running.remove(id), kept: p.kept.insert(id), ..p }
        },
    }
}

/// The progress after the first `n` happenings of a run.
pub open spec fn after(p: Progress, run: Seq<Happening>, n: int) -> Progress
    decreases n,
{
    if n <= 0 {
        p
    } else {
        advance(after(p, run, n - 1), run[n - 1])
    }
}

/// Every happening of the run can follow those before it.
pub open spec fn admissible_run(p: Progress, run: Seq<Happening>) -> bool {
    forall|k: int| 0 <= k < run.len() ==> admissible(#[trigger] after(p, run, k), run[k])
}

/// The entries among the first `n` happenings that the listing gave and that
/// are not skipped.
pub open spec fn entries_to_load(run: Seq<Happening>, n: int) -> Multiset<int>
    decreases n,
{
    if n <= 0 {
        Multiset::empty()
    } else {
        match run[n - 1] {
            Happening::Entry { id, skipped } => if skipped {
                entries_to_load(run, n - 1)
            } else {
                entries_to_load(run, n - 1).insert(id)
            },
            _ => entries_to_load(run, n - 1),
        }
    }
}

/// How often the entry `x` is held back: once or not at all.
pub open spec fn held_count(p: Progress, x: int) -> nat {
    if p.held == Some(x) {
        1
    } else {
        0
    }
}

/// Nothing is lost and nothing is counted twice: every entry that was taken
/// is held back, being loaded, or kept; as many loads run as the scan
/// counts; an entry is held back exactly while the scan says so; and a scan
/// that is over has no load running.
pub open spec fn balanced(p: Progress) -> bool {
    &&& p.scan.wf()
    &&& p.running.len() == p.scan.pending
    &&& p.held is Some <==> p.scan.phase is Holding
    &&& p.scan.phase is Finished ==> p.scan.pending == 0
    &&& forall|x: int|
        p.kept.count(x) + p.running.count(x) + held_count(p, x) == #[trigger] p.taken.count(x)
}

/// One happening keeps the balance, and adds an entry to those taken
/// exactly where the listing gave one that is not skipped.
pub proof fn lemma_advance(p: Progress, h: Happening)
    requires
        balanced(p),
        admissible(p, h),
    ensures
        balanced(advance(p, h)),
        advance(p, h).taken == (match h {
            Happening::Entry { id, skipped } => if skipped {
                p.taken
            } else {
                p.taken.insert(id)
            },
            _ => p.taken,
        }),
{
    broadcast use group_multiset_axioms;

    let q = advance(p, h);
    match h {
        Happening::Entry { id, skipped } => {
            if !skipped {
                assert forall|x: int|
                    q.kept.count(x) + q.running.count(x) + held_count(q, x) == #[trigger] q.taken.count(
                        x,
                    ) by {
                    assert(p.kept.count(x) + p.running.count(x) + held_count(p, x) == p.taken.count(
                        x,
                    ));
                }
            }
        },
        Happening::NoMoreEntries => {},
        Happening::Loaded { id } => {
            let less = p.running.remove(id);
            assert(Multiset::singleton(id).subset_of(p.running)) by {
                assert forall|x: int|
                    Multiset::singleton(id).count(x) <= #[trigger] p.running.count(x) by {}
            }
            assert(less.len() == p.running.len() - 1);
            assert forall|x: int|
                q.kept.count(x) + q.running.count(x) + held_count(q, x) == #[trigger] q.taken.count(
                    x,
                ) by {
                assert(p.kept.count(x) + p.running.count(x) + held_count(p, x) == p.taken.count(x));
            }
        },
    }
}

/// A run keeps the balance, and has taken the entries that the listing gave
/// and that are not skipped.
pub proof fn lemma_run(limit: usize, run: Seq<Happening>, n: int)
    requires
        limit > 0,
        admissible_run(start(limit), run),
        0 <= n <= run.len(),
    ensures
        balanced(after(start(limit), run, n)),
        after(start(limit), run, n).taken == entries_to_load(run, n),
    decreases n,
{
    broadcast use group_multiset_axioms;

    if n > 0 {
        lemma_run(limit, run, n - 1);
        lemma_advance(after(start(limit), run, n - 1), run[n - 1]);
    }
}

/// Every installed package appears exactly once: a scan that goes well and
/// comes to its end has kept the record of every entry that the listing gave
/// and that is not skipped, as often as the listing gave it, and nothing
/// else. Only the order in which the records come is open.
pub proof fn lemma_every_entry_kept_once(limit: usize, run: Seq<Happening>)
    requires
        limit > 0,
        admissible_run(start(limit), run),
        after(start(limit), run, run.len() as int).scan.phase is Finished,
    ensures
        after(start(limit), run, run.len() as int).kept == entries_to_load(run, run.len() as int),
{
    broadcast use group_multiset_axioms;

    let p = after(start(limit), run, run.len() as int);
    lemma_run(limit, run, run.len() as int);
    assert forall|x: int| p.kept.count(x) == p.taken.count(x) by {
        assert(p.kept.count(x) + p.running.count(x) + held_count(p, x) == p.taken.count(x));
        assert(p.running.count(x) <= p.running.len());
    }
    assert(p.kept =~= p.taken);
}

/// The same installed set every time: two scans that go well over the same
/// entries keep the same records, whatever their limits are and in whatever
/// order the loads finish.
pub proof fn lemma_same_entries_same_records(
    first_limit: usize,
    first: Seq<Happening>,
    second_limit: usize,
    second: Seq<Happening>,
)
    requires
        first_limit > 0,
        second_limit > 0,
        admissible_run(start(first_limit), first),
        admissible_run(start(second_limit), second),
        after(start(first_limit), first, first.len() as int).scan.phase is Finished,
        after(start(second_limit), second, second.len() as int).scan.phase is Finished,
        entries_to_load(first, first.len() as int) == entries_to_load(second, second.len() as int),
    ensures
        after(start(first_limit), first, first.len() as int).kept == after(
            start(second_limit),
            second,
            second.len() as int,
        ).kept,
{
    lemma_every_entry_kept_once(first_limit, first);
    lemma_every_entry_kept_once(second_limit, second);
}

} // verus!
