//! The history walker: which generation to ask the raw commit source for
//! next, and what each of its answers does to the walk and its log.
//!
//! A walk starts at a generation, counted back from the current head, and
//! visits at most `ceiling` generations. It ends when the source reports that
//! a generation does not exist, when the ceiling is reached, or when an
//! answer cannot be used.

use crate::commit::{Commit, CommitView};
use crate::log::Log;
use crate::parser::{commit_of, parse_commit, ParseError};
use crate::source::{RawCommit, RawCommitView, SourceReply, SourceReplyView};
use crate::text::{chars_of, text_of, trim, trimmed};
use vstd::prelude::*;

verus! {

/// The number of generations that a walk visits where no other ceiling is
/// given.
pub const BATCH_CEILING: usize = 100;

/// Why a walk failed.
#[derive(Clone, Copy, Debug, PartialEq, Eq, Structural)]
pub enum WalkError {
    /// A commit object with a malformed `author ` line.
    MalformedAuthorLine,
    /// A commit object with a malformed `committer ` line.
    MalformedCommitterLine,
    /// A commit object without a tree.
    MissingTree,
    /// The source could not answer.
    SourceUnavailable,
}

impl WalkError {
    /// The walk's failure for a commit object that was not accepted.
    pub open spec fn of(e: ParseError) -> WalkError {
        match e {
            ParseError::MalformedAuthorLine => WalkError::MalformedAuthorLine,
            ParseError::MalformedCommitterLine => WalkError::MalformedCommitterLine,
            ParseError::MissingTree => WalkError::MissingTree,
        }
    }

    /// The walk's failure for a commit object that was not accepted.
    pub fn from_parse(e: ParseError) -> (w: WalkError)
        ensures
            w == WalkError::of(e),
    {
        match e {
            ParseError::MalformedAuthorLine => WalkError::MalformedAuthorLine,
            ParseError::MalformedCommitterLine => WalkError::MalformedCommitterLine,
            ParseError::MissingTree => WalkError::MissingTree,
        }
    }
}

/// Where a walk stands.
#[derive(Clone, Copy, Debug, PartialEq, Eq, Structural)]
pub enum Status {
    /// The walk waits for the answer to its next request.
    Running,
    /// The walk ended as it should: the history or the ceiling was reached.
    Finished,
    /// The walk was given up.
    Failed(WalkError),
}

/// The record that a raw commit states: what its text states, under its
/// identifier without the blanks around it.
pub open spec fn record_of_raw(raw: RawCommitView) -> Result<CommitView, WalkError> {
    match commit_of(raw.text) {
        Ok(c) => Ok(c.identified(trimmed(raw.id))),
        Err(e) => Err(WalkError::of(e)),
    }
}

/// Reads a raw commit.
pub fn read_raw(raw: &RawCommit) -> (r: Result<Commit, WalkError>)
    ensures
        match r {
            Ok(c) => record_of_raw(raw@) == Ok::<CommitView, WalkError>(c@),
            Err(e) => record_of_raw(raw@) == Err::<CommitView, WalkError>(e),
        },
{
    match parse_commit(raw.text.as_str()) {
        Ok(mut commit) => {
            let id = chars_of(raw.id.as_str());
            commit.commit_hash = text_of(trim(id.as_slice()));
            Ok(commit)
        },
        Err(e) => Err(WalkError::from_parse(e)),
    }
}

/// A walk as plain mathematical values.
pub struct WalkView {
    /// The generation at which the walk started.
    pub start: nat,
    /// The most generations that the walk visits.
    pub ceiling: nat,
    /// The commits of the generations visited, in the order of the visits.
    pub log: Seq<CommitView>,
    pub status: Status,
}

impl WalkView {
    /// A walk before its first request. One that may visit no generation, or
    /// that starts beyond the reach of a machine index, has ended already.
    pub open spec fn begin(start: nat, ceiling: nat) -> WalkView {
        WalkView { start, ceiling, log: Seq::empty(), status: status_after(start, ceiling, 0) }
    }

    /// The generation that the walk asks for next.
    pub open spec fn next_generation(self) -> Option<nat> {
        if self.status == Status::Running {
            Some(self.start + self.log.len())
        } else {
            None
        }
    }

    /// The walk after the answer `reply` to its request.
    ///
    /// - An object that states a record adds that record to the log; the
    ///   walk then goes on unless it has visited as many generations as it may.
    /// - An object that states none fails the walk with the parser's reason.
    /// - `NotFound` ends the walk.
    /// - `Unavailable` fails the walk.
    ///
    /// A walk that is not running takes no answer.
    pub open spec fn step(self, reply: SourceReplyView) -> WalkView {
        if self.status != Status::Running {
            self
        } else {
            match reply {
                SourceReplyView::Object(raw) => match record_of_raw(raw) {
                    Ok(c) => WalkView {
                        log: self.log.push(c),
                        status: status_after(self.start, self.ceiling, self.log.len() + 1),
                        ..self
                    },
                    Err(e) => WalkView { status: Status::Failed(e), ..self },
                },
                SourceReplyView::NotFound => WalkView { status: Status::Finished, ..self },
                SourceReplyView::Unavailable => WalkView {
                    status: Status::Failed(WalkError::SourceUnavailable),
                    ..self
                },
            }
        }
    }

    /// What the walk hands to its caller: the failure of a walk that failed,
    /// else the log as far as it was filled.
    pub open spec fn outcome(self) -> Result<Seq<CommitView>, WalkError> {
        match self.status {
            Status::Failed(e) => Err(e),
            _ => Ok(self.log),
        }
    }
}

/// Where a walk stands that has visited `visited` generations without an
/// end or a failure: it goes on while it may visit another generation and
/// that generation's index is one that a machine index can hold.
pub open spec fn status_after(start: nat, ceiling: nat, visited: nat) -> Status {
    if visited < ceiling && start + visited <= usize::MAX {
        Status::Running
    } else {
        Status::Finished
    }
}

/// A walk through the ancestors of the current head.
pub struct Walk {
    start: usize,
    ceiling: usize,
    visited: usize,
    status: Status,
    log: Log,
}

impl View for Walk {
    type V = WalkView;

    closed spec fn view(&self) -> WalkView {
        WalkView {
            start: self.start as nat,
            ceiling: self.ceiling as nat,
            log: self.log@,
            status: self.status,
        }
    }
}

impl Walk {
    /// The walk keeps count of its log, within its ceiling, and runs only
    /// while it may visit another generation.
    pub closed spec fn wf(self) -> bool {
        &&& self.log.wf()
        &&& self.visited == self.log@.len()
        &&& self.visited <= self.ceiling
        &&& self.status == Status::Running ==> self.visited < self.ceiling && self.start
            + self.visited <= usize::MAX
    }

    /// A walk never visits more generations than its ceiling allows, and one
    /// that runs has visited fewer: each answer either ends the walk or adds
    /// one commit to its log, so that a walk takes at most `ceiling` answers.
    pub proof fn lemma_within_ceiling(self)
        requires
            self.wf(),
        ensures
            self@.log.len() <= self@.ceiling,
            self@.status == Status::Running ==> self@.log.len() < self@.ceiling && self@.start
                + self@.log.len() <= usize::MAX,
    {
    }

    /// A walk that starts at the generation `start_index`, or at the current
    /// head where none is given, and visits at most `ceiling` generations.
    /// A ceiling of `usize::MAX` stands for a walk without ceiling.
    pub fn new(start_index: Option<usize>, ceiling: usize) -> (walk: Walk)
        ensures
            walk.wf(),
            walk@ == WalkView::begin(
                match start_index {
                    Some(s) => s as nat,
                    None => 0,
                },
                ceiling as nat,
            ),
    {
        let start: usize = match start_index {
            Some(s) => s,
            None => 0,
        };
        let status = if ceiling > 0 {
            Status::Running
        } else {
            Status::Finished
        };
        Walk { start, ceiling, visited: 0, status, log: Log::new() }
    }

    /// The generation to ask the source for; `None` once the walk is over.
    pub fn next_generation(&self) -> (g: Option<usize>)
        requires
            self.wf(),
        ensures
            match g {
                Some(n) => self@.next_generation() == Some(n as nat),
                None => self@.next_generation() is None,
            },
    {
        match self.status {
            Status::Running => Some(self.start + self.visited),
            _ => None,
        }
    }

    /// Where the walk stands.
    pub fn status(&self) -> (s: Status)
        ensures
            s == self@.status,
    {
        self.status
    }

    /// The log as far as it is filled.
    pub fn log(&self) -> (log: &Log)
        requires
            self.wf(),
        ensures
            log.wf(),
            log@ == self@.log,
    {
        &self.log
    }

    /// Takes the source's answer to the request for `next_generation`.
    pub fn step(&mut self, reply: SourceReply)
        requires
            old(self).wf(),
        ensures
            final(self).wf(),
            final(self)@ == old(self)@.step(reply@),
    {
        match self.status {
            Status::Running => {},
            _ => {
                return ;
            },
        }
        match reply {
            SourceReply::Object(raw) => match read_raw(&raw) {
                Ok(commit) => {
                    self.log.insert(commit);
                    self.visited = self.visited + 1;
                    if self.visited == self.ceiling || self.start > usize::MAX - self.visited {
                        self.status = Status::Finished;
                    }
                },
                Err(e) => {
                    self.status = Status::Failed(e);
                },
            },
            SourceReply::NotFound => {
                self.status = Status::Finished;
            },
            SourceReply::Unavailable => {
                self.status = Status::Failed(WalkError::SourceUnavailable);
            },
        }
    }

    /// Ends the walk: its failure if it failed, else its log. A walk that is
    /// ended while it runs hands out what it has collected.
    pub fn finish(self) -> (r: Result<Log, WalkError>)
        requires
            self.wf(),
        ensures
            match r {
                Ok(log) => log.wf() && self@.outcome() == Ok::<Seq<CommitView>, WalkError>(log@),
                Err(e) => self@.outcome() == Err::<Seq<CommitView>, WalkError>(e),
            },
    {
        match self.status {
            Status::Failed(e) => Err(e),
            _ => Ok(self.log),
        }
    }
}

/// What is read from a raw commit depends on its text and its identifier
/// alone: the same text under the same identifier states the same record,
/// field for field, or the same failure.
pub proof fn lemma_same_input_same_record(a: RawCommitView, b: RawCommitView)
    requires
        a.text == b.text,
        a.id == b.id,
    ensures
        record_of_raw(a) == record_of_raw(b),
{
}

/// The views of a list of raw commits.
pub open spec fn raws(v: Seq<RawCommit>) -> Seq<RawCommitView> {
    v.map_values(|r: RawCommit| r@)
}

/// The records of the `n` generations from `start` on, in that order; the
/// failure of the first among them that states no record.
pub open spec fn records(history: Seq<RawCommitView>, start: nat, n: nat) -> Result<
    Seq<CommitView>,
    WalkError,
>
    decreases n,
{
    if n == 0 {
        Ok(Seq::empty())
    } else {
        match records(history, start, (n - 1) as nat) {
            Ok(earlier) => match record_of_raw(history[start + n - 1]) {
                Ok(c) => Ok(earlier.push(c)),
                Err(e) => Err(e),
            },
            Err(e) => Err(e),
        }
    }
}

/// How many generations a walk visits in a history of `len` generations:
/// those from `start` to the end of the history, but no more than `ceiling`.
pub open spec fn reach(len: nat, start: nat, ceiling: nat) -> nat {
    if start >= len {
        0
    } else if len - start < ceiling {
        (len - start) as nat
    } else {
        ceiling
    }
}

/// What a walk over the whole of a known history collects. `history[n]` is
/// the raw commit of generation `n`; later generations do not exist.
pub open spec fn walk_of(history: Seq<RawCommitView>, start: nat, ceiling: nat) -> Result<
    Seq<CommitView>,
    WalkError,
> {
    records(history, start, reach(history.len(), start, ceiling))
}

/// A failure among the first generations is the failure of any longer run.
pub proof fn lemma_records_fail(history: Seq<RawCommitView>, start: nat, m: nat, n: nat)
    requires
        m <= n,
        records(history, start, m) is Err,
    ensures
        records(history, start, n) == records(history, start, m),
    decreases n,
{
    if m < n {
        lemma_records_fail(history, start, m, (n - 1) as nat);
    }
}

/// A run without failure collects one record for each generation, each the
/// record of its generation.
pub proof fn lemma_records_each(history: Seq<RawCommitView>, start: nat, n: nat)
    ensures
        records(history, start, n) matches Ok(log) ==> log.len() == n && forall|i: int|
            0 <= i < n ==> record_of_raw(history[(start + i) as int]) == Ok::<CommitView, WalkError>(
                #[trigger] log[i],
            ),
    decreases n,
{
    if n > 0 {
        lemma_records_each(history, start, (n - 1) as nat);
    }
}

/// A walk that does not fail visits every generation from its start to the
/// end of the history, or as many as its ceiling allows if those are fewer:
/// its log holds one commit for each.
pub proof fn lemma_walk_count(history: Seq<RawCommitView>, start: nat, ceiling: nat)
    ensures
        walk_of(history, start, ceiling) matches Ok(log) ==> log.len() == reach(
            history.len(),
            start,
            ceiling,
        ),
{
    lemma_records_each(history, start, reach(history.len(), start, ceiling));
}

/// A walk fails as soon as it visits a generation whose commit object states
/// no record: no log comes out, and the failure is that of the first such
/// generation.
pub proof fn lemma_walk_fails(history: Seq<RawCommitView>, start: nat, ceiling: nat, i: nat)
    requires
        i < reach(history.len(), start, ceiling),
        record_of_raw(history[(start + i) as int]) is Err,
        forall|j: nat| j < i ==> (#[trigger] record_of_raw(history[(start + j) as int])) is Ok,
    ensures
        walk_of(history, start, ceiling) == Err::<Seq<CommitView>, WalkError>(
            record_of_raw(history[(start + i) as int])->Err_0,
        ),
{
    lemma_records_all(history, start, i);
    lemma_records_fail(history, start, i + 1, reach(history.len(), start, ceiling));
}

/// Generations that all state a record give a run without failure.
pub proof fn lemma_records_all(history: Seq<RawCommitView>, start: nat, n: nat)
    requires
        forall|j: nat| j < n ==> (#[trigger] record_of_raw(history[(start + j) as int])) is Ok,
    ensures
        records(history, start, n) is Ok,
    decreases n,
{
    if n > 0 {
        lemma_records_all(history, start, (n - 1) as nat);
        assert(record_of_raw(history[(start + (n - 1) as nat) as int]) is Ok);
    }
}

/// Walks a history that is known as a whole: `history[n]` is the raw commit
/// of generation `n`, and no later generation exists. The walk starts at
/// `start_index`, or at the current head where none is given, and visits at
/// most `ceiling` generations.
pub fn walk_history(history: &Vec<RawCommit>, start_index: Option<usize>, ceiling: usize) -> (r:
    Result<Log, WalkError>)
    ensures
        match r {
            Ok(log) => log.wf() && walk_of(
                raws(history@),
                match start_index {
                    Some(s) => s as nat,
                    None => 0,
                },
                ceiling as nat,
            ) == Ok::<Seq<CommitView>, WalkError>(log@),
            Err(e) => walk_of(
                raws(history@),
                match start_index {
                    Some(s) => s as nat,
                    None => 0,
                },
                ceiling as nat,
            ) == Err::<Seq<CommitView>, WalkError>(e),
        },
{
    let ghost start: nat = match start_index {
        Some(s) => s as nat,
        None => 0,
    };
    let ghost all = raws(history@);
    let ghost goal = reach(all.len(), start, ceiling as nat);
    let mut walk = Walk::new(start_index, ceiling);
    loop
        invariant
            walk.wf(),
            walk@.start == start,
            walk@.ceiling == ceiling,
            all == raws(history@),
            goal == reach(all.len(), start, ceiling as nat),
            walk@.log.len() <= goal,
            match walk@.status {
                Status::Running => records(all, start, walk@.log.len()) == Ok::<
                    Seq<CommitView>,
                    WalkError,
                >(walk@.log),
                Status::Finished => records(all, start, goal) == Ok::<Seq<CommitView>, WalkError>(
                    walk@.log,
                ),
                Status::Failed(e) => records(all, start, goal) == Err::<Seq<CommitView>, WalkError>(
                    e,
                ),
            },
        ensures
            walk@.status != Status::Running,
        decreases 2 * (ceiling - walk@.log.len()) + (if walk@.status == Status::Running { 1nat } else { 0nat }),
    {
        let g = match walk.next_generation() {
            Some(g) => g,
            None => {
                break ;
            },
        };
        let ghost k = walk@.log.len();
        let reply = if g < history.len() {
            SourceReply::Object(history[g].clone())
        } else {
            SourceReply::NotFound
        };
        walk.step(reply);
        proof {
            if g < history.len() {
                assert(all[g as int] == history@[g as int]@);
                assert(k < goal);
                if record_of_raw(all[g as int]) is Err {
                    lemma_records_fail(all, start, k + 1, goal);
                }
            }
        }
    }
    walk.finish()
}

/// Walks a history that is known as a whole, visiting at most
/// `BATCH_CEILING` generations.
pub fn parse_commits(history: &Vec<RawCommit>, start_index: Option<usize>) -> (r: Result<
    Log,
    WalkError,
>)
    ensures
        match r {
            Ok(log) => log.wf() && walk_of(
                raws(history@),
                match start_index {
                    Some(s) => s as nat,
                    None => 0,
                },
                BATCH_CEILING as nat,
            ) == Ok::<Seq<CommitView>, WalkError>(log@),
            Err(e) => walk_of(
                raws(history@),
                match start_index {
                    Some(s) => s as nat,
                    None => 0,
                },
                BATCH_CEILING as nat,
            ) == Err::<Seq<CommitView>, WalkError>(e),
        },
{
    walk_history(history, start_index, BATCH_CEILING)
}

} // verus!
