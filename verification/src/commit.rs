//! The commit record and its mathematical view.

use crate::time::{is_timestamp, DEFAULT_TIMESTAMP};
use vstd::prelude::*;

verus! {

/// One historical change record.
#[derive(Debug)]
pub struct Commit {
    /// Identifier of the snapshot this commit points to.
    pub tree_hash: String,
    /// Identifiers of the parents, in the order in which the object names them.
    pub parent_hashes: Vec<String>,
    /// Identifier of the commit itself; not part of the object's text.
    pub commit_hash: String,
    pub author_name: String,
    pub author_email: String,
    /// Seconds since the epoch, UTC.
    pub author_time: i64,
    pub committer_name: String,
    pub committer_email: String,
    /// Seconds since the epoch, UTC.
    pub committer_time: i64,
    pub message: String,
}

/// What a `Commit` holds, as plain mathematical values.
pub struct CommitView {
    pub tree_hash: Seq<char>,
    pub parent_hashes: Seq<Seq<char>>,
    pub commit_hash: Seq<char>,
    pub author_name: Seq<char>,
    pub author_email: Seq<char>,
    pub author_time: i64,
    pub committer_name: Seq<char>,
    pub committer_email: Seq<char>,
    pub committer_time: i64,
    pub message: Seq<char>,
}

impl CommitView {
    /// The record before any line has been read: every text empty, no
    /// parent, both times at the default.
    pub open spec fn blank() -> CommitView {
        CommitView {
            tree_hash: Seq::empty(),
            parent_hashes: Seq::empty(),
            commit_hash: Seq::empty(),
            author_name: Seq::empty(),
            author_email: Seq::empty(),
            author_time: DEFAULT_TIMESTAMP,
            committer_name: Seq::empty(),
            committer_email: Seq::empty(),
            committer_time: DEFAULT_TIMESTAMP,
            message: Seq::empty(),
        }
    }

    /// Both times are moments that a calendar date and time can stand for.
    pub open spec fn dated(self) -> bool {
        is_timestamp(self.author_time) && is_timestamp(self.committer_time)
    }

    /// The same record under another identifier.
    pub open spec fn identified(self, id: Seq<char>) -> CommitView {
        CommitView { commit_hash: id, ..self }
    }
}

/// The texts of a list of strings.
pub open spec fn texts(v: Seq<String>) -> Seq<Seq<char>> {
    v.map_values(|s: String| s@)
}

impl View for Commit {
    type V = CommitView;

    open spec fn view(&self) -> CommitView {
        CommitView {
            tree_hash: self.tree_hash@,
            parent_hashes: texts(self.parent_hashes@),
            commit_hash: self.commit_hash@,
            author_name: self.author_name@,
            author_email: self.author_email@,
            author_time: self.author_time,
            committer_name: self.committer_name@,
            committer_email: self.committer_email@,
            committer_time: self.committer_time,
            message: self.message@,
        }
    }
}

impl Commit {
    /// A record with nothing filled in.
    pub fn new() -> (c: Commit)
        ensures
            c@ == CommitView::blank(),
    {
        let c = Commit {
            tree_hash: String::new(),
            parent_hashes: Vec::new(),
            commit_hash: String::new(),
            author_name: String::new(),
            author_email: String::new(),
            author_time: DEFAULT_TIMESTAMP,
            committer_name: String::new(),
            committer_email: String::new(),
            committer_time: DEFAULT_TIMESTAMP,
            message: String::new(),
        };
        assert(c@.parent_hashes =~= Seq::empty());
        c
    }
}

impl Clone for Commit {
    fn clone(&self) -> (c: Commit)
        ensures
            c@ == self@,
    {
        let mut parents: Vec<String> = Vec::new();
        let mut i: usize = 0;
        while i < self.parent_hashes.len()
            invariant
                i <= self.parent_hashes@.len(),
                parents@.len() == i,
                forall|k: int| 0 <= k < i ==> parents@[k]@ == self.parent_hashes@[k]@,
            decreases self.parent_hashes@.len() - i,
        {
            parents.push(self.parent_hashes[i].clone());
            i += 1;
        }
        assert(texts(parents@) =~= texts(self.parent_hashes@));
        Commit {
            tree_hash: self.tree_hash.clone(),
            parent_hashes: parents,
            commit_hash: self.commit_hash.clone(),
            author_name: self.author_name.clone(),
            author_email: self.author_email.clone(),
            author_time: self.author_time,
            committer_name: self.committer_name.clone(),
            committer_email: self.committer_email.clone(),
            committer_time: self.committer_time,
            message: self.message.clone(),
        }
    }
}

} // verus!
