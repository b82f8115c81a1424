//! The commit log: every commit of one walk, kept by commit time.

use crate::chronology::{
    at_time, bucket, chronological, covers, lemma_chronological_len, lemma_cover_all,
    lemma_cover_next, lemma_cover_none, strictly_ascending,
};
use crate::commit::{Commit, CommitView};
use std::collections::BTreeMap;
use vstd::prelude::*;
use vstd::std_specs::cmp::OrdSpec;
use vstd::std_specs::iter::IteratorSpec;

verus! {

/// The views of a list of commits.
pub open spec fn views(v: Seq<Commit>) -> Seq<CommitView> {
    v.map_values(|c: Commit| c@)
}

/// All commits of one walk. Each commit time is a key; under it stand the
/// commits of that time, in the order in which they were inserted.
pub struct Log {
    commits: BTreeMap<i64, Vec<Commit>>,
    entries: Ghost<Seq<CommitView>>,
}

impl View for Log {
    type V = Seq<CommitView>;

    /// The commits in the order in which they were inserted.
    closed spec fn view(&self) -> Seq<CommitView> {
        self.entries@
    }
}

impl Log {
    /// Under each key stand exactly the inserted commits of that time, and no
    /// key is without a commit.
    pub closed spec fn wf(self) -> bool {
        forall|t: i64|
            if #[trigger] self.commits@.contains_key(t) {
                views(self.commits@[t]@) == bucket(self.entries@, t) && self.commits@[t]@.len() > 0
            } else {
                bucket(self.entries@, t).len() == 0
            }
    }

    /// An empty log.
    pub fn new() -> (log: Log)
        ensures
            log.wf(),
            log@ == Seq::<CommitView>::empty(),
    {
        proof {
            reveal(Seq::filter);
        }
        Log { commits: BTreeMap::new(), entries: Ghost(Seq::empty()) }
    }

    /// Adds a commit under its commit time, behind those already there.
    pub fn insert(&mut self, commit: Commit)
        requires
            old(self).wf(),
        ensures
            final(self).wf(),
            final(self)@ == old(self)@.push(commit@),
    {
        broadcast use vstd::std_specs::btree::group_btree_axioms;
        broadcast use vstd::laws_cmp::group_laws_cmp;
        broadcast use Seq::lemma_filter_push;

        let t = commit.committer_time;
        let ghost added = commit@;
        let mut same = match self.commits.remove(&t) {
            Some(v) => v,
            None => Vec::new(),
        };
        same.push(commit);
        assert(views(same@) =~= bucket(old(self).entries@, t).push(added));
        self.commits.insert(t, same);
        self.entries = Ghost(self.entries@.push(added));
    }

    /// Whether the log holds no commit.
    pub fn is_empty(&self) -> (r: bool)
        requires
            self.wf(),
        ensures
            r == (self@.len() == 0),
    {
        let r = self.commits.is_empty();
        proof {
            let entries = self.entries@;
            if entries.len() > 0 {
                let t = entries[0].committer_time;
                entries.lemma_filter_contains(at_time(t), 0);
                assert(self.commits@.contains_key(t));
            } else {
                assert forall|t: i64| !self.commits@.contains_key(t) by {
                    reveal(Seq::filter);
                    assert(bucket(entries, t).len() == 0);
                }
                assert(self.commits@ =~= Map::empty());
            }
        }
        r
    }

    /// The keys of the map, from the least to the greatest.
    fn times(&self) -> (keys: Vec<i64>)
        ensures
            strictly_ascending(keys@),
            forall|t: i64| keys@.contains(t) <==> self.commits@.contains_key(t),
    {
        broadcast use vstd::std_specs::btree::group_btree_axioms;
        broadcast use vstd::laws_cmp::group_laws_cmp;

        let mut keys: Vec<i64> = Vec::new();
        let iter = self.commits.iter();
        let ghost all = iter.remaining();
        let ghost firsts = all.map_values(|kv: (&i64, &Vec<Commit>)| *kv.0);
        assert(strictly_ascending(firsts)) by {
            assert forall|i: int, j: int| 0 <= i < j < firsts.len() implies firsts[i]
                < firsts[j] by {
                assert(firsts[i].cmp_spec(&firsts[j]) is Less);
            }
        }
        for kv in it: iter
            invariant
                keys@.len() == it.index(),
                it.seq() == all,
                firsts == all.map_values(|kv: (&i64, &Vec<Commit>)| *kv.0),
                forall|i: int| 0 <= i < keys@.len() ==> keys@[i] == firsts[i],
        {
            keys.push(*kv.0);
        }
        assert(keys@ =~= firsts);
        assert forall|t: i64| keys@.contains(t) <==> self.commits@.contains_key(t) by {
            if keys@.contains(t) {
                let i = choose|i: int| 0 <= i < keys@.len() && keys@[i] == t;
                assert(self.commits@.contains_key(*all[i].0));
            }
            if self.commits@.contains_key(t) {
                assert(all.contains((&t, &self.commits@[t])));
                let i = choose|i: int| 0 <= i < all.len() && all[i] == (&t, &self.commits@[t]);
                assert(keys@[i] == t);
            }
        }
        keys
    }

    /// What the map holds under the key `t`.
    fn stored(&self, t: i64) -> (r: Option<&Vec<Commit>>)
        ensures
            match r {
                Some(v) => self.commits@.contains_key(t) && *v == self.commits@[t],
                None => !self.commits@.contains_key(t),
            },
    {
        broadcast use vstd::std_specs::btree::group_btree_axioms;
        broadcast use vstd::laws_cmp::group_laws_cmp;

        self.commits.get(&t)
    }

    /// The commits of the time `time`, in the order in which they were
    /// inserted; `None` where the log has no commit of that time.
    pub fn get(&self, time: i64) -> (r: Option<&Vec<Commit>>)
        requires
            self.wf(),
        ensures
            match r {
                Some(v) => views(v@) == bucket(self@, time) && v@.len() > 0,
                None => bucket(self@, time).len() == 0,
            },
    {
        let r = self.stored(time);
        assert(self.commits@.contains_key(time) || !self.commits@.contains_key(time));
        r
    }

    /// Every commit of the log, from the earliest commit time to the latest;
    /// commits of one time come in the order in which they were inserted.
    pub fn iterate(&self) -> (out: Vec<Commit>)
        requires
            self.wf(),
        ensures
            views(out@) == chronological(self@),
            out@.len() == self@.len(),
    {
        let keys = self.times();
        let ghost entries = self.entries@;
        let mut out: Vec<Commit> = Vec::new();
        let mut i: usize = 0;
        proof {
            lemma_cover_none(entries);
            assert(keys@.take(0) =~= Seq::<i64>::empty());
            assert(views(out@) =~= Seq::<CommitView>::empty());
        }
        while i < keys.len()
            invariant
                self.wf(),
                entries == self.entries@,
                i <= keys@.len(),
                strictly_ascending(keys@),
                forall|t: i64| keys@.contains(t) <==> self.commits@.contains_key(t),
                covers(views(out@), entries, keys@.take(i as int)),
            decreases keys@.len() - i,
        {
            let t = keys[i];
            assert(keys@.contains(t));
            proof {
                assert(keys@.take(i + 1) =~= keys@.take(i as int).push(t));
                lemma_cover_next(views(out@), entries, keys@.take(i as int), t);
            }
            match self.stored(t) {
                Some(same) => {
                    append_clones(&mut out, same);
                },
                None => {},
            }
            i += 1;
        }
        proof {
            assert(keys@.take(i as int) =~= keys@);
            lemma_cover_all(views(out@), entries, keys@);
            lemma_chronological_len(entries);
        }
        out
    }
}

/// Appends a copy of each commit of `same` to `out`.
fn append_clones(out: &mut Vec<Commit>, same: &Vec<Commit>)
    ensures
        views(final(out)@) == views(old(out)@) + views(same@),
{
    let mut j: usize = 0;
    while j < same.len()
        invariant
            j <= same@.len(),
            views(out@) == views(old(out)@) + views(same@).take(j as int),
        decreases same@.len() - j,
    {
        let ghost before = views(out@);
        out.push(same[j].clone());
        assert(views(out@) =~= before.push(same@[j as int]@));
        assert(views(same@).take(j + 1) =~= views(same@).take(j as int).push(same@[j as int]@));
        j += 1;
    }
    assert(views(same@).take(j as int) =~= views(same@));
}

} // verus!
