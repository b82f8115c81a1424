//! The order in which a log hands out its commits: by time, and among
//! commits of one time by insertion.
//!
//! Everything here is stated over sequences of commit views, in insertion
//! order.

use crate::commit::CommitView;
use vstd::prelude::*;

verus! {

/// The test that a commit was committed at the time `t`.
pub open spec fn at_time(t: i64) -> spec_fn(CommitView) -> bool {
    |c: CommitView| c.committer_time == t
}

/// The commits of `entries` that were committed at the time `t`, in the order
/// in which they stand in `entries`.
pub open spec fn bucket(entries: Seq<CommitView>, t: i64) -> Seq<CommitView> {
    entries.filter(at_time(t))
}

/// No commit stands before one of an earlier time.
pub open spec fn in_time_order(s: Seq<CommitView>) -> bool {
    forall|i: int, j: int| 0 <= i < j < s.len() ==> s[i].committer_time <= s[j].committer_time
}

/// No commit of `s` is later than `t`.
pub open spec fn none_after(s: Seq<CommitView>, t: i64) -> bool {
    forall|i: int| 0 <= i < s.len() ==> (#[trigger] s[i]).committer_time <= t
}

/// `sorted` with `c` put behind the last commit that is not later than `c`.
pub open spec fn place(sorted: Seq<CommitView>, c: CommitView) -> Seq<CommitView>
    decreases sorted.len(),
{
    if sorted.len() == 0 || sorted.last().committer_time <= c.committer_time {
        sorted.push(c)
    } else {
        place(sorted.drop_last(), c).push(sorted.last())
    }
}

/// The commits of `entries` from the earliest to the latest; commits of one
/// time keep the order in which they were inserted.
pub open spec fn chronological(entries: Seq<CommitView>) -> Seq<CommitView>
    decreases entries.len(),
{
    if entries.len() == 0 {
        Seq::empty()
    } else {
        place(chronological(entries.drop_last()), entries.last())
    }
}

/// Placing a commit adds exactly one commit.
pub proof fn lemma_place_len(sorted: Seq<CommitView>, c: CommitView)
    ensures
        place(sorted, c).len() == sorted.len() + 1,
    decreases sorted.len(),
{
    if !(sorted.len() == 0 || sorted.last().committer_time <= c.committer_time) {
        lemma_place_len(sorted.drop_last(), c);
    }
}

/// Placing a commit that is not later than `t` among such commits gives
/// such commits.
pub proof fn lemma_place_none_after(sorted: Seq<CommitView>, c: CommitView, t: i64)
    requires
        none_after(sorted, t),
        c.committer_time <= t,
    ensures
        none_after(place(sorted, c), t),
    decreases sorted.len(),
{
    if !(sorted.len() == 0 || sorted.last().committer_time <= c.committer_time) {
        let rest = sorted.drop_last();
        assert forall|i: int| 0 <= i < rest.len() implies (#[trigger] rest[i]).committer_time
            <= t by {
            assert(rest[i] == sorted[i]);
        }
        lemma_place_none_after(rest, c, t);
        assert(sorted.last() == sorted[sorted.len() - 1]);
    }
}

/// Placing a commit keeps the time order.
pub proof fn lemma_place_order(sorted: Seq<CommitView>, c: CommitView)
    requires
        in_time_order(sorted),
    ensures
        in_time_order(place(sorted, c)),
    decreases sorted.len(),
{
    if sorted.len() == 0 || sorted.last().committer_time <= c.committer_time {
    } else {
        let rest = sorted.drop_last();
        let last = sorted.last();
        assert(in_time_order(rest)) by {
            assert forall|i: int, j: int| 0 <= i < j < rest.len() implies rest[i].committer_time
                <= rest[j].committer_time by {
                assert(rest[i] == sorted[i] && rest[j] == sorted[j]);
            }
        }
        lemma_place_order(rest, c);
        assert(none_after(rest, last.committer_time)) by {
            assert forall|i: int| 0 <= i < rest.len() implies (#[trigger] rest[i]).committer_time
                <= last.committer_time by {
                assert(rest[i] == sorted[i]);
            }
        }
        lemma_place_none_after(rest, c, last.committer_time);
        let placed = place(rest, c);
        assert forall|i: int, j: int| 0 <= i < j < placed.push(last).len() implies placed.push(
            last,
        )[i].committer_time <= placed.push(last)[j].committer_time by {
            if j < placed.len() {
            } else {
                assert(placed[i].committer_time <= last.committer_time);
            }
        }
    }
}

/// Placing a commit adds it at the end of the commits of its time and
/// changes nothing among the commits of any other time.
pub proof fn lemma_place_bucket(sorted: Seq<CommitView>, c: CommitView, t: i64)
    ensures
        bucket(place(sorted, c), t) == if c.committer_time == t {
            bucket(sorted, t).push(c)
        } else {
            bucket(sorted, t)
        },
    decreases sorted.len(),
{
    broadcast use Seq::lemma_filter_push;

    if sorted.len() == 0 || sorted.last().committer_time <= c.committer_time {
    } else {
        let rest = sorted.drop_last();
        let last = sorted.last();
        lemma_place_bucket(rest, c, t);
        assert(rest.push(last) =~= sorted);
    }
}

/// The commits of `entries`, each once.
pub proof fn lemma_chronological_len(entries: Seq<CommitView>)
    ensures
        chronological(entries).len() == entries.len(),
    decreases entries.len(),
{
    if entries.len() > 0 {
        lemma_chronological_len(entries.drop_last());
        lemma_place_len(chronological(entries.drop_last()), entries.last());
    }
}

/// The chronological order is a time order.
pub proof fn lemma_chronological_order(entries: Seq<CommitView>)
    ensures
        in_time_order(chronological(entries)),
    decreases entries.len(),
{
    if entries.len() > 0 {
        lemma_chronological_order(entries.drop_last());
        lemma_place_order(chronological(entries.drop_last()), entries.last());
    }
}

/// In the chronological order the commits of one time stand as they were
/// inserted.
pub proof fn lemma_chronological_bucket(entries: Seq<CommitView>, t: i64)
    ensures
        bucket(chronological(entries), t) == bucket(entries, t),
    decreases entries.len(),
{
    broadcast use Seq::lemma_filter_push;

    if entries.len() == 0 {
    } else {
        let rest = entries.drop_last();
        lemma_chronological_bucket(rest, t);
        lemma_place_bucket(chronological(rest), entries.last(), t);
        assert(rest.push(entries.last()) =~= entries);
    }
}

/// A sequence whose commits are all of the time `t` is its own bucket for `t`.
pub proof fn lemma_bucket_all(s: Seq<CommitView>, t: i64)
    requires
        forall|i: int| 0 <= i < s.len() ==> (#[trigger] s[i]).committer_time == t,
    ensures
        bucket(s, t) == s,
    decreases s.len(),
{
    broadcast use Seq::lemma_filter_push;

    if s.len() == 0 {
        reveal(Seq::filter);
    } else {
        let rest = s.drop_last();
        assert forall|i: int| 0 <= i < rest.len() implies (#[trigger] rest[i]).committer_time
            == t by {
            assert(rest[i] == s[i]);
        }
        lemma_bucket_all(rest, t);
        assert(s.last() == s[s.len() - 1]);
        assert(rest.push(s.last()) =~= s);
    }
}

/// A sequence without a commit of the time `t` has an empty bucket for `t`.
pub proof fn lemma_bucket_none(s: Seq<CommitView>, t: i64)
    requires
        forall|i: int| 0 <= i < s.len() ==> (#[trigger] s[i]).committer_time != t,
    ensures
        bucket(s, t) == Seq::<CommitView>::empty(),
    decreases s.len(),
{
    broadcast use Seq::lemma_filter_push;

    if s.len() == 0 {
        reveal(Seq::filter);
    } else {
        let rest = s.drop_last();
        assert forall|i: int| 0 <= i < rest.len() implies (#[trigger] rest[i]).committer_time
            != t by {
            assert(rest[i] == s[i]);
        }
        lemma_bucket_none(rest, t);
        assert(s.last() == s[s.len() - 1]);
        assert(rest.push(s.last()) =~= s);
    }
}

/// Every commit of a bucket is of the bucket's time.
pub proof fn lemma_bucket_times(s: Seq<CommitView>, t: i64)
    ensures
        forall|i: int| 0 <= i < bucket(s, t).len() ==> (#[trigger] bucket(s, t)[i]).committer_time == t,
{
    let b = bucket(s, t);
    assert forall|i: int| 0 <= i < b.len() implies (#[trigger] b[i]).committer_time == t by {
        s.lemma_filter_pred(at_time(t), i);
    }
}

/// A time order with the given buckets is the only one: two sequences in time
/// order that hold, for every time, the same commits in the same order are
/// one sequence.
pub proof fn lemma_time_order_unique(a: Seq<CommitView>, b: Seq<CommitView>)
    requires
        in_time_order(a),
        in_time_order(b),
        forall|t: i64| bucket(a, t) == bucket(b, t),
    ensures
        a == b,
    decreases a.len(),
{
    broadcast use Seq::lemma_filter_push;

    if a.len() == 0 {
        if b.len() > 0 {
            let t = b[0].committer_time;
            b.lemma_filter_contains(at_time(t), 0);
            reveal(Seq::filter);
            assert(bucket(a, t).len() == 0);
        }
        assert(a =~= b);
    } else if b.len() == 0 {
        let t = a[0].committer_time;
        a.lemma_filter_contains(at_time(t), 0);
        reveal(Seq::filter);
        assert(bucket(b, t).len() == 0);
    } else {
        let x = a.last();
        let y = b.last();
        let ra = a.drop_last();
        let rb = b.drop_last();
        assert(ra.push(x) =~= a);
        assert(rb.push(y) =~= b);
        // The last commits are of one time: a later one in either sequence
        // would stand in the other as well, behind that one's last commit.
        if x.committer_time < y.committer_time {
            let t = y.committer_time;
            assert(bucket(b, t) == bucket(rb, t).push(y));
            lemma_bucket_times(a, t);
            lemma_member_of_bucket(a, t, bucket(a, t).len() - 1);
        }
        if y.committer_time < x.committer_time {
            let t = x.committer_time;
            assert(bucket(a, t) == bucket(ra, t).push(x));
            lemma_bucket_times(b, t);
            lemma_member_of_bucket(b, t, bucket(b, t).len() - 1);
        }
        let t = x.committer_time;
        assert(bucket(a, t) == bucket(ra, t).push(x));
        assert(bucket(b, t) == bucket(rb, t).push(y));
        assert(bucket(a, t).last() == x);
        assert(bucket(b, t).last() == y);
        assert(x == y);
        assert forall|u: i64| bucket(ra, u) == bucket(rb, u) by {
            assert(bucket(a, u) == bucket(b, u));
            if u == t {
                assert(bucket(ra, u) =~= bucket(a, u).drop_last());
                assert(bucket(rb, u) =~= bucket(b, u).drop_last());
            }
        }
        assert(in_time_order(ra)) by {
            assert forall|i: int, j: int| 0 <= i < j < ra.len() implies ra[i].committer_time
                <= ra[j].committer_time by {
                assert(ra[i] == a[i] && ra[j] == a[j]);
            }
        }
        assert(in_time_order(rb)) by {
            assert forall|i: int, j: int| 0 <= i < j < rb.len() implies rb[i].committer_time
                <= rb[j].committer_time by {
                assert(rb[i] == b[i] && rb[j] == b[j]);
            }
        }
        lemma_time_order_unique(ra, rb);
    }
}

/// Every commit of a bucket stands in the sequence it was taken from.
pub proof fn lemma_member_of_bucket(s: Seq<CommitView>, t: i64, i: int)
    requires
        0 <= i < bucket(s, t).len(),
    ensures
        exists|j: int| 0 <= j < s.len() && s[j] == bucket(s, t)[i],
    decreases s.len(),
{
    broadcast use Seq::lemma_filter_push;

    if s.len() == 0 {
        reveal(Seq::filter);
    } else {
        let rest = s.drop_last();
        assert(rest.push(s.last()) =~= s);
        if i < bucket(rest, t).len() {
            lemma_member_of_bucket(rest, t, i);
            let j = choose|j: int| 0 <= j < rest.len() && rest[j] == bucket(rest, t)[i];
            assert(s[j] == bucket(s, t)[i]);
        } else {
            assert(s[s.len() - 1] == bucket(s, t)[i]);
        }
    }
}

/// A commit that is inserted comes last among the commits of its time and
/// changes nothing among those of any other time.
pub proof fn lemma_bucket_push(entries: Seq<CommitView>, c: CommitView, t: i64)
    ensures
        bucket(entries.push(c), t) == if c.committer_time == t {
            bucket(entries, t).push(c)
        } else {
            bucket(entries, t)
        },
{
    broadcast use Seq::lemma_filter_push;

}

/// Two commits of one time, inserted one after the other, stand under that
/// time both, in that order, behind the commits that were there before.
pub proof fn lemma_same_time_in_insertion_order(entries: Seq<CommitView>, a: CommitView, b: CommitView)
    requires
        a.committer_time == b.committer_time,
    ensures
        bucket(entries.push(a).push(b), a.committer_time) == bucket(entries, a.committer_time).push(
            a,
        ).push(b),
{
    lemma_bucket_push(entries, a, a.committer_time);
    lemma_bucket_push(entries.push(a), b, a.committer_time);
}

/// Each time is earlier than the next.
pub open spec fn strictly_ascending(times: Seq<i64>) -> bool {
    forall|i: int, j: int| 0 <= i < j < times.len() ==> times[i] < times[j]
}

/// `out` holds, in time order, the commits of `entries` whose times are among
/// `times`, those of one time in the order of `entries`, and no other commit.
pub open spec fn covers(out: Seq<CommitView>, entries: Seq<CommitView>, times: Seq<i64>) -> bool {
    &&& in_time_order(out)
    &&& forall|t: i64|
        bucket(out, t) == if times.contains(t) {
            bucket(entries, t)
        } else {
            Seq::<CommitView>::empty()
        }
}

/// Nothing covers no time.
pub proof fn lemma_cover_none(entries: Seq<CommitView>)
    ensures
        covers(Seq::empty(), entries, Seq::empty()),
{
    reveal(Seq::filter);
}

/// What covers some times covers one later time more once the commits of that
/// time are added behind.
pub proof fn lemma_cover_next(
    out: Seq<CommitView>,
    entries: Seq<CommitView>,
    times: Seq<i64>,
    t: i64,
)
    requires
        covers(out, entries, times),
        strictly_ascending(times.push(t)),
    ensures
        covers(out + bucket(entries, t), entries, times.push(t)),
{
    let added = bucket(entries, t);
    let now = out + added;
    let next = times.push(t);
    lemma_bucket_times(entries, t);
    assert forall|a: int| 0 <= a < out.len() implies (#[trigger] out[a]).committer_time < t by {
        let u = out[a].committer_time;
        out.lemma_filter_contains(at_time(u), a);
        assert(bucket(out, u).len() > 0);
        assert(times.contains(u));
        let k = choose|k: int| 0 <= k < times.len() && times[k] == u;
        assert(next[k] < next[times.len() as int]);
    }
    assert forall|a: int, b: int| 0 <= a < b < now.len() implies now[a].committer_time
        <= now[b].committer_time by {
        if b < out.len() {
            assert(now[a] == out[a] && now[b] == out[b]);
        } else if a < out.len() {
            assert(now[a] == out[a] && now[b] == added[b - out.len()]);
        } else {
            assert(now[a] == added[a - out.len()] && now[b] == added[b - out.len()]);
        }
    }
    assert forall|u: i64|
        bucket(now, u) == if next.contains(u) {
            bucket(entries, u)
        } else {
            Seq::<CommitView>::empty()
        } by {
        Seq::filter_distributes_over_add(out, added, at_time(u));
        if u == t {
            lemma_bucket_all(added, t);
            if times.contains(t) {
                let k = choose|k: int| 0 <= k < times.len() && times[k] == t;
                assert(next[k] < next[times.len() as int]);
            }
            assert(next[times.len() as int] == t);
            assert(bucket(out, t) =~= Seq::<CommitView>::empty());
            assert(bucket(now, u) =~= added);
        } else {
            lemma_bucket_none(added, u);
            if times.contains(u) {
                let k = choose|k: int| 0 <= k < times.len() && times[k] == u;
                assert(next[k] == u);
            }
            if next.contains(u) {
                let k = choose|k: int| 0 <= k < next.len() && next[k] == u;
                assert(times[k] == u);
            }
            assert(bucket(now, u) =~= bucket(out, u));
        }
    }
}

/// What covers every time at which a commit was committed is the
/// chronological order.
pub proof fn lemma_cover_all(out: Seq<CommitView>, entries: Seq<CommitView>, times: Seq<i64>)
    requires
        covers(out, entries, times),
        forall|t: i64| !times.contains(t) ==> bucket(entries, t).len() == 0,
    ensures
        out == chronological(entries),
{
    lemma_chronological_order(entries);
    assert forall|t: i64| bucket(out, t) == bucket(chronological(entries), t) by {
        lemma_chronological_bucket(entries, t);
        if !times.contains(t) {
            assert(bucket(entries, t) =~= Seq::<CommitView>::empty());
        }
    }
    lemma_time_order_unique(out, chronological(entries));
}

} // verus!
