//! The commit object parser: from the raw text of one commit object to a
//! `Commit` record.
//!
//! The text is read line by line. Each line is of one kind, told by how it
//! begins; what a line does depends on its kind and on whether a signature
//! block is open.

use crate::commit::{texts, Commit, CommitView};
use crate::identity::{identity_of, parse_identity};
use crate::text::{
    append_chars, begins_with, chars_of, find_from, has_prefix, is_blank, lemma_find_from,
    lemma_find_from_is,
    lemma_trim_front_first, scan_to, skip_blanks, text_of, trim_front,
};
use vstd::prelude::*;
use vstd::slice::slice_subrange;

verus! {

/// Why the text of a commit object was not accepted.
#[derive(Clone, Copy, Debug, PartialEq, Eq, Structural)]
pub enum ParseError {
    /// An `author ` line without a bracketed email or without a timestamp.
    MalformedAuthorLine,
    /// A `committer ` line without a bracketed email or without a timestamp.
    MalformedCommitterLine,
    /// No line gave the record a tree.
    MissingTree,
}

/// What a line of a commit object is.
#[derive(Clone, Copy, Debug, PartialEq, Eq, Structural)]
pub enum LineKind {
    Tree,
    Parent,
    Author,
    Committer,
    /// Opens a signature block.
    SignatureStart,
    /// The line of dashes that closes a signature block.
    SignatureEnd,
    ChangeId,
    /// Anything else: free text.
    Body,
}

/// The keyword of the line that names the tree.
pub open spec fn tree_word() -> Seq<char> {
    "tree "@
}

/// The keyword of a line that names a parent.
pub open spec fn parent_word() -> Seq<char> {
    "parent "@
}

/// The keyword of the line that states the author.
pub open spec fn author_word() -> Seq<char> {
    "author "@
}

/// The keyword of the line that states the committer.
pub open spec fn committer_word() -> Seq<char> {
    "committer "@
}

/// The keyword of the line that opens a signature block.
pub open spec fn signature_word() -> Seq<char> {
    "gpgsig "@
}

/// The keyword of a change-id line.
pub open spec fn change_id_word() -> Seq<char> {
    "change-id "@
}

/// The dashes that begin the line that closes a signature block.
pub open spec fn dashes() -> Seq<char> {
    "-----"@
}

/// The kind of a line. A header or a signature start is told by the keyword
/// at the very beginning of the line; the end of a signature by five dashes
/// after any leading blanks.
pub open spec fn kind_of(line: Seq<char>) -> LineKind {
    if begins_with(line, tree_word()) {
        LineKind::Tree
    } else if begins_with(line, parent_word()) {
        LineKind::Parent
    } else if begins_with(line, author_word()) {
        LineKind::Author
    } else if begins_with(line, committer_word()) {
        LineKind::Committer
    } else if begins_with(line, signature_word()) {
        LineKind::SignatureStart
    } else if begins_with(trim_front(line), dashes()) {
        LineKind::SignatureEnd
    } else if begins_with(line, change_id_word()) {
        LineKind::ChangeId
    } else {
        LineKind::Body
    }
}

/// Tells the kind of a line.
pub fn classify_line(line: &[char]) -> (kind: LineKind)
    ensures
        kind == kind_of(line@),
{
    if has_prefix(line, "tree ") {
        LineKind::Tree
    } else if has_prefix(line, "parent ") {
        LineKind::Parent
    } else if has_prefix(line, "author ") {
        LineKind::Author
    } else if has_prefix(line, "committer ") {
        LineKind::Committer
    } else if has_prefix(line, "gpgsig ") {
        LineKind::SignatureStart
    } else {
        let i = skip_blanks(line);
        assert(line@.subrange(i as int, line@.len() as int) =~= line@.skip(i as int));
        if has_prefix(slice_subrange(line, i, line.len()), "-----") {
            LineKind::SignatureEnd
        } else if has_prefix(line, "change-id ") {
            LineKind::ChangeId
        } else {
            LineKind::Body
        }
    }
}

/// A record in the making: what the lines read so far have given, and
/// whether a signature block is open.
pub struct Progress {
    pub commit: CommitView,
    pub in_signature: bool,
}

impl Progress {
    /// Before the first line.
    pub open spec fn start() -> Progress {
        Progress { commit: CommitView::blank(), in_signature: false }
    }
}

/// What one more line makes of a record in the making.
///
/// - A tree line sets the tree to the rest of the line.
/// - A parent line adds the rest of the line to the parents.
/// - An author or committer line sets the three fields of that person, or
///   fails where the rest of the line states no identity.
/// - A signature start opens a signature block, a line of dashes closes it.
/// - A change-id line is dropped.
/// - Any other line is added to the message as it stands, unless a signature
///   block is open.
pub open spec fn absorb(p: Progress, line: Seq<char>) -> Result<Progress, ParseError> {
    let c = p.commit;
    match kind_of(line) {
        LineKind::Tree => Ok(
            Progress { commit: CommitView { tree_hash: line.skip(tree_word().len() as int), ..c }, ..p },
        ),
        LineKind::Parent => Ok(
            Progress {
                commit: CommitView {
                    parent_hashes: c.parent_hashes.push(line.skip(parent_word().len() as int)),
                    ..c
                },
                ..p
            },
        ),
        LineKind::Author => match identity_of(line.skip(author_word().len() as int)) {
            Some(id) => Ok(
                Progress {
                    commit: CommitView {
                        author_name: id.name,
                        author_email: id.email,
                        author_time: id.time,
                        ..c
                    },
                    ..p
                },
            ),
            None => Err(ParseError::MalformedAuthorLine),
        },
        LineKind::Committer => match identity_of(line.skip(committer_word().len() as int)) {
            Some(id) => Ok(
                Progress {
                    commit: CommitView {
                        committer_name: id.name,
                        committer_email: id.email,
                        committer_time: id.time,
                        ..c
                    },
                    ..p
                },
            ),
            None => Err(ParseError::MalformedCommitterLine),
        },
        LineKind::SignatureStart => Ok(Progress { in_signature: true, ..p }),
        LineKind::SignatureEnd => Ok(Progress { in_signature: false, ..p }),
        LineKind::ChangeId => Ok(p),
        LineKind::Body => if p.in_signature {
            Ok(p)
        } else {
            Ok(Progress { commit: CommitView { message: c.message + line, ..c }, ..p })
        },
    }
}

/// What the lines `lines`, read in order, make of `p`. The first line that
/// fails ends the reading.
pub open spec fn absorb_from(p: Result<Progress, ParseError>, lines: Seq<Seq<char>>) -> Result<
    Progress,
    ParseError,
>
    decreases lines.len(),
{
    if lines.len() == 0 {
        p
    } else {
        match absorb_from(p, lines.drop_last()) {
            Ok(q) => absorb(q, lines.last()),
            Err(e) => Err(e),
        }
    }
}

/// What the lines of a whole object make.
pub open spec fn absorb_all(lines: Seq<Seq<char>>) -> Result<Progress, ParseError> {
    absorb_from(Ok(Progress::start()), lines)
}

/// The lines of `text` from position `i` on: the pieces between newline
/// characters, the last of which runs to the end of the text.
pub open spec fn lines_from(text: Seq<char>, i: int) -> Seq<Seq<char>>
    decreases text.len() - i,
{
    let end = find_from(text, '\n', i);
    if i < 0 || i > text.len() {
        Seq::empty()
    } else if end >= text.len() {
        seq![text.subrange(i, text.len() as int)]
    } else {
        proof {
            lemma_find_from(text, '\n', i);
        }
        seq![text.subrange(i, end)] + lines_from(text, end + 1)
    }
}

/// The lines of `text`. A text with `n` newline characters has `n + 1` lines.
pub open spec fn lines_of(text: Seq<char>) -> Seq<Seq<char>> {
    lines_from(text, 0)
}

/// The record that the lines `lines` state.
pub open spec fn record_of(lines: Seq<Seq<char>>) -> Result<CommitView, ParseError> {
    match absorb_all(lines) {
        Ok(p) => if p.commit.tree_hash.len() == 0 {
            Err(ParseError::MissingTree)
        } else {
            Ok(p.commit)
        },
        Err(e) => Err(e),
    }
}

/// The record that the text of a commit object states, its own identifier
/// left empty.
pub open spec fn commit_of(text: Seq<char>) -> Result<CommitView, ParseError> {
    record_of(lines_of(text))
}

/// Reading stops at the first failure.
pub proof fn lemma_absorb_from_err(e: ParseError, lines: Seq<Seq<char>>)
    ensures
        absorb_from(Err(e), lines) == Err::<Progress, ParseError>(e),
    decreases lines.len(),
{
    if lines.len() > 0 {
        lemma_absorb_from_err(e, lines.drop_last());
    }
}

/// Reading `first` and then `rest` is reading the two in a row.
pub proof fn lemma_absorb_from_concat(
    p: Result<Progress, ParseError>,
    first: Seq<Seq<char>>,
    rest: Seq<Seq<char>>,
)
    ensures
        absorb_from(p, first + rest) == absorb_from(absorb_from(p, first), rest),
    decreases rest.len(),
{
    if rest.len() == 0 {
        assert(first + rest =~= first);
    } else {
        lemma_absorb_from_concat(p, first, rest.drop_last());
        assert((first + rest).drop_last() =~= first + rest.drop_last());
    }
}

/// The parser's state: the record being filled and whether a signature
/// block is open.
pub struct Draft {
    pub commit: Commit,
    pub in_signature: bool,
}

impl View for Draft {
    type V = Progress;

    open spec fn view(&self) -> Progress {
        Progress { commit: self.commit@, in_signature: self.in_signature }
    }
}

impl Draft {
    /// The state before the first line.
    pub fn new() -> (d: Draft)
        ensures
            d@ == Progress::start(),
    {
        Draft { commit: Commit::new(), in_signature: false }
    }

    /// Reads one more line. A line that fails leaves the draft as it was.
    pub fn absorb(&mut self, line: &[char]) -> (r: Result<(), ParseError>)
        ensures
            match absorb(old(self)@, line@) {
                Ok(p) => r is Ok && final(self)@ == p,
                Err(e) => r == Err::<(), ParseError>(e) && final(self)@ == old(self)@,
            },
    {
        proof {
            reveal_strlit("tree ");
            reveal_strlit("parent ");
            reveal_strlit("author ");
            reveal_strlit("committer ");
        }
        let n = line.len();
        match classify_line(line) {
            LineKind::Tree => {
                let rest = slice_subrange(line, 5, n);
                assert(rest@ =~= line@.skip(5));
                self.commit.tree_hash = text_of(rest);
            },
            LineKind::Parent => {
                let rest = slice_subrange(line, 7, n);
                assert(rest@ =~= line@.skip(7));
                self.commit.parent_hashes.push(text_of(rest));
                assert(texts(self.commit.parent_hashes@) =~= texts(
                    old(self).commit.parent_hashes@,
                ).push(line@.skip(7)));
            },
            LineKind::Author => {
                let rest = slice_subrange(line, 7, n);
                assert(rest@ =~= line@.skip(7));
                match parse_identity(rest) {
                    Some(id) => {
                        self.commit.author_name = id.name;
                        self.commit.author_email = id.email;
                        self.commit.author_time = id.time;
                    },
                    None => {
                        return Err(ParseError::MalformedAuthorLine);
                    },
                }
            },
            LineKind::Committer => {
                let rest = slice_subrange(line, 10, n);
                assert(rest@ =~= line@.skip(10));
                match parse_identity(rest) {
                    Some(id) => {
                        self.commit.committer_name = id.name;
                        self.commit.committer_email = id.email;
                        self.commit.committer_time = id.time;
                    },
                    None => {
                        return Err(ParseError::MalformedCommitterLine);
                    },
                }
            },
            LineKind::SignatureStart => {
                self.in_signature = true;
            },
            LineKind::SignatureEnd => {
                self.in_signature = false;
            },
            LineKind::ChangeId => {},
            LineKind::Body => {
                if !self.in_signature {
                    append_chars(&mut self.commit.message, line);
                }
            },
        }
        Ok(())
    }

    /// Ends the reading: the record, if it has a tree.
    pub fn finish(self) -> (r: Result<Commit, ParseError>)
        ensures
            match r {
                Ok(c) => c@ == self@.commit && self@.commit.tree_hash.len() > 0,
                Err(e) => e == ParseError::MissingTree && self@.commit.tree_hash.len() == 0,
            },
    {
        if self.commit.tree_hash.as_str().is_empty() {
            Err(ParseError::MissingTree)
        } else {
            Ok(self.commit)
        }
    }
}

/// Parses the raw text of one commit object.
///
/// The result is the record that `commit_of` states for the text, or the
/// failure that it states. The record's own identifier is left empty: the
/// object's text does not hold it.
pub fn parse_commit(text: &str) -> (r: Result<Commit, ParseError>)
    ensures
        match r {
            Ok(c) => commit_of(text@) == Ok::<CommitView, ParseError>(c@) && c@.tree_hash.len() > 0,
            Err(e) => commit_of(text@) == Err::<CommitView, ParseError>(e),
        },
{
    let chars = chars_of(text);
    let all = chars.as_slice();
    let n = all.len();
    let mut draft = Draft::new();
    let ghost mut done: Seq<Seq<char>> = Seq::empty();
    let mut from: usize = 0;
    loop
        invariant_except_break
            from <= n,
            lines_of(text@) == done + lines_from(text@, from as int),
            absorb_all(done) == Ok::<Progress, ParseError>(draft@),
        invariant
            n == text@.len(),
            all@ == text@,
        ensures
            absorb_all(lines_of(text@)) == Ok::<Progress, ParseError>(draft@),
        decreases n - from,
    {
        let end = scan_to(all, '\n', from);
        let line = slice_subrange(all, from, end);
        let ghost rest = if end < n {
            lines_from(text@, end + 1)
        } else {
            Seq::empty()
        };
        assert(lines_of(text@) =~= done.push(line@) + rest);
        assert(done.push(line@).drop_last() =~= done);
        match draft.absorb(line) {
            Ok(()) => {},
            Err(e) => {
                proof {
                    lemma_absorb_from_concat(Ok(Progress::start()), done.push(line@), rest);
                    lemma_absorb_from_err(e, rest);
                }
                return Err(e);
            },
        }
        proof {
            done = done.push(line@);
        }
        if end == n {
            assert(done + rest =~= done);
            break ;
        }
        from = end + 1;
    }
    draft.finish()
}

/// A line that begins with a keyword is of that keyword's kind, whatever
/// follows the keyword.
pub proof fn lemma_keyword_kinds(line: Seq<char>)
    ensures
        begins_with(line, tree_word()) ==> kind_of(line) == LineKind::Tree,
        begins_with(line, parent_word()) ==> kind_of(line) == LineKind::Parent,
        begins_with(line, author_word()) ==> kind_of(line) == LineKind::Author,
        begins_with(line, committer_word()) ==> kind_of(line) == LineKind::Committer,
        begins_with(line, signature_word()) ==> kind_of(line) == LineKind::SignatureStart,
        begins_with(line, change_id_word()) ==> kind_of(line) == LineKind::ChangeId,
        begins_with(line, dashes()) ==> kind_of(line) == LineKind::SignatureEnd,
{
    reveal_strlit("tree ");
    reveal_strlit("parent ");
    reveal_strlit("author ");
    reveal_strlit("committer ");
    reveal_strlit("gpgsig ");
    reveal_strlit("change-id ");
    reveal_strlit("-----");
    if line.len() > 0 {
        let first = line[0];
        assert(begins_with(line, tree_word()) ==> line.take(5)[0] == 't');
        assert(begins_with(line, parent_word()) ==> line.take(7)[0] == 'p');
        assert(begins_with(line, author_word()) ==> line.take(7)[0] == 'a');
        assert(begins_with(line, committer_word()) ==> line.take(10)[0] == 'c' && line.take(10)[1]
            == 'o');
        assert(begins_with(line, signature_word()) ==> line.take(7)[0] == 'g');
        assert(begins_with(line, change_id_word()) ==> line.take(10)[0] == 'c' && line.take(10)[1]
            == 'h');
        assert(begins_with(line, dashes()) ==> line.take(5)[0] == '-');
        if !is_blank(first) {
            assert(trim_front(line) == line);
        }
        if begins_with(trim_front(line), dashes()) {
            lemma_trim_front_first(line);
            assert(trim_front(line).take(5)[0] == '-');
        }
    }
}

/// A record whose lines were accepted has a tree; lines none of which begins
/// with `tree ` state no record.
pub proof fn lemma_tree_required(lines: Seq<Seq<char>>)
    ensures
        record_of(lines) matches Ok(c) ==> c.tree_hash.len() > 0,
        (forall|i: int| 0 <= i < lines.len() ==> !begins_with(#[trigger] lines[i], tree_word()))
            ==> record_of(lines) is Err,
{
    if forall|i: int| 0 <= i < lines.len() ==> !begins_with(#[trigger] lines[i], tree_word()) {
        lemma_tree_kept(Progress::start(), lines);
    }
}

/// Lines none of which begins with `tree ` leave the tree as it was.
pub proof fn lemma_tree_kept(p: Progress, lines: Seq<Seq<char>>)
    requires
        forall|i: int| 0 <= i < lines.len() ==> !begins_with(#[trigger] lines[i], tree_word()),
    ensures
        absorb_from(Ok(p), lines) matches Ok(q) ==> q.commit.tree_hash == p.commit.tree_hash,
    decreases lines.len(),
{
    if lines.len() > 0 {
        let rest = lines.drop_last();
        assert forall|i: int| 0 <= i < rest.len() implies !begins_with(
            #[trigger] rest[i],
            tree_word(),
        ) by {
            assert(rest[i] == lines[i]);
        }
        lemma_tree_kept(p, rest);
        assert(lines.last() == lines[lines.len() - 1]);
    }
}

/// The times of a record are moments that a calendar date and time can
/// stand for.
pub proof fn lemma_record_dated(lines: Seq<Seq<char>>)
    ensures
        record_of(lines) matches Ok(c) ==> c.dated(),
{
    lemma_dated_kept(Progress::start(), lines);
}

/// Lines that are read leave the times of a record within the calendar.
pub proof fn lemma_dated_kept(p: Progress, lines: Seq<Seq<char>>)
    requires
        p.commit.dated(),
    ensures
        absorb_from(Ok(p), lines) matches Ok(q) ==> q.commit.dated(),
    decreases lines.len(),
{
    if lines.len() > 0 {
        lemma_dated_kept(p, lines.drop_last());
    }
}

/// The test that a line names a parent.
pub open spec fn names_parent() -> spec_fn(Seq<char>) -> bool {
    |line: Seq<char>| kind_of(line) == LineKind::Parent
}

/// What the parent lines among `lines` name, in the order of the lines.
pub open spec fn named_parents(lines: Seq<Seq<char>>) -> Seq<Seq<char>> {
    lines.filter(names_parent()).map_values(|line: Seq<char>| line.skip(parent_word().len() as int))
}

/// Each parent line adds what it names to the parents, behind those named
/// before, and no other line changes the parents.
pub proof fn lemma_parents_added(p: Progress, lines: Seq<Seq<char>>)
    ensures
        absorb_from(Ok(p), lines) matches Ok(q) ==> q.commit.parent_hashes
            == p.commit.parent_hashes + named_parents(lines),
    decreases lines.len(),
{
    broadcast use Seq::lemma_filter_push;

    if lines.len() == 0 {
        reveal(Seq::filter);
        assert(p.commit.parent_hashes + named_parents(lines) =~= p.commit.parent_hashes);
    } else {
        let rest = lines.drop_last();
        let line = lines.last();
        lemma_parents_added(p, rest);
        assert(rest.push(line) =~= lines);
        if absorb_from(Ok(p), lines) is Ok {
            let q = absorb_from(Ok(p), lines)->Ok_0;
            let before = absorb_from(Ok(p), rest)->Ok_0;
            if kind_of(line) == LineKind::Parent {
                assert(named_parents(lines) =~= named_parents(rest).push(
                    line.skip(parent_word().len() as int),
                ));
                assert(q.commit.parent_hashes =~= p.commit.parent_hashes + named_parents(lines));
            } else {
                assert(named_parents(lines) =~= named_parents(rest));
                assert(q.commit.parent_hashes == before.commit.parent_hashes);
            }
        }
    }
}

/// The parents of a record are what its parent lines name: each of them, in
/// the order of the lines.
pub proof fn lemma_parents_in_order(lines: Seq<Seq<char>>)
    ensures
        record_of(lines) matches Ok(c) ==> c.parent_hashes == named_parents(lines),
{
    lemma_parents_added(Progress::start(), lines);
    assert(Progress::start().commit.parent_hashes + named_parents(lines) =~= named_parents(lines));
}

/// Between the line that opens a signature block and the first line of
/// dashes after it, no line adds to the message; after the dashes the block
/// is closed.
pub proof fn lemma_signature_block_adds_nothing(
    p: Progress,
    opening: Seq<char>,
    block: Seq<Seq<char>>,
    closing: Seq<char>,
)
    requires
        kind_of(opening) == LineKind::SignatureStart,
        forall|i: int| 0 <= i < block.len() ==> kind_of(#[trigger] block[i]) != LineKind::SignatureEnd,
        kind_of(closing) == LineKind::SignatureEnd,
    ensures
        absorb_from(Ok(p), seq![opening] + block + seq![closing]) matches Ok(q) ==> q.commit.message
            == p.commit.message && !q.in_signature,
{
    let opened = Progress { in_signature: true, ..p };
    lemma_absorb_one(Ok(p), opening);
    lemma_absorb_from_concat(Ok(p), seq![opening], block);
    lemma_inside_signature(opened, block);
    lemma_absorb_from_concat(Ok(p), seq![opening] + block, seq![closing]);
    lemma_absorb_one(absorb_from(Ok(p), seq![opening] + block), closing);
}

/// Reading a single line.
pub proof fn lemma_absorb_one(p: Result<Progress, ParseError>, line: Seq<char>)
    ensures
        absorb_from(p, seq![line]) == match p {
            Ok(q) => absorb(q, line),
            Err(e) => Err(e),
        },
{
    reveal_with_fuel(absorb_from, 2);
    assert(seq![line].drop_last() =~= Seq::<Seq<char>>::empty());
}

/// While a signature block is open, lines other than a line of dashes keep
/// it open and leave the message as it was.
pub proof fn lemma_inside_signature(p: Progress, block: Seq<Seq<char>>)
    requires
        p.in_signature,
        forall|i: int| 0 <= i < block.len() ==> kind_of(#[trigger] block[i]) != LineKind::SignatureEnd,
    ensures
        absorb_from(Ok(p), block) matches Ok(q) ==> q.commit.message == p.commit.message
            && q.in_signature,
    decreases block.len(),
{
    if block.len() > 0 {
        let rest = block.drop_last();
        assert forall|i: int| 0 <= i < rest.len() implies kind_of(#[trigger] rest[i])
            != LineKind::SignatureEnd by {
            assert(rest[i] == block[i]);
        }
        lemma_inside_signature(p, rest);
        assert(block.last() == block[block.len() - 1]);
    }
}

/// A line that begins with `change-id ` changes nothing: the lines with it
/// state what the lines without it state.
pub proof fn lemma_change_id_dropped(before: Seq<Seq<char>>, line: Seq<char>, after: Seq<Seq<char>>)
    requires
        begins_with(line, change_id_word()),
    ensures
        forall|p: Progress| absorb(p, line) == Ok::<Progress, ParseError>(p),
        record_of(before + seq![line] + after) == record_of(before + after),
{
    lemma_keyword_kinds(line);
    let start = Ok::<Progress, ParseError>(Progress::start());
    lemma_absorb_from_concat(start, before + seq![line], after);
    lemma_absorb_from_concat(start, before, after);
    lemma_absorb_from_concat(start, before, seq![line]);
    lemma_absorb_one(absorb_from(start, before), line);
}

/// Behind a text `x`, the first `c` is found where it is found in what
/// follows `x`.
pub proof fn lemma_find_from_behind(x: Seq<char>, y: Seq<char>, c: char, j: int)
    requires
        0 <= j <= y.len(),
    ensures
        find_from(x + y, c, x.len() + j) == x.len() + find_from(y, c, j),
    decreases y.len() - j,
{
    if j < y.len() {
        assert((x + y)[x.len() + j] == y[j]);
        if y[j] != c {
            lemma_find_from_behind(x, y, c, j + 1);
        }
    }
}

/// Behind a text `x`, the lines are the lines of what follows `x`.
pub proof fn lemma_lines_behind(x: Seq<char>, y: Seq<char>, j: int)
    requires
        0 <= j <= y.len(),
    ensures
        lines_from(x + y, x.len() + j) == lines_from(y, j),
    decreases y.len() - j,
{
    let t = x + y;
    let end = find_from(y, '\n', j);
    lemma_find_from(y, '\n', j);
    lemma_find_from_behind(x, y, '\n', j);
    if end < y.len() {
        lemma_lines_behind(x, y, end + 1);
        assert(t.subrange(x.len() + j, x.len() + end) =~= y.subrange(j, end));
    } else {
        assert(t.subrange(x.len() + j, t.len() as int) =~= y.subrange(j, y.len() as int));
    }
}

/// A text without a newline character is one line.
pub proof fn lemma_one_line(s: Seq<char>)
    requires
        forall|k: int| 0 <= k < s.len() ==> s[k] != '\n',
    ensures
        lines_of(s) == seq![s],
{
    lemma_find_from_is(s, '\n', 0, s.len() as int);
    assert(s.subrange(0, s.len() as int) =~= s);
}

/// The lines of two texts joined by a newline character are the lines of the
/// first, then the lines of the second.
pub proof fn lemma_lines_join(a: Seq<char>, b: Seq<char>)
    ensures
        lines_of(a + seq!['\n'] + b) == lines_of(a) + lines_of(b),
{
    lemma_lines_join_from(a, b, 0);
}

/// The lines from position `i` of a first text, on to the end of a second
/// that a newline character joins to it.
pub proof fn lemma_lines_join_from(a: Seq<char>, b: Seq<char>, i: int)
    requires
        0 <= i <= a.len(),
    ensures
        lines_from(a + seq!['\n'] + b, i) == lines_from(a, i) + lines_of(b),
    decreases a.len() - i,
{
    let t = a + seq!['\n'] + b;
    let end = find_from(a, '\n', i);
    lemma_find_from(a, '\n', i);
    assert forall|k: int| i <= k < end implies t[k] != '\n' by {
        assert(t[k] == a[k]);
    }
    if end < a.len() {
        assert(t[end] == a[end]);
        lemma_find_from_is(t, '\n', i, end);
        lemma_lines_join_from(a, b, end + 1);
        assert(t.subrange(i, end) =~= a.subrange(i, end));
        assert(lines_from(t, i) =~= lines_from(a, i) + lines_of(b));
    } else {
        assert(t[a.len() as int] == '\n');
        lemma_find_from_is(t, '\n', i, a.len() as int);
        lemma_lines_behind(a + seq!['\n'], b, 0);
        assert(t.subrange(i, a.len() as int) =~= a.subrange(i, a.len() as int));
        assert(lines_from(t, i) =~= lines_from(a, i) + lines_of(b));
    }
}

/// A line of a text that begins with `change-id ` is not read: the text
/// states what it states without that line.
pub proof fn lemma_change_id_line_dropped(before: Seq<char>, line: Seq<char>, after: Seq<char>)
    requires
        begins_with(line, change_id_word()),
        forall|k: int| 0 <= k < line.len() ==> line[k] != '\n',
    ensures
        commit_of(before + seq!['\n'] + line + seq!['\n'] + after) == commit_of(
            before + seq!['\n'] + after,
        ),
{
    let newline = seq!['\n'];
    lemma_one_line(line);
    lemma_lines_join(before, line);
    lemma_lines_join(before + newline + line, after);
    lemma_lines_join(before, after);
    lemma_change_id_dropped(lines_of(before), line, lines_of(after));
}

/// A signature block in a text, from the line that begins with `gpgsig ` to
/// the first line of dashes, adds nothing to the message: the message of the
/// text is that of the text without the block, where the text before the
/// block leaves no earlier block open.
pub proof fn lemma_signature_block_in_text(
    before: Seq<char>,
    opening: Seq<char>,
    block: Seq<char>,
    closing: Seq<char>,
    after: Seq<char>,
)
    requires
        begins_with(opening, signature_word()),
        forall|k: int| 0 <= k < opening.len() ==> opening[k] != '\n',
        forall|i: int|
            0 <= i < lines_of(block).len() ==> kind_of(#[trigger] lines_of(block)[i])
                != LineKind::SignatureEnd,
        kind_of(closing) == LineKind::SignatureEnd,
        forall|k: int| 0 <= k < closing.len() ==> closing[k] != '\n',
        absorb_all(lines_of(before)) matches Ok(p) && !p.in_signature,
    ensures
        ({
            let signed = before + seq!['\n'] + opening + seq!['\n'] + block + seq!['\n'] + closing
                + seq!['\n'] + after;
            let plain = before + seq!['\n'] + after;
            absorb_all(lines_of(signed)) is Ok && absorb_all(lines_of(plain)) is Ok ==> absorb_all(
                lines_of(signed),
            )->Ok_0.commit.message == absorb_all(lines_of(plain))->Ok_0.commit.message
        }),
{
    let newline = seq!['\n'];
    let head = lines_of(before);
    let inner = seq![opening] + lines_of(block) + seq![closing];
    let tail = lines_of(after);
    let signed = before + newline + opening + newline + block + newline + closing + newline + after;
    let plain = before + newline + after;
    lemma_keyword_kinds(opening);
    lemma_one_line(opening);
    lemma_one_line(closing);
    lemma_lines_join(before, opening);
    lemma_lines_join(before + newline + opening, block);
    lemma_lines_join(before + newline + opening + newline + block, closing);
    lemma_lines_join(before + newline + opening + newline + block + newline + closing, after);
    lemma_lines_join(before, after);
    assert(lines_of(signed) =~= head + inner + tail);
    assert(lines_of(plain) =~= head + tail);
    let start = Ok::<Progress, ParseError>(Progress::start());
    let p = absorb_all(head)->Ok_0;
    lemma_absorb_from_concat(start, head, inner);
    lemma_absorb_from_concat(start, head + inner, tail);
    lemma_absorb_from_concat(start, head, tail);
    lemma_signature_block_adds_nothing(p, opening, lines_of(block), closing);
    if absorb_from(Ok(p), inner) is Ok {
        let s = absorb_from(Ok(p), inner)->Ok_0;
        lemma_message_grows_alike(s, p, tail);
    } else {
        lemma_absorb_from_err(absorb_from(Ok(p), inner)->Err_0, tail);
    }
}

/// Two records in the making with one message and no signature block open
/// get the same message from the same lines.
pub proof fn lemma_message_grows_alike(a: Progress, b: Progress, lines: Seq<Seq<char>>)
    requires
        a.commit.message == b.commit.message,
        a.in_signature == b.in_signature,
    ensures
        absorb_from(Ok(a), lines) is Ok && absorb_from(Ok(b), lines) is Ok ==> {
            let x = absorb_from(Ok(a), lines)->Ok_0;
            let y = absorb_from(Ok(b), lines)->Ok_0;
            x.commit.message == y.commit.message && x.in_signature == y.in_signature
        },
    decreases lines.len(),
{
    if lines.len() > 0 {
        lemma_message_grows_alike(a, b, lines.drop_last());
    }
}

} // verus!
