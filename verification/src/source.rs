//! What the raw commit source hands to a walk, and how the output of the
//! version-control tool is read as such an answer.

use crate::text::chars_of;
use vstd::prelude::*;

verus! {

/// The raw form of one commit, as the source hands it over.
#[derive(Debug)]
pub struct RawCommit {
    /// The text of the commit object.
    pub text: String,
    /// The commit's identifier as the tool printed it, blanks around it included.
    pub id: String,
}

/// What a `RawCommit` holds, as plain mathematical values.
pub struct RawCommitView {
    pub text: Seq<char>,
    pub id: Seq<char>,
}

impl View for RawCommit {
    type V = RawCommitView;

    open spec fn view(&self) -> RawCommitView {
        RawCommitView { text: self.text@, id: self.id@ }
    }
}

impl Clone for RawCommit {
    fn clone(&self) -> (c: RawCommit)
        ensures
            c@ == self@,
    {
        RawCommit { text: self.text.clone(), id: self.id.clone() }
    }
}

/// The answer of the raw commit source for one generation.
#[derive(Debug)]
pub enum SourceReply {
    /// The generation exists.
    Object(RawCommit),
    /// There is no such ancestor: the history ends before this generation.
    NotFound,
    /// The tool could not be run, or failed without saying that the
    /// generation does not exist.
    Unavailable,
}

/// What a `SourceReply` holds, as plain mathematical values.
pub enum SourceReplyView {
    Object(RawCommitView),
    NotFound,
    Unavailable,
}

impl View for SourceReply {
    type V = SourceReplyView;

    open spec fn view(&self) -> SourceReplyView {
        match self {
            SourceReply::Object(raw) => SourceReplyView::Object(raw@),
            SourceReply::NotFound => SourceReplyView::NotFound,
            SourceReply::Unavailable => SourceReplyView::Unavailable,
        }
    }
}

/// What one finished run of the tool left behind.
#[derive(Debug)]
pub struct ToolOutput {
    /// Whether the tool reported success.
    pub succeeded: bool,
    /// What it printed as its result.
    pub output: String,
    /// What it printed as diagnostics.
    pub diagnostics: String,
}

/// What a `ToolOutput` holds, as plain mathematical values.
pub struct ToolOutputView {
    pub succeeded: bool,
    pub output: Seq<char>,
    pub diagnostics: Seq<char>,
}

impl View for ToolOutput {
    type V = ToolOutputView;

    open spec fn view(&self) -> ToolOutputView {
        ToolOutputView {
            succeeded: self.succeeded,
            output: self.output@,
            diagnostics: self.diagnostics@,
        }
    }
}

/// The words by which the tool says that a generation does not exist,
/// in lower case.
pub open spec fn not_found_words() -> Seq<char> {
    "not a valid object name"@
}

/// Whether `a` is the lower-case letter `b`, or its upper-case form, or any
/// other character equal to `b`.
pub open spec fn same_letter(a: char, b: char) -> bool {
    a == b || ('A' <= a <= 'Z' && a as u32 + 32 == b as u32)
}

/// Whether `word` stands in `s` at position `i`, the case of letters aside.
pub open spec fn stands_at(s: Seq<char>, word: Seq<char>, i: int) -> bool {
    0 <= i && i + word.len() <= s.len() && forall|j: int|
        0 <= j < word.len() ==> same_letter(#[trigger] s[i + j], word[j])
}

/// Whether `word` stands somewhere in `s`, the case of letters aside.
pub open spec fn mentions(s: Seq<char>, word: Seq<char>) -> bool {
    exists|i: int| stands_at(s, word, i)
}

/// Tests whether `a` and `b` are the same letter.
fn letters_agree(a: char, b: char) -> (r: bool)
    ensures
        r == same_letter(a, b),
{
    a == b || ('A' <= a && a <= 'Z' && a as u32 + 32 == b as u32)
}

/// Tests whether `word` stands in `s` at position `i`.
fn word_at(s: &[char], word: &[char], i: usize) -> (r: bool)
    requires
        i + word@.len() <= s@.len(),
    ensures
        r == stands_at(s@, word@, i as int),
{
    let n = s.len();
    let mut j: usize = 0;
    while j < word.len()
        invariant
            j <= word@.len(),
            i + word@.len() <= s@.len() == n,
            forall|k: int| 0 <= k < j ==> same_letter(#[trigger] s@[i + k], word@[k]),
        decreases word@.len() - j,
    {
        if !letters_agree(s[i + j], word[j]) {
            return false;
        }
        j += 1;
    }
    true
}

/// Tests whether the diagnostics of the tool say that the generation asked
/// for does not exist.
pub fn signals_not_found(diagnostics: &str) -> (r: bool)
    ensures
        r == mentions(diagnostics@, not_found_words()),
{
    let s = chars_of(diagnostics);
    let word = chars_of("not a valid object name");
    proof {
        reveal_strlit("not a valid object name");
    }
    if word.len() > s.len() {
        return false;
    }
    let starts: usize = s.len() - word.len() + 1;
    let mut i: usize = 0;
    while i < starts
        invariant
            i <= starts,
            starts + word@.len() == s@.len() + 1,
            s@ == diagnostics@,
            word@ == not_found_words(),
            forall|k: int| 0 <= k < i ==> !stands_at(s@, word@, k),
        decreases starts - i,
    {
        if word_at(s.as_slice(), word.as_slice(), i) {
            return true;
        }
        i += 1;
    }
    false
}

/// How the outcome of the tool's two runs for one generation is read.
///
/// `object` is the run that prints the commit object, `id` the run that
/// prints the commit's identifier; `None` stands for a run that could not be
/// started.
///
/// - Where the object run's diagnostics say that there is no such
///   generation, the answer is `NotFound`, whatever else holds.
/// - Where both runs succeeded, the answer is the object with its identifier.
/// - In every other case the source is unavailable.
pub open spec fn reply_of(
    object: Option<ToolOutputView>,
    id: Option<ToolOutputView>,
) -> SourceReplyView {
    match object {
        None => SourceReplyView::Unavailable,
        Some(o) => if mentions(o.diagnostics, not_found_words()) {
            SourceReplyView::NotFound
        } else if !o.succeeded {
            SourceReplyView::Unavailable
        } else {
            match id {
                Some(i) => if i.succeeded {
                    SourceReplyView::Object(RawCommitView { text: o.output, id: i.output })
                } else {
                    SourceReplyView::Unavailable
                },
                None => SourceReplyView::Unavailable,
            }
        },
    }
}

/// The view of an output that may be missing.
pub open spec fn output_view(o: Option<ToolOutput>) -> Option<ToolOutputView> {
    match o {
        Some(out) => Some(out@),
        None => None,
    }
}

/// Reads the outcome of the tool's two runs for one generation.
pub fn read_reply(object: Option<ToolOutput>, id: Option<ToolOutput>) -> (reply: SourceReply)
    ensures
        reply@ == reply_of(output_view(object), output_view(id)),
{
    match object {
        None => SourceReply::Unavailable,
        Some(o) => {
            if signals_not_found(o.diagnostics.as_str()) {
                SourceReply::NotFound
            } else if !o.succeeded {
                SourceReply::Unavailable
            } else {
                match id {
                    Some(i) => {
                        if i.succeeded {
                            SourceReply::Object(RawCommit { text: o.output, id: i.output })
                        } else {
                            SourceReply::Unavailable
                        }
                    },
                    None => SourceReply::Unavailable,
                }
            }
        },
    }
}

} // verus!
