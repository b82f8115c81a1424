//! The person lines of a commit object: a name, a bracketed email address,
//! a timestamp, and a time-zone offset that is not kept.

use crate::text::{
    decimal_of, find_from, lemma_find_from_is, parse_decimal, scan_to, text_of, trim, trimmed,
};
use crate::time::{checked_timestamp, is_timestamp};
use vstd::prelude::*;
use vstd::slice::slice_subrange;

verus! {

/// Who made or recorded a change, and when.
#[derive(Debug)]
pub struct Identity {
    pub name: String,
    pub email: String,
    /// Seconds since the epoch, UTC.
    pub time: i64,
}

/// What an `Identity` holds, as plain mathematical values.
pub struct IdentityView {
    pub name: Seq<char>,
    pub email: Seq<char>,
    pub time: i64,
}

impl View for Identity {
    type V = IdentityView;

    open spec fn view(&self) -> IdentityView {
        IdentityView { name: self.name@, email: self.email@, time: self.time }
    }
}

/// Whether a token that begins with `<` starts at position `p` of `s`.
/// Tokens are what single spaces separate.
pub open spec fn opens_email(s: Seq<char>, p: int) -> bool {
    0 <= p < s.len() && s[p] == '<' && (p == 0 || s[p - 1] == ' ')
}

/// The first position at or after `i` where a token begins with `<`;
/// the length of `s` where there is none.
pub open spec fn email_start(s: Seq<char>, i: int) -> int
    decreases s.len() - i,
{
    if i < 0 || i >= s.len() {
        s.len() as int
    } else if opens_email(s, i) {
        i
    } else {
        email_start(s, i + 1)
    }
}

/// The identity that the text `s` after a line's keyword states.
///
/// The name is everything before the first token that begins with `<`, the
/// separating space included. That token must end with `>`; the email is what
/// stands between the two brackets. The token after it, blanks at its ends
/// aside, must write a timestamp in decimal. Further tokens are not read.
/// Any other text states no identity.
pub open spec fn identity_of(s: Seq<char>) -> Option<IdentityView> {
    let p = email_start(s, 0);
    let q = find_from(s, ' ', p);
    let r = find_from(s, ' ', q + 1);
    if p < s.len() && q - p >= 2 && s[q - 1] == '>' && q < s.len() {
        match decimal_of(trimmed(s.subrange(q + 1, r))) {
            Some(t) => if is_timestamp(t) {
                Some(IdentityView { name: s.take(p), email: s.subrange(p + 1, q - 1), time: t })
            } else {
                None
            },
            None => None,
        }
    } else {
        None
    }
}

/// Tests whether a token that begins with `<` starts at position `p`.
fn email_opens_at(s: &[char], p: usize) -> (b: bool)
    requires
        p < s@.len(),
    ensures
        b == opens_email(s@, p as int),
{
    s[p] == '<' && (p == 0 || s[p - 1] == ' ')
}

/// Reads the text after the keyword of a person line.
pub fn parse_identity(s: &[char]) -> (r: Option<Identity>)
    ensures
        match r {
            Some(id) => identity_of(s@) == Some(id@),
            None => identity_of(s@) is None,
        },
{
    let n = s.len();
    let mut p: usize = 0;
    while p < n && !email_opens_at(s, p)
        invariant
            p <= n == s@.len(),
            email_start(s@, 0) == email_start(s@, p as int),
        decreases n - p,
    {
        p += 1;
    }
    if p == n {
        return None;
    }
    let q = scan_to(s, ' ', p);
    if q - p < 2 || q == n {
        return None;
    }
    if s[q - 1] != '>' {
        return None;
    }
    let r = scan_to(s, ' ', q + 1);
    let stamp = trim(slice_subrange(s, q + 1, r));
    match parse_decimal(stamp) {
        Some(t) => match checked_timestamp(t) {
            Some(time) => Some(
                Identity {
                    name: text_of(slice_subrange(s, 0, p)),
                    email: text_of(slice_subrange(s, p + 1, q - 1)),
                    time,
                },
            ),
            None => None,
        },
        None => None,
    }
}

/// The email token begins at `p` where no token before `p` begins with `<`
/// and the one at `p` does.
pub proof fn lemma_email_start_is(s: Seq<char>, i: int, p: int)
    requires
        0 <= i <= p < s.len(),
        forall|k: int| i <= k < p ==> !opens_email(s, k),
        opens_email(s, p),
    ensures
        email_start(s, i) == p,
    decreases p - i,
{
    if i < p {
        lemma_email_start_is(s, i + 1, p);
    }
}

/// No token before the email token begins with `<`.
pub proof fn lemma_email_start_first(s: Seq<char>, i: int)
    requires
        0 <= i <= s.len(),
    ensures
        i <= email_start(s, i) <= s.len(),
        forall|k: int| i <= k < email_start(s, i) ==> !opens_email(s, k),
        email_start(s, i) < s.len() ==> opens_email(s, email_start(s, i)),
    decreases s.len() - i,
{
    if i < s.len() && !opens_email(s, i) {
        lemma_email_start_first(s, i + 1);
    }
}

/// No word of a name that was read begins with `<`, and a name that is not
/// empty ends with the space that parted it from the email.
pub proof fn lemma_name_holds_no_email(s: Seq<char>)
    ensures
        identity_of(s) matches Some(id) ==> (forall|k: int| !opens_email(id.name, k)) && (
        id.name.len() == 0 || id.name.last() == ' '),
{
    lemma_email_start_first(s, 0);
    if identity_of(s) is Some {
        let p = email_start(s, 0);
        let name = s.take(p);
        assert forall|k: int| !opens_email(name, k) by {
            if opens_email(name, k) {
                assert(name[k] == s[k]);
                if k > 0 {
                    assert(name[k - 1] == s[k - 1]);
                }
                assert(opens_email(s, k));
            }
        }
        if p > 0 {
            assert(name.last() == s[p - 1]);
        }
    }
}

/// A name of any number of words is read in full: a text made of a name, an
/// email between brackets and a timestamp states that name, that email and
/// that time, whatever follows the timestamp.
///
/// The name is empty or ends with the space that parts it from the email,
/// and none of its words begins with `<`; the email and the timestamp hold
/// no space; what follows the timestamp, a time zone or anything else, is
/// parted from it by a space.
pub proof fn lemma_identity_of_parts(
    name: Seq<char>,
    email: Seq<char>,
    stamp: Seq<char>,
    rest: Seq<char>,
)
    requires
        name.len() == 0 || name.last() == ' ',
        forall|k: int| !opens_email(name, k),
        forall|k: int| 0 <= k < email.len() ==> email[k] != ' ',
        forall|k: int| 0 <= k < stamp.len() ==> stamp[k] != ' ',
        rest.len() == 0 || rest[0] == ' ',
    ensures
        identity_of(name + seq!['<'] + email + seq!['>', ' '] + stamp + rest) == (
        match decimal_of(trimmed(stamp)) {
            Some(t) => if is_timestamp(t) {
                Some(IdentityView { name, email, time: t })
            } else {
                None
            },
            None => None,
        }),
{
    let s = name + seq!['<'] + email + seq!['>', ' '] + stamp + rest;
    let p = name.len() as int;
    let q = p + 1 + email.len() + 1;
    let r = q + 1 + stamp.len();
    assert(s[p] == '<');
    assert forall|k: int| 0 <= k < p implies !opens_email(s, k) by {
        assert(s[k] == name[k]);
        if k > 0 {
            assert(s[k - 1] == name[k - 1]);
        }
        assert(!opens_email(name, k));
    }
    assert(opens_email(s, p)) by {
        if p > 0 {
            assert(s[p - 1] == name.last());
        }
    }
    lemma_email_start_is(s, 0, p);
    assert forall|k: int| p <= k < q implies s[k] != ' ' by {
        if p < k < q - 1 {
            assert(s[k] == email[k - p - 1]);
        }
    }
    assert(s[q] == ' ');
    lemma_find_from_is(s, ' ', p, q);
    assert forall|k: int| q + 1 <= k < r implies s[k] != ' ' by {
        assert(s[k] == stamp[k - q - 1]);
    }
    if r < s.len() {
        assert(s[r] == rest[0]);
    }
    lemma_find_from_is(s, ' ', q + 1, r);
    assert(s[q - 1] == '>');
    assert(s.take(p) =~= name);
    assert(s.subrange(p + 1, q - 1) =~= email);
    assert(s.subrange(q + 1, r) =~= stamp);
}

} // verus!
