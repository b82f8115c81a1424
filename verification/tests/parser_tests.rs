use gitlogue::parser::{classify_line, parse_commit, Draft, LineKind, ParseError};
use gitlogue::time::DEFAULT_TIMESTAMP;

fn chars(s: &str) -> Vec<char> {
    s.chars().collect()
}

const PLAIN: &str = "tree 4b825dc642cb6eb9a060e54bf8d69288fbee4904\n\
parent 1111111111111111111111111111111111111111\n\
author Jane Q Public <jane@example.com> 1000000000 +0000\n\
committer Joe Bloggs <joe@example.com> 1000000060 +0100\n\
\n\
Fix the frobnicator\n\
\n\
It was broken.\n";

#[test]
fn parses_a_plain_commit() {
    let c = parse_commit(PLAIN).unwrap();
    assert_eq!(c.tree_hash, "4b825dc642cb6eb9a060e54bf8d69288fbee4904");
    assert_eq!(c.parent_hashes, vec!["1111111111111111111111111111111111111111".to_string()]);
    assert_eq!(c.author_name, "Jane Q Public ");
    assert_eq!(c.author_email, "jane@example.com");
    assert_eq!(c.author_time, 1000000000);
    assert_eq!(c.committer_name, "Joe Bloggs ");
    assert_eq!(c.committer_email, "joe@example.com");
    assert_eq!(c.committer_time, 1000000060);
    assert_eq!(c.commit_hash, "");
}

#[test]
fn message_lines_are_joined_without_separator() {
    let c = parse_commit(PLAIN).unwrap();
    assert_eq!(c.message, "Fix the frobnicatorIt was broken.");
}

#[test]
fn parsing_twice_gives_the_same_record() {
    let a = parse_commit(PLAIN).unwrap();
    let b = parse_commit(PLAIN).unwrap();
    assert_eq!(a.tree_hash, b.tree_hash);
    assert_eq!(a.parent_hashes, b.parent_hashes);
    assert_eq!(a.commit_hash, b.commit_hash);
    assert_eq!(a.author_name, b.author_name);
    assert_eq!(a.author_email, b.author_email);
    assert_eq!(a.author_time, b.author_time);
    assert_eq!(a.committer_name, b.committer_name);
    assert_eq!(a.committer_email, b.committer_email);
    assert_eq!(a.committer_time, b.committer_time);
    assert_eq!(a.message, b.message);
}

#[test]
fn tree_hash_is_never_empty_on_success() {
    let c = parse_commit("tree x").unwrap();
    assert!(!c.tree_hash.is_empty());
    assert_eq!(c.tree_hash, "x");
}

#[test]
fn missing_tree_is_rejected() {
    let text = "parent A\nauthor A <a@b.c> 1 +0000\ncommitter C <c@d.e> 2 +0000\n\nmsg";
    assert_eq!(parse_commit(text).unwrap_err(), ParseError::MissingTree);
    assert_eq!(parse_commit("").unwrap_err(), ParseError::MissingTree);
}

#[test]
fn tree_line_without_a_hash_is_rejected() {
    assert_eq!(parse_commit("tree \nmsg").unwrap_err(), ParseError::MissingTree);
}

#[test]
fn the_last_tree_line_decides() {
    let c = parse_commit("tree one\ntree two").unwrap();
    assert_eq!(c.tree_hash, "two");
}

#[test]
fn root_commit_has_no_parent() {
    let c = parse_commit("tree t\n\nroot").unwrap();
    assert!(c.parent_hashes.is_empty());
}

#[test]
fn parents_keep_their_order() {
    let c = parse_commit("tree t\nparent A\nparent B\n\nmerge").unwrap();
    assert_eq!(c.parent_hashes, vec!["A".to_string(), "B".to_string()]);
}

#[test]
fn many_parents_are_all_kept() {
    let c = parse_commit("tree t\nparent C\nparent A\nparent B\nparent A\n").unwrap();
    assert_eq!(
        c.parent_hashes,
        vec!["C".to_string(), "A".to_string(), "B".to_string(), "A".to_string()]
    );
}

#[test]
fn author_name_with_spaces_is_read_in_full() {
    let c = parse_commit("tree t\nauthor Jane Q Public <jane@example.com> 1000000000 +0000").unwrap();
    assert_eq!(c.author_name, "Jane Q Public ");
    assert_eq!(c.author_email, "jane@example.com");
    assert_eq!(c.author_time, 1000000000);
}

#[test]
fn committer_name_with_spaces_is_read_in_full() {
    let c = parse_commit("tree t\ncommitter Jane Q Public <jane@example.com> 1000000000 +0000")
        .unwrap();
    assert_eq!(c.committer_name, "Jane Q Public ");
    assert_eq!(c.committer_email, "jane@example.com");
    assert_eq!(c.committer_time, 1000000000);
}

#[test]
fn missing_person_lines_leave_the_defaults() {
    let c = parse_commit("tree t").unwrap();
    assert_eq!(c.author_name, "");
    assert_eq!(c.author_email, "");
    assert_eq!(c.author_time, DEFAULT_TIMESTAMP);
    assert_eq!(c.committer_name, "");
    assert_eq!(c.committer_email, "");
    assert_eq!(c.committer_time, DEFAULT_TIMESTAMP);
    assert_eq!(c.author_time, 1033776000);
}

const SIGNED: &str = "tree t\n\
author A <a@b.c> 1 +0000\n\
committer C <c@d.e> 2 +0000\n\
gpgsig -----BEGIN PGP SIGNATURE-----\n \n wsBcBAABCAAQBQJhZ0000000000000000000\n mQENBF0000\n =AbCd\n -----END PGP SIGNATURE-----\n\
\n\
Signed work\n";

#[test]
fn signature_block_adds_nothing_to_the_message() {
    let c = parse_commit(SIGNED).unwrap();
    assert_eq!(c.message, "Signed work");
}

#[test]
fn signature_block_of_any_length_adds_nothing() {
    for n in [0usize, 1, 7, 300] {
        let mut text = String::from("tree t\ngpgsig -----BEGIN PGP SIGNATURE-----\n");
        for i in 0..n {
            text.push_str(&format!(" line{}\n", i));
        }
        text.push_str(" -----END PGP SIGNATURE-----\nbody");
        let c = parse_commit(&text).unwrap();
        assert_eq!(c.message, "body");
    }
}

#[test]
fn signature_block_closed_by_a_plain_line_of_dashes() {
    let c = parse_commit("tree t\ngpgsig abc\nhidden\n-----\nseen").unwrap();
    assert_eq!(c.message, "seen");
}

#[test]
fn unclosed_signature_block_hides_the_rest() {
    let c = parse_commit("tree t\nbefore\ngpgsig abc\nhidden\nalso hidden").unwrap();
    assert_eq!(c.message, "before");
}

#[test]
fn headers_inside_a_signature_block_are_still_read() {
    let c = parse_commit("gpgsig abc\ntree t\nparent P\nhidden\n-----\nseen").unwrap();
    assert_eq!(c.tree_hash, "t");
    assert_eq!(c.parent_hashes, vec!["P".to_string()]);
    assert_eq!(c.message, "seen");
}

#[test]
fn a_line_of_dashes_is_never_part_of_the_message() {
    let c = parse_commit("tree t\none\n-----\ntwo\n   ------ more\nthree").unwrap();
    assert_eq!(c.message, "onetwothree");
}

#[test]
fn four_dashes_are_ordinary_text() {
    let c = parse_commit("tree t\n----").unwrap();
    assert_eq!(c.message, "----");
}

#[test]
fn change_id_line_is_excluded() {
    let c = parse_commit("tree t\n\nSubject\nchange-id I1234567890\n").unwrap();
    assert_eq!(c.message, "Subject");
}

#[test]
fn bare_change_id_keyword_is_excluded() {
    let c = parse_commit("tree t\nchange-id \nrest").unwrap();
    assert_eq!(c.message, "rest");
}

#[test]
fn change_id_without_space_is_text() {
    let c = parse_commit("tree t\nchange-id").unwrap();
    assert_eq!(c.message, "change-id");
}

#[test]
fn malformed_author_line_is_an_error() {
    let r = parse_commit("tree t\nauthor BadLineNoEmail");
    assert_eq!(r.unwrap_err(), ParseError::MalformedAuthorLine);
}

#[test]
fn malformed_committer_line_is_an_error() {
    let r = parse_commit("tree t\ncommitter BadLineNoEmail");
    assert_eq!(r.unwrap_err(), ParseError::MalformedCommitterLine);
}

#[test]
fn the_first_malformed_line_decides_the_error() {
    let r = parse_commit("committer bad\nauthor bad");
    assert_eq!(r.unwrap_err(), ParseError::MalformedCommitterLine);
    let r = parse_commit("author bad\ncommitter bad");
    assert_eq!(r.unwrap_err(), ParseError::MalformedAuthorLine);
}

#[test]
fn malformed_line_wins_over_missing_tree() {
    let r = parse_commit("author A <a@b.c> notanumber");
    assert_eq!(r.unwrap_err(), ParseError::MalformedAuthorLine);
}

#[test]
fn author_timestamp_must_be_an_integer() {
    for bad in ["abc", "", "12x", "1.5", "+", "-", "0x10", "99999999999999999999"] {
        let text = format!("tree t\nauthor A <a@b.c> {} +0000", bad);
        assert_eq!(parse_commit(&text).unwrap_err(), ParseError::MalformedAuthorLine);
    }
}

#[test]
fn author_line_without_timestamp_is_an_error() {
    assert_eq!(
        parse_commit("tree t\nauthor A <a@b.c>").unwrap_err(),
        ParseError::MalformedAuthorLine
    );
    assert_eq!(
        parse_commit("tree t\nauthor A <a@b.c> ").unwrap_err(),
        ParseError::MalformedAuthorLine
    );
}

#[test]
fn email_needs_both_brackets() {
    for bad in ["author A <a@b.c 5", "author A a@b.c> 5", "author A < 5", "author <", "author "] {
        let text = format!("tree t\n{}", bad);
        assert_eq!(parse_commit(&text).unwrap_err(), ParseError::MalformedAuthorLine);
    }
}

#[test]
fn empty_name_and_empty_email_are_accepted() {
    let c = parse_commit("tree t\nauthor <> 7").unwrap();
    assert_eq!(c.author_name, "");
    assert_eq!(c.author_email, "");
    assert_eq!(c.author_time, 7);
}

#[test]
fn time_zone_is_optional_and_ignored() {
    let a = parse_commit("tree t\nauthor A <a@b.c> 1700000000").unwrap();
    let b = parse_commit("tree t\nauthor A <a@b.c> 1700000000 -0800").unwrap();
    let c = parse_commit("tree t\nauthor A <a@b.c> 1700000000 nonsense and more").unwrap();
    assert_eq!(a.author_time, 1700000000);
    assert_eq!(b.author_time, 1700000000);
    assert_eq!(c.author_time, 1700000000);
}

#[test]
fn signed_timestamps_are_read() {
    let c = parse_commit("tree t\nauthor A <a@b.c> -86400 +0000\ncommitter C <c@d.e> +5 +0000")
        .unwrap();
    assert_eq!(c.author_time, -86400);
    assert_eq!(c.committer_time, 5);
}

#[test]
fn timestamp_may_end_with_a_carriage_return() {
    let c = parse_commit("tree t\r\nauthor A <a@b.c> 42\r\n").unwrap();
    assert_eq!(c.author_time, 42);
    assert_eq!(c.tree_hash, "t\r");
}

#[test]
fn timestamp_beyond_the_calendar_is_an_error() {
    let ok = parse_commit("tree t\ncommitter C <c@d.e> 8210266876799 +0000").unwrap();
    assert_eq!(ok.committer_time, 8210266876799);
    let r = parse_commit("tree t\ncommitter C <c@d.e> 8210266876800 +0000");
    assert_eq!(r.unwrap_err(), ParseError::MalformedCommitterLine);
    let ok = parse_commit("tree t\nauthor A <a@b.c> -8334601228800 +0000").unwrap();
    assert_eq!(ok.author_time, -8334601228800);
    let r = parse_commit("tree t\nauthor A <a@b.c> -8334601228801 +0000");
    assert_eq!(r.unwrap_err(), ParseError::MalformedAuthorLine);
    let r = parse_commit("tree t\nauthor A <a@b.c> 9223372036854775807 +0000");
    assert_eq!(r.unwrap_err(), ParseError::MalformedAuthorLine);
}

#[test]
fn name_may_hold_brackets_inside_a_word() {
    let c = parse_commit("tree t\nauthor a<b c>d <e@f.g> 1").unwrap();
    assert_eq!(c.author_name, "a<b c>d ");
    assert_eq!(c.author_email, "e@f.g");
}

#[test]
fn double_space_in_name_is_kept() {
    let c = parse_commit("tree t\nauthor A  B <e@f.g> 1").unwrap();
    assert_eq!(c.author_name, "A  B ");
}

#[test]
fn keyword_must_start_the_line() {
    let c = parse_commit("tree t\n tree u\n\tparent p\n author x").unwrap();
    assert_eq!(c.tree_hash, "t");
    assert!(c.parent_hashes.is_empty());
    assert_eq!(c.message, " tree u\tparent p author x");
}

#[test]
fn body_line_that_begins_with_a_keyword_is_a_header() {
    let c = parse_commit("tree t\n\ntree of life").unwrap();
    assert_eq!(c.tree_hash, "of life");
    assert_eq!(c.message, "");
}

#[test]
fn blank_lines_add_nothing() {
    let c = parse_commit("tree t\n\n\n\na\n\nb\n\n").unwrap();
    assert_eq!(c.message, "ab");
}

#[test]
fn lines_are_added_verbatim() {
    let c = parse_commit("tree t\n  indented  \n<tab>\there").unwrap();
    assert_eq!(c.message, "  indented  <tab>\there");
}

#[test]
fn non_ascii_text_is_kept() {
    let c = parse_commit("tree t\nauthor Żółć Ünï <ü@ö.example> 3\nGrüße 🎉").unwrap();
    assert_eq!(c.author_name, "Żółć Ünï ");
    assert_eq!(c.author_email, "ü@ö.example");
    assert_eq!(c.message, "Grüße 🎉");
}

#[test]
fn classifies_each_kind_of_line() {
    assert_eq!(classify_line(&chars("tree abc")), LineKind::Tree);
    assert_eq!(classify_line(&chars("tree ")), LineKind::Tree);
    assert_eq!(classify_line(&chars("parent abc")), LineKind::Parent);
    assert_eq!(classify_line(&chars("author x")), LineKind::Author);
    assert_eq!(classify_line(&chars("committer x")), LineKind::Committer);
    assert_eq!(classify_line(&chars("gpgsig -----BEGIN PGP SIGNATURE-----")), LineKind::SignatureStart);
    assert_eq!(classify_line(&chars(" -----END PGP SIGNATURE-----")), LineKind::SignatureEnd);
    assert_eq!(classify_line(&chars("-----")), LineKind::SignatureEnd);
    assert_eq!(classify_line(&chars("\t \u{a0}------")), LineKind::SignatureEnd);
    assert_eq!(classify_line(&chars("change-id I1234567890")), LineKind::ChangeId);
    assert_eq!(classify_line(&chars("")), LineKind::Body);
    assert_eq!(classify_line(&chars("tree")), LineKind::Body);
    assert_eq!(classify_line(&chars("Tree x")), LineKind::Body);
    assert_eq!(classify_line(&chars(" parent x")), LineKind::Body);
    assert_eq!(classify_line(&chars("---- -")), LineKind::Body);
    assert_eq!(classify_line(&chars("x -----")), LineKind::Body);
    assert_eq!(classify_line(&chars("gpgsig")), LineKind::Body);
}

#[test]
fn draft_reads_line_by_line() {
    let mut d = Draft::new();
    assert!(d.absorb(&chars("tree t")).is_ok());
    assert!(d.absorb(&chars("gpgsig x")).is_ok());
    assert!(d.in_signature);
    assert!(d.absorb(&chars("hidden")).is_ok());
    assert!(d.absorb(&chars("-----")).is_ok());
    assert!(!d.in_signature);
    assert!(d.absorb(&chars("seen")).is_ok());
    let c = d.finish().unwrap();
    assert_eq!(c.tree_hash, "t");
    assert_eq!(c.message, "seen");
}

#[test]
fn draft_is_unchanged_by_a_line_that_fails() {
    let mut d = Draft::new();
    assert!(d.absorb(&chars("tree t")).is_ok());
    assert!(d.absorb(&chars("author Good <g@h.i> 9")).is_ok());
    assert_eq!(d.absorb(&chars("author bad")), Err(ParseError::MalformedAuthorLine));
    assert_eq!(d.commit.author_name, "Good ");
    assert_eq!(d.commit.author_time, 9);
    assert_eq!(d.commit.tree_hash, "t");
}

#[test]
fn draft_without_tree_does_not_finish() {
    let d = Draft::new();
    assert_eq!(d.finish().unwrap_err(), ParseError::MissingTree);
}

#[test]
fn text_with_and_without_change_id_line_state_the_same() {
    let with = parse_commit("tree t\nparent P\none\nchange-id Iabc\ntwo").unwrap();
    let without = parse_commit("tree t\nparent P\none\ntwo").unwrap();
    assert_eq!(with.tree_hash, without.tree_hash);
    assert_eq!(with.parent_hashes, without.parent_hashes);
    assert_eq!(with.message, without.message);
    assert_eq!(with.message, "onetwo");
}

#[test]
fn text_with_and_without_signature_block_have_one_message() {
    let signed = parse_commit("tree t\none\ngpgsig x\n a\n b\n -----END\ntwo").unwrap();
    let plain = parse_commit("tree t\none\ntwo").unwrap();
    assert_eq!(signed.message, plain.message);
    assert_eq!(signed.message, "onetwo");
}

#[test]
fn times_of_a_record_lie_within_the_calendar() {
    let c = parse_commit(PLAIN).unwrap();
    assert!(chrono::DateTime::from_timestamp(c.author_time, 0).is_some());
    assert!(chrono::DateTime::from_timestamp(c.committer_time, 0).is_some());
    let c = parse_commit("tree t").unwrap();
    assert!(chrono::DateTime::from_timestamp(c.author_time, 0).is_some());
    assert!(chrono::DateTime::from_timestamp(c.committer_time, 0).is_some());
}
