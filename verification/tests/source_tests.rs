use gitlogue::source::{read_reply, signals_not_found, RawCommit, SourceReply, ToolOutput};

fn output(succeeded: bool, output: &str, diagnostics: &str) -> ToolOutput {
    ToolOutput { succeeded, output: output.to_string(), diagnostics: diagnostics.to_string() }
}

#[test]
fn not_found_signal_is_recognised() {
    assert!(signals_not_found("fatal: Not a valid object name HEAD~5\n"));
    assert!(signals_not_found("not a valid object name"));
    assert!(signals_not_found("NOT A VALID OBJECT NAME"));
    assert!(signals_not_found("warning: x\nfatal: Not a valid object name HEAD~12"));
}

#[test]
fn other_diagnostics_are_no_signal() {
    assert!(!signals_not_found(""));
    assert!(!signals_not_found("fatal: not a git repository"));
    assert!(!signals_not_found("not a valid object nam"));
    assert!(!signals_not_found("not a valid  object name"));
    assert!(!signals_not_found("not_a_valid_object_name"));
    assert!(!signals_not_found("not a valid object namf"));
    assert!(!signals_not_found("Not a valid object Name".replace('a', "à").as_str()));
}

#[test]
fn only_letters_differ_in_case() {
    assert!(!signals_not_found("not\u{0}a valid object name"));
    assert!(!signals_not_found("NOT@A@VALID@OBJECT@NAME"));
}

#[test]
fn reply_is_the_object_when_both_runs_succeed() {
    let r = read_reply(Some(output(true, "tree t\n", "")), Some(output(true, "abc\n", "")));
    match r {
        SourceReply::Object(RawCommit { text, id }) => {
            assert_eq!(text, "tree t\n");
            assert_eq!(id, "abc\n");
        }
        other => panic!("{:?}", other),
    }
}

#[test]
fn reply_is_not_found_on_the_signal() {
    let r = read_reply(
        Some(output(false, "", "fatal: Not a valid object name HEAD~3")),
        Some(output(false, "", "fatal: bad revision")),
    );
    assert!(matches!(r, SourceReply::NotFound));
    let r = read_reply(Some(output(true, "tree t", "fatal: Not a valid object name HEAD~3")), None);
    assert!(matches!(r, SourceReply::NotFound));
}

#[test]
fn reply_is_unavailable_when_the_tool_did_not_start() {
    assert!(matches!(read_reply(None, None), SourceReply::Unavailable));
    assert!(matches!(read_reply(None, Some(output(true, "abc", ""))), SourceReply::Unavailable));
    assert!(matches!(read_reply(Some(output(true, "tree t", "")), None), SourceReply::Unavailable));
}

#[test]
fn reply_is_unavailable_on_any_other_failure() {
    let r = read_reply(
        Some(output(false, "", "fatal: not a git repository")),
        Some(output(true, "abc", "")),
    );
    assert!(matches!(r, SourceReply::Unavailable));
    let r = read_reply(Some(output(true, "tree t", "")), Some(output(false, "", "boom")));
    assert!(matches!(r, SourceReply::Unavailable));
}

#[test]
fn raw_commit_clone_copies_both_texts() {
    let raw = RawCommit { text: "tree t".to_string(), id: " abc ".to_string() };
    let copy = raw.clone();
    assert_eq!(copy.text, "tree t");
    assert_eq!(copy.id, " abc ");
}
