use rusty_journal::cli::{run_action, Action, Outcome};
use rusty_journal::journal::JournalError;

fn updated(r: Result<Outcome, JournalError>) -> String {
    match r.unwrap() {
        Outcome::Updated(doc) => doc,
        Outcome::Lines(_) => panic!("expected new document content"),
    }
}

fn lines(r: Result<Outcome, JournalError>) -> Vec<String> {
    match r.unwrap() {
        Outcome::Lines(ls) => ls,
        Outcome::Updated(_) => panic!("expected lines"),
    }
}

#[test]
fn end_to_end_scenario() {
    // starting from no file: add "buy milk", add "walk dog", done 1, list
    let doc = updated(run_action(
        "",
        Action::Add {
            text: "buy milk".to_string(),
        },
        1000,
    ));
    let doc = updated(run_action(
        &doc,
        Action::Add {
            text: "walk dog".to_string(),
        },
        1001,
    ));
    let doc = updated(run_action(&doc, Action::Done { position: 1 }, 1002));
    let listed = lines(run_action(&doc, Action::List, 1003));
    assert_eq!(listed, vec!["1: walk dog [1001]".to_string()]);

    // the on-disk document decodes to a one-element sequence, and reads as
    // plain JSON with the field names preserved
    let value: serde_json::Value = serde_json::from_str(&doc).unwrap();
    let entries = value.as_array().unwrap();
    assert_eq!(entries.len(), 1);
    assert_eq!(entries[0].get("text").unwrap().as_str().unwrap(), "walk dog");
    assert_eq!(entries[0].get("created_at").unwrap().as_u64().unwrap(), 1001);
}

#[test]
fn documents_with_escapes_read_as_plain_json() {
    let text = "a \"quoted\" \\ backslash";
    let doc = updated(run_action(
        "",
        Action::Add {
            text: text.to_string(),
        },
        7,
    ));
    let value: serde_json::Value = serde_json::from_str(&doc).unwrap();
    let entries = value.as_array().unwrap();
    assert_eq!(entries[0].get("text").unwrap().as_str().unwrap(), text);
}

#[test]
fn run_action_reports_errors() {
    assert_eq!(
        run_action("junk", Action::List, 0).unwrap_err(),
        JournalError::Corrupt
    );
    assert_eq!(
        run_action("", Action::Done { position: 1 }, 0).unwrap_err(),
        JournalError::InvalidPosition
    );
}
