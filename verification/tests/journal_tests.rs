use rusty_journal::journal::{add_task, complete_task, list_tasks, load, JournalError};
use rusty_journal::task::Task;

fn task(text: &str, created_at: u64) -> Task {
    Task { text: text.to_string(), created_at }
}

#[test]
fn exact_document_for_one_task() {
    let doc = add_task("", task("a", 5)).unwrap();
    assert_eq!(doc, "[{\"text\":\"a\",\"created_at\":5}]");
}

#[test]
fn exact_document_for_two_tasks() {
    let doc = add_task("", task("a", 5)).unwrap();
    let doc = add_task(&doc, task("b", 6)).unwrap();
    assert_eq!(
        doc,
        "[{\"text\":\"a\",\"created_at\":5},{\"text\":\"b\",\"created_at\":6}]"
    );
}

#[test]
fn round_trip_add_then_list() {
    let mut doc = String::new();
    let texts = ["buy milk", "walk dog", "water plants"];
    for (i, t) in texts.iter().enumerate() {
        doc = add_task(&doc, task(t, 100 + i as u64)).unwrap();
    }
    let lines = list_tasks(&doc).unwrap();
    assert_eq!(lines.len(), 3);
    assert_eq!(lines[0], "1: buy milk [100]");
    assert_eq!(lines[1], "2: walk dog [101]");
    assert_eq!(lines[2], "3: water plants [102]");
}

#[test]
fn empty_content_loads_as_empty_journal() {
    let tasks = load("").unwrap();
    assert!(tasks.is_empty());
}

#[test]
fn empty_content_lists_the_notice() {
    let lines = list_tasks("").unwrap();
    assert_eq!(lines, vec!["Task list is empty!".to_string()]);
}

#[test]
fn empty_document_lists_the_notice() {
    let doc = add_task("", task("only", 1)).unwrap();
    let doc = complete_task(&doc, 1).unwrap();
    let lines = list_tasks(&doc).unwrap();
    assert_eq!(lines, vec!["Task list is empty!".to_string()]);
}

#[test]
fn complete_removes_the_middle_task() {
    let doc = add_task("", task("A", 1)).unwrap();
    let doc = add_task(&doc, task("B", 2)).unwrap();
    let doc = add_task(&doc, task("C", 3)).unwrap();
    let doc = complete_task(&doc, 2).unwrap();
    let lines = list_tasks(&doc).unwrap();
    assert_eq!(lines, vec!["1: A [1]".to_string(), "2: C [3]".to_string()]);
}

#[test]
fn complete_rejects_zero_and_past_the_end() {
    let doc = add_task("", task("A", 1)).unwrap();
    let doc = add_task(&doc, task("B", 2)).unwrap();
    assert_eq!(complete_task(&doc, 0), Err(JournalError::InvalidPosition));
    assert_eq!(complete_task(&doc, 3), Err(JournalError::InvalidPosition));
    // the journal is unchanged: same tasks, same order
    let lines = list_tasks(&doc).unwrap();
    assert_eq!(lines, vec!["1: A [1]".to_string(), "2: B [2]".to_string()]);
}

#[test]
fn corrupt_content_is_an_error_not_empty() {
    assert_eq!(load("garbage").unwrap_err(), JournalError::Corrupt);
    assert_eq!(load("[{\"text\":\"a\"").unwrap_err(), JournalError::Corrupt);
    assert_eq!(list_tasks("{}"), Err(JournalError::Corrupt));
    assert_eq!(add_task("[", task("a", 1)), Err(JournalError::Corrupt));
    assert_eq!(complete_task("]", 1), Err(JournalError::Corrupt));
}

#[test]
fn non_canonical_documents_are_corrupt() {
    // a trailing space, a leading zero, and trailing content are all rejected
    assert_eq!(
        load("[{\"text\":\"a\",\"created_at\":5} ]").unwrap_err(),
        JournalError::Corrupt
    );
    assert_eq!(
        load("[{\"text\":\"a\",\"created_at\":05}]").unwrap_err(),
        JournalError::Corrupt
    );
    assert_eq!(load("[]x").unwrap_err(), JournalError::Corrupt);
}

#[test]
fn creation_time_too_large_for_u64_is_corrupt() {
    assert_eq!(
        load("[{\"text\":\"a\",\"created_at\":18446744073709551616}]").unwrap_err(),
        JournalError::Corrupt
    );
}

#[test]
fn largest_creation_time_round_trips() {
    let doc = add_task("", task("a", u64::MAX)).unwrap();
    assert_eq!(doc, "[{\"text\":\"a\",\"created_at\":18446744073709551615}]");
    let tasks = load(&doc).unwrap();
    assert_eq!(tasks.len(), 1);
    assert_eq!(tasks[0].created_at, u64::MAX);
}

#[test]
fn quotes_and_backslashes_round_trip() {
    let text = "say \"hi\" to C:\\tasks";
    let doc = add_task("", task(text, 9)).unwrap();
    let tasks = load(&doc).unwrap();
    assert_eq!(tasks.len(), 1);
    assert_eq!(tasks[0].text, text);
    assert_eq!(tasks[0].created_at, 9);
}

#[test]
fn empty_text_round_trips() {
    let doc = add_task("", task("", 0)).unwrap();
    assert_eq!(doc, "[{\"text\":\"\",\"created_at\":0}]");
    let lines = list_tasks(&doc).unwrap();
    assert_eq!(lines, vec!["1:  [0]".to_string()]);
}

#[test]
fn unicode_text_round_trips() {
    let text = "déjà vu ☕";
    let doc = add_task("", task(text, 42)).unwrap();
    let tasks = load(&doc).unwrap();
    assert_eq!(tasks.len(), 1);
    assert_eq!(tasks[0].text, text);
}
