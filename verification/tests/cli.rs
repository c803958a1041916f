use memdb::cli::{
    classify_line, command_action, delete, get, join_words, not_found, put, shell_action, Action,
    shell_step, Command, CommandError, LineKind, ShellStep,
};
use memdb::document::{Document, DocumentId};
use memdb::storage::{DecodeError, Operation, Record};

fn words(ws: &[&str]) -> Vec<String> {
    ws.iter().map(|w| String::from(*w)).collect()
}

fn body_of(ops: &[Operation]) -> Vec<u8> {
    let mut body = Vec::new();
    for op in ops {
        body.extend(Record::from_operation(op).encode());
    }
    body
}

fn inserted(action: Action) -> (u64, String) {
    match action {
        Action::Append(Operation::Insert(doc)) => (doc.id().value(), doc.content),
        _ => panic!("not an insert"),
    }
}

#[test]
fn words_are_joined_by_single_spaces() {
    assert_eq!(join_words(&words(&["hello", "big", "world"])), "hello big world");
    assert_eq!(join_words(&words(&["one"])), "one");
    assert_eq!(join_words(&words(&[])), "");
}

#[test]
fn put_and_delete_build_operations() {
    match put(3, String::from("text")) {
        Operation::Insert(doc) => {
            assert_eq!(doc.id(), DocumentId(3));
            assert_eq!(doc.content, "text");
        }
        _ => panic!("put must insert"),
    }
    match delete(4) {
        Operation::Delete(id) => assert_eq!(id, DocumentId(4)),
        _ => panic!("delete must delete"),
    }
}

#[test]
fn a_missing_document_is_not_found() {
    assert_eq!(not_found(7), CommandError::NotFound(7));
    assert_eq!(get(&[], 7), Err(CommandError::NotFound(7)));
}

#[test]
fn get_returns_the_latest_text() {
    let body = body_of(&[put(1, String::from("old")), put(1, String::from("new"))]);
    assert_eq!(get(&body, 1), Ok(String::from("new")));
    let body = body_of(&[put(1, String::from("hello")), delete(1)]);
    assert_eq!(get(&body, 1), Err(CommandError::NotFound(1)));
}

#[test]
fn get_reports_a_corrupt_log() {
    let mut body = body_of(&[put(1, String::from("hello"))]);
    body.pop();
    assert_eq!(get(&body, 1), Err(CommandError::Corrupt(DecodeError::UnexpectedEof)));
}

#[test]
fn command_line_actions() {
    assert!(matches!(command_action(None), Action::Shell));
    assert!(matches!(command_action(Some(Command::New)), Action::CreateLog));
    assert!(matches!(
        command_action(Some(Command::Get { id: 2 })),
        Action::Lookup(DocumentId(2))
    ));
    assert!(matches!(
        command_action(Some(Command::Delete { id: 5 })),
        Action::Append(Operation::Delete(DocumentId(5)))
    ));
    assert!(matches!(
        command_action(Some(Command::Put { id: 2, content: vec![] })),
        Action::PutFromInput(DocumentId(2))
    ));
    let action = command_action(Some(Command::Put { id: 1, content: words(&["hello", "big", "world"]) }));
    assert_eq!(inserted(action), (1, String::from("hello big world")));
}

#[test]
fn shell_refuses_new_and_put_without_content() {
    assert_eq!(shell_action(Command::New).err(), Some(CommandError::LogAlreadyOpen));
    assert_eq!(
        shell_action(Command::Put { id: 1, content: vec![] }).err(),
        Some(CommandError::MissingContent)
    );
    let action = shell_action(Command::Put { id: 2, content: words(&["ok"]) }).unwrap();
    assert_eq!(inserted(action), (2, String::from("ok")));
    assert!(matches!(shell_action(Command::Get { id: 2 }), Ok(Action::Lookup(DocumentId(2)))));
    assert!(matches!(
        shell_action(Command::Delete { id: 3 }),
        Ok(Action::Append(Operation::Delete(DocumentId(3))))
    ));
}

#[test]
fn shell_lines_are_classified_by_their_first_word() {
    assert_eq!(classify_line(&words(&[])), LineKind::Blank);
    assert_eq!(classify_line(&words(&["exit"])), LineKind::Quit);
    assert_eq!(classify_line(&words(&["quit", "now"])), LineKind::Quit);
    assert_eq!(classify_line(&words(&["help"])), LineKind::Command);
    assert_eq!(classify_line(&words(&["get", "exit"])), LineKind::Command);
    assert_eq!(classify_line(&words(&["Exit"])), LineKind::Command);
}

#[test]
fn a_document_written_by_put_is_read_by_get() {
    let doc = Document::new(DocumentId(8), String::from("héllo 🦀"));
    let body = body_of(&[Operation::Insert(doc)]);
    assert_eq!(get(&body, 8), Ok(String::from("héllo 🦀")));
}

#[test]
fn the_shell_ends_on_quit_or_end_of_input_only() {
    assert_eq!(shell_step(None, false), ShellStep::End);
    assert_eq!(shell_step(Some(LineKind::Quit), false), ShellStep::End);
    assert_eq!(shell_step(Some(LineKind::Blank), false), ShellStep::ReadNext);
    assert_eq!(shell_step(Some(LineKind::Command), false), ShellStep::ReadNext);
    assert_eq!(shell_step(Some(LineKind::Command), true), ShellStep::ReadNext);
}

#[test]
fn a_put_survives_later_writes_to_other_ids() {
    let body = body_of(&[
        put(1, String::from("kept")),
        put(2, String::from("a")),
        delete(3),
        put(2, String::from("b")),
        delete(2),
    ]);
    assert_eq!(get(&body, 1), Ok(String::from("kept")));
    assert_eq!(get(&body, 2), Err(CommandError::NotFound(2)));
}
