use language_server::handlers::{
    document_notification, DidOpenTextDocumentHandler, DidSaveTextDocument, DocumentNotification, SaveFollowUp,
};

#[test]
fn save_runs_the_generators_after_a_reload() {
    assert_eq!(DidSaveTextDocument::run(Ok(())).ok(), Some(SaveFollowUp::RunGenerators));
}

#[test]
fn save_reports_a_failed_reload() {
    match DidSaveTextDocument::run(Err("parse error".to_string())) {
        Err(e) => assert_eq!(e.message, "parse error"),
        Ok(_) => panic!("a failed reload is an error"),
    }
}

#[test]
fn open_publishes_the_diagnostics_of_the_opened_version() {
    let p = DidOpenTextDocumentHandler::run("file:///test.baml".to_string(), 3, Ok(()))
        .ok()
        .expect("diagnostics are published");
    assert_eq!(p.uri, "file:///test.baml");
    assert_eq!(p.version, Some(3));
}

#[test]
fn open_reports_a_failed_reload() {
    match DidOpenTextDocumentHandler::run("file:///test.baml".to_string(), 1, Err("bad".to_string())) {
        Err(e) => assert_eq!(e.message, "bad"),
        Ok(_) => panic!("a failed reload is an error"),
    }
}

#[test]
fn notifications_go_to_their_handlers() {
    assert_eq!(document_notification("textDocument/didOpen"), Some(DocumentNotification::DidOpen));
    assert_eq!(document_notification("textDocument/didSave"), Some(DocumentNotification::DidSave));
    assert_eq!(document_notification("textDocument/didClose"), None);
    assert_eq!(document_notification("textDocument/didopen"), None);
}
