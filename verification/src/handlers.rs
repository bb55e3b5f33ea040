//! How the handlers of document notifications react to a reload of the
//! session's project.

use vstd::prelude::*;
use crate::text::str_equals;

verus! {

/// An error that a handler answers with; the client receives it as an
/// internal error.
pub struct HandlerError {
    pub message: String,
}

/// What the save handler does once the project reloaded.
#[derive(Clone, Copy, Debug, PartialEq, Eq, Structural)]
pub enum SaveFollowUp {
    /// Run the project's generators.
    RunGenerators,
}

/// The diagnostics to publish after a document was opened: those of the
/// document at `uri`, tagged with the version that was opened.
pub struct PublishDiagnostics {
    pub uri: String,
    pub version: Option<i32>,
}

/// The document notifications that have a handler.
#[derive(Clone, Copy, Debug, PartialEq, Eq, Structural)]
pub enum DocumentNotification {
    DidOpen,
    DidSave,
}

/// The handler for a notification method, if it has one.
pub open spec fn handler_for(method: Seq<char>) -> Option<DocumentNotification> {
    if method == "textDocument/didOpen"@ {
        Some(DocumentNotification::DidOpen)
    } else if method == "textDocument/didSave"@ {
        Some(DocumentNotification::DidSave)
    } else {
        None
    }
}

/// A notification reaches the open handler exactly when its method is
/// `textDocument/didOpen`, the save handler exactly when its method is
/// `textDocument/didSave`, and no handler otherwise.
pub proof fn notifications_reach_their_own_handler(method: Seq<char>)
    ensures
        (handler_for(method) == Some(DocumentNotification::DidOpen)) <==> method
            == "textDocument/didOpen"@,
        (handler_for(method) == Some(DocumentNotification::DidSave)) <==> method
            == "textDocument/didSave"@,
        handler_for(method) is None <==> (method != "textDocument/didOpen"@ && method
            != "textDocument/didSave"@),
{
    reveal_strlit("textDocument/didOpen");
    reveal_strlit("textDocument/didSave");
    assert("textDocument/didOpen"@[16] != "textDocument/didSave"@[16]);
}

/// Which handler a notification goes to; `None` for a method without one.
pub fn document_notification(method: &str) -> (r: Option<DocumentNotification>)
    ensures
        r == handler_for(method@),
        (r == Some(DocumentNotification::DidOpen)) <==> method@ == "textDocument/didOpen"@,
        (r == Some(DocumentNotification::DidSave)) <==> method@ == "textDocument/didSave"@,
        r is None <==> (method@ != "textDocument/didOpen"@ && method@ != "textDocument/didSave"@),
{
    proof {
        notifications_reach_their_own_handler(method@);
    }
    if str_equals(method, "textDocument/didOpen") {
        Some(DocumentNotification::DidOpen)
    } else if str_equals(method, "textDocument/didSave") {
        Some(DocumentNotification::DidSave)
    } else {
        None
    }
}

/// The handler of `textDocument/didSave`.
pub struct DidSaveTextDocument;

/// The handler of `textDocument/didOpen`.
pub struct DidOpenTextDocumentHandler;

impl DidSaveTextDocument {
    /// Given the outcome of reloading the project (the reason where it
    /// failed): after a reload the generators run; a failed reload is
    /// answered as an internal error and nothing runs.
    pub fn run(reload: Result<(), String>) -> (r: Result<SaveFollowUp, HandlerError>)
        ensures
            reload is Ok ==> r == Ok::<SaveFollowUp, HandlerError>(SaveFollowUp::RunGenerators),
            reload is Err ==> (r matches Err(e) && e.message@ == reload->Err_0@),
    {
        match reload {
            Ok(()) => Ok(SaveFollowUp::RunGenerators),
            Err(why) => Err(HandlerError { message: why }),
        }
    }
}

impl DidOpenTextDocumentHandler {
    /// Given the opened document's URL and version and the outcome of
    /// reloading the project: after a reload, the diagnostics of that
    /// document are published with that version; a failed reload is
    /// answered as an internal error and nothing is published.
    pub fn run(uri: String, version: i32, reload: Result<(), String>) -> (r: Result<
        PublishDiagnostics,
        HandlerError,
    >)
        ensures
            reload is Ok ==> (r matches Ok(p) && p.uri@ == uri@ && p.version == Some(version)),
            reload is Err ==> (r matches Err(e) && e.message@ == reload->Err_0@),
    {
        match reload {
            Ok(()) => Ok(PublishDiagnostics { uri, version: Some(version) }),
            Err(why) => Err(HandlerError { message: why }),
        }
    }
}

} // verus!
