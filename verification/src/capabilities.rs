//! The capabilities that client and server exchange at initialization, as
//! plain values: the parts of them that the server reads or sets.

use vstd::prelude::*;
use crate::text::str_equals;

verus! {

/// How positions in a text document are counted.
#[derive(Clone, Copy, Debug, PartialEq, Eq, Structural)]
pub enum PositionEncoding {
    /// Supported by every client.
    UTF16,
    /// Second choice: a fixed four bytes per character.
    UTF32,
    /// The server's preferred encoding.
    UTF8,
}

/// The encoding that a position-encoding kind names, if it names one.
pub open spec fn encoding_for_kind(kind: Seq<char>) -> Option<PositionEncoding> {
    if kind == "utf-8"@ {
        Some(PositionEncoding::UTF8)
    } else if kind == "utf-16"@ {
        Some(PositionEncoding::UTF16)
    } else if kind == "utf-32"@ {
        Some(PositionEncoding::UTF32)
    } else {
        None
    }
}

impl PositionEncoding {
    /// Preference: the higher, the more preferred.
    pub open spec fn rank(self) -> int {
        match self {
            PositionEncoding::UTF16 => 0,
            PositionEncoding::UTF32 => 1,
            PositionEncoding::UTF8 => 2,
        }
    }

    /// The position-encoding kind that names this encoding.
    pub open spec fn kind_name(self) -> Seq<char> {
        match self {
            PositionEncoding::UTF16 => "utf-16"@,
            PositionEncoding::UTF32 => "utf-32"@,
            PositionEncoding::UTF8 => "utf-8"@,
        }
    }

    /// The preference rank of this encoding.
    pub fn priority(&self) -> (p: u8)
        ensures
            p == self.rank(),
    {
        match self {
            PositionEncoding::UTF16 => 0,
            PositionEncoding::UTF32 => 1,
            PositionEncoding::UTF8 => 2,
        }
    }

    /// The position-encoding kind that names this encoding.
    pub fn kind(&self) -> (k: String)
        ensures
            k@ == self.kind_name(),
    {
        match self {
            PositionEncoding::UTF16 => String::from_str("utf-16"),
            PositionEncoding::UTF32 => String::from_str("utf-32"),
            PositionEncoding::UTF8 => String::from_str("utf-8"),
        }
    }

    /// The encoding that a position-encoding kind names; `None` for a kind
    /// that the server does not know.
    pub fn from_kind(kind: &str) -> (r: Option<PositionEncoding>)
        ensures
            r == encoding_for_kind(kind@),
    {
        if str_equals(kind, "utf-8") {
            Some(PositionEncoding::UTF8)
        } else if str_equals(kind, "utf-16") {
            Some(PositionEncoding::UTF16)
        } else if str_equals(kind, "utf-32") {
            Some(PositionEncoding::UTF32)
        } else {
            None
        }
    }
}

/// The kind that names an encoding names that encoding again: `from_kind`
/// undoes `kind`.
pub proof fn lemma_kind_round_trip(e: PositionEncoding)
    ensures
        encoding_for_kind(e.kind_name()) == Some(e),
{
    reveal_strlit("utf-8");
    reveal_strlit("utf-16");
    reveal_strlit("utf-32");
    assert("utf-8"@.len() == 5 && "utf-16"@.len() == 6 && "utf-32"@.len() == 6);
    assert("utf-32"@[4] != "utf-16"@[4]);
}

impl Default for PositionEncoding {
    fn default() -> (r: PositionEncoding)
        ensures
            r == PositionEncoding::UTF16,
    {
        PositionEncoding::UTF16
    }
}

/// General capabilities of the client.
pub struct GeneralClientCapabilities {
    /// The position-encoding kinds that the client supports, if it says.
    pub position_encodings: Option<Vec<String>>,
}

/// What the client supports of `workspace/didChangeWatchedFiles`.
pub struct DidChangeWatchedFilesClientCapabilities {
    pub dynamic_registration: Option<bool>,
}

/// Workspace capabilities of the client.
pub struct WorkspaceClientCapabilities {
    pub did_change_watched_files: Option<DidChangeWatchedFilesClientCapabilities>,
}

/// The capabilities that a client announces.
pub struct ClientCapabilities {
    pub general: Option<GeneralClientCapabilities>,
    pub workspace: Option<WorkspaceClientCapabilities>,
}

/// The position-encoding kinds that the client offers, in its order.
pub open spec fn offered_kinds(caps: ClientCapabilities) -> Seq<Seq<char>> {
    match caps.general {
        Some(g) => match g.position_encodings {
            Some(v) => v@.map_values(|s: String| s@),
            None => Seq::empty(),
        },
        None => Seq::empty(),
    }
}

/// Among the kinds that name an encoding, the most preferred encoding;
/// `UTF16` where none does.
pub open spec fn best_encoding(kinds: Seq<Seq<char>>) -> PositionEncoding
    decreases kinds.len(),
{
    if kinds.len() == 0 {
        PositionEncoding::UTF16
    } else {
        let rest = best_encoding(kinds.drop_last());
        match encoding_for_kind(kinds.last()) {
            Some(e) => if e.rank() > rest.rank() {
                e
            } else {
                rest
            },
            None => rest,
        }
    }
}

/// Whether the client lets the server register for watched-file changes
/// at run time; it does not unless it says so.
pub open spec fn supports_watched_files_registration(caps: ClientCapabilities) -> bool {
    match caps.workspace {
        Some(w) => match w.did_change_watched_files {
            Some(d) => d.dynamic_registration == Some(true),
            None => false,
        },
        None => false,
    }
}

/// How the client sends changes of an open document.
#[derive(Clone, Copy, Debug, PartialEq, Eq, Structural)]
pub enum TextDocumentSyncKind {
    NoSync,
    Full,
    Incremental,
}

/// How the server wants open documents synchronized.
#[derive(Clone, Copy, Debug, PartialEq, Eq, Structural)]
pub struct TextDocumentSyncOptions {
    pub open_close: Option<bool>,
    pub change: Option<TextDocumentSyncKind>,
}

/// The server's pull-diagnostics options.
pub struct DiagnosticOptions {
    pub identifier: Option<String>,
    pub inter_file_dependencies: bool,
    pub workspace_diagnostics: bool,
}

/// The capabilities that the server announces; every capability not named
/// here is left out.
pub struct ServerCapabilities {
    pub position_encoding: Option<PositionEncoding>,
    pub diagnostic_provider: Option<DiagnosticOptions>,
    pub text_document_sync: Option<TextDocumentSyncOptions>,
}

/// The name under which the server reports its diagnostics.
pub open spec fn diagnostic_name() -> Seq<char> {
    "BAML"@
}

/// A file-system watcher to register with the client.
pub struct FileSystemWatcher {
    pub glob_pattern: String,
    /// The kinds of change to watch; `None` watches all of them.
    pub kind: Option<u8>,
}

/// A capability registration that the server asks of the client.
pub struct Registration {
    pub id: String,
    pub method: String,
    pub watchers: Vec<FileSystemWatcher>,
}

/// The registration of the configuration file watcher.
pub open spec fn is_watcher_registration(r: Registration) -> bool {
    &&& r.id@ == "baml-server-file-operations"@
    &&& r.method@ == "workspace/didChangeWatchedFiles"@
    &&& r.watchers@.len() == 1
    &&& r.watchers@[0].glob_pattern@ == "**/*.{baml,json}"@
    &&& r.watchers@[0].kind is None
}

} // verus!
