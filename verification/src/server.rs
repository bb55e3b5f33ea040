//! Initialization of the server: negotiating the position encoding, the
//! capabilities to announce and to register, and the workspace to open.

use vstd::prelude::*;
use crate::settings::WorkspaceSettings;
use crate::text::starts_with;
use crate::capabilities::{
    best_encoding, diagnostic_name, encoding_for_kind, is_watcher_registration, offered_kinds,
    supports_watched_files_registration, ClientCapabilities, DiagnosticOptions, FileSystemWatcher,
    PositionEncoding, Registration, ServerCapabilities, TextDocumentSyncKind, TextDocumentSyncOptions,
};

verus! {

/// `lsp_server::Connection`, the channel pair to the client.  The server
/// holds it and hands it on; nothing here looks into it.
#[verifier::external_type_specification]
#[verifier::external_body]
pub struct ExConnection(lsp_server::Connection);

/// A plain absolute path: `/`, or `/` followed by `/`-separated components
/// of ASCII letters and digits, with no empty component and no trailing `/`.
pub open spec fn plain_abs_path(p: Seq<char>) -> bool {
    &&& p.len() >= 1
    &&& p[0] == '/'
    &&& forall|i: int|
        0 <= i < p.len() ==> (p[i] == '/' || ('a' <= #[trigger] p[i] <= 'z') || ('A' <= p[i] <= 'Z') || (
        '0' <= p[i] <= '9'))
    &&& forall|i: int| 0 <= i < p.len() - 1 ==> !(#[trigger] p[i] == '/' && p[i + 1] == '/')
    &&& p.len() > 1 ==> p[p.len() - 1] != '/'
}

/// `lsp_types::Url::from_file_path` (the `url` crate's `Url`), with the
/// URL's text: the URL of a directory given by its absolute path.  The
/// function returns `Err` for a path that is not absolute.  A URL it gives
/// is in the `file` scheme: its text starts with `file://`, the text the
/// function starts it with.  For a plain absolute path the URL is `file://`
/// followed by the path: where such a path is absolute (Unix-like targets)
/// the function appends `/` and each component, which it leaves unencoded;
/// elsewhere such a path is not absolute and no URL comes back.  How other
/// paths are encoded depends on the platform and is not stated.
#[verifier::external_body]
fn directory_url(dir: &str) -> (r: Option<String>)
    ensures
        r matches Some(u) ==> starts_with(u@, "file://"@),
        r matches Some(u) ==> (plain_abs_path(dir@) ==> u@ == "file://"@ + dir@),
{
    match lsp_types::Url::from_file_path(dir) {
        Ok(u) => Some(u.as_str().to_string()),
        Err(()) => None,
    }
}

/// A workspace folder the server opens, with the client's settings for it;
/// `None` where the client gave none, so that the defaults apply.
pub struct Workspace<S> {
    pub url: String,
    pub settings: Option<S>,
}

/// Why the server cannot start.
#[derive(Clone, Copy, Debug, PartialEq, Eq, Structural)]
pub enum InitError {
    /// The client named no workspace folder and the current directory
    /// could not stand in for one.
    NoWorkspace,
    /// The client named more than one workspace folder.
    MultiRootWorkspace,
}

impl InitError {
    pub open spec fn text(self) -> Seq<char> {
        match self {
            InitError::NoWorkspace => "Failed to get the current working directory while creating a default workspace."@,
            InitError::MultiRootWorkspace => "Multi-root workspaces are not supported yet"@,
        }
    }

    /// The text of the error.
    pub fn message(&self) -> (m: String)
        ensures
            m@ == self.text(),
    {
        match self {
            InitError::NoWorkspace => String::from_str(
                "Failed to get the current working directory while creating a default workspace.",
            ),
            InitError::MultiRootWorkspace => String::from_str(
                "Multi-root workspaces are not supported yet",
            ),
        }
    }
}

/// What the server reads of the client's `initialize` request.
pub struct InitializeParams<S> {
    pub capabilities: ClientCapabilities,
    /// The URLs of the workspace folders, if the client names any.
    pub workspace_folders: Option<Vec<String>>,
    /// The client's settings for each workspace URL, if it gives any.
    pub workspace_settings: Option<WorkspaceSettings<S>>,
}

/// An initialized server.
pub struct Server<S> {
    pub connection: lsp_server::Connection,
    pub client_capabilities: ClientCapabilities,
    /// The number of worker threads; never 0.
    pub worker_threads: usize,
    pub position_encoding: PositionEncoding,
    pub workspaces: Vec<Workspace<S>>,
}

pub open spec fn opt_strings_view(o: Option<Vec<String>>) -> Option<Seq<Seq<char>>> {
    match o {
        Some(v) => Some(v@.map_values(|s: String| s@)),
        None => None,
    }
}

pub open spec fn opt_string_view(o: Option<String>) -> Option<Seq<char>> {
    match o {
        Some(s) => Some(s@),
        None => None,
    }
}

/// The workspace URLs: the folders that the client names, or else the
/// current directory; `None` when neither is there.
pub open spec fn chosen_urls(folders: Option<Seq<Seq<char>>>, current_dir: Option<Seq<char>>) -> Option<
    Seq<Seq<char>>,
> {
    match folders {
        Some(fs) if fs.len() > 0 => Some(fs),
        _ => match current_dir {
            Some(c) => Some(seq![c]),
            None => None,
        },
    }
}

/// The client's settings for `url`, if it gives any.
pub open spec fn settings_for<S>(entries: Option<WorkspaceSettings<S>>, url: Seq<char>) -> Option<S> {
    match entries {
        Some(m) => if m@.dom().contains(url) {
            Some(m@[url])
        } else {
            None
        },
        None => None,
    }
}

/// The highest-preference encoding that the client offers is chosen, and
/// `UTF16` when it offers none that the server knows: the choice is offered
/// or `UTF16`, and no known offered encoding is preferred to it.
pub proof fn lemma_best_encoding_is_most_preferred(kinds: Seq<Seq<char>>)
    ensures
        forall|i: int|
            0 <= i < kinds.len() && (#[trigger] encoding_for_kind(kinds[i])) is Some
                ==> encoding_for_kind(kinds[i])->0.rank() <= best_encoding(kinds).rank(),
        best_encoding(kinds) == PositionEncoding::UTF16 || exists|i: int|
            0 <= i < kinds.len() && encoding_for_kind(kinds[i]) == Some(best_encoding(kinds)),
    decreases kinds.len(),
{
    if kinds.len() > 0 {
        let p = kinds.drop_last();
        lemma_best_encoding_is_most_preferred(p);
        assert forall|i: int|
            0 <= i < kinds.len() && (#[trigger] encoding_for_kind(kinds[i])) is Some implies encoding_for_kind(
            kinds[i],
        )->0.rank() <= best_encoding(kinds).rank() by {
            if i < p.len() {
                assert(kinds[i] == p[i]);
            }
        }
        if best_encoding(kinds) != PositionEncoding::UTF16 {
            if best_encoding(kinds) == best_encoding(p) {
                let i = choose|i: int|
                    0 <= i < p.len() && encoding_for_kind(p[i]) == Some(best_encoding(p));
                assert(kinds[i] == p[i]);
            } else {
                assert(kinds[kinds.len() - 1] == kinds.last());
            }
        }
    }
}

/// Over kind names: among the kinds, "utf-8" anywhere gives UTF-8; else
/// "utf-32" anywhere gives UTF-32; else UTF-16.
proof fn lemma_best_encoding_by_name(kinds: Seq<Seq<char>>)
    ensures
        (exists|i: int| 0 <= i < kinds.len() && kinds[i] == "utf-8"@) ==> best_encoding(kinds)
            == PositionEncoding::UTF8,
        !(exists|i: int| 0 <= i < kinds.len() && kinds[i] == "utf-8"@) && (exists|i: int|
            0 <= i < kinds.len() && kinds[i] == "utf-32"@) ==> best_encoding(kinds)
            == PositionEncoding::UTF32,
        !(exists|i: int| 0 <= i < kinds.len() && kinds[i] == "utf-8"@) && !(exists|i: int|
            0 <= i < kinds.len() && kinds[i] == "utf-32"@) ==> best_encoding(kinds)
            == PositionEncoding::UTF16,
{
    reveal_strlit("utf-8");
    reveal_strlit("utf-16");
    reveal_strlit("utf-32");
    assert("utf-8"@.len() == 5 && "utf-16"@.len() == 6 && "utf-32"@.len() == 6);
    assert("utf-32"@[4] != "utf-16"@[4]);
    lemma_best_encoding_is_most_preferred(kinds);
    let r = best_encoding(kinds);
    if exists|i: int| 0 <= i < kinds.len() && kinds[i] == "utf-8"@ {
        let i = choose|i: int| 0 <= i < kinds.len() && kinds[i] == "utf-8"@;
        assert(encoding_for_kind(kinds[i]) == Some(PositionEncoding::UTF8));
    } else if exists|i: int| 0 <= i < kinds.len() && kinds[i] == "utf-32"@ {
        let i = choose|i: int| 0 <= i < kinds.len() && kinds[i] == "utf-32"@;
        assert(encoding_for_kind(kinds[i]) == Some(PositionEncoding::UTF32));
        if r == PositionEncoding::UTF8 {
            let j = choose|j: int| 0 <= j < kinds.len() && encoding_for_kind(kinds[j]) == Some(r);
            assert(kinds[j] == "utf-8"@);
        }
    } else {
        if r != PositionEncoding::UTF16 {
            let j = choose|j: int| 0 <= j < kinds.len() && encoding_for_kind(kinds[j]) == Some(r);
            assert(kinds[j] == "utf-8"@ || kinds[j] == "utf-32"@);
        }
    }
}

/// The encoding negotiated with a client is UTF-8 when the client lists
/// "utf-8" anywhere among its position encodings; otherwise UTF-32 when it
/// lists "utf-32" anywhere; otherwise UTF-16.
pub proof fn negotiated_encoding(caps: ClientCapabilities)
    ensures
        caps.general matches Some(g) && g.position_encodings matches Some(v) && (exists|i: int|
            0 <= i < v@.len() && v@[i]@ == "utf-8"@) ==> best_encoding(offered_kinds(caps))
            == PositionEncoding::UTF8,
        caps.general matches Some(g) && g.position_encodings matches Some(v) && !(exists|i: int|
            0 <= i < v@.len() && v@[i]@ == "utf-8"@) && (exists|i: int|
            0 <= i < v@.len() && v@[i]@ == "utf-32"@) ==> best_encoding(offered_kinds(caps))
            == PositionEncoding::UTF32,
        caps.general matches Some(g) && g.position_encodings matches Some(v) && !(exists|i: int|
            0 <= i < v@.len() && v@[i]@ == "utf-8"@) && !(exists|i: int|
            0 <= i < v@.len() && v@[i]@ == "utf-32"@) ==> best_encoding(offered_kinds(caps))
            == PositionEncoding::UTF16,
        caps.general is None ==> best_encoding(offered_kinds(caps)) == PositionEncoding::UTF16,
        caps.general matches Some(g) && g.position_encodings is None ==> best_encoding(
            offered_kinds(caps),
        ) == PositionEncoding::UTF16,
{
    let kinds = offered_kinds(caps);
    lemma_best_encoding_by_name(kinds);
    match caps.general {
        Some(g) => match g.position_encodings {
            Some(v) => {
                assert(kinds.len() == v@.len());
                assert forall|i: int| 0 <= i < v@.len() implies kinds[i] == v@[i]@ by {}
                if exists|i: int| 0 <= i < v@.len() && v@[i]@ == "utf-8"@ {
                    let i = choose|i: int| 0 <= i < v@.len() && v@[i]@ == "utf-8"@;
                    assert(kinds[i] == "utf-8"@);
                }
                if exists|i: int| 0 <= i < v@.len() && v@[i]@ == "utf-32"@ {
                    let i = choose|i: int| 0 <= i < v@.len() && v@[i]@ == "utf-32"@;
                    assert(kinds[i] == "utf-32"@);
                }
                if exists|i: int| 0 <= i < kinds.len() && kinds[i] == "utf-8"@ {
                    let i = choose|i: int| 0 <= i < kinds.len() && kinds[i] == "utf-8"@;
                    assert(v@[i]@ == "utf-8"@);
                }
                if exists|i: int| 0 <= i < kinds.len() && kinds[i] == "utf-32"@ {
                    let i = choose|i: int| 0 <= i < kinds.len() && kinds[i] == "utf-32"@;
                    assert(v@[i]@ == "utf-32"@);
                }
            },
            None => {},
        },
        None => {},
    }
}

/// Whether a client may have the file watcher registered depends on its
/// watched-files capability alone: it does exactly when that capability sets
/// dynamic registration to true, whatever else the client announces.
pub proof fn registration_follows_dynamic_registration(caps: ClientCapabilities, other: ClientCapabilities)
    ensures
        supports_watched_files_registration(caps) <==> (caps.workspace matches Some(w)
            && w.did_change_watched_files matches Some(d) && d.dynamic_registration == Some(true)),
        other.workspace == caps.workspace ==> supports_watched_files_registration(other)
            == supports_watched_files_registration(caps),
{
}

fn take_settings<S>(entries: Option<WorkspaceSettings<S>>, url: &String) -> (r: Option<S>)
    ensures
        r == settings_for(entries, url@),
{
    match entries {
        Some(m) => {
            let mut m = m;
            m.remove(url)
        },
        None => None,
    }
}

fn select_workspace_url(folders: Option<Vec<String>>, current_dir: Option<String>) -> (r: Result<
    String,
    InitError,
>)
    ensures
        match chosen_urls(opt_strings_view(folders), opt_string_view(current_dir)) {
            None => r == Err::<String, InitError>(InitError::NoWorkspace),
            Some(us) => if us.len() > 1 {
                r == Err::<String, InitError>(InitError::MultiRootWorkspace)
            } else {
                r matches Ok(u) && u@ == us[0]
            },
        },
{
    let mut urls = match folders {
        Some(v) if v.len() > 0 => v,
        _ => match current_dir {
            Some(c) => {
                let mut v: Vec<String> = Vec::new();
                v.push(c);
                v
            },
            None => {
                return Err(InitError::NoWorkspace);
            },
        },
    };
    proof {
        let us = chosen_urls(opt_strings_view(folders), opt_string_view(current_dir));
        assert(us matches Some(s) && s =~= urls@.map_values(|s: String| s@));
    }
    if urls.len() > 1 {
        return Err(InitError::MultiRootWorkspace);
    }
    let u = urls.remove(0);
    Ok(u)
}

impl<S> Server<S> {
    /// The position encoding to use with a client: the most preferred one
    /// that it offers, `UTF16` when it offers none that the server knows.
    pub fn find_best_position_encoding(client_capabilities: &ClientCapabilities) -> (r: PositionEncoding)
        ensures
            r == best_encoding(offered_kinds(*client_capabilities)),
            forall|i: int|
                0 <= i < offered_kinds(*client_capabilities).len() && (#[trigger] encoding_for_kind(
                    offered_kinds(*client_capabilities)[i],
                )) is Some ==> encoding_for_kind(offered_kinds(*client_capabilities)[i])->0.rank()
                    <= r.rank(),
            r == PositionEncoding::UTF16 || exists|i: int|
                0 <= i < offered_kinds(*client_capabilities).len() && encoding_for_kind(
                    offered_kinds(*client_capabilities)[i],
                ) == Some(r),
            client_capabilities.general matches Some(g) && g.position_encodings matches Some(v) && (
            exists|i: int| 0 <= i < v@.len() && v@[i]@ == "utf-8"@) ==> r == PositionEncoding::UTF8,
            client_capabilities.general matches Some(g) && g.position_encodings matches Some(v) && !(
            exists|i: int| 0 <= i < v@.len() && v@[i]@ == "utf-8"@) && (exists|i: int|
                0 <= i < v@.len() && v@[i]@ == "utf-32"@) ==> r == PositionEncoding::UTF32,
            client_capabilities.general matches Some(g) && g.position_encodings matches Some(v) && !(
            exists|i: int| 0 <= i < v@.len() && v@[i]@ == "utf-8"@) && !(exists|i: int|
                0 <= i < v@.len() && v@[i]@ == "utf-32"@) ==> r == PositionEncoding::UTF16,
            client_capabilities.general is None ==> r == PositionEncoding::UTF16,
            client_capabilities.general matches Some(g) && g.position_encodings is None ==> r
                == PositionEncoding::UTF16,
    {
        proof {
            lemma_best_encoding_is_most_preferred(offered_kinds(*client_capabilities));
            negotiated_encoding(*client_capabilities);
        }
        match &client_capabilities.general {
            None => PositionEncoding::UTF16,
            Some(g) => match &g.position_encodings {
                None => PositionEncoding::UTF16,
                Some(v) => {
                    let ghost kinds = v@.map_values(|s: String| s@);
                    let mut best = PositionEncoding::UTF16;
                    let n = v.len();
                    let mut i: usize = 0;
                    while i < n
                        invariant
                            n == v@.len(),
                            kinds == v@.map_values(|s: String| s@),
                            i <= n,
                            best == best_encoding(kinds.take(i as int)),
                        decreases n - i,
                    {
                        assert(kinds.take(i + 1).drop_last() =~= kinds.take(i as int));
                        assert(kinds.take(i + 1).last() == v@[i as int]@);
                        match PositionEncoding::from_kind(v[i].as_str()) {
                            Some(e) => {
                                if e.priority() > best.priority() {
                                    best = e;
                                }
                            },
                            None => {},
                        }
                        i = i + 1;
                    }
                    assert(kinds.take(n as int) =~= kinds);
                    best
                },
            },
        }
    }

    /// The capabilities the server announces: the negotiated position
    /// encoding, pull diagnostics under the server's name, and documents
    /// synchronized on open and close and by incremental changes.
    pub fn server_capabilities(position_encoding: PositionEncoding) -> (r: ServerCapabilities)
        ensures
            r.position_encoding == Some(position_encoding),
            r.diagnostic_provider matches Some(d) && d.identifier matches Some(id) && id@
                == diagnostic_name() && !d.inter_file_dependencies && !d.workspace_diagnostics,
            r.text_document_sync == Some(
                TextDocumentSyncOptions {
                    open_close: Some(true),
                    change: Some(TextDocumentSyncKind::Incremental),
                },
            ),
    {
        ServerCapabilities {
            position_encoding: Some(position_encoding),
            diagnostic_provider: Some(
                DiagnosticOptions {
                    identifier: Some(String::from_str("BAML")),
                    inter_file_dependencies: false,
                    workspace_diagnostics: false,
                },
            ),
            text_document_sync: Some(
                TextDocumentSyncOptions {
                    open_close: Some(true),
                    change: Some(TextDocumentSyncKind::Incremental),
                },
            ),
        }
    }

    /// The registration the server asks of the client at start: a watcher
    /// on the `.baml` and `.json` files, under the method
    /// `workspace/didChangeWatchedFiles`.  `None` when the client does not
    /// support registering it at run time.
    pub fn try_register_capabilities(client_capabilities: &ClientCapabilities) -> (r: Option<
        Registration,
    >)
        ensures
            (r is Some) == supports_watched_files_registration(*client_capabilities),
            (r is Some) == (client_capabilities.workspace matches Some(w)
                && w.did_change_watched_files matches Some(d) && d.dynamic_registration == Some(
                true,
            )),
            r matches Some(reg) ==> is_watcher_registration(reg),
            r matches Some(reg) ==> reg.id@ == "baml-server-file-operations"@ && reg.method@
                == "workspace/didChangeWatchedFiles"@ && reg.watchers@.len() == 1
                && reg.watchers@[0].glob_pattern@ == "**/*.{baml,json}"@
                && reg.watchers@[0].kind is None,
    {
        let dynamic_registration = match &client_capabilities.workspace {
            Some(w) => match &w.did_change_watched_files {
                Some(d) => match d.dynamic_registration {
                    Some(b) => b,
                    None => false,
                },
                None => false,
            },
            None => false,
        };
        if dynamic_registration {
            let mut watchers: Vec<FileSystemWatcher> = Vec::new();
            watchers.push(
                FileSystemWatcher { glob_pattern: String::from_str("**/*.{baml,json}"), kind: None },
            );
            Some(
                Registration {
                    id: String::from_str("baml-server-file-operations"),
                    method: String::from_str("workspace/didChangeWatchedFiles"),
                    watchers,
                },
            )
        } else {
            None
        }
    }

    /// Sets up the server for a client from its `initialize` request, given
    /// the URL of the current directory where it has one: that URL stands
    /// in for the workspace when the client names no folder.  The server
    /// opens exactly one workspace: more than one is refused.
    pub fn new_with_workspace_url(
        worker_threads: usize,
        connection: lsp_server::Connection,
        init_params: InitializeParams<S>,
        current_dir_url: Option<String>,
    ) -> (r: Result<Server<S>, InitError>)
        requires
            worker_threads > 0,
        ensures
            match chosen_urls(opt_strings_view(init_params.workspace_folders), opt_string_view(current_dir_url)) {
                None => r is Err && r->Err_0 == InitError::NoWorkspace,
                Some(us) => if us.len() > 1 {
                    r is Err && r->Err_0 == InitError::MultiRootWorkspace
                } else {
                    r matches Ok(s) && started_with(s, worker_threads, connection, init_params, us[0])
                },
            },
    {
        let InitializeParams { capabilities, workspace_folders, workspace_settings } = init_params;
        let position_encoding = Self::find_best_position_encoding(&capabilities);
        let url = match select_workspace_url(workspace_folders, current_dir_url) {
            Ok(u) => u,
            Err(e) => {
                return Err(e);
            },
        };
        let settings = take_settings(workspace_settings, &url);
        let mut workspaces: Vec<Workspace<S>> = Vec::new();
        workspaces.push(Workspace { url, settings });
        Ok(
            Server {
                connection,
                client_capabilities: capabilities,
                worker_threads,
                position_encoding,
                workspaces,
            },
        )
    }

    /// Sets up the server for a client from its `initialize` request.
    /// `current_dir` is the path of the current directory, where it can be
    /// had; when the client names no workspace folder, the directory's
    /// `file` URL stands in for the workspace.  The server opens exactly one
    /// workspace: more than one is refused.
    pub fn new_with_connection(
        worker_threads: usize,
        connection: lsp_server::Connection,
        init_params: InitializeParams<S>,
        current_dir: Option<String>,
    ) -> (r: Result<Server<S>, InitError>)
        requires
            worker_threads > 0,
        ensures
            match opt_strings_view(init_params.workspace_folders) {
                Some(fs) if fs.len() > 1 => r is Err && r->Err_0 == InitError::MultiRootWorkspace,
                Some(fs) if fs.len() == 1 => r matches Ok(s) && started_with(
                    s,
                    worker_threads,
                    connection,
                    init_params,
                    fs[0],
                ),
                _ => if current_dir is None {
                    r is Err && r->Err_0 == InitError::NoWorkspace
                } else {
                    &&& (r is Err && r->Err_0 == InitError::NoWorkspace) || (r matches Ok(s)
                        && started_with(
                        s,
                        worker_threads,
                        connection,
                        init_params,
                        s.workspaces@[0].url@,
                    ) && starts_with(s.workspaces@[0].url@, "file://"@))
                    &&& plain_abs_path(current_dir->0@) ==> (r matches Ok(s)
                        ==> s.workspaces@[0].url@ == "file://"@ + current_dir->0@)
                },
            },
    {
        let folders_given = match &init_params.workspace_folders {
            Some(v) => v.len() > 0,
            None => false,
        };
        let url = if folders_given {
            None
        } else {
            match current_dir {
                Some(dir) => directory_url(dir.as_str()),
                None => None,
            }
        };
        Self::new_with_workspace_url(worker_threads, connection, init_params, url)
    }
}

/// `s` is the server set up from these arguments, with one workspace at `url`.
pub open spec fn started_with<S>(
    s: Server<S>,
    worker_threads: usize,
    connection: lsp_server::Connection,
    init_params: InitializeParams<S>,
    url: Seq<char>,
) -> bool {
    &&& s.connection == connection
    &&& s.client_capabilities == init_params.capabilities
    &&& s.worker_threads == worker_threads
    &&& s.position_encoding == best_encoding(offered_kinds(init_params.capabilities))
    &&& s.workspaces@.len() == 1
    &&& s.workspaces@[0].url@ == url
    &&& s.workspaces@[0].settings == settings_for(init_params.workspace_settings, url)
}

} // verus!
