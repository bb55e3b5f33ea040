use language_server::capabilities::{
    ClientCapabilities, DidChangeWatchedFilesClientCapabilities, GeneralClientCapabilities,
    PositionEncoding, TextDocumentSyncKind, TextDocumentSyncOptions, WorkspaceClientCapabilities,
};
use language_server::server::{InitError, InitializeParams, Server};
use language_server::settings::WorkspaceSettings;

type TestServer = Server<u32>;

fn caps_with_encodings(kinds: Option<&[&str]>) -> ClientCapabilities {
    ClientCapabilities {
        general: Some(GeneralClientCapabilities {
            position_encodings: kinds.map(|k| k.iter().map(|s| s.to_string()).collect()),
        }),
        workspace: None,
    }
}

fn caps_with_registration(dynamic: Option<bool>) -> ClientCapabilities {
    ClientCapabilities {
        general: None,
        workspace: Some(WorkspaceClientCapabilities {
            did_change_watched_files: Some(DidChangeWatchedFilesClientCapabilities {
                dynamic_registration: dynamic,
            }),
        }),
    }
}

fn no_caps() -> ClientCapabilities {
    ClientCapabilities { general: None, workspace: None }
}

#[test]
fn prefers_utf8_over_the_others() {
    let caps = caps_with_encodings(Some(&["utf-16", "utf-8", "utf-32"]));
    assert_eq!(TestServer::find_best_position_encoding(&caps), PositionEncoding::UTF8);
}

#[test]
fn prefers_utf32_over_utf16() {
    let caps = caps_with_encodings(Some(&["utf-16", "utf-32"]));
    assert_eq!(TestServer::find_best_position_encoding(&caps), PositionEncoding::UTF32);
}

#[test]
fn ignores_unknown_encoding_kinds() {
    let caps = caps_with_encodings(Some(&["latin-1", "UTF-8", "utf-32"]));
    assert_eq!(TestServer::find_best_position_encoding(&caps), PositionEncoding::UTF32);
}

#[test]
fn falls_back_to_utf16() {
    assert_eq!(TestServer::find_best_position_encoding(&no_caps()), PositionEncoding::UTF16);
    assert_eq!(
        TestServer::find_best_position_encoding(&caps_with_encodings(None)),
        PositionEncoding::UTF16
    );
    assert_eq!(
        TestServer::find_best_position_encoding(&caps_with_encodings(Some(&[]))),
        PositionEncoding::UTF16
    );
    assert_eq!(
        TestServer::find_best_position_encoding(&caps_with_encodings(Some(&["utf-7"]))),
        PositionEncoding::UTF16
    );
    assert_eq!(PositionEncoding::default(), PositionEncoding::UTF16);
}

#[test]
fn encoding_kinds_round_trip() {
    for e in [PositionEncoding::UTF8, PositionEncoding::UTF16, PositionEncoding::UTF32] {
        assert_eq!(PositionEncoding::from_kind(&e.kind()), Some(e));
    }
    assert_eq!(PositionEncoding::UTF8.kind(), "utf-8");
    assert_eq!(PositionEncoding::UTF16.kind(), "utf-16");
    assert_eq!(PositionEncoding::UTF32.kind(), "utf-32");
    assert_eq!(PositionEncoding::from_kind("utf-16le"), None);
    assert!(PositionEncoding::UTF8.priority() > PositionEncoding::UTF32.priority());
    assert!(PositionEncoding::UTF32.priority() > PositionEncoding::UTF16.priority());
}

#[test]
fn announces_the_negotiated_encoding_and_sync_options() {
    let encoding = TestServer::find_best_position_encoding(&caps_with_encodings(Some(&["utf-32"])));
    let caps = TestServer::server_capabilities(encoding);
    assert_eq!(caps.position_encoding, Some(PositionEncoding::UTF32));
    let diagnostics = caps.diagnostic_provider.expect("diagnostics are announced");
    assert_eq!(diagnostics.identifier.as_deref(), Some("BAML"));
    assert!(!diagnostics.inter_file_dependencies);
    assert!(!diagnostics.workspace_diagnostics);
    assert_eq!(
        caps.text_document_sync,
        Some(TextDocumentSyncOptions {
            open_close: Some(true),
            change: Some(TextDocumentSyncKind::Incremental),
        })
    );
}

#[test]
fn registers_the_file_watcher_when_the_client_allows_it() {
    let reg = TestServer::try_register_capabilities(&caps_with_registration(Some(true)))
        .expect("a registration");
    assert_eq!(reg.id, "baml-server-file-operations");
    assert_eq!(reg.method, "workspace/didChangeWatchedFiles");
    assert_eq!(reg.watchers.len(), 1);
    assert_eq!(reg.watchers[0].glob_pattern, "**/*.{baml,json}");
    assert_eq!(reg.watchers[0].kind, None);
}

#[test]
fn registers_nothing_otherwise() {
    assert!(TestServer::try_register_capabilities(&caps_with_registration(Some(false))).is_none());
    assert!(TestServer::try_register_capabilities(&caps_with_registration(None)).is_none());
    assert!(TestServer::try_register_capabilities(&no_caps()).is_none());
    let no_watch = ClientCapabilities {
        general: None,
        workspace: Some(WorkspaceClientCapabilities { did_change_watched_files: None }),
    };
    assert!(TestServer::try_register_capabilities(&no_watch).is_none());
}

fn params(
    caps: ClientCapabilities,
    folders: Option<&[&str]>,
    settings: Option<Vec<(&str, u32)>>,
) -> InitializeParams<u32> {
    InitializeParams {
        capabilities: caps,
        workspace_folders: folders.map(|f| f.iter().map(|s| s.to_string()).collect()),
        workspace_settings: settings.map(|v| {
            let mut m = WorkspaceSettings::new();
            for (u, s) in v {
                m.insert(u.to_string(), s);
            }
            m
        }),
    }
}

fn start(
    caps: ClientCapabilities,
    folders: Option<&[&str]>,
    settings: Option<Vec<(&str, u32)>>,
    current_dir: Option<&str>,
) -> Result<TestServer, InitError> {
    let (connection, _client) = lsp_server::Connection::memory();
    TestServer::new_with_connection(4, connection, params(caps, folders, settings), current_dir.map(|s| s.to_string()))
}

fn start_with_url(
    folders: Option<&[&str]>,
    settings: Option<Vec<(&str, u32)>>,
    current_dir_url: Option<&str>,
) -> Result<TestServer, InitError> {
    let (connection, _client) = lsp_server::Connection::memory();
    TestServer::new_with_workspace_url(
        2,
        connection,
        params(no_caps(), folders, settings),
        current_dir_url.map(|s| s.to_string()),
    )
}

#[test]
fn opens_the_single_workspace_folder_with_its_settings() {
    let server = start(
        caps_with_encodings(Some(&["utf-8"])),
        Some(&["file:///ws"]),
        Some(vec![("file:///other", 1), ("file:///ws", 7)]),
        Some("/cwd"),
    )
    .ok()
    .expect("the server starts");
    assert_eq!(server.worker_threads, 4);
    assert_eq!(server.position_encoding, PositionEncoding::UTF8);
    assert_eq!(server.workspaces.len(), 1);
    assert_eq!(server.workspaces[0].url, "file:///ws");
    assert_eq!(server.workspaces[0].settings, Some(7));
}

#[test]
fn a_workspace_without_settings_gets_the_defaults() {
    let server = start(no_caps(), Some(&["file:///ws"]), Some(vec![("file:///other", 1)]), None)
        .ok()
        .expect("the server starts");
    assert_eq!(server.workspaces[0].settings, None);
    let server = start(no_caps(), Some(&["file:///ws"]), None, None).ok().expect("the server starts");
    assert_eq!(server.workspaces[0].settings, None);
    assert_eq!(server.position_encoding, PositionEncoding::UTF16);
}

#[test]
fn falls_back_to_the_current_directory() {
    let server = start(no_caps(), None, None, Some("/home/user/project")).ok().expect("the server starts");
    assert_eq!(server.workspaces.len(), 1);
    assert_eq!(server.workspaces[0].url, "file:///home/user/project");
    let server = start(no_caps(), Some(&[]), Some(vec![("file:///cwd", 3)]), Some("/cwd"))
        .ok()
        .expect("the server starts");
    assert_eq!(server.workspaces[0].url, "file:///cwd");
    assert_eq!(server.workspaces[0].settings, Some(3));
}

#[test]
fn the_current_directory_is_percent_encoded() {
    let server = start(no_caps(), None, None, Some("/my dir")).ok().expect("the server starts");
    assert_eq!(server.workspaces[0].url, "file:///my%20dir");
}

#[test]
fn a_relative_current_directory_gives_no_workspace() {
    assert_eq!(start(no_caps(), None, None, Some("relative/dir")).err(), Some(InitError::NoWorkspace));
}

#[test]
fn the_current_directory_is_not_consulted_when_folders_are_named() {
    let server = start(no_caps(), Some(&["file:///ws"]), None, Some("relative/dir"))
        .ok()
        .expect("the server starts");
    assert_eq!(server.workspaces[0].url, "file:///ws");
}

#[test]
fn a_workspace_url_stands_in_for_missing_folders() {
    let server = start_with_url(None, Some(vec![("file:///u", 9)]), Some("file:///u"))
        .ok()
        .expect("the server starts");
    assert_eq!(server.workspaces[0].url, "file:///u");
    assert_eq!(server.workspaces[0].settings, Some(9));
    assert_eq!(server.worker_threads, 2);
    assert_eq!(start_with_url(None, None, None).err(), Some(InitError::NoWorkspace));
    assert_eq!(
        start_with_url(Some(&["file:///a", "file:///b"]), None, Some("file:///u")).err(),
        Some(InitError::MultiRootWorkspace)
    );
}

#[test]
fn later_settings_for_a_url_replace_earlier_ones() {
    let server = start(no_caps(), Some(&["file:///ws"]), Some(vec![("file:///ws", 1), ("file:///ws", 2)]), None)
        .ok()
        .expect("the server starts");
    assert_eq!(server.workspaces[0].settings, Some(2));
}

#[test]
fn workspace_settings_behave_as_a_map() {
    let mut m: WorkspaceSettings<u32> = WorkspaceSettings::new();
    assert_eq!(m.remove(&"file:///a".to_string()), None);
    m.insert("file:///a".to_string(), 1);
    m.insert("file:///b".to_string(), 2);
    m.insert("file:///a".to_string(), 3);
    assert_eq!(m.remove(&"file:///a".to_string()), Some(3));
    assert_eq!(m.remove(&"file:///a".to_string()), None);
    assert_eq!(m.remove(&"file:///b".to_string()), Some(2));
}

#[test]
fn refuses_to_start_without_any_workspace() {
    assert_eq!(start(no_caps(), None, None, None).err(), Some(InitError::NoWorkspace));
    assert_eq!(start(no_caps(), Some(&[]), None, None).err(), Some(InitError::NoWorkspace));
    assert_eq!(
        InitError::NoWorkspace.message(),
        "Failed to get the current working directory while creating a default workspace."
    );
}

#[test]
fn refuses_multi_root_workspaces() {
    assert_eq!(
        start(no_caps(), Some(&["file:///a", "file:///b"]), None, Some("/cwd")).err(),
        Some(InitError::MultiRootWorkspace)
    );
    assert_eq!(InitError::MultiRootWorkspace.message(), "Multi-root workspaces are not supported yet");
}

#[test]
fn the_server_uses_the_encoding_it_announces() {
    let caps = caps_with_encodings(Some(&["utf-32", "utf-16"]));
    let announced = TestServer::server_capabilities(TestServer::find_best_position_encoding(&caps));
    let server = start(caps, Some(&["file:///ws"]), None, None).ok().expect("the server starts");
    assert_eq!(announced.position_encoding, Some(server.position_encoding));
    assert_eq!(server.position_encoding, PositionEncoding::UTF32);
}
