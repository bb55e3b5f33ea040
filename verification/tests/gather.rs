use std::collections::HashMap;

use language_server::gather::{gather_baml_files, DirEntry, GatherAction, GatherError, ListFailure};

/// A directory tree in memory: listings by directory, contents by file.
struct Tree {
    dirs: HashMap<String, Vec<(String, bool)>>,
    files: HashMap<String, String>,
}

impl Tree {
    fn new() -> Self {
        Tree { dirs: HashMap::new(), files: HashMap::new() }
    }

    fn dir(mut self, path: &str, entries: &[(&str, bool)]) -> Self {
        self.dirs.insert(
            path.to_string(),
            entries.iter().map(|(n, d)| (n.to_string(), *d)).collect(),
        );
        self
    }

    fn file(mut self, path: &str, contents: &str) -> Self {
        self.files.insert(path.to_string(), contents.to_string());
        self
    }

    fn listing(&self, dir: &str) -> Result<Vec<DirEntry>, ListFailure> {
        match self.dirs.get(dir) {
            Some(entries) => Ok(entries
                .iter()
                .map(|(name, is_dir)| DirEntry {
                    path: format!("{}/{}", dir, name),
                    file_name: name.clone(),
                    is_dir: *is_dir,
                })
                .collect()),
            None => Err(ListFailure::Unreadable),
        }
    }

    /// Runs the walk to its end; returns the gathered files and the requests made.
    fn walk(&self, root: &str) -> (Vec<(String, String)>, Vec<String>) {
        let mut walk = gather_baml_files(root.to_string());
        let mut requests = Vec::new();
        let mut action = walk.action();
        loop {
            action = match action {
                GatherAction::ReadDir(d) => {
                    requests.push(format!("dir {}", d));
                    walk.listed(self.listing(&d))
                }
                GatherAction::ReadFile(f) => {
                    requests.push(format!("file {}", f));
                    let contents = self.files.get(&f).cloned().ok_or_else(|| "missing".to_string());
                    walk.file_read(contents)
                }
                GatherAction::Done(files) => return (files, requests),
            };
        }
    }
}

fn pairs(v: &[(&str, &str)]) -> Vec<(String, String)> {
    v.iter().map(|(a, b)| (a.to_string(), b.to_string())).collect()
}

#[test]
fn gathers_baml_files_of_root_and_subdirectories() {
    let tree = Tree::new()
        .dir("/p", &[("main.baml", false), ("sub", true), ("notes.txt", false)])
        .dir("/p/sub", &[("client.baml", false), ("deep", true)])
        .dir("/p/sub/deep", &[("x.baml", false)])
        .file("/p/main.baml", "main")
        .file("/p/sub/client.baml", "client")
        .file("/p/sub/deep/x.baml", "x")
        .file("/p/notes.txt", "notes");
    let (files, _) = tree.walk("/p");
    // Subdirectories come before the files of their parent.
    assert_eq!(
        files,
        pairs(&[("/p/sub/deep/x.baml", "x"), ("/p/sub/client.baml", "client"), ("/p/main.baml", "main")])
    );
}

#[test]
fn walks_subdirectories_before_own_files_in_listing_order() {
    let tree = Tree::new()
        .dir("/r", &[("b.baml", false), ("d1", true), ("a.baml", false), ("d2", true)])
        .dir("/r/d1", &[("one.baml", false)])
        .dir("/r/d2", &[("two.baml", false)])
        .file("/r/b.baml", "b")
        .file("/r/a.baml", "a")
        .file("/r/d1/one.baml", "1")
        .file("/r/d2/two.baml", "2");
    let (files, requests) = tree.walk("/r");
    assert_eq!(
        requests,
        vec![
            "dir /r",
            "dir /r/d1",
            "file /r/d1/one.baml",
            "dir /r/d2",
            "file /r/d2/two.baml",
            "file /r/b.baml",
            "file /r/a.baml",
        ]
    );
    assert_eq!(
        files,
        pairs(&[("/r/d1/one.baml", "1"), ("/r/d2/two.baml", "2"), ("/r/b.baml", "b"), ("/r/a.baml", "a")])
    );
}

#[test]
fn skips_files_that_are_not_baml() {
    let tree = Tree::new()
        .dir("/q", &[("a.json", false), ("baml", false), ("x.baml.bak", false), ("y.baml", false)])
        .file("/q/y.baml", "y");
    let (files, requests) = tree.walk("/q");
    assert_eq!(files, pairs(&[("/q/y.baml", "y")]));
    assert_eq!(requests, vec!["dir /q", "file /q/y.baml"]);
}

#[test]
fn a_directory_named_like_a_baml_file_is_walked() {
    let tree = Tree::new()
        .dir("/t", &[("odd.baml", true)])
        .dir("/t/odd.baml", &[("in.baml", false)])
        .file("/t/odd.baml/in.baml", "in");
    let (files, _) = tree.walk("/t");
    assert_eq!(files, pairs(&[("/t/odd.baml/in.baml", "in")]));
}

#[test]
fn empty_root_gathers_nothing() {
    let tree = Tree::new().dir("/e", &[]);
    let (files, requests) = tree.walk("/e");
    assert!(files.is_empty());
    assert_eq!(requests, vec!["dir /e"]);
}

#[test]
fn unreadable_root_gathers_nothing() {
    let tree = Tree::new();
    let (files, requests) = tree.walk("/missing");
    assert!(files.is_empty());
    assert_eq!(requests, vec!["dir /missing"]);
}

#[test]
fn a_failed_listing_ends_the_walk_with_what_was_gathered() {
    let tree = Tree::new()
        .dir("/f", &[("a", true), ("b", true), ("top.baml", false)])
        .dir("/f/a", &[("a.baml", false)])
        .file("/f/a/a.baml", "A")
        .file("/f/top.baml", "T");
    // "/f/b" cannot be listed.
    let (files, requests) = tree.walk("/f");
    assert_eq!(files, pairs(&[("/f/a/a.baml", "A")]));
    let mut walk = gather_baml_files("/f".to_string());
    let _ = walk.listed(tree.listing("/f"));
    assert!(walk.error().is_none());
    let _ = walk.listed(tree.listing("/f/a"));
    let _ = walk.file_read(Ok("A".to_string()));
    let _ = walk.listed(tree.listing("/f/b"));
    match walk.error() {
        Some(GatherError::DirectoryUnreadable(d)) => assert_eq!(d, "/f/b"),
        other => panic!("unexpected {:?}", other),
    }
    assert_eq!(requests, vec!["dir /f", "dir /f/a", "file /f/a/a.baml", "dir /f/b"]);
}

#[test]
fn a_failed_read_ends_the_walk_with_what_was_gathered() {
    let tree = Tree::new()
        .dir("/g", &[("one.baml", false), ("two.baml", false), ("three.baml", false)])
        .file("/g/one.baml", "1")
        .file("/g/three.baml", "3");
    let (files, requests) = tree.walk("/g");
    assert_eq!(files, pairs(&[("/g/one.baml", "1")]));
    let mut walk = gather_baml_files("/g".to_string());
    let _ = walk.listed(tree.listing("/g"));
    let _ = walk.file_read(Ok("1".to_string()));
    let _ = walk.file_read(Err("no such file".to_string()));
    match walk.error() {
        Some(e) => {
            assert_eq!(e.message(), "no such file");
            assert!(matches!(e, GatherError::FileUnreadable(ref f, _) if f == "/g/two.baml"));
        }
        None => panic!("expected an error"),
    }
    assert_eq!(requests, vec!["dir /g", "file /g/one.baml", "file /g/two.baml"]);
}

#[test]
fn a_directory_is_walked_only_once() {
    let mut walk = gather_baml_files("/d".to_string());
    let entry = |p: &str, n: &str, d: bool| DirEntry { path: p.to_string(), file_name: n.to_string(), is_dir: d };
    // The listing of "/d" names "/d/s" twice and names "/d" itself.
    let next = walk.listed(Ok(vec![entry("/d/s", "s", true), entry("/d/s", "s", true), entry("/d", "d", true)]));
    match next {
        GatherAction::ReadDir(d) => assert_eq!(d, "/d/s"),
        _ => panic!("expected a listing request"),
    }
    let next = walk.listed(Ok(vec![entry("/d/s/f.baml", "f.baml", false)]));
    match next {
        GatherAction::ReadFile(f) => assert_eq!(f, "/d/s/f.baml"),
        _ => panic!("expected a read request"),
    }
    match walk.file_read(Ok("F".to_string())) {
        GatherAction::Done(files) => assert_eq!(files, pairs(&[("/d/s/f.baml", "F")])),
        _ => panic!("expected the walk to be over"),
    }
    assert!(walk.is_done());
    assert!(walk.error().is_none());
}

#[test]
fn a_bad_entry_ends_the_walk() {
    let mut walk = gather_baml_files("/b".to_string());
    match walk.listed(Err(ListFailure::BadEntry)) {
        GatherAction::Done(files) => assert!(files.is_empty()),
        _ => panic!("expected the walk to be over"),
    }
    match walk.error() {
        Some(e) => assert_eq!(e.message(), "Bad file"),
        None => panic!("expected an error"),
    }
    assert!(walk.is_done());
}

#[test]
fn the_walk_starts_by_listing_the_root() {
    let walk = gather_baml_files("/root/project".to_string());
    match walk.action() {
        GatherAction::ReadDir(d) => assert_eq!(d, "/root/project"),
        _ => panic!("expected a listing request"),
    }
    assert!(!walk.is_done());
}

#[test]
fn gather_error_messages() {
    assert_eq!(GatherError::DirectoryUnreadable("/x".to_string()).message(), "IO Error");
    assert_eq!(GatherError::BadEntry("/x".to_string()).message(), "Bad file");
    assert_eq!(
        GatherError::FileUnreadable("/x/a.baml".to_string(), "denied".to_string()).message(),
        "denied"
    );
}
