//! Gathering the `.baml` files below a root directory.
//!
//! The walk is a state machine: each step names the one directory listing or
//! file read that it needs next, and the caller performs it and hands the
//! outcome back.  Directories are walked depth first: the subdirectories of a
//! directory are walked, in listing order, before its own `.baml` files are
//! read, in listing order.  A directory path that was walked once is never
//! walked again.  A listing or a read that fails ends the walk; the files
//! gathered until then are its result.

use vstd::prelude::*;
use crate::text::{ends_with, str_ends_with};

verus! {

/// One entry of a directory listing.
pub struct DirEntry {
    pub path: String,
    pub file_name: String,
    pub is_dir: bool,
}

/// A directory entry as plain values.
pub struct EntryView {
    pub path: Seq<char>,
    pub file_name: Seq<char>,
    pub is_dir: bool,
}

impl View for DirEntry {
    type V = EntryView;

    open spec fn view(&self) -> EntryView {
        EntryView { path: self.path@, file_name: self.file_name@, is_dir: self.is_dir }
    }
}

/// Why a directory listing could not be had.
#[derive(Clone, Copy, Debug, PartialEq, Eq, Structural)]
pub enum ListFailure {
    /// The directory itself could not be read.
    Unreadable,
    /// One of its entries could not be read.
    BadEntry,
}

/// What ended a walk early.
#[derive(Debug)]
pub enum GatherError {
    DirectoryUnreadable(String),
    BadEntry(String),
    FileUnreadable(String, String),
}

pub enum GatherErrorView {
    DirectoryUnreadable(Seq<char>),
    BadEntry(Seq<char>),
    FileUnreadable(Seq<char>, Seq<char>),
}

impl View for GatherError {
    type V = GatherErrorView;

    open spec fn view(&self) -> GatherErrorView {
        match self {
            GatherError::DirectoryUnreadable(d) => GatherErrorView::DirectoryUnreadable(d@),
            GatherError::BadEntry(d) => GatherErrorView::BadEntry(d@),
            GatherError::FileUnreadable(f, why) => GatherErrorView::FileUnreadable(f@, why@),
        }
    }
}

impl GatherError {
    /// The text of the error.
    pub fn message(&self) -> (m: String)
        ensures
            m@ == (match self@ {
                GatherErrorView::DirectoryUnreadable(_) => "IO Error"@,
                GatherErrorView::BadEntry(_) => "Bad file"@,
                GatherErrorView::FileUnreadable(_, why) => why,
            }),
    {
        match self {
            GatherError::DirectoryUnreadable(_) => String::from_str("IO Error"),
            GatherError::BadEntry(_) => String::from_str("Bad file"),
            GatherError::FileUnreadable(_, why) => why.clone(),
        }
    }
}

impl GatherError {
    /// A copy of the error.
    pub fn duplicate(&self) -> (e: GatherError)
        ensures
            e@ == self@,
    {
        match self {
            GatherError::DirectoryUnreadable(d) => GatherError::DirectoryUnreadable(d.clone()),
            GatherError::BadEntry(d) => GatherError::BadEntry(d.clone()),
            GatherError::FileUnreadable(f, why) => GatherError::FileUnreadable(f.clone(), why.clone()),
        }
    }
}

/// The error that ended a walk early; `None` while it runs or when it ended
/// without one.
pub open spec fn stopped_by(w: WalkView) -> Option<GatherErrorView> {
    match w.phase {
        PhaseView::Done(e) => e,
        _ => None,
    }
}

/// Work still to do: walk a directory, or read a file.
enum Task {
    Visit(String),
    Read(String),
}

pub enum TaskView {
    Visit(Seq<char>),
    Read(Seq<char>),
}

impl View for Task {
    type V = TaskView;

    closed spec fn view(&self) -> TaskView {
        match self {
            Task::Visit(d) => TaskView::Visit(d@),
            Task::Read(f) => TaskView::Read(f@),
        }
    }
}

/// Where a walk stands.
enum Phase {
    ListDir(String),
    ReadFile(String),
    Done(Option<GatherError>),
}

pub enum PhaseView {
    /// Waiting for the listing of this directory.
    ListDir(Seq<char>),
    /// Waiting for the contents of this file.
    ReadFile(Seq<char>),
    /// Finished; with the error that ended it early, if one did.
    Done(Option<GatherErrorView>),
}

pub open spec fn error_view(e: Option<GatherError>) -> Option<GatherErrorView> {
    match e {
        Some(e) => Some(e@),
        None => None,
    }
}

impl View for Phase {
    type V = PhaseView;

    closed spec fn view(&self) -> PhaseView {
        match self {
            Phase::ListDir(d) => PhaseView::ListDir(d@),
            Phase::ReadFile(f) => PhaseView::ReadFile(f@),
            Phase::Done(e) => PhaseView::Done(error_view(*e)),
        }
    }
}

/// What the walk asks of its caller next.
pub enum GatherAction {
    /// List this directory and hand the outcome to `listed`.
    ReadDir(String),
    /// Read this file and hand the outcome to `file_read`.
    ReadFile(String),
    /// The walk is over; these are the gathered `(path, contents)` pairs.
    Done(Vec<(String, String)>),
}

pub enum ActionView {
    ReadDir(Seq<char>),
    ReadFile(Seq<char>),
    Done(Seq<(Seq<char>, Seq<char>)>),
}

pub open spec fn strings_view(v: Seq<String>) -> Seq<Seq<char>> {
    v.map_values(|s: String| s@)
}

pub open spec fn pairs_view(v: Seq<(String, String)>) -> Seq<(Seq<char>, Seq<char>)> {
    v.map_values(|p: (String, String)| (p.0@, p.1@))
}

pub open spec fn entries_view(v: Seq<DirEntry>) -> Seq<EntryView> {
    v.map_values(|e: DirEntry| e@)
}

impl View for GatherAction {
    type V = ActionView;

    open spec fn view(&self) -> ActionView {
        match self {
            GatherAction::ReadDir(d) => ActionView::ReadDir(d@),
            GatherAction::ReadFile(f) => ActionView::ReadFile(f@),
            GatherAction::Done(files) => ActionView::Done(pairs_view(files@)),
        }
    }
}

/// The walk as plain values.
pub struct WalkView {
    /// Every directory path that was asked for, in order.
    pub visited: Seq<Seq<char>>,
    /// What is left to do; the first task comes next.
    pub tasks: Seq<TaskView>,
    /// The `(path, contents)` pairs gathered so far, in order.
    pub files: Seq<(Seq<char>, Seq<char>)>,
    pub phase: PhaseView,
}

/// The name of a `.baml` file.
pub open spec fn is_baml_name(name: Seq<char>) -> bool {
    ends_with(name, ".baml"@)
}

/// An entry that is read as a `.baml` file.
pub open spec fn is_baml_file(e: EntryView) -> bool {
    !e.is_dir && is_baml_name(e.file_name)
}

/// The subdirectories of a listing, to be walked, in listing order.
pub open spec fn dir_tasks(es: Seq<EntryView>) -> Seq<TaskView>
    decreases es.len(),
{
    if es.len() == 0 {
        Seq::empty()
    } else if es.last().is_dir {
        dir_tasks(es.drop_last()).push(TaskView::Visit(es.last().path))
    } else {
        dir_tasks(es.drop_last())
    }
}

/// The `.baml` files of a listing, to be read, in listing order.
pub open spec fn file_tasks(es: Seq<EntryView>) -> Seq<TaskView>
    decreases es.len(),
{
    if es.len() == 0 {
        Seq::empty()
    } else if is_baml_file(es.last()) {
        file_tasks(es.drop_last()).push(TaskView::Read(es.last().path))
    } else {
        file_tasks(es.drop_last())
    }
}

/// The work that a directory listing adds: its subdirectories first, then
/// its `.baml` files.
pub open spec fn entry_tasks(es: Seq<EntryView>) -> Seq<TaskView> {
    dir_tasks(es) + file_tasks(es)
}

/// Takes tasks from the front until one needs the caller: a directory not
/// yet visited, or a file.  With no task left, the walk is done.
pub open spec fn advance(
    visited: Seq<Seq<char>>,
    tasks: Seq<TaskView>,
    files: Seq<(Seq<char>, Seq<char>)>,
) -> WalkView
    decreases tasks.len(),
{
    if tasks.len() == 0 {
        WalkView { visited, tasks, files, phase: PhaseView::Done(None) }
    } else {
        match tasks[0] {
            TaskView::Visit(d) => if visited.contains(d) {
                advance(visited, tasks.drop_first(), files)
            } else {
                WalkView {
                    visited: visited.push(d),
                    tasks: tasks.drop_first(),
                    files,
                    phase: PhaseView::ListDir(d),
                }
            },
            TaskView::Read(f) => WalkView {
                visited,
                tasks: tasks.drop_first(),
                files,
                phase: PhaseView::ReadFile(f),
            },
        }
    }
}

/// A walk from `root`: it first asks for the listing of `root`.
pub open spec fn start(root: Seq<char>) -> WalkView {
    advance(Seq::empty(), seq![TaskView::Visit(root)], Seq::empty())
}

/// The walk after the listing it asked for came back.
pub open spec fn after_listing(w: WalkView, listing: Result<Seq<EntryView>, ListFailure>) -> WalkView {
    match w.phase {
        PhaseView::ListDir(d) => match listing {
            Ok(es) => advance(w.visited, entry_tasks(es) + w.tasks, w.files),
            Err(ListFailure::Unreadable) => WalkView {
                phase: PhaseView::Done(Some(GatherErrorView::DirectoryUnreadable(d))),
                ..w
            },
            Err(ListFailure::BadEntry) => WalkView {
                phase: PhaseView::Done(Some(GatherErrorView::BadEntry(d))),
                ..w
            },
        },
        _ => w,
    }
}

/// The walk after the file read it asked for came back.
pub open spec fn after_read(w: WalkView, contents: Result<Seq<char>, Seq<char>>) -> WalkView {
    match w.phase {
        PhaseView::ReadFile(f) => match contents {
            Ok(c) => advance(w.visited, w.tasks, w.files.push((f, c))),
            Err(why) => WalkView {
                phase: PhaseView::Done(Some(GatherErrorView::FileUnreadable(f, why))),
                ..w
            },
        },
        _ => w,
    }
}

/// What a walk in this state asks of its caller.
pub open spec fn action_of(w: WalkView) -> ActionView {
    match w.phase {
        PhaseView::ListDir(d) => ActionView::ReadDir(d),
        PhaseView::ReadFile(f) => ActionView::ReadFile(f),
        PhaseView::Done(_) => ActionView::Done(w.files),
    }
}

pub open spec fn listing_view(r: Result<Vec<DirEntry>, ListFailure>) -> Result<Seq<EntryView>, ListFailure> {
    match r {
        Ok(v) => Ok(entries_view(v@)),
        Err(e) => Err(e),
    }
}

pub open spec fn read_view(r: Result<String, String>) -> Result<Seq<char>, Seq<char>> {
    match r {
        Ok(c) => Ok(c@),
        Err(why) => Err(why@),
    }
}

/// A walk over a directory tree that gathers its `.baml` files.
pub struct BamlFileWalk {
    visited: Vec<String>,
    tasks: Vec<Task>,
    files: Vec<(String, String)>,
    phase: Phase,
}

impl View for BamlFileWalk {
    type V = WalkView;

    closed spec fn view(&self) -> WalkView {
        WalkView {
            visited: strings_view(self.visited@),
            tasks: self.tasks@.map_values(|t: Task| t@),
            files: pairs_view(self.files@),
            phase: self.phase@,
        }
    }
}

/// Starts the walk that gathers the `.baml` files directly in `root_dir`
/// and in all its subdirectories.
pub fn gather_baml_files(root_dir: String) -> (walk: BamlFileWalk)
    ensures
        walk@ == start(root_dir@),
{
    let mut tasks: Vec<Task> = Vec::new();
    tasks.push(Task::Visit(root_dir));
    let mut walk = BamlFileWalk {
        visited: Vec::new(),
        tasks,
        files: Vec::new(),
        phase: Phase::Done(None),
    };
    proof {
        assert(walk@.visited =~= Seq::<Seq<char>>::empty());
        assert(walk@.files =~= Seq::<(Seq<char>, Seq<char>)>::empty());
        assert(walk@.tasks =~= seq![TaskView::Visit(root_dir@)]);
    }
    walk.advance();
    walk
}

fn contains_string(v: &Vec<String>, s: &String) -> (r: bool)
    ensures
        r == strings_view(v@).contains(s@),
{
    let n = v.len();
    let mut i: usize = 0;
    while i < n
        invariant
            n == v@.len(),
            i <= n,
            forall|j: int| 0 <= j < i ==> v@[j]@ != s@,
        decreases n - i,
    {
        if v[i] == *s {
            assert(strings_view(v@)[i as int] == s@);
            return true;
        }
        i = i + 1;
    }
    assert forall|k: int| 0 <= k < strings_view(v@).len() implies strings_view(v@)[k] != s@ by {}
    false
}

fn copy_pairs(v: &Vec<(String, String)>) -> (r: Vec<(String, String)>)
    ensures
        pairs_view(r@) == pairs_view(v@),
{
    let n = v.len();
    let mut r: Vec<(String, String)> = Vec::new();
    let mut i: usize = 0;
    while i < n
        invariant
            n == v@.len(),
            i <= n,
            pairs_view(r@) =~= pairs_view(v@).take(i as int),
        decreases n - i,
    {
        let p = &v[i];
        let q = (p.0.clone(), p.1.clone());
        let ghost r0 = r@;
        r.push(q);
        assert(pairs_view(r@) =~= pairs_view(r0).push((q.0@, q.1@)));
        assert(pairs_view(v@).take(i + 1) =~= pairs_view(v@).take(i as int).push(pairs_view(v@)[i as int]));
        i = i + 1;
    }
    r
}

/// The tasks that a listing adds, in the order of `entry_tasks`.
fn tasks_of_listing(entries: &Vec<DirEntry>) -> (r: Vec<Task>)
    ensures
        r@.map_values(|t: Task| t@) == entry_tasks(entries_view(entries@)),
{
    let ghost es = entries_view(entries@);
    let n = entries.len();
    let mut dirs: Vec<Task> = Vec::new();
    let mut reads: Vec<Task> = Vec::new();
    let mut i: usize = 0;
    while i < n
        invariant
            n == entries@.len(),
            es == entries_view(entries@),
            i <= n,
            dirs@.map_values(|t: Task| t@) == dir_tasks(es.take(i as int)),
            reads@.map_values(|t: Task| t@) == file_tasks(es.take(i as int)),
        decreases n - i,
    {
        let e = &entries[i];
        assert(es.take(i + 1).drop_last() =~= es.take(i as int));
        assert(es.take(i + 1).last() == e@);
        if e.is_dir {
            dirs.push(Task::Visit(e.path.clone()));
        } else if str_ends_with(e.file_name.as_str(), ".baml") {
            reads.push(Task::Read(e.path.clone()));
        }
        assert(dirs@.map_values(|t: Task| t@) =~= dir_tasks(es.take(i + 1)));
        assert(reads@.map_values(|t: Task| t@) =~= file_tasks(es.take(i + 1)));
        i = i + 1;
    }
    assert(es.take(n as int) =~= es);
    let ghost d0 = dirs@;
    let ghost r0 = reads@;
    dirs.append(&mut reads);
    assert(dirs@.map_values(|t: Task| t@) =~= d0.map_values(|t: Task| t@) + r0.map_values(
        |t: Task| t@,
    ));
    dirs
}

impl BamlFileWalk {
    /// Takes tasks until one needs the caller.
    fn advance(&mut self)
        ensures
            final(self)@ == advance(old(self)@.visited, old(self)@.tasks, old(self)@.files),
    {
        let ghost target = advance(self@.visited, self@.tasks, self@.files);
        loop
            invariant
                target == advance(old(self)@.visited, old(self)@.tasks, old(self)@.files),
                advance(self@.visited, self@.tasks, self@.files) == target,
            decreases self.tasks@.len(),
        {
            if self.tasks.len() == 0 {
                self.phase = Phase::Done(None);
                return;
            }
            let ghost before = self@;
            let t = self.tasks.remove(0);
            assert(self@.tasks =~= before.tasks.drop_first());
            match t {
                Task::Visit(d) => {
                    if contains_string(&self.visited, &d) {
                        assert(advance(self@.visited, self@.tasks, self@.files) == target);
                    } else {
                        self.visited.push(d.clone());
                        self.phase = Phase::ListDir(d);
                        assert(self@.visited =~= before.visited.push(self@.phase->ListDir_0));
                        return;
                    }
                },
                Task::Read(f) => {
                    self.phase = Phase::ReadFile(f);
                    return;
                },
            }
        }
    }

    /// What the walk asks of its caller now.
    pub fn action(&self) -> (action: GatherAction)
        ensures
            action@ == action_of(self@),
    {
        match &self.phase {
            Phase::ListDir(d) => GatherAction::ReadDir(d.clone()),
            Phase::ReadFile(f) => GatherAction::ReadFile(f.clone()),
            Phase::Done(_) => GatherAction::Done(copy_pairs(&self.files)),
        }
    }

    /// The error that ended the walk early, if one did.
    pub fn error(&self) -> (e: Option<GatherError>)
        ensures
            error_view(e) == stopped_by(self@),
    {
        match &self.phase {
            Phase::Done(Some(err)) => Some(err.duplicate()),
            _ => None,
        }
    }

    /// Whether the walk is over.
    pub fn is_done(&self) -> (done: bool)
        ensures
            done == (self@.phase is Done),
    {
        match &self.phase {
            Phase::Done(_) => true,
            _ => false,
        }
    }

    /// Hands the walk the listing that it asked for; returns what it asks next.
    pub fn listed(&mut self, listing: Result<Vec<DirEntry>, ListFailure>) -> (action: GatherAction)
        requires
            old(self)@.phase is ListDir,
        ensures
            final(self)@ == after_listing(old(self)@, listing_view(listing)),
            action@ == action_of(final(self)@),
    {
        let dir = match &self.phase {
            Phase::ListDir(d) => d.clone(),
            _ => String::new(),
        };
        match listing {
            Ok(entries) => {
                let ghost before = self@;
                let mut added = tasks_of_listing(&entries);
                added.append(&mut self.tasks);
                self.tasks = added;
                assert(self@.tasks =~= entry_tasks(entries_view(entries@)) + before.tasks);
                self.advance();
            },
            Err(ListFailure::Unreadable) => {
                self.phase = Phase::Done(Some(GatherError::DirectoryUnreadable(dir)));
            },
            Err(ListFailure::BadEntry) => {
                self.phase = Phase::Done(Some(GatherError::BadEntry(dir)));
            },
        }
        self.action()
    }

    /// Hands the walk the contents of the file that it asked for, or the
    /// reason it could not be read; returns what it asks next.
    pub fn file_read(&mut self, contents: Result<String, String>) -> (action: GatherAction)
        requires
            old(self)@.phase is ReadFile,
        ensures
            final(self)@ == after_read(old(self)@, read_view(contents)),
            action@ == action_of(final(self)@),
    {
        let file = match &self.phase {
            Phase::ReadFile(f) => f.clone(),
            _ => String::new(),
        };
        match contents {
            Ok(c) => {
                let ghost before = self@;
                self.files.push((file, c));
                assert(self@.files =~= before.files.push((before.phase->ReadFile_0, c@)));
                self.advance();
            },
            Err(why) => {
                self.phase = Phase::Done(Some(GatherError::FileUnreadable(file, why)));
            },
        }
        self.action()
    }
}

} // verus!
