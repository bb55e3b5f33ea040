//! What a whole walk gathers, when every listing and read it asks for is
//! answered from one fixed directory tree.

use vstd::prelude::*;
use crate::text::ends_with;
use crate::gather::{
    advance, after_listing, after_read, dir_tasks, entry_tasks, file_tasks, is_baml_file, start,
    EntryView, GatherErrorView, ListFailure, PhaseView, TaskView, WalkView,
};

verus! {

/// A directory tree as plain values: the listing of each directory that can
/// be listed, and the contents of each file that can be read.
pub struct FsModel {
    pub listings: Map<Seq<char>, Seq<EntryView>>,
    pub contents: Map<Seq<char>, Seq<char>>,
}

/// The tree's answer to a request for the listing of `d`.
pub open spec fn answer_listing(fs: FsModel, d: Seq<char>) -> Result<Seq<EntryView>, ListFailure> {
    if fs.listings.contains_key(d) {
        Ok(fs.listings[d])
    } else {
        Err(ListFailure::Unreadable)
    }
}

/// The tree's answer to a request for the contents of `f`.
pub open spec fn answer_read(fs: FsModel, f: Seq<char>) -> Result<Seq<char>, Seq<char>> {
    if fs.contents.contains_key(f) {
        Ok(fs.contents[f])
    } else {
        Err(Seq::empty())
    }
}

/// One step of a walk whose requests the tree answers.
pub open spec fn fs_step(fs: FsModel, w: WalkView) -> WalkView {
    match w.phase {
        PhaseView::ListDir(d) => after_listing(w, answer_listing(fs, d)),
        PhaseView::ReadFile(f) => after_read(w, answer_read(fs, f)),
        PhaseView::Done(_) => w,
    }
}

/// `n` steps of a walk whose requests the tree answers.
pub open spec fn run(fs: FsModel, w: WalkView, n: nat) -> WalkView
    decreases n,
{
    if n == 0 {
        w
    } else {
        run(fs, fs_step(fs, w), (n - 1) as nat)
    }
}

/// `child` is a subdirectory entry in the listing of `parent`.
pub open spec fn lists_subdir(fs: FsModel, parent: Seq<char>, child: Seq<char>) -> bool {
    &&& fs.listings.contains_key(parent)
    &&& exists|j: int|
        #![trigger fs.listings[parent][j]]
        0 <= j < fs.listings[parent].len() && fs.listings[parent][j].is_dir
            && fs.listings[parent][j].path == child
}

/// `f` is a `.baml` file entry in the listing of `dir`.
pub open spec fn lists_baml_file(fs: FsModel, dir: Seq<char>, f: Seq<char>) -> bool {
    &&& fs.listings.contains_key(dir)
    &&& exists|j: int|
        #![trigger fs.listings[dir][j]]
        0 <= j < fs.listings[dir].len() && is_baml_file(fs.listings[dir][j])
            && fs.listings[dir][j].path == f
}

/// The `i`-th link of `chain` goes from a directory to one of its subdirectories.
pub open spec fn link(fs: FsModel, chain: Seq<Seq<char>>, i: int) -> bool {
    lists_subdir(fs, chain[i], chain[i + 1])
}

/// `chain` leads from `root` down to `d`, one subdirectory at a time.
pub open spec fn is_path_from(fs: FsModel, root: Seq<char>, chain: Seq<Seq<char>>, d: Seq<char>) -> bool {
    &&& chain.len() >= 1
    &&& chain[0] == root
    &&& chain.last() == d
    &&& forall|i: int| 0 <= i < chain.len() - 1 ==> #[trigger] link(fs, chain, i)
}

/// `d` is `root` or lies below it.
pub open spec fn reachable(fs: FsModel, root: Seq<char>, d: Seq<char>) -> bool {
    exists|chain: Seq<Seq<char>>| #[trigger] is_path_from(fs, root, chain, d)
}

/// `f` is a `.baml` file of `root` or of a directory below it.
pub open spec fn reachable_baml(fs: FsModel, root: Seq<char>, f: Seq<char>) -> bool {
    exists|dir: Seq<char>| reachable(fs, root, dir) && #[trigger] lists_baml_file(fs, dir, f)
}

spec fn has_file(files: Seq<(Seq<char>, Seq<char>)>, f: Seq<char>) -> bool {
    exists|k: int| 0 <= k < files.len() && (#[trigger] files[k]).0 == f
}

spec fn entry_covered(w: WalkView, e: EntryView) -> bool {
    &&& e.is_dir ==> w.visited.contains(e.path) || w.tasks.contains(TaskView::Visit(e.path))
    &&& is_baml_file(e) ==> has_file(w.files, e.path) || w.tasks.contains(TaskView::Read(e.path))
        || w.phase == PhaseView::ReadFile(e.path)
}

spec fn dir_covered(fs: FsModel, w: WalkView, v: Seq<char>) -> bool {
    &&& fs.listings.contains_key(v)
    &&& forall|j: int|
        0 <= j < fs.listings[v].len() ==> entry_covered(w, #[trigger] fs.listings[v][j])
}

spec fn task_sound(fs: FsModel, root: Seq<char>, t: TaskView) -> bool {
    match t {
        TaskView::Visit(d) => reachable(fs, root, d),
        TaskView::Read(f) => reachable_baml(fs, root, f),
    }
}

spec fn file_sound(fs: FsModel, root: Seq<char>, p: (Seq<char>, Seq<char>)) -> bool {
    reachable_baml(fs, root, p.0) && fs.contents.contains_key(p.0) && fs.contents[p.0] == p.1
}

spec fn phase_sound(fs: FsModel, root: Seq<char>, w: WalkView) -> bool {
    match w.phase {
        PhaseView::ListDir(d) => w.visited.contains(d) && reachable(fs, root, d),
        PhaseView::ReadFile(f) => reachable_baml(fs, root, f),
        PhaseView::Done(None) => true,
        PhaseView::Done(Some(GatherErrorView::DirectoryUnreadable(d))) => reachable(fs, root, d)
            && !fs.listings.contains_key(d),
        PhaseView::Done(Some(GatherErrorView::BadEntry(_))) => false,
        PhaseView::Done(Some(GatherErrorView::FileUnreadable(f, _))) => reachable_baml(fs, root, f)
            && !fs.contents.contains_key(f),
    }
}

spec fn failed(w: WalkView) -> bool {
    w.phase matches PhaseView::Done(Some(_))
}

spec fn inv_body(fs: FsModel, root: Seq<char>, w: WalkView) -> bool {
    &&& w.visited.no_duplicates()
    &&& w.visited.contains(root)
    &&& forall|i: int| 0 <= i < w.visited.len() ==> reachable(fs, root, #[trigger] w.visited[i])
    &&& forall|i: int| 0 <= i < w.tasks.len() ==> task_sound(fs, root, #[trigger] w.tasks[i])
    &&& forall|k: int| 0 <= k < w.files.len() ==> file_sound(fs, root, #[trigger] w.files[k])
    &&& phase_sound(fs, root, w)
    &&& !failed(w) ==> forall|i: int|
        0 <= i < w.visited.len() && w.phase != PhaseView::ListDir(w.visited[i]) ==> dir_covered(
            fs,
            w,
            #[trigger] w.visited[i],
        )
}

spec fn inv(fs: FsModel, root: Seq<char>, w: WalkView) -> bool {
    &&& inv_body(fs, root, w)
    &&& w.phase == PhaseView::Done(None) ==> w.tasks.len() == 0
}

spec fn settled(
    visited: Seq<Seq<char>>,
    tasks: Seq<TaskView>,
    files: Seq<(Seq<char>, Seq<char>)>,
) -> WalkView {
    WalkView { visited, tasks, files, phase: PhaseView::Done(None) }
}

proof fn lemma_root_reachable(fs: FsModel, root: Seq<char>)
    ensures
        reachable(fs, root, root),
{
    let c = seq![root];
    assert(is_path_from(fs, root, c, root));
}

proof fn lemma_reachable_step(fs: FsModel, root: Seq<char>, d: Seq<char>, x: Seq<char>)
    requires
        reachable(fs, root, d),
        lists_subdir(fs, d, x),
    ensures
        reachable(fs, root, x),
{
    let c = choose|c: Seq<Seq<char>>| is_path_from(fs, root, c, d);
    let c2 = c.push(x);
    assert forall|i: int| 0 <= i < c2.len() - 1 implies #[trigger] link(fs, c2, i) by {
        if i < c.len() - 1 {
            assert(link(fs, c, i));
            assert(c2[i] == c[i] && c2[i + 1] == c[i + 1]);
        } else {
            assert(c2[i] == d && c2[i + 1] == x);
        }
    }
    assert(is_path_from(fs, root, c2, x));
}

spec fn visit_of(es: Seq<EntryView>, t: TaskView) -> bool {
    exists|j: int|
        #![trigger es[j]]
        0 <= j < es.len() && es[j].is_dir && t == TaskView::Visit(es[j].path)
}

spec fn read_of(es: Seq<EntryView>, t: TaskView) -> bool {
    exists|j: int|
        #![trigger es[j]]
        0 <= j < es.len() && is_baml_file(es[j]) && t == TaskView::Read(es[j].path)
}

proof fn lemma_dir_tasks(es: Seq<EntryView>)
    ensures
        forall|i: int| 0 <= i < dir_tasks(es).len() ==> visit_of(es, #[trigger] dir_tasks(es)[i]),
        forall|j: int|
            0 <= j < es.len() && (#[trigger] es[j]).is_dir ==> dir_tasks(es).contains(
                TaskView::Visit(es[j].path),
            ),
    decreases es.len(),
{
    if es.len() > 0 {
        let p = es.drop_last();
        lemma_dir_tasks(p);
        let r = dir_tasks(p);
        assert forall|i: int| 0 <= i < dir_tasks(es).len() implies visit_of(
            es,
            #[trigger] dir_tasks(es)[i],
        ) by {
            if i < r.len() {
                assert(visit_of(p, r[i]));
                let j = choose|j: int|
                    #![trigger p[j]]
                    0 <= j < p.len() && p[j].is_dir && r[i] == TaskView::Visit(p[j].path);
                assert(es[j] == p[j]);
                assert(dir_tasks(es)[i] == r[i]);
            } else {
                assert(es[es.len() - 1] == es.last());
            }
        }
        assert forall|j: int| 0 <= j < es.len() && (#[trigger] es[j]).is_dir implies dir_tasks(
            es,
        ).contains(TaskView::Visit(es[j].path)) by {
            if j < es.len() - 1 {
                assert(p[j] == es[j]);
                let k = choose|k: int| 0 <= k < r.len() && r[k] == TaskView::Visit(p[j].path);
                assert(dir_tasks(es)[k] == r[k]);
            } else {
                assert(dir_tasks(es)[r.len() as int] == TaskView::Visit(es[j].path));
            }
        }
    }
}

proof fn lemma_file_tasks(es: Seq<EntryView>)
    ensures
        forall|i: int| 0 <= i < file_tasks(es).len() ==> read_of(es, #[trigger] file_tasks(es)[i]),
        forall|j: int|
            0 <= j < es.len() && is_baml_file(#[trigger] es[j]) ==> file_tasks(es).contains(
                TaskView::Read(es[j].path),
            ),
    decreases es.len(),
{
    if es.len() > 0 {
        let p = es.drop_last();
        lemma_file_tasks(p);
        let r = file_tasks(p);
        assert forall|i: int| 0 <= i < file_tasks(es).len() implies read_of(
            es,
            #[trigger] file_tasks(es)[i],
        ) by {
            if i < r.len() {
                assert(read_of(p, r[i]));
                let j = choose|j: int|
                    #![trigger p[j]]
                    0 <= j < p.len() && is_baml_file(p[j]) && r[i] == TaskView::Read(p[j].path);
                assert(es[j] == p[j]);
                assert(file_tasks(es)[i] == r[i]);
            } else {
                assert(es[es.len() - 1] == es.last());
            }
        }
        assert forall|j: int| 0 <= j < es.len() && is_baml_file(#[trigger] es[j]) implies file_tasks(
            es,
        ).contains(TaskView::Read(es[j].path)) by {
            if j < es.len() - 1 {
                assert(p[j] == es[j]);
                let k = choose|k: int| 0 <= k < r.len() && r[k] == TaskView::Read(p[j].path);
                assert(file_tasks(es)[k] == r[k]);
            } else {
                assert(file_tasks(es)[r.len() as int] == TaskView::Read(es[j].path));
            }
        }
    }
}

proof fn lemma_contains_after_drop(tasks: Seq<TaskView>, t: TaskView)
    requires
        tasks.contains(t),
        tasks[0] != t,
    ensures
        tasks.drop_first().contains(t),
{
    let k = choose|k: int| 0 <= k < tasks.len() && tasks[k] == t;
    assert(tasks.drop_first()[k - 1] == t);
}

proof fn lemma_contains_suffix(pre: Seq<TaskView>, tasks: Seq<TaskView>, t: TaskView)
    requires
        tasks.contains(t),
    ensures
        (pre + tasks).contains(t),
{
    let k = choose|k: int| 0 <= k < tasks.len() && tasks[k] == t;
    assert((pre + tasks)[pre.len() + k] == t);
}

proof fn lemma_contains_prefix(pre: Seq<TaskView>, tasks: Seq<TaskView>, t: TaskView)
    requires
        pre.contains(t),
    ensures
        (pre + tasks).contains(t),
{
    let k = choose|k: int| 0 <= k < pre.len() && pre[k] == t;
    assert((pre + tasks)[k] == t);
}

/// Taking tasks off the front keeps the invariant.
proof fn lemma_advance(
    fs: FsModel,
    root: Seq<char>,
    visited: Seq<Seq<char>>,
    tasks: Seq<TaskView>,
    files: Seq<(Seq<char>, Seq<char>)>,
)
    requires
        inv_body(fs, root, settled(visited, tasks, files)),
    ensures
        inv(fs, root, advance(visited, tasks, files)),
    decreases tasks.len(),
{
    let w = settled(visited, tasks, files);
    assert(w.tasks == tasks && w.visited == visited && w.files == files);
    if tasks.len() == 0 {
        return;
    }
    let rest = tasks.drop_first();
    assert forall|i: int| 0 <= i < rest.len() implies task_sound(fs, root, #[trigger] rest[i]) by {
        assert(rest[i] == tasks[i + 1]);
        assert(task_sound(fs, root, tasks[i + 1]));
    }
    assert(task_sound(fs, root, tasks[0]));
    match tasks[0] {
        TaskView::Visit(d) => {
            if visited.contains(d) {
                let w2 = settled(visited, rest, files);
                assert forall|i: int|
                    0 <= i < w2.visited.len() && w2.phase != PhaseView::ListDir(
                        w2.visited[i],
                    ) implies dir_covered(fs, w2, #[trigger] w2.visited[i]) by {
                    let v = visited[i];
                    assert(dir_covered(fs, w, v));
                    assert forall|j: int| 0 <= j < fs.listings[v].len() implies entry_covered(
                        w2,
                        #[trigger] fs.listings[v][j],
                    ) by {
                        let e = fs.listings[v][j];
                        assert(entry_covered(w, e));
                        if e.is_dir && !visited.contains(e.path) {
                            lemma_contains_after_drop(tasks, TaskView::Visit(e.path));
                        }
                        if is_baml_file(e) && !has_file(files, e.path) {
                            lemma_contains_after_drop(tasks, TaskView::Read(e.path));
                        }
                    }
                }
                lemma_advance(fs, root, visited, rest, files);
            } else {
                let w2 = advance(visited, tasks, files);
                assert(w2.visited == visited.push(d));
                assert forall|i: int| 0 <= i < w2.visited.len() implies reachable(
                    fs,
                    root,
                    #[trigger] w2.visited[i],
                ) by {
                    if i < visited.len() {
                        assert(w2.visited[i] == visited[i]);
                    }
                }
                assert(w2.visited[visited.len() as int] == d);
                assert(w2.visited.contains(d));
                let ri = choose|ri: int| 0 <= ri < visited.len() && visited[ri] == root;
                assert(w2.visited[ri] == root);
                assert forall|i: int|
                    0 <= i < w2.visited.len() && w2.phase != PhaseView::ListDir(
                        w2.visited[i],
                    ) implies dir_covered(fs, w2, #[trigger] w2.visited[i]) by {
                    let v = w2.visited[i];
                    assert(i < visited.len());
                    assert(v == visited[i]);
                    assert(dir_covered(fs, w, v));
                    assert forall|j: int| 0 <= j < fs.listings[v].len() implies entry_covered(
                        w2,
                        #[trigger] fs.listings[v][j],
                    ) by {
                        let e = fs.listings[v][j];
                        assert(entry_covered(w, e));
                        if e.is_dir {
                            if visited.contains(e.path) {
                                let k = choose|k: int| 0 <= k < visited.len() && visited[k] == e.path;
                                assert(w2.visited[k] == e.path);
                            } else if e.path == d {
                            } else {
                                lemma_contains_after_drop(tasks, TaskView::Visit(e.path));
                            }
                        }
                        if is_baml_file(e) && !has_file(files, e.path) {
                            lemma_contains_after_drop(tasks, TaskView::Read(e.path));
                        }
                    }
                }
            }
        },
        TaskView::Read(f) => {
            let w2 = advance(visited, tasks, files);
            assert forall|i: int|
                0 <= i < w2.visited.len() && w2.phase != PhaseView::ListDir(
                    w2.visited[i],
                ) implies dir_covered(fs, w2, #[trigger] w2.visited[i]) by {
                let v = visited[i];
                assert(dir_covered(fs, w, v));
                assert forall|j: int| 0 <= j < fs.listings[v].len() implies entry_covered(
                    w2,
                    #[trigger] fs.listings[v][j],
                ) by {
                    let e = fs.listings[v][j];
                    assert(entry_covered(w, e));
                    if e.is_dir && !visited.contains(e.path) {
                        lemma_contains_after_drop(tasks, TaskView::Visit(e.path));
                    }
                    if is_baml_file(e) && !has_file(files, e.path) && e.path != f {
                        lemma_contains_after_drop(tasks, TaskView::Read(e.path));
                    }
                }
            }
        },
    }
}

/// The walk's first state satisfies the invariant.
proof fn lemma_start(fs: FsModel, root: Seq<char>)
    ensures
        inv(fs, root, start(root)),
{
    let w = start(root);
    let t: Seq<TaskView> = seq![TaskView::Visit(root)];
    assert(t[0] == TaskView::Visit(root));
    assert(!Seq::<Seq<char>>::empty().contains(root));
    assert(w.visited == seq![root]);
    assert(w.visited[0] == root);
    lemma_root_reachable(fs, root);
    assert(w.tasks =~= Seq::<TaskView>::empty());
}

/// A listing answered by the tree keeps the invariant.
proof fn lemma_listing(fs: FsModel, root: Seq<char>, w: WalkView, d: Seq<char>)
    requires
        inv(fs, root, w),
        w.phase == PhaseView::ListDir(d),
    ensures
        inv(fs, root, fs_step(fs, w)),
{
    if fs.listings.contains_key(d) {
        let es = fs.listings[d];
        let pre = entry_tasks(es);
        let tasks = pre + w.tasks;
        let w2 = settled(w.visited, tasks, w.files);
        lemma_dir_tasks(es);
        lemma_file_tasks(es);
        assert forall|i: int| 0 <= i < tasks.len() implies task_sound(fs, root, #[trigger] tasks[i]) by {
            let nd = dir_tasks(es).len();
            let nf = file_tasks(es).len();
            if i < nd {
                assert(tasks[i] == dir_tasks(es)[i]);
                assert(visit_of(es, dir_tasks(es)[i]));
                let j = choose|j: int|
                    #![trigger es[j]]
                    0 <= j < es.len() && es[j].is_dir && dir_tasks(es)[i] == TaskView::Visit(es[j].path);
                assert(lists_subdir(fs, d, es[j].path));
                lemma_reachable_step(fs, root, d, es[j].path);
            } else if i < nd + nf {
                assert(tasks[i] == file_tasks(es)[i - nd]);
                assert(read_of(es, file_tasks(es)[i - nd]));
                let j = choose|j: int|
                    #![trigger es[j]]
                    0 <= j < es.len() && is_baml_file(es[j]) && file_tasks(es)[i - nd]
                        == TaskView::Read(es[j].path);
                assert(lists_baml_file(fs, d, es[j].path));
            } else {
                assert(tasks[i] == w.tasks[i - nd - nf]);
            }
        }
        assert forall|i: int|
            0 <= i < w2.visited.len() && w2.phase != PhaseView::ListDir(
                w2.visited[i],
            ) implies dir_covered(fs, w2, #[trigger] w2.visited[i]) by {
            let v = w.visited[i];
            if v == d {
                assert forall|j: int| 0 <= j < fs.listings[v].len() implies entry_covered(
                    w2,
                    #[trigger] fs.listings[v][j],
                ) by {
                    let e = es[j];
                    if e.is_dir {
                        lemma_contains_prefix(dir_tasks(es), file_tasks(es), TaskView::Visit(e.path));
                        lemma_contains_prefix(pre, w.tasks, TaskView::Visit(e.path));
                    }
                    if is_baml_file(e) {
                        lemma_contains_suffix(dir_tasks(es), file_tasks(es), TaskView::Read(e.path));
                        lemma_contains_prefix(pre, w.tasks, TaskView::Read(e.path));
                    }
                }
            } else {
                assert(dir_covered(fs, w, v));
                assert forall|j: int| 0 <= j < fs.listings[v].len() implies entry_covered(
                    w2,
                    #[trigger] fs.listings[v][j],
                ) by {
                    let e = fs.listings[v][j];
                    assert(entry_covered(w, e));
                    if e.is_dir && !w.visited.contains(e.path) {
                        lemma_contains_suffix(pre, w.tasks, TaskView::Visit(e.path));
                    }
                    if is_baml_file(e) && !has_file(w.files, e.path) {
                        lemma_contains_suffix(pre, w.tasks, TaskView::Read(e.path));
                    }
                }
            }
        }
        lemma_advance(fs, root, w.visited, tasks, w.files);
    }
}

/// A file read answered by the tree keeps the invariant.
proof fn lemma_read(fs: FsModel, root: Seq<char>, w: WalkView, f: Seq<char>)
    requires
        inv(fs, root, w),
        w.phase == PhaseView::ReadFile(f),
    ensures
        inv(fs, root, fs_step(fs, w)),
{
    if fs.contents.contains_key(f) {
        let files = w.files.push((f, fs.contents[f]));
        let w2 = settled(w.visited, w.tasks, files);
        assert forall|k: int| 0 <= k < files.len() implies file_sound(fs, root, #[trigger] files[k]) by {
            if k < w.files.len() {
                assert(files[k] == w.files[k]);
            }
        }
        assert forall|i: int|
            0 <= i < w2.visited.len() && w2.phase != PhaseView::ListDir(
                w2.visited[i],
            ) implies dir_covered(fs, w2, #[trigger] w2.visited[i]) by {
            let v = w.visited[i];
            assert(dir_covered(fs, w, v));
            assert forall|j: int| 0 <= j < fs.listings[v].len() implies entry_covered(
                w2,
                #[trigger] fs.listings[v][j],
            ) by {
                let e = fs.listings[v][j];
                assert(entry_covered(w, e));
                if is_baml_file(e) {
                    if has_file(w.files, e.path) {
                        let k = choose|k: int| 0 <= k < w.files.len() && (#[trigger] w.files[k]).0 == e.path;
                        assert(files[k] == w.files[k]);
                    } else if e.path == f {
                        assert(files[w.files.len() as int].0 == f);
                    }
                }
            }
        }
        lemma_advance(fs, root, w.visited, w.tasks, files);
    }
}

proof fn lemma_fs_step(fs: FsModel, root: Seq<char>, w: WalkView)
    requires
        inv(fs, root, w),
    ensures
        inv(fs, root, fs_step(fs, w)),
{
    match w.phase {
        PhaseView::ListDir(d) => lemma_listing(fs, root, w, d),
        PhaseView::ReadFile(f) => lemma_read(fs, root, w, f),
        PhaseView::Done(_) => {},
    }
}

proof fn lemma_run(fs: FsModel, root: Seq<char>, w: WalkView, n: nat)
    requires
        inv(fs, root, w),
    ensures
        inv(fs, root, run(fs, w, n)),
    decreases n,
{
    if n > 0 {
        lemma_fs_step(fs, root, w);
        lemma_run(fs, root, fs_step(fs, w), (n - 1) as nat);
    }
}

/// Once a walk is done without error, every directory on a path from the
/// root was walked.
proof fn lemma_chain_visited(
    fs: FsModel,
    root: Seq<char>,
    w: WalkView,
    c: Seq<Seq<char>>,
    d: Seq<char>,
    k: int,
)
    requires
        inv(fs, root, w),
        w.phase == PhaseView::Done(None),
        is_path_from(fs, root, c, d),
        0 <= k < c.len(),
    ensures
        w.visited.contains(c[k]),
    decreases k,
{
    if k > 0 {
        lemma_chain_visited(fs, root, w, c, d, k - 1);
        let p = c[k - 1];
        let i = choose|i: int| 0 <= i < w.visited.len() && w.visited[i] == p;
        assert(dir_covered(fs, w, w.visited[i]));
        assert(link(fs, c, k - 1));
        let j = choose|j: int|
            #![trigger fs.listings[p][j]]
            0 <= j < fs.listings[p].len() && fs.listings[p][j].is_dir && fs.listings[p][j].path == c[k];
        assert(entry_covered(w, fs.listings[p][j]));
    }
}

/// The central promise of the walk: answered from one fixed directory tree,
/// a walk from `root` that ends without error has gathered exactly the
/// `.baml` files of `root` and of all directories below it, each with its
/// contents.  A walk that ends early has gathered only such files, and the
/// error names a directory below `root` that cannot be listed or a `.baml`
/// file below it that cannot be read.  At every point, no directory has been
/// asked for twice.
pub proof fn walk_gathers_reachable_baml_files(fs: FsModel, root: Seq<char>, n: nat)
    ensures
        ({
            let w = run(fs, start(root), n);
            &&& w.visited.no_duplicates()
            &&& w.phase == PhaseView::Done(None) ==> forall|f: Seq<char>, c: Seq<char>|
                w.files.contains((f, c)) <==> (reachable_baml(fs, root, f)
                    && fs.contents.contains_key(f) && fs.contents[f] == c)
            &&& forall|f: Seq<char>, c: Seq<char>|
                w.files.contains((f, c)) ==> reachable_baml(fs, root, f)
                    && fs.contents.contains_key(f) && fs.contents[f] == c
            &&& w.phase matches PhaseView::Done(Some(GatherErrorView::DirectoryUnreadable(d)))
                ==> reachable(fs, root, d) && !fs.listings.contains_key(d)
            &&& w.phase matches PhaseView::Done(Some(GatherErrorView::FileUnreadable(f, _)))
                ==> reachable_baml(fs, root, f) && !fs.contents.contains_key(f)
            &&& !(w.phase matches PhaseView::Done(Some(GatherErrorView::BadEntry(_))))
        }),
{
    lemma_start(fs, root);
    lemma_run(fs, root, start(root), n);
    let w = run(fs, start(root), n);
    assert forall|f: Seq<char>, c: Seq<char>| w.files.contains((f, c)) implies reachable_baml(
        fs,
        root,
        f,
    ) && fs.contents.contains_key(f) && fs.contents[f] == c by {
        let k = choose|k: int| 0 <= k < w.files.len() && w.files[k] == (f, c);
        assert(file_sound(fs, root, w.files[k]));
    }
    if w.phase == PhaseView::Done(None) {
        assert forall|f: Seq<char>, c: Seq<char>|
            reachable_baml(fs, root, f) && fs.contents.contains_key(f) && fs.contents[f]
                == c implies w.files.contains((f, c)) by {
            let dir = choose|dir: Seq<char>|
                reachable(fs, root, dir) && #[trigger] lists_baml_file(fs, dir, f);
            let ch = choose|ch: Seq<Seq<char>>| is_path_from(fs, root, ch, dir);
            lemma_chain_visited(fs, root, w, ch, dir, ch.len() - 1);
            let i = choose|i: int| 0 <= i < w.visited.len() && w.visited[i] == dir;
            assert(dir_covered(fs, w, w.visited[i]));
            let j = choose|j: int|
                #![trigger fs.listings[dir][j]]
                0 <= j < fs.listings[dir].len() && is_baml_file(fs.listings[dir][j])
                    && fs.listings[dir][j].path == f;
            assert(entry_covered(w, fs.listings[dir][j]));
            let k = choose|k: int| 0 <= k < w.files.len() && (#[trigger] w.files[k]).0 == f;
            assert(file_sound(fs, root, w.files[k]));
            assert(w.files[k] == (f, c));
        }
    }
}


// ---------------------------------------------------------------------------
// A walk over a finite tree finishes.

/// `w` has asked for the listing of `d` and has got past it.
spec fn listed(w: WalkView, d: Seq<char>) -> bool {
    w.visited.contains(d) && w.phase != PhaseView::ListDir(d)
}

/// How many of `dirs` the walk has not listed yet.
spec fn unlisted_count(w: WalkView, dirs: Seq<Seq<char>>) -> nat
    decreases dirs.len(),
{
    if dirs.len() == 0 {
        0
    } else {
        unlisted_count(w, dirs.drop_last()) + if listed(w, dirs.last()) {
            0nat
        } else {
            1nat
        }
    }
}

/// How many file reads are among `tasks`.
spec fn read_count(tasks: Seq<TaskView>) -> nat
    decreases tasks.len(),
{
    if tasks.len() == 0 {
        0
    } else {
        (if tasks[0] is Read {
            1nat
        } else {
            0nat
        }) + read_count(tasks.drop_first())
    }
}

/// The total length of the listings of `dirs`.
spec fn listing_total(fs: FsModel, dirs: Seq<Seq<char>>) -> nat
    decreases dirs.len(),
{
    if dirs.len() == 0 {
        0
    } else {
        listing_total(fs, dirs.drop_last()) + if fs.listings.contains_key(dirs.last()) {
            fs.listings[dirs.last()].len()
        } else {
            0nat
        }
    }
}

spec fn pending_reads(w: WalkView) -> nat {
    read_count(w.tasks) + if w.phase is ReadFile {
        1nat
    } else {
        0nat
    }
}

spec fn measure(fs: FsModel, dirs: Seq<Seq<char>>, w: WalkView) -> nat {
    unlisted_count(w, dirs) * (listing_total(fs, dirs) + 1) + pending_reads(w)
}

proof fn lemma_listing_total(fs: FsModel, dirs: Seq<Seq<char>>, d: Seq<char>)
    requires
        dirs.contains(d),
        fs.listings.contains_key(d),
    ensures
        fs.listings[d].len() <= listing_total(fs, dirs),
    decreases dirs.len(),
{
    if dirs.last() != d {
        let k = choose|k: int| 0 <= k < dirs.len() && dirs[k] == d;
        assert(dirs.drop_last()[k] == d);
        lemma_listing_total(fs, dirs.drop_last(), d);
    }
}

/// Listing more directories never raises the count of unlisted ones, and
/// listing one of `dirs` lowers it.
proof fn lemma_unlisted_count(w: WalkView, w2: WalkView, dirs: Seq<Seq<char>>, d: Seq<char>)
    requires
        forall|x: Seq<char>| listed(w, x) ==> listed(w2, x),
    ensures
        unlisted_count(w2, dirs) <= unlisted_count(w, dirs),
        dirs.contains(d) && listed(w2, d) && !listed(w, d) ==> unlisted_count(w2, dirs) < unlisted_count(
            w,
            dirs,
        ),
    decreases dirs.len(),
{
    if dirs.len() > 0 {
        lemma_unlisted_count(w, w2, dirs.drop_last(), d);
        if dirs.contains(d) && dirs.last() != d {
            let k = choose|k: int| 0 <= k < dirs.len() && dirs[k] == d;
            assert(dirs.drop_last()[k] == d);
        }
    }
}

proof fn lemma_read_count_concat(a: Seq<TaskView>, b: Seq<TaskView>)
    ensures
        read_count(a + b) == read_count(a) + read_count(b),
    decreases a.len(),
{
    if a.len() > 0 {
        assert((a + b)[0] == a[0]);
        assert((a + b).drop_first() =~= a.drop_first() + b);
        lemma_read_count_concat(a.drop_first(), b);
    } else {
        assert(a + b =~= b);
    }
}

proof fn lemma_read_count_entries(es: Seq<EntryView>)
    ensures
        read_count(dir_tasks(es)) == 0,
        read_count(file_tasks(es)) <= es.len(),
        read_count(entry_tasks(es)) <= es.len(),
    decreases es.len(),
{
    assert(read_count(Seq::<TaskView>::empty()) == 0);
    if es.len() > 0 {
        let p = es.drop_last();
        lemma_read_count_entries(p);
        lemma_read_count_concat(dir_tasks(p), seq![TaskView::Visit(es.last().path)]);
        lemma_read_count_concat(file_tasks(p), seq![TaskView::Read(es.last().path)]);
        assert(dir_tasks(p).push(TaskView::Visit(es.last().path)) =~= dir_tasks(p) + seq![
            TaskView::Visit(es.last().path),
        ]);
        assert(file_tasks(p).push(TaskView::Read(es.last().path)) =~= file_tasks(p) + seq![
            TaskView::Read(es.last().path),
        ]);
        assert(read_count(seq![TaskView::Visit(es.last().path)]) == 0) by {
            assert(seq![TaskView::Visit(es.last().path)].drop_first() =~= Seq::<TaskView>::empty());
            assert(read_count(Seq::<TaskView>::empty()) == 0);
        }
        assert(read_count(seq![TaskView::Read(es.last().path)]) == 1) by {
            assert(seq![TaskView::Read(es.last().path)].drop_first() =~= Seq::<TaskView>::empty());
            assert(read_count(Seq::<TaskView>::empty()) == 0);
        }
    }
    lemma_read_count_concat(dir_tasks(es), file_tasks(es));
}

/// Taking tasks off the front lists nothing anew and adds no reads.
proof fn lemma_advance_measure(
    visited: Seq<Seq<char>>,
    tasks: Seq<TaskView>,
    files: Seq<(Seq<char>, Seq<char>)>,
)
    ensures
        forall|x: Seq<char>| listed(settled(visited, tasks, files), x) ==> listed(
            advance(visited, tasks, files),
            x,
        ),
        pending_reads(advance(visited, tasks, files)) <= read_count(tasks),
    decreases tasks.len(),
{
    if tasks.len() > 0 {
        match tasks[0] {
            TaskView::Visit(d) => {
                if visited.contains(d) {
                    lemma_advance_measure(visited, tasks.drop_first(), files);
                } else {
                    let a = advance(visited, tasks, files);
                    assert forall|x: Seq<char>| listed(settled(visited, tasks, files), x) implies listed(
                        a,
                        x,
                    ) by {
                        let k = choose|k: int| 0 <= k < visited.len() && visited[k] == x;
                        assert(a.visited[k] == x);
                    }
                }
            },
            TaskView::Read(f) => {},
        }
    }
}

/// Each step of an unfinished walk lowers the measure.
proof fn lemma_step_measure(fs: FsModel, root: Seq<char>, dirs: Seq<Seq<char>>, w: WalkView)
    requires
        inv(fs, root, w),
        !(w.phase is Done),
        forall|d: Seq<char>| reachable(fs, root, d) ==> dirs.contains(d),
    ensures
        fs_step(fs, w).phase is Done || measure(fs, dirs, fs_step(fs, w)) < measure(fs, dirs, w),
{
    let c = listing_total(fs, dirs);
    let w2 = fs_step(fs, w);
    match w.phase {
        PhaseView::ListDir(d) => {
            if fs.listings.contains_key(d) {
                let es = fs.listings[d];
                let tasks = entry_tasks(es) + w.tasks;
                let st = settled(w.visited, tasks, w.files);
                assert forall|x: Seq<char>| listed(w, x) implies listed(st, x) by {}
                lemma_unlisted_count(w, st, dirs, d);
                assert(dirs.contains(d));
                lemma_advance_measure(w.visited, tasks, w.files);
                lemma_unlisted_count(st, w2, dirs, d);
                lemma_read_count_entries(es);
                lemma_read_count_concat(entry_tasks(es), w.tasks);
                lemma_listing_total(fs, dirs, d);
                let u = unlisted_count(w, dirs);
                let u2 = unlisted_count(w2, dirs);
                let r = pending_reads(w);
                let r2 = pending_reads(w2);
                assert(u2 + 1 <= u);
                assert(r2 <= r + c);
                assert(u2 * (c + 1) + r2 < u * (c + 1) + r) by (nonlinear_arith)
                    requires
                        u2 + 1 <= u,
                        r2 <= r + c,
                ;
            }
        },
        PhaseView::ReadFile(f) => {
            if fs.contents.contains_key(f) {
                let files = w.files.push((f, fs.contents[f]));
                let st = settled(w.visited, w.tasks, files);
                assert forall|x: Seq<char>| listed(w, x) implies listed(st, x) by {}
                lemma_unlisted_count(w, st, dirs, f);
                lemma_advance_measure(w.visited, w.tasks, files);
                lemma_unlisted_count(st, w2, dirs, f);
                let u = unlisted_count(w, dirs);
                let u2 = unlisted_count(w2, dirs);
                assert(u2 * (c + 1) <= u * (c + 1)) by (nonlinear_arith)
                    requires
                        u2 <= u,
                ;
            }
        },
        PhaseView::Done(_) => {},
    }
}

proof fn lemma_finishes(fs: FsModel, root: Seq<char>, dirs: Seq<Seq<char>>, w: WalkView) -> (n: nat)
    requires
        inv(fs, root, w),
        forall|d: Seq<char>| reachable(fs, root, d) ==> dirs.contains(d),
    ensures
        run(fs, w, n).phase is Done,
    decreases measure(fs, dirs, w),
{
    if w.phase is Done {
        0
    } else {
        lemma_fs_step(fs, root, w);
        lemma_step_measure(fs, root, dirs, w);
        let w2 = fs_step(fs, w);
        if w2.phase is Done {
            assert(run(fs, w2, 0) == w2);
            1
        } else {
            let m = lemma_finishes(fs, root, dirs, w2);
            assert(run(fs, w, m + 1) == run(fs, w2, m));
            m + 1
        }
    }
}

/// A walk over a tree whose directories below `root` are finitely many (all
/// of them in the list `dirs`) is done after some number of steps.
pub proof fn walk_finishes(fs: FsModel, root: Seq<char>, dirs: Seq<Seq<char>>)
    requires
        forall|d: Seq<char>| reachable(fs, root, d) ==> dirs.contains(d),
    ensures
        exists|n: nat| (#[trigger] run(fs, start(root), n)).phase is Done,
{
    lemma_start(fs, root);
    let n = lemma_finishes(fs, root, dirs, start(root));
    assert(run(fs, start(root), n).phase is Done);
}


// ---------------------------------------------------------------------------
// Each file is gathered once.

/// No two entries of the tree, in one listing or in two, name the same path.
pub open spec fn paths_unique(fs: FsModel) -> bool {
    forall|d1: Seq<char>, d2: Seq<char>, i: int, j: int|
        #![trigger fs.listings[d1][i], fs.listings[d2][j]]
        fs.listings.contains_key(d1) && fs.listings.contains_key(d2) && 0 <= i < fs.listings[d1].len()
            && 0 <= j < fs.listings[d2].len() && fs.listings[d1][i].path == fs.listings[d2][j].path
            ==> d1 == d2 && i == j
}

/// The paths of gathered files, in order.
pub open spec fn file_paths(files: Seq<(Seq<char>, Seq<char>)>) -> Seq<Seq<char>> {
    files.map_values(|p: (Seq<char>, Seq<char>)| p.0)
}

/// The paths of the files that `tasks` will read, in order.
spec fn read_paths(tasks: Seq<TaskView>) -> Seq<Seq<char>>
    decreases tasks.len(),
{
    if tasks.len() == 0 {
        Seq::empty()
    } else {
        (match tasks[0] {
            TaskView::Read(f) => seq![f],
            TaskView::Visit(_) => Seq::empty(),
        }) + read_paths(tasks.drop_first())
    }
}

spec fn pending_read(w: WalkView) -> Seq<Seq<char>> {
    match w.phase {
        PhaseView::ReadFile(f) => seq![f],
        _ => Seq::empty(),
    }
}

/// The files gathered, being read, and to be read, in order.
spec fn file_order(w: WalkView) -> Seq<Seq<char>> {
    file_paths(w.files) + pending_read(w) + read_paths(w.tasks)
}

spec fn from_listed(fs: FsModel, w: WalkView, p: Seq<char>) -> bool {
    exists|v: Seq<char>| listed(w, v) && #[trigger] lists_baml_file(fs, v, p)
}

spec fn uniq(fs: FsModel, w: WalkView) -> bool {
    &&& file_paths(w.files).no_duplicates()
    &&& !failed(w) ==> file_order(w).no_duplicates()
    &&& !failed(w) ==> forall|k: int|
        0 <= k < file_order(w).len() ==> from_listed(fs, w, #[trigger] file_order(w)[k])
}

proof fn lemma_read_paths_concat(a: Seq<TaskView>, b: Seq<TaskView>)
    ensures
        read_paths(a + b) == read_paths(a) + read_paths(b),
    decreases a.len(),
{
    if a.len() > 0 {
        assert((a + b)[0] == a[0]);
        assert((a + b).drop_first() =~= a.drop_first() + b);
        lemma_read_paths_concat(a.drop_first(), b);
        let h: Seq<Seq<char>> = match a[0] {
            TaskView::Read(f) => seq![f],
            TaskView::Visit(_) => Seq::empty(),
        };
        assert(h + (read_paths(a.drop_first()) + read_paths(b)) =~= (h + read_paths(a.drop_first()))
            + read_paths(b));
    } else {
        assert(a + b =~= b);
        assert(read_paths(a) =~= Seq::<Seq<char>>::empty());
        assert(read_paths(a) + read_paths(b) =~= read_paths(b));
    }
}

proof fn lemma_read_paths_one(t: TaskView)
    ensures
        read_paths(seq![t]) == (match t {
            TaskView::Read(f) => seq![f],
            TaskView::Visit(_) => Seq::<Seq<char>>::empty(),
        }),
{
    let s = seq![t];
    assert(s.drop_first() =~= Seq::<TaskView>::empty());
    assert(read_paths(Seq::<TaskView>::empty()) =~= Seq::<Seq<char>>::empty());
    assert(read_paths(s) =~= (match t {
        TaskView::Read(f) => seq![f],
        TaskView::Visit(_) => Seq::<Seq<char>>::empty(),
    }));
}

/// The path of a `.baml` file entry of `es`.
spec fn baml_path_in(es: Seq<EntryView>, p: Seq<char>) -> bool {
    exists|j: int| #![trigger es[j]] 0 <= j < es.len() && is_baml_file(es[j]) && es[j].path == p
}

/// The reads a listing adds are of its own `.baml` files, each once where
/// the listing names no path twice; its subdirectories add no reads.
proof fn lemma_listing_reads(es: Seq<EntryView>)
    requires
        forall|i: int, j: int|
            0 <= i < es.len() && 0 <= j < es.len() && i != j ==> (#[trigger] es[i]).path != (
            #[trigger] es[j]).path,
    ensures
        read_paths(dir_tasks(es)) == Seq::<Seq<char>>::empty(),
        read_paths(file_tasks(es)).no_duplicates(),
        forall|k: int|
            0 <= k < read_paths(file_tasks(es)).len() ==> baml_path_in(
                es,
                #[trigger] read_paths(file_tasks(es))[k],
            ),
        read_paths(entry_tasks(es)) == read_paths(file_tasks(es)),
    decreases es.len(),
{
    assert(read_paths(Seq::<TaskView>::empty()) =~= Seq::<Seq<char>>::empty());
    if es.len() > 0 {
        let p = es.drop_last();
        lemma_listing_reads(p);
        let x = es.last();
        lemma_read_paths_concat(dir_tasks(p), seq![TaskView::Visit(x.path)]);
        lemma_read_paths_concat(file_tasks(p), seq![TaskView::Read(x.path)]);
        lemma_read_paths_one(TaskView::Visit(x.path));
        lemma_read_paths_one(TaskView::Read(x.path));
        assert(dir_tasks(p).push(TaskView::Visit(x.path)) =~= dir_tasks(p) + seq![
            TaskView::Visit(x.path),
        ]);
        assert(file_tasks(p).push(TaskView::Read(x.path)) =~= file_tasks(p) + seq![
            TaskView::Read(x.path),
        ]);
        assert(read_paths(dir_tasks(p)) + Seq::<Seq<char>>::empty() =~= read_paths(dir_tasks(p)));
        let rp = read_paths(file_tasks(p));
        assert forall|k: int| 0 <= k < rp.len() implies baml_path_in(es, #[trigger] rp[k]) by {
            assert(baml_path_in(p, rp[k]));
            let j = choose|j: int| #![trigger p[j]] 0 <= j < p.len() && is_baml_file(p[j]) && p[j].path == rp[k];
            assert(es[j] == p[j]);
        }
        if is_baml_file(x) {
            let rq = rp + seq![x.path];
            assert forall|k: int| 0 <= k < rp.len() implies rp[k] != x.path by {
                assert(baml_path_in(p, rp[k]));
                let j = choose|j: int| #![trigger p[j]] 0 <= j < p.len() && is_baml_file(p[j]) && p[j].path == rp[k];
                assert(es[j] == p[j]);
                assert(es[es.len() - 1] == x);
            }
            assert forall|k: int| 0 <= k < rq.len() implies baml_path_in(es, #[trigger] rq[k]) by {
                if k < rp.len() {
                    assert(rq[k] == rp[k]);
                } else {
                    assert(es[es.len() - 1] == x);
                }
            }
            assert(rq.no_duplicates()) by {
                assert forall|a: int, b: int| 0 <= a < rq.len() && 0 <= b < rq.len() && a != b implies rq[a] != rq[b] by {
                    if a < rp.len() && b < rp.len() {
                        assert(rq[a] == rp[a] && rq[b] == rp[b]);
                    } else if a < rp.len() {
                        assert(rq[a] == rp[a]);
                    } else {
                        assert(rq[b] == rp[b]);
                    }
                }
            }
        } else {
            assert(rp + Seq::<Seq<char>>::empty() =~= rp);
        }
    }
    lemma_read_paths_concat(dir_tasks(es), file_tasks(es));
    assert(Seq::<Seq<char>>::empty() + read_paths(file_tasks(es)) =~= read_paths(file_tasks(es)));
}

proof fn lemma_no_dup_prefix(a: Seq<Seq<char>>, b: Seq<Seq<char>>)
    requires
        (a + b).no_duplicates(),
    ensures
        a.no_duplicates(),
{
    assert forall|i: int, j: int| 0 <= i < a.len() && 0 <= j < a.len() && i != j implies a[i] != a[j] by {
        assert((a + b)[i] == a[i] && (a + b)[j] == a[j]);
    }
}

/// Putting `n` between `x` and `r` keeps the paths distinct, where `n` holds
/// none of theirs.
proof fn lemma_no_dup_insert(x: Seq<Seq<char>>, n: Seq<Seq<char>>, r: Seq<Seq<char>>)
    requires
        (x + r).no_duplicates(),
        n.no_duplicates(),
        forall|i: int, k: int| 0 <= i < n.len() && 0 <= k < (x + r).len() ==> n[i] != (x + r)[k],
    ensures
        (x + (n + r)).no_duplicates(),
{
    let s = x + (n + r);
    let t = x + r;
    assert forall|a: int, b: int| 0 <= a < s.len() && 0 <= b < s.len() && a != b implies s[a] != s[b] by {
        if a < x.len() {
            assert(s[a] == t[a]);
        } else if a < x.len() + n.len() {
            assert(s[a] == n[a - x.len()]);
        } else {
            assert(s[a] == t[a - n.len()]);
        }
        if b < x.len() {
            assert(s[b] == t[b]);
        } else if b < x.len() + n.len() {
            assert(s[b] == n[b - x.len()]);
        } else {
            assert(s[b] == t[b - n.len()]);
        }
    }
}

/// Taking tasks off the front keeps the order of the files and where they
/// come from.
proof fn lemma_advance_uniq(
    fs: FsModel,
    visited: Seq<Seq<char>>,
    tasks: Seq<TaskView>,
    files: Seq<(Seq<char>, Seq<char>)>,
)
    requires
        uniq(fs, settled(visited, tasks, files)),
    ensures
        uniq(fs, advance(visited, tasks, files)),
        file_order(advance(visited, tasks, files)) == file_order(settled(visited, tasks, files)),
    decreases tasks.len(),
{
    let st = settled(visited, tasks, files);
    if tasks.len() == 0 {
        return;
    }
    let rest = tasks.drop_first();
    let a = advance(visited, tasks, files);
    match tasks[0] {
        TaskView::Visit(d) => {
            assert(read_paths(tasks) =~= read_paths(rest));
            if visited.contains(d) {
                let st2 = settled(visited, rest, files);
                assert(file_order(st2) == file_order(st));
                assert forall|k: int| 0 <= k < file_order(st2).len() implies from_listed(
                    fs,
                    st2,
                    #[trigger] file_order(st2)[k],
                ) by {
                    assert(from_listed(fs, st, file_order(st)[k]));
                    let v = choose|v: Seq<char>| listed(st, v) && #[trigger] lists_baml_file(fs, v, file_order(st)[k]);
                    assert(listed(st2, v));
                }
                lemma_advance_uniq(fs, visited, rest, files);
            } else {
                assert(file_order(a) == file_order(st));
                assert forall|k: int| 0 <= k < file_order(a).len() implies from_listed(
                    fs,
                    a,
                    #[trigger] file_order(a)[k],
                ) by {
                    assert(from_listed(fs, st, file_order(st)[k]));
                    let v = choose|v: Seq<char>| listed(st, v) && #[trigger] lists_baml_file(fs, v, file_order(st)[k]);
                    let i = choose|i: int| 0 <= i < visited.len() && visited[i] == v;
                    assert(a.visited[i] == v);
                    assert(listed(a, v));
                }
            }
        },
        TaskView::Read(f) => {
            assert(read_paths(tasks) =~= seq![f] + read_paths(rest));
            assert(file_order(a) =~= file_order(st));
            assert forall|k: int| 0 <= k < file_order(a).len() implies from_listed(
                fs,
                a,
                #[trigger] file_order(a)[k],
            ) by {
                assert(from_listed(fs, st, file_order(st)[k]));
                let v = choose|v: Seq<char>| listed(st, v) && #[trigger] lists_baml_file(fs, v, file_order(st)[k]);
                assert(listed(a, v));
            }
        },
    }
}

proof fn lemma_start_uniq(fs: FsModel, root: Seq<char>)
    ensures
        uniq(fs, start(root)),
{
    let w = start(root);
    lemma_start(fs, root);
    assert(w.tasks =~= Seq::<TaskView>::empty());
    assert(read_paths(w.tasks) =~= Seq::<Seq<char>>::empty());
    assert(file_paths(w.files) =~= Seq::<Seq<char>>::empty());
    assert(file_order(w) =~= Seq::<Seq<char>>::empty());
}

proof fn lemma_step_uniq(fs: FsModel, root: Seq<char>, w: WalkView)
    requires
        paths_unique(fs),
        inv(fs, root, w),
        uniq(fs, w),
    ensures
        uniq(fs, fs_step(fs, w)),
{
    let w2 = fs_step(fs, w);
    match w.phase {
        PhaseView::ListDir(d) => {
            if fs.listings.contains_key(d) {
                let es = fs.listings[d];
                let pre = entry_tasks(es);
                let tasks = pre + w.tasks;
                let st = settled(w.visited, tasks, w.files);
                assert forall|i: int, j: int|
                    0 <= i < es.len() && 0 <= j < es.len() && i != j implies (#[trigger] es[i]).path
                    != (#[trigger] es[j]).path by {
                    assert(fs.listings[d][i] == es[i] && fs.listings[d][j] == es[j]);
                }
                lemma_listing_reads(es);
                lemma_read_paths_concat(pre, w.tasks);
                let fp = file_paths(w.files);
                let nn = read_paths(file_tasks(es));
                let rr = read_paths(w.tasks);
                assert(file_order(w) =~= fp + rr);
                assert(file_order(st) =~= fp + (nn + rr));
                assert forall|i: int, k: int|
                    0 <= i < nn.len() && 0 <= k < (fp + rr).len() implies nn[i] != (fp + rr)[k] by {
                    assert(baml_path_in(es, nn[i]));
                    assert(from_listed(fs, w, file_order(w)[k]));
                    let v = choose|v: Seq<char>|
                        listed(w, v) && #[trigger] lists_baml_file(fs, v, file_order(w)[k]);
                    let j1 = choose|j: int| #![trigger es[j]] 0 <= j < es.len() && is_baml_file(es[j]) && es[j].path == nn[i];
                    let j2 = choose|j: int|
                        #![trigger fs.listings[v][j]]
                        0 <= j < fs.listings[v].len() && is_baml_file(fs.listings[v][j])
                            && fs.listings[v][j].path == file_order(w)[k];
                    if nn[i] == (fp + rr)[k] {
                        assert(fs.listings[d][j1] == es[j1]);
                        assert(d == v);
                    }
                }
                lemma_no_dup_insert(fp, nn, rr);
                assert forall|k: int| 0 <= k < file_order(st).len() implies from_listed(
                    fs,
                    st,
                    #[trigger] file_order(st)[k],
                ) by {
                    let p = file_order(st)[k];
                    if fp.len() <= k < fp.len() + nn.len() {
                        assert(p == nn[k - fp.len()]);
                        assert(baml_path_in(es, p));
                        let j = choose|j: int| #![trigger es[j]] 0 <= j < es.len() && is_baml_file(es[j]) && es[j].path == p;
                        assert(fs.listings[d][j] == es[j]);
                        assert(lists_baml_file(fs, d, p));
                        assert(listed(st, d));
                    } else {
                        let k0 = if k < fp.len() { k } else { k - nn.len() };
                        assert(p == file_order(w)[k0]);
                        assert(from_listed(fs, w, file_order(w)[k0]));
                        let v = choose|v: Seq<char>|
                            listed(w, v) && #[trigger] lists_baml_file(fs, v, file_order(w)[k0]);
                        assert(listed(st, v));
                    }
                }
                lemma_no_dup_prefix(fp, nn + rr);
                lemma_advance_uniq(fs, w.visited, tasks, w.files);
            }
        },
        PhaseView::ReadFile(f) => {
            if fs.contents.contains_key(f) {
                let files = w.files.push((f, fs.contents[f]));
                let st = settled(w.visited, w.tasks, files);
                assert(file_paths(files) =~= file_paths(w.files) + seq![f]);
                assert(file_order(st) =~= file_order(w));
                assert forall|k: int| 0 <= k < file_order(st).len() implies from_listed(
                    fs,
                    st,
                    #[trigger] file_order(st)[k],
                ) by {
                    assert(from_listed(fs, w, file_order(w)[k]));
                    let v = choose|v: Seq<char>| listed(w, v) && #[trigger] lists_baml_file(fs, v, file_order(w)[k]);
                    assert(listed(st, v));
                }
                lemma_no_dup_prefix(file_paths(files), read_paths(w.tasks));
                lemma_advance_uniq(fs, w.visited, w.tasks, files);
            }
        },
        PhaseView::Done(_) => {},
    }
}

proof fn lemma_run_uniq(fs: FsModel, root: Seq<char>, w: WalkView, n: nat)
    requires
        paths_unique(fs),
        inv(fs, root, w),
        uniq(fs, w),
    ensures
        uniq(fs, run(fs, w, n)),
    decreases n,
{
    if n > 0 {
        lemma_step_uniq(fs, root, w);
        lemma_fs_step(fs, root, w);
        lemma_run_uniq(fs, root, fs_step(fs, w), (n - 1) as nat);
    }
}

/// Where no path is named by two entries of the tree, no path is gathered
/// twice; so a walk that ends without error holds exactly one pair for each
/// `.baml` file of `root` and of the directories below it.
pub proof fn walk_gathers_each_file_once(fs: FsModel, root: Seq<char>, n: nat)
    requires
        paths_unique(fs),
    ensures
        ({
            let w = run(fs, start(root), n);
            &&& file_paths(w.files).no_duplicates()
            &&& w.phase == PhaseView::Done(None) ==> forall|f: Seq<char>|
                reachable_baml(fs, root, f) && fs.contents.contains_key(f) ==> exists|k: int|
                    0 <= k < w.files.len() && w.files[k] == (f, fs.contents[f]) && forall|k2: int|
                        0 <= k2 < w.files.len() && (#[trigger] w.files[k2]).0 == f ==> k2 == k
        }),
{
    lemma_start(fs, root);
    lemma_start_uniq(fs, root);
    lemma_run_uniq(fs, root, start(root), n);
    walk_gathers_reachable_baml_files(fs, root, n);
    let w = run(fs, start(root), n);
    if w.phase == PhaseView::Done(None) {
        assert forall|f: Seq<char>|
            reachable_baml(fs, root, f) && fs.contents.contains_key(f) implies exists|k: int|
            0 <= k < w.files.len() && w.files[k] == (f, fs.contents[f]) && forall|k2: int|
                0 <= k2 < w.files.len() && (#[trigger] w.files[k2]).0 == f ==> k2 == k by {
            assert(w.files.contains((f, fs.contents[f])));
            let k = choose|k: int| 0 <= k < w.files.len() && w.files[k] == (f, fs.contents[f]);
            assert forall|k2: int| 0 <= k2 < w.files.len() && (#[trigger] w.files[k2]).0 == f implies k2
                == k by {
                assert(file_paths(w.files)[k2] == f && file_paths(w.files)[k] == f);
            }
        }
    }
}


// ---------------------------------------------------------------------------
// A directory met again is skipped.

/// A directory that the walk has already asked for is skipped when it is
/// met again: the walk goes on exactly as if that task were not there, with
/// the same visited directories and the same gathered files, and asks for
/// nothing on its account.
pub proof fn walked_directory_is_skipped(
    visited: Seq<Seq<char>>,
    d: Seq<char>,
    tasks: Seq<TaskView>,
    files: Seq<(Seq<char>, Seq<char>)>,
)
    requires
        visited.contains(d),
    ensures
        advance(visited, seq![TaskView::Visit(d)] + tasks, files) == advance(visited, tasks, files),
{
    let t = seq![TaskView::Visit(d)] + tasks;
    assert(t[0] == TaskView::Visit(d));
    assert(t.drop_first() =~= tasks);
}


// ---------------------------------------------------------------------------
// Which entries are read, and which are walked.

/// A file entry is read exactly when it is not a directory and its name ends
/// with `.baml`; every subdirectory, whatever its name, is walked; and a
/// listing adds nothing else.
pub proof fn listing_reads_exactly_baml_named_files(es: Seq<EntryView>)
    ensures
        forall|j: int|
            0 <= j < es.len() && !es[j].is_dir && ends_with(es[j].file_name, ".baml"@) ==> #[trigger] entry_tasks(
                es,
            ).contains(TaskView::Read(es[j].path)),
        forall|j: int|
            0 <= j < es.len() && es[j].is_dir ==> #[trigger] entry_tasks(es).contains(
                TaskView::Visit(es[j].path),
            ),
        forall|k: int|
            0 <= k < entry_tasks(es).len() && (#[trigger] entry_tasks(es)[k]) is Read ==> exists|j: int|
                0 <= j < es.len() && !es[j].is_dir && ends_with(es[j].file_name, ".baml"@)
                    && entry_tasks(es)[k] == TaskView::Read(es[j].path),
        forall|k: int|
            0 <= k < entry_tasks(es).len() && (#[trigger] entry_tasks(es)[k]) is Visit ==> exists|j: int|
                0 <= j < es.len() && es[j].is_dir && entry_tasks(es)[k] == TaskView::Visit(es[j].path),
{
    lemma_dir_tasks(es);
    lemma_file_tasks(es);
    let d = dir_tasks(es);
    let f = file_tasks(es);
    let t = entry_tasks(es);
    assert forall|j: int|
        0 <= j < es.len() && !es[j].is_dir && ends_with(es[j].file_name, ".baml"@) implies #[trigger] t.contains(
        TaskView::Read(es[j].path),
    ) by {
        assert(is_baml_file(es[j]));
        lemma_contains_suffix(d, f, TaskView::Read(es[j].path));
    }
    assert forall|j: int| 0 <= j < es.len() && es[j].is_dir implies #[trigger] t.contains(
        TaskView::Visit(es[j].path),
    ) by {
        lemma_contains_prefix(d, f, TaskView::Visit(es[j].path));
    }
    assert forall|k: int| 0 <= k < t.len() && (#[trigger] t[k]) is Read implies exists|j: int|
        0 <= j < es.len() && !es[j].is_dir && ends_with(es[j].file_name, ".baml"@) && t[k]
            == TaskView::Read(es[j].path) by {
        if k < d.len() {
            assert(t[k] == d[k]);
            assert(visit_of(es, d[k]));
        } else {
            assert(t[k] == f[k - d.len()]);
            assert(read_of(es, f[k - d.len()]));
            let j = choose|j: int|
                #![trigger es[j]]
                0 <= j < es.len() && is_baml_file(es[j]) && f[k - d.len()] == TaskView::Read(es[j].path);
            assert(!es[j].is_dir && ends_with(es[j].file_name, ".baml"@));
        }
    }
    assert forall|k: int| 0 <= k < t.len() && (#[trigger] t[k]) is Visit implies exists|j: int|
        0 <= j < es.len() && es[j].is_dir && t[k] == TaskView::Visit(es[j].path) by {
        if k < d.len() {
            assert(t[k] == d[k]);
            assert(visit_of(es, d[k]));
            let j = choose|j: int|
                #![trigger es[j]]
                0 <= j < es.len() && es[j].is_dir && d[k] == TaskView::Visit(es[j].path);
            assert(es[j].is_dir);
        } else {
            assert(t[k] == f[k - d.len()]);
            assert(read_of(es, f[k - d.len()]));
        }
    }
}

/// The walk's promise in terms of file names: answered from one fixed tree,
/// a walk from `root` that ends without error has gathered `(f, c)` exactly
/// when `f` is a non-directory entry whose name ends with `.baml`, listed in
/// `root` or in a directory below it, and `c` is its contents.
pub proof fn walk_gathers_files_named_baml(fs: FsModel, root: Seq<char>, n: nat)
    ensures
        ({
            let w = run(fs, start(root), n);
            w.phase == PhaseView::Done(None) ==> forall|f: Seq<char>, c: Seq<char>|
                #[trigger] w.files.contains((f, c)) <==> ((exists|dir: Seq<char>, j: int|
                    reachable(fs, root, dir) && fs.listings.contains_key(dir) && 0 <= j
                        < fs.listings[dir].len() && !(#[trigger] fs.listings[dir][j]).is_dir
                        && ends_with(fs.listings[dir][j].file_name, ".baml"@)
                        && fs.listings[dir][j].path == f) && fs.contents.contains_key(f)
                    && fs.contents[f] == c)
        }),
{
    walk_gathers_reachable_baml_files(fs, root, n);
    let w = run(fs, start(root), n);
    if w.phase == PhaseView::Done(None) {
        assert forall|f: Seq<char>, c: Seq<char>|
            #[trigger] w.files.contains((f, c)) <==> ((exists|dir: Seq<char>, j: int|
                reachable(fs, root, dir) && fs.listings.contains_key(dir) && 0 <= j
                    < fs.listings[dir].len() && !(#[trigger] fs.listings[dir][j]).is_dir
                    && ends_with(fs.listings[dir][j].file_name, ".baml"@)
                    && fs.listings[dir][j].path == f) && fs.contents.contains_key(f)
                && fs.contents[f] == c) by {
            if reachable_baml(fs, root, f) {
                let dir = choose|dir: Seq<char>|
                    reachable(fs, root, dir) && #[trigger] lists_baml_file(fs, dir, f);
                let j = choose|j: int|
                    #![trigger fs.listings[dir][j]]
                    0 <= j < fs.listings[dir].len() && is_baml_file(fs.listings[dir][j])
                        && fs.listings[dir][j].path == f;
                assert(!fs.listings[dir][j].is_dir && ends_with(
                    fs.listings[dir][j].file_name,
                    ".baml"@,
                ));
            }
            if exists|dir: Seq<char>, j: int|
                reachable(fs, root, dir) && fs.listings.contains_key(dir) && 0 <= j
                    < fs.listings[dir].len() && !(#[trigger] fs.listings[dir][j]).is_dir
                    && ends_with(fs.listings[dir][j].file_name, ".baml"@)
                    && fs.listings[dir][j].path == f {
                let (dir, j) = choose|dir: Seq<char>, j: int|
                    reachable(fs, root, dir) && fs.listings.contains_key(dir) && 0 <= j
                        < fs.listings[dir].len() && !(#[trigger] fs.listings[dir][j]).is_dir
                        && ends_with(fs.listings[dir][j].file_name, ".baml"@)
                        && fs.listings[dir][j].path == f;
                assert(is_baml_file(fs.listings[dir][j]));
                assert(lists_baml_file(fs, dir, f));
            }
        }
    }
}

} // verus!
