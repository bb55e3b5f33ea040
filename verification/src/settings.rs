//! The client's settings for each workspace, keyed by workspace URL.

use vstd::prelude::*;

verus! {

/// Settings by workspace URL; each URL has at most one entry.
pub struct WorkspaceSettings<S> {
    entries: Vec<(String, S)>,
}

/// The index of the entry for `url` in a list whose URLs are distinct.
pub open spec fn index_of<S>(entries: Seq<(String, S)>, url: Seq<char>) -> int {
    choose|i: int| #![trigger entries[i]] 0 <= i < entries.len() && entries[i].0@ == url
}

/// No URL occurs twice.
pub open spec fn distinct_urls<S>(entries: Seq<(String, S)>) -> bool {
    forall|i: int, j: int|
        0 <= i < entries.len() && 0 <= j < entries.len() && i != j ==> entries[i].0@ != entries[j].0@
}

/// The entries as a map from URL to settings.
pub open spec fn entries_map<S>(entries: Seq<(String, S)>) -> Map<Seq<char>, S> {
    Map::new(
        |url: Seq<char>| exists|i: int| #![trigger entries[i]] 0 <= i < entries.len() && entries[i].0@ == url,
        |url: Seq<char>| entries[index_of(entries, url)].1,
    )
}

impl<S> View for WorkspaceSettings<S> {
    type V = Map<Seq<char>, S>;

    closed spec fn view(&self) -> Map<Seq<char>, S> {
        entries_map(self.entries@)
    }
}

proof fn lemma_index_of<S>(entries: Seq<(String, S)>, i: int)
    requires
        distinct_urls(entries),
        0 <= i < entries.len(),
    ensures
        index_of(entries, entries[i].0@) == i,
        entries_map(entries).dom().contains(entries[i].0@),
        entries_map(entries)[entries[i].0@] == entries[i].1,
{
    let url = entries[i].0@;
    assert(0 <= i < entries.len() && entries[i].0@ == url);
    assert(exists|j: int| #![trigger entries[j]] 0 <= j < entries.len() && entries[j].0@ == url);
}

fn find<S>(entries: &Vec<(String, S)>, url: &String) -> (r: Option<usize>)
    ensures
        match r {
            Some(i) => i < entries@.len() && entries@[i as int].0@ == url@,
            None => forall|j: int| 0 <= j < entries@.len() ==> entries@[j].0@ != url@,
        },
{
    let n = entries.len();
    let mut i: usize = 0;
    while i < n
        invariant
            n == entries@.len(),
            i <= n,
            forall|j: int| 0 <= j < i ==> entries@[j].0@ != url@,
        decreases n - i,
    {
        if entries[i].0 == *url {
            return Some(i);
        }
        i = i + 1;
    }
    None
}

impl<S> WorkspaceSettings<S> {
    #[verifier::type_invariant]
    spec fn urls_are_distinct(self) -> bool {
        distinct_urls(self.entries@)
    }

    /// No settings.
    pub fn new() -> (r: WorkspaceSettings<S>)
        ensures
            r@ == Map::<Seq<char>, S>::empty(),
    {
        let r = WorkspaceSettings { entries: Vec::new() };
        assert(r@ =~= Map::<Seq<char>, S>::empty());
        r
    }

    /// Sets the settings for `url`, replacing those it had.
    pub fn insert(&mut self, url: String, settings: S)
        ensures
            final(self)@ == old(self)@.insert(url@, settings),
    {
        proof {
            use_type_invariant(&*self);
        }
        let ghost before = self.entries@;
        let mut entries: Vec<(String, S)> = Vec::new();
        std::mem::swap(&mut entries, &mut self.entries);
        assert(entries@ == before);
        let ghost k = url@;
        match find(&entries, &url) {
            Some(i) => {
                let _ = entries.remove(i);
                let ghost mid = entries@;
                entries.insert(i, (url, settings));
                let ghost after = entries@;
                assert(after =~= before.update(i as int, after[i as int]));
                assert(distinct_urls(after)) by {
                    assert forall|a: int, b: int|
                        0 <= a < after.len() && 0 <= b < after.len() && a != b implies after[a].0@
                        != after[b].0@ by {
                        if a != i && b != i {
                            assert(after[a] == before[a] && after[b] == before[b]);
                        } else if a == i {
                            assert(after[b] == before[b]);
                            assert(before[i as int].0@ == k);
                        } else {
                            assert(after[a] == before[a]);
                            assert(before[i as int].0@ == k);
                        }
                    }
                }
                assert(entries_map(after) =~= entries_map(before).insert(k, settings)) by {
                    assert forall|u: Seq<char>| #[trigger]
                        entries_map(after).dom().contains(u) <==> entries_map(before).insert(
                            k,
                            settings,
                        ).dom().contains(u) by {
                        if entries_map(after).dom().contains(u) {
                            let j = choose|j: int| 0 <= j < after.len() && after[j].0@ == u;
                            if j != i {
                                assert(before[j] == after[j]);
                                lemma_index_of(before, j);
                            }
                        }
                        if entries_map(before).dom().contains(u) {
                            let j = choose|j: int| 0 <= j < before.len() && before[j].0@ == u;
                            if j != i {
                                assert(before[j] == after[j]);
                            } else {
                                assert(after[i as int].0@ == k);
                            }
                            lemma_index_of(after, j);
                        }
                        if u == k {
                            lemma_index_of(after, i as int);
                        }
                    }
                    assert forall|u: Seq<char>| #[trigger]
                        entries_map(after).dom().contains(u) implies entries_map(after)[u]
                        == entries_map(before).insert(k, settings)[u] by {
                        let j = choose|j: int| 0 <= j < after.len() && after[j].0@ == u;
                        lemma_index_of(after, j);
                        if j != i {
                            assert(before[j] == after[j]);
                            lemma_index_of(before, j);
                        }
                    }
                }
            },
            None => {
                entries.push((url, settings));
                let ghost after = entries@;
                assert(distinct_urls(after)) by {
                    assert forall|a: int, b: int|
                        0 <= a < after.len() && 0 <= b < after.len() && a != b implies after[a].0@
                        != after[b].0@ by {
                        if a < before.len() && b < before.len() {
                            assert(after[a] == before[a] && after[b] == before[b]);
                        } else if a < before.len() {
                            assert(after[a] == before[a]);
                        } else {
                            assert(after[b] == before[b]);
                        }
                    }
                }
                let ghost last = before.len() as int;
                assert(entries_map(after) =~= entries_map(before).insert(k, settings)) by {
                    assert forall|u: Seq<char>| #[trigger]
                        entries_map(after).dom().contains(u) <==> entries_map(before).insert(
                            k,
                            settings,
                        ).dom().contains(u) by {
                        if entries_map(after).dom().contains(u) {
                            let j = choose|j: int| 0 <= j < after.len() && after[j].0@ == u;
                            if j != last {
                                assert(before[j] == after[j]);
                            }
                        }
                        if entries_map(before).dom().contains(u) {
                            let j = choose|j: int| 0 <= j < before.len() && before[j].0@ == u;
                            assert(before[j] == after[j]);
                        }
                        if u == k {
                            assert(after[last].0@ == k);
                        }
                    }
                    assert forall|u: Seq<char>| #[trigger]
                        entries_map(after).dom().contains(u) implies entries_map(after)[u]
                        == entries_map(before).insert(k, settings)[u] by {
                        let j = choose|j: int| 0 <= j < after.len() && after[j].0@ == u;
                        lemma_index_of(after, j);
                        if j != last {
                            assert(before[j] == after[j]);
                            lemma_index_of(before, j);
                        }
                    }
                }
            },
        }
        self.entries = entries;
    }

    /// Takes the settings for `url` out, if there are any.
    pub fn remove(&mut self, url: &String) -> (r: Option<S>)
        ensures
            r == (if old(self)@.dom().contains(url@) {
                Some(old(self)@[url@])
            } else {
                None::<S>
            }),
            final(self)@ == old(self)@.remove(url@),
    {
        proof {
            use_type_invariant(&*self);
        }
        let ghost before = self.entries@;
        let mut entries: Vec<(String, S)> = Vec::new();
        std::mem::swap(&mut entries, &mut self.entries);
        assert(entries@ == before);
        let ghost k = url@;
        let r = match find(&entries, url) {
            Some(i) => {
                let e = entries.remove(i);
                let ghost after = entries@;
                proof {
                    lemma_index_of(before, i as int);
                }
                assert(distinct_urls(after)) by {
                    assert forall|a: int, b: int|
                        0 <= a < after.len() && 0 <= b < after.len() && a != b implies after[a].0@
                        != after[b].0@ by {
                        let a0 = if a < i { a } else { a + 1 };
                        let b0 = if b < i { b } else { b + 1 };
                        assert(after[a] == before[a0] && after[b] == before[b0]);
                    }
                }
                assert(entries_map(after) =~= entries_map(before).remove(k)) by {
                    assert forall|u: Seq<char>| #[trigger]
                        entries_map(after).dom().contains(u) <==> entries_map(before).remove(
                            k,
                        ).dom().contains(u) by {
                        if entries_map(after).dom().contains(u) {
                            let j = choose|j: int| 0 <= j < after.len() && after[j].0@ == u;
                            let j0 = if j < i { j } else { j + 1 };
                            assert(after[j] == before[j0]);
                            lemma_index_of(before, j0);
                        }
                        if entries_map(before).remove(k).dom().contains(u) {
                            let j = choose|j: int| 0 <= j < before.len() && before[j].0@ == u;
                            assert(j != i);
                            let j1 = if j < i { j } else { j - 1 };
                            assert(after[j1] == before[j]);
                        }
                    }
                    assert forall|u: Seq<char>| #[trigger]
                        entries_map(after).dom().contains(u) implies entries_map(after)[u]
                        == entries_map(before).remove(k)[u] by {
                        let j = choose|j: int| 0 <= j < after.len() && after[j].0@ == u;
                        lemma_index_of(after, j);
                        let j0 = if j < i { j } else { j + 1 };
                        assert(after[j] == before[j0]);
                        lemma_index_of(before, j0);
                    }
                }
                Some(e.1)
            },
            None => {
                assert(!entries_map(before).dom().contains(k));
                assert(entries_map(before) =~= entries_map(before).remove(k));
                None
            },
        };
        self.entries = entries;
        r
    }
}

} // verus!
