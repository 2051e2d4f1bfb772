//! Dependency trees: a task, the tasks it depends on, theirs, and so on,
//! each reached task marked resolved, archived, missing, a cycle, or a
//! repeat of one expanded elsewhere in the tree.

use vstd::prelude::*;
use crate::model::{Task, TaskV, TaskState, Track, NodeV, tasks_v, strs_v, clone_strings};
use crate::project::{Project, tracks_view, lookup_v, lookup_from};
use crate::clean::{deps_flat, flat_deps, ids_in, ids_in_from, ids_in_nodes, ids_in_tracks};
use crate::task_ops::{find_from, find_in, find_in_track, find_nodes_from, find_task_in_track};
use crate::reconcile::string_in;
use crate::text::str_eq;

verus! {

/// What a node of a dependency tree stands for.
#[derive(Debug, Clone, Copy, PartialEq, Eq, Structural)]
pub enum DepStatus {
    /// Found in a track; its own dependencies are expanded below it.
    Resolved,
    /// Its own ancestor on this branch: a real cycle.
    Cycle,
    /// Already expanded elsewhere in the tree.
    Repeat,
    /// Found in an archive: done work, not expanded.
    Archived,
    /// Held by no task in the tracks or the archives.
    Missing,
}

/// A node of a dependency tree.
#[derive(Debug)]
pub struct DepNode {
    pub id: String,
    pub status: DepStatus,
    pub track_id: Option<String>,
    pub title: Option<String>,
    pub state: Option<TaskState>,
    pub tags: Vec<String>,
    pub deps: Vec<DepNode>,
}

/// The mathematical value of a [`DepNode`].
pub struct DepV {
    pub id: Seq<char>,
    pub status: DepStatus,
    pub track_id: Option<Seq<char>>,
    pub title: Option<Seq<char>>,
    pub state: Option<TaskState>,
    pub tags: Seq<Seq<char>>,
    pub deps: Seq<DepV>,
}

pub open spec fn opt_s(o: Option<String>) -> Option<Seq<char>> {
    match o {
        Some(s) => Some(s@),
        None => None,
    }
}

pub open spec fn dep_v(n: DepNode) -> DepV
    decreases n,
{
    DepV {
        id: n.id@,
        status: n.status,
        track_id: opt_s(n.track_id),
        title: opt_s(n.title),
        state: n.state,
        tags: strs_v(n.tags@),
        deps: Seq::new(n.deps@.len(), |i: int| if 0 <= i < n.deps@.len() { dep_v(n.deps@[i]) } else { arbitrary() }),
    }
}

/// A node that expands nothing and names no task.
pub open spec fn terminal_v(id: Seq<char>, status: DepStatus) -> DepV {
    DepV { id, status, track_id: None, title: None, state: None, tags: Seq::empty(), deps: Seq::empty() }
}

impl DepNode {
    fn terminal(id: &str, status: DepStatus) -> (r: DepNode)
        ensures
            dep_v(r) == terminal_v(id@, status),
    {
        let r = DepNode { id: String::from_str(id), status, track_id: None, title: None, state: None, tags: Vec::new(), deps: Vec::new() };
        assert(dep_v(r).tags =~= Seq::empty());
        assert(dep_v(r).deps =~= Seq::empty());
        r
    }
}

/// What an archive still knows about a task it holds.
#[derive(Debug, Clone)]
pub struct ArchivedTask {
    /// The track it was archived from.
    pub track_id: String,
    pub title: String,
    pub state: TaskState,
}

/// The tasks the archives hold, by ID; the first holder of an ID wins.
#[derive(Debug)]
pub struct ArchiveIndex {
    entries: Vec<(String, ArchivedTask)>,
}

/// The value of an archived task: (track, title, state).
pub type ArchV = (Seq<char>, Seq<char>, TaskState);

impl ArchiveIndex {
    /// The index's entries in order: (ID, what the archive knows).
    pub closed spec fn entries_v(&self) -> Seq<(Seq<char>, ArchV)> {
        self.entries@.map_values(|e: (String, ArchivedTask)| (e.0@, (e.1.track_id@, e.1.title@, e.1.state)))
    }

    /// An index of the tasks in archived task lists, each a track ID and the
    /// tasks archived from it, subtasks included.
    pub fn from_lists(lists: &Vec<(String, Vec<Task>)>) -> (r: ArchiveIndex)
        ensures
            r.entries_v() == index_lists(lists@.map_values(|l: (String, Vec<Task>)| (l.0@, tasks_v(l.1@))), 0),
    {
        let ghost lv = lists@.map_values(|l: (String, Vec<Task>)| (l.0@, tasks_v(l.1@)));
        let mut idx = ArchiveIndex { entries: Vec::new() };
        assert(idx.entries_v() =~= Seq::empty());
        let mut i: usize = 0;
        while i < lists.len()
            invariant
                i <= lists@.len(),
                lv == lists@.map_values(|l: (String, Vec<Task>)| (l.0@, tasks_v(l.1@))),
                idx.entries_v() + index_lists(lv, i as int) == index_lists(lv, 0),
            decreases lists.len() - i,
        {
            let ghost before = idx.entries_v();
            idx.add_list(lists[i].1.as_slice(), lists[i].0.as_str());
            assert(idx.entries_v() + index_lists(lv, i + 1) =~= before + index_lists(lv, i as int));
            i += 1;
        }
        assert(idx.entries_v() =~= idx.entries_v() + Seq::<(Seq<char>, ArchV)>::empty());
        idx
    }

    fn add_task(&mut self, t: &Task, track_id: &str)
        ensures
            final(self).entries_v() == old(self).entries_v() + index_task(t@, track_id@),
        decreases t@, 1int,
    {
        assert(tasks_v(t.subtasks@) =~= t@.subtasks);
        let ghost e0 = self.entries_v();
        if let Some(id) = &t.id {
            let ghost b = self.entries@;
            let e = (id.clone(), ArchivedTask { track_id: String::from_str(track_id), title: t.title.clone(), state: t.state });
            self.entries.push(e);
            assert(self.entries@ == b.push(e));
            assert(self.entries_v() =~= e0.push((id@, (track_id@, t@.title, t@.state))));
        }
        let ghost mid = self.entries_v();
        self.add_list(t.subtasks.as_slice(), track_id);
        proof {
            let own: Seq<(Seq<char>, ArchV)> = match t@.id {
                Some(x) => seq![(x, (track_id@, t@.title, t@.state))],
                None => Seq::empty(),
            };
            assert(mid =~= e0 + own);
            assert(self.entries_v() =~= e0 + index_task(t@, track_id@));
        }
    }

    fn add_list(&mut self, ts: &[Task], track_id: &str)
        ensures
            final(self).entries_v() == old(self).entries_v() + index_from(tasks_v(ts@), 0, track_id@),
        decreases tasks_v(ts@),
    {
        let ghost tv = tasks_v(ts@);
        let ghost e0 = self.entries_v();
        let mut i: usize = 0;
        while i < ts.len()
            invariant
                i <= ts@.len(),
                tv == tasks_v(ts@),
                self.entries_v() + index_from(tv, i as int, track_id@) == e0 + index_from(tv, 0, track_id@),
            decreases ts.len() - i,
        {
            let ghost b = self.entries_v();
            assert(ts[i as int]@ == tv[i as int]);
            proof {
                assert(decreases_to!(tv => tv[i as int]));
            }
            self.add_task(&ts[i], track_id);
            assert(self.entries_v() + index_from(tv, i + 1, track_id@) =~= b + index_from(tv, i as int, track_id@));
            i += 1;
        }
        assert(self.entries_v() =~= self.entries_v() + Seq::<(Seq<char>, ArchV)>::empty());
    }

    /// An index of the done archives a project holds as text, each read as
    /// an archive file.
    pub fn new(project: &Project) -> (r: ArchiveIndex)
        ensures
            r.entries_v() == index_lists(project.archives@.map_values(
                |a: (String, String)| (a.0@, crate::parse::archive_tasks(a.1@))), 0),
    {
        let ghost av = project.archives@.map_values(|a: (String, String)| (a.0@, crate::parse::archive_tasks(a.1@)));
        let mut lists: Vec<(String, Vec<Task>)> = Vec::new();
        let mut i: usize = 0;
        while i < project.archives.len()
            invariant
                i <= project.archives@.len(),
                av == project.archives@.map_values(|a: (String, String)| (a.0@, crate::parse::archive_tasks(a.1@))),
                lists@.map_values(|l: (String, Vec<Task>)| (l.0@, tasks_v(l.1@))) == av.take(i as int),
            decreases project.archives.len() - i,
        {
            let a = crate::parse::parse_archive(project.archives[i].1.as_str());
            let ghost lb = lists@;
            let name = String::from_str(project.archives[i].0.as_str());
            lists.push((name, a.tasks));
            assert(lists@.map_values(|l: (String, Vec<Task>)| (l.0@, tasks_v(l.1@)))
                =~= lb.map_values(|l: (String, Vec<Task>)| (l.0@, tasks_v(l.1@))).push(av[i as int]));
            assert(av.take(i + 1) =~= av.take(i as int).push(av[i as int]));
            i += 1;
        }
        assert(av.take(i as int) =~= av);
        ArchiveIndex::from_lists(&lists)
    }

    /// Whether an archive holds this ID.
    pub fn contains(&self, id: &str) -> (r: bool)
        ensures
            r == lookup_v(self.entries_v(), id@) is Some,
    {
        self.get(id).is_some()
    }

    /// The first archived task holding this ID.
    pub fn get(&self, id: &str) -> (r: Option<&ArchivedTask>)
        ensures
            match r {
                Some(a) => lookup_v(self.entries_v(), id@) == Some((a.track_id@, a.title@, a.state)),
                None => lookup_v(self.entries_v(), id@) is None,
            },
    {
        let ghost ev = self.entries_v();
        let mut i: usize = 0;
        while i < self.entries.len()
            invariant
                i <= self.entries@.len(),
                ev == self.entries_v(),
                lookup_v(ev, id@) == lookup_from(ev, id@, i as int),
            decreases self.entries.len() - i,
        {
            if str_eq(self.entries[i].0.as_str(), id) {
                return Some(&self.entries[i].1);
            }
            i += 1;
        }
        None
    }
}

/// The entries a task and its subtree add to an index, in file order.
pub open spec fn index_task(t: TaskV, track_id: Seq<char>) -> Seq<(Seq<char>, ArchV)>
    decreases t, 0int,
{
    let own: Seq<(Seq<char>, ArchV)> = match t.id {
        Some(x) => seq![(x, (track_id, t.title, t.state))],
        None => Seq::empty(),
    };
    own + index_from(t.subtasks, 0, track_id)
}

pub open spec fn index_from(ts: Seq<TaskV>, i: int, track_id: Seq<char>) -> Seq<(Seq<char>, ArchV)>
    decreases ts, ts.len() - i,
{
    if i < 0 || i >= ts.len() {
        Seq::empty()
    } else {
        index_task(ts[i], track_id) + index_from(ts, i + 1, track_id)
    }
}

pub open spec fn index_lists(lists: Seq<(Seq<char>, Seq<TaskV>)>, i: int) -> Seq<(Seq<char>, ArchV)>
    decreases lists.len() - i,
{
    if i < 0 || i >= lists.len() {
        Seq::empty()
    } else {
        index_from(lists[i].1, 0, lists[i].0) + index_lists(lists, i + 1)
    }
}

/// The IDs a task depends on, in declaration order.
pub fn task_deps(task: &Task) -> (r: Vec<String>)
    ensures
        strs_v(r@) == deps_flat(task@.metadata),
{
    flat_deps(&task.metadata)
}

/// The first track from `i` on holding a task with this ID, and the task.
pub open spec fn find_project(tracks: Seq<(Seq<char>, Seq<NodeV>)>, id: Seq<char>, i: int) -> Option<(Seq<char>, TaskV)>
    decreases tracks.len() - i,
{
    if i < 0 || i >= tracks.len() {
        None
    } else {
        match find_in_track(tracks[i].1, id) {
            Some(t) => Some((tracks[i].0, t)),
            None => find_project(tracks, id, i + 1),
        }
    }
}

/// How many entries of `all` the list `ex` does not hold.
pub open spec fn unexpanded(all: Seq<Seq<char>>, ex: Seq<Seq<char>>) -> nat
    decreases all.len(),
{
    if all.len() == 0 {
        0
    } else {
        unexpanded(all.drop_last(), ex) + if ex.contains(all.last()) { 0nat } else { 1nat }
    }
}

/// The tree under `id`, given the IDs on the branch above it (`path`) and
/// those expanded so far (`ex`): a cycle when `path` holds it; else, when no
/// track holds it, archived when the archive index does and missing when it
/// does not; else a repeat when it was expanded already; else resolved, its
/// dependencies expanded in order. Also gives the IDs expanded after it.
pub open spec fn tree_t(
    all: Seq<Seq<char>>,
    tracks: Seq<(Seq<char>, Seq<NodeV>)>,
    arch: Seq<(Seq<char>, ArchV)>,
    id: Seq<char>,
    path: Seq<Seq<char>>,
    ex: Seq<Seq<char>>,
) -> (DepV, Seq<Seq<char>>)
    decreases unexpanded(all, ex), 0int, 0int,
{
    if path.contains(id) {
        (terminal_v(id, DepStatus::Cycle), ex)
    } else {
        match find_project(tracks, id, 0) {
            None => match lookup_v(arch, id) {
                Some(a) => (DepV { id, status: DepStatus::Archived, track_id: Some(a.0), title: Some(a.1), state: Some(a.2),
                    tags: Seq::empty(), deps: Seq::empty() }, ex),
                None => (terminal_v(id, DepStatus::Missing), ex),
            },
            Some((tid, t)) => if ex.contains(id) {
                (terminal_v(id, DepStatus::Repeat), ex)
            } else if unexpanded(all, ex.push(id)) < unexpanded(all, ex) {
                let r = tree_l(all, tracks, arch, deps_flat(t.metadata), 0, path.push(id), ex.push(id));
                (DepV { id, status: DepStatus::Resolved, track_id: Some(tid), title: Some(t.title), state: Some(t.state),
                    tags: t.tags, deps: r.0 }, r.1)
            } else {
                (terminal_v(id, DepStatus::Repeat), ex)
            },
        }
    }
}

pub open spec fn tree_l(
    all: Seq<Seq<char>>,
    tracks: Seq<(Seq<char>, Seq<NodeV>)>,
    arch: Seq<(Seq<char>, ArchV)>,
    deps: Seq<Seq<char>>,
    i: int,
    path: Seq<Seq<char>>,
    ex: Seq<Seq<char>>,
) -> (Seq<DepV>, Seq<Seq<char>>)
    decreases unexpanded(all, ex), 1int, deps.len() - i,
{
    if i < 0 || i >= deps.len() {
        (Seq::empty(), ex)
    } else {
        let a = tree_t(all, tracks, arch, deps[i], path, ex);
        if unexpanded(all, a.1) <= unexpanded(all, ex) {
            let b = tree_l(all, tracks, arch, deps, i + 1, path, a.1);
            (seq![a.0] + b.0, b.1)
        } else {
            (seq![a.0], a.1)
        }
    }
}

proof fn lemma_unexp_mono(all: Seq<Seq<char>>, ex: Seq<Seq<char>>, ex2: Seq<Seq<char>>)
    requires
        forall|x: Seq<char>| ex.contains(x) ==> ex2.contains(x),
    ensures
        unexpanded(all, ex2) <= unexpanded(all, ex),
    decreases all.len(),
{
    if all.len() > 0 {
        lemma_unexp_mono(all.drop_last(), ex, ex2);
    }
}

proof fn lemma_unexp_push(all: Seq<Seq<char>>, ex: Seq<Seq<char>>, x: Seq<char>)
    requires
        all.contains(x),
        !ex.contains(x),
    ensures
        unexpanded(all, ex.push(x)) < unexpanded(all, ex),
    decreases all.len(),
{
    assert forall|y: Seq<char>| ex.contains(y) implies ex.push(x).contains(y) by {
        let k = choose|k: int| 0 <= k < ex.len() && ex[k] == y;
        assert(ex.push(x)[k] == y);
    }
    assert(ex.push(x).contains(x)) by {
        assert(ex.push(x)[ex.len() as int] == x);
    }
    if all.last() == x {
        lemma_unexp_mono(all.drop_last(), ex, ex.push(x));
    } else {
        let k = choose|k: int| 0 <= k < all.len() && all[k] == x;
        assert(all.drop_last()[k] == x);
        lemma_unexp_push(all.drop_last(), ex, x);
        if ex.push(x).contains(all.last()) && !ex.contains(all.last()) {
            let m = choose|m: int| 0 <= m < ex.push(x).len() && ex.push(x)[m] == all.last();
            if m < ex.len() {
                assert(ex[m] == all.last());
            }
        }
    }
}

/// Expanding keeps what was expanded.
proof fn lemma_tree_grows(
    all: Seq<Seq<char>>,
    tracks: Seq<(Seq<char>, Seq<NodeV>)>,
    arch: Seq<(Seq<char>, ArchV)>,
    id: Seq<char>,
    path: Seq<Seq<char>>,
    ex: Seq<Seq<char>>,
)
    ensures
        forall|x: Seq<char>| ex.contains(x) ==> tree_t(all, tracks, arch, id, path, ex).1.contains(x),
    decreases unexpanded(all, ex), 0int, 0int,
{
    if !path.contains(id) {
        match find_project(tracks, id, 0) {
            Some((tid, t)) => {
                if !ex.contains(id) && unexpanded(all, ex.push(id)) < unexpanded(all, ex) {
                    assert forall|y: Seq<char>| ex.contains(y) implies ex.push(id).contains(y) by {
                        let k = choose|k: int| 0 <= k < ex.len() && ex[k] == y;
                        assert(ex.push(id)[k] == y);
                    }
                    lemma_list_grows(all, tracks, arch, deps_flat(t.metadata), 0, path.push(id), ex.push(id));
                }
            },
            None => {},
        }
    }
}

proof fn lemma_list_grows(
    all: Seq<Seq<char>>,
    tracks: Seq<(Seq<char>, Seq<NodeV>)>,
    arch: Seq<(Seq<char>, ArchV)>,
    deps: Seq<Seq<char>>,
    i: int,
    path: Seq<Seq<char>>,
    ex: Seq<Seq<char>>,
)
    ensures
        forall|x: Seq<char>| ex.contains(x) ==> tree_l(all, tracks, arch, deps, i, path, ex).1.contains(x),
    decreases unexpanded(all, ex), 1int, deps.len() - i,
{
    if 0 <= i < deps.len() {
        let a = tree_t(all, tracks, arch, deps[i], path, ex);
        lemma_tree_grows(all, tracks, arch, deps[i], path, ex);
        if unexpanded(all, a.1) <= unexpanded(all, ex) {
            lemma_list_grows(all, tracks, arch, deps, i + 1, path, a.1);
        }
    }
}

proof fn lemma_find_in_ids(ts: Seq<TaskV>, i: int, id: Seq<char>)
    requires
        0 <= i <= ts.len(),
        find_from(ts, i, id) is Some,
    ensures
        ids_in_from(ts, i).contains(id),
    decreases ts, ts.len() - i,
{
    if i < ts.len() {
        let t = ts[i];
        let own: Seq<Seq<char>> = match t.id {
            Some(x) => seq![x],
            None => Seq::empty(),
        };
        assert(ids_in(t) == own + ids_in_from(t.subtasks, 0));
        assert(ids_in_from(ts, i) == ids_in(t) + ids_in_from(ts, i + 1));
        if t.id == Some(id) {
            assert(ids_in_from(ts, i)[0] == id);
        } else {
            assert(decreases_to!(ts => ts[i]));
            match find_from(t.subtasks, 0, id) {
                Some(_) => {
                    lemma_find_in_ids(t.subtasks, 0, id);
                    let sq = ids_in_from(t.subtasks, 0);
                    let k = choose|k: int| 0 <= k < sq.len() && sq[k] == id;
                    assert(ids_in_from(ts, i)[own.len() + k] == id);
                },
                None => {
                    lemma_find_in_ids(ts, i + 1, id);
                    let sq = ids_in_from(ts, i + 1);
                    let k = choose|k: int| 0 <= k < sq.len() && sq[k] == id;
                    assert(ids_in_from(ts, i)[ids_in(t).len() + k] == id);
                },
            }
        }
    }
}

proof fn lemma_find_nodes_in_ids(nodes: Seq<NodeV>, i: int, id: Seq<char>)
    requires
        0 <= i <= nodes.len(),
        find_nodes_from(nodes, i, id) is Some,
    ensures
        ids_in_nodes(nodes, i).contains(id),
    decreases nodes.len() - i,
{
    if i < nodes.len() {
        let here = ids_in_from(crate::model::node_tasks(nodes[i]), 0);
        assert(ids_in_nodes(nodes, i) == here + ids_in_nodes(nodes, i + 1));
        match nodes[i] {
            NodeV::Section { tasks, .. } => {
                if find_in(tasks, id) is Some {
                    lemma_find_in_ids(tasks, 0, id);
                    let sq = here;
                    let k = choose|k: int| 0 <= k < sq.len() && sq[k] == id;
                    assert(ids_in_nodes(nodes, i)[k] == id);
                } else {
                    lemma_find_nodes_in_ids(nodes, i + 1, id);
                    let sq = ids_in_nodes(nodes, i + 1);
                    let k = choose|k: int| 0 <= k < sq.len() && sq[k] == id;
                    assert(ids_in_nodes(nodes, i)[here.len() + k] == id);
                }
            },
            NodeV::Literal(_) => {
                lemma_find_nodes_in_ids(nodes, i + 1, id);
                let sq = ids_in_nodes(nodes, i + 1);
                let k = choose|k: int| 0 <= k < sq.len() && sq[k] == id;
                assert(ids_in_nodes(nodes, i)[here.len() + k] == id);
            },
        }
    }
}

proof fn lemma_found_in_all(tracks: Seq<(Seq<char>, Seq<NodeV>)>, id: Seq<char>, i: int)
    requires
        0 <= i <= tracks.len(),
        find_project(tracks, id, i) is Some,
    ensures
        ids_in_tracks(tracks, i).contains(id),
    decreases tracks.len() - i,
{
    if i < tracks.len() {
        let here = ids_in_nodes(tracks[i].1, 0);
        assert(ids_in_tracks(tracks, i) == here + ids_in_tracks(tracks, i + 1));
        if find_in_track(tracks[i].1, id) is Some {
            lemma_find_nodes_in_ids(tracks[i].1, 0, id);
            let sq = here;
            let k = choose|k: int| 0 <= k < sq.len() && sq[k] == id;
            assert(ids_in_tracks(tracks, i)[k] == id);
        } else {
            lemma_found_in_all(tracks, id, i + 1);
            let sq = ids_in_tracks(tracks, i + 1);
            let k = choose|k: int| 0 <= k < sq.len() && sq[k] == id;
            assert(ids_in_tracks(tracks, i)[here.len() + k] == id);
        }
    }
}

pub open spec fn deps_v(v: Seq<DepNode>) -> Seq<DepV> {
    v.map_values(|n: DepNode| dep_v(n))
}

/// The first track holding a task with this ID, and the task.
fn find_task<'a>(tracks: &'a Vec<(String, Track)>, id: &str) -> (r: Option<(&'a String, &'a Task)>)
    ensures
        match r {
            Some((tid, t)) => find_project(tracks_view(tracks@), id@, 0) == Some((tid@, t@)),
            None => find_project(tracks_view(tracks@), id@, 0) is None,
        },
{
    let ghost tv = tracks_view(tracks@);
    let mut i: usize = 0;
    while i < tracks.len()
        invariant
            i <= tracks@.len(),
            tv == tracks_view(tracks@),
            find_project(tv, id@, 0) == find_project(tv, id@, i as int),
        decreases tracks.len() - i,
    {
        assert(tv[i as int] == (tracks@[i as int].0@, tracks@[i as int].1@));
        match find_task_in_track(&tracks[i].1, id) {
            Some(t) => {
                return Some((&tracks[i].0, t));
            },
            None => {},
        }
        i += 1;
    }
    None
}

fn build(
    tracks: &Vec<(String, Track)>,
    archive: &ArchiveIndex,
    id: &str,
    path: &mut Vec<String>,
    expanded: &mut Vec<String>,
    Ghost(all): Ghost<Seq<Seq<char>>>,
) -> (r: DepNode)
    requires
        all == ids_in_tracks(tracks_view(tracks@), 0),
    ensures
        (dep_v(r), strs_v(final(expanded)@)) == tree_t(all, tracks_view(tracks@), archive.entries_v(), id@,
            strs_v(old(path)@), strs_v(old(expanded)@)),
        strs_v(final(path)@) == strs_v(old(path)@),
    decreases unexpanded(all, strs_v(old(expanded)@)), 0int, 0int,
{
    let ghost tv = tracks_view(tracks@);
    let ghost ex0 = strs_v(expanded@);
    let ghost p0 = strs_v(path@);
    if string_in(path, id) {
        return DepNode::terminal(id, DepStatus::Cycle);
    }
    match find_task(tracks, id) {
        None => match archive.get(id) {
            Some(a) => {
                let r = DepNode {
                    id: String::from_str(id),
                    status: DepStatus::Archived,
                    track_id: Some(a.track_id.clone()),
                    title: Some(a.title.clone()),
                    state: Some(a.state),
                    tags: Vec::new(),
                    deps: Vec::new(),
                };
                assert(dep_v(r).tags =~= Seq::empty());
                assert(dep_v(r).deps =~= Seq::empty());
                r
            },
            None => DepNode::terminal(id, DepStatus::Missing),
        },
        Some((tid, task)) => {
            if string_in(expanded, id) {
                return DepNode::terminal(id, DepStatus::Repeat);
            }
            proof {
                lemma_found_in_all(tv, id@, 0);
                lemma_unexp_push(all, ex0, id@);
            }
            let ghost eb = expanded@;
            expanded.push(String::from_str(id));
            assert(strs_v(expanded@) =~= ex0.push(id@));
            let ghost pb = path@;
            path.push(String::from_str(id));
            assert(strs_v(path@) =~= p0.push(id@));
            let deps = task_deps(task);
            let children = build_list(tracks, archive, &deps, path, expanded, Ghost(all));
            let ghost pa = path@;
            path.pop();
            assert(strs_v(path@) =~= strs_v(pa).drop_last());
            let r = DepNode {
                id: String::from_str(id),
                status: DepStatus::Resolved,
                track_id: Some(tid.clone()),
                title: Some(task.title.clone()),
                state: Some(task.state),
                tags: clone_strings(&task.tags),
                deps: children,
            };
            assert(dep_v(r).deps =~= deps_v(r.deps@));
            r
        },
    }
}

fn build_list(
    tracks: &Vec<(String, Track)>,
    archive: &ArchiveIndex,
    deps: &Vec<String>,
    path: &mut Vec<String>,
    expanded: &mut Vec<String>,
    Ghost(all): Ghost<Seq<Seq<char>>>,
) -> (r: Vec<DepNode>)
    requires
        all == ids_in_tracks(tracks_view(tracks@), 0),
    ensures
        (deps_v(r@), strs_v(final(expanded)@)) == tree_l(all, tracks_view(tracks@), archive.entries_v(), strs_v(deps@), 0,
            strs_v(old(path)@), strs_v(old(expanded)@)),
        strs_v(final(path)@) == strs_v(old(path)@),
    decreases unexpanded(all, strs_v(old(expanded)@)), 1int, deps@.len() as int,
{
    let ghost tv = tracks_view(tracks@);
    let ghost arch = archive.entries_v();
    let ghost dv = strs_v(deps@);
    let ghost p0 = strs_v(path@);
    let ghost ex0 = strs_v(expanded@);
    let ghost whole = tree_l(all, tv, arch, dv, 0, p0, ex0);
    let mut out: Vec<DepNode> = Vec::new();
    let mut i: usize = 0;
    while i < deps.len()
        invariant
            i <= deps@.len(),
            all == ids_in_tracks(tracks_view(tracks@), 0),
            tv == tracks_view(tracks@),
            arch == archive.entries_v(),
            dv == strs_v(deps@),
            strs_v(path@) == p0,
            ex0 == strs_v(old(expanded)@),
            unexpanded(all, strs_v(expanded@)) <= unexpanded(all, ex0),
            whole.0 == deps_v(out@) + tree_l(all, tv, arch, dv, i as int, p0, strs_v(expanded@)).0,
            whole.1 == tree_l(all, tv, arch, dv, i as int, p0, strs_v(expanded@)).1,
        decreases deps.len() - i,
    {
        let ghost eb = strs_v(expanded@);
        let ghost ob = out@;
        let node = build(tracks, archive, deps[i].as_str(), path, expanded, Ghost(all));
        proof {
            lemma_tree_grows(all, tv, arch, dv[i as int], p0, eb);
            lemma_unexp_mono(all, eb, strs_v(expanded@));
        }
        out.push(node);
        proof {
            assert(deps_v(out@) =~= deps_v(ob).push(dep_v(node)));
            let a = tree_t(all, tv, arch, dv[i as int], p0, eb);
            assert(tree_l(all, tv, arch, dv, i as int, p0, eb).0 =~= seq![a.0] + tree_l(all, tv, arch, dv, i + 1, p0, a.1).0);
            assert(whole.0 =~= deps_v(out@) + tree_l(all, tv, arch, dv, i + 1, p0, strs_v(expanded@)).0);
        }
        i += 1;
    }
    assert(deps_v(out@) =~= deps_v(out@) + Seq::<DepV>::empty());
    out
}

/// The dependency tree under `root_id`, against the project's tracks and
/// the archive index `archive` (see [`tree_t`]).
pub fn dep_tree_with(project: &Project, archive: &ArchiveIndex, root_id: &str) -> (r: DepNode)
    ensures
        dep_v(r) == tree_t(ids_in_tracks(tracks_view(project.tracks@), 0), tracks_view(project.tracks@),
            archive.entries_v(), root_id@, Seq::empty(), Seq::empty()).0,
{
    let mut path: Vec<String> = Vec::new();
    let mut expanded: Vec<String> = Vec::new();
    assert(strs_v(path@) =~= Seq::<Seq<char>>::empty());
    assert(strs_v(expanded@) =~= Seq::<Seq<char>>::empty());
    build(&project.tracks, archive, root_id, &mut path, &mut expanded,
        Ghost(ids_in_tracks(tracks_view(project.tracks@), 0)))
}

/// The dependency tree under `root_id`, against the project's tracks and
/// the done archives it holds (see [`dep_tree_with`]).
pub fn dep_tree(project: &Project, root_id: &str) -> (r: DepNode)
    ensures
        dep_v(r) == tree_t(ids_in_tracks(tracks_view(project.tracks@), 0), tracks_view(project.tracks@),
            index_lists(project.archives@.map_values(|a: (String, String)| (a.0@, crate::parse::archive_tasks(a.1@))), 0),
            root_id@, Seq::empty(), Seq::empty()).0,
{
    let archive = ArchiveIndex::new(project);
    dep_tree_with(project, &archive, root_id)
}

} // verus!
