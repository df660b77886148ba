//! A personal task tracker: tasks with priority and optional deadline,
//! grouped into named projects, manipulated by discrete commands on a
//! whole collection of projects.
//!
//! Every command here works on the in-memory collection; reading the
//! collection from its file and writing it back is the surrounding
//! program's concern.

use vstd::prelude::*;

pub mod error;
pub mod order;
pub mod project;
pub mod storage;
pub mod task;
pub mod text;

use crate::error::RustaskError;
use crate::order::{insert_ordered, lemma_insert_ordered_at, lemma_sort_ordered_sorted, ordered,
    sort_ordered};
use crate::project::{lemma_sort_tasks_sorted, sort_tasks, task_le_fn, ProjView, Project};
use crate::task::{apply_patch, eff_rank, Deadline, Priority, Task, TaskPatch,
    TaskPatchView, TaskView};
use crate::text::{chars_lt, lemma_chars_lt_connected, lemma_chars_lt_transitive, str_lt};

verus! {

/// Sort order of projects in the collection: by name, then by task
/// count. Names are unique across a collection, so the count only ever
/// breaks ties between a project and itself.
pub open spec fn proj_le(a: ProjView, b: ProjView) -> bool {
    chars_lt(a.name, b.name) || (a.name == b.name && a.tasks.len() <= b.tasks.len())
}

/// The project order as a function value, for the ordered-sequence specs.
pub open spec fn proj_le_fn() -> spec_fn(ProjView, ProjView) -> bool {
    |a: ProjView, b: ProjView| proj_le(a, b)
}

/// Where a project newly added to the collection comes to stand.
pub open spec fn insert_project_sorted(s: Seq<ProjView>, x: ProjView) -> Seq<ProjView> {
    insert_ordered(s, x, proj_le_fn())
}

/// A project sequence stably sorted by the project order.
pub open spec fn sort_projects(s: Seq<ProjView>) -> Seq<ProjView> {
    sort_ordered(s, proj_le_fn())
}

/// The project order is total and transitive: any two projects are
/// ordered one way or the other, and the order chains.
pub proof fn lemma_proj_order(a: ProjView, b: ProjView, c: ProjView)
    ensures
        proj_le(a, b) || proj_le(b, a),
        proj_le(a, b) && proj_le(b, c) ==> proj_le(a, c),
{
    if !chars_lt(a.name, b.name) && !chars_lt(b.name, a.name) {
        lemma_chars_lt_connected(a.name, b.name);
    }
    if chars_lt(a.name, b.name) && chars_lt(b.name, c.name) {
        lemma_chars_lt_transitive(a.name, b.name, c.name);
    }
}

/// Sorting projects sorts them: the stable sort of any project
/// sequence is ordered under the project order.
pub proof fn lemma_sort_projects_sorted(s: Seq<ProjView>)
    ensures
        ordered(sort_projects(s), proj_le_fn()),
{
    let le = proj_le_fn();
    assert forall|a: ProjView, b: ProjView| #[trigger] le(a, b) || #[trigger] le(b, a) by {
        lemma_proj_order(a, b, a);
    }
    assert forall|a: ProjView, b: ProjView, c: ProjView|
        #[trigger] le(a, b) && #[trigger] le(b, c) implies le(a, c) by {
        lemma_proj_order(a, b, c);
    }
    lemma_sort_ordered_sorted(s, le);
}

/// Whether some project of the collection bears this name.
pub open spec fn has_project(s: Seq<ProjView>, name: Seq<char>) -> bool {
    exists|i: int| 0 <= i < s.len() && s[i].name == name
}

/// The first index bearing this name, or the length if none does.
pub open spec fn index_of_project(s: Seq<ProjView>, name: Seq<char>) -> int
    decreases s.len(),
{
    if s.len() == 0 {
        0
    } else if s[0].name == name {
        0
    } else {
        1 + index_of_project(s.skip(1), name)
    }
}

/// What `index_of_project` gives: the first index bearing the name
/// when one exists, the length when none does.
pub proof fn lemma_index_of_project(s: Seq<ProjView>, name: Seq<char>)
    ensures
        0 <= index_of_project(s, name) <= s.len(),
        has_project(s, name) ==> index_of_project(s, name) < s.len() && s[index_of_project(
            s,
            name,
        )].name == name,
        !has_project(s, name) ==> index_of_project(s, name) == s.len(),
        forall|j: int| 0 <= j < index_of_project(s, name) ==> s[j].name != name,
    decreases s.len(),
{
    if s.len() > 0 && s[0].name != name {
        lemma_index_of_project(s.skip(1), name);
        assert forall|i: int| 0 <= i < s.len() && s[i].name == name implies has_project(
            s.skip(1),
            name,
        ) by {
            assert(s.skip(1)[i - 1] == s[i]);
        }
        assert forall|j: int| 0 <= j < index_of_project(s, name) implies s[j].name != name by {
            if j > 0 {
                assert(s.skip(1)[j - 1] == s[j]);
            }
        }
        if has_project(s.skip(1), name) {
            assert(s[index_of_project(s, name)] == s.skip(1)[index_of_project(s.skip(1), name)]);
        }
    }
}

/// First index of the named project, if any.
fn find_project(projs: &Vec<Project>, name: &String) -> (r: Option<usize>)
    ensures
        ({
            let s = projs.deep_view();
            match r {
                Some(i) => has_project(s, name@) && i as int == index_of_project(s, name@),
                None => !has_project(s, name@),
            }
        }),
{
    proof {
        lemma_index_of_project(projs.deep_view(), name@);
    }
    let n = projs.len();
    let mut i: usize = 0;
    while i < n
        invariant
            n == projs@.len(),
            i <= n,
            forall|j: int| 0 <= j < i ==> (#[trigger] projs.deep_view()[j]).name != name@,
        decreases n - i,
    {
        if projs[i].name == *name {
            proof {
                let s = projs.deep_view();
                let idx = index_of_project(s, name@);
                assert(s[i as int] == projs@[i as int]@);
                assert(s[i as int].name == name@);
                assert(has_project(s, name@));
                lemma_index_of_project(s, name@);
                if idx < i as int {
                    assert(s[idx].name != name@);
                } else if idx > i as int {
                    assert(s[i as int].name != name@);
                }
            }
            return Some(i);
        }
        i = i + 1;
    }
    proof {
        let s = projs.deep_view();
        if has_project(s, name@) {
            let w = choose|j: int| 0 <= j < s.len() && s[j].name == name@;
            assert(s[w].name != name@);
        }
    }
    None
}

/// The index a project sorts to: the first position whose project does
/// not compare at-or-below the new one.
pub(crate) fn project_insert_position(projs: &Vec<Project>, p: &Project) -> (j: usize)
    ensures
        j <= projs@.len(),
        forall|k: int| 0 <= k < j ==> proj_le(#[trigger] projs.deep_view()[k], p@),
        j < projs@.len() ==> !proj_le(projs.deep_view()[j as int], p@),
{
    let n = projs.len();
    let mut j: usize = 0;
    while j < n
        invariant
            n == projs@.len(),
            j <= n,
            forall|k: int| 0 <= k < j ==> proj_le(#[trigger] projs.deep_view()[k], p@),
        decreases n - j,
    {
        let le = if str_lt(projs[j].name.as_str(), p.name.as_str()) {
            true
        } else if projs[j].name == p.name {
            projs[j].len() <= p.len()
        } else {
            false
        };
        if !le {
            return j;
        }
        j = j + 1;
    }
    j
}

/// The collection after a task is added to the named project: into the
/// first project of that name if one exists, else as a fresh one-task
/// project inserted where the project order puts it.
pub open spec fn add_task_result(s: Seq<ProjView>, t: TaskView, name: Seq<char>) -> Seq<
    ProjView,
> {
    if has_project(s, name) {
        let i = index_of_project(s, name);
        s.update(i, ProjView { name: s[i].name, tasks: sort_tasks(s[i].tasks.push(t)) })
    } else {
        insert_project_sorted(s, ProjView { name: name, tasks: seq![t] })
    }
}

/// Adds a task to the named project, creating the project if no project
/// of that name exists yet.
pub fn add_task(projs: &mut Vec<Project>, task: Task, name: String) -> (r: Result<
    (),
    RustaskError,
>)
    ensures
        r is Ok,
        final(projs).deep_view() == add_task_result(old(projs).deep_view(), task@, name@),
{
    let ghost s = projs.deep_view();
    let ghost tv = task@;
    proof {
        lemma_index_of_project(s, name@);
    }
    match find_project(projs, &name) {
        Some(i) => {
            let mut p = projs.remove(i);
            p.push(task);
            projs.insert(i, p);
            proof {
                assert(projs.deep_view() =~= add_task_result(s, tv, name@));
            }
        },
        None => {
            let ghost nv = name@;
            let mut p = Project::new(name);
            p.push(task);
            proof {
                let single = Seq::<TaskView>::empty().push(tv);
                assert(single.drop_last() =~= Seq::<TaskView>::empty());
                assert(single.last() == tv);
                assert(sort_tasks(Seq::<TaskView>::empty()) =~= Seq::<TaskView>::empty());
                assert(insert_ordered(Seq::<TaskView>::empty(), tv, task_le_fn()) =~= seq![tv]);
                assert(sort_tasks(single) =~= seq![tv]);
                assert(p@.tasks =~= seq![tv]);
                assert(p@ == (ProjView { name: nv, tasks: seq![tv] }));
            }
            let j = project_insert_position(projs, &p);
            proof {
                lemma_insert_ordered_at(projs.deep_view(), p@, proj_le_fn(), j as int);
            }
            projs.insert(j, p);
            proof {
                assert(projs.deep_view() =~= s.subrange(0, j as int) + seq![
                    ProjView { name: nv, tasks: seq![tv] },
                ] + s.subrange(j as int, s.len() as int));
                assert(projs.deep_view() =~= add_task_result(s, tv, nv));
            }
        },
    }
    Ok(())
}

/// The collection after the task at `id` leaves the project at `i`:
/// a project emptied by the removal leaves the collection with it.
pub open spec fn remove_task_result(s: Seq<ProjView>, i: int, id: int) -> Seq<ProjView> {
    if s[i].tasks.len() == 1 {
        s.remove(i)
    } else {
        s.update(i, ProjView { name: s[i].name, tasks: s[i].tasks.remove(id) })
    }
}

/// Removing a task prunes exactly the emptied project: taking the last
/// task of the project at `i` shrinks the collection by that project,
/// and taking one of several leaves the project in place with one task
/// fewer.
pub proof fn lemma_remove_prunes(s: Seq<ProjView>, i: int, id: int)
    requires
        0 <= i < s.len(),
        0 <= id < s[i].tasks.len(),
    ensures
        s[i].tasks.len() == 1 ==> remove_task_result(s, i, id).len() == s.len() - 1
            && remove_task_result(s, i, id) == s.remove(i),
        s[i].tasks.len() > 1 ==> remove_task_result(s, i, id).len() == s.len()
            && remove_task_result(s, i, id)[i].name == s[i].name && remove_task_result(
            s,
            i,
            id,
        )[i].tasks.len() == s[i].tasks.len() - 1,
{
}

/// Removes the task at `id` from the named project and returns it; a
/// project emptied by the removal leaves the collection. Fails without
/// a trace when no project bears the name or the index is out of range.
pub fn remove_task(projs: &mut Vec<Project>, id: usize, name: String) -> (r: Result<
    Task,
    RustaskError,
>)
    ensures
        ({
            let s = old(projs).deep_view();
            let i = index_of_project(s, name@);
            match r {
                Ok(t) => has_project(s, name@) && id < s[i].tasks.len()
                    && t@ == s[i].tasks[id as int]
                    && final(projs).deep_view() == remove_task_result(s, i, id as int),
                Err(e) => final(projs).deep_view() == s && match e {
                    RustaskError::ProjectNotFound(n) => n@ == name@ && !has_project(s, name@),
                    RustaskError::OutOfBounds(x) => x == id && has_project(s, name@) && id >= s[
                        i
                    ].tasks.len(),
                    _ => false,
                },
            }
        }),
{
    let ghost s = projs.deep_view();
    proof {
        lemma_index_of_project(s, name@);
    }
    let idx = match find_project(projs, &name) {
        Some(i) => i,
        None => {
            return Err(RustaskError::ProjectNotFound(name));
        },
    };
    let mut p = projs.remove(idx);
    let task = match p.remove(id) {
        Ok(t) => t,
        Err(e) => {
            projs.insert(idx, p);
            proof {
                assert(projs.deep_view() =~= s);
            }
            return Err(e);
        },
    };
    if p.len() == 0 {
        proof {
            assert(projs.deep_view() =~= s.remove(idx as int));
        }
    } else {
        projs.insert(idx, p);
        proof {
            assert(projs.deep_view() =~= s.update(
                idx as int,
                ProjView { name: s[idx as int].name, tasks: s[idx as int].tasks.remove(id as int) },
            ));
        }
    }
    Ok(task)
}

/// The collection after the task at `id` of the project at `i` takes a
/// partial update: the project's tasks are re-sorted around the edited
/// task.
pub open spec fn edit_task_result(s: Seq<ProjView>, i: int, id: int, p: TaskPatchView) -> Seq<
    ProjView,
> {
    s.update(
        i,
        ProjView {
            name: s[i].name,
            tasks: sort_tasks(s[i].tasks.update(id, apply_patch(s[i].tasks[id], p))),
        },
    )
}

/// Applies a partial update to the task at `id` of the named project:
/// present fields replace the current values, absent ones change
/// nothing, and the project re-sorts. Fails without a trace when no
/// project bears the name or the index is out of range.
pub fn edit_task(
    projs: &mut Vec<Project>,
    id: usize,
    name: String,
    description: Option<String>,
    priority: Option<Priority>,
    deadline: Option<Deadline>,
) -> (r: Result<(), RustaskError>)
    ensures
        ({
            let s = old(projs).deep_view();
            let i = index_of_project(s, name@);
            let patch = TaskPatchView {
                description: match description {
                    Some(d) => Some(d@),
                    None => None,
                },
                priority: priority,
                deadline: match deadline {
                    Some(d) => Some(d.secs as int),
                    None => None,
                },
            };
            match r {
                Ok(_) => has_project(s, name@) && id < s[i].tasks.len() && final(projs).deep_view() == edit_task_result(s, i, id as int, patch),
                Err(e) => final(projs).deep_view() == s && match e {
                    RustaskError::ProjectNotFound(n) => n@ == name@ && !has_project(s, name@),
                    RustaskError::OutOfBounds(x) => x == id && has_project(s, name@) && id >= s[
                        i
                    ].tasks.len(),
                    _ => false,
                },
            }
        }),
{
    let ghost s = projs.deep_view();
    proof {
        lemma_index_of_project(s, name@);
    }
    let idx = match find_project(projs, &name) {
        Some(i) => i,
        None => {
            return Err(RustaskError::ProjectNotFound(name));
        },
    };
    let mut p = projs.remove(idx);
    match p.edit(id, TaskPatch { description, priority, deadline }) {
        Ok(_) => {
            projs.insert(idx, p);
            proof {
                assert(projs.deep_view() =~= edit_task_result(
                    s,
                    idx as int,
                    id as int,
                    TaskPatchView {
                        description: match description {
                            Some(d) => Some(d@),
                            None => None,
                        },
                        priority: priority,
                        deadline: match deadline {
                            Some(d) => Some(d.secs as int),
                            None => None,
                        },
                    },
                ));
            }
            Ok(())
        },
        Err(e) => {
            projs.insert(idx, p);
            proof {
                assert(projs.deep_view() =~= s);
            }
            Err(e)
        },
    }
}

/// Moves the task at `id` of one project into another, in one
/// transaction on the collection: the task leaves the old project,
/// which is pruned if emptied, and enters the new one, created if
/// need be. A failure to find the task leaves the collection untouched.
pub fn move_task(
    projs: &mut Vec<Project>,
    old_project: String,
    id: usize,
    new_project: String,
) -> (r: Result<(), RustaskError>)
    ensures
        ({
            let s = old(projs).deep_view();
            let i = index_of_project(s, old_project@);
            match r {
                Ok(_) => has_project(s, old_project@) && id < s[i].tasks.len() && final(projs).deep_view() == add_task_result(
                    remove_task_result(s, i, id as int),
                    s[i].tasks[id as int],
                    new_project@,
                ),
                Err(e) => final(projs).deep_view() == s && match e {
                    RustaskError::ProjectNotFound(n) => n@ == old_project@ && !has_project(
                        s,
                        old_project@,
                    ),
                    RustaskError::OutOfBounds(x) => x == id && has_project(s, old_project@) && id
                        >= s[i].tasks.len(),
                    _ => false,
                },
            }
        }),
{
    let task = match remove_task(projs, id, old_project) {
        Ok(t) => t,
        Err(e) => {
            return Err(e);
        },
    };
    match add_task(projs, task, new_project) {
        Ok(_) => Ok(()),
        Err(e) => Err(e),
    }
}

/// The collection after the project at `i` takes a new name: it leaves
/// its place and stands where the project order puts the renamed view.
pub open spec fn rename_result(s: Seq<ProjView>, i: int, name: Seq<char>) -> Seq<ProjView> {
    insert_project_sorted(s.remove(i), ProjView { name: name, tasks: s[i].tasks })
}

/// Renames a project. Fails without a trace when no project bears the
/// old name, or when any project — itself included — already bears the
/// new one.
pub fn rename(projs: &mut Vec<Project>, project: String, name: String) -> (r: Result<
    (),
    RustaskError,
>)
    ensures
        ({
            let s = old(projs).deep_view();
            let i = index_of_project(s, project@);
            match r {
                Ok(_) => has_project(s, project@) && !has_project(s, name@) && final(projs).deep_view() == rename_result(s, i, name@),
                Err(e) => final(projs).deep_view() == s && match e {
                    RustaskError::ProjectNotFound(n) => n@ == project@ && !has_project(s, project@),
                    RustaskError::ProjectNameTaken(n) => n@ == name@ && has_project(s, project@)
                        && has_project(s, name@),
                    _ => false,
                },
            }
        }),
{
    let ghost s = projs.deep_view();
    proof {
        lemma_index_of_project(s, project@);
    }
    let idx = match find_project(projs, &project) {
        Some(i) => i,
        None => {
            return Err(RustaskError::ProjectNotFound(project));
        },
    };
    if find_project(projs, &name).is_some() {
        return Err(RustaskError::ProjectNameTaken(name));
    }
    let ghost nv = name@;
    let mut p = projs.remove(idx);
    proof {
        assert(projs.deep_view() =~= s.remove(idx as int));
    }
    p.rename(name);
    let j = project_insert_position(projs, &p);
    proof {
        lemma_insert_ordered_at(projs.deep_view(), p@, proj_le_fn(), j as int);
    }
    proof {
        assert(p@ == (ProjView { name: nv, tasks: s[idx as int].tasks }));
    }
    projs.insert(j, p);
    proof {
        let removed = s.remove(idx as int);
        assert(projs.deep_view() =~= removed.subrange(0, j as int) + seq![
            ProjView { name: nv, tasks: s[idx as int].tasks },
        ] + removed.subrange(j as int, removed.len() as int));
        assert(projs.deep_view() =~= rename_result(s, idx as int, nv));
    }
    Ok(())
}

/// The standing shape of a collection between commands: projects
/// sorted by the project order with no two sharing a name, every
/// project's tasks sorted by the task order, and no project empty.
pub open spec fn collection_wf(s: Seq<ProjView>) -> bool {
    ordered(s, proj_le_fn()) && (forall|i: int, j: int|
        0 <= i < j < s.len() ==> (#[trigger] s[i]).name != (#[trigger] s[j]).name) && (forall|
        i: int,
    |
        0 <= i < s.len() ==> ordered((#[trigger] s[i]).tasks, crate::project::task_le_fn()))
        && (forall|i: int| 0 <= i < s.len() ==> (#[trigger] s[i]).tasks.len() > 0)
}

/// Replacing one project by a same-named one keeps the projects
/// ordered and their names distinct: names decide the order between
/// distinct projects of a well-formed collection.
proof fn lemma_update_same_name(s: Seq<ProjView>, i: int, p: ProjView)
    requires
        0 <= i < s.len(),
        ordered(s, proj_le_fn()),
        forall|k: int, l: int|
            0 <= k < l < s.len() ==> (#[trigger] s[k]).name != (#[trigger] s[l]).name,
        p.name == s[i].name,
    ensures
        ordered(s.update(i, p), proj_le_fn()),
        forall|k: int, l: int|
            0 <= k < l < s.update(i, p).len() ==> (#[trigger] s.update(i, p)[k]).name != (
            #[trigger] s.update(i, p)[l]).name,
{
    let le = proj_le_fn();
    let r = s.update(i, p);
    assert forall|k: int, l: int| 0 <= k < l < r.len() implies #[trigger] le(r[k], r[l]) by {
        assert(le(s[k], s[l]));
        if k == i && l != i {
            assert(s[k].name != s[l].name);
            assert(chars_lt(s[k].name, s[l].name));
        } else if l == i && k != i {
            assert(s[k].name != s[l].name);
            assert(chars_lt(s[k].name, s[l].name));
        }
    }
}

/// Inserting a project under a fresh name keeps the projects ordered
/// and their names distinct.
proof fn lemma_insert_new_name(s: Seq<ProjView>, p: ProjView)
    requires
        ordered(s, proj_le_fn()),
        forall|k: int, l: int|
            0 <= k < l < s.len() ==> (#[trigger] s[k]).name != (#[trigger] s[l]).name,
        forall|k: int| 0 <= k < s.len() ==> (#[trigger] s[k]).name != p.name,
    ensures
        ordered(insert_project_sorted(s, p), proj_le_fn()),
        forall|k: int, l: int|
            0 <= k < l < insert_project_sorted(s, p).len() ==> (#[trigger] insert_project_sorted(
                s,
                p,
            )[k]).name != (#[trigger] insert_project_sorted(s, p)[l]).name,
{
    let le = proj_le_fn();
    assert forall|a: ProjView, b: ProjView| #[trigger] le(a, b) || #[trigger] le(b, a) by {
        lemma_proj_order(a, b, a);
    }
    assert forall|a: ProjView, b: ProjView, c: ProjView|
        #[trigger] le(a, b) && #[trigger] le(b, c) implies le(a, c) by {
        lemma_proj_order(a, b, c);
    }
    order::lemma_insert_ordered_sorted(s, p, le);
    order::lemma_insert_ordered_split(s, p, le);
    let r = insert_project_sorted(s, p);
    let j = choose|j: int|
        0 <= j <= s.len() && r == s.subrange(0, j) + seq![p] + s.subrange(j, s.len() as int);
    assert forall|k: int, l: int| 0 <= k < l < r.len() implies (#[trigger] r[k]).name != (
    #[trigger] r[l]).name by {
        let k0 = if k < j {
            k
        } else {
            k - 1
        };
        let l0 = if l < j {
            l
        } else {
            l - 1
        };
        if k == j {
            assert(r[l] == s[l0]);
        } else if l == j {
            assert(r[k] == s[k0]);
        } else {
            assert(r[k] == s[k0]);
            assert(r[l] == s[l0]);
        }
    }
}

/// Adding a task preserves the collection invariant: the target
/// project re-sorts around the new task, or a fresh one-task project
/// takes its ordered place under a name no other project bears.
pub proof fn lemma_add_task_wf(s: Seq<ProjView>, t: TaskView, name: Seq<char>)
    requires
        collection_wf(s),
    ensures
        collection_wf(add_task_result(s, t, name)),
{
    let r = add_task_result(s, t, name);
    if has_project(s, name) {
        lemma_index_of_project(s, name);
        let i = index_of_project(s, name);
        let p = ProjView { name: s[i].name, tasks: sort_tasks(s[i].tasks.push(t)) };
        lemma_sort_tasks_sorted(s[i].tasks.push(t));
        order::lemma_sort_ordered_len(s[i].tasks.push(t), task_le_fn());
        lemma_update_same_name(s, i, p);
        assert forall|k: int| 0 <= k < r.len() implies ordered(
            (#[trigger] r[k]).tasks,
            crate::project::task_le_fn(),
        ) && r[k].tasks.len() > 0 by {
            if k != i {
                assert(r[k] == s[k]);
            }
        }
    } else {
        let p = ProjView { name: name, tasks: seq![t] };
        assert forall|k: int| 0 <= k < s.len() implies (#[trigger] s[k]).name != p.name by {
            if s[k].name == name {
                assert(has_project(s, name));
            }
        }
        lemma_insert_new_name(s, p);
        order::lemma_insert_ordered_split(s, p, proj_le_fn());
        let j = choose|j: int|
            0 <= j <= s.len() && r == s.subrange(0, j) + seq![p] + s.subrange(j, s.len() as int);
        assert forall|k: int| 0 <= k < r.len() implies ordered(
            (#[trigger] r[k]).tasks,
            crate::project::task_le_fn(),
        ) && r[k].tasks.len() > 0 by {
            if k < j {
                assert(r[k] == s[k]);
            } else if k > j {
                assert(r[k] == s[k - 1]);
            } else {
                assert(r[k] == p);
            }
        }
    }
}

/// Removing a task preserves the collection invariant: either the
/// emptied project leaves whole, or the project keeps its name and its
/// remaining tasks keep their order.
#[verifier::rlimit(30)]
pub proof fn lemma_remove_task_wf(s: Seq<ProjView>, i: int, id: int)
    requires
        collection_wf(s),
        0 <= i < s.len(),
        0 <= id < s[i].tasks.len(),
    ensures
        collection_wf(remove_task_result(s, i, id)),
{
    let r = remove_task_result(s, i, id);
    if s[i].tasks.len() == 1 {
        order::lemma_ordered_remove(s, proj_le_fn(), i);
        assert forall|k: int, l: int| 0 <= k < l < r.len() implies (#[trigger] r[k]).name != (
        #[trigger] r[l]).name by {
            let k0 = if k < i {
                k
            } else {
                k + 1
            };
            let l0 = if l < i {
                l
            } else {
                l + 1
            };
            assert(r[k] == s[k0]);
            assert(r[l] == s[l0]);
        }
        assert forall|k: int| 0 <= k < r.len() implies ordered(
            (#[trigger] r[k]).tasks,
            crate::project::task_le_fn(),
        ) && r[k].tasks.len() > 0 by {
            let k0 = if k < i {
                k
            } else {
                k + 1
            };
            assert(r[k] == s[k0]);
        }
    } else {
        let p = ProjView { name: s[i].name, tasks: s[i].tasks.remove(id) };
        order::lemma_ordered_remove(s[i].tasks, crate::project::task_le_fn(), id);
        lemma_update_same_name(s, i, p);
        assert forall|k: int| 0 <= k < r.len() implies ordered(
            (#[trigger] r[k]).tasks,
            crate::project::task_le_fn(),
        ) && r[k].tasks.len() > 0 by {
            if k != i {
                assert(r[k] == s[k]);
            }
        }
    }
}

/// Editing a task preserves the collection invariant: the project
/// keeps its name and re-sorts around the edited task.
pub proof fn lemma_edit_task_wf(s: Seq<ProjView>, i: int, id: int, patch: TaskPatchView)
    requires
        collection_wf(s),
        0 <= i < s.len(),
        0 <= id < s[i].tasks.len(),
    ensures
        collection_wf(edit_task_result(s, i, id, patch)),
{
    let r = edit_task_result(s, i, id, patch);
    let edited = apply_patch(s[i].tasks[id], patch);
    let p = ProjView {
        name: s[i].name,
        tasks: sort_tasks(s[i].tasks.update(id, edited)),
    };
    lemma_sort_tasks_sorted(s[i].tasks.update(id, edited));
    order::lemma_sort_ordered_len(s[i].tasks.update(id, edited), task_le_fn());
    lemma_update_same_name(s, i, p);
    assert forall|k: int| 0 <= k < r.len() implies ordered(
        (#[trigger] r[k]).tasks,
        crate::project::task_le_fn(),
    ) && r[k].tasks.len() > 0 by {
        if k != i {
            assert(r[k] == s[k]);
        }
    }
}

/// The empty patch is a no-op: on a well-formed collection, editing
/// any task with a patch that sets nothing gives back the very same
/// collection, every task in its old place.
pub proof fn lemma_empty_patch_no_op(s: Seq<ProjView>, i: int, id: int, patch: TaskPatchView)
    requires
        collection_wf(s),
        0 <= i < s.len(),
        0 <= id < s[i].tasks.len(),
        patch.description is None,
        patch.priority is None,
        patch.deadline is None,
    ensures
        edit_task_result(s, i, id, patch) == s,
{
    crate::task::lemma_patch(s[i].tasks[id], patch);
    crate::project::lemma_patch_keeps_position(s[i].tasks, id, patch);
    assert((ProjView {
        name: s[i].name,
        tasks: sort_tasks(s[i].tasks.update(id, apply_patch(s[i].tasks[id], patch))),
    }) == s[i]);
    assert(edit_task_result(s, i, id, patch) =~= s);
}

/// Renaming a project to a name no project bears preserves the
/// collection invariant: the renamed project takes its new ordered
/// place with its tasks untouched.
pub proof fn lemma_rename_wf(s: Seq<ProjView>, i: int, name: Seq<char>)
    requires
        collection_wf(s),
        0 <= i < s.len(),
        !has_project(s, name),
    ensures
        collection_wf(rename_result(s, i, name)),
{
    let r = rename_result(s, i, name);
    let removed = s.remove(i);
    let p = ProjView { name: name, tasks: s[i].tasks };
    order::lemma_ordered_remove(s, proj_le_fn(), i);
    assert forall|k: int, l: int| 0 <= k < l < removed.len() implies (
    #[trigger] removed[k]).name != (#[trigger] removed[l]).name by {
        let k0 = if k < i {
            k
        } else {
            k + 1
        };
        let l0 = if l < i {
            l
        } else {
            l + 1
        };
        assert(removed[k] == s[k0]);
        assert(removed[l] == s[l0]);
    }
    assert forall|k: int| 0 <= k < removed.len() implies (#[trigger] removed[k]).name
        != p.name by {
        let k0 = if k < i {
            k
        } else {
            k + 1
        };
        assert(removed[k] == s[k0]);
        if s[k0].name == name {
            assert(has_project(s, name));
        }
    }
    lemma_insert_new_name(removed, p);
    order::lemma_insert_ordered_split(removed, p, proj_le_fn());
    let j = choose|j: int|
        0 <= j <= removed.len() && r == removed.subrange(0, j) + seq![p] + removed.subrange(
            j,
            removed.len() as int,
        );
    assert forall|k: int| 0 <= k < r.len() implies ordered(
        (#[trigger] r[k]).tasks,
        crate::project::task_le_fn(),
    ) && r[k].tasks.len() > 0 by {
        if k < j {
            assert(r[k] == removed[k]);
            assert(removed[k] == s[if k < i {
                k
            } else {
                k + 1
            }]);
        } else if k > j {
            assert(r[k] == removed[k - 1]);
            assert(removed[k - 1] == s[if k - 1 < i {
                k - 1
            } else {
                k
            }]);
        } else {
            assert(r[k] == p);
        }
    }
}

/// Moving a task preserves the collection invariant: it composes a
/// removal with an addition, each of which preserves it.
pub proof fn lemma_move_task_wf(s: Seq<ProjView>, i: int, id: int, name: Seq<char>)
    requires
        collection_wf(s),
        0 <= i < s.len(),
        0 <= id < s[i].tasks.len(),
    ensures
        collection_wf(add_task_result(remove_task_result(s, i, id), s[i].tasks[id], name)),
{
    lemma_remove_task_wf(s, i, id);
    lemma_add_task_wf(remove_task_result(s, i, id), s[i].tasks[id], name);
}

/// Mathematical value of one listed task.
pub struct EntryView {
    pub index: int,
    pub task: TaskView,
}

/// One listed task: the position it holds in its project right now,
/// and the task itself. The position is only valid until the next
/// mutation of the collection.
#[derive(Debug)]
pub struct ListEntry {
    pub index: usize,
    pub task: Task,
}

impl View for ListEntry {
    type V = EntryView;

    open spec fn view(&self) -> EntryView {
        EntryView { index: self.index as int, task: self.task@ }
    }
}

impl DeepView for ListEntry {
    type V = EntryView;

    open spec fn deep_view(&self) -> EntryView {
        self.view()
    }
}

/// Mathematical value of one project's listing.
pub struct ListingView {
    pub name: Seq<char>,
    pub count: int,
    pub entries: Seq<EntryView>,
}

/// The listing of one project: its name, how many tasks it holds in
/// all, and the entries that the view shows.
#[derive(Debug)]
pub struct Listing {
    pub name: String,
    pub count: usize,
    pub entries: Vec<ListEntry>,
}

impl View for Listing {
    type V = ListingView;

    open spec fn view(&self) -> ListingView {
        ListingView { name: self.name@, count: self.count as int, entries: self.entries.deep_view() }
    }
}

impl DeepView for Listing {
    type V = ListingView;

    open spec fn deep_view(&self) -> ListingView {
        self.view()
    }
}

impl Listing {
    /// The listing's header line: the project's name and how many
    /// tasks it holds in all, with the unit pluralised.
    pub fn header(&self) -> (r: String)
        ensures
            r@ == self@.name + ": "@ + crate::task::plural_unit(self@.count, " task"@),
    {
        crate::task::header_line(self.name.as_str(), self.count)
    }
}

/// Every task of a project, each at its position.
pub open spec fn full_entries(ts: Seq<TaskView>) -> Seq<EntryView> {
    Seq::new(ts.len(), |i: int| EntryView { index: i, task: ts[i] })
}

/// The unfiltered listing of a project.
pub open spec fn full_listing(p: ProjView) -> ListingView {
    ListingView { name: p.name, count: p.tasks.len() as int, entries: full_entries(p.tasks) }
}

/// What any selective listing of a task sequence satisfies: entries
/// carry their true positions in ascending order, each shows the task
/// that stands there, and every task of the two top priority ranks is
/// among them. Which lower-ranked tasks appear is the draw's affair.
pub open spec fn valid_selection(ts: Seq<TaskView>, es: Seq<EntryView>) -> bool {
    (forall|k: int|
        0 <= k < es.len() ==> 0 <= (#[trigger] es[k]).index < ts.len() && es[k].task == ts[es[
            k
        ].index]) && (forall|k1: int, k2: int|
        0 <= k1 < k2 < es.len() ==> es[k1].index < es[k2].index) && (forall|j: int|
        0 <= j < ts.len() && eff_rank((#[trigger] ts[j]).priority) <= 1 ==> exists|k: int|
            0 <= k < es.len() && (#[trigger] es[k]).index == j)
}

/// A correct selective listing of a project.
pub open spec fn valid_selective_listing(p: ProjView, l: ListingView) -> bool {
    l.name == p.name && l.count == p.tasks.len() && valid_selection(p.tasks, l.entries)
}

/// The unfiltered listing of one project.
fn listing_of(p: &Project) -> (l: Listing)
    ensures
        l@ == full_listing(p@),
{
    let mut entries: Vec<ListEntry> = Vec::new();
    let n = p.tasks.len();
    let mut i: usize = 0;
    while i < n
        invariant
            n == p.tasks@.len(),
            i <= n,
            entries@.len() == i,
            forall|k: int|
                0 <= k < i ==> (#[trigger] entries@[k])@ == (EntryView {
                    index: k,
                    task: p.tasks@[k]@,
                }),
        decreases n - i,
    {
        entries.push(ListEntry { index: i, task: p.tasks[i].clone() });
        i = i + 1;
    }
    let l = Listing { name: p.name.clone(), count: n, entries };
    proof {
        assert forall|k: int| 0 <= k < n implies l.entries.deep_view()[k] == full_entries(
            p@.tasks,
        )[k] by {
            assert((entries@[k])@ == (EntryView { index: k, task: p.tasks@[k]@ }));
        }
        assert(l.entries.deep_view() =~= full_entries(p@.tasks));
    }
    l
}

/// A selective listing of one project: each task is shown or hidden by
/// its own weighted coin flip, except that the two top priority ranks
/// always show.
fn selective_listing(p: &Project) -> (l: Listing)
    ensures
        valid_selective_listing(p@, l@),
{
    let mut entries: Vec<ListEntry> = Vec::new();
    let n = p.tasks.len();
    let mut i: usize = 0;
    while i < n
        invariant
            n == p.tasks@.len(),
            i <= n,
            forall|k: int|
                0 <= k < entries@.len() ==> 0 <= (#[trigger] entries.deep_view()[k]).index < i
                    && entries.deep_view()[k].task == p.tasks.deep_view()[entries.deep_view()[
                    k
                ].index],
            forall|k1: int, k2: int|
                0 <= k1 < k2 < entries@.len() ==> entries.deep_view()[k1].index
                    < entries.deep_view()[k2].index,
            forall|j: int|
                0 <= j < i && eff_rank((#[trigger] p.tasks.deep_view()[j]).priority) <= 1
                    ==> exists|k: int|
                    0 <= k < entries@.len() && (#[trigger] entries.deep_view()[k]).index == j,
        decreases n - i,
    {
        let ghost prev = entries.deep_view();
        let shown = p.tasks[i].select();
        if shown {
            entries.push(ListEntry { index: i, task: p.tasks[i].clone() });
        }
        proof {
            if shown {
                assert(entries.deep_view() =~= prev.push(
                    EntryView { index: i as int, task: p.tasks.deep_view()[i as int] },
                ));
            }
            assert forall|j: int|
                0 <= j < i + 1 && eff_rank((#[trigger] p.tasks.deep_view()[j]).priority)
                    <= 1 implies exists|k: int|
                0 <= k < entries@.len() && (#[trigger] entries.deep_view()[k]).index == j by {
                if j < i {
                    let k = choose|k: int| 0 <= k < prev.len() && (#[trigger] prev[k]).index == j;
                    assert(entries.deep_view()[k].index == j);
                } else {
                    assert(shown);
                    assert(entries.deep_view()[entries@.len() - 1].index == j);
                }
            }
        }
        i = i + 1;
    }
    let l = Listing { name: p.name.clone(), count: n, entries };
    l
}

/// Lists every task unfiltered: of the named project when one is
/// given — failing when none bears the name — or of every project in
/// collection order.
pub fn list_all(projs: &Vec<Project>, project: Option<String>) -> (r: Result<
    Vec<Listing>,
    RustaskError,
>)
    ensures
        ({
            let s = projs.deep_view();
            match project {
                None => r matches Ok(ls) && ls.deep_view() == Seq::new(
                    s.len(),
                    |i: int| full_listing(s[i]),
                ),
                Some(name) => if has_project(s, name@) {
                    r matches Ok(ls) && ls.deep_view() == seq![
                        full_listing(s[index_of_project(s, name@)]),
                    ]
                } else {
                    r matches Err(e) && e is ProjectNotFound && e->ProjectNotFound_0@ == name@
                },
            }
        }),
{
    match project {
        None => {
            let mut ls: Vec<Listing> = Vec::new();
            let n = projs.len();
            let mut i: usize = 0;
            while i < n
                invariant
                    n == projs@.len(),
                    i <= n,
                    ls@.len() == i,
                    forall|k: int|
                        0 <= k < i ==> (#[trigger] ls@[k])@ == full_listing(projs.deep_view()[k]),
                decreases n - i,
            {
                let l = listing_of(&projs[i]);
                let ghost lv = l@;
                ls.push(l);
                proof {
                    assert(projs.deep_view()[i as int] == projs@[i as int]@);
                    assert(lv == full_listing(projs.deep_view()[i as int]));
                    assert(forall|k: int|
                        0 <= k < i + 1 ==> (#[trigger] ls@[k])@ == full_listing(
                            projs.deep_view()[k],
                        ));
                }
                i = i + 1;
            }
            proof {
                assert forall|k: int| 0 <= k < n implies ls.deep_view()[k] == full_listing(
                    projs.deep_view()[k],
                ) by {
                    assert(ls.deep_view()[k] == ls@[k]@);
                }
                assert(ls.deep_view() =~= Seq::new(
                    projs.deep_view().len(),
                    |i: int| full_listing(projs.deep_view()[i]),
                ));
            }
            Ok(ls)
        },
        Some(name) => {
            match find_project(projs, &name) {
                Some(i) => {
                    proof {
                        lemma_index_of_project(projs.deep_view(), name@);
                    }
                    let mut ls: Vec<Listing> = Vec::new();
                    let l = listing_of(&projs[i]);
                    let ghost lv = l@;
                    ls.push(l);
                    proof {
                        assert(lv == full_listing(projs.deep_view()[i as int]));
                        assert(ls.deep_view() =~= seq![lv]);
                    }
                    Ok(ls)
                },
                None => Err(RustaskError::ProjectNotFound(name)),
            }
        },
    }
}

/// Lists tasks through the selective filter: of the named project when
/// one is given — failing when none bears the name — or of every
/// project in collection order. Each call flips fresh coins, so two
/// listings of the same collection may differ; only the two top
/// priority ranks are certain to appear.
pub fn list(projs: &Vec<Project>, project: Option<String>) -> (r: Result<
    Vec<Listing>,
    RustaskError,
>)
    ensures
        ({
            let s = projs.deep_view();
            match project {
                None => r matches Ok(ls) && ls.deep_view().len() == s.len() && forall|i: int|
                    0 <= i < s.len() ==> valid_selective_listing(
                        s[i],
                        #[trigger] ls.deep_view()[i],
                    ),
                Some(name) => if has_project(s, name@) {
                    r matches Ok(ls) && ls.deep_view().len() == 1 && valid_selective_listing(
                        s[index_of_project(s, name@)],
                        ls.deep_view()[0],
                    )
                } else {
                    r matches Err(e) && e is ProjectNotFound && e->ProjectNotFound_0@ == name@
                },
            }
        }),
{
    match project {
        None => {
            let mut ls: Vec<Listing> = Vec::new();
            let n = projs.len();
            let mut i: usize = 0;
            while i < n
                invariant
                    n == projs@.len(),
                    i <= n,
                    ls@.len() == i,
                    forall|k: int|
                        0 <= k < i ==> valid_selective_listing(
                            projs.deep_view()[k],
                            (#[trigger] ls@[k])@,
                        ),
                decreases n - i,
            {
                let l = selective_listing(&projs[i]);
                let ghost lv = l@;
                ls.push(l);
                proof {
                    assert(projs.deep_view()[i as int] == projs@[i as int]@);
                    assert(valid_selective_listing(projs.deep_view()[i as int], lv));
                    assert(forall|k: int|
                        0 <= k < i + 1 ==> valid_selective_listing(
                            projs.deep_view()[k],
                            (#[trigger] ls@[k])@,
                        ));
                }
                i = i + 1;
            }
            proof {
                assert forall|k: int| 0 <= k < n implies valid_selective_listing(
                    projs.deep_view()[k],
                    #[trigger] ls.deep_view()[k],
                ) by {
                    assert(ls.deep_view()[k] == ls@[k]@);
                }
            }
            Ok(ls)
        },
        Some(name) => {
            match find_project(projs, &name) {
                Some(i) => {
                    proof {
                        lemma_index_of_project(projs.deep_view(), name@);
                    }
                    let mut ls: Vec<Listing> = Vec::new();
                    let l = selective_listing(&projs[i]);
                    let ghost lv = l@;
                    ls.push(l);
                    proof {
                        assert(ls.deep_view() =~= seq![lv]);
                    }
                    Ok(ls)
                },
                None => Err(RustaskError::ProjectNotFound(name)),
            }
        },
    }
}

} // verus!
