//! A project: a named group of tasks, kept sorted by the task order
//! through every insertion, removal and edit.

use vstd::prelude::*;

use crate::error::RustaskError;
use crate::order::{lemma_insert_ordered_at, lemma_sort_ordered_sorted, ordered, sort_ordered};
use crate::task::{apply_patch, eff_rank, lemma_task_le_transitive, lemma_task_order, task_le,
    Task, TaskPatch, TaskPatchView, TaskView};

verus! {

/// Mathematical value of a project.
pub struct ProjView {
    pub name: Seq<char>,
    pub tasks: Seq<TaskView>,
}

/// The task order as a function value, for the ordered-sequence specs.
pub open spec fn task_le_fn() -> spec_fn(TaskView, TaskView) -> bool {
    |a: TaskView, b: TaskView| task_le(a, b)
}

/// A task sequence stably sorted by the task order: elements are
/// taken left to right, each going after the ones already placed that
/// compare at-or-below it, so tasks with equal keys keep their
/// relative order.
pub open spec fn sort_tasks(s: Seq<TaskView>) -> Seq<TaskView> {
    sort_ordered(s, task_le_fn())
}

/// Sorting an already sorted task sequence changes nothing.
pub proof fn lemma_sort_tasks_identity(s: Seq<TaskView>)
    requires
        ordered(s, task_le_fn()),
    ensures
        sort_tasks(s) == s,
{
    crate::order::lemma_sort_ordered_identity(s, task_le_fn());
}

/// An edit that keeps the sort key moves nothing: on a sorted task
/// sequence, a patch that keeps the task's effective priority rank and
/// description leaves every task exactly where it stood through the
/// re-sort, and the empty patch brings the sequence back exactly as it
/// was.
pub proof fn lemma_patch_keeps_position(s: Seq<TaskView>, id: int, p: TaskPatchView)
    requires
        ordered(s, task_le_fn()),
        0 <= id < s.len(),
        eff_rank(apply_patch(s[id], p).priority) == eff_rank(s[id].priority),
        apply_patch(s[id], p).description == s[id].description,
    ensures
        sort_tasks(s.update(id, apply_patch(s[id], p))) == s.update(id, apply_patch(s[id], p)),
        p.description is None && p.priority is None && p.deadline is None ==> sort_tasks(
            s.update(id, apply_patch(s[id], p)),
        ) == s,
{
    let u = s.update(id, apply_patch(s[id], p));
    let le = task_le_fn();
    assert forall|i: int, j: int| 0 <= i < j < u.len() implies #[trigger] le(u[i], u[j]) by {
        assert(le(s[i], s[j]));
    }
    assert(ordered(u, le));
    lemma_sort_tasks_identity(u);
    if p.description is None && p.priority is None && p.deadline is None {
        crate::task::lemma_patch(s[id], p);
        assert(u =~= s);
    }
}

/// Sorting tasks sorts them: the stable sort of any task sequence is
/// ordered under the task order.
pub proof fn lemma_sort_tasks_sorted(s: Seq<TaskView>)
    ensures
        ordered(sort_tasks(s), task_le_fn()),
{
    let le = task_le_fn();
    assert forall|a: TaskView, b: TaskView| #[trigger] le(a, b) || #[trigger] le(b, a) by {
        lemma_task_order(a, b);
    }
    assert forall|a: TaskView, b: TaskView, c: TaskView|
        #[trigger] le(a, b) && #[trigger] le(b, c) implies le(a, c) by {
        lemma_task_le_transitive(a, b, c);
    }
    lemma_sort_ordered_sorted(s, le);
}

/// A named, ordered group of tasks.
#[derive(Debug)]
pub struct Project {
    pub name: String,
    pub tasks: Vec<Task>,
}

impl View for Project {
    type V = ProjView;

    open spec fn view(&self) -> ProjView {
        ProjView { name: self.name@, tasks: self.tasks.deep_view() }
    }
}

impl DeepView for Project {
    type V = ProjView;

    open spec fn deep_view(&self) -> ProjView {
        self.view()
    }
}

impl Clone for Project {
    fn clone(&self) -> (r: Project)
        ensures
            r@ == self@,
    {
        let mut tasks: Vec<Task> = Vec::new();
        let mut i: usize = 0;
        let n = self.tasks.len();
        while i < n
            invariant
                n == self.tasks@.len(),
                i <= n,
                tasks@.len() == i,
                forall|j: int| 0 <= j < i ==> (#[trigger] tasks@[j])@ == self.tasks@[j]@,
            decreases n - i,
        {
            tasks.push(self.tasks[i].clone());
            i = i + 1;
        }
        let r = Project { name: self.name.clone(), tasks };
        proof {
            assert forall|j: int| 0 <= j < n implies r.tasks.deep_view()[j]
                == self.tasks.deep_view()[j] by {
                assert(r.tasks@[j]@ == self.tasks@[j]@);
            }
            assert(r.tasks.deep_view() =~= self.tasks.deep_view());
        }
        r
    }
}

impl PartialEq for Project {
    fn eq(&self, other: &Project) -> (r: bool) {
        if self.name != other.name {
            return false;
        }
        if self.tasks.len() != other.tasks.len() {
            proof {
                assert(self.tasks.deep_view().len() == self.tasks@.len());
                assert(other.tasks.deep_view().len() == other.tasks@.len());
            }
            return false;
        }
        let n = self.tasks.len();
        let mut i: usize = 0;
        while i < n
            invariant
                n == self.tasks@.len(),
                n == other.tasks@.len(),
                i <= n,
                forall|j: int| 0 <= j < i ==> (#[trigger] self.tasks@[j])@ == other.tasks@[j]@,
            decreases n - i,
        {
            if self.tasks[i] != other.tasks[i] {
                proof {
                    assert(self.tasks.deep_view()[i as int] == self.tasks@[i as int]@);
                    assert(other.tasks.deep_view()[i as int] == other.tasks@[i as int]@);
                }
                return false;
            }
            i = i + 1;
        }
        proof {
            assert forall|j: int| 0 <= j < n implies self.tasks.deep_view()[j]
                == other.tasks.deep_view()[j] by {
                assert(self.tasks@[j]@ == other.tasks@[j]@);
            }
            assert(self.tasks.deep_view() =~= other.tasks.deep_view());
        }
        true
    }
}

impl vstd::std_specs::cmp::PartialEqSpecImpl for Project {
    open spec fn obeys_eq_spec() -> bool {
        true
    }

    open spec fn eq_spec(&self, other: &Project) -> bool {
        self@ == other@
    }
}

/// The index a task sorts to: the first position whose task does not
/// compare at-or-below the new one.
pub(crate) fn insert_position(tasks: &Vec<Task>, t: &Task) -> (j: usize)
    ensures
        j <= tasks@.len(),
        forall|k: int| 0 <= k < j ==> task_le(#[trigger] tasks.deep_view()[k], t@),
        j < tasks@.len() ==> !task_le(tasks.deep_view()[j as int], t@),
{
    let n = tasks.len();
    let mut j: usize = 0;
    while j < n
        invariant
            n == tasks@.len(),
            j <= n,
            forall|k: int| 0 <= k < j ==> task_le(#[trigger] tasks.deep_view()[k], t@),
        decreases n - j,
    {
        if !tasks[j].le(t) {
            return j;
        }
        j = j + 1;
    }
    j
}

/// Stably sorts a task vector in place by the task order.
pub(crate) fn sort_tasks_in_place(ts: &mut Vec<Task>)
    ensures
        final(ts).deep_view() == sort_tasks(old(ts).deep_view()),
{
    let ghost orig = ts.deep_view();
    let mut out: Vec<Task> = Vec::new();
    proof {
        assert(orig.take(0) =~= Seq::<TaskView>::empty());
    }
    while ts.len() > 0
        invariant
            out@.len() + ts@.len() == orig.len(),
            out.deep_view() == sort_tasks(orig.take(out@.len() as int)),
            forall|x: int| 0 <= x < ts@.len() ==> (#[trigger] ts@[x])@ == orig[out@.len() + x],
        decreases ts@.len(),
    {
        let ghost k = out@.len() as int;
        let t = ts.remove(0);
        proof {
            assert(t@ == orig[k]);
        }
        let j = insert_position(&out, &t);
        proof {
            lemma_insert_ordered_at(out.deep_view(), t@, task_le_fn(), j as int);
        }
        let ghost sorted_prev = out.deep_view();
        out.insert(j, t);
        proof {
            assert(out.deep_view() =~= sorted_prev.subrange(0, j as int) + seq![orig[k]]
                + sorted_prev.subrange(j as int, sorted_prev.len() as int));
            assert(orig.take(k + 1).drop_last() =~= orig.take(k));
            assert(orig.take(k + 1).last() == orig[k]);
            assert(out.deep_view() =~= sort_tasks(orig.take(k + 1)));
        }
    }
    proof {
        assert(orig.take(orig.len() as int) =~= orig);
    }
    *ts = out;
}

/// The project's invariant: its tasks stand sorted by the task order.
/// Construction establishes it and every method keeps it.
impl Project {
    pub open spec fn wf(&self) -> bool {
        ordered(self@.tasks, task_le_fn())
    }
}

impl Project {
    /// A project of the given name with no tasks yet.
    pub fn new(name: String) -> (p: Project)
        ensures
            p@.name == name@,
            p@.tasks == Seq::<TaskView>::empty(),
            p.wf(),
    {
        let p = Project { name, tasks: Vec::new() };
        proof {
            assert(p.tasks.deep_view() =~= Seq::<TaskView>::empty());
        }
        p
    }

    /// Gives the project a new name; whether the name is free in the
    /// collection is the caller's concern, not the project's.
    pub fn rename(&mut self, name: String)
        ensures
            final(self)@.name == name@,
            final(self)@.tasks == old(self)@.tasks,
            final(self).wf() == old(self).wf(),
    {
        self.name = name;
    }

    /// Appends the task and stably re-sorts the full sequence: among
    /// tasks that compare equal, the new one comes last and the rest
    /// keep their relative order.
    pub fn push(&mut self, t: Task)
        ensures
            final(self)@.name == old(self)@.name,
            final(self)@.tasks == sort_tasks(old(self)@.tasks.push(t@)),
            final(self).wf(),
    {
        let ghost tv = t@;
        self.tasks.push(t);
        proof {
            assert(self.tasks.deep_view() =~= old(self).tasks.deep_view().push(tv));
        }
        sort_tasks_in_place(&mut self.tasks);
        proof {
            lemma_sort_tasks_sorted(old(self).tasks.deep_view().push(tv));
        }
    }

    /// Removes and returns the task at `id`, shifting the later ones
    /// down by one; an index at or past the end is out of range and
    /// leaves the project untouched.
    pub fn remove(&mut self, id: usize) -> (r: Result<Task, RustaskError>)
        ensures
            match r {
                Ok(t) => id < old(self)@.tasks.len() && t@ == old(self)@.tasks[id as int]
                    && final(self)@.name == old(self)@.name
                    && final(self)@.tasks == old(self)@.tasks.remove(id as int)
                    && (old(self).wf() ==> final(self).wf()),
                Err(e) => id >= old(self)@.tasks.len() && e is OutOfBounds && e->OutOfBounds_0
                    == id && *final(self) == *old(self),
            },
    {
        if id >= self.tasks.len() {
            return Err(RustaskError::OutOfBounds(id));
        }
        let t = self.tasks.remove(id);
        proof {
            assert(self.tasks.deep_view() =~= old(self).tasks.deep_view().remove(id as int));
            if ordered(old(self).tasks.deep_view(), task_le_fn()) {
                crate::order::lemma_ordered_remove(
                    old(self).tasks.deep_view(),
                    task_le_fn(),
                    id as int,
                );
            }
        }
        Ok(t)
    }

    /// Applies a partial update to the task at `id` in place, then
    /// stably re-sorts the full sequence. A patch that keeps the
    /// task's effective priority rank and description — the empty
    /// patch in particular — provably moves nothing
    /// (`lemma_patch_keeps_position`). An index at or past the end is
    /// out of range and leaves the project untouched.
    pub fn edit(&mut self, id: usize, patch: TaskPatch) -> (r: Result<(), RustaskError>)
        ensures
            match r {
                Ok(_) => id < old(self)@.tasks.len() && final(self)@.name == old(self)@.name
                    && final(self)@.tasks == sort_tasks(
                    old(self)@.tasks.update(
                        id as int,
                        apply_patch(old(self)@.tasks[id as int], patch@),
                    ),
                ) && final(self).wf(),
                Err(e) => id >= old(self)@.tasks.len() && e is OutOfBounds && e->OutOfBounds_0
                    == id && *final(self) == *old(self),
            },
    {
        if id >= self.tasks.len() {
            return Err(RustaskError::OutOfBounds(id));
        }
        let mut t = self.tasks.remove(id);
        if let Some(d) = patch.description {
            t.description = d;
        }
        if let Some(p) = patch.priority {
            t.priority = Some(p);
        }
        if let Some(dl) = patch.deadline {
            t.deadline = Some(dl);
        }
        assert(t@ == apply_patch(old(self)@.tasks[id as int], patch@));
        let ghost tv = t@;
        self.tasks.insert(id, t);
        proof {
            assert(self.tasks.deep_view() =~= old(self).tasks.deep_view().update(id as int, tv));
        }
        sort_tasks_in_place(&mut self.tasks);
        proof {
            lemma_sort_tasks_sorted(old(self).tasks.deep_view().update(id as int, tv));
        }
        Ok(())
    }

    /// The tasks, in their sorted order.
    pub fn tasks(&self) -> (r: &Vec<Task>)
        ensures
            r.deep_view() == self@.tasks,
    {
        &self.tasks
    }

    /// How many tasks the project holds.
    pub fn len(&self) -> (n: usize)
        ensures
            n == self@.tasks.len(),
    {
        self.tasks.len()
    }

    /// The project's header line: its name and how many tasks it
    /// holds, with the unit pluralised.
    pub fn summary(&self) -> (r: String)
        ensures
            r@ == self@.name + ": "@ + crate::task::plural_unit(
                self@.tasks.len() as int,
                " task"@,
            ),
    {
        crate::task::header_line(self.name.as_str(), self.tasks.len())
    }
}

} // verus!
