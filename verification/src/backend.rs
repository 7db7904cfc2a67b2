//! The part of a task backend that statistics read: each task's type, its
//! timing figures and the tasks it refers to.
use vstd::prelude::*;
use crate::assoc::{keys_distinct, map_of, lemma_map_of_dom, lemma_map_of_index, lemma_map_of_update, lemma_map_of_push};
use crate::task_type::{Duration, ReferenceType, TaskId, TaskType, TaskTypeView};

verus! {

/// What the backend knows of one task.
pub struct Task {
    pub id: TaskId,
    pub stats_type: TaskType,
    /// Total time of the task's executions.
    pub duration: Duration,
    /// Time of the last execution.
    pub last_duration: Duration,
    /// How often the task was executed.
    pub executions: u32,
    /// Whether the task is a root of the graph.
    pub root: bool,
    /// How many scopes the task belongs to.
    pub scopes: usize,
    /// Outgoing references: each referenced task, with the kind of reference.
    pub references: Vec<(ReferenceType, TaskId)>,
}

/// A task as a mathematical value.
pub struct TaskView {
    pub id: TaskId,
    pub stats_type: TaskTypeView,
    pub duration: nat,
    pub last_duration: nat,
    pub executions: nat,
    pub root: bool,
    pub scopes: nat,
    pub references: Seq<(ReferenceType, TaskId)>,
}

impl View for Task {
    type V = TaskView;

    open spec fn view(&self) -> TaskView {
        TaskView {
            id: self.id,
            stats_type: self.stats_type@,
            duration: self.duration@,
            last_duration: self.last_duration@,
            executions: self.executions as nat,
            root: self.root,
            scopes: self.scopes as nat,
            references: self.references@,
        }
    }
}

impl Task {
    /// The type under which the task is counted.
    pub fn get_stats_type(&self) -> (r: TaskType)
        ensures
            r@ == self.stats_type@,
    {
        self.stats_type.clone()
    }

    /// Total duration, last duration, executions, whether it is a root, and
    /// its number of scopes.
    pub fn get_stats_info(&self) -> (r: (Duration, Duration, u32, bool, usize))
        ensures
            r.0@ == self.duration@,
            r.1@ == self.last_duration@,
            r.2 == self.executions,
            r.3 == self.root,
            r.4 == self.scopes,
    {
        (self.duration, self.last_duration, self.executions, self.root, self.scopes)
    }

    /// The references of the task, in the order it holds them.
    pub fn get_stats_references(&self) -> (r: Vec<(ReferenceType, TaskId)>)
        ensures
            r@ == self.references@,
    {
        let mut r: Vec<(ReferenceType, TaskId)> = Vec::new();
        let n = self.references.len();
        for i in 0..n
            invariant
                n == self.references@.len(),
                r@ == self.references@.take(i as int),
        {
            r.push(self.references[i]);
            assert(self.references@.take(i + 1) =~= self.references@.take(i as int).push(
                self.references@[i as int],
            ));
        }
        assert(self.references@.take(n as int) =~= self.references@);
        r
    }
}

/// The pairs of task id and task that a list of tasks holds.
pub open spec fn task_entries(tasks: Seq<Task>) -> Seq<(TaskId, TaskView)> {
    tasks.map_values(|t: Task| (t.id, t@))
}

/// The tasks of a backend, each under its own id.
pub struct MemoryBackend {
    tasks: Vec<Task>,
}

impl View for MemoryBackend {
    type V = Map<TaskId, TaskView>;

    closed spec fn view(&self) -> Map<TaskId, TaskView> {
        map_of(task_entries(self.tasks@))
    }
}

impl MemoryBackend {
    #[verifier::type_invariant]
    spec fn ids_distinct(self) -> bool {
        keys_distinct(task_entries(self.tasks@))
    }

    /// A backend without tasks.
    pub fn new() -> (r: MemoryBackend)
        ensures
            r@ == Map::<TaskId, TaskView>::empty(),
    {
        let r = MemoryBackend { tasks: Vec::new() };
        assert(task_entries(r.tasks@) =~= Seq::empty());
        r
    }

    /// Stores a task under its id, replacing a task stored under that id.
    pub fn insert_task(&mut self, task: Task)
        ensures
            final(self)@ == old(self)@.insert(task.id, task@),
    {
        proof {
            use_type_invariant(&*self);
        }
        let mut tasks: Vec<Task> = Vec::new();
        std::mem::swap(&mut tasks, &mut self.tasks);
        let ghost old_tasks = tasks@;
        let n = tasks.len();
        let mut i: usize = 0;
        while i < n
            invariant
                n == tasks@.len(),
                tasks@ == old_tasks,
                keys_distinct(task_entries(old_tasks)),
                i <= n,
                forall|j: int| 0 <= j < i ==> old_tasks[j].id != task.id,
            ensures
                i <= n,
                i < n ==> old_tasks[i as int].id == task.id,
                forall|j: int| 0 <= j < i ==> old_tasks[j].id != task.id,
            decreases n - i,
        {
            if tasks[i].id == task.id {
                break;
            }
            i = i + 1;
        }
        let ghost es = task_entries(old_tasks);
        if i < n {
            let _ = tasks.remove(i);
            tasks.insert(i, task);
            proof {
                assert(tasks@ =~= old_tasks.update(i as int, task));
                assert(task_entries(tasks@) =~= es.update(i as int, (es[i as int].0, task@)));
                lemma_map_of_update(es, i as int, task@);
            }
        } else {
            proof {
                lemma_map_of_dom(es);
                assert(!map_of(es).dom().contains(task.id));
                lemma_map_of_push(es, task.id, task@);
            }
            tasks.push(task);
            proof {
                assert(task_entries(tasks@) =~= es.push((task.id, task@)));
            }
        }
        self.tasks = tasks;
    }

    /// The task stored under `id`, if any.
    pub fn task(&self, id: TaskId) -> (r: Option<&Task>)
        ensures
            r is Some <==> self@.dom().contains(id),
            r matches Some(t) ==> t@ == self@[id] && t.id == id,
    {
        proof {
            use_type_invariant(self);
            lemma_map_of_dom(task_entries(self.tasks@));
        }
        let n = self.tasks.len();
        for i in 0..n
            invariant
                n == self.tasks@.len(),
                keys_distinct(task_entries(self.tasks@)),
                forall|j: int| 0 <= j < i ==> self.tasks@[j].id != id,
        {
            if self.tasks[i].id == id {
                proof {
                    lemma_map_of_index(task_entries(self.tasks@), i as int);
                }
                return Some(&self.tasks[i]);
            }
        }
        proof {
            assert forall|j: int| 0 <= j < task_entries(self.tasks@).len() implies task_entries(
                self.tasks@,
            )[j].0 != id by {
                assert(task_entries(self.tasks@)[j].0 == self.tasks@[j].id);
            }
        }
        None
    }

    /// The ids of all stored tasks.
    pub fn task_ids(&self) -> (r: Vec<TaskId>)
        ensures
            forall|id: TaskId| self@.dom().contains(id) <==> r@.contains(id),
    {
        proof {
            use_type_invariant(self);
            lemma_map_of_dom(task_entries(self.tasks@));
        }
        let mut r: Vec<TaskId> = Vec::new();
        let n = self.tasks.len();
        for i in 0..n
            invariant
                n == self.tasks@.len(),
                r@.len() == i,
                forall|j: int| 0 <= j < i ==> r@[j] == self.tasks@[j].id,
        {
            r.push(self.tasks[i].id);
        }
        proof {
            assert forall|id: TaskId| self@.dom().contains(id) <==> r@.contains(id) by {
                if r@.contains(id) {
                    let j = choose|j: int| 0 <= j < r@.len() && r@[j] == id;
                    assert(task_entries(self.tasks@)[j].0 == id);
                }
                if self@.dom().contains(id) {
                    let j = choose|j: int|
                        0 <= j < task_entries(self.tasks@).len() && task_entries(
                            self.tasks@,
                        )[j].0 == id;
                    assert(r@[j] == id);
                }
            }
        }
        r
    }
}

} // verus!
