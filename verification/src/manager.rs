//! The bookkeeping of the task engine: task ids, the tasks it holds, and the
//! caches that make a call with the same function and inputs reuse the task
//! that a first call created.
use vstd::prelude::*;
use crate::assoc::{keys_distinct, map_of, lemma_map_of_dom, lemma_map_of_index, lemma_map_of_push};
use crate::task_type::{FunctionId, TaskId, TraitTypeId};

verus! {

/// An input of a task call.
#[derive(Clone, Copy, PartialEq, Eq, Structural, Debug, Hash)]
pub enum TaskInput {
    /// The output of a task, not yet resolved to a cell.
    TaskOutput(TaskId),
    /// A cell of a task.
    TaskCell(TaskId, usize),
    /// No value.
    Nothing,
    Bool(bool),
    Usize(usize),
    U32(u32),
    I32(i32),
}

impl TaskInput {
    /// The input points to a cell or holds a value, not a task's output.
    pub fn is_resolved(&self) -> (r: bool)
        ensures
            r == !(*self is TaskOutput),
    {
        match self {
            TaskInput::TaskOutput(_) => false,
            _ => true,
        }
    }

    /// The input holds no value.
    pub fn is_nothing(&self) -> (r: bool)
        ensures
            r == (*self is Nothing),
    {
        match self {
            TaskInput::Nothing => true,
            _ => false,
        }
    }
}

/// A reference to a task's output or to one of its cells.
#[derive(Clone, Copy, PartialEq, Eq, Structural, Debug, Hash)]
pub enum RawVc {
    TaskOutput(TaskId),
    TaskCell(TaskId, usize),
}

/// What a task runs.
#[derive(Debug)]
pub enum TaskKind {
    Root,
    Once,
    Native(FunctionId, Vec<TaskInput>),
    ResolveNative(FunctionId, Vec<TaskInput>),
    ResolveTrait(TraitTypeId, String, Vec<TaskInput>),
}

/// What a task runs, as a mathematical value.
pub enum TaskKindView {
    Root,
    Once,
    Native(FunctionId, Seq<TaskInput>),
    ResolveNative(FunctionId, Seq<TaskInput>),
    ResolveTrait(TraitTypeId, Seq<char>, Seq<TaskInput>),
}

impl View for TaskKind {
    type V = TaskKindView;

    open spec fn view(&self) -> TaskKindView {
        match self {
            TaskKind::Root => TaskKindView::Root,
            TaskKind::Once => TaskKindView::Once,
            TaskKind::Native(f, i) => TaskKindView::Native(*f, i@),
            TaskKind::ResolveNative(f, i) => TaskKindView::ResolveNative(*f, i@),
            TaskKind::ResolveTrait(t, n, i) => TaskKindView::ResolveTrait(*t, n@, i@),
        }
    }
}

/// The key of a native or resolve call.
pub type CallKey = (FunctionId, Seq<TaskInput>);

/// The key of a trait call.
pub type TraitCallKey = (TraitTypeId, Seq<char>, Seq<TaskInput>);

/// The engine's state as mathematical values.
pub struct TurboTasksView {
    pub next_task_id: u32,
    /// The id counter has gone past the largest id and started again, so
    /// that ids may repeat.
    pub ids_wrapped: bool,
    pub tasks: Map<TaskId, TaskKindView>,
    pub native_task_cache: Map<CallKey, TaskId>,
    pub resolve_task_cache: Map<CallKey, TaskId>,
    pub trait_task_cache: Map<TraitCallKey, TaskId>,
    pub currently_scheduled_tasks: usize,
    pub scheduled_tasks: usize,
}

/// The entries of a call cache as key and id.
pub open spec fn call_entries(v: Seq<((FunctionId, Vec<TaskInput>), TaskId)>) -> Seq<(CallKey, TaskId)> {
    v.map_values(|e: ((FunctionId, Vec<TaskInput>), TaskId)| ((e.0.0, e.0.1@), e.1))
}

/// The entries of the trait call cache as key and id.
pub open spec fn trait_entries(v: Seq<((TraitTypeId, String, Vec<TaskInput>), TaskId)>) -> Seq<(TraitCallKey, TaskId)> {
    v.map_values(|e: ((TraitTypeId, String, Vec<TaskInput>), TaskId)| ((e.0.0, e.0.1@, e.0.2@), e.1))
}

/// The stored tasks as id and kind.
pub open spec fn task_kind_entries(v: Seq<(TaskId, TaskKind)>) -> Seq<(TaskId, TaskKindView)> {
    v.map_values(|e: (TaskId, TaskKind)| (e.0, e.1@))
}

/// The task engine's bookkeeping: the next free task id, the tasks, the
/// three call caches and the scheduling counters.
pub struct TurboTasks {
    next_task_id: u32,
    ids_wrapped: Ghost<bool>,
    memory_tasks: Vec<(TaskId, TaskKind)>,
    native_task_cache: Vec<((FunctionId, Vec<TaskInput>), TaskId)>,
    resolve_task_cache: Vec<((FunctionId, Vec<TaskInput>), TaskId)>,
    trait_task_cache: Vec<((TraitTypeId, String, Vec<TaskInput>), TaskId)>,
    currently_scheduled_tasks: usize,
    scheduled_tasks: usize,
}

impl View for TurboTasks {
    type V = TurboTasksView;

    closed spec fn view(&self) -> TurboTasksView {
        TurboTasksView {
            next_task_id: self.next_task_id,
            ids_wrapped: self.ids_wrapped@,
            tasks: map_of(task_kind_entries(self.memory_tasks@)),
            native_task_cache: map_of(call_entries(self.native_task_cache@)),
            resolve_task_cache: map_of(call_entries(self.resolve_task_cache@)),
            trait_task_cache: map_of(trait_entries(self.trait_task_cache@)),
            currently_scheduled_tasks: self.currently_scheduled_tasks,
            scheduled_tasks: self.scheduled_tasks,
        }
    }
}

/// The id after `id`, wrapping around as `AtomicU32::fetch_add` does.
pub open spec fn next_id(id: u32) -> u32 {
    if id == u32::MAX {
        0
    } else {
        (id + 1) as u32
    }
}

/// `x + 1`, wrapping around as `AtomicUsize::fetch_add` does.
pub open spec fn count_up(x: usize) -> usize {
    if x == usize::MAX {
        0
    } else {
        (x + 1) as usize
    }
}

/// `x - 1`, wrapping around as `AtomicUsize::fetch_sub` does.
pub open spec fn count_down(x: usize) -> usize {
    if x == 0 {
        usize::MAX
    } else {
        (x - 1) as usize
    }
}

/// Whether two input lists are equal.
fn inputs_eq(a: &Vec<TaskInput>, b: &Vec<TaskInput>) -> (r: bool)
    ensures
        r == (a@ == b@),
{
    if a.len() != b.len() {
        return false;
    }
    let n = a.len();
    for i in 0..n
        invariant
            n == a@.len(),
            n == b@.len(),
            forall|j: int| 0 <= j < i ==> a@[j] == b@[j],
    {
        if a[i] != b[i] {
            return false;
        }
    }
    assert(a@ =~= b@);
    true
}

fn copy_inputs(a: &Vec<TaskInput>) -> (r: Vec<TaskInput>)
    ensures
        r@ == a@,
{
    let mut r: Vec<TaskInput> = Vec::new();
    let n = a.len();
    for i in 0..n
        invariant
            n == a@.len(),
            r@ == a@.take(i as int),
    {
        r.push(a[i]);
        assert(a@.take(i + 1) =~= a@.take(i as int).push(a@[i as int]));
    }
    assert(a@.take(n as int) =~= a@);
    r
}

/// The id stored under `key` in a call cache, if any.
fn lookup_call(cache: &Vec<((FunctionId, Vec<TaskInput>), TaskId)>, func: FunctionId, inputs: &Vec<TaskInput>) -> (r: Option<TaskId>)
    requires
        keys_distinct(call_entries(cache@)),
    ensures
        r is Some <==> map_of(call_entries(cache@)).dom().contains((func, inputs@)),
        r matches Some(id) ==> map_of(call_entries(cache@))[(func, inputs@)] == id,
{
    let ghost es = call_entries(cache@);
    proof {
        lemma_map_of_dom(es);
    }
    let n = cache.len();
    for i in 0..n
        invariant
            n == cache@.len(),
            es == call_entries(cache@),
            keys_distinct(es),
            forall|j: int| 0 <= j < i ==> es[j].0 != (func, inputs@),
    {
        if cache[i].0.0.id == func.id && inputs_eq(&cache[i].0.1, inputs) {
            proof {
                assert(es[i as int].0 == (func, inputs@));
                lemma_map_of_index(es, i as int);
            }
            return Some(cache[i].1);
        }
    }
    proof {
        if map_of(es).dom().contains((func, inputs@)) {
            let j = choose|j: int| 0 <= j < es.len() && es[j].0 == (func, inputs@);
        }
    }
    None
}

/// The id stored under `key` in the trait call cache, if any.
fn lookup_trait_call(
    cache: &Vec<((TraitTypeId, String, Vec<TaskInput>), TaskId)>,
    trait_type: TraitTypeId,
    name: &String,
    inputs: &Vec<TaskInput>,
) -> (r: Option<TaskId>)
    requires
        keys_distinct(trait_entries(cache@)),
    ensures
        r is Some <==> map_of(trait_entries(cache@)).dom().contains((trait_type, name@, inputs@)),
        r matches Some(id) ==> map_of(trait_entries(cache@))[(trait_type, name@, inputs@)] == id,
{
    let ghost es = trait_entries(cache@);
    proof {
        lemma_map_of_dom(es);
    }
    let n = cache.len();
    for i in 0..n
        invariant
            n == cache@.len(),
            es == trait_entries(cache@),
            keys_distinct(es),
            forall|j: int| 0 <= j < i ==> es[j].0 != (trait_type, name@, inputs@),
    {
        if cache[i].0.0.id == trait_type.id && cache[i].0.1 == *name && inputs_eq(&cache[i].0.2, inputs) {
            proof {
                assert(es[i as int].0 == (trait_type, name@, inputs@));
                lemma_map_of_index(es, i as int);
            }
            return Some(cache[i].1);
        }
    }
    proof {
        if map_of(es).dom().contains((trait_type, name@, inputs@)) {
            let j = choose|j: int| 0 <= j < es.len() && es[j].0 == (trait_type, name@, inputs@);
        }
    }
    None
}

/// The state after a task of kind `kind` was created under the next free id.
pub open spec fn with_new_task(s: TurboTasksView, kind: TaskKindView) -> TurboTasksView {
    TurboTasksView {
        next_task_id: next_id(s.next_task_id),
        ids_wrapped: s.ids_wrapped || s.next_task_id == u32::MAX,
        tasks: s.tasks.insert(TaskId { id: s.next_task_id }, kind),
        ..s
    }
}

/// A call through a cache: the task stored under the key where there is one,
/// the state unchanged; else a new task under the next free id, stored in
/// the cache under the key.
pub open spec fn cached_call_post(
    old: TurboTasksView,
    new: TurboTasksView,
    r: RawVc,
    in_cache: Option<TaskId>,
    kind: TaskKindView,
    new_cache: TurboTasksView,
) -> bool {
    match in_cache {
        Some(id) => r == RawVc::TaskOutput(id) && new == old,
        None => r == RawVc::TaskOutput(TaskId { id: old.next_task_id }) && new == new_cache,
    }
}

/// Whether every input is resolved and holds a value.
pub open spec fn all_resolved(inputs: Seq<TaskInput>) -> bool {
    forall|i: int| 0 <= i < inputs.len() ==> !(#[trigger] inputs[i] is TaskOutput) && !(inputs[i] is Nothing)
}

/// What a native call does to the state and returns.
pub open spec fn native_call_post(old: TurboTasksView, func: FunctionId, inputs: Seq<TaskInput>, new: TurboTasksView, r: RawVc) -> bool {
    let key = (func, inputs);
    let id = TaskId { id: old.next_task_id };
    cached_call_post(
        old,
        new,
        r,
        if old.native_task_cache.dom().contains(key) { Some(old.native_task_cache[key]) } else { None },
        TaskKindView::Native(func, inputs),
        TurboTasksView {
            native_task_cache: old.native_task_cache.insert(key, id),
            ..with_new_task(old, TaskKindView::Native(func, inputs))
        },
    )
}

/// What a dynamic call does to the state and returns: a native call where all
/// inputs are resolved values, else a call through the resolve cache.
pub open spec fn dynamic_call_post(old: TurboTasksView, func: FunctionId, inputs: Seq<TaskInput>, new: TurboTasksView, r: RawVc) -> bool {
    let key = (func, inputs);
    let id = TaskId { id: old.next_task_id };
    if all_resolved(inputs) {
        native_call_post(old, func, inputs, new, r)
    } else {
        cached_call_post(
            old,
            new,
            r,
            if old.resolve_task_cache.dom().contains(key) { Some(old.resolve_task_cache[key]) } else { None },
            TaskKindView::ResolveNative(func, inputs),
            TurboTasksView {
                resolve_task_cache: old.resolve_task_cache.insert(key, id),
                ..with_new_task(old, TaskKindView::ResolveNative(func, inputs))
            },
        )
    }
}

/// What a trait call does to the state and returns.
pub open spec fn trait_call_post(
    old: TurboTasksView,
    trait_type: TraitTypeId,
    name: Seq<char>,
    inputs: Seq<TaskInput>,
    new: TurboTasksView,
    r: RawVc,
) -> bool {
    let key = (trait_type, name, inputs);
    let id = TaskId { id: old.next_task_id };
    cached_call_post(
        old,
        new,
        r,
        if old.trait_task_cache.dom().contains(key) { Some(old.trait_task_cache[key]) } else { None },
        TaskKindView::ResolveTrait(trait_type, name, inputs),
        TurboTasksView {
            trait_task_cache: old.trait_task_cache.insert(key, id),
            ..with_new_task(old, TaskKindView::ResolveTrait(trait_type, name, inputs))
        },
    )
}

impl TurboTasks {
    #[verifier::type_invariant]
    spec fn well_formed(self) -> bool {
        &&& keys_distinct(task_kind_entries(self.memory_tasks@))
        &&& keys_distinct(call_entries(self.native_task_cache@))
        &&& keys_distinct(call_entries(self.resolve_task_cache@))
        &&& keys_distinct(trait_entries(self.trait_task_cache@))
        &&& !self.ids_wrapped@ ==> self.next_task_id >= 1 && forall|j: int| #![trigger self.memory_tasks@[j]]
            0 <= j < self.memory_tasks@.len() ==> 1 <= self.memory_tasks@[j].0.id < self.next_task_id
    }

    /// An engine without tasks; the first task id is 1.
    pub fn new() -> (r: TurboTasks)
        ensures
            r@.next_task_id == 1,
            !r@.ids_wrapped,
            r@.tasks == Map::<TaskId, TaskKindView>::empty(),
            r@.native_task_cache == Map::<CallKey, TaskId>::empty(),
            r@.resolve_task_cache == Map::<CallKey, TaskId>::empty(),
            r@.trait_task_cache == Map::<TraitCallKey, TaskId>::empty(),
            r@.currently_scheduled_tasks == 0,
            r@.scheduled_tasks == 0,
    {
        let r = TurboTasks {
            next_task_id: 1,
            ids_wrapped: Ghost(false),
            memory_tasks: Vec::new(),
            native_task_cache: Vec::new(),
            resolve_task_cache: Vec::new(),
            trait_task_cache: Vec::new(),
            currently_scheduled_tasks: 0,
            scheduled_tasks: 0,
        };
        assert(task_kind_entries(r.memory_tasks@) =~= Seq::empty());
        assert(call_entries(r.native_task_cache@) =~= Seq::empty());
        assert(call_entries(r.resolve_task_cache@) =~= Seq::empty());
        assert(trait_entries(r.trait_task_cache@) =~= Seq::empty());
        r
    }

    /// Takes the next free task id.
    fn get_free_task_id(&mut self) -> (r: TaskId)
        ensures
            r.id == old(self)@.next_task_id,
            final(self)@ == (TurboTasksView {
                next_task_id: next_id(old(self)@.next_task_id),
                ids_wrapped: old(self)@.ids_wrapped || old(self)@.next_task_id == u32::MAX,
                ..old(self)@
            }),
            !old(self)@.ids_wrapped ==> !old(self)@.tasks.dom().contains(r),
            final(self)@.ids_wrapped || 1 <= r.id < final(self)@.next_task_id,
    {
        proof {
            use_type_invariant(&*self);
            let es = task_kind_entries(self.memory_tasks@);
            lemma_map_of_dom(es);
            if !self.ids_wrapped@ && map_of(es).dom().contains(TaskId { id: self.next_task_id }) {
                let j = choose|j: int| 0 <= j < es.len() && es[j].0 == TaskId { id: self.next_task_id };
                assert(self.memory_tasks@[j].0 == es[j].0);
            }
        }
        let id = self.next_task_id;
        if id == u32::MAX {
            self.ids_wrapped = Ghost(true);
            self.next_task_id = 0;
        } else {
            self.next_task_id = id + 1;
        }
        TaskId { id }
    }

    /// Stores a task under `id`, replacing a task stored there.
    fn store_task(&mut self, id: TaskId, kind: TaskKind)
        requires
            old(self)@.ids_wrapped || 1 <= id.id < old(self)@.next_task_id,
        ensures
            final(self)@ == (TurboTasksView { tasks: old(self)@.tasks.insert(id, kind@), ..old(self)@ }),
    {
        proof {
            use_type_invariant(&*self);
        }
        let ghost es = task_kind_entries(self.memory_tasks@);
        proof {
            lemma_map_of_dom(es);
        }
        let n = self.memory_tasks.len();
        let mut i: usize = 0;
        while i < n
            invariant
                n == self.memory_tasks@.len(),
                es == task_kind_entries(self.memory_tasks@),
                keys_distinct(es),
                i <= n,
                forall|j: int| 0 <= j < i ==> es[j].0 != id,
            ensures
                i <= n,
                i < n ==> es[i as int].0 == id,
                forall|j: int| 0 <= j < i ==> es[j].0 != id,
            decreases n - i,
        {
            if self.memory_tasks[i].0.id == id.id {
                break;
            }
            i = i + 1;
        }
        let ghost kv = kind@;
        if i < n {
            let mut tasks: Vec<(TaskId, TaskKind)> = Vec::new();
            std::mem::swap(&mut tasks, &mut self.memory_tasks);
            let _ = tasks.remove(i);
            tasks.insert(i, (id, kind));
            proof {
                assert(task_kind_entries(tasks@) =~= es.update(i as int, (id, kv)));
                crate::assoc::lemma_map_of_update(es, i as int, kv);
                assert forall|j: int| 0 <= j < tasks@.len() implies tasks@[j].0 == task_kind_entries(tasks@)[j].0 by {}
            }
            self.memory_tasks = tasks;
        } else {
            proof {
                lemma_map_of_push(es, id, kv);
            }
            let mut tasks: Vec<(TaskId, TaskKind)> = Vec::new();
            std::mem::swap(&mut tasks, &mut self.memory_tasks);
            tasks.push((id, kind));
            proof {
                assert(task_kind_entries(tasks@) =~= es.push((id, kv)));
                assert forall|j: int| 0 <= j < tasks@.len() implies tasks@[j].0 == task_kind_entries(tasks@)[j].0 by {}
            }
            self.memory_tasks = tasks;
        }
    }

    /// Counts a task as scheduled; `true` where no task was running before,
    /// which starts a new round of work.
    pub fn schedule(&mut self) -> (started: bool)
        ensures
            started == (old(self)@.currently_scheduled_tasks == 0),
            final(self)@ == (TurboTasksView {
                currently_scheduled_tasks: count_up(old(self)@.currently_scheduled_tasks),
                scheduled_tasks: count_up(old(self)@.scheduled_tasks),
                ..old(self)@
            }),
    {
        proof {
            use_type_invariant(&*self);
        }
        let started = self.currently_scheduled_tasks == 0;
        self.currently_scheduled_tasks = self.currently_scheduled_tasks.wrapping_add(1);
        self.scheduled_tasks = self.scheduled_tasks.wrapping_add(1);
        started
    }

    /// Counts a scheduled task as finished; where it was the last one, the
    /// round ends: the number of tasks of the round is returned and the count
    /// starts again from zero.
    pub fn task_finished(&mut self) -> (round: Option<usize>)
        ensures
            old(self)@.currently_scheduled_tasks == 1 ==> round == Some(old(self)@.scheduled_tasks)
                && final(self)@ == (TurboTasksView { currently_scheduled_tasks: 0, scheduled_tasks: 0, ..old(self)@ }),
            old(self)@.currently_scheduled_tasks != 1 ==> round is None
                && final(self)@ == (TurboTasksView {
                    currently_scheduled_tasks: count_down(old(self)@.currently_scheduled_tasks),
                    ..old(self)@
                }),
    {
        proof {
            use_type_invariant(&*self);
        }
        let before = self.currently_scheduled_tasks;
        self.currently_scheduled_tasks = before.wrapping_sub(1);
        if before == 1 {
            let total = self.scheduled_tasks;
            self.scheduled_tasks = 0;
            Some(total)
        } else {
            None
        }
    }

    /// Creates a root task under the next free id and schedules it.
    pub fn spawn_root_task(&mut self) -> (r: TaskId)
        ensures
            r.id == old(self)@.next_task_id,
            !old(self)@.ids_wrapped ==> !old(self)@.tasks.dom().contains(r),
            final(self)@ == (TurboTasksView {
                currently_scheduled_tasks: count_up(old(self)@.currently_scheduled_tasks),
                scheduled_tasks: count_up(old(self)@.scheduled_tasks),
                ..with_new_task(old(self)@, TaskKindView::Root)
            }),
    {
        let id = self.get_free_task_id();
        self.store_task(id, TaskKind::Root);
        let _ = self.schedule();
        id
    }

    /// Creates a task that runs once under the next free id and schedules it.
    pub fn spawn_once_task(&mut self) -> (r: TaskId)
        ensures
            r.id == old(self)@.next_task_id,
            !old(self)@.ids_wrapped ==> !old(self)@.tasks.dom().contains(r),
            final(self)@ == (TurboTasksView {
                currently_scheduled_tasks: count_up(old(self)@.currently_scheduled_tasks),
                scheduled_tasks: count_up(old(self)@.scheduled_tasks),
                ..with_new_task(old(self)@, TaskKindView::Once)
            }),
    {
        let id = self.get_free_task_id();
        self.store_task(id, TaskKind::Once);
        let _ = self.schedule();
        id
    }

    /// Calls a native function with resolved inputs: the task cached for the
    /// function and inputs, or a new native task. All inputs must be
    /// resolved values.
    pub fn native_call(&mut self, func: FunctionId, inputs: Vec<TaskInput>) -> (r: RawVc)
        requires
            all_resolved(inputs@),
        ensures
            native_call_post(old(self)@, func, inputs@, final(self)@, r),
            !old(self)@.ids_wrapped ==> !old(self)@.tasks.dom().contains(TaskId { id: old(self)@.next_task_id }),
    {
        proof {
            use_type_invariant(&*self);
            let es = task_kind_entries(self.memory_tasks@);
            lemma_map_of_dom(es);
            if !self.ids_wrapped@ && map_of(es).dom().contains(TaskId { id: self.next_task_id }) {
                let j = choose|j: int| 0 <= j < es.len() && es[j].0 == TaskId { id: self.next_task_id };
                assert(self.memory_tasks@[j].0 == es[j].0);
            }
        }
        match lookup_call(&self.native_task_cache, func, &inputs) {
            Some(id) => RawVc::TaskOutput(id),
            None => {
                let ghost s0 = self@;
                let id = self.get_free_task_id();
                let key_inputs = copy_inputs(&inputs);
                self.store_task(id, TaskKind::Native(func, inputs));
                proof {
                    use_type_invariant(&*self);
                }
                let ghost es = call_entries(self.native_task_cache@);
                proof {
                    lemma_map_of_push(es, (func, key_inputs@), id);
                }
                let mut cache: Vec<((FunctionId, Vec<TaskInput>), TaskId)> = Vec::new();
                std::mem::swap(&mut cache, &mut self.native_task_cache);
                cache.push(((func, key_inputs), id));
                proof {
                    assert(call_entries(cache@) =~= es.push(((func, key_inputs@), id)));
                }
                self.native_task_cache = cache;
                RawVc::TaskOutput(id)
            },
        }
    }

    /// Calls a native function: directly where every input is a resolved
    /// value, else through a task that resolves the inputs first, cached for
    /// the function and inputs.
    pub fn dynamic_call(&mut self, func: FunctionId, inputs: Vec<TaskInput>) -> (r: RawVc)
        ensures
            dynamic_call_post(old(self)@, func, inputs@, final(self)@, r),
            !old(self)@.ids_wrapped ==> !old(self)@.tasks.dom().contains(TaskId { id: old(self)@.next_task_id }),
    {
        proof {
            use_type_invariant(&*self);
            let es = task_kind_entries(self.memory_tasks@);
            lemma_map_of_dom(es);
            if !self.ids_wrapped@ && map_of(es).dom().contains(TaskId { id: self.next_task_id }) {
                let j = choose|j: int| 0 <= j < es.len() && es[j].0 == TaskId { id: self.next_task_id };
                assert(self.memory_tasks@[j].0 == es[j].0);
            }
        }
        let mut resolved = true;
        let n = inputs.len();
        for i in 0..n
            invariant
                n == inputs@.len(),
                resolved == forall|j: int| 0 <= j < i ==> !(#[trigger] inputs@[j] is TaskOutput) && !(inputs@[j] is Nothing),
        {
            if !inputs[i].is_resolved() || inputs[i].is_nothing() {
                resolved = false;
            }
        }
        if resolved {
            return self.native_call(func, inputs);
        }
        match lookup_call(&self.resolve_task_cache, func, &inputs) {
            Some(id) => RawVc::TaskOutput(id),
            None => {
                let id = self.get_free_task_id();
                let key_inputs = copy_inputs(&inputs);
                self.store_task(id, TaskKind::ResolveNative(func, inputs));
                proof {
                    use_type_invariant(&*self);
                }
                let ghost es = call_entries(self.resolve_task_cache@);
                proof {
                    lemma_map_of_push(es, (func, key_inputs@), id);
                }
                let mut cache: Vec<((FunctionId, Vec<TaskInput>), TaskId)> = Vec::new();
                std::mem::swap(&mut cache, &mut self.resolve_task_cache);
                cache.push(((func, key_inputs), id));
                proof {
                    assert(call_entries(cache@) =~= es.push(((func, key_inputs@), id)));
                }
                self.resolve_task_cache = cache;
                RawVc::TaskOutput(id)
            },
        }
    }

    /// Calls a trait method; the first input is the `self` object. The call
    /// goes through a task that resolves it, cached for the trait, the method
    /// name and the inputs.
    pub fn trait_call(&mut self, trait_type: TraitTypeId, trait_fn_name: String, inputs: Vec<TaskInput>) -> (r: RawVc)
        ensures
            trait_call_post(old(self)@, trait_type, trait_fn_name@, inputs@, final(self)@, r),
            !old(self)@.ids_wrapped ==> !old(self)@.tasks.dom().contains(TaskId { id: old(self)@.next_task_id }),
    {
        proof {
            use_type_invariant(&*self);
            let es = task_kind_entries(self.memory_tasks@);
            lemma_map_of_dom(es);
            if !self.ids_wrapped@ && map_of(es).dom().contains(TaskId { id: self.next_task_id }) {
                let j = choose|j: int| 0 <= j < es.len() && es[j].0 == TaskId { id: self.next_task_id };
                assert(self.memory_tasks@[j].0 == es[j].0);
            }
        }
        match lookup_trait_call(&self.trait_task_cache, trait_type, &trait_fn_name, &inputs) {
            Some(id) => RawVc::TaskOutput(id),
            None => {
                let id = self.get_free_task_id();
                let key_inputs = copy_inputs(&inputs);
                let key_name = trait_fn_name.clone();
                self.store_task(id, TaskKind::ResolveTrait(trait_type, trait_fn_name, inputs));
                proof {
                    use_type_invariant(&*self);
                }
                let ghost es = trait_entries(self.trait_task_cache@);
                proof {
                    lemma_map_of_push(es, (trait_type, key_name@, key_inputs@), id);
                }
                let mut cache: Vec<((TraitTypeId, String, Vec<TaskInput>), TaskId)> = Vec::new();
                std::mem::swap(&mut cache, &mut self.trait_task_cache);
                cache.push(((trait_type, key_name, key_inputs), id));
                proof {
                    assert(trait_entries(cache@) =~= es.push(((trait_type, key_name@, key_inputs@), id)));
                }
                self.trait_task_cache = cache;
                RawVc::TaskOutput(id)
            },
        }
    }
}

/// Calls a native function on the engine `tt`, as `TurboTasks::dynamic_call`.
pub fn dynamic_call(tt: &mut TurboTasks, func: FunctionId, inputs: Vec<TaskInput>) -> (r: RawVc)
    ensures
        dynamic_call_post(old(tt)@, func, inputs@, final(tt)@, r),
        !old(tt)@.ids_wrapped ==> !old(tt)@.tasks.dom().contains(TaskId { id: old(tt)@.next_task_id }),
{
    tt.dynamic_call(func, inputs)
}

/// Calls a trait method on the engine `tt`, as `TurboTasks::trait_call`.
pub fn trait_call(tt: &mut TurboTasks, trait_type: TraitTypeId, trait_fn_name: String, inputs: Vec<TaskInput>) -> (r: RawVc)
    ensures
        trait_call_post(old(tt)@, trait_type, trait_fn_name@, inputs@, final(tt)@, r),
        !old(tt)@.ids_wrapped ==> !old(tt)@.tasks.dom().contains(TaskId { id: old(tt)@.next_task_id }),
{
    tt.trait_call(trait_type, trait_fn_name, inputs)
}

/// A second dynamic call with the same function and inputs returns what the
/// first returned and leaves the state as the first left it.
pub proof fn lemma_dynamic_call_memoized(
    s0: TurboTasksView,
    s1: TurboTasksView,
    s2: TurboTasksView,
    func: FunctionId,
    inputs: Seq<TaskInput>,
    r1: RawVc,
    r2: RawVc,
)
    requires
        dynamic_call_post(s0, func, inputs, s1, r1),
        dynamic_call_post(s1, func, inputs, s2, r2),
    ensures
        r2 == r1,
        s2 == s1,
{
}

/// A second trait call with the same trait, method name and inputs returns
/// what the first returned and leaves the state as the first left it.
pub proof fn lemma_trait_call_memoized(
    s0: TurboTasksView,
    s1: TurboTasksView,
    s2: TurboTasksView,
    trait_type: TraitTypeId,
    name: Seq<char>,
    inputs: Seq<TaskInput>,
    r1: RawVc,
    r2: RawVc,
)
    requires
        trait_call_post(s0, trait_type, name, inputs, s1, r1),
        trait_call_post(s1, trait_type, name, inputs, s2, r2),
    ensures
        r2 == r1,
        s2 == s1,
{
}

} // verus!

verus! {

/// A dynamic call whose inputs are all resolved values reuses the task that
/// a native call with the same function and inputs created, and changes
/// nothing.
pub proof fn lemma_dynamic_call_reuses_native_task(
    s0: TurboTasksView,
    s1: TurboTasksView,
    s2: TurboTasksView,
    func: FunctionId,
    inputs: Seq<TaskInput>,
    r1: RawVc,
    r2: RawVc,
)
    requires
        all_resolved(inputs),
        native_call_post(s0, func, inputs, s1, r1),
        dynamic_call_post(s1, func, inputs, s2, r2),
    ensures
        r2 == r1,
        s2 == s1,
{
}

/// A call that creates a task stores it under the id it returns, and the
/// next free id moves on.
pub proof fn lemma_new_call_stores_task(
    s0: TurboTasksView,
    s1: TurboTasksView,
    func: FunctionId,
    inputs: Seq<TaskInput>,
    r: RawVc,
)
    requires
        dynamic_call_post(s0, func, inputs, s1, r),
        !s0.native_task_cache.dom().contains((func, inputs)),
        !s0.resolve_task_cache.dom().contains((func, inputs)),
    ensures
        r == RawVc::TaskOutput(TaskId { id: s0.next_task_id }),
        s1.tasks.dom().contains(TaskId { id: s0.next_task_id }),
        s1.next_task_id == next_id(s0.next_task_id),
{
}

} // verus!
