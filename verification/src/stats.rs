//! Statistics over the tasks of a backend, grouped by task type.
use vstd::prelude::*;
use crate::assoc::{lemma_map_of_push_restrict, keys_distinct, map_of, lemma_map_of_dom, lemma_map_of_index, lemma_map_of_update, lemma_map_of_push, lemma_map_of_all};
use crate::backend::{MemoryBackend, Task, TaskView};
use crate::merge::{merged_from, merge_refs, refs_merged_from};
use crate::tree::{GroupTree, build_tree, children_known, has_root, members, occurs_once, placement_laws, reachable_types, search_outcome, tree_follows, tree_ok};
use crate::task_type::{Duration, MAX_DURATION_NANOS, ReferenceType, TaskId, TaskType, TaskTypeView};

verus! {

broadcast use vstd::set::group_set_axioms, vstd::seq_lib::group_seq_properties;

/// A reference kind together with the type of the referenced task.
pub type RefKeyView = (ReferenceType, TaskTypeView);

/// How often tasks of one type refer to tasks of another type.
#[derive(Clone, Copy, Debug)]
pub struct ReferenceStats {
    pub count: usize,
}

impl Default for ReferenceStats {
    fn default() -> (r: Self)
        ensures
            r.count == 0,
    {
        ReferenceStats { count: 0 }
    }
}

/// The figures collected for all tasks of one type.
#[derive(Debug)]
pub struct TaskStats {
    pub count: usize,
    pub executions: usize,
    pub roots: usize,
    pub scopes: usize,
    pub total_duration: Duration,
    pub total_current_duration: Duration,
    pub total_update_duration: Duration,
    pub max_duration: Duration,
    /// Keyed by reference kind and referenced task type; no key occurs twice.
    pub references: Vec<((ReferenceType, TaskType), ReferenceStats)>,
}

/// The figures of one task type as mathematical values.
pub struct TaskStatsView {
    pub count: nat,
    pub executions: nat,
    pub roots: nat,
    pub scopes: nat,
    pub total_duration: nat,
    pub total_current_duration: nat,
    pub total_update_duration: nat,
    pub max_duration: nat,
    pub references: Map<RefKeyView, nat>,
}

/// The reference entries of a list as pairs of key and count.
pub open spec fn ref_entries(v: Seq<((ReferenceType, TaskType), ReferenceStats)>) -> Seq<
    (RefKeyView, nat),
> {
    v.map_values(|e: ((ReferenceType, TaskType), ReferenceStats)| ((e.0.0, e.0.1@), e.1.count as nat))
}

impl View for TaskStats {
    type V = TaskStatsView;

    open spec fn view(&self) -> TaskStatsView {
        TaskStatsView {
            count: self.count as nat,
            executions: self.executions as nat,
            roots: self.roots as nat,
            scopes: self.scopes as nat,
            total_duration: self.total_duration@,
            total_current_duration: self.total_current_duration@,
            total_update_duration: self.total_update_duration@,
            max_duration: self.max_duration@,
            references: map_of(ref_entries(self.references@)),
        }
    }
}

/// The figures of a type of which no task was counted yet.
pub open spec fn empty_stats() -> TaskStatsView {
    TaskStatsView {
        count: 0,
        executions: 0,
        roots: 0,
        scopes: 0,
        total_duration: 0,
        total_current_duration: 0,
        total_update_duration: 0,
        max_duration: 0,
        references: Map::empty(),
    }
}

/// The count stored for a reference key, zero where there is none.
pub open spec fn ref_count(m: Map<RefKeyView, nat>, k: RefKeyView) -> nat {
    if m.dom().contains(k) {
        m[k]
    } else {
        0
    }
}

/// The key under which a reference of a task is counted: its kind and the
/// type of the referenced task.
pub open spec fn ref_key_of(backend: Map<TaskId, TaskView>, r: (ReferenceType, TaskId)) -> RefKeyView {
    (r.0, backend[r.1].stats_type)
}

/// The number of distinct references (kind and task) in `refs` that are
/// counted under `k`.
pub open spec fn new_references(
    backend: Map<TaskId, TaskView>,
    refs: Seq<(ReferenceType, TaskId)>,
    k: RefKeyView,
) -> nat {
    refs.to_set().filter(|r: (ReferenceType, TaskId)| ref_key_of(backend, r) == k).len()
}

/// Reference counts after the distinct references `refs` were added.
pub open spec fn added_references(
    old: Map<RefKeyView, nat>,
    backend: Map<TaskId, TaskView>,
    refs: Seq<(ReferenceType, TaskId)>,
) -> Map<RefKeyView, nat> {
    Map::new(
        |k: RefKeyView| old.dom().contains(k) || new_references(backend, refs, k) > 0,
        |k: RefKeyView| ref_count(old, k) + new_references(backend, refs, k),
    )
}

/// The figures of a type after one more task `t` of it was counted.
pub open spec fn stats_after_add(
    s: TaskStatsView,
    t: TaskView,
    backend: Map<TaskId, TaskView>,
) -> TaskStatsView {
    TaskStatsView {
        count: s.count + 1,
        executions: s.executions + t.executions,
        roots: if t.root {
            s.roots + 1
        } else {
            s.roots
        },
        scopes: s.scopes + t.scopes,
        total_duration: s.total_duration + t.duration,
        total_current_duration: s.total_current_duration + t.last_duration,
        total_update_duration: if t.executions > 1 {
            s.total_update_duration + t.last_duration
        } else {
            s.total_update_duration
        },
        max_duration: if s.max_duration >= t.duration {
            s.max_duration
        } else {
            t.duration
        },
        references: added_references(s.references, backend, t.references),
    }
}

/// Every task that `t` refers to is known to the backend.
pub open spec fn references_known(backend: Map<TaskId, TaskView>, t: TaskView) -> bool {
    forall|i: int| 0 <= i < t.references.len() ==> backend.dom().contains(#[trigger] t.references[i].1)
}

/// Counting `t` into `s` overflows none of the counters and none of the
/// durations.
pub open spec fn add_fits(s: TaskStatsView, t: TaskView, backend: Map<TaskId, TaskView>) -> bool {
    &&& s.count + 1 <= usize::MAX
    &&& s.executions + t.executions <= usize::MAX
    &&& s.roots + 1 <= usize::MAX
    &&& s.scopes + t.scopes <= usize::MAX
    &&& s.total_duration + t.duration <= MAX_DURATION_NANOS
    &&& s.total_current_duration + t.last_duration <= MAX_DURATION_NANOS
    &&& s.total_update_duration + t.last_duration <= MAX_DURATION_NANOS
    &&& forall|k: RefKeyView| #[trigger]
        ref_count(s.references, k) + new_references(backend, t.references, k) <= usize::MAX
}

/// The number of positions of `s` whose reference is counted under `k`.
pub open spec fn count_in(
    backend: Map<TaskId, TaskView>,
    s: Seq<(ReferenceType, TaskId)>,
    k: RefKeyView,
) -> nat
    decreases s.len(),
{
    if s.len() == 0 {
        0
    } else {
        count_in(backend, s.drop_last(), k) + if ref_key_of(backend, s.last()) == k {
            1nat
        } else {
            0nat
        }
    }
}

proof fn lemma_count_in_set(backend: Map<TaskId, TaskView>, s: Seq<(ReferenceType, TaskId)>, k: RefKeyView)
    requires
        s.no_duplicates(),
    ensures
        count_in(backend, s, k) == s.to_set().filter(
            |r: (ReferenceType, TaskId)| ref_key_of(backend, r) == k,
        ).len(),
    decreases s.len(),
{
    let p = |r: (ReferenceType, TaskId)| ref_key_of(backend, r) == k;
    if s.len() == 0 {
        assert(s.to_set().filter(p) =~= Set::empty());
    } else {
        let t = s.drop_last();
        let x = s.last();
        assert(t.no_duplicates());
        lemma_count_in_set(backend, t, k);
        assert(s =~= t.push(x));
        assert(s.to_set() =~= t.to_set().insert(x));
        assert(!t.to_set().contains(x)) by {
            if t.contains(x) {
                let j = choose|j: int| 0 <= j < t.len() && t[j] == x;
                assert(s[j] == s[s.len() - 1]);
            }
        }
        t.lemma_cardinality_of_set();
        if p(x) {
            assert(s.to_set().filter(p) =~= t.to_set().filter(p).insert(x));
        } else {
            assert(s.to_set().filter(p) =~= t.to_set().filter(p));
        }
    }
}

proof fn lemma_count_in_prefix(
    backend: Map<TaskId, TaskView>,
    s: Seq<(ReferenceType, TaskId)>,
    j: int,
    k: RefKeyView,
)
    requires
        0 <= j <= s.len(),
    ensures
        count_in(backend, s.take(j), k) <= count_in(backend, s, k),
    decreases s.len() - j,
{
    if j < s.len() {
        lemma_count_in_prefix(backend, s, j + 1, k);
        assert(s.take(j + 1).drop_last() =~= s.take(j));
    } else {
        assert(s.take(j) =~= s);
    }
}

impl Default for TaskStats {
    fn default() -> (r: Self)
        ensures
            r@ == empty_stats(),
            r.wf(),
    {
        TaskStats::new()
    }
}

impl TaskStats {
    /// No reference key occurs twice.
    pub open spec fn wf(&self) -> bool {
        keys_distinct(ref_entries(self.references@))
    }

    /// The figures of a type of which no task was counted yet.
    pub fn new() -> (r: TaskStats)
        ensures
            r@ == empty_stats(),
            r.wf(),
    {
        let r = TaskStats {
            count: 0,
            executions: 0,
            roots: 0,
            scopes: 0,
            total_duration: Duration::zero(),
            total_current_duration: Duration::zero(),
            total_update_duration: Duration::zero(),
            max_duration: Duration::zero(),
            references: Vec::new(),
        };
        assert(ref_entries(r.references@) =~= Seq::empty());
        assert(r@.references =~= Map::empty());
        r
    }

    /// A copy of the figures.
    pub fn duplicate(&self) -> (r: TaskStats)
        ensures
            r@ == self@,
            r.wf() == self.wf(),
    {
        let mut refs: Vec<((ReferenceType, TaskType), ReferenceStats)> = Vec::new();
        let n = self.references.len();
        for i in 0..n
            invariant
                n == self.references@.len(),
                ref_entries(refs@) == ref_entries(self.references@).take(i as int),
        {
            let e = &self.references[i];
            let ty = e.0.1.clone();
            assert(ty@ == e.0.1@);
            let ghost prev = refs@;
            refs.push(((e.0.0, ty), e.1));
            assert(refs@ == prev.push(((e.0.0, ty), e.1)));
            assert(ref_entries(refs@) =~= ref_entries(prev).push(((e.0.0, ty@), e.1.count as nat)));
            assert(ref_entries(refs@) =~= ref_entries(self.references@).take(i + 1));
        }
        assert(ref_entries(self.references@).take(n as int) =~= ref_entries(self.references@));
        TaskStats {
            count: self.count,
            executions: self.executions,
            roots: self.roots,
            scopes: self.scopes,
            total_duration: self.total_duration,
            total_current_duration: self.total_current_duration,
            total_update_duration: self.total_update_duration,
            max_duration: self.max_duration,
            references: refs,
        }
    }

    /// Stores `st` under `(ref_type, ty)` in a list of reference entries,
    /// replacing what was stored there.
    pub(crate) fn put_reference(
        refs: &mut Vec<((ReferenceType, TaskType), ReferenceStats)>,
        ref_type: ReferenceType,
        ty: TaskType,
        st: ReferenceStats,
    )
        requires
            keys_distinct(ref_entries(old(refs)@)),
        ensures
            keys_distinct(ref_entries(final(refs)@)),
            map_of(ref_entries(final(refs)@)) == map_of(ref_entries(old(refs)@)).insert(
                (ref_type, ty@),
                st.count as nat,
            ),
    {
        let ghost es = ref_entries(refs@);
        let n = refs.len();
        let mut i: usize = 0;
        while i < n
            invariant
                n == refs@.len(),
                es == ref_entries(refs@),
                i <= n,
                forall|j: int| 0 <= j < i ==> es[j].0 != (ref_type, ty@),
            ensures
                i <= n,
                i < n ==> es[i as int].0 == (ref_type, ty@),
                forall|j: int| 0 <= j < i ==> es[j].0 != (ref_type, ty@),
            decreases n - i,
        {
            if refs[i].0.0 == ref_type && refs[i].0.1.same_as(&ty) {
                break;
            }
            i = i + 1;
        }
        if i < n {
            let e = refs.remove(i);
            refs.insert(i, (e.0, st));
            proof {
                assert(ref_entries(refs@) =~= es.update(i as int, (es[i as int].0, st.count as nat)));
                lemma_map_of_update(es, i as int, st.count as nat);
            }
        } else {
            proof {
                lemma_map_of_dom(es);
                lemma_map_of_push(es, (ref_type, ty@), st.count as nat);
            }
            refs.push(((ref_type, ty), st));
            proof {
                assert(ref_entries(refs@) =~= es.push(((ref_type, ty@), st.count as nat)));
            }
        }
    }

    /// Adds one to the count stored under `(ref_type, ty)`.
    fn count_reference(&mut self, ref_type: ReferenceType, ty: TaskType)
        requires
            old(self).wf(),
            ref_count(old(self)@.references, (ref_type, ty@)) + 1 <= usize::MAX,
        ensures
            final(self).wf(),
            final(self)@ == (TaskStatsView {
                references: old(self)@.references.insert(
                    (ref_type, ty@),
                    ref_count(old(self)@.references, (ref_type, ty@)) + 1,
                ),
                ..old(self)@
            }),
    {
        let ghost es = ref_entries(self.references@);
        let n = self.references.len();
        let mut i: usize = 0;
        while i < n
            invariant
                n == self.references@.len(),
                es == ref_entries(self.references@),
                i <= n,
                forall|j: int| 0 <= j < i ==> es[j].0 != (ref_type, ty@),
            ensures
                i <= n,
                i < n ==> es[i as int].0 == (ref_type, ty@),
                forall|j: int| 0 <= j < i ==> es[j].0 != (ref_type, ty@),
            decreases n - i,
        {
            if self.references[i].0.0 == ref_type && self.references[i].0.1.same_as(&ty) {
                break;
            }
            i = i + 1;
        }
        if i < n {
            let e = self.references.remove(i);
            proof {
                lemma_map_of_index(es, i as int);
            }
            let c = e.1.count + 1;
            self.references.insert(i, (e.0, ReferenceStats { count: c }));
            proof {
                assert(ref_entries(self.references@) =~= es.update(
                    i as int,
                    (es[i as int].0, c as nat),
                ));
                lemma_map_of_update(es, i as int, c as nat);
            }
        } else {
            proof {
                lemma_map_of_dom(es);
                lemma_map_of_push(es, (ref_type, ty@), 1);
            }
            self.references.push(((ref_type, ty), ReferenceStats { count: 1 }));
            proof {
                assert(ref_entries(self.references@) =~= es.push(((ref_type, ty@), 1nat)));
            }
        }
    }

    /// Counts one more task `task` of this type.
    fn add_task(&mut self, backend: &MemoryBackend, task: &Task)
        requires
            old(self).wf(),
            references_known(backend@, task@),
            add_fits(old(self)@, task@, backend@),
        ensures
            final(self).wf(),
            final(self)@ == stats_after_add(old(self)@, task@, backend@),
    {
        let ghost s0 = self@;
        self.count = self.count + 1;
        let (duration, last_duration, executions, root, scopes) = task.get_stats_info();
        self.total_duration = self.total_duration.add(duration);
        self.total_current_duration = self.total_current_duration.add(last_duration);
        if executions > 1 {
            self.total_update_duration = self.total_update_duration.add(last_duration);
        }
        self.max_duration = self.max_duration.max(duration);
        self.executions = self.executions + executions as usize;
        if root {
            self.roots = self.roots + 1;
        }
        self.scopes = self.scopes + scopes;

        // Each distinct pair of reference kind and task is counted once.
        let references = task.get_stats_references();
        let ghost refs = references@;
        let mut distinct: Vec<(ReferenceType, TaskId)> = Vec::new();
        let n = references.len();
        for i in 0..n
            invariant
                n == refs.len(),
                references@ == refs,
                distinct@.no_duplicates(),
                distinct@.to_set() =~= refs.take(i as int).to_set(),
        {
            let r = references[i];
            let mut found = false;
            let m = distinct.len();
            for j in 0..m
                invariant
                    m == distinct@.len(),
                    found <==> exists|l: int| 0 <= l < j && distinct@[l] == r,
            {
                if distinct[j].0 == r.0 && distinct[j].1.id == r.1.id {
                    found = true;
                }
            }
            assert(refs.take(i + 1) =~= refs.take(i as int).push(r));
            assert(refs.take(i + 1).to_set() =~= refs.take(i as int).to_set().insert(r));
            let ghost prev = distinct@;
            if !found {
                distinct.push(r);
                proof {
                    assert(!prev.contains(r));
                    assert(distinct@.to_set() =~= prev.to_set().insert(r));
                }
            } else {
                assert(prev.contains(r));
            }
        }
        assert(refs.take(n as int) =~= refs);
        let ghost d = distinct@;
        let ghost refs0 = self@.references;
        let ghost s1 = self@;
        proof {
            assert(refs0 == old(self)@.references);
            assert forall|i: int| 0 <= i < d.len() implies #[trigger] backend@.dom().contains(d[i].1) by {
                assert(d.to_set().contains(d[i]));
                assert(refs.to_set().contains(d[i]));
                let l = choose|l: int| 0 <= l < refs.len() && refs[l] == d[i];
                assert(task@.references[l] == refs[l]);
            }
            assert forall|k: RefKeyView| #[trigger]
                ref_count(refs0, k) + new_references(backend@, refs, k) <= usize::MAX by {
                assert(ref_count(old(self)@.references, k) + new_references(backend@, task@.references, k) <= usize::MAX);
            }
            assert forall|k: RefKeyView| #[trigger] count_in(backend@, d, k) == new_references(
                backend@,
                refs,
                k,
            ) by {
                lemma_count_in_set(backend@, d, k);
            }
        }
        let m = distinct.len();
        for j in 0..m
            invariant
                m == d.len(),
                distinct@ == d,
                self.wf(),
                forall|i: int| 0 <= i < d.len() ==> #[trigger] backend@.dom().contains(d[i].1),
                forall|k: RefKeyView| #[trigger]
                    count_in(backend@, d, k) == new_references(backend@, refs, k),
                forall|k: RefKeyView| #[trigger]
                    ref_count(refs0, k) + new_references(backend@, refs, k) <= usize::MAX,
                self@.references =~= Map::new(
                    |k: RefKeyView| refs0.dom().contains(k) || count_in(backend@, d.take(j as int), k) > 0,
                    |k: RefKeyView| ref_count(refs0, k) + count_in(backend@, d.take(j as int), k),
                ),
                self@ == (TaskStatsView { references: self@.references, ..s1 }),
        {
            let (ref_type, id) = distinct[j];
            let t = backend.task(id).unwrap();
            let ty = t.get_stats_type();
            let ghost key = (ref_type, ty@);
            proof {
                assert(d.take(j + 1).drop_last() =~= d.take(j as int));
                assert(d.take(j + 1).last() == d[j as int]);
                lemma_count_in_prefix(backend@, d, j + 1, key);
            }
            self.count_reference(ref_type, ty);
            proof {
                assert forall|k: RefKeyView|
                    #![trigger count_in(backend@, d.take(j + 1), k)]
                    count_in(backend@, d.take(j + 1), k) == count_in(backend@, d.take(j as int), k)
                        + if k == key { 1nat } else { 0nat } by {}
            }
        }
        proof {
            assert(d.take(m as int) =~= d);
            assert(self@.references =~= added_references(refs0, backend@, refs));
        }
    }
}


/// The pairs of task type and figures that a list of entries holds.
pub open spec fn stats_entries(v: Seq<(TaskType, TaskStats)>) -> Seq<(TaskTypeView, TaskStatsView)> {
    v.map_values(|e: (TaskType, TaskStats)| (e.0@, e.1@))
}

/// The figures stored for `ty`, or those of a type without tasks.
pub open spec fn stats_of(m: Map<TaskTypeView, TaskStatsView>, ty: TaskTypeView) -> TaskStatsView {
    if m.dom().contains(ty) {
        m[ty]
    } else {
        empty_stats()
    }
}

/// `select` may have answered `true` for each task type of `sel` and
/// `false` for each other task type of `m`; `sel` holds types of `m` only.
pub open spec fn selected_by<F: Fn(&TaskType, &TaskStats) -> bool>(
    select: F,
    m: Map<TaskTypeView, TaskStatsView>,
    sel: Set<TaskTypeView>,
) -> bool {
    &&& forall|t: TaskTypeView| #[trigger] sel.contains(t) ==> m.dom().contains(t)
    &&& forall|t: TaskTypeView| #[trigger] m.dom().contains(t) ==>
        (sel.contains(t) ==> exists|ty: TaskType, st: TaskStats|
            ty@ == t && st@ == m[t] && call_ensures(select, (&ty, &st), true))
        && (!sel.contains(t) ==> exists|ty: TaskType, st: TaskStats|
            ty@ == t && st@ == m[t] && call_ensures(select, (&ty, &st), false))
}

/// Whether a task type is one of the resolve types.
pub open spec fn is_resolve_type(t: TaskTypeView) -> bool {
    t is ResolveNative || t is ResolveTrait
}

/// The resolve types among `s`.
pub open spec fn resolve_types(s: Set<TaskTypeView>) -> Set<TaskTypeView> {
    s.filter(|t: TaskTypeView| is_resolve_type(t))
}

/// Statistics of tasks, one entry per task type.
pub struct Stats {
    tasks: Vec<(TaskType, TaskStats)>,
}

impl View for Stats {
    type V = Map<TaskTypeView, TaskStatsView>;

    closed spec fn view(&self) -> Map<TaskTypeView, TaskStatsView> {
        map_of(stats_entries(self.tasks@))
    }
}

/// The entries have distinct task types and well-formed figures.
pub open spec fn entries_wf(v: Seq<(TaskType, TaskStats)>) -> bool {
    &&& keys_distinct(stats_entries(v))
    &&& forall|i: int| 0 <= i < v.len() ==> (#[trigger] v[i]).1.wf()
}

impl Default for Stats {
    fn default() -> (r: Self)
        ensures
            r@ == Map::<TaskTypeView, TaskStatsView>::empty(),
    {
        Stats::new()
    }
}

impl Stats {
    /// The entries, one per task type, in the order in which they are kept,
    /// which is the order in which `treeify` queues the root types.
    pub closed spec fn entries(self) -> Seq<(TaskType, TaskStats)> {
        self.tasks@
    }

    #[verifier::type_invariant]
    spec fn well_formed(self) -> bool {
        entries_wf(self.tasks@)
    }

    /// Statistics without tasks.
    pub fn new() -> (r: Stats)
        ensures
            r@ == Map::<TaskTypeView, TaskStatsView>::empty(),
    {
        let r = Stats { tasks: Vec::new() };
        assert(stats_entries(r.tasks@) =~= Seq::empty());
        r
    }

    /// Counts `task` under its type: its figures are added to those of the
    /// type, and each distinct reference (kind and referenced task) adds one
    /// to the count under its kind and the referenced task's type.
    pub fn add(&mut self, backend: &MemoryBackend, task: &Task)
        requires
            references_known(backend@, task@),
            add_fits(stats_of(old(self)@, task@.stats_type), task@, backend@),
        ensures
            final(self)@ == old(self)@.insert(
                task@.stats_type,
                stats_after_add(stats_of(old(self)@, task@.stats_type), task@, backend@),
            ),
    {
        proof {
            use_type_invariant(&*self);
        }
        let mut tasks: Vec<(TaskType, TaskStats)> = Vec::new();
        std::mem::swap(&mut tasks, &mut self.tasks);
        let ghost old_tasks = tasks@;
        let ghost es = stats_entries(old_tasks);
        let ty = task.get_stats_type();
        let n = tasks.len();
        let mut i: usize = 0;
        while i < n
            invariant
                n == tasks@.len(),
                tasks@ == old_tasks,
                es == stats_entries(old_tasks),
                i <= n,
                forall|j: int| 0 <= j < i ==> es[j].0 != ty@,
            ensures
                i <= n,
                i < n ==> es[i as int].0 == ty@,
                forall|j: int| 0 <= j < i ==> es[j].0 != ty@,
            decreases n - i,
        {
            if tasks[i].0.same_as(&ty) {
                break;
            }
            i = i + 1;
        }
        proof {
            lemma_map_of_dom(es);
        }
        if i < n {
            let (k, mut st) = tasks.remove(i);
            proof {
                lemma_map_of_index(es, i as int);
                assert(old_tasks[i as int].1.wf());
            }
            st.add_task(backend, task);
            let ghost v = st@;
            tasks.insert(i, (k, st));
            proof {
                assert(stats_entries(tasks@) =~= es.update(i as int, (es[i as int].0, v)));
                lemma_map_of_update(es, i as int, v);
                assert forall|j: int| 0 <= j < tasks@.len() implies (#[trigger] tasks@[j]).1.wf() by {
                    if j != i {
                        assert(tasks@[j] == old_tasks[j]);
                    }
                }
            }
        } else {
            let mut st = TaskStats::new();
            proof {
                assert(!map_of(es).dom().contains(ty@));
                assert(st@.references =~= empty_stats().references);
            }
            st.add_task(backend, task);
            let ghost v = st@;
            proof {
                lemma_map_of_push(es, ty@, v);
            }
            tasks.push((ty, st));
            proof {
                assert(stats_entries(tasks@) =~= es.push((ty@, v)));
                assert forall|j: int| 0 <= j < tasks@.len() implies (#[trigger] tasks@[j]).1.wf() by {
                    if j < n {
                        assert(tasks@[j] == old_tasks[j]);
                    }
                }
            }
        }
        self.tasks = tasks;
    }

    /// Merges away the task types whose entries are marked in `mask`.
    fn merge_mask(&mut self, mask: &Vec<bool>)
        requires
            mask@.len() == old(self).tasks@.len(),
        ensures
            merged_from(
                old(self)@,
                Set::new(|t: TaskTypeView| exists|i: int|
                    0 <= i < mask@.len() && mask@[i] && old(self).tasks@[i].0@ == t),
                final(self)@,
            ),
    {
        proof {
            use_type_invariant(&*self);
        }
        let ghost orig = self.tasks@;
        let ghost es = stats_entries(orig);
        let ghost big = map_of(es);
        let ghost sel = Set::new(|t: TaskTypeView| exists|i: int|
            0 <= i < mask@.len() && mask@[i] && orig[i].0@ == t);
        let n = self.tasks.len();
        let mut merged: Vec<(TaskType, TaskStats)> = Vec::new();
        proof {
            assert(stats_entries(merged@) =~= Seq::empty());
            assert(map_of(stats_entries(merged@)) =~= big.restrict(Set::empty()));
        }
        for i in 0..n
            invariant
                n == orig.len(),
                self.tasks@ == orig,
                mask@.len() == n,
                es == stats_entries(orig),
                big == map_of(es),
                entries_wf(orig),
                entries_wf(merged@),
                map_of(stats_entries(merged@)) == big.restrict(Set::new(|t: TaskTypeView| exists|j: int|
                    0 <= j < i && mask@[j] && orig[j].0@ == t)),
        {
            let ghost x = Set::new(|t: TaskTypeView| exists|j: int| 0 <= j < i && mask@[j] && orig[j].0@ == t);
            let ghost x1 = Set::new(|t: TaskTypeView| exists|j: int| 0 <= j < i + 1 && mask@[j] && orig[j].0@ == t);
            if mask[i] {
                let ty = self.tasks[i].0.clone();
                let st = self.tasks[i].1.duplicate();
                let ghost prev = merged@;
                merged.push((ty, st));
                proof {
                    assert(es[i as int] == (orig[i as int].0@, orig[i as int].1@));
                    assert(stats_entries(merged@) =~= stats_entries(prev).push(es[i as int]));
                    assert forall|k: TaskTypeView| #[trigger] x.contains(k) implies exists|j: int|
                        0 <= j < i && es[j].0 == k by {
                        let j = choose|j: int| 0 <= j < i && mask@[j] && orig[j].0@ == k;
                        assert(es[j].0 == orig[j].0@);
                    }
                    lemma_map_of_push_restrict(es, stats_entries(prev), x, i as int);
                    assert(x.insert(es[i as int].0) =~= x1);
                    assert(orig[i as int].1.wf());
                    assert forall|j: int| 0 <= j < merged@.len() implies (#[trigger] merged@[j]).1.wf() by {
                        if j < prev.len() {
                            assert(merged@[j] == prev[j]);
                        }
                    }
                }
            } else {
                proof {
                    assert(x =~= x1);
                }
            }
        }
        proof {
            assert(Set::new(|t: TaskTypeView| exists|j: int| 0 <= j < n && mask@[j] && orig[j].0@ == t) =~= sel);
            lemma_map_of_dom(es);
            lemma_map_of_all(es);
        }
        let ghost mm = big.restrict(sel);
        let mut out: Vec<(TaskType, TaskStats)> = Vec::new();
        proof {
            assert(stats_entries(out@) =~= Seq::empty());
        }
        for i in 0..n
            invariant
                n == orig.len(),
                self.tasks@ == orig,
                mask@.len() == n,
                es == stats_entries(orig),
                big == map_of(es),
                entries_wf(orig),
                entries_wf(merged@),
                mm == big.restrict(sel),
                map_of(stats_entries(merged@)) == mm,
                entries_wf(out@),
                forall|k: TaskTypeView| #[trigger] big.dom().contains(k) <==> exists|j: int| 0 <= j < es.len() && es[j].0 == k,
                forall|j: int| #![trigger es[j]] 0 <= j < es.len() ==> big.dom().contains(es[j].0) && big[es[j].0] == es[j].1,
                forall|t: TaskTypeView| #[trigger] map_of(stats_entries(out@)).dom().contains(t) <==> exists|j: int|
                    0 <= j < i && !mask@[j] && orig[j].0@ == t,
                forall|t: TaskTypeView| #[trigger] map_of(stats_entries(out@)).dom().contains(t) ==>
                    map_of(stats_entries(out@))[t] == (TaskStatsView { references: map_of(stats_entries(out@))[t].references, ..big[t] })
                    && refs_merged_from(big[t].references, mm, map_of(stats_entries(out@))[t].references),
        {
            if !mask[i] {
                let e = &self.tasks[i];
                proof {
                    assert(orig[i as int].1.wf());
                }
                let new_refs = merge_refs(&e.1.references, &merged);
                let st = TaskStats {
                    count: e.1.count,
                    executions: e.1.executions,
                    roots: e.1.roots,
                    scopes: e.1.scopes,
                    total_duration: e.1.total_duration,
                    total_current_duration: e.1.total_current_duration,
                    total_update_duration: e.1.total_update_duration,
                    max_duration: e.1.max_duration,
                    references: new_refs,
                };
                let ty = e.0.clone();
                let ghost prev = out@;
                let ghost pm = map_of(stats_entries(prev));
                proof {
                    assert(es[i as int] == (orig[i as int].0@, orig[i as int].1@));
                    if pm.dom().contains(ty@) {
                        let j = choose|j: int| 0 <= j < i && !mask@[j] && orig[j].0@ == ty@;
                        assert(es[j].0 == es[i as int].0);
                    }
                    lemma_map_of_push(stats_entries(prev), ty@, st@);
                }
                out.push((ty, st));
                proof {
                    assert(stats_entries(out@) =~= stats_entries(prev).push((ty@, st@)));
                    let om = map_of(stats_entries(out@));
                    assert(om == pm.insert(ty@, st@));
                    assert forall|j: int| 0 <= j < out@.len() implies (#[trigger] out@[j]).1.wf() by {
                        if j < prev.len() {
                            assert(out@[j] == prev[j]);
                        }
                    }
                    assert forall|t: TaskTypeView| #[trigger] om.dom().contains(t) <==> exists|j: int|
                        0 <= j < i + 1 && !mask@[j] && orig[j].0@ == t by {
                        if exists|j: int| 0 <= j < i + 1 && !mask@[j] && orig[j].0@ == t {
                            let j = choose|j: int| 0 <= j < i + 1 && !mask@[j] && orig[j].0@ == t;
                            if j < i {
                                assert(pm.dom().contains(t));
                            }
                        }
                    }
                    assert(big[ty@] == orig[i as int].1@) by {
                        assert(big[es[i as int].0] == es[i as int].1);
                    }
                    assert forall|t: TaskTypeView| #[trigger] om.dom().contains(t) implies
                        om[t] == (TaskStatsView { references: om[t].references, ..big[t] })
                        && refs_merged_from(big[t].references, mm, om[t].references) by {
                        if t != ty@ {
                            assert(pm.dom().contains(t));
                        }
                    }
                }
            } else {
                proof {
                    let om = map_of(stats_entries(out@));
                    assert forall|t: TaskTypeView| #[trigger] om.dom().contains(t) <==> exists|j: int|
                        0 <= j < i + 1 && !mask@[j] && orig[j].0@ == t by {
                        if exists|j: int| 0 <= j < i + 1 && !mask@[j] && orig[j].0@ == t {
                            let j = choose|j: int| 0 <= j < i + 1 && !mask@[j] && orig[j].0@ == t;
                            assert(j != i);
                        }
                    }
                }
            }
        }
        proof {
            let om = map_of(stats_entries(out@));
            assert forall|t: TaskTypeView| #[trigger] om.dom().contains(t) <==> big.dom().contains(t) && !sel.contains(t) by {
                if om.dom().contains(t) {
                    let j = choose|j: int| 0 <= j < n && !mask@[j] && orig[j].0@ == t;
                    assert(es[j].0 == t);
                    if sel.contains(t) {
                        let j2 = choose|j2: int| 0 <= j2 < mask@.len() && mask@[j2] && orig[j2].0@ == t;
                        assert(es[j2].0 == t);
                        assert(j2 != j);
                    }
                }
                if big.dom().contains(t) && !sel.contains(t) {
                    let j = choose|j: int| 0 <= j < es.len() && es[j].0 == t;
                    assert(orig[j].0@ == t);
                    assert(!mask@[j]);
                }
            }
        }
        self.tasks = out;
    }

    /// Merges away every task type for which `select` holds: those types are
    /// removed, and a child reference to one of them is replaced by the
    /// references that it and its merged descendants hold to types that stay.
    pub fn merge(&mut self, select: impl Fn(&TaskType, &TaskStats) -> bool)
        requires
            forall|t: &TaskType, s: &TaskStats| select.requires((t, s)),
        ensures
            exists|sel: Set<TaskTypeView>| #[trigger]
                merged_from(old(self)@, sel, final(self)@) && selected_by(select, old(self)@, sel),
    {
        proof {
            use_type_invariant(&*self);
        }
        let ghost orig = self.tasks@;
        let n = self.tasks.len();
        let mut mask: Vec<bool> = Vec::new();
        for i in 0..n
            invariant
                n == self.tasks@.len(),
                self.tasks@ == orig,
                mask@.len() == i,
                forall|t: &TaskType, s: &TaskStats| select.requires((t, s)),
                forall|j: int| 0 <= j < i ==> call_ensures(select, (&orig[j].0, &orig[j].1), #[trigger] mask@[j]),
        {
            let b = select(&self.tasks[i].0, &self.tasks[i].1);
            mask.push(b);
        }
        let ghost sel = Set::new(|t: TaskTypeView| exists|i: int|
            0 <= i < mask@.len() && mask@[i] && orig[i].0@ == t);
        let ghost big = self@;
        proof {
            let es = stats_entries(orig);
            lemma_map_of_dom(es);
            lemma_map_of_all(es);
            assert forall|t: TaskTypeView| #[trigger] big.dom().contains(t) implies
                (sel.contains(t) ==> exists|ty: TaskType, st: TaskStats|
                    ty@ == t && st@ == big[t] && call_ensures(select, (&ty, &st), true))
                && (!sel.contains(t) ==> exists|ty: TaskType, st: TaskStats|
                    ty@ == t && st@ == big[t] && call_ensures(select, (&ty, &st), false)) by {
                let j = choose|j: int| 0 <= j < es.len() && es[j].0 == t;
                assert(es[j] == (orig[j].0@, orig[j].1@));
                if sel.contains(t) {
                    let j2 = choose|j2: int| 0 <= j2 < mask@.len() && mask@[j2] && orig[j2].0@ == t;
                    assert(es[j2].0 == t);
                    assert(j2 == j);
                    assert(call_ensures(select, (&orig[j].0, &orig[j].1), mask@[j]));
                } else {
                    assert(!mask@[j]);
                    assert(call_ensures(select, (&orig[j].0, &orig[j].1), mask@[j]));
                }
            }
            assert forall|t: TaskTypeView| #[trigger] sel.contains(t) implies big.dom().contains(t) by {
                let j = choose|j: int| 0 <= j < mask@.len() && mask@[j] && orig[j].0@ == t;
                assert(es[j].0 == t);
            }
        }
        self.merge_mask(&mask);
        assert(merged_from(big, sel, self@) && selected_by(select, big, sel));
    }

    /// Merges away the resolve tasks (`ResolveNative` and `ResolveTrait`)
    /// into the tasks that refer to them as children.
    pub fn merge_resolve(&mut self)
        ensures
            merged_from(old(self)@, resolve_types(old(self)@.dom()), final(self)@),
            forall|t: TaskTypeView| #[trigger] final(self)@.dom().contains(t) ==> !(t is ResolveNative) && !(t is ResolveTrait),
    {
        proof {
            use_type_invariant(&*self);
        }
        let ghost orig = self.tasks@;
        let ghost big = self@;
        let n = self.tasks.len();
        let mut mask: Vec<bool> = Vec::new();
        for i in 0..n
            invariant
                n == self.tasks@.len(),
                self.tasks@ == orig,
                mask@.len() == i,
                forall|j: int| 0 <= j < i ==> #[trigger] mask@[j] == is_resolve_type(orig[j].0@),
        {
            let b = match &self.tasks[i].0 {
                TaskType::Root(_) | TaskType::Once(_) | TaskType::Native(_) => false,
                TaskType::ResolveNative(_) | TaskType::ResolveTrait(_, _) => true,
            };
            mask.push(b);
        }
        proof {
            let es = stats_entries(orig);
            lemma_map_of_dom(es);
            let sel = Set::new(|t: TaskTypeView| exists|i: int|
                0 <= i < mask@.len() && mask@[i] && orig[i].0@ == t);
            assert forall|t: TaskTypeView| sel.contains(t) <==> #[trigger] resolve_types(big.dom()).contains(t) by {
                if resolve_types(big.dom()).contains(t) {
                    let j = choose|j: int| 0 <= j < es.len() && es[j].0 == t;
                    assert(orig[j].0@ == t);
                    assert(mask@[j] == is_resolve_type(orig[j].0@));
                }
                if sel.contains(t) {
                    let j = choose|j: int| 0 <= j < mask@.len() && mask@[j] && orig[j].0@ == t;
                    assert(mask@[j] == is_resolve_type(orig[j].0@));
                    assert(es[j].0 == t);
                }
            }
            assert(sel =~= resolve_types(big.dom()));
        }
        self.merge_mask(&mask);
        proof {
            lemma_merge_resolve_removes_resolve_types(big, self@);
        }
    }

    /// Groups the task types into a tree by their child references: the
    /// types reached from a root type (one that no type refers to as a child)
    /// each occur in it exactly once, every entry carrying the figures of its
    /// type. Where a type lies is the placement that the search over the
    /// entries ends with: the root types at the top; a type found first under
    /// a parent, and found again under another parent, moved to the deepest
    /// entry common to the paths down to both. So each root type lies at the
    /// top, and each other type at the top or in the group of a type that
    /// reaches every type having it as a child.
    pub fn treeify(&self) -> (r: GroupTree)
        requires
            has_root(self@),
            children_known(self@),
        ensures
            r.primary is None,
            members(r) == reachable_types(self@),
            tree_ok(r, self@),
            occurs_once(r),
            exists|pl: Seq<Option<Option<usize>>>| {
                &&& search_outcome(self.entries(), pl)
                &&& pl.len() == self.entries().len()
                &&& tree_follows(r, self.entries(), pl)
                &&& placement_laws(self.entries(), self@, pl)
            },
    {
        proof {
            use_type_invariant(self);
        }
        let r = build_tree(&self.tasks);
        proof {
            let es = self.tasks@;
            let pl = choose|pl: Seq<Option<Option<usize>>>| {
                &&& search_outcome(es, pl)
                &&& pl.len() == es.len()
                &&& tree_follows(r, es, pl)
                &&& placement_laws(es, map_of(stats_entries(es)), pl)
            };
            assert(self.entries() == es);
            assert(self@ == map_of(stats_entries(es)));
        }
        r
    }

    /// Counts the task stored under `id` in `backend`, as `add` does.
    pub fn add_id(&mut self, backend: &MemoryBackend, id: TaskId)
        requires
            backend@.dom().contains(id),
            references_known(backend@, backend@[id]),
            add_fits(stats_of(old(self)@, backend@[id].stats_type), backend@[id], backend@),
        ensures
            final(self)@ == old(self)@.insert(
                backend@[id].stats_type,
                stats_after_add(stats_of(old(self)@, backend@[id].stats_type), backend@[id], backend@),
            ),
    {
        let task = backend.task(id).unwrap();
        self.add(backend, task);
    }
}


/// After the resolve tasks were merged away, no task type of the statistics
/// is a `ResolveNative` or a `ResolveTrait` type, and no reference of a
/// remaining type points at such a type that the statistics held; every
/// other type stays.
pub proof fn lemma_merge_resolve_removes_resolve_types(
    old: Map<TaskTypeView, TaskStatsView>,
    new: Map<TaskTypeView, TaskStatsView>,
)
    requires
        merged_from(old, resolve_types(old.dom()), new),
    ensures
        forall|t: TaskTypeView| #[trigger] new.dom().contains(t) ==> !(t is ResolveNative) && !(t is ResolveTrait),
        forall|t: TaskTypeView| #[trigger] old.dom().contains(t) && !(t is ResolveNative) && !(t is ResolveTrait)
            ==> new.dom().contains(t),
        forall|t: TaskTypeView, k: RefKeyView| #[trigger] new.dom().contains(t) && #[trigger] new[t].references.dom().contains(k)
            && old.dom().contains(k.1) ==> !(k.1 is ResolveNative) && !(k.1 is ResolveTrait),
{
    assert forall|t: TaskTypeView, k: RefKeyView| #[trigger] new.dom().contains(t) && #[trigger] new[t].references.dom().contains(k)
        && old.dom().contains(k.1) implies !(k.1 is ResolveNative) && !(k.1 is ResolveTrait) by {
        crate::merge::lemma_merge_leaves_no_merged_reference(old, resolve_types(old.dom()), new, t, k);
    }
}

/// Counting one more task keeps the longest duration: the new maximum is at
/// least the maximum before and at least the task's duration, and it is one
/// of the two.
pub proof fn lemma_add_keeps_max_duration(s: TaskStatsView, t: TaskView, backend: Map<TaskId, TaskView>)
    ensures
        stats_after_add(s, t, backend).max_duration >= s.max_duration,
        stats_after_add(s, t, backend).max_duration >= t.duration,
        stats_after_add(s, t, backend).max_duration == s.max_duration || stats_after_add(s, t, backend).max_duration
            == t.duration,
{
}

/// After a task was counted under its type, the type's longest duration is
/// at least that task's duration and at least the longest duration before;
/// the figures of the other types are unchanged.
pub proof fn lemma_stats_add_max_duration(
    old: Map<TaskTypeView, TaskStatsView>,
    new: Map<TaskTypeView, TaskStatsView>,
    t: TaskView,
    backend: Map<TaskId, TaskView>,
)
    requires
        new == old.insert(t.stats_type, stats_after_add(stats_of(old, t.stats_type), t, backend)),
    ensures
        new.dom().contains(t.stats_type),
        new[t.stats_type].max_duration >= t.duration,
        new[t.stats_type].max_duration >= stats_of(old, t.stats_type).max_duration,
        new[t.stats_type].max_duration == t.duration || new[t.stats_type].max_duration == stats_of(
            old,
            t.stats_type,
        ).max_duration,
{
    lemma_add_keeps_max_duration(stats_of(old, t.stats_type), t, backend);
}

/// Counting two tasks gives the same figures in either order: no figure
/// depends on which task was counted last.
pub proof fn lemma_add_order_irrelevant(s: TaskStatsView, t1: TaskView, t2: TaskView, backend: Map<TaskId, TaskView>)
    ensures
        stats_after_add(stats_after_add(s, t1, backend), t2, backend) == stats_after_add(
            stats_after_add(s, t2, backend),
            t1,
            backend,
        ),
{
    let a = stats_after_add(stats_after_add(s, t1, backend), t2, backend);
    let b = stats_after_add(stats_after_add(s, t2, backend), t1, backend);
    let r1 = added_references(s.references, backend, t1.references);
    let r2 = added_references(s.references, backend, t2.references);
    assert forall|k: RefKeyView| #[trigger] a.references.dom().contains(k) <==> b.references.dom().contains(k) by {}
    assert forall|k: RefKeyView| a.references.dom().contains(k) implies #[trigger] a.references[k] == b.references[k] by {
        assert(ref_count(r1, k) == ref_count(s.references, k) + new_references(backend, t1.references, k));
        assert(ref_count(r2, k) == ref_count(s.references, k) + new_references(backend, t2.references, k));
    }
    assert(a.references =~= b.references);
}

} // verus!
