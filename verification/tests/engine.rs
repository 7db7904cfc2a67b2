use turbo_tasks::backend::{MemoryBackend, Task};
use turbo_tasks::manager::{dynamic_call, trait_call, RawVc, TaskInput, TurboTasks};
use turbo_tasks::stats::{Stats, TaskStats};
use turbo_tasks::task_type::{Duration, FunctionId, ReferenceType, TaskId, TaskType, TraitTypeId};
use turbo_tasks::value::{TransientValue, Value};

fn task(id: u32, ty: TaskType, references: Vec<(ReferenceType, TaskId)>) -> Task {
    Task {
        id: TaskId { id },
        stats_type: ty,
        duration: Duration::from_nanos(10).unwrap(),
        last_duration: Duration::from_nanos(4).unwrap(),
        executions: 2,
        root: id == 1,
        scopes: 1,
        references,
    }
}

/// Native f1 (task 1) has a child resolve task (task 2), whose child is
/// native f3 (task 3).
fn chain_backend() -> MemoryBackend {
    let mut b = MemoryBackend::new();
    b.insert_task(task(1, TaskType::Native(FunctionId { id: 1 }), vec![(ReferenceType::Child, TaskId { id: 2 })]));
    b.insert_task(task(2, TaskType::ResolveNative(FunctionId { id: 2 }), vec![(ReferenceType::Child, TaskId { id: 3 })]));
    b.insert_task(task(3, TaskType::Native(FunctionId { id: 3 }), vec![]));
    b
}

fn same(a: &TaskType, b: &TaskType) -> bool {
    a.same_as(b)
}

#[test]
fn stats_add_counts_figures() {
    let b = chain_backend();
    let mut stats = Stats::new();
    stats.add_id(&b, TaskId { id: 1 });
    stats.add_id(&b, TaskId { id: 1 });
    stats.add_id(&b, TaskId { id: 2 });
    stats.add_id(&b, TaskId { id: 3 });
    let tree = stats.treeify();
    assert!(tree.primary.is_none());
    assert_eq!(tree.children.len(), 1);
    assert_eq!(tree.task_types.len(), 0);
    let (ty, s) = tree.children[0].primary.as_ref().unwrap();
    assert!(same(ty, &TaskType::Native(FunctionId { id: 1 })));
    assert_eq!(s.count, 2);
    assert_eq!(s.executions, 4);
    assert_eq!(s.roots, 2);
    assert_eq!(s.scopes, 2);
    assert_eq!(s.total_duration.as_nanos(), 20);
    assert_eq!(s.total_current_duration.as_nanos(), 8);
    assert_eq!(s.total_update_duration.as_nanos(), 8);
    assert_eq!(s.max_duration.as_nanos(), 10);
    assert_eq!(s.references.len(), 1);
    assert_eq!(s.references[0].1.count, 2);
}

#[test]
fn stats_add_counts_a_repeated_reference_once() {
    let mut b = MemoryBackend::new();
    b.insert_task(task(
        1,
        TaskType::Native(FunctionId { id: 1 }),
        vec![(ReferenceType::Dependency, TaskId { id: 2 }), (ReferenceType::Dependency, TaskId { id: 2 })],
    ));
    b.insert_task(task(2, TaskType::Native(FunctionId { id: 2 }), vec![]));
    let mut stats = Stats::new();
    stats.add_id(&b, TaskId { id: 1 });
    stats.add_id(&b, TaskId { id: 2 });
    let tree = stats.treeify();
    let entry = tree
        .task_types
        .iter()
        .find(|(ty, _)| same(ty, &TaskType::Native(FunctionId { id: 1 })))
        .unwrap();
    assert_eq!(entry.1.references.len(), 1);
    assert_eq!(entry.1.references[0].1.count, 1);
}

#[test]
fn stats_first_execution_is_no_update() {
    let mut b = MemoryBackend::new();
    let mut t = task(1, TaskType::Once(TaskId { id: 1 }), vec![]);
    t.executions = 1;
    b.insert_task(t);
    let mut stats = Stats::new();
    stats.add_id(&b, TaskId { id: 1 });
    let tree = stats.treeify();
    assert_eq!(tree.task_types[0].1.total_update_duration.as_nanos(), 0);
    assert_eq!(tree.task_types[0].1.executions, 1);
}

#[test]
fn stats_merge_resolve_replaces_resolve_children() {
    let b = chain_backend();
    let mut stats = Stats::new();
    for id in 1..=3 {
        stats.add_id(&b, TaskId { id });
    }
    stats.merge_resolve();
    let tree = stats.treeify();
    assert!(tree.primary.is_none());
    assert_eq!(tree.task_types.len(), 0);
    assert_eq!(tree.children.len(), 1);
    let group = &tree.children[0];
    let (pty, pstats) = group.primary.as_ref().unwrap();
    assert!(same(pty, &TaskType::Native(FunctionId { id: 1 })));
    assert_eq!(pstats.references.len(), 1);
    let ((rt, rty), rs) = &pstats.references[0];
    assert_eq!(*rt, ReferenceType::Child);
    assert!(same(rty, &TaskType::Native(FunctionId { id: 3 })));
    assert_eq!(rs.count, 1);
    assert_eq!(group.task_types.len(), 1);
    assert!(same(&group.task_types[0].0, &TaskType::Native(FunctionId { id: 3 })));
}

#[test]
fn stats_merge_resolve_twice_is_once() {
    let b = chain_backend();
    let mut stats = Stats::new();
    for id in 1..=3 {
        stats.add_id(&b, TaskId { id });
    }
    stats.merge_resolve();
    let once = format!("{:?}", stats.treeify());
    stats.merge_resolve();
    let twice = format!("{:?}", stats.treeify());
    assert_eq!(once, twice);
}

#[test]
fn stats_merge_drops_non_child_references_to_merged_types() {
    let mut b = MemoryBackend::new();
    b.insert_task(task(1, TaskType::Native(FunctionId { id: 1 }), vec![(ReferenceType::Input, TaskId { id: 2 })]));
    b.insert_task(task(2, TaskType::ResolveTrait(TraitTypeId { id: 7 }, "get".to_string()), vec![]));
    let mut stats = Stats::new();
    stats.add_id(&b, TaskId { id: 1 });
    stats.add_id(&b, TaskId { id: 2 });
    stats.merge(|ty, _| matches!(ty, TaskType::ResolveTrait(_, _)));
    let tree = stats.treeify();
    assert_eq!(tree.task_types.len(), 1);
    assert_eq!(tree.task_types[0].1.references.len(), 0);
}

#[test]
fn stats_treeify_places_shared_child_at_common_parent() {
    // 1 -> 2, 1 -> 3, 2 -> 4, 3 -> 4: type 4 lies in the group of 1.
    let mut b = MemoryBackend::new();
    let f = |i: u32| TaskType::Native(FunctionId { id: i });
    b.insert_task(task(1, f(1), vec![(ReferenceType::Child, TaskId { id: 2 }), (ReferenceType::Child, TaskId { id: 3 })]));
    b.insert_task(task(2, f(2), vec![(ReferenceType::Child, TaskId { id: 4 })]));
    b.insert_task(task(3, f(3), vec![(ReferenceType::Child, TaskId { id: 4 })]));
    b.insert_task(task(4, f(4), vec![]));
    let mut stats = Stats::new();
    for id in 1..=4 {
        stats.add_id(&b, TaskId { id });
    }
    let tree = stats.treeify();
    assert_eq!(tree.children.len(), 1);
    let g1 = &tree.children[0];
    assert!(same(&g1.primary.as_ref().unwrap().0, &f(1)));
    let mut leafs: Vec<u32> = g1
        .task_types
        .iter()
        .map(|(ty, _)| match ty {
            TaskType::Native(f) => f.id,
            _ => 0,
        })
        .collect();
    leafs.sort();
    assert_eq!(leafs, vec![2, 3, 4]);
}

#[test]
fn task_type_display_strings() {
    assert_eq!(TaskType::Root(TaskId { id: 1 }).to_display_string("x"), "root");
    assert_eq!(TaskType::Once(TaskId { id: 1 }).to_display_string("x"), "once");
    assert_eq!(TaskType::Native(FunctionId { id: 1 }).to_display_string("read"), "read");
    assert_eq!(TaskType::ResolveNative(FunctionId { id: 1 }).to_display_string("read"), "resolve read");
    assert_eq!(
        TaskType::ResolveTrait(TraitTypeId { id: 1 }, "path".to_string()).to_display_string("Asset"),
        "resolve trait Asset::path"
    );
}

#[test]
fn duration_limits() {
    assert!(Duration::from_nanos(u128::MAX).is_none());
    let d = Duration::from_nanos(5).unwrap();
    assert_eq!(d.add(Duration::zero()).as_nanos(), 5);
}

#[test]
fn turbo_tasks_ids_start_at_one() {
    let mut tt = TurboTasks::new();
    let a = tt.spawn_root_task();
    let b = tt.spawn_once_task();
    assert_eq!(a.id, 1);
    assert_eq!(b.id, 2);
}

#[test]
fn turbo_tasks_rounds_of_scheduling() {
    let mut tt = TurboTasks::new();
    assert!(tt.schedule());
    assert!(!tt.schedule());
    assert_eq!(tt.task_finished(), None);
    assert_eq!(tt.task_finished(), Some(2));
    assert!(tt.schedule());
    assert_eq!(tt.task_finished(), Some(1));
}

#[test]
fn dynamic_call_is_memoized() {
    let mut tt = TurboTasks::new();
    let f = FunctionId { id: 9 };
    let inputs = vec![TaskInput::U32(3), TaskInput::Bool(true)];
    let r1 = dynamic_call(&mut tt, f, inputs.clone());
    let r2 = dynamic_call(&mut tt, f, inputs.clone());
    assert_eq!(r1, r2);
    assert_eq!(r1, RawVc::TaskOutput(TaskId { id: 1 }));
    let r3 = dynamic_call(&mut tt, f, vec![TaskInput::U32(4)]);
    assert_eq!(r3, RawVc::TaskOutput(TaskId { id: 2 }));
}

#[test]
fn dynamic_call_with_unresolved_input_uses_resolve_task() {
    let mut tt = TurboTasks::new();
    let f = FunctionId { id: 9 };
    let unresolved = vec![TaskInput::TaskOutput(TaskId { id: 40 })];
    let r1 = tt.dynamic_call(f, unresolved.clone());
    let nothing = tt.dynamic_call(f, vec![TaskInput::Nothing]);
    let r2 = tt.dynamic_call(f, unresolved);
    assert_eq!(r1, r2);
    assert_ne!(r1, nothing);
    let native = tt.native_call(f, vec![TaskInput::TaskCell(TaskId { id: 40 }, 0)]);
    assert_ne!(native, r1);
}

#[test]
fn native_then_dynamic_call_share_the_task() {
    let mut tt = TurboTasks::new();
    let f = FunctionId { id: 2 };
    let r1 = tt.native_call(f, vec![TaskInput::Usize(1)]);
    let r2 = tt.dynamic_call(f, vec![TaskInput::Usize(1)]);
    assert_eq!(r1, r2);
}

#[test]
fn trait_call_is_memoized_by_name() {
    let mut tt = TurboTasks::new();
    let t = TraitTypeId { id: 5 };
    let inputs = vec![TaskInput::TaskCell(TaskId { id: 1 }, 0)];
    let r1 = trait_call(&mut tt, t, "path".to_string(), inputs.clone());
    let r2 = trait_call(&mut tt, t, "path".to_string(), inputs.clone());
    let r3 = trait_call(&mut tt, t, "content".to_string(), inputs);
    assert_eq!(r1, r2);
    assert_ne!(r1, r3);
}

#[test]
fn task_input_kinds() {
    assert!(!TaskInput::TaskOutput(TaskId { id: 1 }).is_resolved());
    assert!(TaskInput::TaskCell(TaskId { id: 1 }, 2).is_resolved());
    assert!(TaskInput::Nothing.is_nothing());
    assert!(!TaskInput::I32(-1).is_nothing());
}

#[test]
fn value_round_trip() {
    let v = Value::new(vec![1, 2, 3]);
    assert_eq!(v.get(), &vec![1, 2, 3]);
    assert_eq!(v.clone().into_value(), vec![1, 2, 3]);
    let t = TransientValue::new("a".to_string());
    assert_eq!(t.get(), "a");
    assert_eq!(t.into_value(), "a".to_string());
    assert!(Value::new(1) < Value::new(2));
    assert_eq!(*Value::new(3), 3);
    assert_eq!(TransientValue::new("abc".to_string()).len(), 3);
}

#[test]
fn backend_lookup() {
    let b = chain_backend();
    assert!(b.task(TaskId { id: 3 }).is_some());
    assert!(b.task(TaskId { id: 4 }).is_none());
    let mut ids: Vec<u32> = b.task_ids().iter().map(|t| t.id).collect();
    ids.sort();
    assert_eq!(ids, vec![1, 2, 3]);
}

#[test]
fn empty_task_stats() {
    let s = TaskStats::default();
    assert_eq!(s.count, 0);
    assert_eq!(s.executions, 0);
    assert_eq!(s.max_duration.as_nanos(), 0);
    assert!(s.references.is_empty());
    let copy = s.duplicate();
    assert_eq!(copy.roots, 0);
}

#[test]
fn stats_treeify_moved_parent_keeps_earlier_placement() {
    // 1 -> 2, 1 -> 3; 3 -> 4; 4 -> 5; 2 -> 5, 2 -> 6; 5 -> 7, 6 -> 7.
    // Type 7 is found under 5 and then under 6 and goes to their common
    // entry 2; type 5 is found again under 4 afterwards and goes up to 1.
    let mut b = MemoryBackend::new();
    let f = |i: u32| TaskType::Native(FunctionId { id: i });
    let c = |i: u32| (ReferenceType::Child, TaskId { id: i });
    b.insert_task(task(1, f(1), vec![c(2), c(3)]));
    b.insert_task(task(2, f(2), vec![c(5), c(6)]));
    b.insert_task(task(3, f(3), vec![c(4)]));
    b.insert_task(task(4, f(4), vec![c(5)]));
    b.insert_task(task(5, f(5), vec![c(7)]));
    b.insert_task(task(6, f(6), vec![c(7)]));
    b.insert_task(task(7, f(7), vec![]));
    let mut stats = Stats::new();
    for id in 1..=7 {
        stats.add_id(&b, TaskId { id });
    }
    let id_of = |ty: &TaskType| match ty {
        TaskType::Native(f) => f.id,
        _ => 0,
    };
    let tree = stats.treeify();
    assert_eq!(tree.children.len(), 1);
    assert!(tree.task_types.is_empty());
    let g1 = &tree.children[0];
    assert_eq!(id_of(&g1.primary.as_ref().unwrap().0), 1);
    let leafs1: Vec<u32> = g1.task_types.iter().map(|(ty, _)| id_of(ty)).collect();
    assert_eq!(leafs1, vec![5]);
    let mut groups1: Vec<u32> = g1.children.iter().map(|g| id_of(&g.primary.as_ref().unwrap().0)).collect();
    groups1.sort();
    assert_eq!(groups1, vec![2, 3]);
    for g in g1.children.iter() {
        let mut leafs: Vec<u32> = g.task_types.iter().map(|(ty, _)| id_of(ty)).collect();
        leafs.sort();
        assert!(g.children.is_empty());
        match id_of(&g.primary.as_ref().unwrap().0) {
            2 => assert_eq!(leafs, vec![6, 7]),
            _ => assert_eq!(leafs, vec![4]),
        }
    }
}
