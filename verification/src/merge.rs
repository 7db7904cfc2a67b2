//! Folding selected task types into the tasks that refer to them.
use vstd::prelude::*;
use vstd::set_lib::{set_int_range, lemma_int_range, lemma_len_subset};
use crate::assoc::{keys_distinct, map_of, lemma_map_of_dom, lemma_map_of_all, lemma_map_of_index};
use crate::stats::{RefKeyView, ReferenceStats, TaskStats, TaskStatsView, entries_wf, ref_entries, stats_entries};
use crate::task_type::{ReferenceType, TaskType, TaskTypeView};

verus! {

broadcast use vstd::set::group_set_axioms, vstd::seq_lib::group_seq_properties;

/// `b` is a child of `a`, both being task types of `m`.
pub open spec fn child_step(m: Map<TaskTypeView, TaskStatsView>, a: TaskTypeView, b: TaskTypeView) -> bool {
    &&& m.dom().contains(a)
    &&& m.dom().contains(b)
    &&& m[a].references.dom().contains((ReferenceType::Child, b))
}

/// `p` is a non-empty chain of task types of `m`, each a child of the one
/// before it.
pub open spec fn is_child_path(m: Map<TaskTypeView, TaskStatsView>, p: Seq<TaskTypeView>) -> bool {
    &&& p.len() >= 1
    &&& forall|i: int| 0 <= i < p.len() ==> m.dom().contains(#[trigger] p[i])
    &&& forall|i: int| #![trigger p[i]] 0 <= i < p.len() - 1 ==> child_step(m, p[i], p[i + 1])
}

/// `b` is `a` or a descendant of `a` through the child references of `m`.
pub open spec fn reaches(m: Map<TaskTypeView, TaskStatsView>, a: TaskTypeView, b: TaskTypeView) -> bool {
    exists|p: Seq<TaskTypeView>| #[trigger] is_child_path(m, p) && p[0] == a && p.last() == b
}

/// The reference keys that the merged type `a` stands for: every key held by
/// `a` or one of its merged descendants that points outside the merged types.
pub open spec fn descendant_refs(m: Map<TaskTypeView, TaskStatsView>, a: TaskTypeView) -> Set<RefKeyView> {
    Set::new(
        |k: RefKeyView|
            !m.dom().contains(k.1) && exists|t: TaskTypeView| #[trigger]
                reaches(m, a, t) && m[t].references.dom().contains(k),
    )
}

/// What the reference `e` becomes once the types of `m` are merged away:
/// itself where it points outside them; where it is a child reference to a
/// merged type, the references of that type and its merged descendants; else
/// nothing.
pub open spec fn expansion(m: Map<TaskTypeView, TaskStatsView>, e: RefKeyView) -> Set<RefKeyView> {
    if !m.dom().contains(e.1) {
        set![e]
    } else if e.0 != ReferenceType::Child {
        Set::empty()
    } else {
        descendant_refs(m, e.1)
    }
}

/// `r` is what the references `refs` become once the types of `m` are merged
/// away: its keys are those of the expansions, and each key keeps the count of
/// a reference whose expansion holds it.
pub open spec fn refs_merged_from(
    refs: Map<RefKeyView, nat>,
    m: Map<TaskTypeView, TaskStatsView>,
    r: Map<RefKeyView, nat>,
) -> bool {
    &&& forall|k: RefKeyView| #[trigger]
        r.dom().contains(k) <==> exists|e: RefKeyView| #[trigger]
            refs.dom().contains(e) && expansion(m, e).contains(k)
    &&& forall|k: RefKeyView| #[trigger]
        r.dom().contains(k) ==> exists|e: RefKeyView| #[trigger]
            refs.dom().contains(e) && expansion(m, e).contains(k) && r[k] == refs[e]
}

/// `new` is `old` with the task types of `sel` merged away: those types are
/// gone, and every remaining type keeps its figures, with its references
/// merged as `refs_merged_from` says over the entries of `old` in `sel`.
pub open spec fn merged_from(
    old: Map<TaskTypeView, TaskStatsView>,
    sel: Set<TaskTypeView>,
    new: Map<TaskTypeView, TaskStatsView>,
) -> bool {
    &&& forall|t: TaskTypeView| #[trigger]
        new.dom().contains(t) <==> old.dom().contains(t) && !sel.contains(t)
    &&& forall|t: TaskTypeView| #[trigger]
        new.dom().contains(t) ==> new[t] == (TaskStatsView { references: new[t].references, ..old[t] })
            && refs_merged_from(old[t].references, old.restrict(sel), new[t].references)
}

proof fn lemma_distinct_indices_bounded(s: Seq<usize>, n: usize)
    requires
        s.no_duplicates(),
        forall|i: int| 0 <= i < s.len() ==> #[trigger] s[i] < n,
    ensures
        s.len() <= n,
{
    let t = s.map_values(|x: usize| x as int);
    assert(t.no_duplicates()) by {
        assert forall|i: int, j: int| 0 <= i < t.len() && 0 <= j < t.len() && i != j implies t[i]
            != t[j] by {
            assert(s[i] != s[j]);
        }
    }
    t.unique_seq_to_set();
    lemma_int_range(0, n as int);
    assert(t.to_set().subset_of(set_int_range(0, n as int))) by {
        assert forall|x: int| t.to_set().contains(x) implies set_int_range(0, n as int).contains(x) by {
            let i = choose|i: int| 0 <= i < t.len() && t[i] == x;
            assert(s[i] < n);
        }
    }
    lemma_len_subset(t.to_set(), set_int_range(0, n as int));
}

/// A set of task types that holds `a` and every child of its members holds
/// every type on a child path from `a`.
pub proof fn lemma_closed_reach(
    m: Map<TaskTypeView, TaskStatsView>,
    vis: Set<TaskTypeView>,
    a: TaskTypeView,
    p: Seq<TaskTypeView>,
    z: int,
)
    requires
        vis.contains(a),
        forall|t: TaskTypeView, u: TaskTypeView| vis.contains(t) && #[trigger] child_step(m, t, u) ==> vis.contains(u),
        is_child_path(m, p),
        p[0] == a,
        0 <= z < p.len(),
    ensures
        vis.contains(p[z]),
    decreases z,
{
    if z > 0 {
        lemma_closed_reach(m, vis, a, p, z - 1);
        assert(child_step(m, p[z - 1], p[z]));
    }
}

/// The position of the entry of type `ty`, if there is one.
pub(crate) fn find_entry(entries: &Vec<(TaskType, TaskStats)>, ty: &TaskType) -> (r: Option<usize>)
    ensures
        r matches Some(i) ==> i < entries@.len() && entries@[i as int].0@ == ty@,
        r is None ==> forall|i: int| 0 <= i < entries@.len() ==> (#[trigger] entries@[i]).0@ != ty@,
{
    let n = entries.len();
    for i in 0..n
        invariant
            n == entries@.len(),
            forall|j: int| 0 <= j < i ==> (#[trigger] entries@[j]).0@ != ty@,
    {
        if entries[i].0.same_as(ty) {
            return Some(i);
        }
    }
    None
}

proof fn lemma_entry_in_map(entries: Seq<(TaskType, TaskStats)>, i: int)
    requires
        entries_wf(entries),
        0 <= i < entries.len(),
    ensures
        map_of(stats_entries(entries)).dom().contains(entries[i].0@),
        map_of(stats_entries(entries))[entries[i].0@] == entries[i].1@,
{
    lemma_map_of_index(stats_entries(entries), i);
}

proof fn lemma_not_in_map(entries: Seq<(TaskType, TaskStats)>, t: TaskTypeView)
    requires
        forall|i: int| 0 <= i < entries.len() ==> (#[trigger] entries[i]).0@ != t,
    ensures
        !map_of(stats_entries(entries)).dom().contains(t),
{
    lemma_map_of_dom(stats_entries(entries));
    if map_of(stats_entries(entries)).dom().contains(t) {
        let i = choose|i: int| 0 <= i < stats_entries(entries).len() && stats_entries(entries)[i].0 == t;
        assert(entries[i].0@ == t);
    }
}

proof fn lemma_ref_in_map(refs: Seq<((ReferenceType, TaskType), ReferenceStats)>, l: int)
    requires
        keys_distinct(ref_entries(refs)),
        0 <= l < refs.len(),
    ensures
        map_of(ref_entries(refs)).dom().contains((refs[l].0.0, refs[l].0.1@)),
        map_of(ref_entries(refs))[(refs[l].0.0, refs[l].0.1@)] == refs[l].1.count as nat,
{
    lemma_map_of_index(ref_entries(refs), l);
}

proof fn lemma_ref_in_list(refs: Seq<((ReferenceType, TaskType), ReferenceStats)>, k: RefKeyView) -> (l: int)
    requires
        map_of(ref_entries(refs)).dom().contains(k),
    ensures
        0 <= l < refs.len(),
        (refs[l].0.0, refs[l].0.1@) == k,
{
    lemma_map_of_dom(ref_entries(refs));
    let l = choose|l: int| 0 <= l < ref_entries(refs).len() && ref_entries(refs)[l].0 == k;
    l
}

/// Every key of `descendant_refs(m, merged[start])`, with the type of the
/// first merged entry in which it was found.
pub(crate) fn expand(merged: &Vec<(TaskType, TaskStats)>, start: usize) -> (keys: Vec<(ReferenceType, TaskType)>)
    requires
        entries_wf(merged@),
        start < merged@.len(),
    ensures
        forall|k: RefKeyView| #[trigger]
            descendant_refs(map_of(stats_entries(merged@)), merged@[start as int].0@).contains(k)
                <==> exists|q: int| 0 <= q < keys@.len() && (keys@[q].0, keys@[q].1@) == k,
{
    let ghost m = map_of(stats_entries(merged@));
    let ghost a = merged@[start as int].0@;
    let n = merged.len();
    let mut visited: Vec<usize> = Vec::new();
    let mut work: Vec<usize> = Vec::new();
    let mut keys: Vec<(ReferenceType, TaskType)> = Vec::new();
    visited.push(start);
    work.push(start);
    proof {
        lemma_entry_in_map(merged@, start as int);
        let p = seq![a];
        assert(is_child_path(m, p));
    }
    while work.len() > 0
        invariant
            n == merged@.len(),
            entries_wf(merged@),
            m == map_of(stats_entries(merged@)),
            a == merged@[start as int].0@,
            visited@.no_duplicates(),
            work@.no_duplicates(),
            forall|x: int| 0 <= x < visited@.len() ==> #[trigger] visited@[x] < n,
            forall|x: int| 0 <= x < work@.len() ==> visited@.contains(#[trigger] work@[x]),
            visited@.contains(start),
            forall|x: int| #![trigger visited@[x]]
                0 <= x < visited@.len() ==> reaches(m, a, merged@[visited@[x] as int].0@),
            forall|q: int| #![trigger keys@[q]]
                0 <= q < keys@.len() ==> descendant_refs(m, a).contains((keys@[q].0, keys@[q].1@)),
            // a visited entry that is no longer waiting has had all its references looked at
            forall|x: int, l: int| #![trigger visited@[x], merged@[visited@[x] as int].1.references@[l]]
                0 <= x < visited@.len() && !work@.contains(visited@[x]) && 0 <= l
                    < merged@[visited@[x] as int].1.references@.len() ==> {
                    let e = merged@[visited@[x] as int].1.references@[l];
                    &&& !m.dom().contains(e.0.1@) ==> exists|q: int|
                        0 <= q < keys@.len() && (keys@[q].0, keys@[q].1@) == (e.0.0, e.0.1@)
                    &&& m.dom().contains(e.0.1@) && e.0.0 == ReferenceType::Child ==> exists|y: int|
                        0 <= y < visited@.len() && merged@[visited@[y] as int].0@ == e.0.1@
                },
        decreases n - visited@.len(), work@.len(),
    {
        proof {
            lemma_distinct_indices_bounded(visited@, n);
        }
        let i = work.pop().unwrap();
        let ghost work0 = work@;
        let refs = &merged[i].1.references;
        let r_len = refs.len();
        proof {
            assert(visited@.contains(i));
            assert(merged@[i as int].1.wf());
            lemma_entry_in_map(merged@, i as int);
        }
        let ghost xi = choose|x: int| 0 <= x < visited@.len() && visited@[x] == i;
        let ghost visited0 = visited@;
        for l in 0..r_len
            invariant
                n == merged@.len(),
                r_len == refs@.len(),
                refs@ == merged@[i as int].1.references@,
                i < n,
                entries_wf(merged@),
                m == map_of(stats_entries(merged@)),
                a == merged@[start as int].0@,
                m.dom().contains(merged@[i as int].0@),
                m[merged@[i as int].0@] == merged@[i as int].1@,
                reaches(m, a, merged@[i as int].0@),
                visited@.no_duplicates(),
                work@.no_duplicates(),
                !work@.contains(i),
                visited@.len() >= visited0.len(),
                forall|x: int| 0 <= x < visited0.len() ==> visited@[x] == visited0[x],
                visited@.contains(i),
                0 <= xi < visited0.len() && visited0[xi] == i,
                work@.len() >= work0.len(),
                forall|x: int| 0 <= x < work0.len() ==> work@[x] == work0[x],
                forall|x: int| work0.len() <= x < work@.len() ==> !visited0.contains(#[trigger] work@[x]),
                forall|x: int| 0 <= x < visited@.len() ==> #[trigger] visited@[x] < n,
                forall|x: int| 0 <= x < work@.len() ==> visited@.contains(#[trigger] work@[x]),
                visited@.contains(start),
                forall|x: int| #![trigger visited@[x]]
                    0 <= x < visited@.len() ==> reaches(m, a, merged@[visited@[x] as int].0@),
                forall|q: int| #![trigger keys@[q]]
                    0 <= q < keys@.len() ==> descendant_refs(m, a).contains((keys@[q].0, keys@[q].1@)),
                visited@.len() - visited0.len() == work@.len() - work0.len(),
                forall|x: int, l2: int| #![trigger visited@[x], merged@[visited@[x] as int].1.references@[l2]]
                    0 <= x < visited@.len() && !work@.contains(visited@[x]) && (visited@[x] != i || l2 < l) && 0 <= l2
                        < merged@[visited@[x] as int].1.references@.len() ==> {
                        let e = merged@[visited@[x] as int].1.references@[l2];
                        &&& !m.dom().contains(e.0.1@) ==> exists|q: int|
                            0 <= q < keys@.len() && (keys@[q].0, keys@[q].1@) == (e.0.0, e.0.1@)
                        &&& m.dom().contains(e.0.1@) && e.0.0 == ReferenceType::Child ==> exists|y: int|
                            0 <= y < visited@.len() && merged@[visited@[y] as int].0@ == e.0.1@
                    },
        {
            let rt = refs[l].0.0;
            let ty = &refs[l].0.1;
            let ghost keys_b = keys@;
            let ghost visited_b = visited@;
            let ghost work_b = work@;
            proof {
                lemma_ref_in_map(refs@, l as int);
            }
            let found = find_entry(merged, ty);
            proof {
                if let Some(j) = found {
                    lemma_entry_in_map(merged@, j as int);
                } else {
                    lemma_not_in_map(merged@, ty@);
                }
            }
            match found {
                None => {
                    proof {
                        assert(descendant_refs(m, a).contains((rt, ty@)));
                    }
                    let ghost kprev = keys@;
                    keys.push((rt, ty.clone()));
                    proof {
                        assert(keys@[kprev.len() as int].1@ == ty@);
                        assert forall|q: int| #![trigger keys@[q]]
                            0 <= q < keys@.len() implies descendant_refs(m, a).contains((keys@[q].0, keys@[q].1@)) by {
                            if q < kprev.len() {
                                assert(keys@[q] == kprev[q]);
                            }
                        }
                        assert(keys@.len() == keys_b.len() + 1);
                        assert((keys@[keys_b.len() as int].0, keys@[keys_b.len() as int].1@) == (rt, ty@));
                    }
                }
                Some(j) => {
                    if rt == ReferenceType::Child {
                        let mut seen = false;
                        let vlen = visited.len();
                        for y in 0..vlen
                            invariant
                                vlen == visited@.len(),
                                seen <==> exists|z: int| 0 <= z < y && visited@[z] == j,
                        {
                            if visited[y] == j {
                                seen = true;
                            }
                        }
                        if !seen {
                            proof {
                                lemma_entry_in_map(merged@, j as int);
                                let p = choose|p: Seq<TaskTypeView>| #[trigger] is_child_path(m, p) && p[0] == a
                                    && p.last() == merged@[i as int].0@;
                                let p2 = p.push(merged@[j as int].0@);
                                assert(child_step(m, merged@[i as int].0@, merged@[j as int].0@));
                                assert(is_child_path(m, p2));
                                assert(p2[0] == a && p2.last() == merged@[j as int].0@);
                                assert(!visited0.contains(j));
                            }
                            visited.push(j);
                            work.push(j);
                            assert(merged@[visited@[visited@.len() - 1] as int].0@ == ty@);
                        } else {
                            let ghost z = choose|z: int| 0 <= z < visited@.len() && visited@[z] == j;
                            assert(merged@[visited@[z] as int].0@ == ty@);
                        }
                    }
                }
            }
            proof {
                assert(forall|q: int| 0 <= q < keys_b.len() ==> keys@[q] == keys_b[q]);
                assert(forall|x: int| 0 <= x < visited_b.len() ==> visited@[x] == visited_b[x]);
                assert forall|x: int, l2: int| #![trigger visited@[x], merged@[visited@[x] as int].1.references@[l2]]
                    0 <= x < visited@.len() && !work@.contains(visited@[x]) && (visited@[x] != i || l2 < l + 1) && 0 <= l2
                        < merged@[visited@[x] as int].1.references@.len() implies {
                        let e = merged@[visited@[x] as int].1.references@[l2];
                        &&& !m.dom().contains(e.0.1@) ==> exists|q: int|
                            0 <= q < keys@.len() && (keys@[q].0, keys@[q].1@) == (e.0.0, e.0.1@)
                        &&& m.dom().contains(e.0.1@) && e.0.0 == ReferenceType::Child ==> exists|y: int|
                            0 <= y < visited@.len() && merged@[visited@[y] as int].0@ == e.0.1@
                    } by {
                    let e = merged@[visited@[x] as int].1.references@[l2];
                    if visited@[x] == i && l2 == l {
                        assert(e == refs@[l as int]);
                        if !m.dom().contains(e.0.1@) {
                            let q = keys_b.len() as int;
                            assert((keys@[q].0, keys@[q].1@) == (e.0.0, e.0.1@));
                        }
                    } else {
                        assert(x < visited_b.len());
                        assert(visited_b[x] == visited@[x]);
                        assert(!work_b.contains(visited_b[x]));
                        assert(merged@[visited_b[x] as int].1.references@[l2] == e);
                        if !m.dom().contains(e.0.1@) {
                            let q = choose|q: int| 0 <= q < keys_b.len() && (keys_b[q].0, keys_b[q].1@) == (e.0.0, e.0.1@);
                            assert(keys@[q] == keys_b[q]);
                        }
                        if m.dom().contains(e.0.1@) && e.0.0 == ReferenceType::Child {
                            let y = choose|y: int| 0 <= y < visited_b.len() && merged@[visited_b[y] as int].0@ == e.0.1@;
                            assert(visited@[y] == visited_b[y]);
                        }
                    }
                }
            }
        }
        proof {
            lemma_distinct_indices_bounded(visited@, n);
        }
    }
    proof {
        // every type reachable from `a` was visited
        let vis = Set::new(|t: TaskTypeView| exists|y: int|
            0 <= y < visited@.len() && merged@[visited@[y] as int].0@ == t);
        assert(vis.contains(a)) by {
            let y = choose|y: int| 0 <= y < visited@.len() && visited@[y] == start;
            assert(merged@[visited@[y] as int].0@ == a);
        }
        assert forall|t: TaskTypeView, u: TaskTypeView| vis.contains(t) && #[trigger] child_step(m, t, u)
            implies vis.contains(u) by {
            let y = choose|y: int| 0 <= y < visited@.len() && merged@[visited@[y] as int].0@ == t;
            let v = visited@[y];
            lemma_entry_in_map(merged@, v as int);
            assert(merged@[v as int].1.wf());
            let l = lemma_ref_in_list(merged@[v as int].1.references@, (ReferenceType::Child, u));
            let e = merged@[v as int].1.references@[l];
            assert(!work@.contains(visited@[y]));
            assert(m.dom().contains(e.0.1@) && e.0.0 == ReferenceType::Child);
        }
        assert forall|k: RefKeyView| #[trigger] descendant_refs(m, a).contains(k) implies exists|q: int|
            0 <= q < keys@.len() && (keys@[q].0, keys@[q].1@) == k by {
            let t = choose|t: TaskTypeView| #[trigger] reaches(m, a, t) && m[t].references.dom().contains(k);
            let p = choose|p: Seq<TaskTypeView>| #[trigger] is_child_path(m, p) && p[0] == a && p.last() == t;
            lemma_closed_reach(m, vis, a, p, p.len() - 1);
            let y = choose|y: int|
                0 <= y < visited@.len() && merged@[visited@[y] as int].0@ == p[p.len() - 1];
            let v = visited@[y];
            lemma_entry_in_map(merged@, v as int);
            assert(merged@[v as int].1.wf());
            let l = lemma_ref_in_list(merged@[v as int].1.references@, k);
            assert(!work@.contains(visited@[y]));
        }
    }
    keys
}

/// The references `refs` once the types of `merged` are merged away: a
/// reference to an unmerged type stays; a child reference to a merged type is
/// replaced by the references that type stands for, each with the count of
/// the child reference; other references to merged types are dropped. Where
/// several references give one key, the later one in `refs` wins.
pub(crate) fn merge_refs(
    refs: &Vec<((ReferenceType, TaskType), ReferenceStats)>,
    merged: &Vec<(TaskType, TaskStats)>,
) -> (r: Vec<((ReferenceType, TaskType), ReferenceStats)>)
    requires
        entries_wf(merged@),
        keys_distinct(ref_entries(refs@)),
    ensures
        keys_distinct(ref_entries(r@)),
        refs_merged_from(
            map_of(ref_entries(refs@)),
            map_of(stats_entries(merged@)),
            map_of(ref_entries(r@)),
        ),
{
    let ghost m = map_of(stats_entries(merged@));
    let ghost rv = ref_entries(refs@);
    let mut result: Vec<((ReferenceType, TaskType), ReferenceStats)> = Vec::new();
    proof {
        assert(ref_entries(result@) =~= Seq::empty());
    }
    let n = refs.len();
    for i in 0..n
        invariant
            n == refs@.len(),
            rv == ref_entries(refs@),
            m == map_of(stats_entries(merged@)),
            entries_wf(merged@),
            keys_distinct(ref_entries(result@)),
            forall|k: RefKeyView| #[trigger] map_of(ref_entries(result@)).dom().contains(k) <==> exists|l: int|
                0 <= l < i && expansion(m, rv[l].0).contains(k),
            forall|k: RefKeyView| #[trigger] map_of(ref_entries(result@)).dom().contains(k) ==> exists|l: int|
                0 <= l < i && expansion(m, rv[l].0).contains(k) && map_of(ref_entries(result@))[k] == rv[l].1,
    {
        let rt = refs[i].0.0;
        let ty = &refs[i].0.1;
        let st = refs[i].1;
        let ghost ev = (rt, ty@);
        let ghost r0 = map_of(ref_entries(result@));
        assert(rv[i as int] == (ev, st.count as nat));
        let found = find_entry(merged, ty);
        proof {
            if let Some(j) = found {
                lemma_entry_in_map(merged@, j as int);
            } else {
                lemma_not_in_map(merged@, ty@);
            }
        }
        match found {
            None => {
                TaskStats::put_reference(&mut result, rt, ty.clone(), st);
                proof {
                    let r1 = map_of(ref_entries(result@));
                    assert(expansion(m, ev) == set![ev]);
                    assert forall|k: RefKeyView| #[trigger] r1.dom().contains(k) <==> exists|l: int|
                        0 <= l < i + 1 && expansion(m, rv[l].0).contains(k) by {
                        if k == ev {
                            assert(expansion(m, rv[i as int].0).contains(k));
                        }
                    }
                    assert forall|k: RefKeyView| #[trigger] r1.dom().contains(k) implies exists|l: int|
                        0 <= l < i + 1 && expansion(m, rv[l].0).contains(k) && r1[k] == rv[l].1 by {
                        if k == ev {
                            assert(expansion(m, rv[i as int].0).contains(k) && r1[k] == rv[i as int].1);
                        } else {
                            assert(r0.dom().contains(k));
                        }
                    }
                }
            }
            Some(j) => {
                if rt == ReferenceType::Child {
                    let keys = expand(merged, j);
                    let kn = keys.len();
                    assert(expansion(m, ev) == descendant_refs(m, merged@[j as int].0@));
                    for q in 0..kn
                        invariant
                            kn == keys@.len(),
                            keys_distinct(ref_entries(result@)),
                            m == map_of(stats_entries(merged@)),
                            rv == ref_entries(refs@),
                            rv[i as int] == (ev, st.count as nat),
                            i < n,
                            forall|k: RefKeyView| #[trigger]
                                expansion(m, ev).contains(k) <==> exists|q2: int|
                                    0 <= q2 < keys@.len() && (keys@[q2].0, keys@[q2].1@) == k,
                            forall|k: RefKeyView| #[trigger] map_of(ref_entries(result@)).dom().contains(k) <==> (exists|l: int|
                                0 <= l < i && expansion(m, rv[l].0).contains(k)) || (exists|q2: int|
                                0 <= q2 < q && (keys@[q2].0, keys@[q2].1@) == k),
                            forall|k: RefKeyView| #[trigger] map_of(ref_entries(result@)).dom().contains(k) ==> (exists|l: int|
                                0 <= l < i && expansion(m, rv[l].0).contains(k) && map_of(ref_entries(result@))[k] == rv[l].1)
                                || ((exists|q2: int| 0 <= q2 < q && (keys@[q2].0, keys@[q2].1@) == k)
                                    && map_of(ref_entries(result@))[k] == st.count as nat),
                    {
                        let ghost ra = map_of(ref_entries(result@));
                        let kk = keys[q].0;
                        let kt = keys[q].1.clone();
                        let ghost kv = (kk, kt@);
                        TaskStats::put_reference(&mut result, kk, kt, st);
                        proof {
                            let rb = map_of(ref_entries(result@));
                            assert((keys@[q as int].0, keys@[q as int].1@) == kv);
                            assert forall|k: RefKeyView| #[trigger] rb.dom().contains(k) <==> (exists|l: int|
                                0 <= l < i && expansion(m, rv[l].0).contains(k)) || (exists|q2: int|
                                0 <= q2 < q + 1 && (keys@[q2].0, keys@[q2].1@) == k) by {
                                if k == kv {
                                    assert((keys@[q as int].0, keys@[q as int].1@) == k);
                                }
                                if exists|q2: int| 0 <= q2 < q + 1 && (keys@[q2].0, keys@[q2].1@) == k {
                                    if k != kv {
                                        let q2 = choose|q2: int| 0 <= q2 < q + 1 && (keys@[q2].0, keys@[q2].1@) == k;
                                        assert(q2 < q);
                                    }
                                }
                            }
                            assert forall|k: RefKeyView| #[trigger] rb.dom().contains(k) implies (exists|l: int|
                                0 <= l < i && expansion(m, rv[l].0).contains(k) && rb[k] == rv[l].1)
                                || ((exists|q2: int| 0 <= q2 < q + 1 && (keys@[q2].0, keys@[q2].1@) == k)
                                    && rb[k] == st.count as nat) by {
                                if k == kv {
                                    assert((keys@[q as int].0, keys@[q as int].1@) == k);
                                } else {
                                    assert(ra.dom().contains(k));
                                    assert(rb[k] == ra[k]);
                                }
                            }
                        }
                    }
                    proof {
                        let r1 = map_of(ref_entries(result@));
                        assert forall|k: RefKeyView| #[trigger] r1.dom().contains(k) <==> exists|l: int|
                            0 <= l < i + 1 && expansion(m, rv[l].0).contains(k) by {
                            if expansion(m, rv[i as int].0).contains(k) {
                                assert(expansion(m, ev).contains(k));
                            }
                            if exists|l: int| 0 <= l < i + 1 && expansion(m, rv[l].0).contains(k) {
                                let l = choose|l: int| 0 <= l < i + 1 && expansion(m, rv[l].0).contains(k);
                                if l == i {
                                    assert(expansion(m, ev).contains(k));
                                }
                            }
                        }
                        assert forall|k: RefKeyView| #[trigger] r1.dom().contains(k) implies exists|l: int|
                            0 <= l < i + 1 && expansion(m, rv[l].0).contains(k) && r1[k] == rv[l].1 by {
                            if !(exists|l: int| 0 <= l < i && expansion(m, rv[l].0).contains(k) && r1[k] == rv[l].1) {
                                assert(expansion(m, ev).contains(k));
                                assert(expansion(m, rv[i as int].0).contains(k) && r1[k] == rv[i as int].1);
                            }
                        }
                    }
                } else {
                    proof {
                        assert(expansion(m, ev) =~= Set::empty());
                        let r1 = map_of(ref_entries(result@));
                        assert forall|k: RefKeyView| #[trigger] r1.dom().contains(k) <==> exists|l: int|
                            0 <= l < i + 1 && expansion(m, rv[l].0).contains(k) by {
                            if exists|l: int| 0 <= l < i + 1 && expansion(m, rv[l].0).contains(k) {
                                let l = choose|l: int| 0 <= l < i + 1 && expansion(m, rv[l].0).contains(k);
                                assert(l != i);
                            }
                        }
                    }
                }
            }
        }
    }
    proof {
        let rm = map_of(rv);
        lemma_map_of_dom(rv);
        lemma_map_of_all(rv);
        let r1 = map_of(ref_entries(result@));
        assert forall|k: RefKeyView| #[trigger] r1.dom().contains(k) <==> exists|e: RefKeyView| #[trigger]
            rm.dom().contains(e) && expansion(m, e).contains(k) by {
            if r1.dom().contains(k) {
                let l = choose|l: int| 0 <= l < n && expansion(m, rv[l].0).contains(k);
                assert(rm.dom().contains(rv[l].0));
            }
            if exists|e: RefKeyView| #[trigger] rm.dom().contains(e) && expansion(m, e).contains(k) {
                let e = choose|e: RefKeyView| #[trigger] rm.dom().contains(e) && expansion(m, e).contains(k);
                let l = choose|l: int| 0 <= l < rv.len() && rv[l].0 == e;
                assert(expansion(m, rv[l].0).contains(k));
            }
        }
        assert forall|k: RefKeyView| #[trigger] r1.dom().contains(k) implies exists|e: RefKeyView| #[trigger]
            rm.dom().contains(e) && expansion(m, e).contains(k) && r1[k] == rm[e] by {
            let l = choose|l: int| 0 <= l < n && expansion(m, rv[l].0).contains(k) && r1[k] == rv[l].1;
            assert(rm.dom().contains(rv[l].0) && rm[rv[l].0] == rv[l].1);
        }
    }
    result
}

} // verus!

verus! {

/// After a merge, no reference of a remaining type points to a merged type.
pub proof fn lemma_merge_leaves_no_merged_reference(
    old: Map<TaskTypeView, TaskStatsView>,
    sel: Set<TaskTypeView>,
    new: Map<TaskTypeView, TaskStatsView>,
    t: TaskTypeView,
    k: RefKeyView,
)
    requires
        merged_from(old, sel, new),
        new.dom().contains(t),
        new[t].references.dom().contains(k),
    ensures
        !(old.dom().contains(k.1) && sel.contains(k.1)),
{
    let m = old.restrict(sel);
    let e = choose|e: RefKeyView| #[trigger] old[t].references.dom().contains(e) && expansion(m, e).contains(k);
    if m.dom().contains(e.1) && e.0 == ReferenceType::Child {
        assert(descendant_refs(m, e.1).contains(k));
    }
}

/// Merging with nothing selected changes nothing.
pub proof fn lemma_merge_nothing(
    old: Map<TaskTypeView, TaskStatsView>,
    new: Map<TaskTypeView, TaskStatsView>,
)
    requires
        merged_from(old, Set::empty(), new),
    ensures
        new == old,
{
    let m = old.restrict(Set::empty());
    assert(m.dom() =~= Set::empty());
    assert forall|t: TaskTypeView| #[trigger] new.dom().contains(t) implies new[t] == old[t] by {
        let r = new[t].references;
        let refs = old[t].references;
        assert forall|k: RefKeyView| #[trigger] r.dom().contains(k) <==> refs.dom().contains(k) by {
            if r.dom().contains(k) {
                let e = choose|e: RefKeyView| #[trigger] refs.dom().contains(e) && expansion(m, e).contains(k);
                assert(expansion(m, e) == set![e]);
            }
            if refs.dom().contains(k) {
                assert(expansion(m, k).contains(k));
            }
        }
        assert forall|k: RefKeyView| #[trigger] r.dom().contains(k) implies r[k] == refs[k] by {
            let e = choose|e: RefKeyView| #[trigger] refs.dom().contains(e) && expansion(m, e).contains(k) && r[k] == refs[e];
            assert(expansion(m, e) == set![e]);
        }
        assert(r =~= refs);
    }
    assert(new.dom() =~= old.dom());
    assert(new =~= old);
}

/// Merging the resolve task types a second time changes nothing: after the
/// first merge no resolve type is left.
pub proof fn lemma_merge_resolve_idempotent(
    a: Map<TaskTypeView, TaskStatsView>,
    b: Map<TaskTypeView, TaskStatsView>,
    c: Map<TaskTypeView, TaskStatsView>,
)
    requires
        merged_from(a, crate::stats::resolve_types(a.dom()), b),
        merged_from(b, crate::stats::resolve_types(b.dom()), c),
    ensures
        c == b,
{
    assert(crate::stats::resolve_types(b.dom()) =~= Set::empty()) by {
        assert forall|t: TaskTypeView| !#[trigger] crate::stats::resolve_types(b.dom()).contains(t) by {
            if b.dom().contains(t) {
                assert(!crate::stats::resolve_types(a.dom()).contains(t));
            }
        }
    }
    lemma_merge_nothing(b, c);
}

} // verus!
