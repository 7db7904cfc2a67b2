//! Grouping the task types of statistics into a tree by their child
//! references.
use vstd::prelude::*;
use crate::merge::{child_step, is_child_path, reaches};
use crate::stats::{TaskStats, TaskStatsView, entries_wf, stats_entries, ref_entries};
use crate::assoc::{map_of, lemma_map_of_dom, lemma_map_of_index};
use crate::merge::find_entry;
use vstd::set_lib::{set_int_range, lemma_int_range, lemma_len_subset};
use crate::task_type::{ReferenceType, TaskType, TaskTypeView};

verus! {

broadcast use vstd::set::group_set_axioms, vstd::seq_lib::group_seq_properties;

/// A group of task types: an optional primary type with its figures, the
/// groups of its members that have members of their own, and its other
/// members with their figures.
#[derive(Debug)]
pub struct GroupTree {
    pub primary: Option<(TaskType, TaskStats)>,
    pub children: Vec<GroupTree>,
    pub task_types: Vec<(TaskType, TaskStats)>,
}

/// There is a child path of at least two types from `a` to `b`.
pub open spec fn strictly_reaches(m: Map<TaskTypeView, TaskStatsView>, a: TaskTypeView, b: TaskTypeView) -> bool {
    exists|p: Seq<TaskTypeView>| #[trigger] is_child_path(m, p) && p.len() >= 2 && p[0] == a && p.last() == b
}

/// The type of the group's own primary entry, if it has one.
pub open spec fn primary_type(g: GroupTree) -> Option<TaskTypeView> {
    match g.primary {
        Some(e) => Some(e.0@),
        None => None,
    }
}

/// The types directly in a group: its other members and the primaries of
/// its sub-groups.
pub open spec fn direct_types(g: GroupTree) -> Set<TaskTypeView> {
    Set::new(|t: TaskTypeView|
        (exists|i: int| 0 <= i < g.task_types@.len() && g.task_types@[i].0@ == t)
        || (exists|i: int| 0 <= i < g.children@.len() && primary_type(g.children@[i]) == Some(t)))
}

/// The types of the primary and the other members of a group, without
/// those of its sub-groups.
pub open spec fn own_types(g: GroupTree) -> Set<TaskTypeView> {
    Set::new(|t: TaskTypeView|
        primary_type(g) == Some(t)
        || (exists|i: int| 0 <= i < g.task_types@.len() && g.task_types@[i].0@ == t))
}

/// Every task type that occurs in the tree.
pub open spec fn members(g: GroupTree) -> Set<TaskTypeView>
    decreases g, 0nat,
{
    own_types(g).union(members_of(g.children@, g.children@.len()))
}

/// Every task type that occurs in the first `k` trees of `cs`.
pub open spec fn members_of(cs: Seq<GroupTree>, k: nat) -> Set<TaskTypeView>
    decreases cs, k,
{
    if k == 0 || k > cs.len() {
        Set::empty()
    } else {
        members_of(cs, (k - 1) as nat).union(members(cs[k - 1]))
    }
}

/// `t` lies directly in a group of the tree whose primary type is `p`:
/// among its other members or as the primary of one of its sub-groups.
pub open spec fn lies_under(g: GroupTree, t: TaskTypeView, p: Option<TaskTypeView>) -> bool
    decreases g, 0nat,
{
    (primary_type(g) == p && direct_types(g).contains(t)) || lies_under_any(g.children@, g.children@.len(), t, p)
}

/// `t` lies directly in a group with primary type `p` in one of the first
/// `k` trees of `cs`.
pub open spec fn lies_under_any(cs: Seq<GroupTree>, k: nat, t: TaskTypeView, p: Option<TaskTypeView>) -> bool
    decreases cs, k,
{
    if k == 0 || k > cs.len() {
        false
    } else {
        lies_under_any(cs, (k - 1) as nat, t, p) || lies_under(cs[k - 1], t, p)
    }
}

/// `t` is the primary type of a group of the tree (the tree itself or one
/// of its sub-groups at any depth).
pub open spec fn primary_in(g: GroupTree, t: TaskTypeView) -> bool
    decreases g, 0nat,
{
    primary_type(g) == Some(t) || primary_in_any(g.children@, g.children@.len(), t)
}

/// `t` is the primary type of a group in one of the first `k` trees of
/// `cs`.
pub open spec fn primary_in_any(cs: Seq<GroupTree>, k: nat, t: TaskTypeView) -> bool
    decreases cs, k,
{
    if k == 0 || k > cs.len() {
        false
    } else {
        primary_in_any(cs, (k - 1) as nat, t) || primary_in(cs[k - 1], t)
    }
}

/// A type is the primary of a group of a well-formed tree exactly when some
/// type lies directly in a group under it; the top group has no primary, so
/// in a tree from `treeify` the primaries are exactly the types that others
/// are placed under.
pub proof fn lemma_primary_iff_members(g: GroupTree, m: Map<TaskTypeView, TaskStatsView>, t: TaskTypeView)
    requires
        tree_ok(g, m),
        g.primary is Some ==> group_ok(g, m),
    ensures
        primary_in(g, t) <==> exists|u: TaskTypeView| #[trigger] lies_under(g, u, Some(t)),
    decreases g, 0nat,
{
    lemma_primary_iff_members_any(g.children@, g.children@.len(), m, t);
    if primary_type(g) == Some(t) {
        if g.task_types@.len() > 0 {
            let u = g.task_types@[0].0@;
            assert(direct_types(g).contains(u));
            assert(lies_under(g, u, Some(t)));
        } else {
            assert(group_ok(g.children@[0], m)) by {
                lemma_subtrees_ok_at(g.children@, g.children@.len(), m, 0);
            }
            let u = primary_type(g.children@[0])->0;
            assert(direct_types(g).contains(u));
            assert(lies_under(g, u, Some(t)));
        }
    }
    if primary_in_any(g.children@, g.children@.len(), t) {
        let u = choose|u: TaskTypeView| #[trigger] lies_under_any(g.children@, g.children@.len(), u, Some(t));
        assert(lies_under(g, u, Some(t)));
    }
    if exists|u: TaskTypeView| #[trigger] lies_under(g, u, Some(t)) {
        let u = choose|u: TaskTypeView| #[trigger] lies_under(g, u, Some(t));
        if !(primary_type(g) == Some(t) && direct_types(g).contains(u)) {
            assert(lies_under_any(g.children@, g.children@.len(), u, Some(t)));
            assert(primary_in_any(g.children@, g.children@.len(), t));
        }
    }
}

/// The same over the first `k` trees of `cs`.
pub proof fn lemma_primary_iff_members_any(cs: Seq<GroupTree>, k: nat, m: Map<TaskTypeView, TaskStatsView>, t: TaskTypeView)
    requires
        subtrees_ok(cs, k, m),
    ensures
        primary_in_any(cs, k, t) <==> exists|u: TaskTypeView| #[trigger] lies_under_any(cs, k, u, Some(t)),
    decreases cs, k,
{
    if k == 0 || k > cs.len() {
    } else {
        lemma_primary_iff_members_any(cs, (k - 1) as nat, m, t);
        lemma_primary_iff_members(cs[k - 1], m, t);
        if exists|u: TaskTypeView| #[trigger] lies_under_any(cs, k, u, Some(t)) {
            let u = choose|u: TaskTypeView| #[trigger] lies_under_any(cs, k, u, Some(t));
            if !lies_under_any(cs, (k - 1) as nat, u, Some(t)) {
                assert(lies_under(cs[k - 1], u, Some(t)));
            }
        }
        if primary_in_any(cs, (k - 1) as nat, t) {
            let u = choose|u: TaskTypeView| #[trigger] lies_under_any(cs, (k - 1) as nat, u, Some(t));
            assert(lies_under_any(cs, k, u, Some(t)));
        }
        if primary_in(cs[k - 1], t) {
            let u = choose|u: TaskTypeView| #[trigger] lies_under(cs[k - 1], u, Some(t));
            assert(lies_under_any(cs, k, u, Some(t)));
        }
    }
}

proof fn lemma_subtrees_ok_at(cs: Seq<GroupTree>, k: nat, m: Map<TaskTypeView, TaskStatsView>, i: int)
    requires
        subtrees_ok(cs, k, m),
        0 <= i < k <= cs.len(),
    ensures
        group_ok(cs[i], m),
        tree_ok(cs[i], m),
    decreases k,
{
    if i < k - 1 {
        lemma_subtrees_ok_at(cs, (k - 1) as nat, m, i);
    }
}

proof fn lemma_lies_under_any_push(cs: Seq<GroupTree>, g: GroupTree, k: nat, t: TaskTypeView, p: Option<TaskTypeView>)
    requires
        k <= cs.len(),
    ensures
        lies_under_any(cs.push(g), k, t, p) == lies_under_any(cs, k, t, p),
    decreases k,
{
    if k > 0 {
        lemma_lies_under_any_push(cs, g, (k - 1) as nat, t, p);
        assert(cs.push(g)[k - 1] == cs[k - 1]);
    }
}

/// Every entry of the group itself carries the figures that `m` holds for
/// its type.
pub open spec fn own_entries_ok(g: GroupTree, m: Map<TaskTypeView, TaskStatsView>) -> bool {
    &&& (g.primary matches Some(e) ==> m.dom().contains(e.0@) && e.1@ == m[e.0@] && e.1.wf())
    &&& forall|i: int| #![trigger g.task_types@[i]] 0 <= i < g.task_types@.len() ==> {
        let e = g.task_types@[i];
        m.dom().contains(e.0@) && e.1@ == m[e.0@] && e.1.wf()
    }
}

/// A sub-group: it has a primary type, at least one member, and each of its
/// direct members is reached from the primary by a child path.
pub open spec fn group_ok(g: GroupTree, m: Map<TaskTypeView, TaskStatsView>) -> bool {
    &&& g.primary is Some
    &&& g.task_types@.len() + g.children@.len() > 0
    &&& forall|t: TaskTypeView| #[trigger] direct_types(g).contains(t) ==> strictly_reaches(
        m,
        primary_type(g)->0,
        t,
    )
}

/// Every entry in the tree carries the figures of `m`, and every sub-group
/// is well formed.
pub open spec fn tree_ok(g: GroupTree, m: Map<TaskTypeView, TaskStatsView>) -> bool
    decreases g, 0nat,
{
    own_entries_ok(g, m) && subtrees_ok(g.children@, g.children@.len(), m)
}

/// The first `k` trees of `cs` are well-formed sub-groups.
pub open spec fn subtrees_ok(cs: Seq<GroupTree>, k: nat, m: Map<TaskTypeView, TaskStatsView>) -> bool
    decreases cs, k,
{
    if k == 0 || k > cs.len() {
        true
    } else {
        subtrees_ok(cs, (k - 1) as nat, m) && group_ok(cs[k - 1], m) && tree_ok(cs[k - 1], m)
    }
}

/// No task type occurs twice among `ts`.
pub open spec fn distinct_types(ts: Seq<(TaskType, TaskStats)>) -> bool {
    forall|i: int, j: int| 0 <= i < j < ts.len() ==> ts[i].0@ != ts[j].0@
}

/// No task type occurs twice in the tree: not in the group's own entries,
/// not in two of its sub-groups, and not both in the group and in a
/// sub-group.
pub open spec fn occurs_once(g: GroupTree) -> bool
    decreases g, 0nat,
{
    &&& distinct_types(g.task_types@)
    &&& trees_once(g.children@, g.children@.len())
    &&& forall|t: TaskTypeView| #[trigger] tt_types(g.task_types@).contains(t) ==> !members_of(g.children@, g.children@.len()).contains(t)
    &&& (g.primary matches Some(e) ==> !tt_types(g.task_types@).contains(e.0@)
        && !members_of(g.children@, g.children@.len()).contains(e.0@))
}

/// No task type occurs twice in the first `k` trees of `cs`, counted over
/// all of them.
pub open spec fn trees_once(cs: Seq<GroupTree>, k: nat) -> bool
    decreases cs, k,
{
    if k == 0 || k > cs.len() {
        true
    } else {
        &&& trees_once(cs, (k - 1) as nat)
        &&& occurs_once(cs[k - 1])
        &&& forall|t: TaskTypeView| #[trigger] members(cs[k - 1]).contains(t) ==> !members_of(cs, (k - 1) as nat).contains(t)
    }
}

proof fn lemma_trees_once_push(cs: Seq<GroupTree>, g: GroupTree, k: nat)
    requires
        k <= cs.len(),
    ensures
        trees_once(cs.push(g), k) == trees_once(cs, k),
    decreases k,
{
    if k > 0 {
        lemma_trees_once_push(cs, g, (k - 1) as nat);
        lemma_members_of_push(cs, g, (k - 1) as nat);
        assert(cs.push(g)[k - 1] == cs[k - 1]);
    }
}

proof fn lemma_members_of_push(cs: Seq<GroupTree>, g: GroupTree, k: nat)
    requires
        k <= cs.len(),
    ensures
        members_of(cs.push(g), k) == members_of(cs, k),
    decreases k,
{
    if k > 0 {
        lemma_members_of_push(cs, g, (k - 1) as nat);
        assert(cs.push(g)[k - 1] == cs[k - 1]);
    }
}

proof fn lemma_subtrees_ok_push(cs: Seq<GroupTree>, g: GroupTree, k: nat, m: Map<TaskTypeView, TaskStatsView>)
    requires
        k <= cs.len(),
    ensures
        subtrees_ok(cs.push(g), k, m) == subtrees_ok(cs, k, m),
    decreases k,
{
    if k > 0 {
        lemma_subtrees_ok_push(cs, g, (k - 1) as nat, m);
        assert(cs.push(g)[k - 1] == cs[k - 1]);
    }
}

/// `t` is a type of `m` that no type of `m` refers to as a child.
pub open spec fn is_root_type(m: Map<TaskTypeView, TaskStatsView>, t: TaskTypeView) -> bool {
    &&& m.dom().contains(t)
    &&& forall|s: TaskTypeView| #[trigger] m.dom().contains(s) ==> !m[s].references.dom().contains(
        (ReferenceType::Child, t),
    )
}

/// `t` is reached from a root type by child references.
pub open spec fn reachable_from_roots(m: Map<TaskTypeView, TaskStatsView>, t: TaskTypeView) -> bool {
    exists|r: TaskTypeView| #[trigger] is_root_type(m, r) && reaches(m, r, t)
}

/// The types reached from a root type by child references.
pub open spec fn reachable_types(m: Map<TaskTypeView, TaskStatsView>) -> Set<TaskTypeView> {
    Set::new(|t: TaskTypeView| reachable_from_roots(m, t))
}

/// `m` has a root type.
pub open spec fn has_root(m: Map<TaskTypeView, TaskStatsView>) -> bool {
    exists|r: TaskTypeView| #[trigger] is_root_type(m, r)
}

/// Every type that a reachable type refers to as a child is a type of `m`.
pub open spec fn children_known(m: Map<TaskTypeView, TaskStatsView>) -> bool {
    forall|t: TaskTypeView, u: TaskTypeView|
        reachable_from_roots(m, t) && #[trigger] m[t].references.dom().contains((ReferenceType::Child, u))
            ==> m.dom().contains(u)
}

/// Joining two child paths that meet gives a child path.
pub proof fn lemma_path_concat(m: Map<TaskTypeView, TaskStatsView>, p: Seq<TaskTypeView>, q: Seq<TaskTypeView>)
    requires
        is_child_path(m, p),
        is_child_path(m, q),
        p.last() == q[0],
    ensures
        is_child_path(m, p + q.drop_first()),
        (p + q.drop_first())[0] == p[0],
        (p + q.drop_first()).last() == q.last(),
        (p + q.drop_first()).len() == p.len() + q.len() - 1,
{
    let r = p + q.drop_first();
    assert forall|i: int| 0 <= i < r.len() implies m.dom().contains(#[trigger] r[i]) by {
        if i >= p.len() {
            assert(r[i] == q[i - p.len() + 1]);
        }
    }
    assert forall|i: int| #![trigger r[i]] 0 <= i < r.len() - 1 implies child_step(m, r[i], r[i + 1]) by {
        if i < p.len() - 1 {
            assert(r[i] == p[i] && r[i + 1] == p[i + 1]);
        } else if i == p.len() - 1 {
            assert(r[i] == q[0] && r[i + 1] == q[1]);
        } else {
            let j = i - p.len() + 1;
            assert(r[i] == q[j] && r[i + 1] == q[j + 1]);
        }
    }
    if q.len() == 1 {
        assert(r =~= p);
    } else {
        assert(r.last() == q.last());
    }
}

/// A strict path followed by a path is strict.
pub proof fn lemma_strict_then_reaches(m: Map<TaskTypeView, TaskStatsView>, a: TaskTypeView, b: TaskTypeView, c: TaskTypeView)
    requires
        strictly_reaches(m, a, b),
        reaches(m, b, c),
    ensures
        strictly_reaches(m, a, c),
        reaches(m, a, c),
{
    let p = choose|p: Seq<TaskTypeView>| #[trigger] is_child_path(m, p) && p.len() >= 2 && p[0] == a && p.last() == b;
    let q = choose|q: Seq<TaskTypeView>| #[trigger] is_child_path(m, q) && q[0] == b && q.last() == c;
    lemma_path_concat(m, p, q);
}

/// A path followed by one child step is strict.
pub proof fn lemma_reaches_then_child(m: Map<TaskTypeView, TaskStatsView>, a: TaskTypeView, b: TaskTypeView, c: TaskTypeView)
    requires
        reaches(m, a, b),
        child_step(m, b, c),
    ensures
        strictly_reaches(m, a, c),
        reaches(m, a, c),
{
    let p = choose|p: Seq<TaskTypeView>| #[trigger] is_child_path(m, p) && p[0] == a && p.last() == b;
    let q = seq![b, c];
    assert(is_child_path(m, q));
    lemma_path_concat(m, p, q);
}

/// Every type of `m` reaches itself.
pub proof fn lemma_reaches_self(m: Map<TaskTypeView, TaskStatsView>, a: TaskTypeView)
    requires
        m.dom().contains(a),
    ensures
        reaches(m, a, a),
{
    assert(is_child_path(m, seq![a]));
}

/// A type reachable from a root reaches itself.
pub proof fn lemma_reachable_reaches_self(m: Map<TaskTypeView, TaskStatsView>, t: TaskTypeView)
    requires
        reachable_from_roots(m, t),
    ensures
        reaches(m, t, t),
{
    let r = choose|r: TaskTypeView| #[trigger] is_root_type(m, r) && reaches(m, r, t);
    let p = choose|p: Seq<TaskTypeView>| #[trigger] is_child_path(m, p) && p[0] == r && p.last() == t;
    assert(m.dom().contains(p[p.len() - 1]));
    lemma_reaches_self(m, t);
}

/// Reaching is transitive.
pub proof fn lemma_reaches_trans(m: Map<TaskTypeView, TaskStatsView>, a: TaskTypeView, b: TaskTypeView, c: TaskTypeView)
    requires
        reaches(m, a, b),
        reaches(m, b, c),
    ensures
        reaches(m, a, c),
{
    let p = choose|p: Seq<TaskTypeView>| #[trigger] is_child_path(m, p) && p[0] == a && p.last() == b;
    let q = choose|q: Seq<TaskTypeView>| #[trigger] is_child_path(m, q) && q[0] == b && q.last() == c;
    lemma_path_concat(m, p, q);
}

/// The placement of entry `x` as a parent position, where it has one.
pub open spec fn par_of(pl: Seq<Option<Option<usize>>>, x: int) -> Option<int> {
    match pl[x] {
        Some(Some(p)) => Some(p as int),
        _ => None,
    }
}

/// The entries placed so far.
pub open spec fn placed_set(pl: Seq<Option<Option<usize>>>) -> Set<int> {
    Set::new(|x: int| 0 <= x < pl.len() && pl[x] is Some)
}

/// What holds of a placement: every placed entry's type is reachable from a
/// root; a placed entry's parent is placed, has a lower level, and reaches
/// it by a child path of at least two types.
pub open spec fn placement_ok(
    es: Seq<(TaskType, TaskStats)>,
    m: Map<TaskTypeView, TaskStatsView>,
    pl: Seq<Option<Option<usize>>>,
    lvl: Seq<int>,
    bound: int,
) -> bool {
    &&& pl.len() == es.len()
    &&& lvl.len() == es.len()
    &&& forall|x: int| #![trigger pl[x]] 0 <= x < pl.len() && pl[x] is Some ==> {
        &&& 0 <= lvl[x] < bound
        &&& reachable_from_roots(m, es[x].0@)
        &&& (par_of(pl, x) matches Some(p) ==> {
            &&& 0 <= p < pl.len()
            &&& pl[p] is Some
            &&& lvl[p] < lvl[x]
            &&& strictly_reaches(m, es[p].0@, es[x].0@)
        })
    }
}

proof fn lemma_type_index(es: Seq<(TaskType, TaskStats)>, t: TaskTypeView) -> (i: int)
    requires
        map_of(stats_entries(es)).dom().contains(t),
    ensures
        0 <= i < es.len(),
        es[i].0@ == t,
{
    lemma_map_of_dom(stats_entries(es));
    let i = choose|i: int| 0 <= i < stats_entries(es).len() && stats_entries(es)[i].0 == t;
    assert(stats_entries(es)[i] == (es[i].0@, es[i].1@));
    i
}

proof fn lemma_index_in_map(es: Seq<(TaskType, TaskStats)>, i: int)
    requires
        entries_wf(es),
        0 <= i < es.len(),
    ensures
        map_of(stats_entries(es)).dom().contains(es[i].0@),
        map_of(stats_entries(es))[es[i].0@] == es[i].1@,
{
    lemma_map_of_index(stats_entries(es), i);
}

proof fn lemma_same_type_same_index(es: Seq<(TaskType, TaskStats)>, i: int, j: int)
    requires
        entries_wf(es),
        0 <= i < es.len(),
        0 <= j < es.len(),
        es[i].0@ == es[j].0@,
    ensures
        i == j,
{
    if i != j {
        assert(stats_entries(es)[i].0 == stats_entries(es)[j].0);
    }
}

/// `x` lies `d` steps below a top entry: it has an ancestor `d` steps up
/// and none further.
pub open spec fn has_depth(pl: Seq<Option<Option<usize>>>, x: int, d: nat) -> bool {
    anc(pl, x, d) is Some && anc(pl, x, d + 1) is None
}

/// How many steps `x` lies below a top entry.
pub open spec fn depth(pl: Seq<Option<Option<usize>>>, x: int) -> nat {
    choose|d: nat| has_depth(pl, x, d)
}

/// The entries on the way from the top entry above `x` down to `x`, top
/// first.
#[verifier::opaque]
pub open spec fn root_path(pl: Seq<Option<Option<usize>>>, x: int) -> Seq<usize> {
    let d = depth(pl, x);
    Seq::new(d + 1, |q: int| anc(pl, x, (d - q) as nat)->0 as usize)
}

/// An entry has at most one depth.
proof fn lemma_depth_unique(pl: Seq<Option<Option<usize>>>, x: int, d1: nat, d2: nat)
    requires
        has_depth(pl, x, d1),
        has_depth(pl, x, d2),
    ensures
        d1 == d2,
{
    if d1 < d2 {
        lemma_anc_add(pl, x, d1 + 1, (d2 - d1 - 1) as nat);
        assert((d1 + 1 + (d2 - d1 - 1)) as nat == d2);
    } else if d2 < d1 {
        lemma_anc_add(pl, x, d2 + 1, (d1 - d2 - 1) as nat);
        assert((d2 + 1 + (d1 - d2 - 1)) as nat == d1);
    }
}

/// The entry at the largest position below `i` at which the two paths
/// hold the same entry.
pub open spec fn common_below(p1: Seq<usize>, p2: Seq<usize>, i: int) -> Option<usize>
    decreases i,
{
    if i <= 0 {
        None
    } else if p1[i - 1] == p2[i - 1] {
        Some(p1[i - 1])
    } else {
        common_below(p1, p2, i - 1)
    }
}

/// The deepest entry common to two paths, read from the shorter length
/// down.
pub open spec fn common_entry(p1: Seq<usize>, p2: Seq<usize>) -> Option<usize> {
    common_below(p1, p2, if p1.len() < p2.len() { p1.len() as int } else { p2.len() as int })
}

/// The path from the top down to `a`, or no path for the top itself.
pub open spec fn slot_path(pl: Seq<Option<Option<usize>>>, a: Option<usize>) -> Seq<usize> {
    match a {
        Some(e) => root_path(pl, e as int),
        None => Seq::empty(),
    }
}

/// The placement after `x`, placed under `cur`, is found again under
/// `placement`: unchanged where the two agree, else `x` goes to the deepest
/// entry common to the paths down to both (the top where there is none).
#[verifier::opaque]
pub open spec fn moved_up(pl: Seq<Option<Option<usize>>>, x: int, placement: Option<usize>) -> Seq<Option<Option<usize>>> {
    let cur = pl[x]->0;
    if cur == placement {
        pl
    } else {
        pl.update(x, Some(common_entry(slot_path(pl, placement), slot_path(pl, cur))))
    }
}

/// A list of the ancestors of `x`, `x` first and up to a top entry,
/// reversed, is the path down to `x`.
proof fn lemma_root_path_of(pl: Seq<Option<Option<usize>>>, x: int, up: Seq<usize>, r: Seq<usize>)
    requires
        up.len() >= 1,
        forall|k: int| #![trigger up[k]] 0 <= k < up.len() ==> anc(pl, x, k as nat) == Some(up[k] as int),
        anc(pl, x, up.len() as nat) is None,
        r.len() == up.len(),
        forall|q: int| 0 <= q < r.len() ==> r[q] == up[up.len() - 1 - q],
    ensures
        r == root_path(pl, x),
{
    let d = (up.len() - 1) as nat;
    assert(anc(pl, x, d) == Some(up[d as int] as int));
    assert(has_depth(pl, x, d));
    lemma_depth_unique(pl, x, depth(pl, x), d);
    reveal(root_path);
    assert forall|q: int| 0 <= q < r.len() implies r[q] == root_path(pl, x)[q] by {
        assert(r[q] == up[up.len() - 1 - q]);
        assert(anc(pl, x, (d - q) as nat) == Some(up[up.len() - 1 - q] as int));
    }
    assert(r =~= root_path(pl, x));
}

/// `new` is the placement `old` after `x` was found again under
/// `placement`.
#[verifier::opaque]
pub open spec fn is_moved_up(
    old: Seq<Option<Option<usize>>>,
    x: int,
    placement: Option<usize>,
    new: Seq<Option<Option<usize>>>,
) -> bool {
    new == moved_up(old, x, placement)
}

/// The entries on the way from a top entry down to `x`, top first.
fn get_path(
    pl: &Vec<Option<Option<usize>>>,
    x: usize,
    Ghost(es): Ghost<Seq<(TaskType, TaskStats)>>,
    Ghost(m): Ghost<Map<TaskTypeView, TaskStatsView>>,
    Ghost(lvl): Ghost<Seq<int>>,
    Ghost(bound): Ghost<int>,
) -> (r: Vec<usize>)
    requires
        placement_ok(es, m, pl@, lvl, bound),
        x < pl@.len(),
        pl@[x as int] is Some,
    ensures
        r@.len() >= 1,
        r@.last() == x,
        forall|k: int| #![trigger r@[k]] 0 <= k < r@.len() ==> {
            &&& r@[k] < pl@.len()
            &&& pl@[r@[k] as int] is Some
            &&& lvl[r@[k] as int] <= lvl[x as int]
            &&& reaches(m, es[r@[k] as int].0@, es[x as int].0@)
        },
        r@ == root_path(pl@, x as int),
{
    let mut up: Vec<usize> = Vec::new();
    up.push(x);
    let mut cur = x;
    proof {
        let r = choose|r: TaskTypeView| #[trigger] is_root_type(m, r) && reaches(m, r, es[x as int].0@);
        let p = choose|p: Seq<TaskTypeView>| #[trigger] is_child_path(m, p) && p[0] == r && p.last() == es[x as int].0@;
        assert(m.dom().contains(p[p.len() - 1]));
        lemma_reaches_self(m, es[x as int].0@);
    }
    loop
        invariant
            placement_ok(es, m, pl@, lvl, bound),
            x < pl@.len(),
            pl@[x as int] is Some,
            cur < pl@.len(),
            pl@[cur as int] is Some,
            up@.len() >= 1,
            up@[0] == x,
            up@.last() == cur,
            forall|k: int| #![trigger up@[k]] 0 <= k < up@.len() ==> anc(pl@, x as int, k as nat) == Some(up@[k] as int),
            forall|k: int| #![trigger up@[k]] 0 <= k < up@.len() ==> {
                &&& up@[k] < pl@.len()
                &&& pl@[up@[k] as int] is Some
                &&& lvl[up@[k] as int] <= lvl[x as int]
                &&& reaches(m, es[up@[k] as int].0@, es[x as int].0@)
            },
        ensures
            up@.len() >= 1,
            up@[0] == x,
            forall|k: int| #![trigger up@[k]] 0 <= k < up@.len() ==> anc(pl@, x as int, k as nat) == Some(up@[k] as int),
            forall|k: int| #![trigger up@[k]] 0 <= k < up@.len() ==> {
                &&& up@[k] < pl@.len()
                &&& pl@[up@[k] as int] is Some
                &&& lvl[up@[k] as int] <= lvl[x as int]
                &&& reaches(m, es[up@[k] as int].0@, es[x as int].0@)
            },
            anc(pl@, x as int, up@.len() as nat) is None,
        decreases lvl[cur as int],
    {
        match pl[cur] {
            Some(Some(p)) => {
                proof {
                    assert(par_of(pl@, cur as int) == Some(p as int));
                    lemma_strict_then_reaches(m, es[p as int].0@, es[cur as int].0@, es[x as int].0@);
                    assert(anc(pl@, x as int, (up@.len() - 1) as nat) == Some(cur as int));
                    lemma_anc_step(pl@, x as int, (up@.len() - 1) as nat, cur as int);
                }
                let ghost ub = up@;
                up.push(p);
                cur = p;
                proof {
                    assert forall|k: int| #![trigger up@[k]] 0 <= k < up@.len() implies anc(pl@, x as int, k as nat) == Some(up@[k] as int) by {
                        if k < ub.len() {
                            assert(up@[k] == ub[k]);
                        }
                    }
                }
            },
            _ => {
                proof {
                    assert(par_of(pl@, cur as int) is None);
                    assert(anc(pl@, x as int, (up@.len() - 1) as nat) == Some(cur as int));
                    lemma_anc_step(pl@, x as int, (up@.len() - 1) as nat, cur as int);
                    assert((up@.len() - 1 + 1) as nat == up@.len() as nat);
                }
                break;
            },
        }
    }
    let mut r: Vec<usize> = Vec::new();
    let k = up.len();
    let mut i = k;
    while i > 0
        invariant
            k == up@.len(),
            i <= k,
            r@.len() == k - i,
            forall|q: int| 0 <= q < r@.len() ==> r@[q] == up@[k - 1 - q],
        decreases i,
    {
        i = i - 1;
        r.push(up[i]);
    }
    proof {
        assert forall|q: int| #![trigger r@[q]] 0 <= q < r@.len() implies {
            &&& r@[q] < pl@.len()
            &&& pl@[r@[q] as int] is Some
            &&& lvl[r@[q] as int] <= lvl[x as int]
            &&& reaches(m, es[r@[q] as int].0@, es[x as int].0@)
        } by {
            assert(r@[q] == up@[k - 1 - q]);
        }
        assert(r@.last() == up@[0]);
        lemma_root_path_of(pl@, x as int, up@, r@);
    }
    r
}

/// The deepest position at which the two paths hold the same entry, read
/// from the shorter length down.
fn find_common(p1: &Vec<usize>, p2: &Vec<usize>) -> (r: Option<usize>)
    ensures
        r == common_entry(p1@, p2@),
        r matches Some(c) ==> p1@.contains(c) && p2@.contains(c),
{
    let mut i = if p1.len() < p2.len() {
        p1.len()
    } else {
        p2.len()
    };
    loop
        invariant
            i <= p1@.len(),
            i <= p2@.len(),
            common_entry(p1@, p2@) == common_below(p1@, p2@, i as int),
        decreases i,
    {
        if i == 0 {
            return None;
        }
        i = i - 1;
        if p1[i] == p2[i] {
            proof {
                assert(p1@[i as int] == p2@[i as int]);
                assert(p2@.contains(p1@[i as int]));
            }
            return Some(p1[i]);
        }
    }
}

fn is_child_referenced(es_v: &Vec<(TaskType, TaskStats)>, i: usize) -> (r: bool)
    requires
        entries_wf(es_v@),
        i < es_v@.len(),
    ensures
        r == !is_root_type(map_of(stats_entries(es_v@)), es_v@[i as int].0@),
{
    let ghost es = es_v@;
    let ghost m = map_of(stats_entries(es));
    let ghost t = es[i as int].0@;
    let ghost key = (ReferenceType::Child, t);
    proof {
        lemma_index_in_map(es, i as int);
    }
    let n = es_v.len();
    for j in 0..n
        invariant
            n == es.len(),
            es == es_v@,
            entries_wf(es),
            m == map_of(stats_entries(es)),
            i < n,
            t == es[i as int].0@,
            key == (ReferenceType::Child, t),
            forall|j2: int| 0 <= j2 < j ==> !m[es[j2].0@].references.dom().contains(key),
    {
        let refs = &es_v[j].1.references;
        let rn = refs.len();
        proof {
            lemma_index_in_map(es, j as int);
            assert(es[j as int].1.wf());
        }
        for l in 0..rn
            invariant
                rn == refs@.len(),
                n == es.len(),
                j < n,
                refs@ == es[j as int].1.references@,
                es[j as int].1.wf(),
                i < n,
                es == es_v@,
                t == es[i as int].0@,
                key == (ReferenceType::Child, t),
                m == map_of(stats_entries(es)),
                m.dom().contains(es[j as int].0@),
                m[es[j as int].0@] == es[j as int].1@,
                forall|l2: int| 0 <= l2 < l ==> ref_entries(refs@)[l2].0 != key,
        {
            if refs[l].0.0 == ReferenceType::Child && refs[l].0.1.same_as(&es_v[i].0) {
                proof {
                    lemma_map_of_index(ref_entries(refs@), l as int);
                    assert(ref_entries(refs@)[l as int].0 == key);
                    assert(m.dom().contains(es[j as int].0@));
                }
                return true;
            }
        }
        proof {
            lemma_map_of_dom(ref_entries(refs@));
            if m[es[j as int].0@].references.dom().contains(key) {
                let l = choose|l: int| 0 <= l < ref_entries(refs@).len() && ref_entries(refs@)[l].0 == key;
                assert(false);
            }
        }
    }
    proof {
        assert forall|s: TaskTypeView| #[trigger] m.dom().contains(s) implies !m[s].references.dom().contains(key) by {
            let j = lemma_type_index(es, s);
        }
    }
    false
}

/// Every queued entry is a task; one queued with a parent is a child of that
/// placed parent, one queued without is a root.
pub open spec fn queue_ok(
    es: Seq<(TaskType, TaskStats)>,
    m: Map<TaskTypeView, TaskStatsView>,
    pl: Seq<Option<Option<usize>>>,
    queue: Seq<(usize, Option<usize>)>,
) -> bool {
    forall|q: int| #![trigger queue[q]] 0 <= q < queue.len() ==> {
        &&& queue[q].0 < es.len()
        &&& (queue[q].1 matches Some(p) ==> p < es.len() && pl[p as int] is Some && child_step(
            m,
            es[p as int].0@,
            es[queue[q].0 as int].0@,
        ))
        &&& (queue[q].1 is None ==> is_root_type(m, es[queue[q].0 as int].0@))
    }
}

/// The entry `j` occurs in the queue.
pub open spec fn queued(queue: Seq<(usize, Option<usize>)>, j: int) -> bool {
    exists|q: int| 0 <= q < queue.len() && queue[q].0 == j
}

/// Every child of a placed entry has been queued.
pub open spec fn children_queued(
    es: Seq<(TaskType, TaskStats)>,
    m: Map<TaskTypeView, TaskStatsView>,
    pl: Seq<Option<Option<usize>>>,
    queue: Seq<(usize, Option<usize>)>,
) -> bool {
    forall|x: int, j: int| #![trigger pl[x], es[j]]
        0 <= x < es.len() && pl[x] is Some && 0 <= j < es.len() && child_step(m, es[x].0@, es[j].0@)
            ==> queued(queue, j)
}

/// The position of the entry of type `t`.
pub open spec fn type_index(es: Seq<(TaskType, TaskStats)>, t: TaskTypeView) -> int {
    choose|j: int| 0 <= j < es.len() && es[j].0@ == t
}

/// The queue entries for the child references among the first `k` of
/// `refs`, in their order, each with `x` as its parent.
pub open spec fn child_queue(
    es: Seq<(TaskType, TaskStats)>,
    x: usize,
    refs: Seq<((ReferenceType, TaskType), crate::stats::ReferenceStats)>,
    k: int,
) -> Seq<(usize, Option<usize>)>
    decreases k,
{
    if k <= 0 {
        Seq::empty()
    } else if refs[k - 1].0.0 == ReferenceType::Child {
        child_queue(es, x, refs, k - 1).push((type_index(es, refs[k - 1].0.1@) as usize, Some(x)))
    } else {
        child_queue(es, x, refs, k - 1)
    }
}

/// The queue entries for the root types among the first `k` entries, in
/// their order, each without a parent.
pub open spec fn root_queue(es: Seq<(TaskType, TaskStats)>, k: int) -> Seq<(usize, Option<usize>)>
    decreases k,
{
    if k <= 0 {
        Seq::empty()
    } else if is_root_type(map_of(stats_entries(es)), es[k - 1].0@) {
        root_queue(es, k - 1).push(((k - 1) as usize, None))
    } else {
        root_queue(es, k - 1)
    }
}

/// Handling the queue entry at `head`: an entry found again is moved up,
/// an entry found for the first time is placed there and its children are
/// queued under it.
pub open spec fn search_step(
    es: Seq<(TaskType, TaskStats)>,
    pl: Seq<Option<Option<usize>>>,
    queue: Seq<(usize, Option<usize>)>,
    head: int,
) -> (Seq<Option<Option<usize>>>, Seq<(usize, Option<usize>)>) {
    let x = queue[head].0;
    let placement = queue[head].1;
    if pl[x as int] is Some {
        (moved_up(pl, x as int, placement), queue)
    } else {
        let refs = es[x as int].1.references@;
        (pl.update(x as int, Some(placement)), queue + child_queue(es, x, refs, refs.len() as int))
    }
}

/// The placement once the queue is handled from `head` on, if that takes at
/// most `fuel` steps.
pub open spec fn search_run(
    es: Seq<(TaskType, TaskStats)>,
    pl: Seq<Option<Option<usize>>>,
    queue: Seq<(usize, Option<usize>)>,
    head: int,
    fuel: nat,
) -> Option<Seq<Option<Option<usize>>>>
    decreases fuel,
{
    if head >= queue.len() {
        Some(pl)
    } else if fuel == 0 {
        None
    } else {
        let next = search_step(es, pl, queue, head);
        search_run(es, next.0, next.1, head + 1, (fuel - 1) as nat)
    }
}

/// A placement of `n` entries with none of them placed.
pub open spec fn unplaced(n: nat) -> Seq<Option<Option<usize>>> {
    Seq::new(n, |i: int| None::<Option<usize>>)
}

/// `pl` is the placement that the search over `es` ends with: nothing
/// placed, the root types queued in order, and the queue handled to its end.
pub open spec fn search_outcome(es: Seq<(TaskType, TaskStats)>, pl: Seq<Option<Option<usize>>>) -> bool {
    exists|f: nat| #[trigger] search_run(
        es,
        unplaced(es.len()),
        root_queue(es, es.len() as int),
        0,
        f,
    ) == Some(pl)
}

/// Queues every child of entry `x` with `x` as its parent.
fn push_children(
    es_v: &Vec<(TaskType, TaskStats)>,
    queue: &mut Vec<(usize, Option<usize>)>,
    x: usize,
)
    requires
        entries_wf(es_v@),
        children_known(map_of(stats_entries(es_v@))),
        x < es_v@.len(),
        reachable_from_roots(map_of(stats_entries(es_v@)), es_v@[x as int].0@),
    ensures
        final(queue)@.len() >= old(queue)@.len(),
        forall|q: int| 0 <= q < old(queue)@.len() ==> final(queue)@[q] == old(queue)@[q],
        forall|q: int| #![trigger final(queue)@[q]] old(queue)@.len() <= q < final(queue)@.len() ==> final(queue)@[q].0 < es_v@.len()
            && final(queue)@[q].1 == Some(x) && child_step(
                map_of(stats_entries(es_v@)),
                es_v@[x as int].0@,
                es_v@[final(queue)@[q].0 as int].0@,
            ),
        forall|j: int| #![trigger es_v@[j]] 0 <= j < es_v@.len() && child_step(
            map_of(stats_entries(es_v@)),
            es_v@[x as int].0@,
            es_v@[j].0@,
        ) ==> queued(final(queue)@, j),
        forall|j: int| #![trigger es_v@[j]] 0 <= j < es_v@.len() && child_step(
            map_of(stats_entries(es_v@)),
            es_v@[x as int].0@,
            es_v@[j].0@,
        ) ==> exists|q: int| old(queue)@.len() <= q < final(queue)@.len() && final(queue)@[q] == (j as usize, Some(x)),
        final(queue)@ == old(queue)@ + child_queue(
            es_v@,
            x,
            es_v@[x as int].1.references@,
            es_v@[x as int].1.references@.len() as int,
        ),
{
    let ghost es = es_v@;
    let ghost m = map_of(stats_entries(es));
    let n = es_v.len();
    let refs = &es_v[x].1.references;
    let rn = refs.len();
    let ghost qa = queue@;
    proof {
        lemma_index_in_map(es, x as int);
        assert(es[x as int].1.wf());
    }
    for l in 0..rn
        invariant
            n == es.len(),
            es == es_v@,
            entries_wf(es),
            m == map_of(stats_entries(es)),
            children_known(m),
            x < n,
            reachable_from_roots(m, es[x as int].0@),
            m.dom().contains(es[x as int].0@),
            m[es[x as int].0@] == es[x as int].1@,
            es[x as int].1.wf(),
            rn == refs@.len(),
            refs@ == es[x as int].1.references@,
            queue@.len() >= qa.len(),
            forall|q: int| 0 <= q < qa.len() ==> queue@[q] == qa[q],
            forall|q: int| #![trigger queue@[q]] qa.len() <= q < queue@.len() ==> queue@[q].0 < n
                && queue@[q].1 == Some(x) && child_step(m, es[x as int].0@, es[queue@[q].0 as int].0@),
            forall|l2: int| #![trigger refs@[l2]] 0 <= l2 < l && refs@[l2].0.0 == ReferenceType::Child ==> exists|q: int|
                qa.len() <= q < queue@.len() && queue@[q].0 < n && es[queue@[q].0 as int].0@ == refs@[l2].0.1@,
            queue@ == qa + child_queue(es, x, refs@, l as int),
    {
        let ghost qb = queue@;
        if refs[l].0.0 == ReferenceType::Child {
            let ghost u = refs@[l as int].0.1@;
            proof {
                lemma_map_of_index(ref_entries(refs@), l as int);
                assert(ref_entries(refs@)[l as int].0 == (ReferenceType::Child, u));
                assert(m[es[x as int].0@].references.dom().contains((ReferenceType::Child, u)));
            }
            let found = find_entry(es_v, &refs[l].0.1);
            proof {
                if found is None {
                    let jj = lemma_type_index(es, u);
                    assert(es[jj].0@ != u);
                }
            }
            let j = found.unwrap();
            proof {
                lemma_index_in_map(es, j as int);
                assert(child_step(m, es[x as int].0@, es[j as int].0@));
                let c = type_index(es, u);
                assert(0 <= c < es.len() && es[c].0@ == u);
                lemma_same_type_same_index(es, c, j as int);
            }
            queue.push((j, Some(x)));
            proof {
                assert(queue@[queue@.len() - 1].0 == j);
            }
        }
        proof {
            assert forall|l2: int| #![trigger refs@[l2]] 0 <= l2 < l + 1 && refs@[l2].0.0 == ReferenceType::Child implies exists|q: int|
                qa.len() <= q < queue@.len() && queue@[q].0 < n && es[queue@[q].0 as int].0@ == refs@[l2].0.1@ by {
                if l2 < l {
                    let q = choose|q: int| qa.len() <= q < qb.len() && qb[q].0 < n && es[qb[q].0 as int].0@ == refs@[l2].0.1@;
                    assert(queue@[q] == qb[q]);
                } else {
                    assert(es[queue@[queue@.len() - 1].0 as int].0@ == refs@[l2].0.1@);
                }
            }
            assert(queue@ =~= qa + child_queue(es, x, refs@, l + 1));
        }
    }
    proof {
        assert forall|j: int| #![trigger es[j]] 0 <= j < n && child_step(m, es[x as int].0@, es[j].0@) implies queued(queue@, j) by {
            let l = lemma_ref_key_index(refs@, (ReferenceType::Child, es[j].0@));
            let q = choose|q: int| qa.len() <= q < queue@.len() && queue@[q].0 < n && es[queue@[q].0 as int].0@ == refs@[l].0.1@;
            lemma_same_type_same_index(es, queue@[q].0 as int, j);
        }
        assert forall|j: int| #![trigger es[j]] 0 <= j < n && child_step(m, es[x as int].0@, es[j].0@) implies exists|q: int|
            qa.len() <= q < queue@.len() && queue@[q] == (j as usize, Some(x)) by {
            let l = lemma_ref_key_index(refs@, (ReferenceType::Child, es[j].0@));
            let q = choose|q: int| qa.len() <= q < queue@.len() && queue@[q].0 < n && es[queue@[q].0 as int].0@ == refs@[l].0.1@;
            lemma_same_type_same_index(es, queue@[q].0 as int, j);
            assert(queue@[q] == (j as usize, Some(x)));
        }
    }
}

/// Moves a placed entry `x`, found again under `placement`, to the deepest
/// entry common to the paths of `placement` and of its current parent.
fn move_up(
    pl: &mut Vec<Option<Option<usize>>>,
    x: usize,
    placement: Option<usize>,
    Ghost(es): Ghost<Seq<(TaskType, TaskStats)>>,
    Ghost(m): Ghost<Map<TaskTypeView, TaskStatsView>>,
    Ghost(lvl): Ghost<Seq<int>>,
    Ghost(bound): Ghost<int>,
)
    requires
        placement_ok(es, m, old(pl)@, lvl, bound),
        x < old(pl)@.len(),
        old(pl)@[x as int] is Some,
        placement matches Some(a) ==> a < es.len() && old(pl)@[a as int] is Some && child_step(
            m,
            es[a as int].0@,
            es[x as int].0@,
        ),
    ensures
        placement_ok(es, m, final(pl)@, lvl, bound),
        final(pl)@.len() == old(pl)@.len(),
        forall|y: int| #![trigger final(pl)@[y]] 0 <= y < final(pl)@.len() ==> (final(pl)@[y] is Some
            <==> old(pl)@[y] is Some),
        is_moved_up(old(pl)@, x as int, placement, final(pl)@),
        par_of(final(pl)@, x as int) matches Some(c) ==> {
            &&& par_of(old(pl)@, x as int) matches Some(b) && reaches(m, es[c].0@, es[b].0@)
            &&& (placement matches Some(a) ==> reaches(m, es[c].0@, es[a as int].0@))
        },
{
    let cur = pl[x].unwrap();
    let same = match (placement, cur) {
        (Some(a), Some(b)) => a == b,
        (None, None) => true,
        _ => false,
    };
    if !same {
        let p1 = match placement {
            Some(a) => get_path(pl, a, Ghost(es), Ghost(m), Ghost(lvl), Ghost(bound)),
            None => Vec::new(),
        };
        let p2 = match cur {
            Some(b) => get_path(pl, b, Ghost(es), Ghost(m), Ghost(lvl), Ghost(bound)),
            None => Vec::new(),
        };
        let np = find_common(&p1, &p2);
        proof {
            if let Some(c) = np {
                let k1 = choose|k: int| 0 <= k < p1@.len() && p1@[k] == c;
                assert(p1@[k1] == c);
                let k2 = choose|k: int| 0 <= k < p2@.len() && p2@[k] == c;
                assert(p2@[k2] == c);
            }
        }
        proof {
            if let Some(c) = np {
                let b = cur.unwrap();
                let a = placement.unwrap();
                assert(par_of(pl@, x as int) == Some(b as int));
                let k2 = choose|k: int| 0 <= k < p2@.len() && p2@[k] == c;
                assert(p2@[k2] == c);
                let k1 = choose|k: int| 0 <= k < p1@.len() && p1@[k] == c;
                assert(p1@[k1] == c);
                lemma_reaches_then_child(m, es[c as int].0@, es[a as int].0@, es[x as int].0@);
            }
        }
        let ghost pl0 = pl@;
        pl.set(x, Some(np));
        proof {
            reveal(moved_up);
            reveal(is_moved_up);
            assert(pl@ =~= moved_up(pl0, x as int, placement));
        }
        proof {
            assert forall|y: int| #![trigger pl@[y]] 0 <= y < pl@.len() && pl@[y] is Some implies {
                &&& 0 <= lvl[y] < bound
                &&& reachable_from_roots(m, es[y].0@)
                &&& (par_of(pl@, y) matches Some(p) ==> {
                    &&& 0 <= p < pl@.len()
                    &&& pl@[p] is Some
                    &&& lvl[p] < lvl[y]
                    &&& strictly_reaches(m, es[p].0@, es[y].0@)
                })
            } by {
                assert(pl0[y] is Some);
                if let Some(p) = par_of(pl@, y) {
                    assert(pl0[p] is Some);
                }
            }
        }
    } else {
        proof {
            reveal(moved_up);
            reveal(is_moved_up);
            assert(cur == placement);
            if let Some(b) = cur {
                assert(par_of(pl@, x as int) == Some(b as int));
                assert(pl@[b as int] is Some);
                lemma_reachable_reaches_self(m, es[b as int].0@);
            }
        }
    }
}

proof fn lemma_place_new(
    es: Seq<(TaskType, TaskStats)>,
    m: Map<TaskTypeView, TaskStatsView>,
    pl0: Seq<Option<Option<usize>>>,
    lvl0: Seq<int>,
    bound: int,
    x: int,
    placement: Option<usize>,
)
    requires
        entries_wf(es),
        m == map_of(stats_entries(es)),
        placement_ok(es, m, pl0, lvl0, bound),
        0 <= x < pl0.len(),
        pl0[x] is None,
        placement matches Some(a) ==> a < es.len() && pl0[a as int] is Some && child_step(
            m,
            es[a as int].0@,
            es[x].0@,
        ),
        placement is None ==> is_root_type(m, es[x].0@),
        0 <= bound,
    ensures
        placement_ok(es, m, pl0.update(x, Some(placement)), lvl0.update(x, bound), bound + 1),
{
    let pl = pl0.update(x, Some(placement));
    let lvl = lvl0.update(x, bound);
    match placement {
        Some(a) => {
            let r = choose|r: TaskTypeView| #[trigger] is_root_type(m, r) && reaches(m, r, es[a as int].0@);
            lemma_reaches_then_child(m, r, es[a as int].0@, es[x].0@);
            let p = choose|p: Seq<TaskTypeView>| #[trigger] is_child_path(m, p) && p[0] == r && p.last() == es[a as int].0@;
            assert(m.dom().contains(p[p.len() - 1]));
            lemma_reaches_self(m, es[a as int].0@);
            lemma_reaches_then_child(m, es[a as int].0@, es[a as int].0@, es[x].0@);
        },
        None => {
            lemma_reaches_self(m, es[x].0@);
        },
    }
    assert forall|y: int| #![trigger pl[y]] 0 <= y < pl.len() && pl[y] is Some implies {
        &&& 0 <= lvl[y] < bound + 1
        &&& reachable_from_roots(m, es[y].0@)
        &&& (par_of(pl, y) matches Some(p) ==> {
            &&& 0 <= p < pl.len()
            &&& pl[p] is Some
            &&& lvl[p] < lvl[y]
            &&& strictly_reaches(m, es[p].0@, es[y].0@)
        })
    } by {
        if y != x {
            assert(pl0[y] is Some);
            assert(pl[y] == pl0[y]);
            assert(lvl[y] == lvl0[y]);
            if let Some(p) = par_of(pl, y) {
                assert(par_of(pl0, y) == Some(p));
                assert(pl0[p] is Some);
                assert(p != x);
                assert(lvl[p] == lvl0[p]);
            }
        } else {
            assert(lvl[y] == bound);
            if let Some(p) = par_of(pl, y) {
                assert(placement == Some(p as usize));
                assert(pl0[p] is Some);
                assert(p != x);
                assert(lvl[p] == lvl0[p]);
            } else {
                assert(placement is None);
            }
        }
    }
}

/// What holds while the placement search runs, `head` queue entries
/// having been handled.
pub open spec fn search_inv(
    es: Seq<(TaskType, TaskStats)>,
    m: Map<TaskTypeView, TaskStatsView>,
    pl: Seq<Option<Option<usize>>>,
    queue: Seq<(usize, Option<usize>)>,
    head: int,
    lvl: Seq<int>,
    ps: Set<int>,
) -> bool {
    &&& ps == placed_set(pl)
    &&& ps.finite()
    &&& placement_ok(es, m, pl, lvl, ps.len() as int)
    &&& 0 <= head <= queue.len()
    &&& queue_ok(es, m, pl, queue)
    &&& forall|q: int| #![trigger queue[q]] 0 <= q < head ==> pl[queue[q].0 as int] is Some
    &&& forall|j: int| 0 <= j < es.len() && is_root_type(m, #[trigger] es[j].0@) ==> queued(queue, j)
    &&& children_queued(es, m, pl, queue)
}

/// Every handled queue entry with a parent now lies under a type that
/// reaches that parent, or at the top.
pub open spec fn parents_reached(
    es: Seq<(TaskType, TaskStats)>,
    m: Map<TaskTypeView, TaskStatsView>,
    pl: Seq<Option<Option<usize>>>,
    queue: Seq<(usize, Option<usize>)>,
    head: int,
) -> bool {
    forall|q: int| #![trigger queue[q]] 0 <= q < head && queue[q].1 is Some ==> (par_of(pl, queue[q].0 as int) matches Some(c)
        ==> reaches(m, es[c].0@, es[queue[q].1->0 as int].0@))
}

/// Every placed root type lies at the top.
pub open spec fn roots_on_top(
    es: Seq<(TaskType, TaskStats)>,
    m: Map<TaskTypeView, TaskStatsView>,
    pl: Seq<Option<Option<usize>>>,
) -> bool {
    forall|x: int| #![trigger pl[x]] 0 <= x < pl.len() && pl[x] is Some && is_root_type(m, es[x].0@) ==> pl[x] == Some(
        None::<usize>,
    )
}

/// Every child of a placed entry is queued with that entry as its parent.
pub open spec fn parents_queued(
    es: Seq<(TaskType, TaskStats)>,
    m: Map<TaskTypeView, TaskStatsView>,
    pl: Seq<Option<Option<usize>>>,
    queue: Seq<(usize, Option<usize>)>,
) -> bool {
    forall|x: int, j: int| #![trigger pl[x], es[j]]
        0 <= x < es.len() && pl[x] is Some && 0 <= j < es.len() && child_step(m, es[x].0@, es[j].0@) ==> exists|q: int|
            0 <= q < queue.len() && queue[q] == (j as usize, Some(x as usize))
}

/// What the search keeps towards where types end up: roots at the top,
/// and handled entries under a type reaching their parent.
#[verifier::opaque]
pub open spec fn laws_inv(
    es: Seq<(TaskType, TaskStats)>,
    m: Map<TaskTypeView, TaskStatsView>,
    pl: Seq<Option<Option<usize>>>,
    queue: Seq<(usize, Option<usize>)>,
    head: int,
) -> bool {
    &&& parents_reached(es, m, pl, queue, head)
    &&& roots_on_top(es, m, pl)
    &&& parents_queued(es, m, pl, queue)
}

proof fn lemma_laws_after_move(
    es: Seq<(TaskType, TaskStats)>,
    m: Map<TaskTypeView, TaskStatsView>,
    pl0: Seq<Option<Option<usize>>>,
    pl1: Seq<Option<Option<usize>>>,
    queue: Seq<(usize, Option<usize>)>,
    head: int,
)
    requires
        0 <= head < queue.len(),
        queue_ok(es, m, pl0, queue),
        laws_inv(es, m, pl0, queue, head),
        pl0.len() == es.len(),
        (queue[head].0 as int) < pl0.len(),
        pl0[queue[head].0 as int] is Some,
        pl1 == moved_up(pl0, queue[head].0 as int, queue[head].1),
        par_of(pl1, queue[head].0 as int) matches Some(c) ==> {
            &&& par_of(pl0, queue[head].0 as int) matches Some(b) && reaches(m, es[c].0@, es[b].0@)
            &&& (queue[head].1 matches Some(a) ==> reaches(m, es[c].0@, es[a as int].0@))
        },
    ensures
        laws_inv(es, m, pl1, queue, head + 1),
{
    reveal(laws_inv);
    reveal(moved_up);
    let x = queue[head].0 as int;
    let placement = queue[head].1;
    assert(pl1.len() == pl0.len());
    assert forall|y: int| #![trigger pl1[y]] 0 <= y < pl1.len() && y != x implies pl1[y] == pl0[y] by {}
    assert(pl1[x] is Some);
    assert forall|q: int| #![trigger queue[q]] 0 <= q < head + 1 && queue[q].1 is Some implies (par_of(pl1, queue[q].0 as int) matches Some(c)
        ==> reaches(m, es[c].0@, es[queue[q].1->0 as int].0@)) by {
        let y = queue[q].0 as int;
        if y != x {
            assert(pl1[y] == pl0[y]);
        } else if q < head {
            if let Some(c) = par_of(pl1, x) {
                let b = par_of(pl0, x)->0;
                lemma_reaches_trans(m, es[c].0@, es[b].0@, es[queue[q].1->0 as int].0@);
            }
        }
    }
    assert forall|z: int| #![trigger pl1[z]] 0 <= z < pl1.len() && pl1[z] is Some && is_root_type(m, es[z].0@) implies pl1[z] == Some(
        None::<usize>,
    ) by {
        if z == x {
            assert(pl0[z] is Some);
            if let Some(p) = placement {
                assert(child_step(m, es[p as int].0@, es[x].0@));
                assert(m.dom().contains(es[p as int].0@));
            }
            assert(pl0[x] == Some(None::<usize>));
        } else {
            assert(pl1[z] == pl0[z]);
        }
    }
    assert forall|x2: int, j: int| #![trigger pl1[x2], es[j]]
        0 <= x2 < es.len() && pl1[x2] is Some && 0 <= j < es.len() && child_step(m, es[x2].0@, es[j].0@) implies exists|q: int|
            0 <= q < queue.len() && queue[q] == (j as usize, Some(x2 as usize)) by {
        if x2 != x {
            assert(pl1[x2] == pl0[x2]);
        }
        assert(pl0[x2] is Some);
    }
}

proof fn lemma_laws_after_place(
    es: Seq<(TaskType, TaskStats)>,
    m: Map<TaskTypeView, TaskStatsView>,
    pl0: Seq<Option<Option<usize>>>,
    pl1: Seq<Option<Option<usize>>>,
    q0: Seq<(usize, Option<usize>)>,
    queue: Seq<(usize, Option<usize>)>,
    head: int,
)
    requires
        0 <= head < q0.len(),
        queue_ok(es, m, pl0, q0),
        laws_inv(es, m, pl0, q0, head),
        pl0.len() == es.len(),
        (q0[head].0 as int) < pl0.len(),
        pl0[q0[head].0 as int] is None,
        forall|q: int| #![trigger q0[q]] 0 <= q < head ==> pl0[q0[q].0 as int] is Some,
        q0[head].1 matches Some(a) ==> reachable_from_roots(m, es[a as int].0@),
        pl1 == pl0.update(q0[head].0 as int, Some(q0[head].1)),
        queue.len() >= q0.len(),
        forall|q: int| 0 <= q < q0.len() ==> queue[q] == q0[q],
        forall|j: int| #![trigger es[j]] 0 <= j < es.len() && child_step(m, es[q0[head].0 as int].0@, es[j].0@) ==> exists|q: int|
            q0.len() <= q < queue.len() && queue[q] == (j as usize, Some(q0[head].0)),
    ensures
        laws_inv(es, m, pl1, queue, head + 1),
{
    reveal(laws_inv);
    let x = q0[head].0 as int;
    let placement = q0[head].1;
    assert forall|q: int| #![trigger queue[q]] 0 <= q < head + 1 && queue[q].1 is Some implies (par_of(pl1, queue[q].0 as int) matches Some(c)
        ==> reaches(m, es[c].0@, es[queue[q].1->0 as int].0@)) by {
        assert(queue[q] == q0[q]);
        let y = queue[q].0 as int;
        if q == head {
            let a = placement->0;
            assert(par_of(pl1, x) == Some(a as int));
            lemma_reachable_reaches_self(m, es[a as int].0@);
        } else {
            assert(pl0[q0[q].0 as int] is Some);
            assert(y != x);
            assert(pl1[y] == pl0[y]);
        }
    }
    assert forall|z: int| #![trigger pl1[z]] 0 <= z < pl1.len() && pl1[z] is Some && is_root_type(m, es[z].0@) implies pl1[z] == Some(
        None::<usize>,
    ) by {
        if z == x {
            if let Some(p) = placement {
                assert(q0[head] == q0[head]);
                assert(child_step(m, es[p as int].0@, es[x].0@));
                assert(m.dom().contains(es[p as int].0@));
            }
        } else {
            assert(pl1[z] == pl0[z]);
        }
    }
    assert forall|x2: int, j: int| #![trigger pl1[x2], es[j]]
        0 <= x2 < es.len() && pl1[x2] is Some && 0 <= j < es.len() && child_step(m, es[x2].0@, es[j].0@) implies exists|q: int|
            0 <= q < queue.len() && queue[q] == (j as usize, Some(x2 as usize)) by {
        if x2 != x {
            assert(pl1[x2] == pl0[x2]);
            assert(pl0[x2] is Some);
            let q = choose|q: int| 0 <= q < q0.len() && q0[q] == (j as usize, Some(x2 as usize));
            assert(queue[q] == q0[q]);
        } else {
            assert(es[j] == es[j]);
            assert(x2 as usize == q0[head].0);
        }
    }
}

/// Where the search leaves the types: each placed root type at the top,
/// and each placed type either at the top or under a type that reaches every
/// placed type having it as a child.
pub open spec fn placement_laws(
    es: Seq<(TaskType, TaskStats)>,
    m: Map<TaskTypeView, TaskStatsView>,
    pl: Seq<Option<Option<usize>>>,
) -> bool {
    &&& roots_on_top(es, m, pl)
    &&& forall|x: int, p: int| #![trigger pl[x], pl[p]]
        0 <= x < pl.len() && 0 <= p < pl.len() && pl[x] is Some && pl[p] is Some && child_step(m, es[p].0@, es[x].0@)
            ==> (par_of(pl, x) matches Some(c) ==> reaches(m, es[c].0@, es[p].0@))
}

/// Moving an entry that is already placed keeps the search invariant and
/// handles the queue entry at `head`.
proof fn lemma_search_inv_after_move(
    es: Seq<(TaskType, TaskStats)>,
    m: Map<TaskTypeView, TaskStatsView>,
    pl0: Seq<Option<Option<usize>>>,
    pl1: Seq<Option<Option<usize>>>,
    queue: Seq<(usize, Option<usize>)>,
    head: int,
    lvl: Seq<int>,
    ps: Set<int>,
)
    requires
        search_inv(es, m, pl0, queue, head, lvl, ps),
        head < queue.len(),
        pl0[queue[head].0 as int] is Some,
        placement_ok(es, m, pl1, lvl, ps.len() as int),
        pl1.len() == pl0.len(),
        forall|y: int| #![trigger pl1[y]] 0 <= y < pl1.len() ==> (pl1[y] is Some <==> pl0[y] is Some),
    ensures
        search_inv(es, m, pl1, queue, head + 1, lvl, ps),
{
    assert(ps =~= placed_set(pl1));
    assert forall|q: int| #![trigger queue[q]] 0 <= q < queue.len() implies {
        &&& queue[q].0 < es.len()
        &&& (queue[q].1 matches Some(p) ==> p < es.len() && pl1[p as int] is Some && child_step(
            m,
            es[p as int].0@,
            es[queue[q].0 as int].0@,
        ))
        &&& (queue[q].1 is None ==> is_root_type(m, es[queue[q].0 as int].0@))
    } by {
        if let Some(p) = queue[q].1 {
            assert(pl0[p as int] is Some);
        }
    }
    assert forall|q: int| #![trigger queue[q]] 0 <= q < head + 1 implies pl1[queue[q].0 as int] is Some by {
        assert(pl0[queue[q].0 as int] is Some);
    }
    assert forall|x2: int, j: int| #![trigger pl1[x2], es[j]]
        0 <= x2 < es.len() && pl1[x2] is Some && 0 <= j < es.len() && child_step(m, es[x2].0@, es[j].0@)
            implies queued(queue, j) by {
        assert(pl0[x2] is Some);
    }
}

/// Handles the queue entry at `head`.
fn step(
    es_v: &Vec<(TaskType, TaskStats)>,
    pl: &mut Vec<Option<Option<usize>>>,
    queue: &mut Vec<(usize, Option<usize>)>,
    head: usize,
    Ghost(lvl): Ghost<Seq<int>>,
    Ghost(ps): Ghost<Set<int>>,
) -> (r: Ghost<(Seq<int>, Set<int>)>)
    requires
        entries_wf(es_v@),
        children_known(map_of(stats_entries(es_v@))),
        search_inv(es_v@, map_of(stats_entries(es_v@)), old(pl)@, old(queue)@, head as int, lvl, ps),
        head < old(queue)@.len(),
        laws_inv(es_v@, map_of(stats_entries(es_v@)), old(pl)@, old(queue)@, head as int),
    ensures
        laws_inv(es_v@, map_of(stats_entries(es_v@)), final(pl)@, final(queue)@, head + 1),
        search_inv(es_v@, map_of(stats_entries(es_v@)), final(pl)@, final(queue)@, head + 1, r@.0, r@.1),
        r@.1.len() > ps.len() || (r@.1 == ps && final(queue)@.len() == old(queue)@.len()),
        (final(pl)@, final(queue)@) == search_step(es_v@, old(pl)@, old(queue)@, head as int),
{
    let ghost es = es_v@;
    let ghost m = map_of(stats_entries(es));
    let n = es_v.len();
    let (x, placement) = queue[head];
    let ghost q0 = queue@;
    let ghost pl0 = pl@;
    proof {
        assert(q0[head as int] == (x, placement));
    }
    if pl[x].is_some() {
        move_up(pl, x, placement, Ghost(es), Ghost(m), Ghost(lvl), Ghost(ps.len() as int));
        proof {
            lemma_search_inv_after_move(es, m, pl0, pl@, queue@, head as int, lvl, ps);
            reveal(is_moved_up);
            lemma_laws_after_move(es, m, pl0, pl@, queue@, head as int);
        }
        Ghost((lvl, ps))
    } else {
        let ghost lvl1 = lvl.update(x as int, ps.len() as int);
        let ghost ps1 = ps.insert(x as int);
        proof {
            lemma_place_new(es, m, pl@, lvl, ps.len() as int, x as int, placement);
        }
        pl.set(x, Some(placement));
        proof {
            assert(ps1 =~= placed_set(pl@));
            assert(pl@[x as int] is Some);
            assert(reachable_from_roots(m, es[x as int].0@));
        }
        push_children(es_v, queue, x);
        proof {
            assert forall|q: int| #![trigger queue@[q]] 0 <= q < queue@.len() implies {
                &&& queue@[q].0 < es.len()
                &&& (queue@[q].1 matches Some(p) ==> p < es.len() && pl@[p as int] is Some && child_step(
                    m,
                    es[p as int].0@,
                    es[queue@[q].0 as int].0@,
                ))
                &&& (queue@[q].1 is None ==> is_root_type(m, es[queue@[q].0 as int].0@))
            } by {
                if q < q0.len() {
                    assert(queue@[q] == q0[q]);
                    if let Some(p) = q0[q].1 {
                        assert(pl0[p as int] is Some);
                    }
                }
            }
            assert forall|q: int| #![trigger queue@[q]] 0 <= q < head + 1 implies pl@[queue@[q].0 as int] is Some by {
                assert(queue@[q] == q0[q]);
                if q < head {
                    assert(pl0[q0[q].0 as int] is Some);
                }
            }
            assert forall|j: int| 0 <= j < n && is_root_type(m, #[trigger] es[j].0@) implies queued(queue@, j) by {
                let q = choose|q: int| 0 <= q < q0.len() && q0[q].0 == j;
                assert(queue@[q] == q0[q]);
            }
            assert forall|x2: int, j: int| #![trigger pl@[x2], es[j]]
                0 <= x2 < es.len() && pl@[x2] is Some && 0 <= j < es.len() && child_step(m, es[x2].0@, es[j].0@)
                    implies queued(queue@, j) by {
                if x2 != x {
                    assert(pl0[x2] is Some);
                    let q = choose|q: int| 0 <= q < q0.len() && q0[q].0 == j;
                    assert(queue@[q] == q0[q]);
                }
            }
            assert(!ps.contains(x as int));
            assert(pl@ == pl0.update(x as int, Some(placement)));
            if let Some(a) = placement {
                assert(pl0[a as int] is Some);
            }
            lemma_laws_after_place(es, m, pl0, pl@, q0, queue@, head as int);
        }
        Ghost((lvl1, ps1))
    }
}

/// Places every task reachable from a root: a root at the top, another task
/// under the task through which it was first found, moved up to the deepest
/// common entry of two placements where it is found again.
fn place_tasks(es_v: &Vec<(TaskType, TaskStats)>) -> (r: (Vec<Option<Option<usize>>>, Ghost<Seq<int>>))
    requires
        entries_wf(es_v@),
        children_known(map_of(stats_entries(es_v@))),
    ensures
        placement_ok(es_v@, map_of(stats_entries(es_v@)), r.0@, r.1@, es_v@.len() as int),
        forall|x: int| #![trigger r.0@[x]] 0 <= x < es_v@.len() ==> (r.0@[x] is Some <==> reachable_from_roots(
            map_of(stats_entries(es_v@)),
            es_v@[x].0@,
        )),
        search_outcome(es_v@, r.0@),
        placement_laws(es_v@, map_of(stats_entries(es_v@)), r.0@),
{
    let ghost es = es_v@;
    let ghost m = map_of(stats_entries(es));
    let n = es_v.len();
    let mut queue: Vec<(usize, Option<usize>)> = Vec::new();
    for i in 0..n
        invariant
            n == es.len(),
            es == es_v@,
            entries_wf(es),
            m == map_of(stats_entries(es)),
            forall|q: int| #![trigger queue@[q]] 0 <= q < queue@.len() ==> queue@[q].0 < n && queue@[q].1 is None
                && is_root_type(m, es[queue@[q].0 as int].0@),
            forall|j: int| 0 <= j < i && is_root_type(m, #[trigger] es[j].0@) ==> queued(queue@, j),
            queue@ == root_queue(es, i as int),
    {
        let ghost qb = queue@;
        if !is_child_referenced(es_v, i) {
            queue.push((i, None));
            proof {
                assert(queue@[queue@.len() - 1].0 == i);
                assert(queue@ =~= root_queue(es, i + 1));
            }
        }
        proof {
            assert forall|j: int| 0 <= j < i + 1 && is_root_type(m, #[trigger] es[j].0@) implies queued(queue@, j) by {
                if j < i {
                    let q = choose|q: int| 0 <= q < qb.len() && qb[q].0 == j;
                    assert(queue@[q] == qb[q]);
                } else {
                    assert(queue@[queue@.len() - 1].0 == j);
                }
            }
        }
    }
    let mut pl: Vec<Option<Option<usize>>> = Vec::new();
    for i in 0..n
        invariant
            pl@.len() == i,
            forall|x: int| 0 <= x < i ==> #[trigger] pl@[x] is None,
    {
        pl.push(None);
    }
    let ghost pl_init = pl@;
    let ghost q_init = queue@;
    proof {
        assert(pl_init =~= unplaced(n as nat));
    }
    let ghost mut lvl: Seq<int> = Seq::new(n as nat, |i: int| 0);
    let ghost mut ps: Set<int> = Set::empty();
    proof {
        assert(ps =~= placed_set(pl@));
        assert(queue_ok(es, m, pl@, queue@));
        assert(placement_ok(es, m, pl@, lvl, ps.len() as int));
    }
    let mut head: usize = 0;
    proof {
        assert(laws_inv(es, m, pl@, queue@, 0)) by {
            reveal(laws_inv);
        }
        assert(children_queued(es, m, pl@, queue@));
    }
    while head < queue.len()
        invariant
            n == es.len(),
            es == es_v@,
            entries_wf(es),
            m == map_of(stats_entries(es)),
            children_known(m),
            search_inv(es, m, pl@, queue@, head as int, lvl, ps),
            pl_init == unplaced(n as nat),
            q_init == root_queue(es, n as int),
            forall|f: nat| #[trigger] search_run(es, pl@, queue@, head as int, f) == search_run(es, pl_init, q_init, 0, (head + f) as nat),
            laws_inv(es, m, pl@, queue@, head as int),
        decreases n - ps.len(), queue@.len() - head,
    {
        proof {
            lemma_int_range(0, n as int);
            assert(ps.subset_of(set_int_range(0, n as int)));
            lemma_len_subset(ps, set_int_range(0, n as int));
        }
        let ghost ps0 = ps;
        let ghost ql0 = queue@.len();
        let ghost pl_b = pl@;
        let ghost q_b = queue@;
        let r = step(es_v, &mut pl, &mut queue, head, Ghost(lvl), Ghost(ps));
        proof {
            lvl = r@.0;
            ps = r@.1;
        }
        head = head + 1;
        proof {
            assert forall|f: nat| #[trigger] search_run(es, pl@, queue@, head as int, f) == search_run(es, pl_init, q_init, 0, (head + f) as nat) by {
                assert(search_run(es, pl_b, q_b, head - 1, (f + 1) as nat) == search_run(es, pl_init, q_init, 0, ((head - 1) + (f + 1)) as nat));
                assert(search_run(es, pl_b, q_b, head - 1, (f + 1) as nat) == search_run(es, pl@, queue@, head as int, f));
                assert((head - 1) + (f + 1) == head + f);
            }
            assert(ps.len() > ps0.len() || (ps == ps0 && queue@.len() == ql0));
            lemma_int_range(0, n as int);
            assert(ps.subset_of(set_int_range(0, n as int)));
            lemma_len_subset(ps, set_int_range(0, n as int));
        }
    }
    proof {
        assert(search_run(es, pl@, queue@, head as int, 0) == Some(pl@));
        assert(search_run(es, pl_init, q_init, 0, head as nat) == Some(pl@));
        let ghost_f: nat = head as nat;
        assert(search_run(es, unplaced(es.len()), root_queue(es, es.len() as int), 0, ghost_f) == Some(pl@));
        assert(placement_laws(es, m, pl@)) by {
            reveal(laws_inv);
            assert forall|x: int, p: int| #![trigger pl@[x], pl@[p]]
                0 <= x < pl@.len() && 0 <= p < pl@.len() && pl@[x] is Some && pl@[p] is Some && child_step(m, es[p].0@, es[x].0@)
                    implies (par_of(pl@, x) matches Some(c) ==> reaches(m, es[c].0@, es[p].0@)) by {
                assert(es[x] == es[x]);
                let q = choose|q: int| 0 <= q < queue@.len() && queue@[q] == (x as usize, Some(p as usize));
                assert(queue@[q].1 is Some);
            }
        }
        let vis = Set::new(|t: TaskTypeView| exists|x: int| 0 <= x < n && pl@[x] is Some && es[x].0@ == t);
        assert forall|t: TaskTypeView, u: TaskTypeView| vis.contains(t) && #[trigger] child_step(m, t, u) implies vis.contains(u) by {
            let x = choose|x: int| 0 <= x < n && pl@[x] is Some && es[x].0@ == t;
            let j = lemma_type_index(es, u);
            assert(pl@[x] is Some && es[j] == es[j]);
            let q = choose|q: int| 0 <= q < queue@.len() && queue@[q].0 == j;
            assert(pl@[queue@[q].0 as int] is Some);
        }
        assert forall|x: int| #![trigger pl@[x]] 0 <= x < n implies (pl@[x] is Some <==> reachable_from_roots(m, es[x].0@)) by {
            if reachable_from_roots(m, es[x].0@) {
                let r = choose|r: TaskTypeView| #[trigger] is_root_type(m, r) && reaches(m, r, es[x].0@);
                let p = choose|p: Seq<TaskTypeView>| #[trigger] is_child_path(m, p) && p[0] == r && p.last() == es[x].0@;
                let jr = lemma_type_index(es, r);
                let q = choose|q: int| 0 <= q < queue@.len() && queue@[q].0 == jr;
                assert(pl@[queue@[q].0 as int] is Some);
                assert(vis.contains(r));
                crate::merge::lemma_closed_reach(m, vis, r, p, p.len() - 1);
                let x2 = choose|x2: int| 0 <= x2 < n && pl@[x2] is Some && es[x2].0@ == es[x].0@;
                lemma_same_type_same_index(es, x, x2);
            }
        }
        lemma_int_range(0, n as int);
        assert(ps.subset_of(set_int_range(0, n as int)));
        lemma_len_subset(ps, set_int_range(0, n as int));
    }
    (pl, Ghost(lvl))
}

proof fn lemma_ref_key_index(refs: Seq<((ReferenceType, TaskType), crate::stats::ReferenceStats)>, k: (ReferenceType, TaskTypeView)) -> (l: int)
    requires
        map_of(ref_entries(refs)).dom().contains(k),
    ensures
        0 <= l < refs.len(),
        refs[l].0.0 == k.0,
        refs[l].0.1@ == k.1,
{
    lemma_map_of_dom(ref_entries(refs));
    let l = choose|l: int| 0 <= l < ref_entries(refs).len() && ref_entries(refs)[l].0 == k;
    l
}

/// The group under which a placed entry lies: its parent's position, or
/// `top` for an entry placed at the top.
pub open spec fn slot_of(pl: Seq<Option<Option<usize>>>, x: int, top: int) -> Option<int> {
    match pl[x] {
        Some(Some(p)) => Some(p as int),
        Some(None) => Some(top),
        None => None,
    }
}

/// `children[s]` lists exactly the entries placed under `s`, and
/// `children[n]` those placed at the top.
pub open spec fn children_ok(children: Seq<Vec<usize>>, pl: Seq<Option<Option<usize>>>) -> bool {
    &&& children.len() == pl.len() + 1
    &&& forall|s: int| 0 <= s <= pl.len() ==> (#[trigger] children[s])@.no_duplicates()
    &&& forall|s: int, q: int| #![trigger children[s]@[q]]
        0 <= s <= pl.len() && 0 <= q < children[s]@.len() ==> children[s]@[q] < pl.len() && slot_of(
            pl,
            children[s]@[q] as int,
            pl.len() as int,
        ) == Some(s)
    &&& forall|s: int, x: int| #![trigger children[s], pl[x]]
        0 <= s <= pl.len() && 0 <= x < pl.len() && slot_of(pl, x, pl.len() as int) == Some(s) ==> children[s]@.contains(
            x as usize,
        )
}

/// The entries placed under slot `s`, where slot `n` is the top.
fn placed_under(pl: &Vec<Option<Option<usize>>>, s: usize) -> (list: Vec<usize>)
    requires
        s <= pl@.len(),
    ensures
        forall|q: int| #![trigger list@[q]] 0 <= q < list@.len() ==> list@[q] < pl@.len() && slot_of(
            pl@,
            list@[q] as int,
            pl@.len() as int,
        ) == Some(s as int),
        forall|x: int| #![trigger pl@[x]] 0 <= x < pl@.len() && slot_of(pl@, x, pl@.len() as int) == Some(s as int) ==> list@.contains(
            x as usize,
        ),
        list@.no_duplicates(),
{
    let n = pl.len();
    let mut list: Vec<usize> = Vec::new();
    for x in 0..n
        invariant
            n == pl@.len(),
            s <= n,
            list@.no_duplicates(),
            forall|q: int| 0 <= q < list@.len() ==> #[trigger] list@[q] < x,
            forall|q: int| #![trigger list@[q]] 0 <= q < list@.len() ==> list@[q] < n && slot_of(
                pl@,
                list@[q] as int,
                n as int,
            ) == Some(s as int),
            forall|x2: int| #![trigger pl@[x2]] 0 <= x2 < x && slot_of(pl@, x2, n as int) == Some(s as int) ==> list@.contains(
                x2 as usize,
            ),
    {
        let here = match pl[x] {
            Some(Some(p)) => p == s,
            Some(None) => s == n,
            None => false,
        };
        let ghost lb = list@;
        if here {
            list.push(x);
            proof {
                assert(list@[list@.len() - 1] == x);
                assert forall|a: int, b: int| 0 <= a < b < list@.len() implies list@[a] != list@[b] by {
                    if b == list@.len() - 1 {
                        assert(list@[a] == lb[a]);
                    } else {
                        assert(list@[a] == lb[a] && list@[b] == lb[b]);
                    }
                }
                assert forall|q: int| 0 <= q < list@.len() implies #[trigger] list@[q] < x + 1 by {
                    if q < lb.len() {
                        assert(list@[q] == lb[q]);
                    }
                }
            }
        }
        proof {
            assert forall|x2: int| #![trigger pl@[x2]] 0 <= x2 < x + 1 && slot_of(pl@, x2, n as int) == Some(s as int) implies list@.contains(
                x2 as usize,
            ) by {
                if x2 < x {
                    let q = choose|q: int| 0 <= q < lb.len() && lb[q] == x2 as usize;
                    assert(list@[q] == lb[q]);
                } else {
                    assert(list@[list@.len() - 1] == x);
                }
            }
        }
    }
    list
}

/// Lists, for each parent position and for the top, the entries placed there.
fn collect_children(pl: &Vec<Option<Option<usize>>>) -> (children: Vec<Vec<usize>>)
    ensures
        children_ok(children@, pl@),
{
    let n = pl.len();
    let mut children: Vec<Vec<usize>> = Vec::new();
    for s in 0..n
        invariant
            n == pl@.len(),
            children@.len() == s,
            forall|s2: int| 0 <= s2 < s ==> (#[trigger] children@[s2])@.no_duplicates(),
            forall|s2: int, q: int| #![trigger children@[s2]@[q]]
                0 <= s2 < s && 0 <= q < children@[s2]@.len() ==> children@[s2]@[q] < n && slot_of(
                    pl@,
                    children@[s2]@[q] as int,
                    n as int,
                ) == Some(s2),
            forall|s2: int, x: int| #![trigger children@[s2], pl@[x]]
                0 <= s2 < s && 0 <= x < n && slot_of(pl@, x, n as int) == Some(s2) ==> children@[s2]@.contains(
                    x as usize,
                ),
    {
        let list = placed_under(pl, s);
        let ghost cb = children@;
        children.push(list);
        proof {
            assert forall|s2: int| 0 <= s2 < s + 1 implies (#[trigger] children@[s2])@.no_duplicates() by {
                if s2 < s {
                    assert(children@[s2] == cb[s2]);
                }
            }
            assert forall|s2: int, q: int| #![trigger children@[s2]@[q]]
                0 <= s2 < s + 1 && 0 <= q < children@[s2]@.len() implies children@[s2]@[q] < n && slot_of(
                    pl@,
                    children@[s2]@[q] as int,
                    n as int,
                ) == Some(s2) by {
                if s2 < s {
                    assert(children@[s2] == cb[s2]);
                }
            }
            assert forall|s2: int, x: int| #![trigger children@[s2], pl@[x]]
                0 <= s2 < s + 1 && 0 <= x < n && slot_of(pl@, x, n as int) == Some(s2) implies children@[s2]@.contains(
                    x as usize,
                ) by {
                if s2 < s {
                    assert(children@[s2] == cb[s2]);
                }
            }
        }
    }
    let top = placed_under(pl, n);
    let ghost cb = children@;
    children.push(top);
    proof {
        assert forall|s2: int| 0 <= s2 <= n implies (#[trigger] children@[s2])@.no_duplicates() by {
            if s2 < n {
                assert(children@[s2] == cb[s2]);
            }
        }
        assert forall|s2: int, q: int| #![trigger children@[s2]@[q]]
            0 <= s2 <= n && 0 <= q < children@[s2]@.len() implies children@[s2]@[q] < n && slot_of(
                pl@,
                children@[s2]@[q] as int,
                n as int,
            ) == Some(s2) by {
            if s2 < n {
                assert(children@[s2] == cb[s2]);
            }
        }
        assert forall|s2: int, x: int| #![trigger children@[s2], pl@[x]]
            0 <= s2 <= n && 0 <= x < n && slot_of(pl@, x, n as int) == Some(s2) implies children@[s2]@.contains(
                x as usize,
            ) by {
            if s2 < n {
                assert(children@[s2] == cb[s2]);
            }
        }
    }
    children
}

/// The entry `k` steps above `y` in the placement, if there is one.
pub open spec fn anc(pl: Seq<Option<Option<usize>>>, y: int, k: nat) -> Option<int>
    decreases k,
{
    if k == 0 {
        Some(y)
    } else {
        match par_of(pl, y) {
            Some(p) => anc(pl, p, (k - 1) as nat),
            None => None,
        }
    }
}

/// `x` lies above `y` in the placement.
pub open spec fn is_anc(pl: Seq<Option<Option<usize>>>, x: int, y: int) -> bool {
    exists|k: nat| k >= 1 && #[trigger] anc(pl, y, k) == Some(x)
}

/// `s` and the entries placed below it.
pub open spec fn below_set(pl: Seq<Option<Option<usize>>>, s: int) -> Set<int> {
    Set::new(|y: int| 0 <= y < pl.len() && (y == s || is_anc(pl, s, y)))
}

/// The types of the entries `ids`.
pub open spec fn types_of(es: Seq<(TaskType, TaskStats)>, ids: Set<int>) -> Set<TaskTypeView> {
    Set::new(|t: TaskTypeView| exists|i: int| #[trigger] ids.contains(i) && 0 <= i < es.len() && es[i].0@ == t)
}

proof fn lemma_anc_placed(
    es: Seq<(TaskType, TaskStats)>,
    m: Map<TaskTypeView, TaskStatsView>,
    pl: Seq<Option<Option<usize>>>,
    lvl: Seq<int>,
    y: int,
    k: nat,
)
    requires
        placement_ok(es, m, pl, lvl, pl.len() as int),
        0 <= y < pl.len(),
        pl[y] is Some,
    ensures
        anc(pl, y, k) matches Some(z) ==> 0 <= z < pl.len() && pl[z] is Some,
    decreases k,
{
    if k > 0 {
        if let Some(p) = par_of(pl, y) {
            lemma_anc_placed(es, m, pl, lvl, p, (k - 1) as nat);
        }
    }
}

proof fn lemma_anc_step(pl: Seq<Option<Option<usize>>>, y: int, k: nat, c: int)
    requires
        anc(pl, y, k) == Some(c),
    ensures
        anc(pl, y, k + 1) == par_of(pl, c),
    decreases k,
{
    reveal_with_fuel(anc, 2);
    if k > 0 {
        let p = par_of(pl, y)->0;
        lemma_anc_step(pl, p, (k - 1) as nat, c);
    }
}

/// An entry lies below `s` exactly where it is, or lies below, an entry
/// placed directly under `s`.
proof fn lemma_below(
    es: Seq<(TaskType, TaskStats)>,
    m: Map<TaskTypeView, TaskStatsView>,
    pl: Seq<Option<Option<usize>>>,
    lvl: Seq<int>,
    s: int,
    y: int,
)
    requires
        placement_ok(es, m, pl, lvl, pl.len() as int),
        0 <= y < pl.len(),
        pl[y] is Some,
    ensures
        is_anc(pl, s, y) <==> exists|c: int|
            0 <= c < pl.len() && pl[c] is Some && #[trigger] par_of(pl, c) == Some(s) && (c == y || is_anc(pl, c, y)),
{
    if is_anc(pl, s, y) {
        let k = choose|k: nat| k >= 1 && #[trigger] anc(pl, y, k) == Some(s);
        lemma_below_k(es, m, pl, lvl, s, y, k);
    }
    if exists|c: int| 0 <= c < pl.len() && pl[c] is Some && #[trigger] par_of(pl, c) == Some(s) && (c == y || is_anc(pl, c, y)) {
        let c = choose|c: int| 0 <= c < pl.len() && pl[c] is Some && #[trigger] par_of(pl, c) == Some(s) && (c == y || is_anc(pl, c, y));
        if c == y {
            assert(anc(pl, y, 0) == Some(y));
            lemma_anc_step(pl, y, 0, y);
            assert(anc(pl, y, 1) == Some(s));
        } else {
            let k = choose|k: nat| k >= 1 && #[trigger] anc(pl, y, k) == Some(c);
            lemma_anc_step(pl, y, k, c);
            assert(anc(pl, y, k + 1) == Some(s));
        }
    }
}

proof fn lemma_below_k(
    es: Seq<(TaskType, TaskStats)>,
    m: Map<TaskTypeView, TaskStatsView>,
    pl: Seq<Option<Option<usize>>>,
    lvl: Seq<int>,
    s: int,
    y: int,
    k: nat,
)
    requires
        placement_ok(es, m, pl, lvl, pl.len() as int),
        0 <= y < pl.len(),
        pl[y] is Some,
        k >= 1,
        anc(pl, y, k) == Some(s),
    ensures
        exists|c: int|
            0 <= c < pl.len() && pl[c] is Some && #[trigger] par_of(pl, c) == Some(s) && (c == y || is_anc(pl, c, y)),
    decreases k,
{
    let p = par_of(pl, y)->0;
    if k == 1 {
        assert(par_of(pl, y) == Some(s));
    } else {
        assert(pl[p] is Some);
        lemma_below_k(es, m, pl, lvl, s, p, (k - 1) as nat);
        let c = choose|c: int|
            0 <= c < pl.len() && pl[c] is Some && #[trigger] par_of(pl, c) == Some(s) && (c == p || is_anc(pl, c, p));
        if c == p {
            reveal_with_fuel(anc, 2);
            assert(anc(pl, y, 1) == Some(p));
        } else {
            let j = choose|j: nat| j >= 1 && #[trigger] anc(pl, p, j) == Some(c);
            assert(anc(pl, y, j + 1) == anc(pl, p, j));
        }
    }
}

proof fn lemma_anc_add(pl: Seq<Option<Option<usize>>>, z: int, a: nat, b: nat)
    ensures
        anc(pl, z, a + b) == (match anc(pl, z, a) {
            Some(w) => anc(pl, w, b),
            None => None,
        }),
    decreases a,
{
    if a > 0 {
        match par_of(pl, z) {
            Some(p) => {
                lemma_anc_add(pl, p, (a - 1) as nat, b);
                assert((a + b - 1) as nat == ((a - 1) as nat + b) as nat);
            },
            None => {},
        }
    }
}

proof fn lemma_anc_level(
    es: Seq<(TaskType, TaskStats)>,
    m: Map<TaskTypeView, TaskStatsView>,
    pl: Seq<Option<Option<usize>>>,
    lvl: Seq<int>,
    y: int,
    k: nat,
    w: int,
)
    requires
        placement_ok(es, m, pl, lvl, pl.len() as int),
        0 <= y < pl.len(),
        pl[y] is Some,
        k >= 1,
        anc(pl, y, k) == Some(w),
    ensures
        0 <= w < pl.len(),
        pl[w] is Some,
        lvl[w] < lvl[y],
    decreases k,
{
    reveal_with_fuel(anc, 2);
    assert(pl[y] is Some);
    let p = par_of(pl, y)->0;
    assert(par_of(pl, y) is Some);
    if k > 1 {
        lemma_anc_level(es, m, pl, lvl, p, (k - 1) as nat, w);
    }
}

/// The entries below an entry are `k` steps below it for some `k`.
proof fn lemma_below_steps(pl: Seq<Option<Option<usize>>>, x: int, z: int) -> (k: nat)
    requires
        below_set(pl, x).contains(z),
    ensures
        anc(pl, z, k) == Some(x),
{
    if z == x {
        0
    } else {
        choose|k: nat| k >= 1 && #[trigger] anc(pl, z, k) == Some(x)
    }
}

/// Two entries placed under the same slot have no entry below both.
proof fn lemma_siblings_disjoint(
    es: Seq<(TaskType, TaskStats)>,
    m: Map<TaskTypeView, TaskStatsView>,
    pl: Seq<Option<Option<usize>>>,
    lvl: Seq<int>,
    x: int,
    y: int,
    z: int,
)
    requires
        placement_ok(es, m, pl, lvl, pl.len() as int),
        0 <= x < pl.len(),
        0 <= y < pl.len(),
        x != y,
        pl[x] is Some,
        pl[y] is Some,
        par_of(pl, x) == par_of(pl, y),
    ensures
        !(below_set(pl, x).contains(z) && below_set(pl, y).contains(z)),
{
    if below_set(pl, x).contains(z) && below_set(pl, y).contains(z) {
        let kx = lemma_below_steps(pl, x, z);
        let ky = lemma_below_steps(pl, y, z);
        if kx < ky {
            lemma_above_sibling(es, m, pl, lvl, x, y, z, kx, ky);
        } else if ky < kx {
            lemma_above_sibling(es, m, pl, lvl, y, x, z, ky, kx);
        }
    }
}

proof fn lemma_above_sibling(
    es: Seq<(TaskType, TaskStats)>,
    m: Map<TaskTypeView, TaskStatsView>,
    pl: Seq<Option<Option<usize>>>,
    lvl: Seq<int>,
    x: int,
    y: int,
    z: int,
    kx: nat,
    ky: nat,
)
    requires
        placement_ok(es, m, pl, lvl, pl.len() as int),
        0 <= x < pl.len(),
        0 <= y < pl.len(),
        pl[x] is Some,
        pl[y] is Some,
        par_of(pl, x) == par_of(pl, y),
        kx < ky,
        anc(pl, z, kx) == Some(x),
    ensures
        anc(pl, z, ky) != Some(y),
{
    let d = (ky - kx) as nat;
    if anc(pl, z, ky) == Some(y) {
    lemma_anc_add(pl, z, kx, d);
    assert(kx + d == ky);
    assert(anc(pl, x, d) == Some(y));
    match par_of(pl, x) {
        None => {
            assert(anc(pl, x, d) is None);
        },
        Some(p) => {
            assert(anc(pl, p, (d - 1) as nat) == Some(y));
            assert(lvl[p] < lvl[y]);
            if d == 1 {
                assert(y == p);
            } else {
                lemma_anc_level(es, m, pl, lvl, p, (d - 1) as nat, y);
            }
        },
    }
    }
}

/// An entry does not lie below an entry placed under it.
proof fn lemma_parent_not_below(
    es: Seq<(TaskType, TaskStats)>,
    m: Map<TaskTypeView, TaskStatsView>,
    pl: Seq<Option<Option<usize>>>,
    lvl: Seq<int>,
    s: int,
    c: int,
)
    requires
        placement_ok(es, m, pl, lvl, pl.len() as int),
        0 <= c < pl.len(),
        0 <= s < pl.len(),
        pl[c] is Some,
        pl[s] is Some,
        par_of(pl, c) == Some(s),
    ensures
        !below_set(pl, c).contains(s),
{
    assert(lvl[s] < lvl[c]);
    if below_set(pl, c).contains(s) {
        if s != c {
            let k = choose|k: nat| k >= 1 && #[trigger] anc(pl, s, k) == Some(c);
            lemma_anc_level(es, m, pl, lvl, s, k, c);
        }
    }
}

/// Every placed entry is, or lies below, an entry placed at the top.
proof fn lemma_under_top(
    es: Seq<(TaskType, TaskStats)>,
    m: Map<TaskTypeView, TaskStatsView>,
    pl: Seq<Option<Option<usize>>>,
    lvl: Seq<int>,
    y: int,
)
    requires
        placement_ok(es, m, pl, lvl, pl.len() as int),
        0 <= y < pl.len(),
        pl[y] is Some,
    ensures
        exists|c: int| 0 <= c < pl.len() && #[trigger] pl[c] == Some(None::<usize>) && (c == y || is_anc(pl, c, y)),
    decreases lvl[y],
{
    match par_of(pl, y) {
        None => {
            assert(pl[y] == Some(None::<usize>));
        },
        Some(p) => {
            lemma_under_top(es, m, pl, lvl, p);
            let c = choose|c: int| 0 <= c < pl.len() && #[trigger] pl[c] == Some(None::<usize>) && (c == p || is_anc(pl, c, p));
            if c == p {
                reveal_with_fuel(anc, 2);
            assert(anc(pl, y, 1) == Some(p));
            } else {
                let j = choose|j: nat| j >= 1 && #[trigger] anc(pl, p, j) == Some(c);
                assert(anc(pl, y, j + 1) == anc(pl, p, j));
            }
        },
    }
}

/// What the construction of the groups reads: the entries, their map, a
/// placement and the lists of entries under each slot.
pub open spec fn tree_input_ok(
    es: Seq<(TaskType, TaskStats)>,
    m: Map<TaskTypeView, TaskStatsView>,
    pl: Seq<Option<Option<usize>>>,
    lvl: Seq<int>,
    children: Seq<Vec<usize>>,
) -> bool {
    &&& entries_wf(es)
    &&& m == map_of(stats_entries(es))
    &&& placement_ok(es, m, pl, lvl, es.len() as int)
    &&& children_ok(children, pl)
}

/// The types of the entries below the first `q` entries of `inner`.
pub open spec fn union_below(
    es: Seq<(TaskType, TaskStats)>,
    pl: Seq<Option<Option<usize>>>,
    inner: Seq<usize>,
    q: int,
) -> Set<TaskTypeView> {
    Set::new(|t: TaskTypeView| exists|q2: int| 0 <= q2 < q && #[trigger] types_of(es, below_set(pl, inner[q2] as int)).contains(t))
}

/// The types of a list of entries.
pub open spec fn tt_types(tts: Seq<(TaskType, TaskStats)>) -> Set<TaskTypeView> {
    Set::new(|t: TaskTypeView| exists|i: int| 0 <= i < tts.len() && tts[i].0@ == t)
}

/// The level of a slot; the top lies above every entry.
pub open spec fn slot_level(lvl: Seq<int>, slot: int, n: int) -> int {
    if slot < n {
        lvl[slot]
    } else {
        -1
    }
}

proof fn lemma_anc_of_unplaced(pl: Seq<Option<Option<usize>>>, x: int, y: int)
    requires
        0 <= y < pl.len(),
        is_anc(pl, x, y),
    ensures
        pl[y] is Some,
{
    let k = choose|k: nat| k >= 1 && #[trigger] anc(pl, y, k) == Some(x);
    if pl[y] is None {
        assert(par_of(pl, y) is None);
        assert(anc(pl, y, k) is None);
    }
}

proof fn lemma_leaf_sub(
    es: Seq<(TaskType, TaskStats)>,
    m: Map<TaskTypeView, TaskStatsView>,
    pl: Seq<Option<Option<usize>>>,
    lvl: Seq<int>,
    children: Seq<Vec<usize>>,
    c: int,
)
    requires
        tree_input_ok(es, m, pl, lvl, children),
        0 <= c < pl.len(),
        pl[c] is Some,
        children[c]@.len() == 0,
    ensures
        types_of(es, below_set(pl, c)) == set![es[c].0@],
        forall|y: int| #[trigger] below_set(pl, c).contains(y) ==> y == c,
{
    assert forall|y: int| #[trigger] below_set(pl, c).contains(y) implies y == c by {
        if y != c {
            lemma_anc_of_unplaced(pl, c, y);
            lemma_below(es, m, pl, lvl, c, y);
            let c2 = choose|c2: int|
                0 <= c2 < pl.len() && pl[c2] is Some && #[trigger] par_of(pl, c2) == Some(c) && (c2 == y || is_anc(pl, c2, y));
            assert(slot_of(pl, c2, pl.len() as int) == Some(c));
            assert(children[c]@.contains(c2 as usize));
        }
    }
    assert(below_set(pl, c).contains(c));
    assert(types_of(es, below_set(pl, c)) =~= set![es[c].0@]);
}

/// The type of the entry that `y` is placed under, none for the top.
pub open spec fn parent_type(es: Seq<(TaskType, TaskStats)>, pl: Seq<Option<Option<usize>>>, y: int) -> Option<TaskTypeView> {
    match pl[y] {
        Some(Some(p)) => Some(es[p as int].0@),
        _ => None,
    }
}

/// `t` is among the other members `tts` or the primary of one of `gs`.
pub open spec fn direct_in(gs: Seq<GroupTree>, tts: Seq<(TaskType, TaskStats)>, t: TaskTypeView) -> bool {
    tt_types(tts).contains(t) || exists|i: int| 0 <= i < gs.len() && primary_type(gs[i]) == Some(t)
}

/// The first `q` entries of `inner` are members (`gs`, `tts`) of the group
/// being built, and every entry below one of them lies in `gs` directly
/// under the type of the entry it is placed under.
#[verifier::opaque]
pub open spec fn members_placed(
    es: Seq<(TaskType, TaskStats)>,
    pl: Seq<Option<Option<usize>>>,
    inner: Seq<usize>,
    q: int,
    gs: Seq<GroupTree>,
    tts: Seq<(TaskType, TaskStats)>,
) -> bool {
    &&& forall|q2: int| #![trigger inner[q2]] 0 <= q2 < q ==> direct_in(gs, tts, es[inner[q2] as int].0@)
    &&& forall|q2: int, y: int| #![trigger below_set(pl, inner[q2] as int).contains(y)]
        0 <= q2 < q && 0 <= y < es.len() && below_set(pl, inner[q2] as int).contains(y) && y != inner[q2]
            ==> lies_under_any(gs, gs.len(), es[y].0@, parent_type(es, pl, y))
}

proof fn lemma_members_placed_leaf(
    es: Seq<(TaskType, TaskStats)>,
    pl: Seq<Option<Option<usize>>>,
    inner: Seq<usize>,
    q: int,
    gs: Seq<GroupTree>,
    tts0: Seq<(TaskType, TaskStats)>,
    tts: Seq<(TaskType, TaskStats)>,
)
    requires
        members_placed(es, pl, inner, q, gs, tts0),
        0 <= q < inner.len(),
        tts.len() == tts0.len() + 1,
        forall|i: int| 0 <= i < tts0.len() ==> tts[i] == tts0[i],
        tts[tts0.len() as int].0@ == es[inner[q] as int].0@,
        forall|y: int| #[trigger] below_set(pl, inner[q] as int).contains(y) ==> y == inner[q],
    ensures
        members_placed(es, pl, inner, q + 1, gs, tts),
{
    reveal(members_placed);
    assert forall|q2: int| #![trigger inner[q2]] 0 <= q2 < q + 1 implies direct_in(gs, tts, es[inner[q2] as int].0@) by {
        let t = es[inner[q2] as int].0@;
        if q2 == q {
            assert(tts[tts0.len() as int].0@ == t);
        } else if tt_types(tts0).contains(t) {
            let i = choose|i: int| 0 <= i < tts0.len() && tts0[i].0@ == t;
            assert(tts[i] == tts0[i]);
        }
    }
}

proof fn lemma_members_placed_group(
    es: Seq<(TaskType, TaskStats)>,
    pl: Seq<Option<Option<usize>>>,
    inner: Seq<usize>,
    q: int,
    gs0: Seq<GroupTree>,
    tts: Seq<(TaskType, TaskStats)>,
    g: GroupTree,
)
    requires
        members_placed(es, pl, inner, q, gs0, tts),
        0 <= q < inner.len(),
        primary_type(g) == Some(es[inner[q] as int].0@),
        forall|y: int| #![trigger below_set(pl, inner[q] as int).contains(y)]
            0 <= y < es.len() && below_set(pl, inner[q] as int).contains(y) && y != inner[q]
                ==> lies_under(g, es[y].0@, parent_type(es, pl, y)),
    ensures
        members_placed(es, pl, inner, q + 1, gs0.push(g), tts),
{
    reveal(members_placed);
    let gs = gs0.push(g);
    assert(gs[gs0.len() as int] == g);
    assert forall|q2: int| #![trigger inner[q2]] 0 <= q2 < q + 1 implies direct_in(gs, tts, es[inner[q2] as int].0@) by {
        let t = es[inner[q2] as int].0@;
        if q2 == q {
            assert(primary_type(gs[gs0.len() as int]) == Some(t));
        } else if !tt_types(tts).contains(t) {
            let i = choose|i: int| 0 <= i < gs0.len() && primary_type(gs0[i]) == Some(t);
            assert(gs[i] == gs0[i]);
        }
    }
    assert forall|q2: int, y: int| #![trigger below_set(pl, inner[q2] as int).contains(y)]
        0 <= q2 < q + 1 && 0 <= y < es.len() && below_set(pl, inner[q2] as int).contains(y) && y != inner[q2]
            implies lies_under_any(gs, gs.len(), es[y].0@, parent_type(es, pl, y)) by {
        lemma_lies_under_any_push(gs0, g, gs0.len(), es[y].0@, parent_type(es, pl, y));
        assert((gs.len() - 1) as nat == gs0.len());
    }
}

proof fn lemma_direct_in_types(g: GroupTree, t: TaskTypeView)
    requires
        direct_in(g.children@, g.task_types@, t),
    ensures
        direct_types(g).contains(t),
{
    if tt_types(g.task_types@).contains(t) {
        let i = choose|i: int| 0 <= i < g.task_types@.len() && g.task_types@[i].0@ == t;
        assert(g.task_types@[i].0@ == t);
    } else {
        let i = choose|i: int| 0 <= i < g.children@.len() && primary_type(g.children@[i]) == Some(t);
        assert(primary_type(g.children@[i]) == Some(t));
    }
}

/// Every entry below `s` lies in the group `g` of `s`, directly under the
/// type of the entry it is placed under.
proof fn lemma_group_placed(
    es: Seq<(TaskType, TaskStats)>,
    m: Map<TaskTypeView, TaskStatsView>,
    pl: Seq<Option<Option<usize>>>,
    lvl: Seq<int>,
    children: Seq<Vec<usize>>,
    s: int,
    g: GroupTree,
)
    requires
        tree_input_ok(es, m, pl, lvl, children),
        es.len() <= usize::MAX,
        0 <= s < es.len(),
        pl[s] is Some,
        primary_type(g) == Some(es[s].0@),
        members_placed(es, pl, children[s]@, children[s]@.len() as int, g.children@, g.task_types@),
    ensures
        forall|y: int| #![trigger below_set(pl, s).contains(y)]
            0 <= y < es.len() && below_set(pl, s).contains(y) && y != s ==> lies_under(g, es[y].0@, parent_type(es, pl, y)),
{
    reveal(members_placed);
    let iv = children[s]@;
    let n = es.len() as int;
    assert forall|y: int| #![trigger below_set(pl, s).contains(y)]
        0 <= y < es.len() && below_set(pl, s).contains(y) && y != s implies lies_under(g, es[y].0@, parent_type(es, pl, y)) by {
        lemma_anc_of_unplaced(pl, s, y);
        lemma_below(es, m, pl, lvl, s, y);
        let c = choose|c: int|
            0 <= c < pl.len() && pl[c] is Some && #[trigger] par_of(pl, c) == Some(s) && (c == y || is_anc(pl, c, y));
        assert(slot_of(pl, c, n) == Some(s));
        assert(children[s]@.contains(c as usize));
        let q2 = choose|q2: int| 0 <= q2 < iv.len() && iv[q2] == c as usize;
        assert(iv[q2] as int == c);
        if c == y {
            assert(direct_in(g.children@, g.task_types@, es[iv[q2] as int].0@));
            lemma_direct_in_types(g, es[y].0@);
            assert(parent_type(es, pl, y) == Some(es[s].0@));
        } else {
            assert(below_set(pl, c).contains(y));
        }
    }
}

/// Every placed entry lies in the tree `g` built from the entries placed
/// at the top, directly under the type of the entry it is placed under.
proof fn lemma_top_placed(
    es: Seq<(TaskType, TaskStats)>,
    m: Map<TaskTypeView, TaskStatsView>,
    pl: Seq<Option<Option<usize>>>,
    lvl: Seq<int>,
    children: Seq<Vec<usize>>,
    g: GroupTree,
)
    requires
        tree_input_ok(es, m, pl, lvl, children),
        es.len() <= usize::MAX,
        g.primary is None,
        members_placed(es, pl, children[es.len() as int]@, children[es.len() as int]@.len() as int, g.children@, g.task_types@),
    ensures
        tree_follows(g, es, pl),
{
    reveal(members_placed);
    let n = es.len() as int;
    let iv = children[n]@;
    assert forall|y: int| #![trigger pl[y]] 0 <= y < pl.len() && pl[y] is Some implies lies_under(g, es[y].0@, parent_type(es, pl, y)) by {
        lemma_under_top(es, m, pl, lvl, y);
        let c = choose|c: int| 0 <= c < pl.len() && #[trigger] pl[c] == Some(None::<usize>) && (c == y || is_anc(pl, c, y));
        assert(slot_of(pl, c, n) == Some(n));
        assert(children[n]@.contains(c as usize));
        let q2 = choose|q2: int| 0 <= q2 < iv.len() && iv[q2] == c as usize;
        assert(iv[q2] as int == c);
        if c == y {
            assert(direct_in(g.children@, g.task_types@, es[iv[q2] as int].0@));
            lemma_direct_in_types(g, es[y].0@);
        } else {
            assert(below_set(pl, c).contains(y));
        }
    }
}

/// Every placed entry lies in the tree directly under the type of the entry
/// it is placed under: at the top for one placed at the top.
pub open spec fn tree_follows(g: GroupTree, es: Seq<(TaskType, TaskStats)>, pl: Seq<Option<Option<usize>>>) -> bool {
    forall|y: int| #![trigger pl[y]] 0 <= y < pl.len() && pl[y] is Some ==> lies_under(g, es[y].0@, parent_type(es, pl, y))
}

/// A type below the `q`-th entry placed under a slot is below none of the
/// entries placed before it under that slot.
proof fn lemma_sibling_types_disjoint(
    es: Seq<(TaskType, TaskStats)>,
    m: Map<TaskTypeView, TaskStatsView>,
    pl: Seq<Option<Option<usize>>>,
    lvl: Seq<int>,
    children: Seq<Vec<usize>>,
    slot: int,
    q: int,
    t: TaskTypeView,
)
    requires
        tree_input_ok(es, m, pl, lvl, children),
        0 <= slot <= es.len(),
        0 <= q < children[slot]@.len(),
        types_of(es, below_set(pl, children[slot]@[q] as int)).contains(t),
    ensures
        !union_below(es, pl, children[slot]@, q).contains(t),
{
    let iv = children[slot]@;
    let n = es.len() as int;
    if union_below(es, pl, iv, q).contains(t) {
        let q2 = choose|q2: int| 0 <= q2 < q && #[trigger] types_of(es, below_set(pl, iv[q2] as int)).contains(t);
        let x = iv[q2] as int;
        let y = iv[q] as int;
        let i = choose|i: int| #[trigger] below_set(pl, x).contains(i) && 0 <= i < es.len() && es[i].0@ == t;
        let j = choose|j: int| #[trigger] below_set(pl, y).contains(j) && 0 <= j < es.len() && es[j].0@ == t;
        lemma_same_type_same_index(es, i, j);
        assert(children[slot]@.no_duplicates());
        assert(iv[q2] != iv[q]);
        assert(x < n && slot_of(pl, x, n) == Some(slot));
        assert(y < n && slot_of(pl, y, n) == Some(slot));
        assert(pl[x] is Some && pl[y] is Some);
        assert(par_of(pl, x) == par_of(pl, y));
        lemma_siblings_disjoint(es, m, pl, lvl, x, y, i);
    }
}

/// The groups and the other members placed under `slot`.
fn group_members(
    es_v: &Vec<(TaskType, TaskStats)>,
    children: &Vec<Vec<usize>>,
    slot: usize,
    Ghost(pl): Ghost<Seq<Option<Option<usize>>>>,
    Ghost(lvl): Ghost<Seq<int>>,
) -> (r: (Vec<GroupTree>, Vec<(TaskType, TaskStats)>))
    requires
        tree_input_ok(es_v@, map_of(stats_entries(es_v@)), pl, lvl, children@),
        slot <= es_v@.len(),
        slot < es_v@.len() ==> pl[slot as int] is Some,
    ensures
        subtrees_ok(r.0@, r.0@.len(), map_of(stats_entries(es_v@))),
        forall|i: int| #![trigger r.1@[i]] 0 <= i < r.1@.len() ==> {
            let e = r.1@[i];
            map_of(stats_entries(es_v@)).dom().contains(e.0@) && e.1@ == map_of(stats_entries(es_v@))[e.0@] && e.1.wf()
        },
        members_of(r.0@, r.0@.len()).union(tt_types(r.1@)) == union_below(
            es_v@,
            pl,
            children@[slot as int]@,
            children@[slot as int]@.len() as int,
        ),
        forall|i: int| #![trigger r.1@[i]] 0 <= i < r.1@.len() ==> exists|q: int|
            0 <= q < children@[slot as int]@.len() && r.1@[i].0@ == es_v@[children@[slot as int]@[q] as int].0@,
        forall|i: int| #![trigger r.0@[i]] 0 <= i < r.0@.len() ==> exists|q: int|
            0 <= q < children@[slot as int]@.len() && primary_type(r.0@[i]) == Some(
                es_v@[children@[slot as int]@[q] as int].0@,
            ),
        r.0@.len() + r.1@.len() == children@[slot as int]@.len(),
        distinct_types(r.1@),
        trees_once(r.0@, r.0@.len()),
        forall|t: TaskTypeView| #[trigger] tt_types(r.1@).contains(t) ==> !members_of(r.0@, r.0@.len()).contains(t),
        members_placed(es_v@, pl, children@[slot as int]@, children@[slot as int]@.len() as int, r.0@, r.1@),
    decreases es_v@.len() - slot_level(lvl, slot as int, es_v@.len() as int), 0nat,
{
    let ghost es = es_v@;
    let ghost m = map_of(stats_entries(es));
    let n = es_v.len();
    let inner = &children[slot];
    let ghost iv = inner@;
    let k = inner.len();
    let mut gs: Vec<GroupTree> = Vec::new();
    let mut tts: Vec<(TaskType, TaskStats)> = Vec::new();
    proof {
        assert(members_of(gs@, 0) =~= Set::empty());
        assert(members_of(gs@, gs@.len()).union(tt_types(tts@)) =~= union_below(es, pl, iv, 0));
        assert(members_placed(es, pl, iv, 0, gs@, tts@)) by {
            reveal(members_placed);
        }
    }
    for q in 0..k
        invariant
            k == iv.len(),
            inner@ == iv,
            iv == children@[slot as int]@,
            n == es.len(),
            es == es_v@,
            m == map_of(stats_entries(es)),
            tree_input_ok(es, m, pl, lvl, children@),
            slot <= n,
            slot < n ==> pl[slot as int] is Some,
            subtrees_ok(gs@, gs@.len(), m),
            forall|i: int| #![trigger tts@[i]] 0 <= i < tts@.len() ==> {
                let e = tts@[i];
                m.dom().contains(e.0@) && e.1@ == m[e.0@] && e.1.wf()
            },
            members_of(gs@, gs@.len()).union(tt_types(tts@)) == union_below(es, pl, iv, q as int),
            forall|i: int| #![trigger tts@[i]] 0 <= i < tts@.len() ==> exists|q2: int|
                0 <= q2 < iv.len() && tts@[i].0@ == es[iv[q2] as int].0@,
            forall|i: int| #![trigger gs@[i]] 0 <= i < gs@.len() ==> exists|q2: int|
                0 <= q2 < iv.len() && primary_type(gs@[i]) == Some(es[iv[q2] as int].0@),
            gs@.len() + tts@.len() == q,
            distinct_types(tts@),
            trees_once(gs@, gs@.len()),
            forall|t: TaskTypeView| #[trigger] tt_types(tts@).contains(t) ==> !members_of(gs@, gs@.len()).contains(t),
            members_placed(es, pl, iv, q as int, gs@, tts@),
    {
        let c = inner[q];
        proof {
            assert(iv[q as int] == c);
            assert(c < n && slot_of(pl, c as int, n as int) == Some(slot as int));
            assert(pl[c as int] is Some);
            lemma_index_in_map(es, c as int);
        }
        let ghost before = members_of(gs@, gs@.len()).union(tt_types(tts@));
        let ghost gs0 = gs@;
        let ghost tts0 = tts@;
        if children[c].len() == 0 {
            proof {
                lemma_leaf_sub(es, m, pl, lvl, children@, c as int);
            }
            let ty = es_v[c].0.clone();
            let st = es_v[c].1.duplicate();
            tts.push((ty, st));
            proof {
                assert(tts@[tts@.len() - 1].0@ == es[c as int].0@);
                lemma_members_placed_leaf(es, pl, iv, q as int, gs@, tts0, tts@);
                assert forall|t: TaskTypeView| #[trigger] tt_types(tts@).contains(t) <==> tt_types(tts0).insert(es[c as int].0@).contains(t) by {
                    if tt_types(tts0).contains(t) {
                        let i = choose|i: int| 0 <= i < tts0.len() && tts0[i].0@ == t;
                        assert(tts@[i] == tts0[i]);
                    }
                    if t == es[c as int].0@ {
                        assert(tts@[tts0.len() as int].0@ == t);
                    }
                    if tt_types(tts@).contains(t) {
                        let i = choose|i: int| 0 <= i < tts@.len() && tts@[i].0@ == t;
                        if i < tts0.len() {
                            assert(tts@[i] == tts0[i]);
                        }
                    }
                }
                assert(tt_types(tts@) =~= tt_types(tts0).insert(es[c as int].0@));
                assert(es[c as int].1.wf());
                assert(below_set(pl, c as int).contains(c as int));
                assert(types_of(es, below_set(pl, iv[q as int] as int)).contains(es[c as int].0@));
                lemma_sibling_types_disjoint(es, m, pl, lvl, children@, slot as int, q as int, es[c as int].0@);
                assert(!before.contains(es[c as int].0@));
                assert(!tt_types(tts0).contains(es[c as int].0@));
                assert forall|a: int, b: int| 0 <= a < b < tts@.len() implies tts@[a].0@ != tts@[b].0@ by {
                    if b == tts0.len() {
                        assert(tts@[a] == tts0[a]);
                        assert(tt_types(tts0).contains(tts0[a].0@));
                    } else {
                        assert(tts@[a] == tts0[a] && tts@[b] == tts0[b]);
                    }
                }
                assert(distinct_types(tts@));
                assert forall|t: TaskTypeView| #[trigger] tt_types(tts@).contains(t) implies !members_of(gs@, gs@.len()).contains(t) by {
                    if t == es[c as int].0@ {
                        assert(!before.contains(t));
                    } else {
                        assert(tt_types(tts0).contains(t));
                    }
                }
                assert forall|i: int| #![trigger tts@[i]] 0 <= i < tts@.len() implies exists|q2: int|
                    0 <= q2 < iv.len() && tts@[i].0@ == es[iv[q2] as int].0@ by {
                    if i < tts0.len() {
                        assert(tts@[i] == tts0[i]);
                    } else {
                        assert(tts@[i].0@ == es[iv[q as int] as int].0@);
                    }
                }
                assert(members_of(gs@, gs@.len()).union(tt_types(tts@)) =~= union_below(es, pl, iv, q + 1)) by {
                    assert forall|t: TaskTypeView| #[trigger] union_below(es, pl, iv, q + 1).contains(t) <==>
                        before.contains(t) || t == es[c as int].0@ by {
                        if t == es[c as int].0@ {
                            assert(types_of(es, below_set(pl, iv[q as int] as int)).contains(t));
                        }
                        if union_below(es, pl, iv, q + 1).contains(t) {
                            let q2 = choose|q2: int| 0 <= q2 < q + 1 && #[trigger] types_of(es, below_set(pl, iv[q2] as int)).contains(t);
                            if q2 < q {
                                assert(union_below(es, pl, iv, q as int).contains(t));
                            }
                        }
                    }
                }
            }
        } else {
            proof {
                if slot < n {
                    assert(par_of(pl, c as int) == Some(slot as int));
                }
            }
            let g = into_group(es_v, children, c, Ghost(pl), Ghost(lvl));
            gs.push(g);
            proof {
                lemma_members_placed_group(es, pl, iv, q as int, gs0, tts@, g);
                lemma_members_of_push(gs0, g, gs0.len());
                lemma_subtrees_ok_push(gs0, g, gs0.len(), m);
                assert(gs@ == gs0.push(g));
                assert(gs@[gs0.len() as int] == g);
                assert(members_of(gs@, gs@.len()) == members_of(gs0, gs0.len()).union(members(g)));
                assert(subtrees_ok(gs@, gs@.len(), m));
                assert forall|t: TaskTypeView| #[trigger] members(g).contains(t) implies !before.contains(t) by {
                    assert(types_of(es, below_set(pl, iv[q as int] as int)).contains(t));
                    lemma_sibling_types_disjoint(es, m, pl, lvl, children@, slot as int, q as int, t);
                }
                lemma_trees_once_push(gs0, g, gs0.len());
                assert(trees_once(gs@, gs@.len())) by {
                    assert(gs@[gs@.len() - 1] == g);
                    assert((gs@.len() - 1) as nat == gs0.len());
                    assert forall|t: TaskTypeView| #[trigger] members(g).contains(t) implies !members_of(gs@, gs0.len()).contains(t) by {
                        assert(!before.contains(t));
                    }
                }
                assert forall|t: TaskTypeView| #[trigger] tt_types(tts@).contains(t) implies !members_of(gs@, gs@.len()).contains(t) by {
                    assert(before.contains(t));
                }
                assert forall|i: int| #![trigger gs@[i]] 0 <= i < gs@.len() implies exists|q2: int|
                    0 <= q2 < iv.len() && primary_type(gs@[i]) == Some(es[iv[q2] as int].0@) by {
                    if i < gs0.len() {
                        assert(gs@[i] == gs0[i]);
                    } else {
                        assert(primary_type(gs@[i]) == Some(es[iv[q as int] as int].0@));
                    }
                }
                assert(members_of(gs@, gs@.len()).union(tt_types(tts@)) =~= union_below(es, pl, iv, q + 1)) by {
                    assert forall|t: TaskTypeView| #[trigger] union_below(es, pl, iv, q + 1).contains(t) <==>
                        before.contains(t) || members(g).contains(t) by {
                        if members(g).contains(t) {
                            assert(types_of(es, below_set(pl, iv[q as int] as int)).contains(t));
                        }
                        if union_below(es, pl, iv, q + 1).contains(t) {
                            let q2 = choose|q2: int| 0 <= q2 < q + 1 && #[trigger] types_of(es, below_set(pl, iv[q2] as int)).contains(t);
                            if q2 < q {
                                assert(union_below(es, pl, iv, q as int).contains(t));
                            }
                        }
                    }
                }
            }
        }
    }
    proof {
        assert forall|i: int| #![trigger tts@[i]] 0 <= i < tts@.len() implies exists|q: int|
            0 <= q < children@[slot as int]@.len() && tts@[i].0@ == es_v@[children@[slot as int]@[q] as int].0@ by {
            let q2 = choose|q2: int| 0 <= q2 < iv.len() && tts@[i].0@ == es[iv[q2] as int].0@;
            assert(children@[slot as int]@[q2] == iv[q2]);
        }
        assert forall|i: int| #![trigger gs@[i]] 0 <= i < gs@.len() implies exists|q: int|
            0 <= q < children@[slot as int]@.len() && primary_type(gs@[i]) == Some(
                es_v@[children@[slot as int]@[q] as int].0@,
            ) by {
            let q2 = choose|q2: int| 0 <= q2 < iv.len() && primary_type(gs@[i]) == Some(es[iv[q2] as int].0@);
            assert(children@[slot as int]@[q2] == iv[q2]);
        }
    }
    (gs, tts)
}

/// The group of entry `s`: `s` as primary, and the entries placed under it.
fn into_group(
    es_v: &Vec<(TaskType, TaskStats)>,
    children: &Vec<Vec<usize>>,
    s: usize,
    Ghost(pl): Ghost<Seq<Option<Option<usize>>>>,
    Ghost(lvl): Ghost<Seq<int>>,
) -> (g: GroupTree)
    requires
        tree_input_ok(es_v@, map_of(stats_entries(es_v@)), pl, lvl, children@),
        s < es_v@.len(),
        pl[s as int] is Some,
        children@[s as int]@.len() > 0,
    ensures
        primary_type(g) == Some(es_v@[s as int].0@),
        group_ok(g, map_of(stats_entries(es_v@))),
        tree_ok(g, map_of(stats_entries(es_v@))),
        members(g) == types_of(es_v@, below_set(pl, s as int)),
        occurs_once(g),
        forall|y: int| #![trigger below_set(pl, s as int).contains(y)]
            0 <= y < es_v@.len() && below_set(pl, s as int).contains(y) && y != s ==> lies_under(
                g,
                es_v@[y].0@,
                parent_type(es_v@, pl, y),
            ),
    decreases es_v@.len() - lvl[s as int], 1nat,
{
    let ghost es = es_v@;
    let ghost m = map_of(stats_entries(es));
    let n = es_v.len();
    let (gs, tts) = group_members(es_v, children, s, Ghost(pl), Ghost(lvl));
    let ty = es_v[s].0.clone();
    let st = es_v[s].1.duplicate();
    let g = GroupTree { primary: Some((ty, st)), children: gs, task_types: tts };
    proof {
        let iv = children@[s as int]@;
        lemma_index_in_map(es, s as int);
        assert(es[s as int].1.wf());
        assert(own_entries_ok(g, m));
        assert(tree_ok(g, m));
        assert forall|t: TaskTypeView| #[trigger] direct_types(g).contains(t) implies strictly_reaches(m, es[s as int].0@, t) by {
            if exists|i: int| 0 <= i < g.task_types@.len() && g.task_types@[i].0@ == t {
                let i = choose|i: int| 0 <= i < g.task_types@.len() && g.task_types@[i].0@ == t;
                let q2 = choose|q2: int| 0 <= q2 < iv.len() && tts@[i].0@ == es[iv[q2] as int].0@;
                let c = iv[q2] as int;
                assert(c < n && slot_of(pl, c, n as int) == Some(s as int));
                assert(pl[c] is Some);
                assert(par_of(pl, c) == Some(s as int));
            } else {
                let i = choose|i: int| 0 <= i < g.children@.len() && primary_type(g.children@[i]) == Some(t);
                let q2 = choose|q2: int| 0 <= q2 < iv.len() && primary_type(gs@[i]) == Some(es[iv[q2] as int].0@);
                let c = iv[q2] as int;
                assert(c < n && slot_of(pl, c, n as int) == Some(s as int));
                assert(pl[c] is Some);
                assert(par_of(pl, c) == Some(s as int));
            }
        }
        assert(group_ok(g, m));
        assert(members(g) =~= types_of(es, below_set(pl, s as int))) by {
            assert(members(g) == own_types(g).union(members_of(g.children@, g.children@.len())));
            assert forall|t: TaskTypeView| #[trigger] types_of(es, below_set(pl, s as int)).contains(t) <==> t == es[s as int].0@
                || union_below(es, pl, iv, iv.len() as int).contains(t) by {
                if types_of(es, below_set(pl, s as int)).contains(t) && t != es[s as int].0@ {
                    let i = choose|i: int| #[trigger] below_set(pl, s as int).contains(i) && 0 <= i < es.len() && es[i].0@ == t;
                    assert(i != s);
                    lemma_anc_of_unplaced(pl, s as int, i);
                    lemma_below(es, m, pl, lvl, s as int, i);
                    let c = choose|c: int|
                        0 <= c < pl.len() && pl[c] is Some && #[trigger] par_of(pl, c) == Some(s as int) && (c == i || is_anc(pl, c, i));
                    assert(slot_of(pl, c, n as int) == Some(s as int));
                    assert(children@[s as int]@.contains(c as usize));
                    let q2 = choose|q2: int| 0 <= q2 < iv.len() && iv[q2] == c as usize;
                    assert(below_set(pl, iv[q2] as int).contains(i));
                    assert(types_of(es, below_set(pl, iv[q2] as int)).contains(t));
                }
                if t == es[s as int].0@ {
                    assert(below_set(pl, s as int).contains(s as int));
                }
                if union_below(es, pl, iv, iv.len() as int).contains(t) {
                    let q2 = choose|q2: int| 0 <= q2 < iv.len() && #[trigger] types_of(es, below_set(pl, iv[q2] as int)).contains(t);
                    let c = iv[q2] as int;
                    assert(c < n && slot_of(pl, c, n as int) == Some(s as int));
                    let i = choose|i: int| #[trigger] below_set(pl, c).contains(i) && 0 <= i < es.len() && es[i].0@ == t;
                    if i != c {
                        lemma_anc_of_unplaced(pl, c, i);
                    }
                    lemma_below(es, m, pl, lvl, s as int, i);
                    assert(par_of(pl, c) == Some(s as int));
                    assert(below_set(pl, s as int).contains(i));
                }
            }
            assert(own_types(g) =~= tt_types(tts@).insert(es[s as int].0@));
        }
        assert(!union_below(es, pl, iv, iv.len() as int).contains(es[s as int].0@)) by {
            if union_below(es, pl, iv, iv.len() as int).contains(es[s as int].0@) {
                let q2 = choose|q2: int| 0 <= q2 < iv.len() && #[trigger] types_of(es, below_set(pl, iv[q2] as int)).contains(es[s as int].0@);
                let c = iv[q2] as int;
                assert(c < n && slot_of(pl, c, n as int) == Some(s as int));
                assert(pl[c] is Some);
                let i = choose|i: int| #[trigger] below_set(pl, c).contains(i) && 0 <= i < es.len() && es[i].0@ == es[s as int].0@;
                lemma_same_type_same_index(es, i, s as int);
                lemma_parent_not_below(es, m, pl, lvl, s as int, c);
            }
        }
        assert(occurs_once(g));
        lemma_group_placed(es, m, pl, lvl, children@, s as int, g);
    }
    g
}

/// The tree of groups over the entries: every entry reachable from a root,
/// grouped under the entry where it was placed.
pub(crate) fn build_tree(es_v: &Vec<(TaskType, TaskStats)>) -> (r: GroupTree)
    requires
        entries_wf(es_v@),
        children_known(map_of(stats_entries(es_v@))),
    ensures
        r.primary is None,
        members(r) == reachable_types(map_of(stats_entries(es_v@))),
        tree_ok(r, map_of(stats_entries(es_v@))),
        occurs_once(r),
        exists|pl: Seq<Option<Option<usize>>>| {
            &&& search_outcome(es_v@, pl)
            &&& pl.len() == es_v@.len()
            &&& tree_follows(r, es_v@, pl)
            &&& placement_laws(es_v@, map_of(stats_entries(es_v@)), pl)
        },
{
    let ghost es = es_v@;
    let ghost m = map_of(stats_entries(es));
    let n = es_v.len();
    let (pl, lvl) = place_tasks(es_v);
    let children = collect_children(&pl);
    let (gs, tts) = group_members(es_v, &children, n, Ghost(pl@), lvl);
    let r = GroupTree { primary: None, children: gs, task_types: tts };
    proof {
        let plv = pl@;
        let iv = children@[n as int]@;
        assert(own_entries_ok(r, m));
        assert(tree_ok(r, m));
        assert(own_types(r) =~= tt_types(tts@));
        assert(members(r) == union_below(es, plv, iv, iv.len() as int));
        assert forall|t: TaskTypeView| #[trigger] union_below(es, plv, iv, iv.len() as int).contains(t) <==>
            reachable_types(m).contains(t) by {
            if reachable_types(m).contains(t) {
                let rt = choose|rt: TaskTypeView| #[trigger] is_root_type(m, rt) && reaches(m, rt, t);
                let p = choose|p: Seq<TaskTypeView>| #[trigger] is_child_path(m, p) && p[0] == rt && p.last() == t;
                assert(m.dom().contains(p[p.len() - 1]));
                let i = lemma_type_index(es, t);
                assert(plv[i] is Some);
                lemma_under_top(es, m, plv, lvl@, i);
                let c = choose|c: int| 0 <= c < plv.len() && #[trigger] plv[c] == Some(None::<usize>) && (c == i || is_anc(plv, c, i));
                assert(slot_of(plv, c, n as int) == Some(n as int));
                assert(children@[n as int]@.contains(c as usize));
                let q2 = choose|q2: int| 0 <= q2 < iv.len() && iv[q2] == c as usize;
                assert(below_set(plv, iv[q2] as int).contains(i));
                assert(types_of(es, below_set(plv, iv[q2] as int)).contains(t));
            }
            if union_below(es, plv, iv, iv.len() as int).contains(t) {
                let q2 = choose|q2: int| 0 <= q2 < iv.len() && #[trigger] types_of(es, below_set(plv, iv[q2] as int)).contains(t);
                let c = iv[q2] as int;
                assert(c < n && slot_of(plv, c, n as int) == Some(n as int));
                let i = choose|i: int| #[trigger] below_set(plv, c).contains(i) && 0 <= i < es.len() && es[i].0@ == t;
                if i != c {
                    lemma_anc_of_unplaced(plv, c, i);
                }
                assert(plv[i] is Some);
            }
        }
        assert(members(r) =~= reachable_types(m));
        lemma_top_placed(es, m, plv, lvl@, children@, r);
    }
    r
}

} // verus!
