//! References between assets, and the walks that collect the assets an
//! asset refers to: directly, or through the whole graph.
use vstd::prelude::*;
use vstd::set_lib::lemma_len_subset;
use crate::vc::{AssetReferenceVc, AssetVc, FileContentVc, FileSystemPathVc};

verus! {

/// What resolving a reference gives.
#[derive(Clone, Debug)]
pub enum ResolveResult {
    /// One asset, and the references that came up while resolving.
    Single(AssetVc, Vec<AssetReferenceVc>),
    /// Assets by key, and references; this walk does not handle them.
    Keyed(Vec<(String, AssetVc)>, Vec<AssetReferenceVc>),
    /// Several assets that all stand for the request, and references.
    Alternatives(Vec<AssetVc>, Vec<AssetReferenceVc>),
    /// No asset but something the bundler treats itself, and references.
    Special(Vec<AssetReferenceVc>),
    /// Nothing was found; the references that were looked at.
    Unresolveable(Vec<AssetReferenceVc>),
}

/// The assets of a result, in order.
pub open spec fn result_assets(r: ResolveResult) -> Seq<AssetVc> {
    match r {
        ResolveResult::Single(a, _) => seq![a],
        ResolveResult::Alternatives(v, _) => v@,
        _ => Seq::empty(),
    }
}

/// The references of a result, in order.
pub open spec fn result_references(r: ResolveResult) -> Seq<AssetReferenceVc> {
    match r {
        ResolveResult::Single(_, refs) => refs@,
        ResolveResult::Keyed(_, refs) => refs@,
        ResolveResult::Alternatives(_, refs) => refs@,
        ResolveResult::Special(refs) => refs@,
        ResolveResult::Unresolveable(refs) => refs@,
    }
}

/// A reference from an asset to other assets.
pub trait AssetReference {
    /// What the reference resolves to.
    fn resolve_reference(&self) -> ResolveResult;

    /// A description of the reference for people.
    fn description(&self) -> String;
}

/// An asset: something with a path and content that refers to other
/// assets.
pub trait Asset {
    /// Where the asset lies.
    fn path(&self) -> FileSystemPathVc;

    /// What the asset holds.
    fn content(&self) -> FileContentVc;

    /// What the asset refers to.
    fn references(&self) -> AssetReferencesVc;
}

/// A list of asset references.
#[derive(Clone, Debug)]
pub struct AssetReferences(pub Vec<AssetReferenceVc>);

/// A list of asset references as the task that creates it gives it back.
#[derive(Clone, Debug)]
pub struct AssetReferencesVc {
    references: AssetReferences,
}

impl AssetReferencesVc {
    /// The references that this handle holds.
    pub closed spec fn references_spec(self) -> Seq<AssetReferenceVc> {
        self.references.0@
    }

    /// An empty list of references.
    pub fn empty() -> (r: Self)
        ensures
            r.references_spec() == Seq::<AssetReferenceVc>::empty(),
    {
        AssetReferencesVc { references: AssetReferences(Vec::new()) }
    }

    /// A list of the given references.
    pub fn cell(references: Vec<AssetReferenceVc>) -> (r: Self)
        ensures
            r.references_spec() == references@,
    {
        AssetReferencesVc { references: AssetReferences(references) }
    }

    /// The references that this handle holds.
    pub fn get(&self) -> (r: &Vec<AssetReferenceVc>)
        ensures
            r@ == self.references_spec(),
    {
        &self.references.0
    }
}

/// A set of assets, in the order they were added.
#[derive(Clone, Debug, PartialEq, Eq)]
pub struct AssetsSet {
    pub assets: Vec<AssetVc>,
}

/// A set of assets as the task that creates it gives it back.
#[derive(Clone, Debug)]
pub struct AssetsSetVc {
    set: AssetsSet,
}

impl AssetsSetVc {
    /// The assets that this handle holds.
    pub closed spec fn assets_spec(self) -> Seq<AssetVc> {
        self.set.assets@
    }

    /// The empty set of assets.
    pub fn empty() -> (r: Self)
        ensures
            r.assets_spec() == Seq::<AssetVc>::empty(),
    {
        AssetsSetVc { set: AssetsSet { assets: Vec::new() } }
    }

    /// The assets that this handle holds.
    pub fn get(&self) -> (r: &AssetsSet)
        ensures
            r.assets@ == self.assets_spec(),
    {
        &self.set
    }
}

/// The walk that collects the assets an asset refers to directly: the
/// references still to resolve, first in first out, and the assets found,
/// in the order they were found. References that come up while resolving
/// are resolved too; the assets they lead to belong to the same asset.
#[derive(Debug)]
pub struct ReferencedAssetsWalk {
    queue: Vec<AssetReferenceVc>,
    assets: Vec<AssetVc>,
}

impl ReferencedAssetsWalk {
    /// The references still to resolve, the next one first.
    pub closed spec fn queue_spec(self) -> Seq<AssetReferenceVc> {
        self.queue@
    }

    /// The assets found so far.
    pub closed spec fn assets_spec(self) -> Seq<AssetVc> {
        self.assets@
    }

    /// A walk over the references of an asset.
    pub fn new(references: &Vec<AssetReferenceVc>) -> (r: Self)
        ensures
            r.queue_spec() == references@,
            r.assets_spec() == Seq::<AssetVc>::empty(),
    {
        let mut queue: Vec<AssetReferenceVc> = Vec::new();
        let n = references.len();
        for i in 0..n
            invariant
                n == references@.len(),
                queue@ == references@.take(i as int),
        {
            queue.push(references[i]);
            assert(queue@ =~= references@.take(i + 1));
        }
        assert(references@.take(n as int) =~= references@);
        ReferencedAssetsWalk { queue, assets: Vec::new() }
    }

    /// The next reference to resolve, taken off the queue; none where the
    /// walk is done.
    pub fn next_reference(&mut self) -> (r: Option<AssetReferenceVc>)
        ensures
            old(self).queue_spec().len() == 0 ==> r is None && *final(self) == *old(self),
            old(self).queue_spec().len() > 0 ==> r == Some(old(self).queue_spec()[0])
                && final(self).queue_spec() == old(self).queue_spec().skip(1)
                && final(self).assets_spec() == old(self).assets_spec(),
    {
        if self.queue.len() == 0 {
            None
        } else {
            let r = self.queue.remove(0);
            assert(self.queue@ =~= old(self).queue@.skip(1));
            Some(r)
        }
    }

    /// Takes in what a reference resolved to: its assets are found, its
    /// references are queued.
    pub fn add_result(&mut self, result: &ResolveResult)
        requires
            !(*result is Keyed),
        ensures
            final(self).assets_spec() == old(self).assets_spec() + result_assets(*result),
            final(self).queue_spec() == old(self).queue_spec() + result_references(*result),
    {
        match result {
            ResolveResult::Single(a, refs) => {
                self.assets.push(*a);
                assert(self.assets@ =~= old(self).assets@ + seq![*a]);
                push_all_refs(&mut self.queue, refs);
            },
            ResolveResult::Alternatives(v, refs) => {
                push_all_assets(&mut self.assets, v);
                push_all_refs(&mut self.queue, refs);
            },
            ResolveResult::Special(refs) => {
                assert(self.assets@ =~= old(self).assets@ + Seq::<AssetVc>::empty());
                push_all_refs(&mut self.queue, refs);
            },
            ResolveResult::Unresolveable(refs) => {
                assert(self.assets@ =~= old(self).assets@ + Seq::<AssetVc>::empty());
                push_all_refs(&mut self.queue, refs);
            },
            ResolveResult::Keyed(_, _) => {},
        }
    }

    /// The assets found, once the walk is done.
    pub fn into_assets(self) -> (r: Vec<AssetVc>)
        ensures
            r@ == self.assets_spec(),
    {
        self.assets
    }
}

fn push_all_refs(v: &mut Vec<AssetReferenceVc>, more: &Vec<AssetReferenceVc>)
    ensures
        final(v)@ == old(v)@ + more@,
{
    let n = more.len();
    for i in 0..n
        invariant
            n == more@.len(),
            v@ == old(v)@ + more@.take(i as int),
    {
        v.push(more[i]);
        assert(v@ =~= old(v)@ + more@.take(i + 1));
    }
    assert(more@.take(n as int) =~= more@);
}

fn push_all_assets(v: &mut Vec<AssetVc>, more: &Vec<AssetVc>)
    ensures
        final(v)@ == old(v)@ + more@,
{
    let n = more.len();
    for i in 0..n
        invariant
            n == more@.len(),
            v@ == old(v)@ + more@.take(i as int),
    {
        v.push(more[i]);
        assert(v@ =~= old(v)@ + more@.take(i + 1));
    }
    assert(more@.take(n as int) =~= more@);
}

/// The assets of `refs` that are not yet among `seen`, in order, each once.
pub open spec fn new_assets(seen: Seq<AssetVc>, refs: Seq<AssetVc>) -> Seq<AssetVc>
    decreases refs.len(),
{
    if refs.len() == 0 {
        Seq::empty()
    } else {
        let before = new_assets(seen, refs.drop_last());
        if (seen + before).contains(refs.last()) {
            before
        } else {
            before.push(refs.last())
        }
    }
}

/// The walk that collects all assets of the graph below an asset: the
/// assets whose references are still to expand, first in first out, and
/// the assets found, each once, the root first.
#[derive(Debug)]
pub struct AllAssetsWalk {
    queue: Vec<AssetVc>,
    assets: Vec<AssetVc>,
}

impl AllAssetsWalk {
    /// Each asset is found once, and every queued asset has been found.
    #[verifier::type_invariant]
    spec fn well_formed(self) -> bool {
        &&& self.assets@.no_duplicates()
        &&& forall|i: int| 0 <= i < self.queue@.len() ==> self.assets@.contains(#[trigger] self.queue@[i])
    }

    /// The assets whose references are still to expand, the next one first.
    pub closed spec fn queue_spec(self) -> Seq<AssetVc> {
        self.queue@
    }

    /// The assets found so far.
    pub closed spec fn assets_spec(self) -> Seq<AssetVc> {
        self.assets@
    }

    /// A walk from `root`: the root is found and queued.
    pub fn new(root: AssetVc) -> (r: Self)
        ensures
            r.queue_spec() == seq![root],
            r.assets_spec() == seq![root],
    {
        let mut queue: Vec<AssetVc> = Vec::new();
        queue.push(root);
        let mut assets: Vec<AssetVc> = Vec::new();
        assets.push(root);
        assert(assets@ == seq![root]);
        AllAssetsWalk { queue, assets }
    }

    /// The next asset whose references are to expand, taken off the queue.
    pub fn next_parent(&mut self) -> (r: Option<AssetVc>)
        ensures
            old(self).queue_spec().len() == 0 ==> r is None && final(self).queue_spec() == old(self).queue_spec()
                && final(self).assets_spec() == old(self).assets_spec(),
            old(self).queue_spec().len() > 0 ==> r == Some(old(self).queue_spec()[0])
                && final(self).queue_spec() == old(self).queue_spec().skip(1)
                && final(self).assets_spec() == old(self).assets_spec(),
    {
        proof {
            use_type_invariant(&*self);
        }
        if self.queue.len() == 0 {
            None
        } else {
            let mut queue: Vec<AssetVc> = Vec::new();
            std::mem::swap(&mut queue, &mut self.queue);
            let r = queue.remove(0);
            assert(queue@ =~= old(self).queue@.skip(1));
            assert forall|i: int| 0 <= i < queue@.len() implies self.assets@.contains(#[trigger] queue@[i]) by {
                assert(queue@[i] == old(self).queue@[i + 1]);
            }
            self.queue = queue;
            Some(r)
        }
    }

    /// Takes in the assets that an expanded asset refers to: each one not
    /// found before is found and queued.
    pub fn add_referenced(&mut self, referenced: &Vec<AssetVc>)
        ensures
            final(self).assets_spec() == old(self).assets_spec() + new_assets(old(self).assets_spec(), referenced@),
            final(self).queue_spec() == old(self).queue_spec() + new_assets(old(self).assets_spec(), referenced@),
    {
        proof {
            use_type_invariant(&*self);
        }
        let mut queue: Vec<AssetVc> = Vec::new();
        std::mem::swap(&mut queue, &mut self.queue);
        let mut assets: Vec<AssetVc> = Vec::new();
        std::mem::swap(&mut assets, &mut self.assets);
        let ghost seen = assets@;
        let ghost q0 = queue@;
        let n = referenced.len();
        for i in 0..n
            invariant
                n == referenced@.len(),
                assets@ == seen + new_assets(seen, referenced@.take(i as int)),
                queue@ == q0 + new_assets(seen, referenced@.take(i as int)),
                assets@.no_duplicates(),
                forall|j: int| 0 <= j < queue@.len() ==> assets@.contains(#[trigger] queue@[j]),
        {
            let a = referenced[i];
            assert(referenced@.take(i + 1).drop_last() =~= referenced@.take(i as int));
            assert(referenced@.take(i + 1).last() == a);
            let mut found = false;
            let m = assets.len();
            for j in 0..m
                invariant
                    m == assets@.len(),
                    found == exists|k: int| 0 <= k < j && assets@[k] == a,
            {
                if assets[j] == a {
                    found = true;
                }
            }
            if !found {
                let ghost before_q = queue@;
                let ghost before_a = assets@;
                assets.push(a);
                queue.push(a);
                proof {
                    assert(!before_a.contains(a));
                    assert forall|x: int, y: int| 0 <= x < y < assets@.len() implies assets@[x] != assets@[y] by {
                        if y == assets@.len() - 1 {
                            assert(before_a[x] == assets@[x]);
                        }
                    }
                    assert forall|j: int| 0 <= j < queue@.len() implies assets@.contains(#[trigger] queue@[j]) by {
                        if j < before_q.len() {
                            assert(before_q[j] == queue@[j]);
                            assert(before_a.contains(queue@[j]));
                            let k = choose|k: int| 0 <= k < before_a.len() && before_a[k] == queue@[j];
                            assert(assets@[k] == queue@[j]);
                        } else {
                            assert(assets@[assets@.len() - 1] == a);
                        }
                    }
                }
                assert(assets@ =~= seen + new_assets(seen, referenced@.take(i + 1)));
                assert(queue@ =~= q0 + new_assets(seen, referenced@.take(i + 1)));
            } else {
                assert(assets@.contains(a));
                assert(assets@ =~= seen + new_assets(seen, referenced@.take(i + 1)));
            }
        }
        assert(referenced@.take(n as int) =~= referenced@);
        self.assets = assets;
        self.queue = queue;
    }

    /// The assets found, once the walk is done.
    pub fn into_assets(self) -> (r: Vec<AssetVc>)
        ensures
            r@ == self.assets_spec(),
            r@.no_duplicates(),
    {
        proof {
            use_type_invariant(&self);
        }
        self.assets
    }
}

} // verus!

verus! {

/// Taking in what a reference resolved to finds the assets of the result
/// and queues every reference that the result carries, whatever its kind:
/// an unresolvable result and a special one find no asset but still have
/// their references resolved.
pub proof fn lemma_add_result_queues_references(
    r: ResolveResult,
    assets0: Seq<AssetVc>,
    assets1: Seq<AssetVc>,
    queue0: Seq<AssetReferenceVc>,
    queue1: Seq<AssetReferenceVc>,
)
    requires
        !(r is Keyed),
        assets1 == assets0 + result_assets(r),
        queue1 == queue0 + result_references(r),
    ensures
        match r {
            ResolveResult::Single(a, refs) => assets1 == assets0.push(a) && queue1 == queue0 + refs@,
            ResolveResult::Alternatives(v, refs) => assets1 == assets0 + v@ && queue1 == queue0 + refs@,
            ResolveResult::Special(refs) => assets1 == assets0 && queue1 == queue0 + refs@,
            ResolveResult::Unresolveable(refs) => assets1 == assets0 && queue1 == queue0 + refs@,
            ResolveResult::Keyed(_, _) => true,
        },
{
    match r {
        ResolveResult::Single(a, refs) => {
            assert(assets0 + seq![a] =~= assets0.push(a));
        },
        ResolveResult::Special(_) => {
            assert(assets0 + Seq::<AssetVc>::empty() =~= assets0);
        },
        ResolveResult::Unresolveable(_) => {
            assert(assets0 + Seq::<AssetVc>::empty() =~= assets0);
        },
        _ => {},
    }
}

/// Every found asset that is no longer queued has all the assets it refers
/// to found.
pub open spec fn expanded_closed(
    graph: spec_fn(AssetVc) -> Seq<AssetVc>,
    assets: Seq<AssetVc>,
    queue: Seq<AssetVc>,
) -> bool {
    forall|a: AssetVc, b: AssetVc|
        #![trigger assets.contains(a), graph(a).contains(b)]
        assets.contains(a) && !queue.contains(a) && graph(a).contains(b) ==> assets.contains(b)
}

/// A chain of references from `a` to `b` through `graph`.
pub open spec fn is_ref_path(graph: spec_fn(AssetVc) -> Seq<AssetVc>, p: Seq<AssetVc>) -> bool {
    &&& p.len() >= 1
    &&& forall|i: int| #![trigger p[i]] 0 <= i < p.len() - 1 ==> graph(p[i]).contains(p[i + 1])
}

/// `b` is `a` or lies below it in `graph`.
pub open spec fn reachable(graph: spec_fn(AssetVc) -> Seq<AssetVc>, a: AssetVc, b: AssetVc) -> bool {
    exists|p: Seq<AssetVc>| #[trigger] is_ref_path(graph, p) && p[0] == a && p.last() == b
}

/// Every asset of `s` lies below `root`.
pub open spec fn all_reachable(graph: spec_fn(AssetVc) -> Seq<AssetVc>, root: AssetVc, s: Seq<AssetVc>) -> bool {
    forall|a: AssetVc| #[trigger] s.contains(a) ==> reachable(graph, root, a)
}

/// The new assets of a list lie among the list.
pub(crate) proof fn lemma_new_assets_in(seen: Seq<AssetVc>, refs: Seq<AssetVc>)
    ensures
        forall|b: AssetVc| #[trigger] new_assets(seen, refs).contains(b) ==> refs.contains(b),
        forall|b: AssetVc| #[trigger] refs.contains(b) ==> (seen + new_assets(seen, refs)).contains(b),
    decreases refs.len(),
{
    if refs.len() > 0 {
        let rest = refs.drop_last();
        lemma_new_assets_in(seen, rest);
        let before = new_assets(seen, rest);
        assert forall|b: AssetVc| #[trigger] new_assets(seen, refs).contains(b) implies refs.contains(b) by {
            if before.contains(b) {
                assert(rest.contains(b));
                let j = choose|j: int| 0 <= j < rest.len() && rest[j] == b;
                assert(refs[j] == b);
            } else {
                assert(b == refs.last());
                assert(refs[refs.len() - 1] == b);
            }
        }
        assert forall|b: AssetVc| #[trigger] refs.contains(b) implies (seen + new_assets(seen, refs)).contains(b) by {
            let j = choose|j: int| 0 <= j < refs.len() && refs[j] == b;
            if j < refs.len() - 1 {
                assert(rest[j] == b);
                assert(rest.contains(b));
                assert((seen + before).contains(b));
                let k = choose|k: int| 0 <= k < (seen + before).len() && (seen + before)[k] == b;
                if !(seen + before).contains(refs.last()) {
                    assert((seen + before.push(refs.last()))[k] == b);
                }
            } else {
                if !(seen + before).contains(refs.last()) {
                    let x = seen + before.push(refs.last());
                    assert(x[x.len() - 1] == b);
                }
            }
        }
    }
}

/// One step of the walk over all assets (take the next queued asset,
/// add the assets it refers to) keeps expanded assets closed and every found
/// asset below the root.
pub proof fn lemma_all_assets_step(
    graph: spec_fn(AssetVc) -> Seq<AssetVc>,
    root: AssetVc,
    assets: Seq<AssetVc>,
    queue: Seq<AssetVc>,
)
    requires
        queue.len() > 0,
        assets.contains(queue[0]),
        expanded_closed(graph, assets, queue),
        all_reachable(graph, root, assets),
    ensures
        expanded_closed(
            graph,
            assets + new_assets(assets, graph(queue[0])),
            queue.skip(1) + new_assets(assets, graph(queue[0])),
        ),
        all_reachable(graph, root, assets + new_assets(assets, graph(queue[0]))),
{
    let p = queue[0];
    let added = new_assets(assets, graph(p));
    let a2 = assets + added;
    let q2 = queue.skip(1) + added;
    lemma_new_assets_in(assets, graph(p));
    assert forall|a: AssetVc, b: AssetVc|
        #![trigger a2.contains(a), graph(a).contains(b)]
        a2.contains(a) && !q2.contains(a) && graph(a).contains(b) implies a2.contains(b) by {
        if a == p {
            assert(graph(p).contains(b));
        } else {
            if added.contains(a) {
                let j = choose|j: int| 0 <= j < added.len() && added[j] == a;
                assert(q2[queue.len() - 1 + j] == a);
            }
            assert(!added.contains(a));
            let j = choose|j: int| 0 <= j < a2.len() && a2[j] == a;
            if j >= assets.len() {
                assert(added[j - assets.len()] == a);
            }
            assert(assets[j] == a);
            assert(assets.contains(a));
            if queue.contains(a) {
                let k = choose|k: int| 0 <= k < queue.len() && queue[k] == a;
                assert(k != 0);
                assert(q2[k - 1] == a);
            }
            assert(assets.contains(b));
            let k = choose|k: int| 0 <= k < assets.len() && assets[k] == b;
            assert(a2[k] == b);
        }
    }
    assert(reachable(graph, root, p));
    assert forall|a: AssetVc| #[trigger] a2.contains(a) implies reachable(graph, root, a) by {
        let j = choose|j: int| 0 <= j < a2.len() && a2[j] == a;
        if j < assets.len() {
            assert(assets[j] == a);
            assert(assets.contains(a));
        } else {
            assert(added[j - assets.len()] == a);
            assert(added.contains(a));
            assert(graph(p).contains(a));
            let path = choose|path: Seq<AssetVc>| #[trigger] is_ref_path(graph, path) && path[0] == root && path.last() == p;
            let longer = path.push(a);
            assert forall|i: int| #![trigger longer[i]] 0 <= i < longer.len() - 1 implies graph(longer[i]).contains(
                longer[i + 1],
            ) by {
                if i < path.len() - 1 {
                    assert(longer[i] == path[i] && longer[i + 1] == path[i + 1]);
                }
            }
            assert(is_ref_path(graph, longer));
        }
    }
}

/// When the walk is done, its assets are exactly the assets below the
/// root: all of them lie below it, and every asset below it was found.
pub proof fn lemma_all_assets_complete(
    graph: spec_fn(AssetVc) -> Seq<AssetVc>,
    root: AssetVc,
    assets: Seq<AssetVc>,
    b: AssetVc,
)
    requires
        assets.contains(root),
        expanded_closed(graph, assets, Seq::empty()),
        all_reachable(graph, root, assets),
    ensures
        assets.contains(b) <==> reachable(graph, root, b),
{
    if reachable(graph, root, b) {
        let path = choose|path: Seq<AssetVc>| #[trigger] is_ref_path(graph, path) && path[0] == root && path.last() == b;
        lemma_path_found(graph, assets, path, path.len() as int);
    }
}

proof fn lemma_path_found(graph: spec_fn(AssetVc) -> Seq<AssetVc>, assets: Seq<AssetVc>, path: Seq<AssetVc>, k: int)
    requires
        is_ref_path(graph, path),
        1 <= k <= path.len(),
        assets.contains(path[0]),
        expanded_closed(graph, assets, Seq::empty()),
    ensures
        assets.contains(path[k - 1]),
    decreases k,
{
    if k > 1 {
        lemma_path_found(graph, assets, path, k - 1);
        assert(graph(path[k - 2]).contains(path[k - 1]));
        assert(!Seq::<AssetVc>::empty().contains(path[k - 2]));
    }
}

/// At the start of the walk the root is found and queued: nothing is
/// expanded yet, and the root lies below itself.
pub proof fn lemma_all_assets_start(graph: spec_fn(AssetVc) -> Seq<AssetVc>, root: AssetVc)
    ensures
        expanded_closed(graph, seq![root], seq![root]),
        all_reachable(graph, root, seq![root]),
{
    assert(seq![root][0] == root);
    assert forall|a: AssetVc| #[trigger] seq![root].contains(a) implies reachable(graph, root, a) by {
        let j = choose|j: int| 0 <= j < 1 && seq![root][j] == a;
        assert(a == root);
        let p = seq![root];
        assert(is_ref_path(graph, p));
    }
    assert forall|a: AssetVc, b: AssetVc|
        #![trigger seq![root].contains(a), graph(a).contains(b)]
        seq![root].contains(a) && !seq![root].contains(a) && graph(a).contains(b) implies seq![root].contains(b) by {}
}

} // verus!

verus! {

/// The assets that `a` refers to in a list of (asset, referenced assets)
/// pairs: those of every pair of `a`, in order.
pub open spec fn refs_of(edges: Seq<(AssetVc, Vec<AssetVc>)>, a: AssetVc) -> Seq<AssetVc>
    decreases edges.len(),
{
    if edges.len() == 0 {
        Seq::empty()
    } else {
        refs_of(edges.drop_last(), a) + if edges.last().0 == a {
            edges.last().1@
        } else {
            Seq::empty()
        }
    }
}

/// All assets that the pairs refer to.
pub open spec fn all_refs(edges: Seq<(AssetVc, Vec<AssetVc>)>) -> Seq<AssetVc>
    decreases edges.len(),
{
    if edges.len() == 0 {
        Seq::empty()
    } else {
        all_refs(edges.drop_last()) + edges.last().1@
    }
}

/// The graph that a list of pairs stands for.
pub open spec fn graph_of(edges: Seq<(AssetVc, Vec<AssetVc>)>) -> spec_fn(AssetVc) -> Seq<AssetVc> {
    |a: AssetVc| refs_of(edges, a)
}

pub(crate) proof fn lemma_refs_in_all(edges: Seq<(AssetVc, Vec<AssetVc>)>, a: AssetVc, b: AssetVc)
    requires
        refs_of(edges, a).contains(b),
    ensures
        all_refs(edges).contains(b),
    decreases edges.len(),
{
    let rest = edges.drop_last();
    let tail = if edges.last().0 == a {
        edges.last().1@
    } else {
        Seq::<AssetVc>::empty()
    };
    let j = choose|j: int| 0 <= j < refs_of(edges, a).len() && refs_of(edges, a)[j] == b;
    if j < refs_of(rest, a).len() {
        assert(refs_of(rest, a)[j] == b);
        lemma_refs_in_all(rest, a, b);
        let k = choose|k: int| 0 <= k < all_refs(rest).len() && all_refs(rest)[k] == b;
        assert(all_refs(edges)[k] == b);
    } else {
        assert(tail[j - refs_of(rest, a).len()] == b);
        assert(all_refs(edges)[all_refs(rest).len() + j - refs_of(rest, a).len()] == b);
    }
}

/// The assets that `a` refers to.
pub(crate) fn references_of(edges: &Vec<(AssetVc, Vec<AssetVc>)>, a: AssetVc) -> (r: Vec<AssetVc>)
    ensures
        r@ == refs_of(edges@, a),
{
    let mut r: Vec<AssetVc> = Vec::new();
    let n = edges.len();
    for i in 0..n
        invariant
            n == edges@.len(),
            r@ == refs_of(edges@.take(i as int), a),
    {
        assert(edges@.take(i + 1).drop_last() =~= edges@.take(i as int));
        assert(edges@.take(i + 1).last() == edges@[i as int]);
        if edges[i].0 == a {
            push_all_assets(&mut r, &edges[i].1);
        } else {
            assert(r@ =~= r@ + Seq::<AssetVc>::empty());
        }
    }
    assert(edges@.take(n as int) =~= edges@);
    r
}

/// All assets of the subgraph below `root`, given what each asset refers
/// to: each once, the root first, in the order the walk finds them.
pub fn all_assets(root: AssetVc, edges: &Vec<(AssetVc, Vec<AssetVc>)>) -> (r: Vec<AssetVc>)
    ensures
        r@.no_duplicates(),
        forall|b: AssetVc| r@.contains(b) <==> reachable(graph_of(edges@), root, b),
{
    let ghost g = graph_of(edges@);
    let ghost universe = seq![root] + all_refs(edges@);
    let mut walk = AllAssetsWalk::new(root);
    proof {
        lemma_all_assets_start(g, root);
        assert(walk.assets_spec()[0] == root);
        assert(universe[0] == root);
    }
    loop
        invariant
            expanded_closed(g, walk.assets_spec(), walk.queue_spec()),
            all_reachable(g, root, walk.assets_spec()),
            walk.assets_spec().contains(root),
            walk.assets_spec().no_duplicates(),
            forall|a: AssetVc| #[trigger] walk.assets_spec().contains(a) ==> universe.contains(a),
            forall|i: int| 0 <= i < walk.queue_spec().len() ==> walk.assets_spec().contains(#[trigger] walk.queue_spec()[i]),
            g == graph_of(edges@),
            universe == seq![root] + all_refs(edges@),
        ensures
            expanded_closed(g, walk.assets_spec(), Seq::empty()),
            all_reachable(g, root, walk.assets_spec()),
            walk.assets_spec().contains(root),
            walk.assets_spec().no_duplicates(),
        decreases 2 * (universe.len() - walk.assets_spec().len()) + walk.queue_spec().len(),
    {
        proof {
            assert(walk.assets_spec().to_set().subset_of(universe.to_set()));
            lemma_len_subset(walk.assets_spec().to_set(), universe.to_set());
            walk.assets_spec().unique_seq_to_set();
            universe.lemma_cardinality_of_set();
        }
        let ghost a0 = walk.assets_spec();
        let ghost q0 = walk.queue_spec();
        match walk.next_parent() {
            None => {
                assert(q0 =~= Seq::<AssetVc>::empty());
                assert(walk.queue_spec() =~= Seq::<AssetVc>::empty());
                break;
            },
            Some(p) => {
                let refs = references_of(edges, p);
                assert(refs@ == g(p));
                walk.add_referenced(&refs);
                proof {
                    use_type_invariant(&walk);
                    lemma_all_assets_step(g, root, a0, q0);
                    lemma_new_assets_in(a0, refs@);
                    let added = new_assets(a0, refs@);
                    assert(walk.assets_spec() == a0 + added);
                    assert forall|a: AssetVc| #[trigger] walk.assets_spec().contains(a) implies universe.contains(a) by {
                        let j = choose|j: int| 0 <= j < walk.assets_spec().len() && walk.assets_spec()[j] == a;
                        if j < a0.len() {
                            assert(a0[j] == a);
                            assert(a0.contains(a));
                            assert(universe.contains(a));
                        } else {
                            assert(added[j - a0.len()] == a);
                            assert(added.contains(a));
                            assert(refs@.contains(a));
                            assert(refs_of(edges@, p).contains(a));
                            lemma_refs_in_all(edges@, p, a);
                            let k = choose|k: int| 0 <= k < all_refs(edges@).len() && all_refs(edges@)[k] == a;
                            assert(universe[k + 1] == a);
                            assert(universe.contains(a));
                        }
                    }
                    assert(walk.assets_spec().contains(root)) by {
                        let j = choose|j: int| 0 <= j < a0.len() && a0[j] == root;
                        assert(walk.assets_spec()[j] == root);
                    }
                    assert(walk.assets_spec().to_set().subset_of(universe.to_set()));
                    lemma_len_subset(walk.assets_spec().to_set(), universe.to_set());
                    walk.assets_spec().unique_seq_to_set();
                    universe.lemma_cardinality_of_set();
                    assert(walk.assets_spec().len() <= universe.len());
                    assert(walk.assets_spec().len() == a0.len() + added.len());
                    assert(walk.queue_spec().len() == q0.len() - 1 + added.len());
                }
            },
        }
    }
    proof {
        assert forall|b: AssetVc| walk.assets_spec().contains(b) <==> reachable(g, root, b) by {
            lemma_all_assets_complete(g, root, walk.assets_spec(), b);
        }
    }
    walk.into_assets()
}

} // verus!
