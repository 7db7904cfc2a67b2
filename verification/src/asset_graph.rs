//! A content source that serves the assets of the graph below a root asset,
//! by their path below a root directory; a lazy source expands the
//! references of an asset only once the asset was requested.
use vstd::prelude::*;
use vstd::set_lib::lemma_len_subset;
use crate::assoc::{keyed, keys_distinct, map_of, set_by_name};
use crate::reference::{
    all_reachable, all_refs, expanded_closed, graph_of, lemma_all_assets_complete, lemma_all_assets_start,
    lemma_all_assets_step, lemma_new_assets_in, lemma_refs_in_all, new_assets, reachable, references_of, refs_of,
};
use crate::vc::{AssetVc, FileSystemPathVc};

verus! {

/// The assets whose references a lazy source expands.
#[derive(Debug)]
pub struct ExpandedAssets {
    expanded: Vec<AssetVc>,
}

impl ExpandedAssets {
    /// Each asset occurs once.
    #[verifier::type_invariant]
    spec fn well_formed(self) -> bool {
        self.expanded@.no_duplicates()
    }

    /// The expanded assets.
    pub closed spec fn assets_spec(self) -> Set<AssetVc> {
        self.expanded@.to_set()
    }
}

/// A content source over the assets of a graph.
#[derive(Debug)]
pub struct AssetGraphContentSource {
    root_path: FileSystemPathVc,
    root_asset: AssetVc,
    state: Option<ExpandedAssets>,
}

impl AssetGraphContentSource {
    /// The directory whose paths the source serves.
    pub closed spec fn root_path_spec(self) -> FileSystemPathVc {
        self.root_path
    }

    /// The asset the graph starts at.
    pub closed spec fn root_asset_spec(self) -> AssetVc {
        self.root_asset
    }

    /// The directory whose paths the source serves.
    pub fn root_path(&self) -> (r: FileSystemPathVc)
        ensures
            r == self.root_path_spec(),
    {
        self.root_path
    }

    /// The asset the graph starts at.
    pub fn root_asset(&self) -> (r: AssetVc)
        ensures
            r == self.root_asset_spec(),
    {
        self.root_asset
    }

    /// Whether the source is lazy, and which assets it has expanded.
    pub closed spec fn expanded_spec(self) -> Option<Set<AssetVc>> {
        match self.state {
            Some(s) => Some(s.assets_spec()),
            None => None,
        }
    }

    /// A source that expands the whole graph.
    pub fn new_eager(root_path: FileSystemPathVc, root_asset: AssetVc) -> (r: Self)
        ensures
            r.root_path_spec() == root_path,
            r.root_asset_spec() == root_asset,
            r.expanded_spec() is None,
    {
        AssetGraphContentSource { root_path, root_asset, state: None }
    }

    /// A source that expands an asset's references once it was requested;
    /// at first no asset is expanded.
    pub fn new_lazy(root_path: FileSystemPathVc, root_asset: AssetVc) -> (r: Self)
        ensures
            r.root_path_spec() == root_path,
            r.root_asset_spec() == root_asset,
            r.expanded_spec() == Some(Set::<AssetVc>::empty()),
    {
        let s = ExpandedAssets { expanded: Vec::new() };
        assert(s.expanded@.to_set() =~= Set::empty());
        AssetGraphContentSource { root_path, root_asset, state: Some(s) }
    }

    /// Whether the references of `asset` are expanded: always for an eager
    /// source, for a lazy one once the asset was requested.
    pub fn is_expanded(&self, asset: AssetVc) -> (r: bool)
        ensures
            r == match self.expanded_spec() {
                Some(s) => s.contains(asset),
                None => true,
            },
    {
        match &self.state {
            None => true,
            Some(s) => {
                let n = s.expanded.len();
                for i in 0..n
                    invariant
                        n == s.expanded@.len(),
                        self.expanded_spec() == Some(s.expanded@.to_set()),
                        forall|j: int| 0 <= j < i ==> s.expanded@[j] != asset,
                {
                    if s.expanded[i] == asset {
                        assert(s.expanded@[i as int] == asset);
                        assert(s.expanded@.contains(asset));
                        assert(s.expanded@.to_set().contains(asset));
                        return true;
                    }
                }
                assert(!s.expanded@.to_set().contains(asset)) by {
                    if s.expanded@.to_set().contains(asset) {
                        assert(s.expanded@.contains(asset));
                        let j = choose|j: int| 0 <= j < s.expanded@.len() && s.expanded@[j] == asset;
                    }
                }
                false
            },
        }
    }

    /// Records that `asset` was requested. Returns whether that expands it
    /// now, so that the map of served assets must be computed anew; an eager
    /// source expands everything already.
    pub fn mark_requested(&mut self, asset: AssetVc) -> (r: bool)
        ensures
            final(self).root_path_spec() == old(self).root_path_spec(),
            final(self).root_asset_spec() == old(self).root_asset_spec(),
            r == match old(self).expanded_spec() {
                Some(s) => !s.contains(asset),
                None => false,
            },
            final(self).expanded_spec() == match old(self).expanded_spec() {
                Some(s) => Some(s.insert(asset)),
                None => None,
            },
    {
        if self.is_expanded(asset) {
            proof {
                if let Some(s) = old(self).expanded_spec() {
                    assert(s.insert(asset) =~= s);
                }
            }
            return false;
        }
        match &mut self.state {
            Some(s) => {
                proof {
                    use_type_invariant(&*s);
                }
                let ghost before = s.expanded@;
                let mut v: Vec<AssetVc> = Vec::new();
                std::mem::swap(&mut v, &mut s.expanded);
                v.push(asset);
                proof {
                    assert(!before.contains(asset));
                    assert forall|x: int, y: int| 0 <= x < y < v@.len() implies v@[x] != v@[y] by {
                        if y == v@.len() - 1 {
                            assert(before.contains(before[x]));
                        }
                    }
                    assert(v@ == before.push(asset));
                    assert forall|a: AssetVc| v@.contains(a) <==> (before.contains(a) || a == asset) by {
                        if v@.contains(a) {
                            let j = choose|j: int| 0 <= j < v@.len() && v@[j] == a;
                            if j < before.len() {
                                assert(before[j] == a);
                            }
                        }
                        if before.contains(a) {
                            let j = choose|j: int| 0 <= j < before.len() && before[j] == a;
                            assert(v@[j] == a);
                        }
                        if a == asset {
                            assert(v@[v@.len() - 1] == a);
                        }
                    }
                    assert(v@.to_set() =~= before.to_set().insert(asset));
                }
                s.expanded = v;
                true
            },
            None => false,
        }
    }
}

/// The path that an id stands for: the id with the root path's text in
/// front taken off, where it starts with it.
pub open spec fn path_of_id(id: Seq<char>, root: Seq<char>) -> Option<Seq<char>> {
    if root.len() <= id.len() && id.take(root.len() as int) == root {
        Some(id.skip(root.len() as int))
    } else {
        None
    }
}

/// The path that `id` stands for below the root whose path text is `root`;
/// none where the id lies elsewhere, which serves nothing.
pub fn get_by_id_path(id: &str, root: &str) -> (r: Option<String>)
    ensures
        match r {
            Some(p) => path_of_id(id@, root@) == Some(p@),
            None => path_of_id(id@, root@) is None,
        },
{
    let n = id.unicode_len();
    let k = root.unicode_len();
    if k > n {
        return None;
    }
    let mut i: usize = 0;
    while i < k
        invariant
            n == id@.len(),
            k == root@.len(),
            k <= n,
            i <= k,
            forall|j: int| 0 <= j < i ==> id@[j] == root@[j],
        decreases k - i,
    {
        if id.get_char(i) != root.get_char(i) {
            assert(id@.take(k as int)[i as int] != root@[i as int]);
            return None;
        }
        i = i + 1;
    }
    assert(id@.take(k as int) =~= root@);
    let rest = id.substring_char(k, n);
    assert(id@.subrange(k as int, n as int) =~= id@.skip(k as int));
    Some(String::from_str(rest))
}

} // verus!

verus! {

/// The id of a path below the root, the root's text followed by the path,
/// leads back to that path.
pub proof fn lemma_id_of_path(root: Seq<char>, path: Seq<char>)
    ensures
        path_of_id(root + path, root) == Some(path),
{
    assert((root + path).take(root.len() as int) =~= root);
    assert((root + path).skip(root.len() as int) =~= path);
}

} // verus!

verus! {

/// Whether a source with expansion state `expanded` expands `a`.
pub open spec fn expands(expanded: Option<Set<AssetVc>>, a: AssetVc) -> bool {
    match expanded {
        Some(s) => s.contains(a),
        None => true,
    }
}

/// The assets of `xs` that a source with expansion state `expanded`
/// expands, in order.
pub open spec fn expanded_only(xs: Seq<AssetVc>, expanded: Option<Set<AssetVc>>) -> Seq<AssetVc>
    decreases xs.len(),
{
    if xs.len() == 0 {
        Seq::empty()
    } else {
        let rest = expanded_only(xs.drop_last(), expanded);
        if expands(expanded, xs.last()) {
            rest.push(xs.last())
        } else {
            rest
        }
    }
}

/// The graph that a source follows: the root's references always, another
/// asset's references only where the source expands it.
pub open spec fn served_graph(
    graph: spec_fn(AssetVc) -> Seq<AssetVc>,
    root: AssetVc,
    expanded: Option<Set<AssetVc>>,
) -> spec_fn(AssetVc) -> Seq<AssetVc> {
    |a: AssetVc| if a == root || expands(expanded, a) { graph(a) } else { Seq::empty() }
}

/// An asset is among the expanded ones of a list exactly when it is in the
/// list and expanded.
proof fn lemma_expanded_only(xs: Seq<AssetVc>, expanded: Option<Set<AssetVc>>, a: AssetVc)
    ensures
        expanded_only(xs, expanded).contains(a) <==> xs.contains(a) && expands(expanded, a),
    decreases xs.len(),
{
    if xs.len() > 0 {
        let rest = xs.drop_last();
        lemma_expanded_only(rest, expanded, a);
        let er = expanded_only(rest, expanded);
        if er.contains(a) {
            let j = choose|j: int| 0 <= j < er.len() && er[j] == a;
            if expands(expanded, xs.last()) {
                assert(er.push(xs.last())[j] == a);
            }
            let k = choose|k: int| 0 <= k < rest.len() && rest[k] == a;
            assert(xs[k] == a);
        }
        if xs.contains(a) && expands(expanded, a) {
            let k = choose|k: int| 0 <= k < xs.len() && xs[k] == a;
            if k < xs.len() - 1 {
                assert(rest[k] == a);
                let j = choose|j: int| 0 <= j < er.len() && er[j] == a;
                if expands(expanded, xs.last()) {
                    assert(er.push(xs.last())[j] == a);
                }
            } else {
                assert(er.push(xs.last())[er.len() as int] == a);
            }
        }
        if expanded_only(xs, expanded).contains(a) && !er.contains(a) {
            let j = choose|j: int| 0 <= j < expanded_only(xs, expanded).len() && expanded_only(xs, expanded)[j] == a;
            if expands(expanded, xs.last()) {
                assert(j == er.len());
                assert(a == xs.last());
                assert(xs[xs.len() - 1] == a);
            }
        }
    }
}

/// One step of a source's walk keeps expanded assets closed in the graph
/// the source follows, and every found asset below the root.
proof fn lemma_served_step(
    graph: spec_fn(AssetVc) -> Seq<AssetVc>,
    root: AssetVc,
    expanded: Option<Set<AssetVc>>,
    assets: Seq<AssetVc>,
    queue: Seq<AssetVc>,
)
    requires
        queue.len() > 0,
        assets.contains(queue[0]),
        assets.contains(root),
        (assets + new_assets(assets, served_graph(graph, root, expanded)(queue[0]))).no_duplicates(),
        expanded_closed(served_graph(graph, root, expanded), assets, queue),
        all_reachable(served_graph(graph, root, expanded), root, assets),
    ensures
        expanded_closed(
            served_graph(graph, root, expanded),
            assets + new_assets(assets, served_graph(graph, root, expanded)(queue[0])),
            queue.skip(1) + expanded_only(new_assets(assets, served_graph(graph, root, expanded)(queue[0])), expanded),
        ),
        all_reachable(served_graph(graph, root, expanded), root, assets + new_assets(assets, served_graph(graph, root, expanded)(queue[0]))),
{
    let g = served_graph(graph, root, expanded);
    let added = new_assets(assets, g(queue[0]));
    let a2 = assets + added;
    let q2 = queue.skip(1) + added;
    let q3 = queue.skip(1) + expanded_only(added, expanded);
    lemma_all_assets_step(g, root, assets, queue);
    assert forall|a: AssetVc, b: AssetVc|
        #![trigger a2.contains(a), g(a).contains(b)]
        a2.contains(a) && !q3.contains(a) && g(a).contains(b) implies a2.contains(b) by {
        if q2.contains(a) {
            let k = choose|k: int| 0 <= k < q2.len() && q2[k] == a;
            if k < queue.len() - 1 {
                assert(q3[k] == a);
            }
            let j = k - (queue.len() - 1);
            assert(added[j] == a);
            assert(added.contains(a));
            lemma_expanded_only(added, expanded, a);
            if expands(expanded, a) {
                let i = choose|i: int| 0 <= i < expanded_only(added, expanded).len() && expanded_only(added, expanded)[i] == a;
                assert(q3[queue.len() - 1 + i] == a);
            }
            let r = choose|r: int| 0 <= r < assets.len() && assets[r] == root;
            assert(a2[r] == root);
            assert(a2[assets.len() + j] == a);
            assert(a != root);
            assert(g(a) == Seq::<AssetVc>::empty());
        }
    }
}

/// The assets that the source serves, given what each asset refers to:
/// each asset reachable from the root in the graph the source follows
/// (the root's references always, another asset's only where the source
/// expands it), each once, the root first, in the order the walk finds them.
pub fn graph_assets(source: &AssetGraphContentSource, edges: &Vec<(AssetVc, Vec<AssetVc>)>) -> (r: Vec<AssetVc>)
    ensures
        r@.no_duplicates(),
        r@.len() >= 1 && r@[0] == source.root_asset_spec(),
        forall|b: AssetVc| r@.contains(b) <==> reachable(
            served_graph(graph_of(edges@), source.root_asset_spec(), source.expanded_spec()),
            source.root_asset_spec(),
            b,
        ),
{
    let root = source.root_asset();
    let ghost exp = source.expanded_spec();
    let ghost g = served_graph(graph_of(edges@), root, exp);
    let ghost universe = seq![root] + all_refs(edges@);
    let mut walk = AssetGraphWalk::new(root);
    proof {
        lemma_all_assets_start(g, root);
        assert(walk.assets_spec()[0] == root);
        assert(universe[0] == root);
        assert(walk.queue_spec()[0] == root);
    }
    loop
        invariant
            expanded_closed(g, walk.assets_spec(), walk.queue_spec()),
            all_reachable(g, root, walk.assets_spec()),
            walk.assets_spec().len() >= 1 && walk.assets_spec()[0] == root,
            walk.assets_spec().no_duplicates(),
            forall|a: AssetVc| #[trigger] walk.assets_spec().contains(a) ==> universe.contains(a),
            forall|i: int| 0 <= i < walk.queue_spec().len() ==> walk.assets_spec().contains(#[trigger] walk.queue_spec()[i]),
            forall|i: int| 0 <= i < walk.queue_spec().len() ==> #[trigger] walk.queue_spec()[i] == root || expands(
                exp,
                walk.queue_spec()[i],
            ),
            g == served_graph(graph_of(edges@), root, exp),
            exp == source.expanded_spec(),
            root == source.root_asset_spec(),
            universe == seq![root] + all_refs(edges@),
        ensures
            expanded_closed(g, walk.assets_spec(), Seq::empty()),
            all_reachable(g, root, walk.assets_spec()),
            walk.assets_spec().len() >= 1 && walk.assets_spec()[0] == root,
            walk.assets_spec().no_duplicates(),
        decreases 2 * (universe.len() - walk.assets_spec().len()) + walk.queue_spec().len(),
    {
        proof {
            assert(walk.assets_spec().to_set().subset_of(universe.to_set()));
            lemma_len_subset(walk.assets_spec().to_set(), universe.to_set());
            walk.assets_spec().unique_seq_to_set();
            universe.lemma_cardinality_of_set();
        }
        let ghost a0 = walk.assets_spec();
        let ghost q0 = walk.queue_spec();
        match walk.next_parent() {
            None => {
                assert(q0 =~= Seq::<AssetVc>::empty());
                assert(walk.queue_spec() =~= Seq::<AssetVc>::empty());
                break;
            },
            Some(p) => {
                let refs = references_of(edges, p);
                proof {
                    assert(q0[0] == p);
                    assert(refs@ == g(p));
                }
                walk.add_referenced(source, &refs);
                proof {
                    let added = new_assets(a0, refs@);
                    assert(walk.assets_spec() == a0 + added);
                    assert(a0[0] == root);
                    assert(a0.contains(root));
                    use_type_invariant(&walk);
                    lemma_served_step(graph_of(edges@), root, exp, a0, q0);
                    lemma_new_assets_in(a0, refs@);
                    assert forall|a: AssetVc| #[trigger] walk.assets_spec().contains(a) implies universe.contains(a) by {
                        let j = choose|j: int| 0 <= j < walk.assets_spec().len() && walk.assets_spec()[j] == a;
                        if j < a0.len() {
                            assert(a0[j] == a);
                            assert(a0.contains(a));
                        } else {
                            assert(added[j - a0.len()] == a);
                            assert(added.contains(a));
                            assert(refs@.contains(a));
                            assert(refs_of(edges@, p).contains(a));
                            lemma_refs_in_all(edges@, p, a);
                            let k = choose|k: int| 0 <= k < all_refs(edges@).len() && all_refs(edges@)[k] == a;
                            assert(universe[k + 1] == a);
                        }
                    }
                    let eo = expanded_only(added, exp);
                    assert forall|i: int| 0 <= i < walk.queue_spec().len() implies walk.assets_spec().contains(#[trigger] walk.queue_spec()[i])
                        && (walk.queue_spec()[i] == root || expands(exp, walk.queue_spec()[i])) by {
                        let x = walk.queue_spec()[i];
                        if i < q0.len() - 1 {
                            assert(x == q0[i + 1]);
                            let k = choose|k: int| 0 <= k < a0.len() && a0[k] == x;
                            assert(walk.assets_spec()[k] == x);
                        } else {
                            assert(eo[i - (q0.len() - 1)] == x);
                            assert(eo.contains(x));
                            lemma_expanded_only(added, exp, x);
                            let k = choose|k: int| 0 <= k < added.len() && added[k] == x;
                            assert(walk.assets_spec()[a0.len() + k] == x);
                        }
                    }
                    assert(walk.assets_spec()[0] == root);
                    assert(walk.assets_spec().to_set().subset_of(universe.to_set()));
                    lemma_len_subset(walk.assets_spec().to_set(), universe.to_set());
                    walk.assets_spec().unique_seq_to_set();
                    universe.lemma_cardinality_of_set();
                    assert(walk.assets_spec().len() <= universe.len());
                    assert(walk.assets_spec().len() == a0.len() + added.len());
                    assert(eo.len() <= added.len()) by {
                        lemma_expanded_only_len(added, exp);
                    }
                    assert(walk.queue_spec().len() == q0.len() - 1 + eo.len());
                }
            },
        }
    }
    proof {
        assert(walk.assets_spec().contains(root)) by {
            assert(walk.assets_spec()[0] == root);
        }
        assert forall|b: AssetVc| walk.assets_spec().contains(b) <==> reachable(g, root, b) by {
            lemma_all_assets_complete(g, root, walk.assets_spec(), b);
        }
    }
    walk.into_assets()
}

proof fn lemma_expanded_only_len(xs: Seq<AssetVc>, expanded: Option<Set<AssetVc>>)
    ensures
        expanded_only(xs, expanded).len() <= xs.len(),
    decreases xs.len(),
{
    if xs.len() > 0 {
        lemma_expanded_only_len(xs.drop_last(), expanded);
    }
}

/// The walk that collects the assets a content source serves: every asset
/// found is served, but only the references of expanded assets are
/// followed; the root's are followed always.
#[derive(Debug)]
pub struct AssetGraphWalk {
    queue: Vec<AssetVc>,
    assets: Vec<AssetVc>,
}

impl AssetGraphWalk {
    /// Each asset is found once.
    #[verifier::type_invariant]
    spec fn well_formed(self) -> bool {
        self.assets@.no_duplicates()
    }

    /// The assets whose references are still to follow, the next one first.
    pub closed spec fn queue_spec(self) -> Seq<AssetVc> {
        self.queue@
    }

    /// The assets found so far, the root first.
    pub closed spec fn assets_spec(self) -> Seq<AssetVc> {
        self.assets@
    }

    /// A walk from `root`.
    pub fn new(root: AssetVc) -> (r: Self)
        ensures
            r.queue_spec() == seq![root],
            r.assets_spec() == seq![root],
    {
        let mut queue: Vec<AssetVc> = Vec::new();
        queue.push(root);
        let mut assets: Vec<AssetVc> = Vec::new();
        assets.push(root);
        AssetGraphWalk { queue, assets }
    }

    /// The next asset whose references are to follow, taken off the queue.
    pub fn next_parent(&mut self) -> (r: Option<AssetVc>)
        ensures
            final(self).assets_spec() == old(self).assets_spec(),
            old(self).queue_spec().len() == 0 ==> r is None && final(self).queue_spec() == old(self).queue_spec(),
            old(self).queue_spec().len() > 0 ==> r == Some(old(self).queue_spec()[0])
                && final(self).queue_spec() == old(self).queue_spec().skip(1),
    {
        proof {
            use_type_invariant(&*self);
        }
        if self.queue.len() == 0 {
            None
        } else {
            let mut queue: Vec<AssetVc> = Vec::new();
            std::mem::swap(&mut queue, &mut self.queue);
            let r = queue.remove(0);
            assert(queue@ =~= old(self).queue@.skip(1));
            self.queue = queue;
            Some(r)
        }
    }

    /// Takes in the assets that a followed asset refers to: each one not
    /// found before is found, and queued where `source` expands it.
    pub fn add_referenced(&mut self, source: &AssetGraphContentSource, referenced: &Vec<AssetVc>)
        ensures
            final(self).assets_spec() == old(self).assets_spec() + crate::reference::new_assets(
                old(self).assets_spec(),
                referenced@,
            ),
            final(self).queue_spec() == old(self).queue_spec() + expanded_only(
                crate::reference::new_assets(old(self).assets_spec(), referenced@),
                source.expanded_spec(),
            ),
    {
        proof {
            use_type_invariant(&*self);
        }
        let mut assets: Vec<AssetVc> = Vec::new();
        std::mem::swap(&mut assets, &mut self.assets);
        let mut queue: Vec<AssetVc> = Vec::new();
        std::mem::swap(&mut queue, &mut self.queue);
        let ghost seen = assets@;
        let ghost q0 = queue@;
        let n = referenced.len();
        for i in 0..n
            invariant
                n == referenced@.len(),
                assets@ == seen + crate::reference::new_assets(seen, referenced@.take(i as int)),
                queue@ == q0 + expanded_only(
                    crate::reference::new_assets(seen, referenced@.take(i as int)),
                    source.expanded_spec(),
                ),
                assets@.no_duplicates(),
        {
            let a = referenced[i];
            let ghost prev_new = crate::reference::new_assets(seen, referenced@.take(i as int));
            assert(referenced@.take(i + 1).drop_last() =~= referenced@.take(i as int));
            assert(referenced@.take(i + 1).last() == a);
            let mut found = false;
            let m = assets.len();
            for j in 0..m
                invariant
                    m == assets@.len(),
                    found == exists|k: int| 0 <= k < j && assets@[k] == a,
            {
                if assets[j] == a {
                    found = true;
                }
            }
            if !found {
                let ghost before_a = assets@;
                assets.push(a);
                proof {
                    assert(!before_a.contains(a));
                    assert forall|x: int, y: int| 0 <= x < y < assets@.len() implies assets@[x] != assets@[y] by {
                        if y == assets@.len() - 1 {
                            assert(before_a[x] == assets@[x]);
                        }
                    }
                    assert(crate::reference::new_assets(seen, referenced@.take(i + 1)) == prev_new.push(a));
                    assert(prev_new.push(a).drop_last() =~= prev_new);
                }
                if source.is_expanded(a) {
                    queue.push(a);
                }
                assert(assets@ =~= seen + crate::reference::new_assets(seen, referenced@.take(i + 1)));
                assert(queue@ =~= q0 + expanded_only(
                    crate::reference::new_assets(seen, referenced@.take(i + 1)),
                    source.expanded_spec(),
                ));
            } else {
                assert(assets@.contains(a));
                assert(crate::reference::new_assets(seen, referenced@.take(i + 1)) == prev_new);
                assert(assets@ =~= seen + crate::reference::new_assets(seen, referenced@.take(i + 1)));
            }
        }
        assert(referenced@.take(n as int) =~= referenced@);
        self.assets = assets;
        self.queue = queue;
    }

    /// The assets found, once the walk is done.
    pub fn into_assets(self) -> (r: Vec<AssetVc>)
        ensures
            r@ == self.assets_spec(),
            r@.no_duplicates(),
    {
        proof {
            use_type_invariant(&self);
        }
        self.assets
    }
}

} // verus!

verus! {

/// The assets served by path: each found asset under its path below the
/// root, where it lies below the root; a later asset wins over an earlier
/// one with the same path.
pub open spec fn served_map(entries: Seq<(Option<String>, AssetVc)>) -> Map<Seq<char>, AssetVc>
    decreases entries.len(),
{
    if entries.len() == 0 {
        Map::empty()
    } else {
        let m = served_map(entries.drop_last());
        match entries.last().0 {
            Some(p) => m.insert(p@, entries.last().1),
            None => m,
        }
    }
}

/// The map of served assets, given each found asset with its path below
/// the root (none where it lies elsewhere).
pub fn assets_map(entries: &Vec<(Option<String>, AssetVc)>) -> (r: Vec<(String, AssetVc)>)
    ensures
        map_of(keyed(r@)) == served_map(entries@),
        keys_distinct(keyed(r@)),
{
    let mut r: Vec<(String, AssetVc)> = Vec::new();
    assert(keyed(r@) =~= Seq::empty());
    let n = entries.len();
    for i in 0..n
        invariant
            n == entries@.len(),
            map_of(keyed(r@)) == served_map(entries@.take(i as int)),
            keys_distinct(keyed(r@)),
    {
        assert(entries@.take(i + 1).drop_last() =~= entries@.take(i as int));
        assert(entries@.take(i + 1).last() == entries@[i as int]);
        match &entries[i].0 {
            Some(p) => {
                set_by_name(&mut r, p.clone(), entries[i].1);
            },
            None => {},
        }
    }
    assert(entries@.take(n as int) =~= entries@);
    r
}

/// With no later pair under `k`, the map of a list and of its first `i`
/// pairs agree on `k`.
proof fn lemma_map_of_prefix<K, V>(s: Seq<(K, V)>, i: int, k: K)
    requires
        0 <= i <= s.len(),
        forall|j: int| i <= j < s.len() ==> s[j].0 != k,
    ensures
        map_of(s).dom().contains(k) == map_of(s.take(i)).dom().contains(k),
        map_of(s).dom().contains(k) ==> map_of(s)[k] == map_of(s.take(i))[k],
    decreases s.len() - i,
{
    if i < s.len() {
        lemma_map_of_prefix(s.drop_last(), i, k);
        assert(s.drop_last().take(i) =~= s.take(i));
    } else {
        assert(s.take(i) =~= s);
    }
}

/// The asset served at `path`, if any.
pub fn find_asset(map: &Vec<(String, AssetVc)>, path: &str) -> (r: Option<AssetVc>)
    ensures
        match r {
            Some(a) => map_of(keyed(map@)).dom().contains(path@) && map_of(keyed(map@))[path@] == a,
            None => !map_of(keyed(map@)).dom().contains(path@),
        },
{
    let ghost es = keyed(map@);
    let mut i: usize = map.len();
    while i > 0
        invariant
            es == keyed(map@),
            i <= map@.len(),
            forall|j: int| i <= j < es.len() ==> es[j].0 != path@,
        decreases i,
    {
        i = i - 1;
        let key = String::from_str(path);
        if map[i].0 == key {
            proof {
                lemma_map_of_prefix(es, i + 1, path@);
                assert(es.take(i + 1).drop_last() =~= es.take(i as int));
                assert(es.take(i + 1).last() == es[i as int]);
            }
            return Some(map[i].1);
        }
    }
    proof {
        lemma_map_of_prefix(es, 0, path@);
        assert(es.take(0) =~= Seq::empty());
    }
    None
}

} // verus!
