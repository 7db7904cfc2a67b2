//! Assets moved from an input directory to an output directory: their path
//! is rebased, their content kept, and their references rebased too.
use vstd::prelude::*;
use crate::reference::ResolveResult;
use crate::vc::{AssetReferenceVc, AssetVc, FileSystemPathVc};

verus! {

/// An asset seen as lying below `output_dir` instead of `input_dir`.
#[derive(Clone, Copy, Debug, PartialEq, Eq)]
pub struct RebasedAsset {
    pub source: AssetVc,
    pub input_dir: FileSystemPathVc,
    pub output_dir: FileSystemPathVc,
}

/// The rebased asset as the task that creates it gives it back.
#[derive(Clone, Copy, Debug)]
pub struct RebasedAssetVc {
    asset: RebasedAsset,
}

impl RebasedAssetVc {
    /// The asset this handle holds.
    pub closed spec fn asset_spec(self) -> RebasedAsset {
        self.asset
    }

    /// `source` moved from `input_dir` to `output_dir`.
    pub fn new(source: AssetVc, input_dir: FileSystemPathVc, output_dir: FileSystemPathVc) -> (r: Self)
        ensures
            r.asset_spec() == (RebasedAsset { source, input_dir, output_dir }),
    {
        RebasedAssetVc { asset: RebasedAsset { source, input_dir, output_dir } }
    }

    /// The asset this handle holds.
    pub fn get(&self) -> (r: &RebasedAsset)
        ensures
            *r == self.asset_spec(),
    {
        &self.asset
    }
}

/// A reference of a rebased asset: the source's reference, whose assets are
/// rebased the same way.
#[derive(Clone, Copy, Debug, PartialEq, Eq)]
pub struct RebasedAssetReference {
    pub reference: AssetReferenceVc,
    pub input_dir: FileSystemPathVc,
    pub output_dir: FileSystemPathVc,
}

impl RebasedAsset {
    /// The references of the rebased asset, given the (resolved) references
    /// of its source: each one rebased between the same directories, in
    /// order.
    pub fn references(&self, source_references: &Vec<AssetReferenceVc>) -> (r: Vec<RebasedAssetReference>)
        ensures
            r@ == source_references@.map_values(
                |x: AssetReferenceVc| RebasedAssetReference { reference: x, input_dir: self.input_dir, output_dir: self.output_dir },
            ),
    {
        let mut r: Vec<RebasedAssetReference> = Vec::new();
        let n = source_references.len();
        for i in 0..n
            invariant
                n == source_references@.len(),
                r@ == source_references@.take(i as int).map_values(
                    |x: AssetReferenceVc| RebasedAssetReference { reference: x, input_dir: self.input_dir, output_dir: self.output_dir },
                ),
        {
            r.push(RebasedAssetReference { reference: source_references[i], input_dir: self.input_dir, output_dir: self.output_dir });
            assert(r@ =~= source_references@.take(i + 1).map_values(
                |x: AssetReferenceVc| RebasedAssetReference { reference: x, input_dir: self.input_dir, output_dir: self.output_dir },
            ));
        }
        assert(source_references@.take(n as int) =~= source_references@);
        r
    }
}

} // verus!

verus! {

/// What a reference of a rebased asset resolves to: the source reference's
/// result with each asset rebased and each reference rebased.
#[derive(Clone, Debug)]
pub enum RebasedResolveResult {
    Single(RebasedAsset, Vec<RebasedAssetReference>),
    Keyed(Vec<(String, RebasedAsset)>, Vec<RebasedAssetReference>),
    Alternatives(Vec<RebasedAsset>, Vec<RebasedAssetReference>),
    Special(Vec<RebasedAssetReference>),
    Unresolveable(Vec<RebasedAssetReference>),
}

/// An asset rebased between two directories.
pub open spec fn rebased_asset(a: AssetVc, input_dir: FileSystemPathVc, output_dir: FileSystemPathVc) -> RebasedAsset {
    RebasedAsset { source: a, input_dir, output_dir }
}

/// A reference rebased between two directories.
pub open spec fn rebased_reference(
    r: AssetReferenceVc,
    input_dir: FileSystemPathVc,
    output_dir: FileSystemPathVc,
) -> RebasedAssetReference {
    RebasedAssetReference { reference: r, input_dir, output_dir }
}

/// References rebased between two directories, in order.
pub open spec fn rebased_references(
    rs: Seq<AssetReferenceVc>,
    input_dir: FileSystemPathVc,
    output_dir: FileSystemPathVc,
) -> Seq<RebasedAssetReference> {
    rs.map_values(|r: AssetReferenceVc| rebased_reference(r, input_dir, output_dir))
}

/// Assets rebased between two directories, in order.
pub open spec fn rebased_assets(
    assets: Seq<AssetVc>,
    input_dir: FileSystemPathVc,
    output_dir: FileSystemPathVc,
) -> Seq<RebasedAsset> {
    assets.map_values(|a: AssetVc| rebased_asset(a, input_dir, output_dir))
}

fn rebase_references(rs: &Vec<AssetReferenceVc>, input_dir: FileSystemPathVc, output_dir: FileSystemPathVc) -> (r: Vec<RebasedAssetReference>)
    ensures
        r@ == rebased_references(rs@, input_dir, output_dir),
{
    let mut r: Vec<RebasedAssetReference> = Vec::new();
    let n = rs.len();
    for i in 0..n
        invariant
            n == rs@.len(),
            r@ == rebased_references(rs@.take(i as int), input_dir, output_dir),
    {
        r.push(RebasedAssetReference { reference: rs[i], input_dir, output_dir });
        assert(r@ =~= rebased_references(rs@.take(i + 1), input_dir, output_dir));
    }
    assert(rs@.take(n as int) =~= rs@);
    r
}

fn rebase_assets(assets: &Vec<AssetVc>, input_dir: FileSystemPathVc, output_dir: FileSystemPathVc) -> (r: Vec<RebasedAsset>)
    ensures
        r@ == rebased_assets(assets@, input_dir, output_dir),
{
    let mut r: Vec<RebasedAsset> = Vec::new();
    let n = assets.len();
    for i in 0..n
        invariant
            n == assets@.len(),
            r@ == rebased_assets(assets@.take(i as int), input_dir, output_dir),
    {
        r.push(RebasedAsset { source: assets[i], input_dir, output_dir });
        assert(r@ =~= rebased_assets(assets@.take(i + 1), input_dir, output_dir));
    }
    assert(assets@.take(n as int) =~= assets@);
    r
}

impl RebasedAssetReference {
    /// What this reference resolves to, given what the source reference
    /// resolved to: the same kind of result, its assets and references
    /// rebased between this reference's directories (keys kept).
    pub fn resolve_reference(&self, result: &ResolveResult) -> (r: RebasedResolveResult)
        ensures
            match (result, r) {
                (ResolveResult::Single(a, rs), RebasedResolveResult::Single(b, qs)) =>
                    b == rebased_asset(*a, self.input_dir, self.output_dir)
                        && qs@ == rebased_references(rs@, self.input_dir, self.output_dir),
                (ResolveResult::Keyed(m, rs), RebasedResolveResult::Keyed(n, qs)) =>
                    n@.len() == m@.len()
                        && (forall|i: int| #![trigger n@[i]] 0 <= i < m@.len() ==> n@[i].0@ == m@[i].0@
                            && n@[i].1 == rebased_asset(m@[i].1, self.input_dir, self.output_dir))
                        && qs@ == rebased_references(rs@, self.input_dir, self.output_dir),
                (ResolveResult::Alternatives(a, rs), RebasedResolveResult::Alternatives(b, qs)) =>
                    b@ == rebased_assets(a@, self.input_dir, self.output_dir)
                        && qs@ == rebased_references(rs@, self.input_dir, self.output_dir),
                (ResolveResult::Special(rs), RebasedResolveResult::Special(qs)) =>
                    qs@ == rebased_references(rs@, self.input_dir, self.output_dir),
                (ResolveResult::Unresolveable(rs), RebasedResolveResult::Unresolveable(qs)) =>
                    qs@ == rebased_references(rs@, self.input_dir, self.output_dir),
                _ => false,
            },
    {
        let (i, o) = (self.input_dir, self.output_dir);
        match result {
            ResolveResult::Single(a, rs) => RebasedResolveResult::Single(
                RebasedAsset { source: *a, input_dir: i, output_dir: o },
                rebase_references(rs, i, o),
            ),
            ResolveResult::Keyed(m, rs) => {
                let mut n: Vec<(String, RebasedAsset)> = Vec::new();
                let len = m.len();
                for k in 0..len
                    invariant
                        len == m@.len(),
                        n@.len() == k,
                        forall|j: int| #![trigger n@[j]] 0 <= j < k ==> n@[j].0@ == m@[j].0@
                            && n@[j].1 == rebased_asset(m@[j].1, i, o),
                {
                    n.push((m[k].0.clone(), RebasedAsset { source: m[k].1, input_dir: i, output_dir: o }));
                }
                RebasedResolveResult::Keyed(n, rebase_references(rs, i, o))
            },
            ResolveResult::Alternatives(a, rs) => RebasedResolveResult::Alternatives(
                rebase_assets(a, i, o),
                rebase_references(rs, i, o),
            ),
            ResolveResult::Special(rs) => RebasedResolveResult::Special(rebase_references(rs, i, o)),
            ResolveResult::Unresolveable(rs) => RebasedResolveResult::Unresolveable(rebase_references(rs, i, o)),
        }
    }
}

} // verus!
