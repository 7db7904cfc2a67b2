//! References to cells of other tasks, one type per kind of value they hold.
//! The library carries them through and compares them; what the cells hold
//! is read by the engine.
use vstd::prelude::*;
use crate::manager::RawVc;

verus! {

/// A reference to an asset.
#[derive(Clone, Copy, PartialEq, Eq, Structural, Debug, Hash)]
pub struct AssetVc {
    pub node: RawVc,
}

/// A reference to a chunking context.
#[derive(Clone, Copy, PartialEq, Eq, Structural, Debug, Hash)]
pub struct ChunkingContextVc {
    pub node: RawVc,
}

/// A reference to an asset context.
#[derive(Clone, Copy, PartialEq, Eq, Structural, Debug, Hash)]
pub struct AssetContextVc {
    pub node: RawVc,
}

/// A reference to a parsed request.
#[derive(Clone, Copy, PartialEq, Eq, Structural, Debug, Hash)]
pub struct RequestVc {
    pub node: RawVc,
}

/// A reference to a path in a file system.
#[derive(Clone, Copy, PartialEq, Eq, Structural, Debug, Hash)]
pub struct FileSystemPathVc {
    pub node: RawVc,
}

/// A reference to the content of a file.
#[derive(Clone, Copy, PartialEq, Eq, Structural, Debug, Hash)]
pub struct FileContentVc {
    pub node: RawVc,
}

/// A reference to an asset reference.
#[derive(Clone, Copy, PartialEq, Eq, Structural, Debug, Hash)]
pub struct AssetReferenceVc {
    pub node: RawVc,
}

/// A reference to a chunk.
#[derive(Clone, Copy, PartialEq, Eq, Structural, Debug, Hash)]
pub struct ChunkVc {
    pub node: RawVc,
}

/// A reference to a chunk group.
#[derive(Clone, Copy, PartialEq, Eq, Structural, Debug, Hash)]
pub struct ChunkGroupVc {
    pub node: RawVc,
}

/// A reference to an ES module import.
#[derive(Clone, Copy, PartialEq, Eq, Structural, Debug, Hash)]
pub struct EsmAssetReferenceVc {
    pub node: RawVc,
}

/// A reference to a path into a syntax tree.
#[derive(Clone, Copy, PartialEq, Eq, Structural, Debug, Hash)]
pub struct AstPathVc {
    pub node: RawVc,
}

/// A reference to an item of an ecmascript chunk.
#[derive(Clone, Copy, PartialEq, Eq, Structural, Debug, Hash)]
pub struct EcmascriptChunkItemVc {
    pub node: RawVc,
}

/// A reference to the exports of an ES module.
#[derive(Clone, Copy, PartialEq, Eq, Structural, Debug, Hash)]
pub struct EsmExportsVc {
    pub node: RawVc,
}

} // verus!
