//! Static assets: files that are copied to the output under a name made from
//! their content's hash, and whose module exports the URL of the copy.
use vstd::prelude::*;
use crate::chunk::EcmascriptChunkItemOptions;
use crate::text::{json_quote, stringify_str};
use crate::reference::AssetReferencesVc;
use crate::vc::{AssetContextVc, AssetVc, FileContentVc, FileSystemPathVc};

verus! {

/// A module that stands for a static file.
#[derive(Clone, Copy, Debug, PartialEq, Eq)]
pub struct ModuleAsset {
    pub source: AssetVc,
    pub context: AssetContextVc,
}

/// The module as the task that creates it gives it back.
#[derive(Clone, Copy, Debug)]
pub struct ModuleAssetVc {
    asset: ModuleAsset,
}

impl ModuleAssetVc {
    /// The module this handle holds.
    pub closed spec fn asset_spec(self) -> ModuleAsset {
        self.asset
    }

    /// The module for the static file `source`, in `context`.
    pub fn new(source: AssetVc, context: AssetContextVc) -> (r: Self)
        ensures
            r.asset_spec() == (ModuleAsset { source, context }),
    {
        ModuleAssetVc { asset: ModuleAsset { source, context } }
    }

    /// The module this handle holds.
    pub fn get(&self) -> (r: &ModuleAsset)
        ensures
            *r == self.asset_spec(),
    {
        &self.asset
    }
}

impl ModuleAsset {
    /// Where the module lies: where its source lies, given the source's
    /// path.
    pub fn path(&self, source_path: FileSystemPathVc) -> (r: FileSystemPathVc)
        ensures
            r == source_path,
    {
        source_path
    }

    /// What the module holds: what its source holds, given the source's
    /// content.
    pub fn content(&self, source_content: FileContentVc) -> (r: FileContentVc)
        ensures
            r == source_content,
    {
        source_content
    }

    /// What the module refers to: nothing.
    pub fn references(&self) -> (r: AssetReferencesVc)
        ensures
            r.references_spec() == Seq::<crate::vc::AssetReferenceVc>::empty(),
    {
        AssetReferencesVc::empty()
    }

    /// The module's description, given the text of its source's path:
    /// `<path> (static)`.
    pub fn to_string(&self, source_path: &str) -> (r: String)
        ensures
            r@ == source_path@ + " (static)"@,
    {
        String::from_str(source_path).concat(" (static)")
    }
}

/// The file name of the copy of a static file: the hexadecimal hash of its
/// content, followed by a dot and the source's extension where it has one.
pub open spec fn static_file_name_spec(content_hash: Seq<char>, extension: Option<Seq<char>>) -> Seq<char> {
    match extension {
        Some(ext) => content_hash + "."@ + ext,
        None => content_hash,
    }
}

/// The file name of the copy of a static file, given the base16 text of its
/// content's hash and its source's extension.
pub fn static_file_name(content_hash_b16: &str, extension: Option<&str>) -> (r: String)
    ensures
        r@ == static_file_name_spec(
            content_hash_b16@,
            match extension {
                Some(e) => Some(e@),
                None => None,
            },
        ),
{
    match extension {
        Some(ext) => String::from_str(content_hash_b16).concat(".").concat(ext),
        None => String::from_str(content_hash_b16),
    }
}

/// What the source of a static asset holds: a file, given by the base16
/// text of its content's hash, or no file.
#[derive(Clone, Debug)]
pub enum StaticSourceContent {
    Content { content_hash_b16: String },
    NotFound,
}

/// Why a static asset has no path.
#[derive(Clone, Copy, Debug, PartialEq, Eq)]
pub enum StaticAssetError {
    /// The source holds no file.
    UnsupportedFileContent,
}

impl StaticAssetError {
    /// The error's message.
    pub fn message(&self) -> (r: String)
        ensures
            r@ == "StaticAsset::path: unsupported file content"@,
    {
        String::from_str("StaticAsset::path: unsupported file content")
    }
}

/// The name under which a static asset is copied, within the chunking
/// context's asset directory: the file name made from the hash of the
/// source's content and the source's extension; an error where the source
/// holds no file.
pub fn static_asset_path(content: &StaticSourceContent, extension: Option<&str>) -> (r: Result<String, StaticAssetError>)
    ensures
        match content {
            StaticSourceContent::Content { content_hash_b16 } => r matches Ok(name) && name@ == static_file_name_spec(
                content_hash_b16@,
                match extension {
                    Some(e) => Some(e@),
                    None => None,
                },
            ),
            StaticSourceContent::NotFound => r == Err::<String, StaticAssetError>(StaticAssetError::UnsupportedFileContent),
        },
{
    match content {
        StaticSourceContent::Content { content_hash_b16 } => Ok(static_file_name(content_hash_b16.as_str(), extension)),
        StaticSourceContent::NotFound => Err(StaticAssetError::UnsupportedFileContent),
    }
}

/// The code of the module of a static file: it exports the URL of the copy,
/// `/` followed by the copy's path.
pub open spec fn static_module_code(asset_path: Seq<char>) -> Seq<char> {
    "__turbopack_export_value__("@ + json_quote("/"@ + asset_path) + ");"@
}

/// The content of the chunk item of a static module, given the path of the
/// copy: the code that exports its URL, with the default options.
pub fn static_chunk_item_code(asset_path: &str) -> (r: (String, EcmascriptChunkItemOptions))
    ensures
        r.0@ == static_module_code(asset_path@),
        !r.1.module && !r.1.exports,
{
    let url = String::from_str("/").concat(asset_path);
    let quoted = stringify_str(url.as_str());
    let code = String::from_str("__turbopack_export_value__(").concat(quoted.as_str()).concat(");");
    (code, EcmascriptChunkItemOptions { module: false, exports: false })
}

/// The description of the reference from a static module to its copy,
/// given the copy's path: `static(url) <path>`.
pub fn static_reference_description(asset_path: &str) -> (r: String)
    ensures
        r@ == "static(url) "@ + asset_path@,
{
    String::from_str("static(url) ").concat(asset_path)
}

} // verus!
