//! Ecmascript chunks: a chunk holds the module factories of its items and,
//! where it is evaluated, the runtime that loads the chunks and starts the
//! entry module.
use vstd::prelude::*;
use vstd::std_specs::convert::FromSpecImpl;
use crate::text::{stringify_str, stringify_number, json_quote, decimal, join, join_strs, str_texts, concat_all, texts, append_all};
use crate::vc::{AssetReferenceVc, AssetVc, ChunkGroupVc, ChunkVc, ChunkingContextVc, EcmascriptChunkItemVc, EsmExportsVc};

verus! {

/// The runtime that an evaluated chunk appends: it collects the chunks that
/// register themselves, instantiates modules and runs the entries.
pub const EVALUATE_RUNTIME: &'static str = r#"(() => {
    if(Array.isArray(self.TURBOPACK)) {
        var array = self.TURBOPACK;
        var chunks = new Set();
        var runnable = [];
        var modules = {};
        var cache = {};
        let socket;
        // TODO: temporary solution
        var process = { env: { NODE_ENV: "development" } };
        var hOP = Object.prototype.hasOwnProperty;
        function require(from, id) {
            return getModule(from, id).exports;
        }
        var toStringTag = typeof Symbol !== "undefined" && Symbol.toStringTag;
        function esm(exports, getters) {
            Object.defineProperty(exports, "__esModule", { value: true });
            if(toStringTag) Object.defineProperty(exports, toStringTag, { value: "Module" });
            for(var key in getters) {
                if(hOP.call(getters, key)) {
                    Object.defineProperty(exports, key, { get: getters[key], enumerable: true, });
                }
            }
        }
        function exportValue(module, value) {
            module.exports = value;
        }
        function createGetter(obj, key) {
            return () => obj[key];
        }
        function interopEsm(raw, ns, allowExportDefault) {
            var getters = {};
            for(var key in raw) {
                getters[key] = createGetter(raw, key);
            }
            if(!(allowExportDefault && "default" in getters)) {
                getters["default"] = () => raw;
            }
            esm(ns, getters);
        }
        function importModule(from, id, allowExportDefault) {
            var module = getModule(from, id);
            var raw = module.exports;
            if(raw.__esModule) return raw;
            if(module.interopNamespace) return module.interopNamespace;
            var ns = module.interopNamespace = {};
            interopEsm(raw, ns, allowExportDefault);
            return ns;
        }
        function getModule(from, id) {
            if(hOP.call(cache, id)) {
                return cache[id];
            }
            var module = { exports: {}, loaded: false, id, parents: new Set(), children: new Set(), interopNamespace: undefined };
            cache[id] = module;
            var moduleFactory = modules[id];
            if(typeof moduleFactory != "function") {
                throw new Error(`Module ${id} was imported from module ${from}, but the module factory is not available`);
            }
            moduleFactory.call(module.exports, { e: module.exports, r: require.bind(null, id), i: importModule.bind(null, id), s: esm.bind(null, module.exports), v: exportValue.bind(null, module), m: module, c: cache, p: process });
            module.loaded = true;
            if(module.interopNamespace) {
                // in case of a circular dependency: cjs1 -> esm2 -> cjs1
                interopEsm(module.exports, module.interopNamespace);
            }
            return module;
        }
        var runtime = { chunks, modules, cache, getModule };
        function op([id, chunkModules, ...run]) {
            chunks.add(id);
            if(socket) socket.send(JSON.stringify(id));
            for(var m in chunkModules) {
                if(!modules[m]) modules[m] = chunkModules[m];
            }
            runnable.push(...run);
            runnable = runnable.filter(r => r(runtime))
        }
        self.TURBOPACK = { push: op };
        array.forEach(op);
        var connectingSocket = new WebSocket("ws" + location.origin.slice(4));
        connectingSocket.onopen = () => {
            socket = connectingSocket;
            for(var chunk of chunks) {
                socket.send(JSON.stringify(chunk));
            }
            socket.onmessage = (event) => {
                if(event.data === "refresh") location.reload();
            }
        }
    }
})();"#;

/// The identifier of a module in the generated code.
#[derive(Clone, Debug, PartialEq, Eq)]
pub enum ModuleId {
    Number(u64),
    String(String),
}

/// A module identifier as a mathematical value.
pub enum ModuleIdView {
    Number(nat),
    String(Seq<char>),
}

impl View for ModuleId {
    type V = ModuleIdView;

    open spec fn view(&self) -> ModuleIdView {
        match self {
            ModuleId::Number(n) => ModuleIdView::Number(*n as nat),
            ModuleId::String(s) => ModuleIdView::String(s@),
        }
    }
}

/// How a module identifier is written in code: a number in decimal, a
/// string as a JSON string literal.
pub open spec fn module_id_text(id: ModuleIdView) -> Seq<char> {
    match id {
        ModuleIdView::Number(n) => decimal(n),
        ModuleIdView::String(s) => json_quote(s),
    }
}

/// The code text of a module identifier.
pub fn stringify_module_id(id: &ModuleId) -> (r: String)
    ensures
        r@ == module_id_text(id@),
{
    match id {
        ModuleId::Number(n) => stringify_number(*n),
        ModuleId::String(s) => stringify_str(s.as_str()),
    }
}

/// A chunk of ecmascript code for an entry asset; an evaluated chunk also
/// starts the entry.
#[derive(Clone, Copy, Debug)]
pub struct EcmascriptChunk {
    context: ChunkingContextVc,
    entry: AssetVc,
    evaluate: bool,
}

impl EcmascriptChunk {
    /// The chunking context the chunk was made in.
    pub closed spec fn context_spec(self) -> ChunkingContextVc {
        self.context
    }

    /// The entry asset; it can be placed in an ecmascript chunk.
    pub closed spec fn entry_spec(self) -> AssetVc {
        self.entry
    }

    /// Whether loading the chunk runs its entry.
    pub closed spec fn evaluate_spec(self) -> bool {
        self.evaluate
    }

    /// The chunking context the chunk was made in.
    pub fn context(&self) -> (r: ChunkingContextVc)
        ensures
            r == self.context_spec(),
    {
        self.context
    }

    /// The entry asset.
    pub fn entry(&self) -> (r: AssetVc)
        ensures
            r == self.entry_spec(),
    {
        self.entry
    }

    /// Whether loading the chunk runs its entry.
    pub fn evaluate(&self) -> (r: bool)
        ensures
            r == self.evaluate_spec(),
    {
        self.evaluate
    }

    /// The chunk's description, given the text of its entry's path:
    /// `chunk <path>`.
    pub fn to_string(&self, entry_path: &str) -> (r: String)
        ensures
            r@ == "chunk "@ + entry_path@,
    {
        let s = String::from_str("chunk ");
        s.concat(entry_path)
    }
}

/// A chunk as the task that creates it gives it back.
#[derive(Clone, Copy, Debug)]
pub struct EcmascriptChunkVc {
    chunk: EcmascriptChunk,
}

impl EcmascriptChunkVc {
    /// The chunk this reference holds.
    pub closed spec fn chunk_spec(self) -> EcmascriptChunk {
        self.chunk
    }

    /// A chunk for `entry` that does not run it.
    pub fn new(context: ChunkingContextVc, entry: AssetVc) -> (r: Self)
        ensures
            r.chunk_spec().context_spec() == context,
            r.chunk_spec().entry_spec() == entry,
            !r.chunk_spec().evaluate_spec(),
    {
        EcmascriptChunkVc { chunk: EcmascriptChunk { context, entry, evaluate: false } }
    }

    /// A chunk for `entry` that runs it once the chunks of its group are
    /// loaded.
    pub fn new_evaluate(context: ChunkingContextVc, entry: AssetVc) -> (r: Self)
        ensures
            r.chunk_spec().context_spec() == context,
            r.chunk_spec().entry_spec() == entry,
            r.chunk_spec().evaluate_spec(),
    {
        EcmascriptChunkVc { chunk: EcmascriptChunk { context, entry, evaluate: true } }
    }

    /// The chunk this reference holds.
    pub fn get(&self) -> (r: &EcmascriptChunk)
        ensures
            *r == self.chunk_spec(),
    {
        &self.chunk
    }
}

/// What the ecmascript chunks of a chunking context share; it carries
/// nothing.
#[derive(Clone, Copy, Debug)]
pub struct EcmascriptChunkContext {}

/// The chunk context as the task that creates it gives it back.
#[derive(Clone, Copy, Debug)]
pub struct EcmascriptChunkContextVc {
    context: EcmascriptChunkContext,
}

/// The chunk context of a chunking context.
pub fn chunk_context(_context: ChunkingContextVc) -> (r: EcmascriptChunkContextVc)
{
    EcmascriptChunkContextVc { context: EcmascriptChunkContext {} }
}

impl EcmascriptChunkContextVc {
    /// The identifier of a placeable module, given its description: the
    /// description as a string identifier.
    pub fn id(&self, placeable_description: &str) -> (r: ModuleId)
        ensures
            r@ == ModuleIdView::String(placeable_description@),
    {
        ModuleId::String(String::from_str(placeable_description))
    }

    /// The identifier of a helper module named `name`: `<path>/__/<name>`,
    /// given the path text of the asset it relates to, else the name.
    pub fn helper_id(&self, name: &str, related_asset_path: Option<&str>) -> (r: ModuleId)
        ensures
            r@ == ModuleIdView::String(
                match related_asset_path {
                    Some(p) => p@ + "/__/"@ + name@,
                    None => name@,
                },
            ),
    {
        match related_asset_path {
            Some(p) => {
                let s = String::from_str(p);
                let s = s.concat("/__/");
                ModuleId::String(s.concat(name))
            },
            None => ModuleId::String(String::from_str(name)),
        }
    }
}

/// What goes into a chunk, as the chunking of an entry finds it.
#[derive(Debug)]
pub struct ChunkContentResult<I> {
    pub chunk_items: Vec<I>,
    pub chunks: Vec<ChunkVc>,
    pub async_chunk_groups: Vec<ChunkGroupVc>,
    pub external_asset_references: Vec<AssetReferenceVc>,
}

/// What goes into an ecmascript chunk: its items, the chunks loaded in
/// parallel, the chunk groups loaded on demand and the references to assets
/// outside the chunk.
#[derive(Debug)]
pub struct EcmascriptChunkContentResult {
    pub chunk_items: Vec<EcmascriptChunkItemVc>,
    pub chunks: Vec<ChunkVc>,
    pub async_chunk_groups: Vec<ChunkGroupVc>,
    pub external_asset_references: Vec<AssetReferenceVc>,
}

impl From<ChunkContentResult<EcmascriptChunkItemVc>> for EcmascriptChunkContentResult {
    fn from(from: ChunkContentResult<EcmascriptChunkItemVc>) -> (r: Self) {
        EcmascriptChunkContentResult {
            chunk_items: from.chunk_items,
            chunks: from.chunks,
            async_chunk_groups: from.async_chunk_groups,
            external_asset_references: from.external_asset_references,
        }
    }
}

impl FromSpecImpl<ChunkContentResult<EcmascriptChunkItemVc>> for EcmascriptChunkContentResult {
    open spec fn obeys_from_spec() -> bool {
        true
    }

    open spec fn from_spec(from: ChunkContentResult<EcmascriptChunkItemVc>) -> Self {
        EcmascriptChunkContentResult {
            chunk_items: from.chunk_items,
            chunks: from.chunks,
            async_chunk_groups: from.async_chunk_groups,
            external_asset_references: from.external_asset_references,
        }
    }
}

/// A reference of an ecmascript chunk.
#[derive(Clone, Copy, Debug, PartialEq, Eq)]
pub enum EcmascriptChunkReference {
    /// A reference to an asset outside the chunk.
    Asset(AssetReferenceVc),
    /// A chunk loaded in parallel with this one.
    ParallelChunk(ChunkVc),
    /// A chunk group loaded on demand.
    ChunkGroup(ChunkGroupVc),
}

/// The references of a chunk with content `c`: the external references,
/// then a parallel reference per chunk, then a reference per chunk group.
pub open spec fn chunk_references_spec(
    external: Seq<AssetReferenceVc>,
    chunks: Seq<ChunkVc>,
    groups: Seq<ChunkGroupVc>,
) -> Seq<EcmascriptChunkReference> {
    external.map_values(|r: AssetReferenceVc| EcmascriptChunkReference::Asset(r))
        + chunks.map_values(|c: ChunkVc| EcmascriptChunkReference::ParallelChunk(c))
        + groups.map_values(|g: ChunkGroupVc| EcmascriptChunkReference::ChunkGroup(g))
}

impl EcmascriptChunk {
    /// The references of the chunk, given its content.
    pub fn references(&self, content: &EcmascriptChunkContentResult) -> (r: Vec<EcmascriptChunkReference>)
        ensures
            r@ == chunk_references_spec(
                content.external_asset_references@,
                content.chunks@,
                content.async_chunk_groups@,
            ),
    {
        let ghost ext = content.external_asset_references@.map_values(|r: AssetReferenceVc| EcmascriptChunkReference::Asset(r));
        let ghost ch = content.chunks@.map_values(|c: ChunkVc| EcmascriptChunkReference::ParallelChunk(c));
        let ghost gr = content.async_chunk_groups@.map_values(|g: ChunkGroupVc| EcmascriptChunkReference::ChunkGroup(g));
        let mut references: Vec<EcmascriptChunkReference> = Vec::new();
        let n = content.external_asset_references.len();
        for i in 0..n
            invariant
                n == content.external_asset_references@.len(),
                ext == content.external_asset_references@.map_values(|r: AssetReferenceVc| EcmascriptChunkReference::Asset(r)),
                references@ == ext.take(i as int),
        {
            references.push(EcmascriptChunkReference::Asset(content.external_asset_references[i]));
            assert(references@ =~= ext.take(i + 1));
        }
        assert(ext.take(n as int) =~= ext);
        let m = content.chunks.len();
        for i in 0..m
            invariant
                m == content.chunks@.len(),
                ch == content.chunks@.map_values(|c: ChunkVc| EcmascriptChunkReference::ParallelChunk(c)),
                references@ == ext + ch.take(i as int),
        {
            references.push(EcmascriptChunkReference::ParallelChunk(content.chunks[i]));
            assert(references@ =~= ext + ch.take(i + 1));
        }
        assert(ch.take(m as int) =~= ch);
        let k = content.async_chunk_groups.len();
        for i in 0..k
            invariant
                k == content.async_chunk_groups@.len(),
                gr == content.async_chunk_groups@.map_values(|g: ChunkGroupVc| EcmascriptChunkReference::ChunkGroup(g)),
                references@ == ext + ch + gr.take(i as int),
        {
            references.push(EcmascriptChunkReference::ChunkGroup(content.async_chunk_groups[i]));
            assert(references@ =~= ext + ch + gr.take(i + 1));
        }
        assert(gr.take(k as int) =~= gr);
        references
    }
}

/// How the module factory of an item uses `module` and `exports`.
#[derive(Clone, Copy, Debug, PartialEq, Eq, Structural, Default)]
pub struct EcmascriptChunkItemOptions {
    /// The factory gets `module` as `m`.
    pub module: bool,
    /// The factory gets `exports` as `e`.
    pub exports: bool,
}

/// The code of a chunk item, its module identifier and how its factory is
/// called.
#[derive(Debug)]
pub struct EcmascriptChunkItemContent {
    pub inner_code: String,
    pub id: ModuleId,
    pub options: EcmascriptChunkItemOptions,
}

/// What a module exports.
#[derive(Clone, Copy, Debug)]
pub enum EcmascriptExports {
    /// The exports of an ES module.
    EsmExports(EsmExportsVc),
    /// A CommonJS module.
    CommonJs,
    /// A module whose value is its export.
    Value,
    /// A module without exports.
    Empty,
}

/// An asset that can be placed in an ecmascript chunk.
pub trait EcmascriptChunkPlaceable {
    /// The chunk item of the asset in `context`.
    fn as_chunk_item(&self, context: ChunkingContextVc) -> EcmascriptChunkItemVc;

    /// What the asset exports.
    fn get_exports(&self) -> EcmascriptExports;
}

/// An item of an ecmascript chunk.
pub trait EcmascriptChunkItem {
    /// The code of the item.
    fn content(&self, chunk_context: EcmascriptChunkContextVc, context: ChunkingContextVc) -> EcmascriptChunkItemContent;
}

/// The arguments of a module factory: the runtime's helpers, then `module`
/// and `exports` where the options ask for them.
pub open spec fn factory_args(options: EcmascriptChunkItemOptions) -> Seq<Seq<char>> {
    let base = seq![
        "r: __turbopack_require__"@,
        "i: __turbopack_import__"@,
        "s: __turbopack_esm__"@,
        "v: __turbopack_export_value__"@,
        "p: process"@,
    ];
    let with_module = if options.module {
        base.push("m: module"@)
    } else {
        base
    };
    if options.exports {
        with_module.push("e: exports"@)
    } else {
        with_module
    }
}

/// The module factory of an item: `\n<id>: (({ <args> }) => (() => {\n\n<code>\n})()),\n`.
pub open spec fn module_factory_text(content_code: Seq<char>, id: ModuleIdView, options: EcmascriptChunkItemOptions) -> Seq<char> {
    "\n"@ + module_id_text(id) + ": (({ "@ + join(factory_args(options), ", "@) + " }) => (() => {\n\n"@
        + content_code + "\n})()),\n"@
}

/// The module factory of a chunk item.
pub fn module_factory(content: &EcmascriptChunkItemContent) -> (r: String)
    ensures
        r@ == module_factory_text(content.inner_code@, content.id@, content.options),
{
    let mut args: Vec<&str> = Vec::new();
    args.push("r: __turbopack_require__");
    args.push("i: __turbopack_import__");
    args.push("s: __turbopack_esm__");
    args.push("v: __turbopack_export_value__");
    args.push("p: process");
    if content.options.module {
        args.push("m: module");
    }
    if content.options.exports {
        args.push("e: exports");
    }
    assert(str_texts(args@) =~= factory_args(content.options));
    let mut out = String::from_str("\n");
    out.append(stringify_module_id(&content.id).as_str());
    out.append(": (({ ");
    out.append(join_strs(&args, ", ").as_str());
    out.append(" }) => (() => {\n\n");
    out.append(content.inner_code.as_str());
    out.append("\n})()),\n");
    out
}

/// What an evaluated chunk needs to start its entry: the paths of the other
/// ecmascript chunks of its group and the identifier of the entry module.
#[derive(Debug)]
pub struct ChunkEvaluation {
    pub other_chunk_paths: Vec<String>,
    pub entry_id: ModuleId,
}

/// The test that a chunk has been loaded: ` && chunks.has(<path>)`.
pub open spec fn chunk_condition(path: Seq<char>) -> Seq<char> {
    " && chunks.has("@ + json_quote(path) + ")"@
}

/// The conditions of all chunks of `paths`.
pub open spec fn chunk_conditions(paths: Seq<Seq<char>>) -> Seq<char>
    decreases paths.len(),
{
    if paths.len() == 0 {
        Seq::empty()
    } else {
        chunk_conditions(paths.drop_last()) + chunk_condition(paths.last())
    }
}

/// The function that an evaluated chunk registers: it waits until the other
/// chunks are there, then gets the entry module.
pub open spec fn evaluate_text(other_paths: Seq<Seq<char>>, entry_id: ModuleIdView) -> Seq<char> {
    ", ({ chunks, getModule }) => {\n    if(!(true"@ + chunk_conditions(other_paths)
        + ")) return true;\n    getModule(0, "@ + module_id_text(entry_id) + ")\n}"@
}

/// The code of a chunk: it pushes its id and module factories onto
/// `self.TURBOPACK`, with the evaluation function where the chunk is
/// evaluated, followed in that case by the runtime.
pub open spec fn chunk_code_text(
    chunk_id: Seq<char>,
    factories: Seq<Seq<char>>,
    evaluate: bool,
    other_paths: Seq<Seq<char>>,
    entry_id: ModuleIdView,
) -> Seq<char> {
    "(self.TURBOPACK = self.TURBOPACK || []).push(["@ + json_quote(chunk_id) + ", {\n"@
        + concat_all(factories) + "\n}"@
        + (if evaluate { evaluate_text(other_paths, entry_id) } else { Seq::empty() })
        + "]);\n"@
        + (if evaluate { EVALUATE_RUNTIME@ } else { Seq::empty() })
}

impl EcmascriptChunk {
    /// The code of the chunk, given the text of its path, the module
    /// factories of its items and, where it is evaluated, what evaluation
    /// needs (ignored otherwise).
    pub fn content(&self, chunk_id: &str, module_factories: &Vec<String>, evaluation: &ChunkEvaluation) -> (r: String)
        ensures
            r@ == chunk_code_text(
                chunk_id@,
                texts(module_factories@),
                self.evaluate_spec(),
                texts(evaluation.other_chunk_paths@),
                evaluation.entry_id@,
            ),
    {
        let mut code = String::from_str("(self.TURBOPACK = self.TURBOPACK || []).push([");
        code.append(stringify_str(chunk_id).as_str());
        code.append(", {\n");
        append_all(&mut code, module_factories);
        code.append("\n}");
        let ghost before_eval = code@;
        if self.evaluate {
            code.append(", ({ chunks, getModule }) => {\n    if(!(true");
            let paths = &evaluation.other_chunk_paths;
            let n = paths.len();
            let ghost start = code@;
            for i in 0..n
                invariant
                    n == paths@.len(),
                    code@ == start + chunk_conditions(texts(paths@.take(i as int))),
            {
                code.append(" && chunks.has(");
                code.append(stringify_str(paths[i].as_str()).as_str());
                code.append(")");
                proof {
                    let next = texts(paths@.take(i + 1));
                    assert(next.drop_last() =~= texts(paths@.take(i as int)));
                    assert(next.last() == paths@[i as int]@);
                    assert(code@ =~= start + chunk_conditions(next));
                }
            }
            assert(paths@.take(n as int) =~= paths@);
            code.append(")) return true;\n    getModule(0, ");
            code.append(stringify_module_id(&evaluation.entry_id).as_str());
            code.append(")\n}");
            assert(code@ =~= before_eval + evaluate_text(texts(paths@), evaluation.entry_id@));
        }
        code.append("]);\n");
        if self.evaluate {
            code.append(EVALUATE_RUNTIME);
        }
        assert(code@ =~= chunk_code_text(
            chunk_id@,
            texts(module_factories@),
            self.evaluate_spec(),
            texts(evaluation.other_chunk_paths@),
            evaluation.entry_id@,
        ));
        code
    }
}

} // verus!
