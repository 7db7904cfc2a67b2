use turbo_tasks::asset_graph::{assets_map, find_asset, get_by_id_path, graph_assets, AssetGraphContentSource, AssetGraphWalk};
use turbo_tasks::rebase::{RebasedAssetReference, RebasedAssetVc, RebasedResolveResult};
use turbo_tasks::ast_dump::tidy_ast_dump;
use turbo_tasks::chunk::{
    chunk_context, module_factory, stringify_module_id, ChunkContentResult, ChunkEvaluation, EcmascriptChunkContentResult,
    EcmascriptChunkItemContent, EcmascriptChunkItemOptions, EcmascriptChunkReference, EcmascriptChunkVc, ModuleId,
    EVALUATE_RUNTIME,
};
use turbo_tasks::emitter::{Diagnostic, DiagnosticId, IssueEmitter, IssueSeverity, Level};
use turbo_tasks::esm_binding::{AstParentKind, BindingExpr, BindingVisitor, EsmBinding};
use turbo_tasks::manager::RawVc;
use turbo_tasks::reference::{all_assets, AllAssetsWalk, AssetReferencesVc, AssetsSetVc, ReferencedAssetsWalk, ResolveResult};
use turbo_tasks::static_asset::{
    static_asset_path, static_chunk_item_code, static_file_name, static_reference_description, ModuleAssetVc,
    StaticAssetError, StaticSourceContent,
};
use turbo_tasks::task_type::TaskId;
use turbo_tasks::text::{join_strs, stringify_number, stringify_str};
use turbo_tasks::typescript::{
    apply_tsconfig, apply_typescript_options, apply_typescript_types_options, type_resolve_next, type_resolve_plan,
    types_package_name,
    tsconfig_error_message, tsconfig_extends_step, tsconfig_step, ConditionValue, ImportMap, ImportMapping, Request,
    ResolveIntoPackage, ResolveModules, ResolveOptions, TsConfig, TsConfigContent, TsConfigError, TsConfigStep,
    TypescriptTypesAssetReferenceVc,
};
use turbo_tasks::vc::{
    AssetContextVc, AssetReferenceVc, AssetVc, AstPathVc, ChunkGroupVc, ChunkVc, ChunkingContextVc, EcmascriptChunkItemVc,
    EsmAssetReferenceVc, FileContentVc, FileSystemPathVc, RequestVc,
};

fn raw(i: u32) -> RawVc {
    RawVc::TaskCell(TaskId { id: i }, 0)
}

fn asset(i: u32) -> AssetVc {
    AssetVc { node: raw(i) }
}

fn dir(i: u32) -> FileSystemPathVc {
    FileSystemPathVc { node: raw(i) }
}

fn reference(i: u32) -> AssetReferenceVc {
    AssetReferenceVc { node: raw(i) }
}

#[test]
fn json_string_literals() {
    assert_eq!(stringify_str("abc"), "\"abc\"");
    assert_eq!(stringify_str("a\"b\\c"), "\"a\\\"b\\\\c\"");
    assert_eq!(stringify_str("l1\nl2\t\r"), "\"l1\\nl2\\t\\r\"");
    assert_eq!(stringify_str("\u{8}\u{c}\u{1}\u{1f}"), "\"\\b\\f\\u0001\\u001f\"");
    assert_eq!(stringify_str("é/ü"), "\"é/ü\"");
    assert_eq!(stringify_str(""), "\"\"");
}

#[test]
fn decimal_numbers() {
    assert_eq!(stringify_number(0), "0");
    assert_eq!(stringify_number(7), "7");
    assert_eq!(stringify_number(1203), "1203");
    assert_eq!(stringify_number(u64::MAX), "18446744073709551615");
    assert_eq!(join_strs(&vec!["a", "b", "c"], ", "), "a, b, c");
    assert_eq!(join_strs(&vec![], ", "), "");
}

#[test]
fn module_ids() {
    assert_eq!(stringify_module_id(&ModuleId::Number(42)), "42");
    assert_eq!(stringify_module_id(&ModuleId::String("./a.js".to_string())), "\"./a.js\"");
}

#[test]
fn module_factory_text() {
    let content = EcmascriptChunkItemContent {
        inner_code: "x();".to_string(),
        id: ModuleId::Number(3),
        options: EcmascriptChunkItemOptions { module: true, exports: false },
    };
    assert_eq!(
        module_factory(&content),
        "\n3: (({ r: __turbopack_require__, i: __turbopack_import__, s: __turbopack_esm__, v: __turbopack_export_value__, p: process, m: module }) => (() => {\n\nx();\n})()),\n"
    );
    let content = EcmascriptChunkItemContent {
        inner_code: String::new(),
        id: ModuleId::String("a".to_string()),
        options: EcmascriptChunkItemOptions { module: true, exports: true },
    };
    assert!(module_factory(&content).starts_with("\n\"a\": (({ r: __turbopack_require__"));
    assert!(module_factory(&content).contains("m: module, e: exports }"));
}

#[test]
fn chunk_constructors() {
    let ctx = ChunkingContextVc { node: raw(1) };
    let c = EcmascriptChunkVc::new(ctx, asset(2));
    assert!(!c.get().evaluate());
    assert_eq!(c.get().entry(), asset(2));
    assert_eq!(c.get().context(), ctx);
    let e = EcmascriptChunkVc::new_evaluate(ctx, asset(2));
    assert!(e.get().evaluate());
    assert_eq!(c.get().to_string("src/index.js"), "chunk src/index.js");
}

#[test]
fn chunk_code_without_evaluation() {
    let c = EcmascriptChunkVc::new(ChunkingContextVc { node: raw(1) }, asset(2));
    let eval = ChunkEvaluation { other_chunk_paths: vec!["x".to_string()], entry_id: ModuleId::Number(1) };
    let code = c.get().content("out/a.js", &vec!["F1".to_string(), "F2".to_string()], &eval);
    assert_eq!(code, "(self.TURBOPACK = self.TURBOPACK || []).push([\"out/a.js\", {\nF1F2\n}]);\n");
}

#[test]
fn chunk_code_with_evaluation() {
    let c = EcmascriptChunkVc::new_evaluate(ChunkingContextVc { node: raw(1) }, asset(2));
    let eval = ChunkEvaluation {
        other_chunk_paths: vec!["out/b.js".to_string(), "out/c.js".to_string()],
        entry_id: ModuleId::String("src/index.js".to_string()),
    };
    let code = c.get().content("out/a.js", &vec!["F".to_string()], &eval);
    let expected_head = "(self.TURBOPACK = self.TURBOPACK || []).push([\"out/a.js\", {\nF\n}, ({ chunks, getModule }) => {\n    if(!(true && chunks.has(\"out/b.js\") && chunks.has(\"out/c.js\"))) return true;\n    getModule(0, \"src/index.js\")\n}]);\n";
    assert_eq!(code, format!("{}{}", expected_head, EVALUATE_RUNTIME));
    assert!(EVALUATE_RUNTIME.starts_with("(() => {"));
    assert!(EVALUATE_RUNTIME.ends_with("})();"));
}

#[test]
fn chunk_references_in_order() {
    let c = EcmascriptChunkVc::new(ChunkingContextVc { node: raw(1) }, asset(2));
    let content: EcmascriptChunkContentResult = ChunkContentResult {
        chunk_items: vec![EcmascriptChunkItemVc { node: raw(9) }],
        chunks: vec![ChunkVc { node: raw(3) }],
        async_chunk_groups: vec![ChunkGroupVc { node: raw(4) }],
        external_asset_references: vec![reference(5), reference(6)],
    }
    .into();
    assert_eq!(content.chunk_items.len(), 1);
    let refs = c.get().references(&content);
    assert_eq!(
        refs,
        vec![
            EcmascriptChunkReference::Asset(reference(5)),
            EcmascriptChunkReference::Asset(reference(6)),
            EcmascriptChunkReference::ParallelChunk(ChunkVc { node: raw(3) }),
            EcmascriptChunkReference::ChunkGroup(ChunkGroupVc { node: raw(4) }),
        ]
    );
}

#[test]
fn chunk_context_ids() {
    let ctx = chunk_context(ChunkingContextVc { node: raw(1) });
    assert_eq!(ctx.id("src/a.js (static)"), ModuleId::String("src/a.js (static)".to_string()));
    assert_eq!(ctx.helper_id("loader", Some("src/a.js")), ModuleId::String("src/a.js/__/loader".to_string()));
    assert_eq!(ctx.helper_id("loader", None), ModuleId::String("loader".to_string()));
}

fn binding(export: Option<&str>) -> EsmBinding {
    EsmBinding {
        reference: EsmAssetReferenceVc { node: raw(1) },
        export: export.map(|s| s.to_string()),
        ast_path: AstPathVc { node: raw(2) },
    }
}

#[test]
fn esm_binding_replaces_expression() {
    let b = binding(Some("foo"));
    let path = vec![AstParentKind::Other(1), AstParentKind::ExprIdent, AstParentKind::Other(2)];
    let g = b.code_generation(path, Some("__mod".to_string()));
    assert_eq!(g.visitors.len(), 1);
    match &g.visitors[0] {
        BindingVisitor::ReplaceExpr { path, expr } => {
            assert_eq!(path, &vec![AstParentKind::Other(1)]);
            assert_eq!(expr, &BindingExpr::Member { obj: "__mod".to_string(), prop: "foo".to_string() });
        },
        _ => panic!("expected an expression rewrite"),
    }
}

#[test]
fn esm_binding_expands_shorthand() {
    let b = binding(None);
    let path = vec![AstParentKind::ExprIdent, AstParentKind::PropShorthand, AstParentKind::Other(5)];
    let g = b.code_generation(path, Some("__mod".to_string()));
    match &g.visitors[0] {
        BindingVisitor::ShorthandToKeyValue { path, value } => {
            assert_eq!(path, &vec![AstParentKind::ExprIdent]);
            assert_eq!(value, &BindingExpr::Ident("__mod".to_string()));
        },
        _ => panic!("expected a shorthand rewrite"),
    }
}

#[test]
fn esm_binding_unresolved_and_no_site() {
    let b = binding(Some("foo"));
    let g = b.code_generation(vec![AstParentKind::ExprIdent], None);
    match &g.visitors[0] {
        BindingVisitor::ReplaceExpr { path, expr } => {
            assert!(path.is_empty());
            assert_eq!(expr, &BindingExpr::Ident("undefined".to_string()));
        },
        _ => panic!("expected an expression rewrite"),
    }
    let g = b.code_generation(vec![AstParentKind::Other(1), AstParentKind::Other(2)], None);
    assert!(g.visitors.is_empty());
}

#[test]
fn emitter_issue_from_diagnostic() {
    let e = IssueEmitter { source: asset(1), title: None };
    let d = Diagnostic {
        level: Level::PhaseFatal,
        message: vec!["Unexpected token\n".to_string(), "details".to_string()],
        code: Some(DiagnosticId::Error("E1".to_string())),
        primary_span: Some((1, 10)),
    };
    let issue = e.issue_of(&d);
    assert_eq!(issue.severity, IssueSeverity::Fatal);
    assert_eq!(issue.title, "Unexpected token");
    assert_eq!(issue.message, "details");
    assert_eq!(issue.code.as_deref(), Some("error E1"));
    assert_eq!(issue.source, Some((0, 9)));
    assert_eq!(issue.source_asset, asset(1));
}

#[test]
fn emitter_given_title_and_single_line() {
    let e = IssueEmitter { source: asset(1), title: Some("Parse".to_string()) };
    let d = Diagnostic {
        level: Level::Help,
        message: vec!["one\ntwo".to_string()],
        code: Some(DiagnosticId::Lint("no-var".to_string())),
        primary_span: Some((0, 0)),
    };
    let issue = e.issue_of(&d);
    assert_eq!(issue.severity, IssueSeverity::Hint);
    assert_eq!(issue.title, "Parse");
    assert_eq!(issue.message, "one\ntwo");
    assert_eq!(issue.code.as_deref(), Some("lint no-var"));
    assert_eq!(issue.source, Some((0, 0)));
    let untitled = IssueEmitter { source: asset(1), title: None };
    let single = Diagnostic { level: Level::Cancelled, message: vec!["oops".to_string()], code: None, primary_span: None };
    let issue = untitled.issue_of(&single);
    assert_eq!(issue.severity, IssueSeverity::Error);
    assert_eq!(issue.title, "oops");
    assert_eq!(issue.message, "");
    assert!(issue.code.is_none());
    assert!(issue.source.is_none());
}

#[test]
fn emitter_severities() {
    let e = IssueEmitter { source: asset(1), title: Some("t".to_string()) };
    let sev = |level| e.issue_of(&Diagnostic { level, message: vec![], code: None, primary_span: None }).severity;
    assert_eq!(sev(Level::Bug), IssueSeverity::Bug);
    assert_eq!(sev(Level::Fatal), IssueSeverity::Fatal);
    assert_eq!(sev(Level::Error), IssueSeverity::Error);
    assert_eq!(sev(Level::Warning), IssueSeverity::Warning);
    assert_eq!(sev(Level::Note), IssueSeverity::Note);
    assert_eq!(sev(Level::FailureNote), IssueSeverity::Note);
}

fn options() -> ResolveOptions {
    ResolveOptions {
        extensions: vec![".js".to_string()],
        modules: vec![ResolveModules::Nested(dir(1), vec!["node_modules".to_string()])],
        into_package: vec![
            ResolveIntoPackage::ExportsField {
                field: "exports".to_string(),
                conditions: vec![("import".to_string(), ConditionValue::IsSet)],
                unspecified_conditions: ConditionValue::Unset,
            },
            ResolveIntoPackage::MainField("main".to_string()),
            ResolveIntoPackage::Default("index".to_string()),
        ],
        import_map: None,
        resolve_typescript_types: false,
    }
}

#[test]
fn typescript_options() {
    let o = apply_typescript_options(options());
    assert_eq!(o.extensions, vec![".ts".to_string(), ".js".to_string(), ".d.ts".to_string()]);
    assert!(o.resolve_typescript_types);
}

fn into_package_text(o: &ResolveOptions) -> Vec<String> {
    o.into_package
        .iter()
        .map(|p| match p {
            ResolveIntoPackage::ExportsField { field, conditions, .. } => {
                let mut c: Vec<String> = conditions.iter().map(|(k, v)| format!("{}={:?}", k, v)).collect();
                c.sort();
                format!("exports:{}:{}", field, c.join(","))
            },
            ResolveIntoPackage::MainField(f) => format!("main:{}", f),
            ResolveIntoPackage::Default(f) => format!("default:{}", f),
        })
        .collect()
}

#[test]
fn typescript_types_options() {
    let o = apply_typescript_types_options(options());
    assert_eq!(o.extensions, vec![".ts".to_string(), ".tsx".to_string(), ".d.ts".to_string()]);
    assert_eq!(
        into_package_text(&o),
        vec![
            "exports:exports:import=IsSet,types=IsSet".to_string(),
            "main:types".to_string(),
            "default:index".to_string()
        ]
    );
    let twice = apply_typescript_types_options(apply_typescript_types_options(options()));
    assert_eq!(into_package_text(&twice), into_package_text(&o));
    assert_eq!(twice.extensions, o.extensions);
}

#[test]
fn types_packages() {
    assert_eq!(types_package_name("react"), "@types/react");
    assert_eq!(types_package_name("@babel/core"), "@types/babel__core");
    assert_eq!(types_package_name("@a/b/c"), "@types/a__b__c");
    let plan = type_resolve_plan(&Request::Module { module: "@scope/x".to_string(), path: "/lib".to_string() });
    match plan.fallback {
        Some(Request::Module { module, path }) => {
            assert_eq!(module, "@types/scope__x");
            assert_eq!(path, "/lib");
        },
        _ => panic!("expected a types request"),
    }
    let other = type_resolve_plan(&Request::Other(RequestVc { node: raw(3) }));
    assert!(other.fallback.is_none());
}

fn mapping_text(m: &ImportMap) -> Vec<String> {
    let mut v: Vec<String> = m
        .direct
        .iter()
        .map(|(k, ImportMapping { aliases, context })| format!("{}=>{:?}@{:?}", k, aliases, context.map(|c| c.node)))
        .collect();
    v.sort();
    v
}

#[test]
fn tsconfig_without_configs_changes_nothing() {
    let o = apply_tsconfig(options(), &vec![]);
    assert_eq!(o.modules.len(), 1);
    assert!(o.import_map.is_none());
    let plain = TsConfig { dir: dir(5), base_url: None, base_url_dir: None, paths: None };
    let o = apply_tsconfig(options(), &vec![plain]);
    assert_eq!(o.modules.len(), 1);
    assert!(o.import_map.is_none());
}

#[test]
fn tsconfig_base_url_and_paths() {
    let base = TsConfig {
        dir: dir(10),
        base_url: Some("./src".to_string()),
        base_url_dir: Some(dir(11)),
        paths: Some(vec![
            ("@app/*".to_string(), vec![Some("app/*".to_string()), None]),
            ("shared".to_string(), vec![Some("base-shared".to_string())]),
        ]),
    };
    let top = TsConfig {
        dir: dir(20),
        base_url: None,
        base_url_dir: None,
        paths: Some(vec![("shared".to_string(), vec![Some("top-shared".to_string())])]),
    };
    let o = apply_tsconfig(options(), &vec![top, base]);
    assert_eq!(o.modules.len(), 2);
    assert!(matches!(o.modules[0], ResolveModules::Path(d) if d == dir(11)));
    let m = o.import_map.unwrap();
    assert_eq!(
        mapping_text(&m),
        vec![
            format!("@app/*=>[\"app/*\"]@{:?}", Some(raw(11))),
            format!("shared=>[\"top-shared\"]@{:?}", Some(raw(20))),
        ]
    );
}

#[test]
fn tsconfig_paths_merge_into_existing_import_map() {
    let mut o = options();
    o.import_map = Some(ImportMap {
        direct: vec![
            ("x".to_string(), ImportMapping { aliases: vec!["old".to_string()], context: None }),
            ("y".to_string(), ImportMapping { aliases: vec!["keep".to_string()], context: None }),
        ],
    });
    let cfg = TsConfig {
        dir: dir(7),
        base_url: Some("nowhere".to_string()),
        base_url_dir: None,
        paths: Some(vec![("x".to_string(), vec![Some("new".to_string())])]),
    };
    let o = apply_tsconfig(o, &vec![cfg]);
    assert_eq!(o.modules.len(), 1);
    let m = o.import_map.unwrap();
    assert_eq!(
        mapping_text(&m),
        vec![format!("x=>[\"new\"]@{:?}", Some(raw(7))), "y=>[\"keep\"]@None".to_string()]
    );
}

#[test]
fn typescript_types_reference() {
    let r = TypescriptTypesAssetReferenceVc::new(AssetContextVc { node: raw(1) }, RequestVc { node: raw(2) });
    assert_eq!(r.get().request, RequestVc { node: raw(2) });
    assert_eq!(r.get().context, AssetContextVc { node: raw(1) });
}

#[test]
fn referenced_assets_walk() {
    let mut w = ReferencedAssetsWalk::new(&vec![reference(1), reference(2)]);
    let mut resolved = vec![];
    while let Some(r) = w.next_reference() {
        resolved.push(r);
        let result = if r == reference(1) {
            ResolveResult::Single(asset(10), vec![reference(3)])
        } else if r == reference(2) {
            ResolveResult::Alternatives(vec![asset(11), asset(12)], vec![])
        } else {
            ResolveResult::Unresolveable(vec![])
        };
        w.add_result(&result);
    }
    assert_eq!(resolved, vec![reference(1), reference(2), reference(3)]);
    assert_eq!(w.into_assets(), vec![asset(10), asset(11), asset(12)]);
}

#[test]
fn all_assets_walk_visits_each_once() {
    let graph = |a: AssetVc| -> Vec<AssetVc> {
        if a == asset(1) {
            vec![asset(2), asset(3), asset(2)]
        } else if a == asset(2) {
            vec![asset(1), asset(4)]
        } else {
            vec![]
        }
    };
    let mut w = AllAssetsWalk::new(asset(1));
    let mut expanded = vec![];
    while let Some(p) = w.next_parent() {
        expanded.push(p);
        w.add_referenced(&graph(p));
    }
    assert_eq!(expanded, vec![asset(1), asset(2), asset(3), asset(4)]);
    assert_eq!(w.into_assets(), vec![asset(1), asset(2), asset(3), asset(4)]);
}

#[test]
fn empty_lists() {
    assert!(AssetReferencesVc::empty().get().is_empty());
    assert!(AssetsSetVc::empty().get().assets.is_empty());
    assert_eq!(AssetReferencesVc::cell(vec![reference(1)]).get(), &vec![reference(1)]);
}

#[test]
fn static_assets() {
    let m = ModuleAssetVc::new(asset(1), AssetContextVc { node: raw(2) });
    assert_eq!(m.get().source, asset(1));
    assert_eq!(m.get().to_string("img/logo.png"), "img/logo.png (static)");
    assert_eq!(static_file_name("0a1b", Some("png")), "0a1b.png");
    assert_eq!(static_file_name("0a1b", None), "0a1b");
    let (code, options) = static_chunk_item_code("0a1b.png");
    assert_eq!(code, "__turbopack_export_value__(\"/0a1b.png\");");
    assert_eq!(options, EcmascriptChunkItemOptions::default());
    assert_eq!(static_reference_description("0a1b.png"), "static(url) 0a1b.png");
}

#[test]
fn asset_graph_ids_and_expansion() {
    assert_eq!(get_by_id_path("/root/a/b.js", "/root"), Some("/a/b.js".to_string()));
    assert_eq!(get_by_id_path("/root", "/root"), Some(String::new()));
    assert_eq!(get_by_id_path("/other/a.js", "/root"), None);
    assert_eq!(get_by_id_path("/ro", "/root"), None);
    let mut eager = AssetGraphContentSource::new_eager(dir(1), asset(1));
    assert!(eager.is_expanded(asset(5)));
    assert!(!eager.mark_requested(asset(5)));
    let mut lazy = AssetGraphContentSource::new_lazy(dir(1), asset(1));
    assert_eq!(lazy.root_asset(), asset(1));
    assert_eq!(lazy.root_path(), dir(1));
    assert!(!lazy.is_expanded(asset(5)));
    assert!(lazy.mark_requested(asset(5)));
    assert!(lazy.is_expanded(asset(5)));
    assert!(!lazy.mark_requested(asset(5)));
}

#[test]
fn ast_dump_tidying() {
    let print = "Module {\n    span: Span {\n        lo: 0,\n    },\n        body: [],\n}\n";
    let print2 = "Module {\n    span: Span { lo: BytePos(0), hi: BytePos(3), ctxt: #0 },\n    body: [],\n}\n";
    assert_eq!(tidy_ast_dump(print2, false).unwrap(), "Module {\n  body: [],\n}\n");
    assert_eq!(
        tidy_ast_dump(print2, true).unwrap(),
        "Module {\n  span: Span { lo: BytePos(0), hi: BytePos(3), ctxt: #0 },\n  body: [],\n}\n"
    );
    assert_eq!(tidy_ast_dump(print, true).unwrap(), "Module {\n  span: Span {\n    lo: 0,\n  },\n    body: [],\n}\n");
}

#[test]
fn tsconfig_chain_steps() {
    assert!(matches!(tsconfig_step(&TsConfigContent::Unparseable), TsConfigStep::Stop { error: Some(TsConfigError::InvalidJson) }));
    assert!(matches!(tsconfig_step(&TsConfigContent::NotFound), TsConfigStep::Stop { error: Some(TsConfigError::NotFound) }));
    assert!(matches!(tsconfig_step(&TsConfigContent::Content { extends: None }), TsConfigStep::Stop { error: None }));
    assert!(matches!(
        tsconfig_step(&TsConfigContent::Content { extends: Some("./base.json".to_string()) }),
        TsConfigStep::Extends(ref e) if e == "./base.json"
    ));
    assert_eq!(tsconfig_extends_step(true), None);
    assert_eq!(tsconfig_extends_step(false), Some(TsConfigError::ExtendsUnresolved));
    assert_eq!(tsconfig_error_message(TsConfigError::InvalidJson, "/p/tsconfig.json"), "ERR /p/tsconfig.json is invalid JSON");
    assert_eq!(tsconfig_error_message(TsConfigError::NotFound, "/p/t.json"), "ERR /p/t.json not found");
    assert_eq!(
        tsconfig_error_message(TsConfigError::ExtendsUnresolved, "/p/t.json"),
        "ERR extends in /p/t.json doesn't resolve correctly"
    );
}

#[test]
fn rebased_assets_and_references() {
    let r = RebasedAssetVc::new(asset(1), dir(2), dir(3));
    assert_eq!(r.get().source, asset(1));
    let refs = r.get().references(&vec![reference(4), reference(5)]);
    assert_eq!(
        refs,
        vec![
            RebasedAssetReference { reference: reference(4), input_dir: dir(2), output_dir: dir(3) },
            RebasedAssetReference { reference: reference(5), input_dir: dir(2), output_dir: dir(3) },
        ]
    );
    match refs[0].resolve_reference(&ResolveResult::Alternatives(vec![asset(7), asset(8)], vec![reference(9)])) {
        RebasedResolveResult::Alternatives(a, q) => {
            assert_eq!(a.len(), 2);
            assert_eq!(a[1].source, asset(8));
            assert_eq!(a[1].output_dir, dir(3));
            assert_eq!(q, vec![RebasedAssetReference { reference: reference(9), input_dir: dir(2), output_dir: dir(3) }]);
        },
        _ => panic!("expected alternatives"),
    }
    match refs[1].resolve_reference(&ResolveResult::Keyed(vec![("k".to_string(), asset(6))], vec![])) {
        RebasedResolveResult::Keyed(m, q) => {
            assert_eq!(m[0].0, "k");
            assert_eq!(m[0].1.source, asset(6));
            assert!(q.is_empty());
        },
        _ => panic!("expected keyed"),
    }
}

#[test]
fn asset_graph_walk_follows_only_expanded() {
    let mut lazy = AssetGraphContentSource::new_lazy(dir(1), asset(1));
    lazy.mark_requested(asset(2));
    let graph = |a: AssetVc| -> Vec<AssetVc> {
        if a == asset(1) {
            vec![asset(2), asset(3)]
        } else if a == asset(2) {
            vec![asset(4)]
        } else if a == asset(3) {
            vec![asset(5)]
        } else {
            vec![]
        }
    };
    let mut w = AssetGraphWalk::new(asset(1));
    let mut followed = vec![];
    while let Some(p) = w.next_parent() {
        followed.push(p);
        w.add_referenced(&lazy, &graph(p));
    }
    assert_eq!(followed, vec![asset(1), asset(2)]);
    assert_eq!(w.into_assets(), vec![asset(1), asset(2), asset(3), asset(4)]);
}

#[test]
fn asset_graph_map_by_path() {
    let entries = vec![
        (Some("index.js".to_string()), asset(1)),
        (None, asset(2)),
        (Some("a.js".to_string()), asset(3)),
        (Some("index.js".to_string()), asset(4)),
    ];
    let map = assets_map(&entries);
    assert_eq!(map.len(), 2);
    assert_eq!(find_asset(&map, "index.js"), Some(asset(4)));
    assert_eq!(find_asset(&map, "a.js"), Some(asset(3)));
    assert_eq!(find_asset(&map, "b.js"), None);
}

#[test]
fn all_assets_of_a_graph_with_a_cycle() {
    let edges = vec![
        (asset(1), vec![asset(2), asset(3)]),
        (asset(2), vec![asset(1)]),
        (asset(3), vec![asset(4)]),
        (asset(9), vec![asset(10)]),
        (asset(3), vec![asset(5)]),
    ];
    assert_eq!(all_assets(asset(1), &edges), vec![asset(1), asset(2), asset(3), asset(4), asset(5)]);
    assert_eq!(all_assets(asset(4), &edges), vec![asset(4)]);
    assert_eq!(all_assets(asset(9), &edges), vec![asset(9), asset(10)]);
}

#[test]
fn graph_assets_of_eager_and_lazy_sources() {
    let edges = vec![
        (asset(1), vec![asset(2), asset(3)]),
        (asset(2), vec![asset(4)]),
        (asset(3), vec![asset(5)]),
        (asset(4), vec![asset(1)]),
    ];
    let eager = AssetGraphContentSource::new_eager(dir(1), asset(1));
    assert_eq!(graph_assets(&eager, &edges), vec![asset(1), asset(2), asset(3), asset(4), asset(5)]);
    let mut lazy = AssetGraphContentSource::new_lazy(dir(1), asset(1));
    assert_eq!(graph_assets(&lazy, &edges), vec![asset(1), asset(2), asset(3)]);
    lazy.mark_requested(asset(3));
    assert_eq!(graph_assets(&lazy, &edges), vec![asset(1), asset(2), asset(3), asset(5)]);
}

#[test]
fn static_asset_path_needs_file_content() {
    let file = StaticSourceContent::Content { content_hash_b16: "0a1b2c".to_string() };
    assert_eq!(static_asset_path(&file, Some("png")), Ok("0a1b2c.png".to_string()));
    assert_eq!(static_asset_path(&file, None), Ok("0a1b2c".to_string()));
    let err = static_asset_path(&StaticSourceContent::NotFound, Some("png")).unwrap_err();
    assert_eq!(err, StaticAssetError::UnsupportedFileContent);
    assert_eq!(err.message(), "StaticAsset::path: unsupported file content");
}

#[test]
fn module_asset_is_its_source() {
    let m = ModuleAssetVc::new(asset(1), AssetContextVc { node: raw(2) });
    let content = FileContentVc { node: raw(7) };
    assert_eq!(m.get().path(dir(5)), dir(5));
    assert_eq!(m.get().content(content), content);
    assert!(m.get().references().get().is_empty());
}

#[test]
fn types_reference_resolves_by_plan() {
    let r = TypescriptTypesAssetReferenceVc::new(AssetContextVc { node: raw(1) }, RequestVc { node: raw(2) });
    let plan = r.get().resolve_plan(&Request::Module { module: "react".to_string(), path: "".to_string() });
    assert!(matches!(&plan.first, Request::Module { module, .. } if module == "react"));
    assert!(type_resolve_next(&plan, false).is_none());
    match type_resolve_next(&plan, true) {
        Some(Request::Module { module, path }) => {
            assert_eq!(module, "@types/react");
            assert_eq!(path, "");
        },
        _ => panic!("expected the types request"),
    }
    let other = r.get().resolve_plan(&Request::Other(RequestVc { node: raw(3) }));
    assert!(type_resolve_next(&other, true).is_none());
}
