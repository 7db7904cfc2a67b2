use turbo_tasks::attrs::{AttrError, AttrToken, Constructor, IntoMode, ValueArguments};
use turbo_tasks::codegen::{
    classify_impl, converts_result, get_return_type, is_attribute, is_constructor, is_empty_type, native_call_mode,
    plan_native_function, slot_update, traced_named_fields, traced_positions, unwrap_result_type, ArgPlan, FieldShape,
    FnInput, GenericArgShape, ImplKind, NativeCallMode, PathArgs, PathSeg, SlotUpdate, TypeShape,
};
use turbo_tasks::macro_plans::{
    check_arguments, NativeInput, constructor_args, constructor_indices, constructor_update, trait_impl_names, tuple_item_names, value_plan,
    value_trait_plan, ConstructorInput, ItemKind, SlotComparison, SlotSelector, TraitMethodShape,
};
use turbo_tasks::names::{
    get_function_ident, get_internal_function_ident, get_internal_trait_impl_function_ident, get_ref_ident,
    get_register_trait_methods_ident, get_slot_value_type_ident, get_trait_impl_function_ident, get_trait_mod_ident,
    get_trait_type_ident,
};

fn ident(s: &str) -> AttrToken {
    AttrToken::Ident(s.to_string())
}

fn seg(s: &str) -> PathSeg {
    PathSeg { ident: s.to_string(), args: PathArgs::Plain }
}

fn path(s: &str) -> TypeShape {
    TypeShape::Path { qself: false, leading_colon: false, segments: vec![seg(s)] }
}

fn result_of(t: TypeShape) -> TypeShape {
    TypeShape::Path {
        qself: false,
        leading_colon: false,
        segments: vec![PathSeg { ident: "Result".to_string(), args: PathArgs::AngleBracketed(vec![GenericArgShape::Type(t)]) }],
    }
}

fn unit() -> TypeShape {
    TypeShape::Tuple(vec![])
}

#[test]
fn names_of_generated_items() {
    assert_eq!(get_ref_ident("Asset"), "AssetRef");
    assert_eq!(get_internal_function_ident("read"), "read_inline");
    assert_eq!(get_internal_trait_impl_function_ident("Asset", "path"), "__trait_call_Asset_path");
    assert_eq!(get_trait_mod_ident("Asset"), "AssetTurboTasksMethods");
    assert_eq!(get_slot_value_type_ident("ModuleAsset"), "MODULEASSET_NODE_TYPE");
    assert_eq!(get_trait_type_ident("Asset"), "ASSET_TRAIT_TYPE");
    assert_eq!(get_register_trait_methods_ident("Asset", "File"), "__register_File_Asset_trait_methods");
    assert_eq!(get_function_ident("read_file"), "READ_FILE_FUNCTION");
    assert_eq!(get_trait_impl_function_ident("File", "path"), "FILE_IMPL_PATH_FUNCTION");
}

#[test]
fn into_mode_words() {
    let ts = vec![ident("none"), ident("new"), ident("shared"), ident("value"), ident("other"), AttrToken::Comma];
    assert_eq!(IntoMode::parse(&ts, 0).unwrap(), IntoMode::Omitted);
    assert_eq!(IntoMode::parse(&ts, 1).unwrap(), IntoMode::New);
    assert_eq!(IntoMode::parse(&ts, 2).unwrap(), IntoMode::Shared);
    assert_eq!(IntoMode::parse(&ts, 3).unwrap(), IntoMode::Value);
    assert!(matches!(IntoMode::parse(&ts, 4), Err(AttrError::UnexpectedMode(w)) if w == "other"));
    assert!(matches!(IntoMode::parse(&ts, 5), Err(AttrError::ExpectedIdent)));
    assert!(matches!(IntoMode::parse(&ts, 6), Err(AttrError::ExpectedIdent)));
}

#[test]
fn value_arguments_defaults() {
    let a = ValueArguments::parse(&vec![]).unwrap();
    assert!(a.traits.is_empty());
    assert_eq!(a.into_mode, IntoMode::Omitted);
    assert_eq!(a.slot_mode, IntoMode::Shared);
}

#[test]
fn value_arguments_traits_and_modes() {
    let ts = vec![
        ident("Chunk"),
        AttrToken::Plus,
        ident("Asset"),
        AttrToken::Comma,
        ident("into"),
        AttrToken::Colon,
        ident("new"),
        AttrToken::Comma,
        ident("slot"),
        AttrToken::Colon,
        ident("value"),
        AttrToken::Comma,
        ident("ValueToString"),
    ];
    let a = ValueArguments::parse(&ts).unwrap();
    assert_eq!(a.traits, vec!["Chunk".to_string(), "Asset".to_string(), "ValueToString".to_string()]);
    assert_eq!(a.into_mode, IntoMode::New);
    assert_eq!(a.slot_mode, IntoMode::Value);
}

#[test]
fn value_arguments_presets() {
    let a = ValueArguments::parse(&vec![ident("value")]).unwrap();
    assert_eq!((a.into_mode, a.slot_mode), (IntoMode::Value, IntoMode::Value));
    let b = ValueArguments::parse(&vec![ident("value"), AttrToken::Comma, ident("shared")]).unwrap();
    assert_eq!((b.into_mode, b.slot_mode), (IntoMode::Shared, IntoMode::Shared));
}

#[test]
fn value_arguments_errors() {
    assert!(matches!(ValueArguments::parse(&vec![ident("into"), ident("new")]), Err(AttrError::ExpectedColon)));
    assert!(matches!(ValueArguments::parse(&vec![ident("Asset"), ident("Chunk")]), Err(AttrError::ExpectedCommaOrEnd)));
    assert!(matches!(ValueArguments::parse(&vec![AttrToken::Other]), Err(AttrError::ExpectedIdent)));
    assert!(matches!(ValueArguments::parse(&vec![ident("Asset"), AttrToken::Comma]), Err(AttrError::ExpectedIdent)));
    assert!(matches!(
        ValueArguments::parse(&vec![ident("slot"), AttrToken::Colon, ident("old")]),
        Err(AttrError::UnexpectedMode(_))
    ));
}

#[test]
fn constructor_arguments() {
    assert!(matches!(Constructor::parse(&vec![]).unwrap(), Constructor::Default));
    let c = Constructor::parse(&vec![AttrToken::Parens(vec![ident("compare")])]).unwrap();
    assert!(matches!(c, Constructor::Compare(None)));
    let c = Constructor::parse(&vec![AttrToken::Parens(vec![ident("compare_enum"), AttrToken::Colon, ident("Same")])]).unwrap();
    assert!(matches!(c, Constructor::CompareEnum(Some(ref n)) if n == "Same"));
    let c = Constructor::parse(&vec![AttrToken::Parens(vec![
        ident("key"),
        AttrToken::Colon,
        ident("a"),
        AttrToken::Other,
        ident("b"),
        AttrToken::Comma,
        ident("compare"),
        AttrToken::Colon,
        ident("eq"),
    ])])
    .unwrap();
    assert!(matches!(c, Constructor::KeyAndCompare(Some((2, 5)), Some(ref n)) if n == "eq"));
    let c = Constructor::parse(&vec![AttrToken::Parens(vec![ident("compare"), AttrToken::Comma, ident("key")])]).unwrap();
    assert!(matches!(c, Constructor::KeyAndCompare(None, None)));
}

#[test]
fn constructor_argument_errors() {
    assert!(matches!(Constructor::parse(&vec![ident("compare")]), Err(AttrError::ExpectedParens)));
    assert!(matches!(
        Constructor::parse(&vec![AttrToken::Parens(vec![ident("compare")]), AttrToken::Comma]),
        Err(AttrError::UnexpectedToken)
    ));
    assert!(matches!(
        Constructor::parse(&vec![AttrToken::Parens(vec![ident("compare"), AttrToken::Comma, ident("compare")])]),
        Err(AttrError::CompareCombined)
    ));
    assert!(matches!(
        Constructor::parse(&vec![AttrToken::Parens(vec![ident("key"), AttrToken::Comma, ident("key")])]),
        Err(AttrError::KeyCombined)
    ));
    assert!(matches!(
        Constructor::parse(&vec![AttrToken::Parens(vec![ident("keys")])]),
        Err(AttrError::UnexpectedConstructorArg(_))
    ));
    assert!(matches!(
        Constructor::parse(&vec![AttrToken::Parens(vec![ident("key"), AttrToken::Colon])]),
        Err(AttrError::ExpectedExpr)
    ));
    assert!(matches!(Constructor::parse(&vec![AttrToken::Parens(vec![])]), Err(AttrError::ExpectedIdent)));
}

#[test]
fn attribute_paths() {
    let p = vec![seg("turbo_tasks"), seg("constructor")];
    assert!(is_constructor(false, &p));
    assert!(!is_constructor(true, &p));
    assert!(is_attribute(false, &p, "constructor"));
    assert!(!is_attribute(false, &p, "function"));
    assert!(!is_attribute(false, &vec![seg("constructor")], "constructor"));
}

#[test]
fn return_types() {
    let r = result_of(path("StringVc"));
    let (inner, is_result) = unwrap_result_type(&r);
    assert!(is_result);
    assert!(matches!(inner, TypeShape::Path { segments, .. } if segments[0].ident == "StringVc"));
    let (_, plain) = unwrap_result_type(&path("StringVc"));
    assert!(!plain);
    assert!(is_empty_type(&get_return_type(None)));
    assert!(!is_empty_type(&get_return_type(Some(path("u32")))));
    assert_eq!(native_call_mode(&result_of(unit())), NativeCallMode::ResultUnit);
    assert_eq!(native_call_mode(&result_of(path("A"))), NativeCallMode::ResultValue);
    assert_eq!(native_call_mode(&unit()), NativeCallMode::PlainUnit);
    assert_eq!(native_call_mode(&path("A")), NativeCallMode::PlainValue);
    assert!(!converts_result(&result_of(unit())));
    assert!(converts_result(&path("A")));
}

#[test]
fn native_function_plans() {
    let inputs = vec![
        FnInput::Receiver { mutable: false },
        FnInput::Typed { ty: TypeShape::Reference { mutable: false, elem: Box::new(path("str")) } },
        FnInput::Typed { ty: TypeShape::Reference { mutable: false, elem: Box::new(path("Vec")) } },
        FnInput::Typed { ty: path("u32") },
    ];
    let plan = plan_native_function(&inputs, false).unwrap();
    assert_eq!(
        plan,
        vec![
            ArgPlan::SelfRead,
            ArgPlan::Reference { to_string: true, mutable: false },
            ArgPlan::Reference { to_string: false, mutable: false },
            ArgPlan::Value
        ]
    );
    let plan = plan_native_function(&vec![FnInput::Receiver { mutable: false }], true).unwrap();
    assert_eq!(plan, vec![ArgPlan::SelfRef]);
    let bad = vec![FnInput::Typed { ty: path("u32") }, FnInput::Receiver { mutable: true }];
    assert_eq!(plan_native_function(&bad, true), Err(1));
}

#[test]
fn slot_updates() {
    assert_eq!(slot_update(IntoMode::Omitted), None);
    assert_eq!(slot_update(IntoMode::New), Some(SlotUpdate::UpdateShared));
    assert_eq!(slot_update(IntoMode::Value), Some(SlotUpdate::CompareAndUpdateCloneable));
    assert_eq!(slot_update(IntoMode::Shared), Some(SlotUpdate::CompareAndUpdateShared));
}

#[test]
fn traced_fields() {
    let fields = vec![
        FieldShape { ident: Some("a".to_string()), trace_ignore: false },
        FieldShape { ident: Some("b".to_string()), trace_ignore: true },
        FieldShape { ident: Some("c".to_string()), trace_ignore: false },
    ];
    assert_eq!(traced_named_fields(&fields), vec!["a".to_string(), "c".to_string()]);
    let unnamed = vec![
        FieldShape { ident: None, trace_ignore: true },
        FieldShape { ident: None, trace_ignore: false },
        FieldShape { ident: None, trace_ignore: false },
    ];
    assert_eq!(traced_positions(&unnamed), vec![1, 2]);
    assert_eq!(tuple_item_names(&unnamed), vec!["_".to_string(), "tuple_item_1".to_string(), "tuple_item_2".to_string()]);
}

#[test]
fn impl_kinds() {
    assert!(matches!(classify_impl(&path("AssetRef"), None), ImplKind::SelfRef(ref s) if s == "AssetRef"));
    assert!(matches!(classify_impl(&path("Asset"), None), ImplKind::SelfValue(ref s) if s == "Asset"));
    let tr = vec![seg("Asset")];
    assert!(matches!(
        classify_impl(&path("File"), Some(&tr)),
        ImplKind::Trait { ref trait_ident, ref struct_ident } if trait_ident == "Asset" && struct_ident == "File"
    ));
    let long = vec![seg("core"), seg("Asset")];
    assert!(matches!(classify_impl(&path("File"), Some(&long)), ImplKind::Unsupported));
    assert!(matches!(classify_impl(&unit(), None), ImplKind::Unsupported));
}

#[test]
fn value_plans() {
    let args = ValueArguments { traits: vec!["Asset".to_string()], into_mode: IntoMode::New, slot_mode: IntoMode::Omitted };
    let p = value_plan(ItemKind::Struct, "File", &args).unwrap();
    assert_eq!(p.ref_ident, "FileRef");
    assert_eq!(p.slot_value_type_ident, "FILE_NODE_TYPE");
    assert_eq!(p.trait_refs, vec!["AssetRef".to_string()]);
    assert_eq!(p.trait_registrations, vec!["__register_File_Asset_trait_methods".to_string()]);
    assert_eq!(p.into_update, Some(SlotUpdate::UpdateShared));
    assert_eq!(p.slot_update, None);
    assert!(value_plan(ItemKind::Other, "f", &args).is_none());
}

#[test]
fn value_trait_plans() {
    let methods = vec![
        TraitMethodShape {
            ident: "path".to_string(),
            inputs: vec![FnInput::Receiver { mutable: false }],
            output: Some(path("FileSystemPathVc")),
        },
        TraitMethodShape {
            ident: "touch".to_string(),
            inputs: vec![FnInput::Receiver { mutable: false }, FnInput::Typed { ty: path("u32") }],
            output: None,
        },
    ];
    let p = value_trait_plan("Asset", &methods);
    assert_eq!(p.ref_ident, "AssetRef");
    assert_eq!(p.mod_ident, "AssetTurboTasksMethods");
    assert_eq!(p.trait_type_ident, "ASSET_TRAIT_TYPE");
    assert_eq!(p.methods[0].method, "path");
    assert_eq!(p.methods[0].typed_arguments, 0);
    assert!(p.methods[0].converts_result);
    assert_eq!(p.methods[1].typed_arguments, 1);
    assert!(!p.methods[1].converts_result);
}

#[test]
fn constructor_updates() {
    assert_eq!(constructor_update(&Constructor::Default), (SlotSelector::ByType, SlotComparison::Never));
    assert_eq!(constructor_update(&Constructor::Compare(None)), (SlotSelector::ByType, SlotComparison::Fields));
    assert_eq!(
        constructor_update(&Constructor::KeyAndCompare(Some((2, 3)), Some("eq".to_string()))),
        (SlotSelector::ByKey(Some((2, 3))), SlotComparison::Method("eq".to_string()))
    );
    assert_eq!(
        constructor_update(&Constructor::CompareEnum(Some("A".to_string()))),
        (SlotSelector::ByType, SlotComparison::EnumVariant(Some("A".to_string())))
    );
}

#[test]
fn constructor_arguments_and_indices() {
    let inputs = vec![
        ConstructorInput::Receiver,
        ConstructorInput::Named { name: "path".to_string(), is_reference: true },
        ConstructorInput::OtherPattern("(a, b)".to_string()),
        ConstructorInput::Named { name: "n".to_string(), is_reference: false },
    ];
    let (args, errors) = constructor_args(&inputs);
    assert_eq!(args.len(), 2);
    assert_eq!(args[0].name, "path");
    assert_eq!(args[0].old_name, "path_old");
    assert!(args[0].by_reference);
    assert_eq!(args[1].old_name, "n_old");
    assert!(!args[1].by_reference);
    assert_eq!(errors, vec![2]);
    assert_eq!(constructor_indices(&vec![true, false, true, true]), vec![Some(0), None, Some(1), Some(2)]);
}

#[test]
fn trait_impl_method_names() {
    let n = trait_impl_names("Asset", "File", "path");
    assert_eq!(n.function_ident, "FILE_IMPL_PATH_FUNCTION");
    assert_eq!(n.internal_function_ident, "__trait_call_Asset_path");
    assert_eq!(n.native_name, "File::path");
}

#[test]
fn native_function_argument_checks() {
    let inputs = vec![NativeInput::SelfArg, NativeInput::Named("path".to_string()), NativeInput::Named("n".to_string())];
    assert_eq!(check_arguments("File::read", &inputs, 3), Ok(()));
    assert_eq!(check_arguments("File::read", &inputs, 0), Err("File::read() self argument missing".to_string()));
    assert_eq!(check_arguments("File::read", &inputs, 1), Err("File::read() argument 1 (path) missing".to_string()));
    assert_eq!(check_arguments("File::read", &inputs, 2), Err("File::read() argument 2 (n) missing".to_string()));
    assert_eq!(check_arguments("File::read", &inputs, 4), Err("File::read() called with too many arguments".to_string()));
    assert_eq!(check_arguments("f", &vec![], 0), Ok(()));
}

#[test]
fn attr_error_messages() {
    assert_eq!(AttrError::ExpectedIdent.message(), "expected identifier");
    assert_eq!(AttrError::ExpectedColon.message(), "expected `:`");
    assert_eq!(AttrError::ExpectedCommaOrEnd.message(), "expected \",\" or end of attribute");
    assert_eq!(AttrError::ExpectedParens.message(), "expected parentheses");
    assert_eq!(
        AttrError::UnexpectedMode("other".to_string()).message(),
        "unexpected other, expected \"none\", \"new\", \"shared\" or \"value\""
    );
    assert_eq!(
        AttrError::UnexpectedConstructorArg("x".to_string()).message(),
        "unexpected x, expected \"key\", \"compare\" or \"compare_enum\""
    );
    assert_eq!(AttrError::CompareCombined.message(), "\"compare\" can't be combined with previous values");
    assert_eq!(AttrError::KeyCombined.message(), "\"key\" can't be combined with previous values");
    assert_eq!(AttrError::ExpectedExpr.message(), "expected expression");
    assert_eq!(AttrError::UnexpectedToken.message(), "unexpected token");
}
