//! The code generation of an imported binding: the place in the syntax tree
//! where the binding is used is rewritten to read from the imported module.
use vstd::prelude::*;
use crate::vc::{AstPathVc, EsmAssetReferenceVc};

verus! {

/// A step of a path into the syntax tree: the field of the parent node
/// through which the path goes.
#[derive(Clone, Copy, PartialEq, Eq, Structural, Debug, Hash)]
pub enum AstParentKind {
    /// The identifier of an expression.
    ExprIdent,
    /// A shorthand property `{ a }`.
    PropShorthand,
    /// Any other field, by its number.
    Other(u32),
}

/// An expression that the rewrite puts in place.
#[derive(Clone, Debug, PartialEq, Eq)]
pub enum BindingExpr {
    /// `obj["prop"]`.
    Member { obj: String, prop: String },
    /// A bare identifier.
    Ident(String),
}

/// A rewrite expression as a mathematical value.
pub enum BindingExprView {
    Member { obj: Seq<char>, prop: Seq<char> },
    Ident(Seq<char>),
}

impl View for BindingExpr {
    type V = BindingExprView;

    open spec fn view(&self) -> BindingExprView {
        match self {
            BindingExpr::Member { obj, prop } => BindingExprView::Member { obj: obj@, prop: prop@ },
            BindingExpr::Ident(s) => BindingExprView::Ident(s@),
        }
    }
}

/// A rewrite of the syntax tree at the node that a path leads to.
#[derive(Clone, Debug)]
pub enum BindingVisitor {
    /// Replaces the expression at exactly `path` by `expr`.
    ReplaceExpr { path: Vec<AstParentKind>, expr: BindingExpr },
    /// Turns the shorthand property at `path` into `key: value`, the key
    /// being the shorthand's identifier.
    ShorthandToKeyValue { path: Vec<AstParentKind>, value: BindingExpr },
}

/// A rewrite as a mathematical value.
pub enum BindingVisitorView {
    ReplaceExpr { path: Seq<AstParentKind>, expr: BindingExprView },
    ShorthandToKeyValue { path: Seq<AstParentKind>, value: BindingExprView },
}

impl View for BindingVisitor {
    type V = BindingVisitorView;

    open spec fn view(&self) -> BindingVisitorView {
        match self {
            BindingVisitor::ReplaceExpr { path, expr } => BindingVisitorView::ReplaceExpr {
                path: path@,
                expr: expr@,
            },
            BindingVisitor::ShorthandToKeyValue { path, value } => BindingVisitorView::ShorthandToKeyValue {
                path: path@,
                value: value@,
            },
        }
    }
}

/// The rewrites that a piece of code generation asks for.
#[derive(Debug)]
pub struct CodeGeneration {
    pub visitors: Vec<BindingVisitor>,
}

/// A binding imported from an ES module: the import it comes from, the name
/// of the export (none for the namespace) and where in the syntax tree it is
/// used.
#[derive(Debug)]
pub struct EsmBinding {
    pub reference: EsmAssetReferenceVc,
    pub export: Option<String>,
    pub ast_path: AstPathVc,
}

/// The expression that reads the binding: `module["export"]`, the module's
/// identifier for the namespace, `undefined` where the import resolved to no
/// module.
pub open spec fn binding_expr_spec(imported_module: Option<Seq<char>>, export: Option<Seq<char>>) -> BindingExprView {
    match imported_module {
        Some(m) => match export {
            Some(e) => BindingExprView::Member { obj: m, prop: e },
            None => BindingExprView::Ident(m),
        },
        None => BindingExprView::Ident("undefined"@),
    }
}

/// Whether a step is one at which the binding can be rewritten.
pub open spec fn is_binding_site(k: AstParentKind) -> bool {
    k is ExprIdent || k is PropShorthand
}

/// The position of the last step of `path` at which the binding can be
/// rewritten, if any.
pub open spec fn binding_site(path: Seq<AstParentKind>) -> Option<int>
    decreases path.len(),
{
    if path.len() == 0 {
        None
    } else if is_binding_site(path.last()) {
        Some(path.len() - 1)
    } else {
        binding_site(path.drop_last())
    }
}

/// The rewrites for a binding used at `path`: none where the path has no
/// binding site; else one, at the node above the last binding site, which
/// replaces the expression or expands the shorthand property.
pub open spec fn binding_visitors(
    path: Seq<AstParentKind>,
    imported_module: Option<Seq<char>>,
    export: Option<Seq<char>>,
) -> Seq<BindingVisitorView> {
    match binding_site(path) {
        None => Seq::empty(),
        Some(i) => {
            let e = binding_expr_spec(imported_module, export);
            if path[i] is ExprIdent {
                seq![BindingVisitorView::ReplaceExpr { path: path.take(i), expr: e }]
            } else {
                seq![BindingVisitorView::ShorthandToKeyValue { path: path.take(i), value: e }]
            }
        },
    }
}

/// The binding site of a path lies in the path, and no later step is one.
pub proof fn lemma_binding_site_is_last(path: Seq<AstParentKind>)
    ensures
        binding_site(path) matches Some(i) ==> 0 <= i < path.len() && is_binding_site(path[i])
            && forall|j: int| i < j < path.len() ==> !is_binding_site(#[trigger] path[j]),
        binding_site(path) is None ==> forall|j: int| 0 <= j < path.len() ==> !is_binding_site(#[trigger] path[j]),
    decreases path.len(),
{
    if path.len() > 0 {
        lemma_binding_site_is_last(path.drop_last());
        assert forall|j: int| 0 <= j < path.len() - 1 implies path[j] == path.drop_last()[j] by {}
    }
}

/// The expression that a rewrite puts in place.
pub open spec fn rewrite_expr(v: BindingVisitorView) -> BindingExprView {
    match v {
        BindingVisitorView::ReplaceExpr { expr, .. } => expr,
        BindingVisitorView::ShorthandToKeyValue { value, .. } => value,
    }
}

/// A binding used at a binding site is rewritten once, at the node above
/// that site: an expression use is replaced, a shorthand property expanded.
/// The expression put in place reads the export from the imported module
/// (`module["export"]`); for a namespace binding (no export) it is the bare
/// module identifier; where the import resolved to no module it is
/// `undefined`.
pub proof fn lemma_binding_rewrite(path: Seq<AstParentKind>, imported_module: Option<Seq<char>>, export: Option<Seq<char>>)
    requires
        binding_site(path) is Some,
    ensures
        binding_visitors(path, imported_module, export).len() == 1,
        rewrite_expr(binding_visitors(path, imported_module, export)[0]) == match imported_module {
            None => BindingExprView::Ident("undefined"@),
            Some(m) => match export {
                None => BindingExprView::Ident(m),
                Some(x) => BindingExprView::Member { obj: m, prop: x },
            },
        },
        path.last() is ExprIdent ==> binding_visitors(path, imported_module, export)[0] == (BindingVisitorView::ReplaceExpr {
            path: path.drop_last(),
            expr: rewrite_expr(binding_visitors(path, imported_module, export)[0]),
        }),
        path.last() is PropShorthand ==> binding_visitors(path, imported_module, export)[0]
            == (BindingVisitorView::ShorthandToKeyValue {
            path: path.drop_last(),
            value: rewrite_expr(binding_visitors(path, imported_module, export)[0]),
        }),
{
    lemma_binding_site_is_last(path);
    assert(path.len() > 0);
    assert(path.take(path.len() - 1) =~= path.drop_last());
}

/// The same binding used as an expression and used as a shorthand property
/// (or at any two binding sites) is rewritten to the same expression.
pub proof fn lemma_binding_rewrites_agree(
    p1: Seq<AstParentKind>,
    p2: Seq<AstParentKind>,
    imported_module: Option<Seq<char>>,
    export: Option<Seq<char>>,
)
    requires
        binding_site(p1) is Some,
        binding_site(p2) is Some,
    ensures
        rewrite_expr(binding_visitors(p1, imported_module, export)[0]) == rewrite_expr(
            binding_visitors(p2, imported_module, export)[0],
        ),
{
    lemma_binding_rewrite(p1, imported_module, export);
    lemma_binding_rewrite(p2, imported_module, export);
}

/// The expression that reads a binding of `export` from the module whose
/// identifier is `imported_module`.
pub fn make_expr(imported_module: &Option<String>, export: &Option<String>) -> (r: BindingExpr)
    ensures
        r@ == binding_expr_spec(
            match imported_module { Some(m) => Some(m@), None => None },
            match export { Some(e) => Some(e@), None => None },
        ),
{
    match imported_module {
        Some(m) => match export {
            Some(e) => BindingExpr::Member { obj: m.clone(), prop: e.clone() },
            None => BindingExpr::Ident(m.clone()),
        },
        None => BindingExpr::Ident(String::from_str("undefined")),
    }
}

/// The text of an optional string as an optional mathematical string.
pub open spec fn opt_view(s: Option<String>) -> Option<Seq<char>> {
    match s {
        Some(x) => Some(x@),
        None => None,
    }
}

impl EsmBinding {
    /// The rewrites for this binding, where `ast_path` is the path to its
    /// use and `imported_module` the identifier of the module the import
    /// resolved to, if it resolved to one.
    pub fn code_generation(&self, ast_path: Vec<AstParentKind>, imported_module: Option<String>) -> (r: CodeGeneration)
        ensures
            r.visitors@.map_values(|v: BindingVisitor| v@) == binding_visitors(
                ast_path@,
                opt_view(imported_module),
                opt_view(self.export),
            ),
    {
        let ghost original = ast_path@;
        let mut path = ast_path;
        let mut visitors: Vec<BindingVisitor> = Vec::new();
        loop
            invariant_except_break
                visitors@.len() == 0,
                path@.len() <= original.len(),
                path@ == original.take(path@.len() as int),
                binding_site(original) == binding_site(path@),
            ensures
                visitors@.map_values(|v: BindingVisitor| v@) == binding_visitors(
                    original,
                    opt_view(imported_module),
                    opt_view(self.export),
                ),
            decreases path@.len(),
        {
            let last = path.pop();
            match last {
                Some(AstParentKind::ExprIdent) => {
                    let ghost i = path@.len() as int;
                    assert(path@.push(AstParentKind::ExprIdent) == original.take(i + 1));
                    assert(original.take(i + 1).last() == AstParentKind::ExprIdent);
                    assert(original[i] == AstParentKind::ExprIdent);
                    assert(original.take(i) == path@);
                    let e = make_expr(&imported_module, &self.export);
                    visitors.push(BindingVisitor::ReplaceExpr { path, expr: e });
                    assert(visitors@.map_values(|v: BindingVisitor| v@) =~= binding_visitors(
                        original,
                        opt_view(imported_module),
                        opt_view(self.export),
                    ));
                    break;
                },
                Some(AstParentKind::PropShorthand) => {
                    let ghost i = path@.len() as int;
                    assert(path@.push(AstParentKind::PropShorthand) == original.take(i + 1));
                    assert(original.take(i + 1).last() == AstParentKind::PropShorthand);
                    assert(original[i] == AstParentKind::PropShorthand);
                    assert(original.take(i) == path@);
                    let e = make_expr(&imported_module, &self.export);
                    visitors.push(BindingVisitor::ShorthandToKeyValue { path, value: e });
                    assert(visitors@.map_values(|v: BindingVisitor| v@) =~= binding_visitors(
                        original,
                        opt_view(imported_module),
                        opt_view(self.export),
                    ));
                    break;
                },
                Some(k) => {
                    let ghost i = path@.len() as int;
                    assert(path@.push(k) == original.take(i + 1));
                    assert(original.take(i + 1).drop_last() == path@);
                },
                None => {
                    assert(visitors@.map_values(|v: BindingVisitor| v@) =~= binding_visitors(
                        original,
                        opt_view(imported_module),
                        opt_view(self.export),
                    ));
                    break;
                },
            }
        }
        CodeGeneration { visitors }
    }
}

} // verus!
