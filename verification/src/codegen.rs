//! The decisions that the attribute macros take about the items they are
//! given: which attribute a path names, what a function returns, how each
//! argument is passed to a native function, which fields are traced and what
//! kind of implementation block is at hand.
use vstd::prelude::*;
use crate::attrs::IntoMode;
use crate::names::ends_with;

verus! {

/// The arguments of a path segment.
#[derive(Debug)]
pub enum PathArgs {
    Plain,
    AngleBracketed(Vec<GenericArgShape>),
    Parenthesized,
}

/// A generic argument: a type, or anything else (a lifetime, a constant).
#[derive(Debug)]
pub enum GenericArgShape {
    Type(TypeShape),
    Other,
}

/// A segment of a path.
#[derive(Debug)]
pub struct PathSeg {
    pub ident: String,
    pub args: PathArgs,
}

/// The shape of a type, as far as the attributes read it.
#[derive(Debug)]
pub enum TypeShape {
    Tuple(Vec<TypeShape>),
    Path { qself: bool, leading_colon: bool, segments: Vec<PathSeg> },
    Reference { mutable: bool, elem: Box<TypeShape> },
    Other,
}

/// Whether `s` is the word `w`.
fn word_is(s: &String, w: &str) -> (r: bool)
    ensures
        r == (s@ == w@),
{
    let t = String::from_str(w);
    *s == t
}

/// `name` written as `turbo_tasks::<name>`, without a leading `::` and
/// without arguments on either segment.
pub open spec fn is_attribute_spec(leading_colon: bool, segments: Seq<PathSeg>, name: Seq<char>) -> bool {
    &&& !leading_colon
    &&& segments.len() == 2
    &&& segments[0].args is Plain
    &&& segments[0].ident@ == "turbo_tasks"@
    &&& segments[1].args is Plain
    &&& segments[1].ident@ == name
}

/// Whether an attribute's path is `turbo_tasks::<name>`.
pub fn is_attribute(leading_colon: bool, segments: &Vec<PathSeg>, name: &str) -> (r: bool)
    ensures
        r == is_attribute_spec(leading_colon, segments@, name@),
{
    if leading_colon || segments.len() != 2 {
        return false;
    }
    let first = match segments[0].args {
        PathArgs::Plain => word_is(&segments[0].ident, "turbo_tasks"),
        _ => false,
    };
    let second = match segments[1].args {
        PathArgs::Plain => *(&segments[1].ident) == String::from_str(name),
        _ => false,
    };
    first && second
}

/// Whether an attribute's path is `turbo_tasks::constructor`.
pub fn is_constructor(leading_colon: bool, segments: &Vec<PathSeg>) -> (r: bool)
    ensures
        r == is_attribute_spec(leading_colon, segments@, "constructor"@),
{
    is_attribute(leading_colon, segments, "constructor")
}

/// The type in the first generic argument of the last segment of a path
/// type, marked `true`; otherwise the type itself, marked `false`.
pub open spec fn unwrap_result_spec(ty: TypeShape) -> (TypeShape, bool) {
    match ty {
        TypeShape::Path { qself, leading_colon, segments } => if !qself && segments@.len() > 0 {
            match segments@.last().args {
                PathArgs::AngleBracketed(args) => if args@.len() > 0 {
                    match args@[0] {
                        GenericArgShape::Type(t) => (t, true),
                        GenericArgShape::Other => (ty, false),
                    }
                } else {
                    (ty, false)
                },
                _ => (ty, false),
            }
        } else {
            (ty, false)
        },
        _ => (ty, false),
    }
}

/// The type a function's result wraps (`T` of `Result<T>`), and whether it
/// wraps one.
pub fn unwrap_result_type(ty: &TypeShape) -> (r: (&TypeShape, bool))
    ensures
        *r.0 == unwrap_result_spec(*ty).0,
        r.1 == unwrap_result_spec(*ty).1,
{
    match ty {
        TypeShape::Path { qself, leading_colon: _, segments } => {
            if !*qself && segments.len() > 0 {
                let last = &segments[segments.len() - 1];
                match &last.args {
                    PathArgs::AngleBracketed(args) => {
                        if args.len() > 0 {
                            match &args[0] {
                                GenericArgShape::Type(t) => (t, true),
                                GenericArgShape::Other => (ty, false),
                            }
                        } else {
                            (ty, false)
                        }
                    },
                    _ => (ty, false),
                }
            } else {
                (ty, false)
            }
        },
        _ => (ty, false),
    }
}

/// The type `()`.
pub open spec fn is_empty_type_spec(ty: TypeShape) -> bool {
    ty matches TypeShape::Tuple(elems) && elems@.len() == 0
}

/// Whether a type is `()`.
pub fn is_empty_type(ty: &TypeShape) -> (r: bool)
    ensures
        r == is_empty_type_spec(*ty),
{
    match ty {
        TypeShape::Tuple(elems) => elems.len() == 0,
        _ => false,
    }
}

/// The result type of a function: the written one, or `()` where none is
/// written.
pub fn get_return_type(output: Option<TypeShape>) -> (r: TypeShape)
    ensures
        output matches Some(t) ==> r == t,
        output is None ==> is_empty_type_spec(r),
{
    match output {
        Some(t) => t,
        None => TypeShape::Tuple(Vec::new()),
    }
}

/// How the result of the function as written becomes the native function's
/// result.
#[derive(Clone, Copy, PartialEq, Eq, Structural, Debug)]
pub enum NativeCallMode {
    /// A `Result<()>`: mapped to nothing.
    ResultUnit,
    /// A `Result<T>`: its value converted.
    ResultValue,
    /// `()`: called, then nothing.
    PlainUnit,
    /// A plain value: converted.
    PlainValue,
}

/// The mode for an output type.
pub open spec fn native_call_mode_spec(output: TypeShape) -> NativeCallMode {
    let (raw, is_result) = unwrap_result_spec(output);
    if is_result {
        if is_empty_type_spec(raw) {
            NativeCallMode::ResultUnit
        } else {
            NativeCallMode::ResultValue
        }
    } else {
        if is_empty_type_spec(raw) {
            NativeCallMode::PlainUnit
        } else {
            NativeCallMode::PlainValue
        }
    }
}

/// How the result of a function with result type `output` is handed on.
pub fn native_call_mode(output: &TypeShape) -> (r: NativeCallMode)
    ensures
        r == native_call_mode_spec(*output),
{
    let (raw, is_result) = unwrap_result_type(output);
    let empty = is_empty_type(raw);
    if is_result {
        if empty {
            NativeCallMode::ResultUnit
        } else {
            NativeCallMode::ResultValue
        }
    } else {
        if empty {
            NativeCallMode::PlainUnit
        } else {
            NativeCallMode::PlainValue
        }
    }
}

/// Whether the generated function converts its result into a reference, or
/// returns nothing.
pub fn converts_result(output: &TypeShape) -> (r: bool)
    ensures
        r == !is_empty_type_spec(unwrap_result_spec(*output).0),
{
    let (raw, _) = unwrap_result_type(output);
    !is_empty_type(raw)
}

/// An input of a function.
#[derive(Debug)]
pub enum FnInput {
    Receiver { mutable: bool },
    Typed { ty: TypeShape },
}

/// How one input reaches the function as written, inside the native function.
#[derive(Clone, Copy, PartialEq, Eq, Structural, Debug)]
pub enum ArgPlan {
    /// `self`, passed as the reference it is.
    SelfRef,
    /// `self`, read first and passed by reference to its value.
    SelfRead,
    /// A reference argument, converted to `String` where it is `&str`,
    /// else to the referenced type, and passed by reference.
    Reference { to_string: bool, mutable: bool },
    /// A value argument, converted to its type and passed as it is.
    Value,
}

/// The plan of an input.
pub open spec fn arg_plan_spec(input: FnInput, self_is_ref_type: bool) -> ArgPlan {
    match input {
        FnInput::Receiver { .. } => if self_is_ref_type {
            ArgPlan::SelfRef
        } else {
            ArgPlan::SelfRead
        },
        FnInput::Typed { ty } => match ty {
            TypeShape::Reference { mutable, elem } => ArgPlan::Reference {
                to_string: is_str_path(*elem),
                mutable,
            },
            _ => ArgPlan::Value,
        },
    }
}

/// The path type `str`: one segment `str` without arguments, no `::` in
/// front, no qualified self.
pub open spec fn is_str_path(ty: TypeShape) -> bool {
    ty matches TypeShape::Path { qself, leading_colon, segments } && !qself && !leading_colon
        && segments@.len() == 1 && segments@[0].args is Plain && segments@[0].ident@ == "str"@
}

fn is_str_path_exec(ty: &TypeShape) -> (r: bool)
    ensures
        r == is_str_path(*ty),
{
    match ty {
        TypeShape::Path { qself, leading_colon, segments } => {
            if *qself || *leading_colon || segments.len() != 1 {
                false
            } else {
                match segments[0].args {
                    PathArgs::Plain => word_is(&segments[0].ident, "str"),
                    _ => false,
                }
            }
        },
        _ => false,
    }
}

/// A `&mut self` receiver.
pub open spec fn is_mut_receiver(input: FnInput) -> bool {
    input matches FnInput::Receiver { mutable } && mutable
}

/// The plan of the native function of a function with inputs `inputs`;
/// `Err` with the position of the first `&mut self` receiver, which turbo
/// tasks cannot pass.
pub fn plan_native_function(inputs: &Vec<FnInput>, self_is_ref_type: bool) -> (r: Result<Vec<ArgPlan>, usize>)
    ensures
        match r {
            Ok(plans) => plans@.len() == inputs@.len() && (forall|i: int| 0 <= i < inputs@.len() ==> !is_mut_receiver(#[trigger] inputs@[i]))
                && forall|i: int| #![trigger plans@[i]] 0 <= i < inputs@.len() ==> plans@[i] == arg_plan_spec(inputs@[i], self_is_ref_type),
            Err(i) => i < inputs@.len() && is_mut_receiver(inputs@[i as int])
                && forall|j: int| 0 <= j < i ==> !is_mut_receiver(#[trigger] inputs@[j]),
        },
{
    let mut plans: Vec<ArgPlan> = Vec::new();
    let n = inputs.len();
    for i in 0..n
        invariant
            n == inputs@.len(),
            plans@.len() == i,
            forall|j: int| 0 <= j < i ==> !is_mut_receiver(#[trigger] inputs@[j]),
            forall|j: int| #![trigger plans@[j]] 0 <= j < i ==> plans@[j] == arg_plan_spec(inputs@[j], self_is_ref_type),
    {
        let p = match &inputs[i] {
            FnInput::Receiver { mutable } => {
                if *mutable {
                    return Err(i);
                }
                if self_is_ref_type {
                    ArgPlan::SelfRef
                } else {
                    ArgPlan::SelfRead
                }
            },
            FnInput::Typed { ty } => match ty {
                TypeShape::Reference { mutable, elem } => ArgPlan::Reference {
                    to_string: is_str_path_exec(elem),
                    mutable: *mutable,
                },
                _ => ArgPlan::Value,
            },
        };
        plans.push(p);
    }
    Ok(plans)
}

/// The slot update that a value's conversion or slot function performs.
#[derive(Clone, Copy, PartialEq, Eq, Structural, Debug)]
pub enum SlotUpdate {
    /// Replaces the slot's value without comparing.
    UpdateShared,
    /// Replaces the slot's value where it differs, comparing clones.
    CompareAndUpdateCloneable,
    /// Replaces the slot's value where it differs.
    CompareAndUpdateShared,
}

/// The update that a mode asks for; none for `none`.
pub open spec fn slot_update_spec(mode: IntoMode) -> Option<SlotUpdate> {
    match mode {
        IntoMode::Omitted => None,
        IntoMode::New => Some(SlotUpdate::UpdateShared),
        IntoMode::Value => Some(SlotUpdate::CompareAndUpdateCloneable),
        IntoMode::Shared => Some(SlotUpdate::CompareAndUpdateShared),
    }
}

/// The slot update that the value attribute generates for `mode`.
pub fn slot_update(mode: IntoMode) -> (r: Option<SlotUpdate>)
    ensures
        r == slot_update_spec(mode),
{
    match mode {
        IntoMode::Omitted => None,
        IntoMode::New => Some(SlotUpdate::UpdateShared),
        IntoMode::Value => Some(SlotUpdate::CompareAndUpdateCloneable),
        IntoMode::Shared => Some(SlotUpdate::CompareAndUpdateShared),
    }
}

/// A field of a struct or enum variant: its name, if it has one, and
/// whether it carries `#[trace_ignore]`.
#[derive(Debug)]
pub struct FieldShape {
    pub ident: Option<String>,
    pub trace_ignore: bool,
}

/// The names of the named fields that are traced, in order.
pub open spec fn traced_names_spec(fields: Seq<FieldShape>) -> Seq<Seq<char>>
    decreases fields.len(),
{
    if fields.len() == 0 {
        Seq::empty()
    } else {
        let rest = traced_names_spec(fields.drop_last());
        let f = fields.last();
        if !f.trace_ignore && f.ident is Some {
            rest.push(f.ident->0@)
        } else {
            rest
        }
    }
}

/// The names of the named fields that the trace derive visits.
pub fn traced_named_fields(fields: &Vec<FieldShape>) -> (r: Vec<String>)
    ensures
        r@.map_values(|s: String| s@) == traced_names_spec(fields@),
{
    let mut r: Vec<String> = Vec::new();
    let n = fields.len();
    for i in 0..n
        invariant
            n == fields@.len(),
            r@.map_values(|s: String| s@) == traced_names_spec(fields@.take(i as int)),
    {
        assert(fields@.take(i + 1).drop_last() =~= fields@.take(i as int));
        let ghost before = r@;
        if !fields[i].trace_ignore {
            match &fields[i].ident {
                Some(name) => {
                    r.push(name.clone());
                    assert(r@.map_values(|s: String| s@) =~= before.map_values(|s: String| s@).push(name@));
                },
                None => {},
            }
        }
    }
    assert(fields@.take(n as int) =~= fields@);
    r
}

/// The positions of the unnamed fields that are traced.
pub fn traced_positions(fields: &Vec<FieldShape>) -> (r: Vec<usize>)
    ensures
        forall|q: int| #![trigger r@[q]] 0 <= q < r@.len() ==> r@[q] < fields@.len() && !fields@[r@[q] as int].trace_ignore,
        forall|i: int| #![trigger fields@[i]] 0 <= i < fields@.len() && !fields@[i].trace_ignore ==> r@.contains(i as usize),
        forall|q1: int, q2: int| 0 <= q1 < q2 < r@.len() ==> r@[q1] < r@[q2],
{
    let mut r: Vec<usize> = Vec::new();
    let n = fields.len();
    for i in 0..n
        invariant
            n == fields@.len(),
            forall|q: int| #![trigger r@[q]] 0 <= q < r@.len() ==> r@[q] < i && !fields@[r@[q] as int].trace_ignore,
            forall|j: int| #![trigger fields@[j]] 0 <= j < i && !fields@[j].trace_ignore ==> r@.contains(j as usize),
            forall|q1: int, q2: int| 0 <= q1 < q2 < r@.len() ==> r@[q1] < r@[q2],
    {
        let ghost before = r@;
        if !fields[i].trace_ignore {
            r.push(i);
            assert(r@[r@.len() - 1] == i);
        }
        assert forall|j: int| #![trigger fields@[j]] 0 <= j < i + 1 && !fields@[j].trace_ignore implies r@.contains(j as usize) by {
            if j < i {
                let q = choose|q: int| 0 <= q < before.len() && before[q] == j as usize;
                assert(r@[q] == before[q]);
            }
        }
    }
    r
}

/// What kind of implementation block the value_impl attribute is given.
#[derive(Debug)]
pub enum ImplKind {
    /// An implementation on a reference type (`XxxRef`): its methods become
    /// turbo functions.
    SelfRef(String),
    /// An implementation on a value type: its constructors are generated.
    SelfValue(String),
    /// A trait implementation on a value type.
    Trait { trait_ident: String, struct_ident: String },
    /// Anything else.
    Unsupported,
}

/// The single plain segment of a path type without qualified self.
pub open spec fn single_ident(ty: TypeShape) -> Option<Seq<char>> {
    match ty {
        TypeShape::Path { qself, leading_colon: _, segments } => if !qself && segments@.len() == 1 && segments@[0].args is Plain {
            Some(segments@[0].ident@)
        } else {
            None
        },
        _ => None,
    }
}

/// The kind of an implementation block with self type `self_ty` and trait
/// path `trait_path`.
pub open spec fn impl_kind_spec(self_ty: TypeShape, trait_path: Option<Seq<PathSeg>>) -> Option<(u8, Seq<char>, Seq<char>)> {
    match single_ident(self_ty) {
        Some(ident) => match trait_path {
            None => if ident.len() >= 3 && ident.subrange(ident.len() - 3, ident.len() as int) == "Ref"@ {
                Some((0u8, ident, Seq::empty()))
            } else {
                Some((1u8, ident, Seq::empty()))
            },
            Some(segs) => if segs.len() == 1 && segs[0].args is Plain {
                Some((2u8, ident, segs[0].ident@))
            } else {
                None
            },
        },
        None => None,
    }
}

/// The kind as the triple `impl_kind_spec` gives.
pub open spec fn impl_kind_view(k: ImplKind) -> Option<(u8, Seq<char>, Seq<char>)> {
    match k {
        ImplKind::SelfRef(s) => Some((0u8, s@, Seq::empty())),
        ImplKind::SelfValue(s) => Some((1u8, s@, Seq::empty())),
        ImplKind::Trait { trait_ident, struct_ident } => Some((2u8, struct_ident@, trait_ident@)),
        ImplKind::Unsupported => None,
    }
}

/// Classifies an implementation block: on a reference type (a name ending
/// in `Ref`), on a value type, or of a single-segment trait on a type.
pub fn classify_impl(self_ty: &TypeShape, trait_path: Option<&Vec<PathSeg>>) -> (r: ImplKind)
    ensures
        impl_kind_view(r) == impl_kind_spec(
            *self_ty,
            match trait_path {
                Some(p) => Some(p@),
                None => None,
            },
        ),
{
    let ident = match self_ty {
        TypeShape::Path { qself, leading_colon: _, segments } => {
            if !*qself && segments.len() == 1 {
                match segments[0].args {
                    PathArgs::Plain => &segments[0].ident,
                    _ => {
                        return ImplKind::Unsupported;
                    },
                }
            } else {
                return ImplKind::Unsupported;
            }
        },
        _ => {
            return ImplKind::Unsupported;
        },
    };
    match trait_path {
        None => {
            if ends_with(ident.as_str(), "Ref") {
                proof {
                    reveal_strlit("Ref");
                }
                ImplKind::SelfRef(ident.clone())
            } else {
                proof {
                    reveal_strlit("Ref");
                }
                ImplKind::SelfValue(ident.clone())
            }
        },
        Some(segs) => {
            if segs.len() == 1 {
                match segs[0].args {
                    PathArgs::Plain => ImplKind::Trait { trait_ident: segs[0].ident.clone(), struct_ident: ident.clone() },
                    _ => ImplKind::Unsupported,
                }
            } else {
                ImplKind::Unsupported
            }
        },
    }
}

} // verus!
