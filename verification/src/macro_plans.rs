//! What the value, value_trait and value_impl attributes and the trace
//! derive decide before they write code: the names they generate, how values
//! are put into slots, how constructors find and compare the slot they
//! update, and which fields are traced.
use vstd::prelude::*;
use crate::attrs::{Constructor, ConstructorView, ValueArguments, strings_view, name_view, range_view};
use crate::codegen::{FnInput, SlotUpdate, FieldShape, slot_update, slot_update_spec, is_empty_type_spec, TypeShape, is_empty_type};
use crate::names::{get_ref_ident, get_slot_value_type_ident, get_register_trait_methods_ident, get_trait_mod_ident, get_trait_type_ident, get_trait_impl_function_ident, get_internal_trait_impl_function_ident, uppercase_of};
use crate::text::{decimal, stringify_number};

verus! {

/// The kind of item an attribute is given.
#[derive(Clone, Copy, PartialEq, Eq, Structural, Debug)]
pub enum ItemKind {
    Struct,
    Enum,
    Other,
}

/// What the value attribute generates for a struct or enum: the names of
/// its reference type and slot value type, the reference types of its
/// traits with the functions that register them, and the slot updates of
/// its conversion and of its slot functions.
#[derive(Debug)]
pub struct ValuePlan {
    pub ref_ident: String,
    pub slot_value_type_ident: String,
    pub trait_refs: Vec<String>,
    pub trait_registrations: Vec<String>,
    pub into_update: Option<SlotUpdate>,
    pub slot_update: Option<SlotUpdate>,
}

/// The plan of the value attribute for `ident` with arguments `args`; none
/// for an item that is neither a struct nor an enum.
pub fn value_plan(kind: ItemKind, ident: &str, args: &ValueArguments) -> (r: Option<ValuePlan>)
    ensures
        r is None <==> kind == ItemKind::Other,
        r matches Some(p) ==> {
            &&& p.ref_ident@ == ident@ + "Ref"@
            &&& p.slot_value_type_ident@ == uppercase_of(ident@) + "_NODE_TYPE"@
            &&& strings_view(p.trait_refs@) == args@.traits.map_values(|t: Seq<char>| t + "Ref"@)
            &&& strings_view(p.trait_registrations@) == args@.traits.map_values(
                |t: Seq<char>| "__register_"@ + ident@ + "_"@ + t + "_trait_methods"@,
            )
            &&& p.into_update == slot_update_spec(args@.into_mode)
            &&& p.slot_update == slot_update_spec(args@.slot_mode)
        },
{
    if kind == ItemKind::Other {
        return None;
    }
    let mut trait_refs: Vec<String> = Vec::new();
    let mut trait_registrations: Vec<String> = Vec::new();
    let n = args.traits.len();
    for i in 0..n
        invariant
            n == args.traits@.len(),
            strings_view(trait_refs@) == args@.traits.take(i as int).map_values(|t: Seq<char>| t + "Ref"@),
            strings_view(trait_registrations@) == args@.traits.take(i as int).map_values(
                |t: Seq<char>| "__register_"@ + ident@ + "_"@ + t + "_trait_methods"@,
            ),
    {
        let t = args.traits[i].as_str();
        let ghost tr = trait_refs@;
        let ghost rg = trait_registrations@;
        trait_refs.push(get_ref_ident(t));
        trait_registrations.push(get_register_trait_methods_ident(t, ident));
        assert(args@.traits[i as int] == args.traits@[i as int]@);
        assert(args@.traits.take(i + 1) =~= args@.traits.take(i as int).push(args@.traits[i as int]));
        assert(strings_view(trait_refs@) =~= strings_view(tr).push(t@ + "Ref"@));
        assert(strings_view(trait_registrations@) =~= strings_view(rg).push("__register_"@ + ident@ + "_"@ + t@ + "_trait_methods"@));
        assert(strings_view(trait_refs@) =~= args@.traits.take(i + 1).map_values(|t: Seq<char>| t + "Ref"@));
        assert(strings_view(trait_registrations@) =~= args@.traits.take(i + 1).map_values(
            |t: Seq<char>| "__register_"@ + ident@ + "_"@ + t + "_trait_methods"@,
        ));
    }
    assert(args@.traits.take(n as int) =~= args@.traits);
    Some(ValuePlan {
        ref_ident: get_ref_ident(ident),
        slot_value_type_ident: get_slot_value_type_ident(ident),
        trait_refs,
        trait_registrations,
        into_update: slot_update(args.into_mode),
        slot_update: slot_update(args.slot_mode),
    })
}

/// A method of a trait given to the value_trait attribute: its name, its
/// inputs and whether it returns `()`.
#[derive(Debug)]
pub struct TraitMethodShape {
    pub ident: String,
    pub inputs: Vec<FnInput>,
    pub output: Option<TypeShape>,
}

/// The method that the trait's reference type gets: it calls the trait
/// method through the engine with `self` and its typed arguments, and
/// converts the result into the output type unless that is `()`.
#[derive(Debug)]
pub struct TraitCallPlan {
    pub method: String,
    pub typed_arguments: usize,
    pub converts_result: bool,
}

/// What the value_trait attribute generates: the names of the reference
/// type, of the marker type and of the trait type, and a method per trait
/// method.
#[derive(Debug)]
pub struct ValueTraitPlan {
    pub ref_ident: String,
    pub mod_ident: String,
    pub trait_type_ident: String,
    pub methods: Vec<TraitCallPlan>,
}

/// The number of typed inputs among `inputs`.
pub open spec fn typed_count(inputs: Seq<FnInput>) -> nat
    decreases inputs.len(),
{
    if inputs.len() == 0 {
        0
    } else {
        typed_count(inputs.drop_last()) + if inputs.last() is Typed {
            1nat
        } else {
            0nat
        }
    }
}

/// Whether a method with written output `output` returns `()`.
pub open spec fn returns_unit(output: Option<TypeShape>) -> bool {
    match output {
        Some(t) => is_empty_type_spec(t),
        None => true,
    }
}

fn count_typed(inputs: &Vec<FnInput>) -> (r: usize)
    ensures
        r == typed_count(inputs@),
{
    let mut c: usize = 0;
    let n = inputs.len();
    for i in 0..n
        invariant
            n == inputs@.len(),
            c == typed_count(inputs@.take(i as int)),
            c <= i,
    {
        assert(inputs@.take(i + 1).drop_last() =~= inputs@.take(i as int));
        match &inputs[i] {
            FnInput::Typed { .. } => {
                c = c + 1;
            },
            FnInput::Receiver { .. } => {},
        }
    }
    assert(inputs@.take(n as int) =~= inputs@);
    c
}

/// The plan of the value_trait attribute for trait `ident` with methods
/// `methods`.
pub fn value_trait_plan(ident: &str, methods: &Vec<TraitMethodShape>) -> (r: ValueTraitPlan)
    ensures
        r.ref_ident@ == ident@ + "Ref"@,
        r.mod_ident@ == ident@ + "TurboTasksMethods"@,
        r.trait_type_ident@ == uppercase_of(ident@) + "_TRAIT_TYPE"@,
        r.methods@.len() == methods@.len(),
        forall|i: int| #![trigger r.methods@[i]] 0 <= i < methods@.len() ==> {
            &&& r.methods@[i].method@ == methods@[i].ident@
            &&& r.methods@[i].typed_arguments == typed_count(methods@[i].inputs@)
            &&& r.methods@[i].converts_result == !returns_unit(methods@[i].output)
        },
{
    let mut plans: Vec<TraitCallPlan> = Vec::new();
    let n = methods.len();
    for i in 0..n
        invariant
            n == methods@.len(),
            plans@.len() == i,
            forall|j: int| #![trigger plans@[j]] 0 <= j < i ==> {
                &&& plans@[j].method@ == methods@[j].ident@
                &&& plans@[j].typed_arguments == typed_count(methods@[j].inputs@)
                &&& plans@[j].converts_result == !returns_unit(methods@[j].output)
            },
    {
        let m = &methods[i];
        let unit = match &m.output {
            Some(t) => is_empty_type(t),
            None => true,
        };
        plans.push(TraitCallPlan { method: m.ident.clone(), typed_arguments: count_typed(&m.inputs), converts_result: !unit });
    }
    ValueTraitPlan {
        ref_ident: get_ref_ident(ident),
        mod_ident: get_trait_mod_ident(ident),
        trait_type_ident: get_trait_type_ident(ident),
        methods: plans,
    }
}

/// How a constructor finds the slot it updates.
#[derive(Clone, Copy, Debug, PartialEq, Eq)]
pub enum SlotSelector {
    /// The next slot of the value's type, in call order.
    ByType,
    /// The slot under the key that the expression at this token range of
    /// the attribute gives.
    ByKey(Option<(usize, usize)>),
}

/// When a constructor leaves a slot as it is.
#[derive(Clone, Debug, PartialEq, Eq)]
pub enum SlotComparison {
    /// Never: the slot is always replaced.
    Never,
    /// Where the named method, given the inputs, says the value is equal.
    Method(String),
    /// Where every field equals the input of the same name.
    Fields,
    /// Where the value is the named variant with fields equal to the inputs.
    EnumVariant(Option<String>),
}

/// A slot comparison as a mathematical value.
pub enum SlotComparisonView {
    Never,
    Method(Seq<char>),
    Fields,
    EnumVariant(Option<Seq<char>>),
}

impl View for SlotComparison {
    type V = SlotComparisonView;

    open spec fn view(&self) -> SlotComparisonView {
        match self {
            SlotComparison::Never => SlotComparisonView::Never,
            SlotComparison::Method(n) => SlotComparisonView::Method(n@),
            SlotComparison::Fields => SlotComparisonView::Fields,
            SlotComparison::EnumVariant(n) => SlotComparisonView::EnumVariant(name_view(*n)),
        }
    }
}

/// A slot selector with its key range as integers.
pub open spec fn selector_view(s: SlotSelector) -> Option<Option<(int, int)>> {
    match s {
        SlotSelector::ByType => None,
        SlotSelector::ByKey(k) => Some(range_view(k)),
    }
}

/// The selector (none: by type; else the key's range) and the comparison
/// that a constructor attribute asks for.
pub open spec fn constructor_update_spec(c: ConstructorView) -> (Option<Option<(int, int)>>, SlotComparisonView) {
    match c {
        ConstructorView::Default => (None, SlotComparisonView::Never),
        ConstructorView::Compare(name) => (None, match name {
            Some(n) => SlotComparisonView::Method(n),
            None => SlotComparisonView::Fields,
        }),
        ConstructorView::KeyAndCompare(key, name) => (Some(key), match name {
            Some(n) => SlotComparisonView::Method(n),
            None => SlotComparisonView::Fields,
        }),
        ConstructorView::CompareEnum(name) => (None, SlotComparisonView::EnumVariant(name)),
        ConstructorView::KeyAndCompareEnum(key, name) => (Some(key), SlotComparisonView::EnumVariant(name)),
        ConstructorView::Key(key) => (Some(key), SlotComparisonView::Never),
    }
}

fn clone_name(n: &Option<String>) -> (r: Option<String>)
    ensures
        name_view(r) == name_view(*n),
{
    match n {
        Some(s) => Some(s.clone()),
        None => None,
    }
}

fn method_or_fields(n: &Option<String>) -> (r: SlotComparison)
    ensures
        r@ == (match name_view(*n) {
            Some(m) => SlotComparisonView::Method(m),
            None => SlotComparisonView::Fields,
        }),
{
    match n {
        Some(s) => SlotComparison::Method(s.clone()),
        None => SlotComparison::Fields,
    }
}

/// How a constructor generated by the value_impl attribute updates its
/// slot. A constructor that only names a key is not supported.
pub fn constructor_update(c: &Constructor) -> (r: (SlotSelector, SlotComparison))
    requires
        !(*c is Key),
    ensures
        (selector_view(r.0), r.1@) == constructor_update_spec(c@),
{
    match c {
        Constructor::Default => (SlotSelector::ByType, SlotComparison::Never),
        Constructor::Compare(name) => (SlotSelector::ByType, method_or_fields(name)),
        Constructor::KeyAndCompare(key, name) => (SlotSelector::ByKey(*key), method_or_fields(name)),
        Constructor::CompareEnum(name) => (SlotSelector::ByType, SlotComparison::EnumVariant(clone_name(name))),
        Constructor::KeyAndCompareEnum(key, name) => (SlotSelector::ByKey(*key), SlotComparison::EnumVariant(clone_name(name))),
        Constructor::Key(key) => (SlotSelector::ByKey(*key), SlotComparison::Never),
    }
}

/// An input of a constructor.
#[derive(Debug)]
pub enum ConstructorInput {
    /// `self` in any form; it is not passed on.
    Receiver,
    /// A plain name, and whether its type is a reference.
    Named { name: String, is_reference: bool },
    /// Any other pattern, as written.
    OtherPattern(String),
}

/// An argument of a constructor: its name, the name under which the value
/// in the slot holds it, and whether it is passed by reference (then it is
/// compared as it is, else by reference to it).
#[derive(Debug)]
pub struct ConstructorArg {
    pub name: String,
    pub old_name: String,
    pub by_reference: bool,
}

/// The arguments of the named inputs, in order, as (name, old name, by
/// reference).
pub open spec fn constructor_args_spec(inputs: Seq<ConstructorInput>) -> Seq<(Seq<char>, Seq<char>, bool)>
    decreases inputs.len(),
{
    if inputs.len() == 0 {
        Seq::empty()
    } else {
        let rest = constructor_args_spec(inputs.drop_last());
        match inputs.last() {
            ConstructorInput::Named { name, is_reference } => rest.push((name@, name@ + "_old"@, is_reference)),
            _ => rest,
        }
    }
}

/// The positions of the inputs whose pattern is not supported.
pub open spec fn unsupported_inputs_spec(inputs: Seq<ConstructorInput>) -> Seq<usize>
    decreases inputs.len(),
{
    if inputs.len() == 0 {
        Seq::empty()
    } else {
        let rest = unsupported_inputs_spec(inputs.drop_last());
        if inputs.last() is OtherPattern {
            rest.push((inputs.len() - 1) as usize)
        } else {
            rest
        }
    }
}

/// An argument as the triple of `constructor_args_spec`.
pub open spec fn arg_view(a: ConstructorArg) -> (Seq<char>, Seq<char>, bool) {
    (a.name@, a.old_name@, a.by_reference)
}

/// The arguments of a constructor, and the positions of the inputs whose
/// pattern it cannot take (each is reported as an error).
pub fn constructor_args(inputs: &Vec<ConstructorInput>) -> (r: (Vec<ConstructorArg>, Vec<usize>))
    ensures
        r.0@.map_values(|a: ConstructorArg| arg_view(a)) == constructor_args_spec(inputs@),
        r.1@ == unsupported_inputs_spec(inputs@),
{
    let mut args: Vec<ConstructorArg> = Vec::new();
    let mut errors: Vec<usize> = Vec::new();
    let n = inputs.len();
    for i in 0..n
        invariant
            n == inputs@.len(),
            args@.map_values(|a: ConstructorArg| arg_view(a)) == constructor_args_spec(inputs@.take(i as int)),
            errors@ == unsupported_inputs_spec(inputs@.take(i as int)),
    {
        let ghost t = inputs@.take(i + 1);
        assert(t.drop_last() =~= inputs@.take(i as int));
        assert(t.last() == inputs@[i as int]);
        let ghost before = args@.map_values(|a: ConstructorArg| arg_view(a));
        match &inputs[i] {
            ConstructorInput::Named { name, is_reference } => {
                let old_name = name.clone().concat("_old");
                args.push(ConstructorArg { name: name.clone(), old_name, by_reference: *is_reference });
                assert(args@.map_values(|a: ConstructorArg| arg_view(a)) =~= before.push((name@, name@ + "_old"@, *is_reference)));
            },
            ConstructorInput::OtherPattern(_) => {
                errors.push(i);
                assert(args@.map_values(|a: ConstructorArg| arg_view(a)) =~= before);
            },
            ConstructorInput::Receiver => {
                assert(args@.map_values(|a: ConstructorArg| arg_view(a)) =~= before);
            },
        }
    }
    assert(inputs@.take(n as int) =~= inputs@);
    (args, errors)
}

/// The number of constructors among the first `k` methods.
pub open spec fn constructors_before(is_constructor: Seq<bool>, k: int) -> nat
    decreases k,
{
    if k <= 0 {
        0
    } else {
        constructors_before(is_constructor, k - 1) + if is_constructor[k - 1] {
            1nat
        } else {
            0nat
        }
    }
}

/// The index of each constructor among the constructors of an
/// implementation block, which keys its interned inputs; none for the other
/// methods.
pub fn constructor_indices(is_constructor: &Vec<bool>) -> (r: Vec<Option<usize>>)
    ensures
        r@.len() == is_constructor@.len(),
        forall|i: int| #![trigger r@[i]] 0 <= i < r@.len() ==> r@[i] == if is_constructor@[i] {
            Some(constructors_before(is_constructor@, i) as usize)
        } else {
            None
        },
{
    let mut r: Vec<Option<usize>> = Vec::new();
    let mut count: usize = 0;
    let n = is_constructor.len();
    for i in 0..n
        invariant
            n == is_constructor@.len(),
            r@.len() == i,
            count == constructors_before(is_constructor@, i as int),
            count <= i,
            forall|j: int| #![trigger r@[j]] 0 <= j < i ==> r@[j] == if is_constructor@[j] {
                Some(constructors_before(is_constructor@, j) as usize)
            } else {
                None
            },
    {
        if is_constructor[i] {
            r.push(Some(count));
            count = count + 1;
        } else {
            r.push(None);
        }
    }
    r
}

/// The names that the trace derive binds the unnamed fields to: `_` for an
/// ignored field, else `tuple_item_<position>`.
pub open spec fn tuple_item_name(fields: Seq<FieldShape>, i: int) -> Seq<char> {
    if fields[i].trace_ignore {
        "_"@
    } else {
        "tuple_item_"@ + decimal(i as nat)
    }
}

/// The names of the unnamed fields of an enum variant in the trace derive.
pub fn tuple_item_names(fields: &Vec<FieldShape>) -> (r: Vec<String>)
    ensures
        r@.len() == fields@.len(),
        forall|i: int| #![trigger r@[i]] 0 <= i < r@.len() ==> r@[i]@ == tuple_item_name(fields@, i),
{
    let mut r: Vec<String> = Vec::new();
    let n = fields.len();
    for i in 0..n
        invariant
            n == fields@.len(),
            r@.len() == i,
            forall|j: int| #![trigger r@[j]] 0 <= j < i ==> r@[j]@ == tuple_item_name(fields@, j),
    {
        if fields[i].trace_ignore {
            r.push(String::from_str("_"));
        } else {
            let s = String::from_str("tuple_item_");
            let d = stringify_number(i as u64);
            r.push(s.concat(d.as_str()));
        }
    }
    r
}

/// The names that the value_impl attribute generates for a method of a
/// trait implementation: its native function, the function that keeps its
/// body, and the native function's display name `Struct::method`.
#[derive(Debug)]
pub struct TraitImplNames {
    pub function_ident: String,
    pub internal_function_ident: String,
    pub native_name: String,
}

/// The generated names of method `ident` of the implementation of trait
/// `trait_ident` for `struct_ident`.
pub fn trait_impl_names(trait_ident: &str, struct_ident: &str, ident: &str) -> (r: TraitImplNames)
    ensures
        r.function_ident@ == uppercase_of(struct_ident@) + "_IMPL_"@ + uppercase_of(ident@) + "_FUNCTION"@,
        r.internal_function_ident@ == "__trait_call_"@ + trait_ident@ + "_"@ + ident@,
        r.native_name@ == struct_ident@ + "::"@ + ident@,
{
    let name = String::from_str(struct_ident).concat("::").concat(ident);
    TraitImplNames {
        function_ident: get_trait_impl_function_ident(struct_ident, ident),
        internal_function_ident: get_internal_trait_impl_function_ident(trait_ident, ident),
        native_name: name,
    }
}

} // verus!

verus! {

/// An input that a native function takes from its argument list: `self`, or
/// an argument written with pattern `pat`.
#[derive(Clone, Debug)]
pub enum NativeInput {
    SelfArg,
    Named(String),
}

/// The number of named inputs among the first `k`.
pub open spec fn named_before(inputs: Seq<NativeInput>, k: int) -> nat
    decreases k,
{
    if k <= 0 {
        0
    } else {
        named_before(inputs, k - 1) + if inputs[k - 1] is Named {
            1nat
        } else {
            0nat
        }
    }
}

/// The error of a native function named `name` with inputs `inputs` that
/// is called with `given` arguments: for too few, the first input that is
/// missing (a named input by its position among the named ones, counted
/// from one, and its pattern); for too many, that there are too many.
pub open spec fn argument_error(name: Seq<char>, inputs: Seq<NativeInput>, given: nat) -> Option<Seq<char>> {
    if given < inputs.len() {
        Some(
            match inputs[given as int] {
                NativeInput::SelfArg => name + "() self argument missing"@,
                NativeInput::Named(pat) => name + "() argument "@ + decimal(named_before(inputs, given as int) + 1)
                    + " ("@ + pat@ + ") missing"@,
            },
        )
    } else if given > inputs.len() {
        Some(name + "() called with too many arguments"@)
    } else {
        None
    }
}

/// What a native function answers when it is called with `given`
/// arguments: `Ok` where the count matches its inputs, else the error text.
pub fn check_arguments(name: &str, inputs: &Vec<NativeInput>, given: usize) -> (r: Result<(), String>)
    ensures
        match r {
            Ok(()) => argument_error(name@, inputs@, given as nat) is None,
            Err(e) => argument_error(name@, inputs@, given as nat) == Some(e@),
        },
{
    let n = inputs.len();
    if given > n {
        return Err(String::from_str(name).concat("() called with too many arguments"));
    }
    if given == n {
        return Ok(());
    }
    let mut named: usize = 0;
    for i in 0..given
        invariant
            given < n,
            n == inputs@.len(),
            named == named_before(inputs@, i as int),
            named <= i,
    {
        match &inputs[i] {
            NativeInput::Named(_) => {
                named = named + 1;
            },
            NativeInput::SelfArg => {},
        }
    }
    match &inputs[given] {
        NativeInput::SelfArg => Err(String::from_str(name).concat("() self argument missing")),
        NativeInput::Named(pat) => {
            let s = String::from_str(name).concat("() argument ");
            let idx = stringify_number((named + 1) as u64);
            Err(s.concat(idx.as_str()).concat(" (").concat(pat.as_str()).concat(") missing"))
        },
    }
}

} // verus!
