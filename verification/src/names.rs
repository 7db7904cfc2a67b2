//! The names of the items that the value, trait and function attributes
//! generate, derived from the names that the user wrote.
use vstd::prelude::*;

verus! {

/// The text of `s` with every character mapped to upper case, as
/// `str::to_uppercase` does it.
pub uninterp spec fn uppercase_of(s: Seq<char>) -> Seq<char>;

/// `str::to_uppercase`: the result is the upper-case mapping of the text,
/// which this item names and does not spell out (it follows the Unicode
/// tables).
#[verifier::external_body]
fn to_uppercase(s: &str) -> (r: String)
    ensures
        r@ == uppercase_of(s@),
{
    s.to_uppercase()
}

/// The concatenation of two strings.
fn concat(a: &str, b: &str) -> (r: String)
    ensures
        r@ == a@ + b@,
{
    let r = String::from_str(a);
    r.concat(b)
}

/// The name of the reference type of a value: `ident` followed by `Ref`.
pub fn get_ref_ident(ident: &str) -> (r: String)
    ensures
        r@ == ident@ + "Ref"@,
{
    concat(ident, "Ref")
}

/// The name under which a function's own body is kept: `ident_inline`.
pub fn get_internal_function_ident(ident: &str) -> (r: String)
    ensures
        r@ == ident@ + "_inline"@,
{
    concat(ident, "_inline")
}

/// The name of the body of a trait method implementation:
/// `__trait_call_<trait>_<method>`.
pub fn get_internal_trait_impl_function_ident(trait_ident: &str, ident: &str) -> (r: String)
    ensures
        r@ == "__trait_call_"@ + trait_ident@ + "_"@ + ident@,
{
    let a = concat("__trait_call_", trait_ident);
    let b = a.concat("_");
    b.concat(ident)
}

/// The name of the marker struct of a trait: `<ident>TurboTasksMethods`.
pub fn get_trait_mod_ident(ident: &str) -> (r: String)
    ensures
        r@ == ident@ + "TurboTasksMethods"@,
{
    concat(ident, "TurboTasksMethods")
}

/// The name of the slot value type of a value: its name in upper case
/// followed by `_NODE_TYPE`.
pub fn get_slot_value_type_ident(ident: &str) -> (r: String)
    ensures
        r@ == uppercase_of(ident@) + "_NODE_TYPE"@,
{
    to_uppercase(ident).concat("_NODE_TYPE")
}

/// The name of the trait type of a trait: its name in upper case followed by
/// `_TRAIT_TYPE`.
pub fn get_trait_type_ident(ident: &str) -> (r: String)
    ensures
        r@ == uppercase_of(ident@) + "_TRAIT_TYPE"@,
{
    to_uppercase(ident).concat("_TRAIT_TYPE")
}

/// The name of the function that registers the methods of a trait
/// implementation: `__register_<struct>_<trait>_trait_methods`.
pub fn get_register_trait_methods_ident(trait_ident: &str, struct_ident: &str) -> (r: String)
    ensures
        r@ == "__register_"@ + struct_ident@ + "_"@ + trait_ident@ + "_trait_methods"@,
{
    let a = concat("__register_", struct_ident);
    let b = a.concat("_");
    let c = b.concat(trait_ident);
    c.concat("_trait_methods")
}

/// The name of the native function of a function: its name in upper case
/// followed by `_FUNCTION`.
pub fn get_function_ident(ident: &str) -> (r: String)
    ensures
        r@ == uppercase_of(ident@) + "_FUNCTION"@,
{
    to_uppercase(ident).concat("_FUNCTION")
}

/// The name of the native function of a method implementation:
/// `<STRUCT>_IMPL_<METHOD>_FUNCTION`.
pub fn get_trait_impl_function_ident(struct_ident: &str, ident: &str) -> (r: String)
    ensures
        r@ == uppercase_of(struct_ident@) + "_IMPL_"@ + uppercase_of(ident@) + "_FUNCTION"@,
{
    let a = to_uppercase(struct_ident).concat("_IMPL_");
    let u = to_uppercase(ident);
    let b = a.concat(u.as_str());
    b.concat("_FUNCTION")
}

/// Whether `s` ends with `suffix`.
pub fn ends_with(s: &str, suffix: &str) -> (r: bool)
    ensures
        r == (suffix@.len() <= s@.len() && s@.subrange(s@.len() - suffix@.len(), s@.len() as int) == suffix@),
{
    let n = s.unicode_len();
    let k = suffix.unicode_len();
    if k > n {
        return false;
    }
    let mut i: usize = 0;
    while i < k
        invariant
            n == s@.len(),
            k == suffix@.len(),
            k <= n,
            i <= k,
            forall|j: int| 0 <= j < i ==> s@[n - k + j] == suffix@[j],
        decreases k - i,
    {
        if s.get_char(n - k + i) != suffix.get_char(i) {
            assert(s@.subrange(n - k, n as int)[i as int] != suffix@[i as int]);
            return false;
        }
        i = i + 1;
    }
    assert(s@.subrange(n - k, n as int) =~= suffix@);
    true
}

} // verus!
