//! Tidying the debug print of a syntax tree: the span markers are dropped
//! unless they are asked for, and indentation is halved from four spaces to
//! two.
use vstd::prelude::*;

verus! {

/// The regex crate's regular expression type.
#[verifier::external_type_specification]
#[verifier::external_body]
pub struct ExRegex(regex::Regex);

/// A compiled regular expression together with the pattern it was compiled
/// from.
pub struct CompiledPattern {
    re: regex::Regex,
    source: String,
}

impl View for CompiledPattern {
    type V = Seq<char>;

    closed spec fn view(&self) -> Seq<char> {
        self.source@
    }
}

/// Whether `regex::Regex::new` accepts `pattern` (a valid pattern within the
/// default size limit).
pub uninterp spec fn regex_compiles(pattern: Seq<char>) -> bool;

/// What `regex::Regex::replace_all` with a `NoExpand` replacement gives for
/// `pattern` on `text`: every non-overlapping match replaced by
/// `replacement` taken literally.
pub uninterp spec fn regex_replace_all(pattern: Seq<char>, text: Seq<char>, replacement: Seq<char>) -> Seq<char>;

/// `regex::Regex::new`: a compiled pattern where the crate accepts the
/// pattern, none where it returns its error.
#[verifier::external_body]
fn compile_pattern(pattern: &str) -> (r: Option<CompiledPattern>)
    ensures
        r is Some <==> regex_compiles(pattern@),
        r matches Some(p) ==> p@ == pattern@,
{
    match regex::Regex::new(pattern) {
        Ok(re) => Some(CompiledPattern { re, source: pattern.to_string() }),
        Err(_) => None,
    }
}

/// `regex::Regex::replace_all` with `regex::NoExpand(replacement)`, turned
/// into an owned string.
#[verifier::external_body]
fn replace_all_literal(re: &CompiledPattern, text: &str, replacement: &str) -> (r: String)
    ensures
        r@ == regex_replace_all(re@, text@, replacement@),
{
    re.re.replace_all(text, regex::NoExpand(replacement)).to_string()
}

/// A line of the debug print that holds only a span marker, with its line
/// break.
pub const SPAN_LINE_PATTERN: &'static str = r"(?m)^\s+span: Span \{[^}]*\},\n";

/// One level of the debug print's indentation.
pub const INDENT_PATTERN: &'static str = r" {4}";

/// The tidied print: without span lines unless `spans`, then with each run
/// of four spaces written as two.
pub open spec fn tidy_ast_dump_spec(print: Seq<char>, spans: bool) -> Seq<char> {
    let stripped = if spans {
        print
    } else {
        regex_replace_all(SPAN_LINE_PATTERN@, print, ""@)
    };
    regex_replace_all(INDENT_PATTERN@, stripped, "  "@)
}

/// Tidies the debug print of a syntax tree. Gives none where a pattern that
/// is needed does not compile.
pub fn tidy_ast_dump(print: &str, spans: bool) -> (r: Option<String>)
    ensures
        r is Some <==> ((spans || regex_compiles(SPAN_LINE_PATTERN@)) && regex_compiles(INDENT_PATTERN@)),
        r matches Some(s) ==> s@ == tidy_ast_dump_spec(print@, spans),
{
    let stripped = if spans {
        String::from_str(print)
    } else {
        match compile_pattern(SPAN_LINE_PATTERN) {
            Some(span) => replace_all_literal(&span, print, ""),
            None => {
                return None;
            },
        }
    };
    match compile_pattern(INDENT_PATTERN) {
        Some(ws) => Some(replace_all_literal(&ws, stripped.as_str(), "  ")),
        None => None,
    }
}

} // verus!
