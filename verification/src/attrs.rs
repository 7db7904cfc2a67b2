//! The arguments of the value attribute and of the constructor attribute,
//! read from the tokens that the user wrote.
use vstd::prelude::*;

verus! {

/// A token of an attribute's arguments.
#[derive(Debug)]
pub enum AttrToken {
    Ident(String),
    Colon,
    Comma,
    Plus,
    /// A parenthesized group and the tokens inside it.
    Parens(Vec<AttrToken>),
    /// Any other token (a literal or other punctuation).
    Other,
}

/// A token as a mathematical value.
pub enum AttrTokenView {
    Ident(Seq<char>),
    Colon,
    Comma,
    Plus,
    Parens(Seq<AttrTokenView>),
    Other,
}

/// The tokens of a list as mathematical values.
pub open spec fn tokens_view(ts: Seq<AttrToken>) -> Seq<AttrTokenView>
    decreases ts, 1nat,
{
    Seq::new(ts.len(), |i: int| token_view_at(ts, i))
}

/// The token at position `i` as a mathematical value.
pub open spec fn token_view_at(ts: Seq<AttrToken>, i: int) -> AttrTokenView
    decreases ts, 0nat,
{
    if 0 <= i < ts.len() {
        match ts[i] {
            AttrToken::Ident(s) => AttrTokenView::Ident(s@),
            AttrToken::Colon => AttrTokenView::Colon,
            AttrToken::Comma => AttrTokenView::Comma,
            AttrToken::Plus => AttrTokenView::Plus,
            AttrToken::Parens(inner) => AttrTokenView::Parens(tokens_view(inner@)),
            AttrToken::Other => AttrTokenView::Other,
        }
    } else {
        AttrTokenView::Other
    }
}

/// How a value is placed into a slot, or converted into its reference.
#[derive(Clone, Copy, PartialEq, Eq, Structural, Debug)]
pub enum IntoMode {
    /// Nothing is generated (the word `none`).
    Omitted,
    New,
    Shared,
    Value,
}

/// Why the arguments of an attribute could not be read.
#[derive(Debug)]
pub enum AttrError {
    /// An identifier was expected.
    ExpectedIdent,
    /// `:` was expected.
    ExpectedColon,
    /// `,` or the end of the arguments was expected.
    ExpectedCommaOrEnd,
    /// The arguments of the constructor attribute must be parenthesized.
    ExpectedParens,
    /// The word is not one of `none`, `new`, `shared` or `value`.
    UnexpectedMode(String),
    /// The word is not one of `key`, `compare` or `compare_enum`.
    UnexpectedConstructorArg(String),
    /// `compare` or `compare_enum` follows an argument it cannot follow.
    CompareCombined,
    /// `key` follows an argument it cannot follow.
    KeyCombined,
    /// `key:` is followed by no expression.
    ExpectedExpr,
    /// Tokens follow the parenthesized arguments.
    UnexpectedToken,
}

/// A reason of failure as a mathematical value.
pub enum AttrErrorView {
    ExpectedIdent,
    ExpectedColon,
    ExpectedCommaOrEnd,
    ExpectedParens,
    UnexpectedMode(Seq<char>),
    UnexpectedConstructorArg(Seq<char>),
    CompareCombined,
    KeyCombined,
    ExpectedExpr,
    UnexpectedToken,
}

impl View for AttrError {
    type V = AttrErrorView;

    open spec fn view(&self) -> AttrErrorView {
        match self {
            AttrError::ExpectedIdent => AttrErrorView::ExpectedIdent,
            AttrError::ExpectedColon => AttrErrorView::ExpectedColon,
            AttrError::ExpectedCommaOrEnd => AttrErrorView::ExpectedCommaOrEnd,
            AttrError::ExpectedParens => AttrErrorView::ExpectedParens,
            AttrError::UnexpectedMode(s) => AttrErrorView::UnexpectedMode(s@),
            AttrError::UnexpectedConstructorArg(s) => AttrErrorView::UnexpectedConstructorArg(s@),
            AttrError::CompareCombined => AttrErrorView::CompareCombined,
            AttrError::KeyCombined => AttrErrorView::KeyCombined,
            AttrError::ExpectedExpr => AttrErrorView::ExpectedExpr,
            AttrError::UnexpectedToken => AttrErrorView::UnexpectedToken,
        }
    }
}

/// The message of a failure, as the attribute's reader reports it.
pub open spec fn attr_error_message(e: AttrErrorView) -> Seq<char> {
    match e {
        AttrErrorView::ExpectedIdent => "expected identifier"@,
        AttrErrorView::ExpectedColon => "expected `:`"@,
        AttrErrorView::ExpectedCommaOrEnd => "expected \",\" or end of attribute"@,
        AttrErrorView::ExpectedParens => "expected parentheses"@,
        AttrErrorView::UnexpectedMode(w) => "unexpected "@ + w + ", expected \"none\", \"new\", \"shared\" or \"value\""@,
        AttrErrorView::UnexpectedConstructorArg(w) => "unexpected "@ + w
            + ", expected \"key\", \"compare\" or \"compare_enum\""@,
        AttrErrorView::CompareCombined => "\"compare\" can't be combined with previous values"@,
        AttrErrorView::KeyCombined => "\"key\" can't be combined with previous values"@,
        AttrErrorView::ExpectedExpr => "expected expression"@,
        AttrErrorView::UnexpectedToken => "unexpected token"@,
    }
}

impl AttrError {
    /// The message of the failure, as the attribute's reader reports it.
    pub fn message(&self) -> (r: String)
        ensures
            r@ == attr_error_message(self@),
    {
        match self {
            AttrError::ExpectedIdent => String::from_str("expected identifier"),
            AttrError::ExpectedColon => String::from_str("expected `:`"),
            AttrError::ExpectedCommaOrEnd => String::from_str("expected \",\" or end of attribute"),
            AttrError::ExpectedParens => String::from_str("expected parentheses"),
            AttrError::UnexpectedMode(w) => String::from_str("unexpected ").concat(w.as_str()).concat(
                ", expected \"none\", \"new\", \"shared\" or \"value\"",
            ),
            AttrError::UnexpectedConstructorArg(w) => String::from_str("unexpected ").concat(w.as_str()).concat(
                ", expected \"key\", \"compare\" or \"compare_enum\"",
            ),
            AttrError::CompareCombined => String::from_str("\"compare\" can't be combined with previous values"),
            AttrError::KeyCombined => String::from_str("\"key\" can't be combined with previous values"),
            AttrError::ExpectedExpr => String::from_str("expected expression"),
            AttrError::UnexpectedToken => String::from_str("unexpected token"),
        }
    }
}

/// Whether `s` is the word `w`.
fn word_is(s: &String, w: &str) -> (r: bool)
    ensures
        r == (s@ == w@),
{
    let t = String::from_str(w);
    *s == t
}

/// The mode named by the word at `pos`.
pub open spec fn mode_at(ts: Seq<AttrTokenView>, pos: int) -> Result<IntoMode, AttrErrorView> {
    if 0 <= pos < ts.len() {
        match ts[pos] {
            AttrTokenView::Ident(w) => if w == "none"@ {
                Ok(IntoMode::Omitted)
            } else if w == "new"@ {
                Ok(IntoMode::New)
            } else if w == "shared"@ {
                Ok(IntoMode::Shared)
            } else if w == "value"@ {
                Ok(IntoMode::Value)
            } else {
                Err(AttrErrorView::UnexpectedMode(w))
            },
            _ => Err(AttrErrorView::ExpectedIdent),
        }
    } else {
        Err(AttrErrorView::ExpectedIdent)
    }
}

impl IntoMode {
    /// Reads a mode, `none`, `new`, `shared` or `value`, from the token at
    /// `pos`.
    pub fn parse(ts: &Vec<AttrToken>, pos: usize) -> (r: Result<IntoMode, AttrError>)
        ensures
            match r {
                Ok(m) => mode_at(tokens_view(ts@), pos as int) == Ok::<IntoMode, AttrErrorView>(m),
                Err(e) => mode_at(tokens_view(ts@), pos as int) == Err::<IntoMode, AttrErrorView>(e@),
            },
    {
        if pos >= ts.len() {
            return Err(AttrError::ExpectedIdent);
        }
        assert(tokens_view(ts@)[pos as int] == token_view_at(ts@, pos as int));
        match &ts[pos] {
            AttrToken::Ident(w) => {
                if word_is(w, "none") {
                    Ok(IntoMode::Omitted)
                } else if word_is(w, "new") {
                    Ok(IntoMode::New)
                } else if word_is(w, "shared") {
                    Ok(IntoMode::Shared)
                } else if word_is(w, "value") {
                    Ok(IntoMode::Value)
                } else {
                    Err(AttrError::UnexpectedMode(w.clone()))
                }
            },
            _ => Err(AttrError::ExpectedIdent),
        }
    }
}

/// The arguments of the value attribute: the traits that the value
/// implements and how it is converted into its reference and into a slot.
#[derive(Debug)]
pub struct ValueArguments {
    pub traits: Vec<String>,
    pub into_mode: IntoMode,
    pub slot_mode: IntoMode,
}

/// The arguments of the value attribute as mathematical values.
pub struct ValueArgumentsView {
    pub traits: Seq<Seq<char>>,
    pub into_mode: IntoMode,
    pub slot_mode: IntoMode,
}

/// The names of a list of strings.
pub open spec fn strings_view(v: Seq<String>) -> Seq<Seq<char>> {
    v.map_values(|s: String| s@)
}

impl View for ValueArguments {
    type V = ValueArgumentsView;

    open spec fn view(&self) -> ValueArgumentsView {
        ValueArgumentsView {
            traits: strings_view(self.traits@),
            into_mode: self.into_mode,
            slot_mode: self.slot_mode,
        }
    }
}

/// The arguments when none are given: no traits, no conversion, shared slots.
pub open spec fn default_value_args() -> ValueArgumentsView {
    ValueArgumentsView { traits: Seq::empty(), into_mode: IntoMode::Omitted, slot_mode: IntoMode::Shared }
}

/// Reads the arguments from the item at `pos` on, `acc` holding what was read
/// before it.
pub open spec fn va_items(ts: Seq<AttrTokenView>, pos: int, acc: ValueArgumentsView) -> Result<
    ValueArgumentsView,
    AttrErrorView,
>
    decreases ts.len() - pos, 2nat,
{
    if !(0 <= pos < ts.len()) {
        Err(AttrErrorView::ExpectedIdent)
    } else {
        match ts[pos] {
            AttrTokenView::Ident(w) => if w == "value"@ {
                va_next(ts, pos + 1, ValueArgumentsView { into_mode: IntoMode::Value, slot_mode: IntoMode::Value, ..acc })
            } else if w == "shared"@ {
                va_next(ts, pos + 1, ValueArgumentsView { into_mode: IntoMode::Shared, slot_mode: IntoMode::Shared, ..acc })
            } else if w == "into"@ || w == "slot"@ {
                if pos + 1 < ts.len() && ts[pos + 1] is Colon {
                    match mode_at(ts, pos + 2) {
                        Ok(md) => if w == "into"@ {
                            va_next(ts, pos + 3, ValueArgumentsView { into_mode: md, ..acc })
                        } else {
                            va_next(ts, pos + 3, ValueArgumentsView { slot_mode: md, ..acc })
                        },
                        Err(e) => Err(e),
                    }
                } else {
                    Err(AttrErrorView::ExpectedColon)
                }
            } else {
                va_plus(ts, pos + 1, ValueArgumentsView { traits: acc.traits.push(w), ..acc })
            },
            _ => Err(AttrErrorView::ExpectedIdent),
        }
    }
}

/// After an item: the end, or `,` and the next item.
pub open spec fn va_next(ts: Seq<AttrTokenView>, pos: int, acc: ValueArgumentsView) -> Result<
    ValueArgumentsView,
    AttrErrorView,
>
    decreases ts.len() - pos, 0nat,
{
    if pos >= ts.len() {
        Ok(acc)
    } else if pos >= 0 && ts[pos] is Comma {
        va_items(ts, pos + 1, acc)
    } else {
        Err(AttrErrorView::ExpectedCommaOrEnd)
    }
}

/// After a trait name: more trait names joined by `+`.
pub open spec fn va_plus(ts: Seq<AttrTokenView>, pos: int, acc: ValueArgumentsView) -> Result<
    ValueArgumentsView,
    AttrErrorView,
>
    decreases ts.len() - pos, 1nat,
{
    if 0 <= pos < ts.len() && ts[pos] is Plus {
        if pos + 1 < ts.len() && ts[pos + 1] is Ident {
            va_plus(ts, pos + 2, ValueArgumentsView { traits: acc.traits.push(ts[pos + 1]->Ident_0), ..acc })
        } else {
            Err(AttrErrorView::ExpectedIdent)
        }
    } else {
        va_next(ts, pos, acc)
    }
}

/// The arguments that the tokens `ts` give.
pub open spec fn value_args_of(ts: Seq<AttrTokenView>) -> Result<ValueArgumentsView, AttrErrorView> {
    if ts.len() == 0 {
        Ok(default_value_args())
    } else {
        va_items(ts, 0, default_value_args())
    }
}

/// Whether `r` is the result that `spec` describes.
pub open spec fn value_args_result(r: Result<ValueArguments, AttrError>, spec: Result<ValueArgumentsView, AttrErrorView>) -> bool {
    match r {
        Ok(a) => spec == Ok::<ValueArgumentsView, AttrErrorView>(a@),
        Err(e) => spec == Err::<ValueArgumentsView, AttrErrorView>(e@),
    }
}

impl ValueArguments {
    /// Reads the arguments of the value attribute: items separated by `,`,
    /// each `value`, `shared`, `into: <mode>`, `slot: <mode>`, or trait names
    /// joined by `+`.
    pub fn parse(ts: &Vec<AttrToken>) -> (r: Result<ValueArguments, AttrError>)
        ensures
            value_args_result(r, value_args_of(tokens_view(ts@))),
    {
        let ghost tv = tokens_view(ts@);
        let mut acc = ValueArguments { traits: Vec::new(), into_mode: IntoMode::Omitted, slot_mode: IntoMode::Shared };
        proof {
            assert(strings_view(acc.traits@) =~= Seq::empty());
        }
        let n = ts.len();
        if n == 0 {
            return Ok(acc);
        }
        let mut pos: usize = 0;
        loop
            invariant
                n == ts@.len(),
                tv == tokens_view(ts@),
                pos <= n,
                value_args_of(tv) == va_items(tv, pos as int, acc@),
            decreases n - pos,
        {
            if pos >= n {
                return Err(AttrError::ExpectedIdent);
            }
            assert(tv[pos as int] == token_view_at(ts@, pos as int));
            match &ts[pos] {
                AttrToken::Ident(w) => {
                    if word_is(w, "value") {
                        acc.into_mode = IntoMode::Value;
                        acc.slot_mode = IntoMode::Value;
                        pos = pos + 1;
                    } else if word_is(w, "shared") {
                        acc.into_mode = IntoMode::Shared;
                        acc.slot_mode = IntoMode::Shared;
                        pos = pos + 1;
                    } else if word_is(w, "into") || word_is(w, "slot") {
                        let is_into = word_is(w, "into");
                        let colon = pos + 1 < n && match &ts[pos + 1] {
                            AttrToken::Colon => true,
                            _ => false,
                        };
                        proof {
                            if pos + 1 < n {
                                assert(tv[pos + 1] == token_view_at(ts@, pos + 1));
                            }
                        }
                        if !colon {
                            return Err(AttrError::ExpectedColon);
                        }
                        match IntoMode::parse(ts, pos + 2) {
                            Ok(md) => {
                                if is_into {
                                    acc.into_mode = md;
                                } else {
                                    acc.slot_mode = md;
                                }
                                pos = pos + 3;
                            },
                            Err(e) => {
                                return Err(e);
                            },
                        }
                    } else {
                        let ghost before = acc@;
                        acc.traits.push(w.clone());
                        proof {
                            assert(strings_view(acc.traits@) =~= before.traits.push(w@));
                        }
                        pos = pos + 1;
                        let ghost p0 = pos;
                        loop
                            invariant
                                p0 <= pos,
                                n == ts@.len(),
                                tv == tokens_view(ts@),
                                pos <= n,
                                value_args_of(tv) == va_plus(tv, pos as int, acc@),
                            ensures
                                p0 <= pos <= n,
                                value_args_of(tv) == va_next(tv, pos as int, acc@),
                            decreases n - pos,
                        {
                            let plus = pos < n && match &ts[pos] {
                                AttrToken::Plus => true,
                                _ => false,
                            };
                            proof {
                                if pos < n {
                                    assert(tv[pos as int] == token_view_at(ts@, pos as int));
                                }
                            }
                            if !plus {
                                break;
                            }
                            if pos + 1 >= n {
                                return Err(AttrError::ExpectedIdent);
                            }
                            assert(tv[pos + 1] == token_view_at(ts@, pos + 1));
                            match &ts[pos + 1] {
                                AttrToken::Ident(w2) => {
                                    let ghost before2 = acc@;
                                    acc.traits.push(w2.clone());
                                    proof {
                                        assert(strings_view(acc.traits@) =~= before2.traits.push(w2@));
                                    }
                                    pos = pos + 2;
                                },
                                _ => {
                                    return Err(AttrError::ExpectedIdent);
                                },
                            }
                        }
                    }
                },
                _ => {
                    return Err(AttrError::ExpectedIdent);
                },
            }
            if pos >= n {
                return Ok(acc);
            }
            assert(tv[pos as int] == token_view_at(ts@, pos as int));
            match &ts[pos] {
                AttrToken::Comma => {
                    pos = pos + 1;
                },
                _ => {
                    return Err(AttrError::ExpectedCommaOrEnd);
                },
            }
        }
    }
}

/// The arguments of the constructor attribute: whether a new value is
/// compared with the slot's current one before it replaces it, by which
/// method, and the key expression (as a range of positions in the
/// parenthesized tokens) that selects the slot.
#[derive(Debug)]
pub enum Constructor {
    Default,
    Compare(Option<String>),
    CompareEnum(Option<String>),
    KeyAndCompare(Option<(usize, usize)>, Option<String>),
    KeyAndCompareEnum(Option<(usize, usize)>, Option<String>),
    Key(Option<(usize, usize)>),
}

/// The arguments of the constructor attribute as mathematical values.
pub enum ConstructorView {
    Default,
    Compare(Option<Seq<char>>),
    CompareEnum(Option<Seq<char>>),
    KeyAndCompare(Option<(int, int)>, Option<Seq<char>>),
    KeyAndCompareEnum(Option<(int, int)>, Option<Seq<char>>),
    Key(Option<(int, int)>),
}

/// An optional name as a mathematical value.
pub open spec fn name_view(n: Option<String>) -> Option<Seq<char>> {
    match n {
        Some(s) => Some(s@),
        None => None,
    }
}

/// An optional range as a pair of integers.
pub open spec fn range_view(r: Option<(usize, usize)>) -> Option<(int, int)> {
    match r {
        Some(p) => Some((p.0 as int, p.1 as int)),
        None => None,
    }
}

impl View for Constructor {
    type V = ConstructorView;

    open spec fn view(&self) -> ConstructorView {
        match self {
            Constructor::Default => ConstructorView::Default,
            Constructor::Compare(n) => ConstructorView::Compare(name_view(*n)),
            Constructor::CompareEnum(n) => ConstructorView::CompareEnum(name_view(*n)),
            Constructor::KeyAndCompare(k, n) => ConstructorView::KeyAndCompare(range_view(*k), name_view(*n)),
            Constructor::KeyAndCompareEnum(k, n) => ConstructorView::KeyAndCompareEnum(range_view(*k), name_view(*n)),
            Constructor::Key(k) => ConstructorView::Key(range_view(*k)),
        }
    }
}

/// Adds a `compare` (or `compare_enum`) argument to what was read before.
pub open spec fn combine_compare(acc: ConstructorView, is_enum: bool, name: Option<Seq<char>>) -> Result<ConstructorView, AttrErrorView> {
    match acc {
        ConstructorView::Default => if is_enum {
            Ok(ConstructorView::CompareEnum(name))
        } else {
            Ok(ConstructorView::Compare(name))
        },
        ConstructorView::Key(k) => if is_enum {
            Ok(ConstructorView::KeyAndCompareEnum(k, name))
        } else {
            Ok(ConstructorView::KeyAndCompare(k, name))
        },
        _ => Err(AttrErrorView::CompareCombined),
    }
}

/// Adds a `key` argument to what was read before.
pub open spec fn combine_key(acc: ConstructorView, key: Option<(int, int)>) -> Result<ConstructorView, AttrErrorView> {
    match acc {
        ConstructorView::Default => Ok(ConstructorView::Key(key)),
        ConstructorView::Compare(n) => Ok(ConstructorView::KeyAndCompare(key, n)),
        _ => Err(AttrErrorView::KeyCombined),
    }
}

/// The position of the first `,` at or after `from`, or the end.
pub open spec fn expr_end(c: Seq<AttrTokenView>, from: int) -> int
    decreases c.len() - from,
{
    if from >= c.len() || from < 0 {
        c.len() as int
    } else if c[from] is Comma {
        from
    } else {
        expr_end(c, from + 1)
    }
}

proof fn lemma_expr_end(c: Seq<AttrTokenView>, from: int)
    requires
        0 <= from <= c.len(),
    ensures
        from <= expr_end(c, from) <= c.len(),
        expr_end(c, from) < c.len() ==> c[expr_end(c, from)] is Comma,
        forall|i: int| from <= i < expr_end(c, from) ==> !(c[i] is Comma),
    decreases c.len() - from,
{
    if from < c.len() && !(c[from] is Comma) {
        lemma_expr_end(c, from + 1);
    }
}

/// Reads the constructor arguments from the item at `pos` on.
pub open spec fn ctor_items(c: Seq<AttrTokenView>, pos: int, acc: ConstructorView) -> Result<ConstructorView, AttrErrorView>
    decreases c.len() - pos, 1nat,
{
    if !(0 <= pos < c.len()) {
        Err(AttrErrorView::ExpectedIdent)
    } else {
        match c[pos] {
            AttrTokenView::Ident(w) => if w == "compare"@ || w == "compare_enum"@ {
                let en = w == "compare_enum"@;
                if pos + 1 < c.len() && c[pos + 1] is Colon {
                    if pos + 2 < c.len() && c[pos + 2] is Ident {
                        match combine_compare(acc, en, Some(c[pos + 2]->Ident_0)) {
                            Ok(a) => ctor_next(c, pos + 3, a),
                            Err(e) => Err(e),
                        }
                    } else {
                        Err(AttrErrorView::ExpectedIdent)
                    }
                } else {
                    match combine_compare(acc, en, None) {
                        Ok(a) => ctor_next(c, pos + 1, a),
                        Err(e) => Err(e),
                    }
                }
            } else if w == "key"@ {
                if pos + 1 < c.len() && c[pos + 1] is Colon {
                    let e = expr_end(c, pos + 2);
                    if e <= pos + 2 || e > c.len() {
                        Err(AttrErrorView::ExpectedExpr)
                    } else {
                        match combine_key(acc, Some((pos + 2, e))) {
                            Ok(a) => ctor_next(c, e, a),
                            Err(er) => Err(er),
                        }
                    }
                } else {
                    match combine_key(acc, None) {
                        Ok(a) => ctor_next(c, pos + 1, a),
                        Err(e) => Err(e),
                    }
                }
            } else {
                Err(AttrErrorView::UnexpectedConstructorArg(w))
            },
            _ => Err(AttrErrorView::ExpectedIdent),
        }
    }
}

/// After a constructor argument: the end, or `,` and the next argument.
pub open spec fn ctor_next(c: Seq<AttrTokenView>, pos: int, acc: ConstructorView) -> Result<ConstructorView, AttrErrorView>
    decreases c.len() - pos, 0nat,
{
    if pos >= c.len() {
        Ok(acc)
    } else if pos >= 0 && c[pos] is Comma {
        ctor_items(c, pos + 1, acc)
    } else {
        Err(AttrErrorView::ExpectedCommaOrEnd)
    }
}

/// The constructor arguments that the tokens `ts` give.
pub open spec fn constructor_of(ts: Seq<AttrTokenView>) -> Result<ConstructorView, AttrErrorView> {
    if ts.len() == 0 {
        Ok(ConstructorView::Default)
    } else {
        match ts[0] {
            AttrTokenView::Parens(c) => if ts.len() > 1 {
                Err(AttrErrorView::UnexpectedToken)
            } else {
                ctor_items(c, 0, ConstructorView::Default)
            },
            _ => Err(AttrErrorView::ExpectedParens),
        }
    }
}

/// Whether `r` is the result that `spec` describes.
pub open spec fn constructor_result(r: Result<Constructor, AttrError>, spec: Result<ConstructorView, AttrErrorView>) -> bool {
    match r {
        Ok(a) => spec == Ok::<ConstructorView, AttrErrorView>(a@),
        Err(e) => spec == Err::<ConstructorView, AttrErrorView>(e@),
    }
}

fn combine_compare_exec(acc: Constructor, is_enum: bool, name: Option<String>) -> (r: Result<Constructor, AttrError>)
    ensures
        constructor_result(r, combine_compare(acc@, is_enum, name_view(name))),
{
    match acc {
        Constructor::Default => if is_enum {
            Ok(Constructor::CompareEnum(name))
        } else {
            Ok(Constructor::Compare(name))
        },
        Constructor::Key(k) => if is_enum {
            Ok(Constructor::KeyAndCompareEnum(k, name))
        } else {
            Ok(Constructor::KeyAndCompare(k, name))
        },
        _ => Err(AttrError::CompareCombined),
    }
}

fn combine_key_exec(acc: Constructor, key: Option<(usize, usize)>) -> (r: Result<Constructor, AttrError>)
    ensures
        constructor_result(r, combine_key(acc@, range_view(key))),
{
    match acc {
        Constructor::Default => Ok(Constructor::Key(key)),
        Constructor::Compare(n) => Ok(Constructor::KeyAndCompare(key, n)),
        _ => Err(AttrError::KeyCombined),
    }
}

fn is_comma(t: &AttrToken) -> (r: bool)
    ensures
        r == (t is Comma),
{
    match t {
        AttrToken::Comma => true,
        _ => false,
    }
}

fn is_colon_at(c: &Vec<AttrToken>, i: usize) -> (r: bool)
    ensures
        r == (i < c@.len() && tokens_view(c@)[i as int] is Colon),
{
    if i < c.len() {
        assert(tokens_view(c@)[i as int] == token_view_at(c@, i as int));
        match &c[i] {
            AttrToken::Colon => true,
            _ => false,
        }
    } else {
        false
    }
}

impl Constructor {
    /// Reads the arguments of the constructor attribute: nothing, or a
    /// parenthesized list of `compare[: name]`, `compare_enum[: name]` and
    /// `key[: expression]` separated by `,`.
    pub fn parse(ts: &Vec<AttrToken>) -> (r: Result<Constructor, AttrError>)
        ensures
            constructor_result(r, constructor_of(tokens_view(ts@))),
    {
        if ts.len() == 0 {
            return Ok(Constructor::Default);
        }
        assert(tokens_view(ts@)[0] == token_view_at(ts@, 0));
        let c = match &ts[0] {
            AttrToken::Parens(inner) => inner,
            _ => {
                return Err(AttrError::ExpectedParens);
            },
        };
        if ts.len() > 1 {
            return Err(AttrError::UnexpectedToken);
        }
        let ghost cv = tokens_view(c@);
        let n = c.len();
        let mut acc = Constructor::Default;
        let mut pos: usize = 0;
        loop
            invariant
                n == c@.len(),
                cv == tokens_view(c@),
                pos <= n,
                constructor_of(tokens_view(ts@)) == ctor_items(cv, pos as int, acc@),
            decreases n - pos,
        {
            if pos >= n {
                return Err(AttrError::ExpectedIdent);
            }
            assert(cv[pos as int] == token_view_at(c@, pos as int));
            let w = match &c[pos] {
                AttrToken::Ident(w) => w,
                _ => {
                    return Err(AttrError::ExpectedIdent);
                },
            };
            if word_is(w, "compare") || word_is(w, "compare_enum") {
                let en = word_is(w, "compare_enum");
                if is_colon_at(c, pos + 1) {
                    if pos + 2 >= n {
                        return Err(AttrError::ExpectedIdent);
                    }
                    assert(cv[pos + 2] == token_view_at(c@, pos + 2));
                    let name = match &c[pos + 2] {
                        AttrToken::Ident(nm) => nm.clone(),
                        _ => {
                            return Err(AttrError::ExpectedIdent);
                        },
                    };
                    match combine_compare_exec(acc, en, Some(name)) {
                        Ok(a) => {
                            acc = a;
                            pos = pos + 3;
                        },
                        Err(e) => {
                            return Err(e);
                        },
                    }
                } else {
                    match combine_compare_exec(acc, en, None) {
                        Ok(a) => {
                            acc = a;
                            pos = pos + 1;
                        },
                        Err(e) => {
                            return Err(e);
                        },
                    }
                }
            } else if word_is(w, "key") {
                if is_colon_at(c, pos + 1) {
                    let start = pos + 2;
                    let mut e = start;
                    proof {
                        lemma_expr_end(cv, start as int);
                    }
                    while e < n
                        invariant
                            n == c@.len(),
                            cv == tokens_view(c@),
                            start <= e <= n,
                            forall|i: int| start <= i < e ==> !(cv[i] is Comma),
                            expr_end(cv, start as int) == expr_end(cv, e as int),
                        ensures
                            start <= e <= n,
                            e == expr_end(cv, start as int),
                        decreases n - e,
                    {
                        assert(cv[e as int] == token_view_at(c@, e as int));
                        if is_comma(&c[e]) {
                            break;
                        }
                        e = e + 1;
                    }
                    proof {
                        lemma_expr_end(cv, e as int);
                    }
                    if e <= start {
                        return Err(AttrError::ExpectedExpr);
                    }
                    match combine_key_exec(acc, Some((start, e))) {
                        Ok(a) => {
                            acc = a;
                            pos = e;
                        },
                        Err(er) => {
                            return Err(er);
                        },
                    }
                } else {
                    match combine_key_exec(acc, None) {
                        Ok(a) => {
                            acc = a;
                            pos = pos + 1;
                        },
                        Err(er) => {
                            return Err(er);
                        },
                    }
                }
            } else {
                return Err(AttrError::UnexpectedConstructorArg(w.clone()));
            }
            if pos >= n {
                return Ok(acc);
            }
            assert(cv[pos as int] == token_view_at(c@, pos as int));
            if is_comma(&c[pos]) {
                pos = pos + 1;
            } else {
                return Err(AttrError::ExpectedCommaOrEnd);
            }
        }
    }
}

} // verus!
