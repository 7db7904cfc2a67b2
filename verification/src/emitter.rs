//! Turning a parser diagnostic into an issue of the asset that was parsed.
use vstd::prelude::*;
use crate::text::{concat_all, texts, append_all};
use crate::vc::AssetVc;

verus! {

/// How grave a parser diagnostic is.
#[derive(Clone, Copy, Debug, PartialEq, Eq, Structural)]
pub enum Level {
    Bug,
    Fatal,
    PhaseFatal,
    Error,
    Warning,
    Note,
    Help,
    Cancelled,
    FailureNote,
}

/// How grave an issue is.
#[derive(Clone, Copy, Debug, PartialEq, Eq, Structural)]
pub enum IssueSeverity {
    Bug,
    Fatal,
    Error,
    Warning,
    Hint,
    Note,
}

/// The code of a diagnostic: an error code or a lint name.
#[derive(Clone, Debug)]
pub enum DiagnosticId {
    Error(String),
    Lint(String),
}

/// A diagnostic of the parser, as far as an issue takes it over: its level,
/// the parts of its message, its code and the byte positions of its primary
/// span, counted from one.
#[derive(Clone, Debug)]
pub struct Diagnostic {
    pub level: Level,
    pub message: Vec<String>,
    pub code: Option<DiagnosticId>,
    pub primary_span: Option<(usize, usize)>,
}

/// An issue found while analyzing an asset: its severity, the asset it is
/// about, title and message, the diagnostic's code and the byte range in the
/// asset's source, counted from zero.
#[derive(Clone, Debug)]
pub struct AnalyzeIssue {
    pub severity: IssueSeverity,
    pub source_asset: AssetVc,
    pub title: String,
    pub message: String,
    pub code: Option<String>,
    pub source: Option<(usize, usize)>,
}

/// Reports the diagnostics of parsing `source` as issues; where a title is
/// given, it heads every issue.
#[derive(Clone, Debug)]
pub struct IssueEmitter {
    pub source: AssetVc,
    pub title: Option<String>,
}

/// The severity of an issue from a diagnostic of level `level`.
pub open spec fn severity_of(level: Level) -> IssueSeverity {
    match level {
        Level::Bug => IssueSeverity::Bug,
        Level::Fatal | Level::PhaseFatal => IssueSeverity::Fatal,
        Level::Error => IssueSeverity::Error,
        Level::Warning => IssueSeverity::Warning,
        Level::Note => IssueSeverity::Note,
        Level::Help => IssueSeverity::Hint,
        Level::Cancelled => IssueSeverity::Error,
        Level::FailureNote => IssueSeverity::Note,
    }
}

/// The severity of an issue from a diagnostic of level `level`.
pub fn severity(level: Level) -> (r: IssueSeverity)
    ensures
        r == severity_of(level),
{
    match level {
        Level::Bug => IssueSeverity::Bug,
        Level::Fatal | Level::PhaseFatal => IssueSeverity::Fatal,
        Level::Error => IssueSeverity::Error,
        Level::Warning => IssueSeverity::Warning,
        Level::Note => IssueSeverity::Note,
        Level::Help => IssueSeverity::Hint,
        Level::Cancelled => IssueSeverity::Error,
        Level::FailureNote => IssueSeverity::Note,
    }
}

/// The text of a diagnostic code: `error <code>` or `lint <name>`.
pub open spec fn code_text(id: DiagnosticId) -> Seq<char> {
    match id {
        DiagnosticId::Error(s) => "error "@ + s@,
        DiagnosticId::Lint(s) => "lint "@ + s@,
    }
}

/// The position of the first line break of `s` at or after `k`, if any.
pub open spec fn newline_from(s: Seq<char>, k: int) -> Option<int>
    decreases s.len() - k,
{
    if k < 0 || k >= s.len() {
        None
    } else if s[k] == '\n' {
        Some(k)
    } else {
        newline_from(s, k + 1)
    }
}

/// The position of the first line break of `s`, if any.
pub open spec fn first_newline(s: Seq<char>) -> Option<int> {
    newline_from(s, 0)
}

/// The first line break at or after `k` is the first one after `k` that
/// no earlier position after `k` has.
proof fn lemma_newline_from(s: Seq<char>, k: int)
    requires
        0 <= k <= s.len(),
    ensures
        newline_from(s, k) matches Some(i) ==> k <= i < s.len() && s[i] == '\n'
            && forall|j: int| k <= j < i ==> s[j] != '\n',
        newline_from(s, k) is None ==> forall|j: int| k <= j < s.len() ==> s[j] != '\n',
    decreases s.len() - k,
{
    if k < s.len() && s[k] != '\n' {
        lemma_newline_from(s, k + 1);
    }
}

/// The first line of `s` and the text after that line's break (empty where
/// there is no break).
pub open spec fn split_first_line(s: Seq<char>) -> (Seq<char>, Seq<char>) {
    match first_newline(s) {
        Some(i) => (s.take(i), s.skip(i + 1)),
        None => (s, Seq::empty()),
    }
}

/// The title and message of the issue of a diagnostic with message `message`:
/// the given title and the whole message, or else the message's first line
/// and the rest.
pub open spec fn title_and_message(title: Option<Seq<char>>, message: Seq<char>) -> (Seq<char>, Seq<char>) {
    match title {
        Some(t) => (t, message),
        None => split_first_line(message),
    }
}

/// A span's byte offset counted from zero, no lower than zero.
pub open spec fn zero_based(p: usize) -> usize {
    if p == 0 {
        0
    } else {
        (p - 1) as usize
    }
}

/// Splits `s` at its first line break.
fn split_at_first_line(s: &str) -> (r: (String, String))
    ensures
        (r.0@, r.1@) == split_first_line(s@),
{
    let n = s.unicode_len();
    let mut i: usize = 0;
    while i < n
        invariant
            n == s@.len(),
            i <= n,
            first_newline(s@) == newline_from(s@, i as int),
        decreases n - i,
    {
        if s.get_char(i) == '\n' {
            let first = String::from_str(s.substring_char(0, i));
            let rest = String::from_str(s.substring_char(i + 1, n));
            proof {
                assert(newline_from(s@, i as int) == Some(i as int));
                assert(s@.subrange(0, i as int) =~= s@.take(i as int));
                assert(s@.subrange(i + 1, n as int) =~= s@.skip(i + 1));
            }
            return (first, rest);
        }
        i = i + 1;
    }
    (String::from_str(s), String::new())
}

impl IssueEmitter {
    /// The issue that a diagnostic is reported as: severity by the
    /// diagnostic's level, the message parts joined, its code as text, the
    /// title as given or the message's first line (the message then keeps
    /// the rest), and the primary span moved to count from zero.
    pub fn issue_of(&self, db: &Diagnostic) -> (r: AnalyzeIssue)
        ensures
            r.severity == severity_of(db.level),
            r.source_asset == self.source,
            (r.title@, r.message@) == title_and_message(
                match self.title { Some(t) => Some(t@), None => None },
                concat_all(texts(db.message@)),
            ),
            r.code.is_some() == db.code.is_some(),
            r.code matches Some(c) ==> c@ == code_text(db.code->0),
            r.source == (match db.primary_span {
                Some((lo, hi)) => Some((zero_based(lo), zero_based(hi))),
                None => None,
            }),
    {
        let mut message = String::new();
        append_all(&mut message, &db.message);
        assert(Seq::<char>::empty() + concat_all(texts(db.message@)) =~= concat_all(texts(db.message@)));
        let code = match &db.code {
            Some(DiagnosticId::Error(s)) => Some(String::from_str("error ").concat(s.as_str())),
            Some(DiagnosticId::Lint(s)) => Some(String::from_str("lint ").concat(s.as_str())),
            None => None,
        };
        let (title, message) = match &self.title {
            Some(t) => (t.clone(), message),
            None => split_at_first_line(message.as_str()),
        };
        let source = match db.primary_span {
            Some((lo, hi)) => Some((lo.saturating_sub(1), hi.saturating_sub(1))),
            None => None,
        };
        AnalyzeIssue { severity: severity(db.level), source_asset: self.source, title, message, code, source }
    }
}

} // verus!

verus! {

/// Where an issue's title is the first line of the message, the title, a
/// line break and the issue's message give back the whole message.
pub proof fn lemma_split_first_line_rejoins(s: Seq<char>)
    requires
        first_newline(s) is Some,
    ensures
        split_first_line(s).0 + seq!['\n'] + split_first_line(s).1 == s,
        !split_first_line(s).0.contains('\n'),
{
    lemma_newline_from(s, 0);
    let i = first_newline(s)->0;
    assert(s.take(i) + seq!['\n'] + s.skip(i + 1) =~= s);
    assert(!s.take(i).contains('\n')) by {
        if s.take(i).contains('\n') {
            let j = choose|j: int| 0 <= j < s.take(i).len() && s.take(i)[j] == '\n';
            assert(s[j] == '\n');
        }
    }
}

} // verus!
