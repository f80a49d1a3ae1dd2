use vstd::prelude::*;

verus! {

/// Whether `glob` accepts a pattern text: a function of the text alone.
pub uninterp spec fn glob_compiles(pattern: Seq<char>) -> bool;

/// Whether the pattern written as `pattern` matches `name` under `glob`'s
/// default options: a function of the two texts alone.
pub uninterp spec fn glob_matches(pattern: Seq<char>, name: Seq<char>) -> bool;

#[verifier::external_type_specification]
#[verifier::external_body]
pub struct ExPattern(glob::Pattern);

#[verifier::external_type_specification]
#[verifier::external_body]
pub struct ExPatternError(glob::PatternError);

/// A compiled shell-style pattern together with the text it was compiled from.
/// Values are only made by `GlobPattern::new`, so `compiled` always comes from
/// `text`.
pub struct GlobPattern {
    text: String,
    compiled: glob::Pattern,
}

impl View for GlobPattern {
    type V = Seq<char>;

    closed spec fn view(&self) -> Seq<char> {
        self.text@
    }
}

/// Relies on glob::Pattern::new: it returns `Ok` exactly on the texts it
/// accepts, and the outcome depends on the text alone.
#[verifier::external_body]
fn compile_glob(text: &str) -> (r: Result<glob::Pattern, glob::PatternError>)
    ensures
        r is Ok <==> glob_compiles(text@),
{
    glob::Pattern::new(text)
}

/// Relies on glob::Pattern::matches: the answer depends on the text the
/// pattern was compiled from (`p@`) and on the name alone.
#[verifier::external_body]
fn compiled_matches(p: &GlobPattern, name: &str) -> (r: bool)
    ensures
        r == glob_matches(p@, name@),
{
    p.compiled.matches(name)
}

impl GlobPattern {
    /// Compiles `text`; `None` when it is not a valid glob.
    pub fn new(text: String) -> (r: Option<GlobPattern>)
        ensures
            r is Some <==> glob_compiles(text@),
            r matches Some(p) ==> p@ == text@,
    {
        match compile_glob(text.as_str()) {
            Ok(compiled) => Some(GlobPattern { text, compiled }),
            Err(_) => None,
        }
    }

    /// Whether this pattern matches the bare name `name`.
    pub fn matches(&self, name: &str) -> (r: bool)
        ensures
            r == glob_matches(self@, name@),
    {
        compiled_matches(self, name)
    }

    /// The text the pattern was compiled from.
    pub fn as_str(&self) -> (r: &str)
        ensures
            r@ == self@,
    {
        self.text.as_str()
    }
}

} // verus!
