//! Exclude globs given on the command line.
use vstd::prelude::*;

verus! {

/// `glob::Pattern`, a compiled glob, held as an opaque value.
#[verifier::external_type_specification]
#[verifier::external_body]
pub struct ExGlobPattern(glob::Pattern);

/// Whether `glob::Pattern::new` accepts this pattern text.
pub uninterp spec fn glob_is_valid(pattern: Seq<char>) -> bool;

/// Whether the pattern compiled from `pattern` matches `text`, with the
/// default match options.
pub uninterp spec fn glob_matches(pattern: Seq<char>, text: Seq<char>) -> bool;

/// A compiled exclude glob, together with the text it was compiled from.
///
/// Its fields are private: a value is only ever made by `compile_glob`, from
/// the one text it keeps, so `compiled` is always the compilation of `text`.
pub struct ExcludePattern {
    text: String,
    compiled: glob::Pattern,
}

/// Why a pattern text is not a valid glob.
pub struct PatternFault {
    /// The pattern as given.
    pub pattern: String,
    /// The character position at which the pattern is malformed.
    pub position: usize,
    /// What is wrong there.
    pub message: String,
}

/// Relies on `glob::Pattern::new`: compiles the text, or says where it is
/// malformed.
#[verifier::external_body]
fn compile_glob(text: &String) -> (r: Result<ExcludePattern, PatternFault>)
    ensures
        r is Ok <==> glob_is_valid(text@),
        r matches Ok(p) ==> p.text@ == text@,
        r matches Err(e) ==> e.pattern@ == text@,
{
    match glob::Pattern::new(text) {
        Ok(compiled) => Ok(ExcludePattern { text: text.clone(), compiled }),
        Err(e) => Err(PatternFault { pattern: text.clone(), position: e.pos, message: e.msg.to_string() }),
    }
}

impl ExcludePattern {
    /// The text this pattern was compiled from.
    pub closed spec fn source(&self) -> Seq<char> {
        self.text@
    }

    /// Compiles a glob; a malformed one is reported as a fault.
    pub fn new(text: &String) -> (r: Result<ExcludePattern, PatternFault>)
        ensures
            r is Ok <==> glob_is_valid(text@),
            r matches Ok(p) ==> p.source() == text@,
            r matches Err(e) ==> e.pattern@ == text@,
    {
        compile_glob(text)
    }

    /// The text this pattern was compiled from.
    pub fn as_text(&self) -> (r: &str)
        ensures
            r@ == self.source(),
    {
        self.text.as_str()
    }

    /// Whether the glob matches `text`.
    ///
    /// Relies on `glob::Pattern::matches`, with the default options.
    #[verifier::external_body]
    fn matches_text(&self, text: &str) -> (r: bool)
        ensures
            r == glob_matches(self.source(), text@),
    {
        self.compiled.matches(text)
    }
}

/// Some pattern of `patterns` matches `text`.
pub open spec fn any_glob_matches(patterns: Seq<ExcludePattern>, text: Seq<char>) -> bool {
    exists|i: int| 0 <= i < patterns.len() && glob_matches(#[trigger] patterns[i].source(), text)
}

/// Whether any of the patterns matches `text`.
pub fn excluded_by(patterns: &Vec<ExcludePattern>, text: &str) -> (r: bool)
    ensures
        r == any_glob_matches(patterns@, text@),
{
    let mut i: usize = 0;
    while i < patterns.len()
        invariant
            i <= patterns.len(),
            forall|j: int| 0 <= j < i ==> !glob_matches(#[trigger] patterns@[j].source(), text@),
        decreases patterns.len() - i,
    {
        if patterns[i].matches_text(text) {
            return true;
        }
        i += 1;
    }
    false
}

/// Compiles every pattern, stopping at the first malformed one.
pub fn compile_excludes(texts: &Vec<String>) -> (r: Result<Vec<ExcludePattern>, PatternFault>)
    ensures
        r is Ok <==> forall|i: int| 0 <= i < texts.len() ==> glob_is_valid(#[trigger] texts@[i]@),
        r matches Ok(ps) ==> ps.len() == texts.len() && forall|i: int|
            0 <= i < texts.len() ==> (#[trigger] ps@[i]).source() == texts@[i]@,
        r matches Err(e) ==> exists|i: int|
            0 <= i < texts.len() && !glob_is_valid(#[trigger] texts@[i]@) && e.pattern@
                == texts@[i]@,
{
    let mut out: Vec<ExcludePattern> = Vec::new();
    let mut i: usize = 0;
    while i < texts.len()
        invariant
            i <= texts.len(),
            out.len() == i,
            forall|j: int| 0 <= j < i ==> glob_is_valid(#[trigger] texts@[j]@),
            forall|j: int| 0 <= j < i ==> (#[trigger] out@[j]).source() == texts@[j]@,
        decreases texts.len() - i,
    {
        match ExcludePattern::new(&texts[i]) {
            Ok(p) => out.push(p),
            Err(e) => return Err(e),
        }
        i += 1;
    }
    Ok(out)
}

} // verus!
