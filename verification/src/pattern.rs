use vstd::prelude::*;

verus! {

#[verifier::external_type_specification]
#[verifier::external_body]
pub struct ExRegex(fancy_regex::Regex);

/// Whether `fancy_regex` accepts `pattern` as a regular expression.
pub uninterp spec fn regex_valid(pattern: Seq<char>) -> bool;

/// Whether `pattern` matches anywhere inside `text`, as `fancy_regex`
/// decides it.
pub uninterp spec fn regex_match(pattern: Seq<char>, text: Seq<char>) -> bool;

/// A compiled regular expression, kept together with the pattern it was
/// compiled from. The fields stay private so that the only way to obtain
/// a value is [`Pattern::new`], which ties the two together.
pub struct Pattern {
    re: fancy_regex::Regex,
    src: String,
}

impl View for Pattern {
    type V = Seq<char>;

    closed spec fn view(&self) -> Seq<char> {
        self.src@
    }
}

impl Pattern {
    /// Relies on `fancy_regex::Regex::new`: compilation succeeds exactly on
    /// the patterns the crate accepts, and depends on the pattern alone.
    /// The error is rendered through its `Display` impl.
    #[verifier::external_body]
    pub fn new(pattern: &str) -> (r: Result<Pattern, String>)
        ensures
            r is Ok <==> regex_valid(pattern@),
            r matches Ok(p) ==> p@ == pattern@,
    {
        match fancy_regex::Regex::new(pattern) {
            Ok(re) => Ok(Pattern { re, src: pattern.to_owned() }),
            Err(e) => Err(format!("{}", e)),
        }
    }

    /// Relies on `fancy_regex::Regex::is_match`: when the search completes,
    /// the answer is a pure function of the pattern and the text. The search
    /// can also give up at runtime (for example on a backtracking limit);
    /// that surfaces as the error case, rendered through `Display`.
    #[verifier::external_body]
    pub fn is_match(&self, text: &str) -> (r: Result<bool, String>)
        ensures
            r matches Ok(b) ==> b == regex_match(self@, text@),
    {
        match self.re.is_match(text) {
            Ok(b) => Ok(b),
            Err(e) => Err(format!("{}", e)),
        }
    }
}

} // verus!
