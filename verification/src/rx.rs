use vstd::prelude::*;

verus! {

#[verifier::external_type_specification]
#[verifier::external_body]
pub struct ExRegex(regex::Regex);

/// Whether the regular expression the pattern denotes matches anywhere
/// in the text. The match relation depends on pattern and text alone.
pub uninterp spec fn regex_match(pattern: Seq<char>, text: Seq<char>) -> bool;

/// The named capture groups of the leftmost match of the pattern in the
/// text: pairs of group name and captured text, in the order the groups
/// open in the pattern, for groups that took part in the match. It
/// depends on pattern and text alone.
pub uninterp spec fn regex_groups(pattern: Seq<char>, text: Seq<char>) -> Seq<
    (Seq<char>, Seq<char>),
>;

/// Whether the pattern is a regular expression the engine accepts:
/// exactly the patterns that compile. It depends on the pattern alone.
pub uninterp spec fn regex_valid(pattern: Seq<char>) -> bool;

/// A compiled regular expression, kept beside its pattern text.
pub struct CompiledRegex {
    pub pattern: String,
    pub re: regex::Regex,
}

impl CompiledRegex {
    /// Relies on regex::Regex::new: compiles the pattern; an invalid or
    /// oversized pattern is refused.
    #[verifier::external_body]
    pub fn compile(pattern: &str) -> (r: Option<CompiledRegex>)
        ensures
            r is Some <==> regex_valid(pattern@),
            match r {
                Some(c) => c.pattern@ == pattern@,
                None => true,
            },
    {
        match regex::Regex::new(pattern) {
            Ok(re) => Some(CompiledRegex { pattern: pattern.to_string(), re }),
            Err(_) => None,
        }
    }

    /// Relies on regex::Regex::is_match: true if and only if the pattern
    /// matches anywhere in the text.
    #[verifier::external_body]
    pub fn is_match(&self, text: &str) -> (r: bool)
        ensures
            r == regex_match(self.pattern@, text@),
    {
        self.re.is_match(text)
    }

    /// Relies on regex::Regex::captures, regex::Regex::capture_names and
    /// regex::Captures::name: the named groups of the leftmost match, in
    /// pattern order; nothing when the pattern does not match.
    #[verifier::external_body]
    pub fn named_groups(&self, text: &str) -> (r: Option<Vec<(String, String)>>)
        ensures
            r is Some <==> regex_match(self.pattern@, text@),
            match r {
                Some(gs) => {
                    &&& gs@.len() == regex_groups(self.pattern@, text@).len()
                    &&& forall|i: int|
                        0 <= i < gs@.len() ==> (#[trigger] gs@[i]).0@ == regex_groups(
                            self.pattern@,
                            text@,
                        )[i].0 && gs@[i].1@ == regex_groups(self.pattern@, text@)[i].1
                },
                None => true,
            },
    {
        let caps = match self.re.captures(text) {
            Some(c) => c,
            None => {
                return None;
            },
        };
        let mut out: Vec<(String, String)> = Vec::new();
        for name in self.re.capture_names().flatten() {
            if let Some(m) = caps.name(name) {
                out.push((name.to_string(), m.as_str().to_string()));
            }
        }
        Some(out)
    }
}

} // verus!
