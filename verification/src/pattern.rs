use vstd::prelude::*;

verus! {

#[verifier::external_type_specification]
#[verifier::external_body]
pub struct ExRegex(regex::Regex);

/// Whether the regular expression written as `pattern` matches anywhere in
/// `text`. Names the result of `regex::Regex::is_match`, which depends on the
/// pattern source and the text alone.
pub uninterp spec fn regex_match(pattern: Seq<char>, text: Seq<char>) -> bool;

/// A compiled match pattern, kept together with the source it was compiled
/// from so that contracts can speak about matching by the source alone.
pub struct LogPattern {
    source: String,
    re: regex::Regex,
}

impl LogPattern {
    /// The pattern text this matcher was compiled from.
    pub closed spec fn source(&self) -> Seq<char> {
        self.source@
    }

    /// Relies on `regex::Regex::new`: compiles the pattern source, or reports
    /// `None` when it is not a valid regular expression.
    #[verifier::external_body]
    pub fn compile(pattern: &str) -> (r: Option<LogPattern>)
        ensures
            r is Some ==> r->Some_0.source() == pattern@,
    {
        match regex::Regex::new(pattern) {
            Ok(re) => Some(LogPattern { source: pattern.to_owned(), re }),
            Err(_) => None,
        }
    }

    /// Relies on `regex::Regex::is_match`: whether the pattern matches
    /// anywhere in `text`; deterministic in the pattern source and the text.
    #[verifier::external_body]
    pub fn matches(&self, text: &str) -> (r: bool)
        ensures
            r == regex_match(self.source(), text@),
    {
        self.re.is_match(text)
    }
}

/// The subsequence of `names` that the pattern matches, in original order.
pub open spec fn matching_names(pattern: Seq<char>, names: Seq<String>) -> Seq<String>
    decreases names.len(),
{
    if names.len() == 0 {
        Seq::empty()
    } else {
        let rest = matching_names(pattern, names.drop_last());
        if regex_match(pattern, names.last()@) {
            rest.push(names.last())
        } else {
            rest
        }
    }
}

/// Keeps exactly the group names the pattern matches, preserving their order.
pub fn filter_groups(names: Vec<String>, pattern: &LogPattern) -> (r: Vec<String>)
    ensures
        r@ == matching_names(pattern.source(), names@),
{
    let mut out: Vec<String> = Vec::new();
    let mut i: usize = 0;
    while i < names.len()
        invariant
            i <= names.len(),
            out@ == matching_names(pattern.source(), names@.take(i as int)),
        decreases names.len() - i,
    {
        proof {
            assert(names@.take(i + 1).drop_last() =~= names@.take(i as int));
            assert(names@.take(i + 1).last() == names@[i as int]);
        }
        if pattern.matches(names[i].as_str()) {
            out.push(names[i].clone());
        }
        i = i + 1;
    }
    proof {
        assert(names@.take(names@.len() as int) =~= names@);
    }
    out
}

} // verus!
