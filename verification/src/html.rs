use vstd::prelude::*;

verus! {

/// The view of an optional string.
pub open spec fn opt_view(o: Option<String>) -> Option<Seq<char>> {
    match o {
        Some(s) => Some(s@),
        None => None,
    }
}

/// What `regex::Regex::replace_all` produces: `None` when the pattern does
/// not compile, else the haystack with every match replaced.
pub uninterp spec fn regex_replace_all_result(pattern: Seq<char>, haystack: Seq<char>, replacement: Seq<char>) -> Option<Seq<char>>;

/// What `regex::Regex::captures` yields for capture group 1 of the first
/// match: `None` when the pattern does not compile, `Some(None)` when there
/// is no match or the group did not take part in it.
pub uninterp spec fn regex_first_group_result(pattern: Seq<char>, haystack: Seq<char>) -> Option<Option<Seq<char>>>;

/// What `regex::Regex::captures_iter` yields for capture group 1, one entry
/// per match, in order (`None` where the group did not take part in the
/// match): `None` when the pattern does not compile.
pub uninterp spec fn regex_all_first_groups_result(pattern: Seq<char>, haystack: Seq<char>) -> Option<Seq<Option<Seq<char>>>>;

/// Compiles `pattern` with `regex::Regex::new` and applies
/// `Regex::replace_all`. The result is a function of the three arguments
/// alone; `None` exactly when the pattern is rejected. What the regex
/// engine matches is not stated here.
#[verifier::external_body]
pub(crate) fn regex_replace_all(pattern: &str, haystack: &str, replacement: &str) -> (r: Option<String>)
    ensures
        opt_view(r) == regex_replace_all_result(pattern@, haystack@, replacement@),
{
    match regex::Regex::new(pattern) {
        Ok(re) => Some(re.replace_all(haystack, replacement).into_owned()),
        Err(_) => None,
    }
}

/// Compiles `pattern` with `regex::Regex::new` and reads capture group 1 of
/// the first match found by `Regex::captures`. The result is a function of
/// the arguments alone.
#[verifier::external_body]
pub(crate) fn regex_first_group(pattern: &str, haystack: &str) -> (r: Option<Option<String>>)
    ensures
        match r {
            None => regex_first_group_result(pattern@, haystack@) is None,
            Some(g) => regex_first_group_result(pattern@, haystack@) == Some(opt_view(g)),
        },
{
    match regex::Regex::new(pattern) {
        Err(_) => None,
        Ok(re) => match re.captures(haystack) {
            None => Some(None),
            Some(c) => match c.get(1) {
                None => Some(None),
                Some(m) => Some(Some(m.as_str().to_string())),
            },
        },
    }
}

/// The views of a list of strings.
pub open spec fn strings_seq_view(v: Seq<String>) -> Seq<Seq<char>> {
    v.map_values(|s: String| s@)
}

/// The views of a list of optional strings.
pub open spec fn opt_strings_view(v: Seq<Option<String>>) -> Seq<Option<Seq<char>>> {
    v.map_values(|o: Option<String>| opt_view(o))
}

/// Compiles `pattern` with `regex::Regex::new` and reads capture group 1 of
/// every match of `Regex::captures_iter`, one entry per match, in order. The
/// result is a function of the arguments alone.
#[verifier::external_body]
pub(crate) fn regex_all_first_groups(pattern: &str, haystack: &str) -> (r: Option<Vec<Option<String>>>)
    ensures
        match r {
            None => regex_all_first_groups_result(pattern@, haystack@) is None,
            Some(v) => regex_all_first_groups_result(pattern@, haystack@) == Some(opt_strings_view(v@)),
        },
{
    match regex::Regex::new(pattern) {
        Err(_) => None,
        Ok(re) => {
            let mut out = Vec::new();
            for c in re.captures_iter(haystack) {
                out.push(c.get(1).map(|m| m.as_str().to_string()));
            }
            Some(out)
        },
    }
}

} // verus!
