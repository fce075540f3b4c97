//! The scheduling service: its default data files and the checks it makes on a request
//! before any file is read.
use std::path::PathBuf;
use vstd::prelude::*;

verus! {

#[verifier::external_type_specification]
#[verifier::external_body]
pub struct ExPathBuf(std::path::PathBuf);

/// The path that `PathBuf::from` makes of the characters `s`.
pub uninterp spec fn spec_path_from(s: Seq<char>) -> PathBuf;

/// Calls `PathBuf::from` on a `String`, which takes the string over as the path; the result is
/// named `spec_path_from` of its characters.
#[verifier::external_body]
fn path_from(s: String) -> (p: PathBuf)
    ensures
        p == spec_path_from(s@),
{
    PathBuf::from(s)
}

/// `PathBuf::clone` gives a path equal to the one it is called on.
pub assume_specification[<std::path::PathBuf as std::clone::Clone>::clone](p: &std::path::PathBuf) -> (r: std::path::PathBuf)
    ensures
        r == *p,
;

/// The path a request names, or `default` where it names none (the empty string).
pub open spec fn requested_or(requested: Seq<char>, default: PathBuf) -> PathBuf {
    if requested.len() == 0 {
        default
    } else {
        spec_path_from(requested)
    }
}

/// The message of a conflict check that names no section.
pub open spec fn no_sections_message() -> Seq<char> {
    "sections must contain at least one section id"@
}

/// The Pareto mode of an optimize request: the one it names, `"strict"` where it names none.
pub open spec fn spec_pareto_mode(requested: Seq<char>) -> Seq<char> {
    if requested.len() == 0 {
        "strict"@
    } else {
        requested
    }
}

/// The service behind the scheduling endpoints, with the data files it reads by default.
#[derive(Debug, Clone)]
pub struct KernelService {
    /// Meetings file read when a request names none.
    pub default_csv: PathBuf,
    /// Sections file read when a request names none.
    pub default_sections_csv: PathBuf,
}

impl KernelService {
    /// A service with the given default files.
    pub fn new(default_csv: PathBuf, default_sections_csv: PathBuf) -> (s: Self)
        ensures
            s.default_csv == default_csv,
            s.default_sections_csv == default_sections_csv,
    {
        KernelService { default_csv, default_sections_csv }
    }

    /// The meetings file of a request: the one it names, else the default.
    pub fn meetings_path(&self, requested: String) -> (p: PathBuf)
        ensures
            p == requested_or(requested@, self.default_csv),
    {
        if requested.as_str().is_empty() {
            self.default_csv.clone()
        } else {
            path_from(requested)
        }
    }

    /// The sections file of a request: the one it names, else the default.
    pub fn sections_path(&self, requested: String) -> (p: PathBuf)
        ensures
            p == requested_or(requested@, self.default_sections_csv),
    {
        if requested.as_str().is_empty() {
            self.default_sections_csv.clone()
        } else {
            path_from(requested)
        }
    }
}

/// Refuses a conflict check that names no section.
pub fn check_sections_given(sections: &Vec<String>) -> (r: Result<(), String>)
    ensures
        r is Ok <==> sections@.len() > 0,
        r matches Err(m) ==> m@ == no_sections_message(),
{
    if sections.len() == 0 {
        let m = String::from_str("sections must contain at least one section id");
        proof {
            reveal_strlit("sections must contain at least one section id");
        }
        Err(m)
    } else {
        Ok(())
    }
}

/// The Pareto mode of an optimize request (`"strict"` where it names none).
pub fn pareto_mode_or_default(requested: String) -> (r: String)
    ensures
        r@ == spec_pareto_mode(requested@),
{
    if requested.as_str().is_empty() {
        let m = String::from_str("strict");
        proof {
            reveal_strlit("strict");
        }
        m
    } else {
        requested
    }
}

} // verus!
