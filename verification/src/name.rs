//! The project-name normalization decision.
//!
//! A forced name passes through verbatim.  Otherwise a name that is
//! already in snake_case is kept as it is, and every other name —
//! camelCase, PascalCase, kebab-case, mixed — is rewritten to
//! kebab-case.  Because rewriting an already-kebab-case name to
//! kebab-case is a no-op, kebab-case names are also left unchanged.

use vstd::prelude::*;
use vstd::string::StringExecFns;

use crate::casing::canonical;
use crate::casing::lemma_convert_canonical;
use crate::casing::lemma_convert_shape;
use crate::casing::swap_sep;
use crate::casing::to_kebab_case;
use crate::casing::to_kebab_spec;
use crate::casing::to_snake_case;
use crate::casing::to_snake_spec;

verus! {

/// The normalization decision without force: a name already in
/// snake_case form is kept, every other name is rewritten to
/// kebab-case.
pub open spec fn sanitize_spec(s: Seq<char>) -> Seq<char> {
    if to_snake_spec(s) == s {
        s
    } else {
        to_kebab_spec(s)
    }
}

/// What normalization returns: the raw name itself when `force` is
/// set, the sanitized name otherwise.
pub open spec fn normalized_spec(s: Seq<char>, force: bool) -> Seq<char> {
    if force {
        s
    } else {
        sanitize_spec(s)
    }
}

/// `s` is in snake_case: words of lower-case word characters joined by
/// single underscores, with no other separators, no upper-case letters,
/// and no leading or trailing underscore.
pub open spec fn is_snake_case(s: Seq<char>) -> bool {
    canonical(s, '_')
}

/// `s` is in kebab-case: words of lower-case word characters joined by
/// single hyphens, with no other separators, no upper-case letters,
/// and no leading or trailing hyphen.
pub open spec fn is_kebab_case(s: Seq<char>) -> bool {
    canonical(s, '-')
}

/// Normalizes a raw name: keeps it when its snake_case image is the
/// name itself, and rewrites it to kebab-case otherwise.
pub fn sanitize_project_name(name: &str) -> (r: String)
    ensures
        r@ == sanitize_spec(name@),
{
    let snake = to_snake_case(name);
    let raw = String::from_str(name);
    if snake == raw {
        snake
    } else {
        to_kebab_case(name)
    }
}

/// A normalized project name: an immutable wrapper around the string
/// that normalization produced.
#[derive(Debug)]
pub struct ProjectName(pub String);

impl View for ProjectName {
    type V = Seq<char>;

    open spec fn view(&self) -> Seq<char> {
        self.0@
    }
}

impl ProjectName {
    /// Normalizes `name` under the `force` flag: a forced name is taken
    /// verbatim, any other name is sanitized.
    pub fn new(name: &str, force: bool) -> (r: ProjectName)
        ensures
            r@ == normalized_spec(name@, force),
            force ==> r@ == name@,
    {
        if force {
            ProjectName(String::from_str(name))
        } else {
            ProjectName(sanitize_project_name(name))
        }
    }

    /// The normalized name as plain text.
    pub fn as_str(&self) -> (r: &str)
        ensures
            r@ == self@,
    {
        self.0.as_str()
    }
}

impl PartialEq for ProjectName {
    fn eq(&self, other: &ProjectName) -> (r: bool) {
        self.0 == other.0
    }
}

impl vstd::std_specs::cmp::PartialEqSpecImpl for ProjectName {
    open spec fn obeys_eq_spec() -> bool {
        true
    }

    open spec fn eq_spec(&self, other: &ProjectName) -> bool {
        self.0@ == other.0@
    }
}

/// A name already in snake_case is returned unchanged by normalization
/// without force.
pub proof fn lemma_snake_case_kept(s: Seq<char>)
    requires
        is_snake_case(s),
    ensures
        normalized_spec(s, false) == s,
{
    lemma_convert_canonical(s, '_', '_');
    assert(swap_sep(s, '_', '_') =~= s);
}

/// A name already in kebab-case is returned unchanged by normalization
/// without force: its snake_case image replaces each hyphen by an
/// underscore, so a hyphen-free name is kept as its own snake_case
/// image, and a name with a hyphen falls through to the kebab-case
/// rewrite, which is a no-op on it.
pub proof fn lemma_kebab_case_kept(s: Seq<char>)
    requires
        is_kebab_case(s),
    ensures
        normalized_spec(s, false) == s,
{
    lemma_convert_canonical(s, '-', '_');
    if exists|i: int| 0 <= i < s.len() && s[i] == '-' {
        let i = choose|i: int| 0 <= i < s.len() && s[i] == '-';
        assert(to_snake_spec(s)[i] == '_');
        assert(to_snake_spec(s) != s);
        lemma_convert_canonical(s, '-', '-');
        assert(swap_sep(s, '-', '-') =~= s);
    } else {
        assert(swap_sep(s, '-', '_') =~= s);
    }
}

/// Normalization without force is idempotent: normalizing its own
/// output returns that output unchanged.
pub proof fn lemma_normalize_idempotent(s: Seq<char>)
    ensures
        normalized_spec(normalized_spec(s, false), false) == normalized_spec(s, false),
{
    if to_snake_spec(s) != s {
        lemma_convert_shape(s, '-');
        lemma_kebab_case_kept(to_kebab_spec(s));
    }
}

} // verus!
