//! Case conversion for command names and file names.
//!
//! The conversions themselves are performed by the `convert_case` crate;
//! each result is named abstractly, since it depends on the input
//! characters alone.

use convert_case::{Case, Casing};
use vstd::prelude::*;

verus! {

/// The snake_case rendering of a string: words delimited by underscores,
/// all lowercase.
pub uninterp spec fn snake_case_of(s: Seq<char>) -> Seq<char>;

/// The PascalCase rendering of a string: words capitalised and joined
/// without delimiters.
pub uninterp spec fn pascal_case_of(s: Seq<char>) -> Seq<char>;

/// The lower case rendering of a string: words lowercased and joined by
/// spaces.
pub uninterp spec fn lower_case_of(s: Seq<char>) -> Seq<char>;

/// Relies on convert_case's `Casing::to_case` with `Case::Snake`: the
/// result is a function of the input characters alone.
#[verifier::external_body]
pub(crate) fn to_snake_case(s: &str) -> (r: String)
    ensures
        r@ == snake_case_of(s@),
{
    s.to_case(Case::Snake)
}

/// Relies on convert_case's `Casing::to_case` with `Case::Pascal`: the
/// result is a function of the input characters alone.
#[verifier::external_body]
pub(crate) fn to_pascal_case(s: &str) -> (r: String)
    ensures
        r@ == pascal_case_of(s@),
{
    s.to_case(Case::Pascal)
}

/// Relies on convert_case's `Casing::to_case` with `Case::Lower`: the
/// result is a function of the input characters alone.
#[verifier::external_body]
pub(crate) fn to_lower_case(s: &str) -> (r: String)
    ensures
        r@ == lower_case_of(s@),
{
    s.to_case(Case::Lower)
}

} // verus!
