//! The two spellings of a resource's name that generated code uses.

use heck::{CamelCase, SnekCase};
use vstd::prelude::*;

verus! {

/// The snake case spelling of `name`, as heck's `to_snek_case` gives it:
/// lower case words with an underscore between them.
pub uninterp spec fn snake_case(name: Seq<char>) -> Seq<char>;

/// The camel case spelling of `name`, as heck's `to_camel_case` gives it:
/// capitalized words with nothing between them.
pub uninterp spec fn camel_case(name: Seq<char>) -> Seq<char>;

/// Calls `heck::SnekCase::to_snek_case` on `name`. Trusted, not proved: the
/// string that comes back depends on the characters of `name` and on
/// nothing else, so it is `snake_case` of them. Nothing is claimed of what
/// the string holds.
#[verifier::external_body]
fn to_snek_case(name: &str) -> (snake: String)
    ensures
        snake@ == snake_case(name@),
{
    name.to_snek_case()
}

/// Calls `heck::CamelCase::to_camel_case` on `name`. Trusted, not proved:
/// the string that comes back depends on the characters of `name` and on
/// nothing else, so it is `camel_case` of them. Nothing is claimed of what
/// the string holds.
#[verifier::external_body]
fn to_camel_case(name: &str) -> (camel: String)
    ensures
        camel@ == camel_case(name@),
{
    name.to_camel_case()
}

/// A resource's name in the spellings that its files use.
pub struct ResourceNames {
    /// Names the resource's module and file.
    pub snake: String,
    /// Names the resource's type.
    pub camel: String,
}

impl ResourceNames {
    /// Spells `name` both ways. Each spelling depends on the characters of
    /// `name` alone, so equal names always get equal spellings.
    pub fn of(name: &str) -> (names: ResourceNames)
        ensures
            names.snake@ == snake_case(name@),
            names.camel@ == camel_case(name@),
    {
        ResourceNames { snake: to_snek_case(name), camel: to_camel_case(name) }
    }
}

} // verus!
