//! The names that generated code gives to a command: one for its variant and
//! one for its struct, both made from the words of the command.

use convert_case::{Boundary, Case, Casing};
use vstd::prelude::*;
use vstd::string::StringExecFns;

verus! {

/// The Pascal case of `name`, as the crate `convert_case` makes it when it
/// takes the words apart at every boundary that it knows.
pub uninterp spec fn pascal_case(name: Seq<char>) -> Seq<char>;

/// The name of the struct that belongs to the variant `variant`.
pub open spec fn struct_name_of(variant: Seq<char>) -> Seq<char> {
    variant + seq!['C', 'm', 'd']
}

/// Calls `Casing::with_boundaries` of `convert_case` with the boundaries of
/// `Boundary::all()`, and `StateConverter::to_case` with `Case::Pascal` on
/// what that gives. The conversion reads nothing but the text it is given, so
/// its result is a function of that text; that, and no more, is claimed here.
#[verifier::external_body]
fn to_pascal_case(name: &str) -> (cased: String)
    ensures
        cased@ == pascal_case(name@),
{
    name.with_boundaries(Boundary::all().as_slice()).to_case(Case::Pascal)
}

/// The name of the struct that belongs to the variant `variant`.
pub fn struct_name(variant: &str) -> (name: String)
    ensures
        name@ == struct_name_of(variant@),
{
    let mut name = String::from_str(variant);
    proof {
        reveal_strlit("Cmd");
    }
    name.append("Cmd");
    assert(name@ =~= struct_name_of(variant@));
    name
}

/// The names of the variant and of the struct of the command `name`.
pub fn command_names(name: &str) -> (names: (String, String))
    ensures
        names.0@ == pascal_case(name@),
        names.1@ == struct_name_of(pascal_case(name@)),
{
    let variant = to_pascal_case(name);
    let structure = struct_name(variant.as_str());
    (variant, structure)
}

} // verus!
