//! Members the host page names: those whose text the renderer skips
//! ("blanked") and those a touch frontend treats as text entries. The page
//! that knows the movie supplies the lists; the player only looks names up.
//! Name match is case-insensitive, as Director's own name lookups are.
use vstd::prelude::*;
use crate::text::{lowercase, to_lowercase};

verus! {

/// A member named `name` is on `declared`: the name is not empty and its
/// lower-case form is that of one of the declared names.
pub open spec fn declares(declared: Seq<String>, name: Seq<char>) -> bool {
    name.len() > 0 && exists|i: int| 0 <= i < declared.len() && lowercase(#[trigger] declared[i]@) == lowercase(name)
}

fn declared_contains(declared: &Vec<String>, name: &str) -> (r: bool)
    ensures
        r == declares(declared@, name@),
{
    if name.unicode_len() == 0 {
        return false;
    }
    let lower = to_lowercase(name);
    let mut i: usize = 0;
    while i < declared.len()
        invariant
            i <= declared@.len(),
            lower@ == lowercase(name@),
            name@.len() > 0,
            forall|j: int| 0 <= j < i ==> lowercase(#[trigger] declared@[j]@) != lower@,
        decreases declared.len() - i,
    {
        let entry = to_lowercase(declared[i].as_str());
        if entry == lower {
            return true;
        }
        i = i + 1;
    }
    false
}

/// True when this member's text should render as nothing.
pub fn is_blanked(blanked: &Vec<String>, name: &str) -> (r: bool)
    ensures
        r == declares(blanked@, name@),
{
    declared_contains(blanked, name)
}

/// True when this member was declared a text entry.
pub fn is_text_entry(text_entries: &Vec<String>, name: &str) -> (r: bool)
    ensures
        r == declares(text_entries@, name@),
{
    declared_contains(text_entries, name)
}

/// A non-empty name is declared when its lower-case form is that of a
/// declared name, and not otherwise; the empty name never is.
pub proof fn law_declared_names(declared: Seq<String>, name: Seq<char>, i: int)
    ensures
        name.len() > 0 && 0 <= i < declared.len() && lowercase(declared[i]@) == lowercase(name) ==> declares(
            declared,
            name,
        ),
        (forall|j: int| 0 <= j < declared.len() ==> lowercase(#[trigger] declared[j]@) != lowercase(name)) ==> !declares(
            declared,
            name,
        ),
        name.len() == 0 ==> !declares(declared, name),
{
}

} // verus!
