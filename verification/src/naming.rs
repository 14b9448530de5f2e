//! Naming conventions of the surface language.

use vstd::prelude::*;
use crate::text::chars_of;

verus! {

/// Whether `c` is lowercase in Unicode's sense, as `char::is_lowercase` decides.
pub uninterp spec fn char_is_lowercase(c: char) -> bool;

/// `char::is_lowercase`: true for characters with the Unicode `Lowercase`
/// property. Its documentation shows that ASCII `a`..`z` are lowercase and
/// that ASCII capitals, digits and `_` are not; that is all this states.
#[verifier::external_body]
fn is_lowercase(c: char) -> (r: bool)
    ensures
        r == char_is_lowercase(c),
        'a' <= c <= 'z' ==> r,
        ('A' <= c <= 'Z') || ('0' <= c <= '9') || c == '_' ==> !r,
{
    c.is_lowercase()
}

/// A name that is bound implicitly when used unbound: one that starts with a
/// lowercase letter.
pub open spec fn spec_is_autobindable(name: Seq<char>) -> bool {
    name.len() > 0 && char_is_lowercase(name[0])
}

/// Whether an unbound `name` may be bound automatically as an implicit parameter.
pub fn is_autobindable(name: &str) -> (r: bool)
    ensures
        r == spec_is_autobindable(name@),
        name@.len() > 0 && 'a' <= name@[0] <= 'z' ==> r,
        name@.len() > 0 && (('A' <= name@[0] <= 'Z') || ('0' <= name@[0] <= '9') || name@[0] == '_') ==> !r,
{
    let c = chars_of(name);
    if c.len() == 0 {
        false
    } else {
        is_lowercase(c[0])
    }
}

} // verus!
