//! Fresh identifiers: record ids and the random suffixes that keep file
//! names apart.

use vstd::prelude::*;
use crate::organizer::conflict_suffix;
use crate::text::all_lower_hex;

verus! {

#[verifier::external_type_specification]
#[verifier::external_body]
pub struct ExUuid(uuid::Uuid);

/// `uuid::Uuid::new_v4`: a random identifier. Nothing is claimed of it.
#[verifier::external_body]
fn new_v4_uuid() -> (r: uuid::Uuid) {
    uuid::Uuid::new_v4()
}

/// `Uuid`'s `Display`: the hyphenated lower-case form, 36 characters.
#[verifier::external_body]
fn hyphenated_text(u: &uuid::Uuid) -> (r: String)
    ensures
        r@.len() == 36,
{
    u.to_string()
}

/// `Uuid::simple` displayed: 32 lower-case hexadecimal digits.
#[verifier::external_body]
fn simple_text(u: &uuid::Uuid) -> (r: String)
    ensures
        r@.len() == 32,
        all_lower_hex(r@),
{
    u.simple().to_string()
}

/// A fresh random identifier in hyphenated form.
pub fn new_id() -> (r: String)
    ensures
        r@.len() == 36,
{
    let u = new_v4_uuid();
    hyphenated_text(&u)
}

/// A fresh random suffix of six lower-case hexadecimal digits for a file
/// name that is taken.
pub fn random_suffix() -> (r: String)
    ensures
        r@.len() == 6,
        all_lower_hex(r@),
{
    let u = new_v4_uuid();
    let token = simple_text(&u);
    let r = conflict_suffix(token.as_str());
    assert forall|i: int| 0 <= i < r@.len() implies crate::text::is_lower_hex(#[trigger] r@[i]) by {
        assert(r@[i] == token@[i]);
    }
    r
}

} // verus!
