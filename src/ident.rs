use vstd::prelude::*;
use uuid::Uuid;

verus! {

/// uuid's identifier type, carried through as an opaque value.
#[verifier::external_type_specification]
#[verifier::external_body]
pub struct ExUuid(Uuid);

/// Relies on uuid::Uuid::new_v4: a random version-4 identifier, so nothing
/// is known of its value.
pub assume_specification[ Uuid::new_v4 ]() -> Uuid;

/// A lowercase hexadecimal digit.
pub open spec fn is_lower_hex(c: char) -> bool {
    ('0' <= c && c <= '9') || ('a' <= c && c <= 'f')
}

/// The hyphenated 8-4-4-4-12 form of a UUID: 36 characters, dashes at
/// positions 8, 13, 18 and 23, lowercase hexadecimal digits elsewhere.
pub open spec fn hyphenated_form(s: Seq<char>) -> bool {
    &&& s.len() == 36
    &&& forall|i: int|
        0 <= i < 36 ==> if i == 8 || i == 13 || i == 18 || i == 23 {
            #[trigger] s[i] == '-'
        } else {
            is_lower_hex(s[i])
        }
}

/// Relies on uuid's `Display` for `Uuid`, which writes the lowercase
/// hyphenated 8-4-4-4-12 form.
#[verifier::external_body]
pub(crate) fn uuid_text(u: &Uuid) -> (r: String)
    ensures
        hyphenated_form(r@),
{
    u.to_string()
}

} // verus!
