//! Identifiers of photos, galleries and jobs.
use vstd::prelude::*;

use crate::text;

verus! {

/// Whether a text has the form of a random identifier: five groups of
/// lowercase hexadecimal digits with hyphens between them, the third group
/// starting with `4` and the fourth with `8`, `9`, `a` or `b`.
pub open spec fn is_id(s: Seq<char>) -> bool {
    &&& s.len() == 36
    &&& forall|i: int|
        0 <= i < 36 ==> if i == 8 || i == 13 || i == 18 || i == 23 {
            #[trigger] s[i] == '-'
        } else {
            text::is_hex(s[i])
        }
    &&& s[14] == '4'
    &&& s[19] == '8' || s[19] == '9' || s[19] == 'a' || s[19] == 'b'
}

/// A fresh identifier: `uuid::Uuid::new_v4` in its `Display` form. It differs
/// from call to call; that it has the form of a random identifier is all that
/// is claimed of it.
#[verifier::external_body]
pub(crate) fn random_id() -> (r: String)
    ensures
        is_id(r@),
{
    uuid::Uuid::new_v4().to_string()
}

/// A fresh identifier.
pub fn new_id() -> (r: String)
    ensures
        is_id(r@),
{
    random_id()
}

/// An identifier has five groups of small hexadecimal digits, of eight, four,
/// four, four and twelve, with a dash between them, and tells its version.
pub proof fn law_identifier_has_five_groups(s: Seq<char>, i: int)
    requires
        is_id(s),
        0 <= i < s.len(),
    ensures
        s.len() == 36,
        s[14] == '4',
        i == 8 || i == 13 || i == 18 || i == 23 <==> s[i] == '-',
        s[i] != '-' ==> ('0' <= s[i] <= '9') || ('a' <= s[i] <= 'f'),
{
}

} // verus!
