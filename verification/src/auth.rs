//! The bearer token that every request carries.
use vstd::prelude::*;

use crate::text;

verus! {

/// The status of a request without the right token.
pub const UNAUTHORIZED: u16 = 401;

/// Lets a request through if its `Authorization` header is `Bearer ` and the
/// token of the server, and refuses it otherwise.
pub fn require_token(header: Option<&str>, api_token: &str) -> (r: Result<(), u16>)
    ensures
        r is Ok <==> (header is Some && header->0@ == "Bearer "@ + api_token@),
        r matches Err(status) ==> status == UNAUTHORIZED && status == 401,
{
    proof {
        reveal_strlit("Bearer ");
    }
    match header {
        Some(h) => match text::after_prefix(h, "Bearer ") {
            Some(token) => {
                if text::same_text(token, api_token) {
                    assert(h@ =~= "Bearer "@ + token@);
                    Ok(())
                } else {
                    assert(h@ == "Bearer "@ + api_token@ ==> token@ =~= api_token@);
                    Err(UNAUTHORIZED)
                }
            },
            None => {
                assert(("Bearer "@ + api_token@).take(7) =~= "Bearer "@);
                Err(UNAUTHORIZED)
            },
        },
        None => Err(UNAUTHORIZED),
    }
}

/// A request without the right token is answered that it is unauthorized.
pub proof fn law_refusal_is_unauthorized()
    ensures
        UNAUTHORIZED == 401,
{
}

} // verus!
