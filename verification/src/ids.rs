//! Identifiers of the Matrix network.

use vstd::prelude::*;

verus! {

/// Whether a text is the id of a Matrix user, as `matrix_sdk::ruma::UserId` reads it.
pub uninterp spec fn is_user_id(text: Seq<char>) -> bool;

/// Whether a text is the id of a Matrix event, as `matrix_sdk::ruma::EventId` reads it.
pub uninterp spec fn is_event_id(text: Seq<char>) -> bool;

/// Parses a text with `matrix_sdk::ruma::UserId::parse` and says whether it was accepted. The
/// answer depends on the text alone; an accepted one starts with `@` and holds a colon.
#[verifier::external_body]
pub(crate) fn reads_as_user_id(text: &str) -> (r: bool)
    ensures
        r == is_user_id(text@),
        r ==> text@.len() > 0 && text@[0] == '@' && text@.contains(':'),
{
    matrix_sdk::ruma::UserId::parse(text).is_ok()
}

/// Parses a text with `matrix_sdk::ruma::EventId::parse` and says whether it was accepted. The
/// answer depends on the text alone; an accepted one starts with `$`.
#[verifier::external_body]
pub(crate) fn reads_as_event_id(text: &str) -> (r: bool)
    ensures
        r == is_event_id(text@),
        r ==> text@.len() > 0 && text@[0] == '$',
{
    matrix_sdk::ruma::EventId::parse(text).is_ok()
}

} // verus!
