//! What a caught panic carries.

use vstd::prelude::*;

verus! {

/// The payload of a panic: an owned text, a literal, or something else.
#[derive(Debug)]
pub enum Payload {
    Owned(String),
    Literal(&'static str),
    Other,
}

/// The text of a payload.
pub open spec fn message_of(payload: Payload) -> Seq<char> {
    match payload {
        Payload::Owned(s) => s@,
        Payload::Literal(s) => s@,
        Payload::Other => "panic with a non-string payload"@,
    }
}

/// The message of a panic, or a fixed text where its payload is no text.
pub fn panic_message(payload: &Payload) -> (r: String)
    ensures
        r@ == message_of(*payload),
        payload matches Payload::Owned(s) ==> r@ == s@,
        payload matches Payload::Literal(s) ==> r@ == s@,
        payload is Other ==> r@ == "panic with a non-string payload"@,
{
    match payload {
        Payload::Owned(s) => s.clone(),
        Payload::Literal(s) => (*s).to_owned(),
        Payload::Other => "panic with a non-string payload".to_owned(),
    }
}

/// A payload that is a text is its own message, owned or not, so that the two
/// cannot be told apart by it. Any other payload has one fixed message.
pub proof fn law_a_text_is_its_own_message(payload: Payload)
    ensures
        payload matches Payload::Owned(s) ==> message_of(payload) == s@,
        payload matches Payload::Literal(s) ==> message_of(payload) == s@,
        payload is Other ==> message_of(payload) == "panic with a non-string payload"@,
{
}

} // verus!
