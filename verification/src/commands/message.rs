//! What is said to people.

use vstd::prelude::*;

use crate::text::copy_text;

verus! {

/// A line for people.
pub enum Message {
    /// Something was done.
    Success(String),
    /// Something worth knowing.
    Info(String),
    /// Something to take care of.
    Warn(String),
}

/// What a [`Message`] says.
#[verifier::ext_equal]
pub enum MessageV {
    Success(Seq<char>),
    Info(Seq<char>),
    Warn(Seq<char>),
}

impl View for Message {
    type V = MessageV;

    open spec fn view(&self) -> MessageV {
        match *self {
            Message::Success(s) => MessageV::Success(s@),
            Message::Info(s) => MessageV::Info(s@),
            Message::Warn(s) => MessageV::Warn(s@),
        }
    }
}

/// What some messages say.
pub open spec fn said(messages: Seq<Message>) -> Seq<MessageV> {
    Seq::new(messages.len(), |i: int| messages[i]@)
}

/// One text behind another.
pub(crate) fn concat(a: &str, b: &str) -> (r: String)
    ensures
        r@ == a@ + b@,
{
    let mut r = copy_text(a);
    r.append(b);
    r
}

} // verus!
