use vstd::prelude::*;

use crate::chars::push_char;
use crate::content::{text_occurrences, Text};
use crate::identity::{dec_text, write_decimal, Id};

verus! {

/// Whether a message is an ordinary one, with a sender, or a service notice.
#[derive(Debug)]
pub enum MessageType {
    Service,
    Message { from: Option<String>, from_id: Id },
}

/// A decoded message record.
#[derive(Debug)]
pub struct Message {
    pub id: i64,
    pub msg_type: MessageType,
    pub date: String,
    pub date_unixtime: String,
    pub text: Text,
    pub mime_type: Option<String>,
    pub reply_to_message_id: Option<i64>,
}

/// A decoded chat export: its name, id and messages in document order.
#[derive(Debug)]
pub struct ChatData {
    pub name: String,
    pub id: i64,
    pub messages: Vec<Message>,
}

/// The label given to a sender whose display name is absent.
pub open spec fn fallback_name(id: Id) -> Seq<char> {
    seq!['U', 's', 'e', 'r', '#'] + dec_text(id.num_spec() as int)
}

/// The sender identity of a message: present for ordinary messages only.
pub open spec fn sender_id_spec(m: Message) -> Option<Id> {
    match m.msg_type {
        MessageType::Message { from_id, .. } => Some(from_id),
        MessageType::Service => None,
    }
}

/// The display label of a message's sender: the stored name, or the fallback.
pub open spec fn sender_name_spec(m: Message) -> Option<Seq<char>> {
    match m.msg_type {
        MessageType::Message { from, from_id } => match from {
            Some(f) => Some(f@),
            None => Some(fallback_name(from_id)),
        },
        MessageType::Service => None,
    }
}

impl Message {
    /// Occurrences of `pattern` in the message's content.
    pub fn count(&self, pattern: &str) -> (r: usize)
        requires
            text_occurrences(self.text, pattern@) <= usize::MAX,
        ensures
            r == text_occurrences(self.text, pattern@),
    {
        self.text.count(pattern)
    }

    /// Whether this is an ordinary message rather than a service notice.
    pub fn is_message(&self) -> (r: bool)
        ensures
            r == (self.msg_type is Message),
    {
        match self.msg_type {
            MessageType::Message { .. } => true,
            MessageType::Service => false,
        }
    }

    /// The sender's identity, for ordinary messages.
    pub fn sender_id(&self) -> (r: Option<Id>)
        ensures
            r == sender_id_spec(*self),
    {
        match &self.msg_type {
            MessageType::Message { from_id, .. } => Some(*from_id),
            MessageType::Service => None,
        }
    }

    /// The sender's display label, for ordinary messages: the stored name, or
    /// `User#<id>` when it is absent.
    pub fn sender_name(&self) -> (r: Option<String>)
        ensures
            r matches Some(s) ==> sender_name_spec(*self) == Some(s@),
            r is None <==> sender_name_spec(*self) is None,
    {
        match &self.msg_type {
            MessageType::Message { from, from_id } => match from {
                Some(f) => Some(f.clone()),
                None => {
                    let mut out = String::new();
                    push_char(&mut out, 'U');
                    push_char(&mut out, 's');
                    push_char(&mut out, 'e');
                    push_char(&mut out, 'r');
                    push_char(&mut out, '#');
                    assert(out@ =~= seq!['U', 's', 'e', 'r', '#']);
                    write_decimal(from_id.as_num(), &mut out);
                    Some(out)
                },
            },
            MessageType::Service => None,
        }
    }
}

} // verus!
