//! A message as the remote source hands it over, and its mathematical view.

use crate::words::clone_bytes;
use vstd::prelude::*;

verus! {

/// A reply reference: the channel the referenced message sits in, and its
/// snowflake when the source could name one.
#[derive(Clone, Copy)]
pub struct ReplyRef {
    pub channel: u64,
    pub message_id: Option<u64>,
}

/// A message from the remote source.
pub struct Message {
    pub id: u64,
    pub channel: u64,
    pub author: u64,
    pub author_name: Vec<u8>,
    pub author_is_bot: bool,
    pub content: Vec<u8>,
    pub timestamp: i64,
    pub reference: Option<ReplyRef>,
}

/// The view of a message: byte strings become sequences.
#[verifier::ext_equal]
pub struct MsgView {
    pub id: u64,
    pub channel: u64,
    pub author: u64,
    pub author_name: Seq<u8>,
    pub author_is_bot: bool,
    pub content: Seq<u8>,
    pub timestamp: i64,
    pub reference: Option<ReplyRef>,
}

impl View for Message {
    type V = MsgView;

    open spec fn view(&self) -> MsgView {
        MsgView {
            id: self.id,
            channel: self.channel,
            author: self.author,
            author_name: self.author_name@,
            author_is_bot: self.author_is_bot,
            content: self.content@,
            timestamp: self.timestamp,
            reference: self.reference,
        }
    }
}

impl DeepView for Message {
    type V = MsgView;

    open spec fn deep_view(&self) -> MsgView {
        self@
    }
}

impl Message {
    /// Copies the message.
    pub fn duplicate(&self) -> (r: Message)
        ensures
            r@ == self@,
    {
        Message {
            id: self.id,
            channel: self.channel,
            author: self.author,
            author_name: clone_bytes(&self.author_name),
            author_is_bot: self.author_is_bot,
            content: clone_bytes(&self.content),
            timestamp: self.timestamp,
            reference: self.reference,
        }
    }
}

} // verus!
