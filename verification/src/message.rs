//! Inbound message values as the transport collaborator delivers them.

use vstd::prelude::*;

verus! {

/// An inbound chat message, immutable once delivered.
///
/// The transport collaborator authenticates the sender and parses the
/// event; the core only reads these plain fields.
pub struct Message {
    /// Id of the user who sent the message.
    pub author_id: u64,
    /// Id of the channel the message arrived in.
    pub channel_id: u64,
    /// Id of the guild the channel belongs to, if any; direct messages
    /// have none.
    pub guild_id: Option<u64>,
    /// The raw text of the message.
    pub content: String,
    /// Whether the author is one of the configured owners; derived once
    /// by [`Message::new`] from the owner id set.
    pub is_from_owner: bool,
}

impl Message {
    /// Builds a message, deriving `is_from_owner` from the configured
    /// owner id set.
    pub fn new(
        author_id: u64,
        channel_id: u64,
        guild_id: Option<u64>,
        content: String,
        owner_ids: &Vec<u64>,
    ) -> (m: Message)
        ensures
            m.author_id == author_id,
            m.channel_id == channel_id,
            m.guild_id == guild_id,
            m.content == content,
            m.is_from_owner == owner_ids@.contains(author_id),
    {
        let is_from_owner = contains_id(owner_ids, author_id);
        Message { author_id, channel_id, guild_id, content, is_from_owner }
    }
}

/// What the plain-message event handler should do for a message that
/// is not a framework command.
#[derive(Clone, Copy, PartialEq, Eq, Structural, Debug)]
pub enum MessageAction {
    /// Reply "Pong!" in the same channel.
    Pong,
    /// Greet the author in a direct message.
    DirectGreeting,
    /// Report who pinged which channel, built from the message's
    /// metadata.
    ChannelReport,
    /// Say nothing.
    Silent,
}

/// The action owed for a plain message with this exact text.
pub open spec fn action_for(content: Seq<char>) -> MessageAction {
    if content == "!ping"@ {
        MessageAction::Pong
    } else if content == "!messageme"@ {
        MessageAction::DirectGreeting
    } else if content == "!builder"@ {
        MessageAction::ChannelReport
    } else {
        MessageAction::Silent
    }
}

/// The plain-message event handler: decides, from the text alone, how
/// to react to messages that are not framework commands. The transport
/// collaborator performs the chosen action.
pub struct Handler;

impl Handler {
    /// The action owed for `content` (see [`action_for`]).
    pub fn plan(&self, content: &String) -> (a: MessageAction)
        ensures
            a == action_for(content@),
    {
        if *content == "!ping".to_owned() {
            MessageAction::Pong
        } else if *content == "!messageme".to_owned() {
            MessageAction::DirectGreeting
        } else if *content == "!builder".to_owned() {
            MessageAction::ChannelReport
        } else {
            MessageAction::Silent
        }
    }
}

/// Whether `ids` holds `id`.
pub fn contains_id(ids: &Vec<u64>, id: u64) -> (r: bool)
    ensures
        r == ids@.contains(id),
{
    let mut i: usize = 0;
    while i < ids.len()
        invariant
            i <= ids.len(),
            forall|j: int| 0 <= j < i ==> ids@[j] != id,
        decreases ids.len() - i,
    {
        if ids[i] == id {
            return true;
        }
        i = i + 1;
    }
    false
}

} // verus!
