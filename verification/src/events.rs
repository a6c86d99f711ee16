//! What the network side reports to the interface.
use vstd::prelude::*;

use crate::models::{Channel, Guild, Message, Role, Snowflake, User};

verus! {

#[derive(Debug, Clone, Copy, PartialEq, Eq, Structural)]
pub enum ConnectionState {
    Connecting,
    Connected,
    Reconnecting,
    Disconnected,
}

#[derive(Debug, Clone)]
pub enum Event {
    Connection(ConnectionState),
    Ready { user: User, guilds: Vec<Guild> },
    GuildChannels {
        guild_id: Snowflake,
        channels: Vec<Channel>,
        roles: Vec<Role>,
        owner_id: Snowflake,
        member_roles: Vec<Snowflake>,
        me_id: Snowflake,
    },
    MessagesLoaded { channel_id: Snowflake, messages: Vec<Message> },
    MessageCreated(Message),
    MessageUpdated(Message),
    MessageDeleted { id: Snowflake, channel_id: Snowflake },
    Error(String),
    /// Authentication failed (invalid or expired token), as opposed to a
    /// transient network error.
    AuthFailed(String),
}

} // verus!
