//! Veloce: the logic of a native Discord client — permissions, channel
//! trees, the gateway state machine and connection decisions, message
//! markup, emoji segmentation, the chat state and the plugin manager.
pub mod text;
pub mod models;
pub mod perms;
pub mod channel_tree;
pub mod commands;
pub mod events;
pub mod gateway_state;
pub mod gateway;
pub mod rest;
pub mod identity;
pub mod markdown;
pub mod emoji;
pub mod timestamp;
pub mod grouping;
pub mod cdn;
pub mod chat;
pub mod plugins;
pub mod session;
pub mod fonts;

pub use channel_tree::{build_channel_tree, TreeRow};
pub use commands::Command;
pub use events::{ConnectionState, Event};
pub use gateway::GatewayCommand;
pub use gateway_state::{GatewayAction, GatewayState};
pub use models::{
    Attachment, Channel, Embed, EmbedAuthor, EmbedField, EmbedFooter, EmbedMedia, Guild, Message,
    Overwrite, ReferencedMessage, Role, Snowflake, User,
};
pub use perms::{can_view_channel, visible_channel_ids};
