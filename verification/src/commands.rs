//! Requests from the interface to the network side.
use vstd::prelude::*;

use crate::models::Snowflake;

verus! {

#[derive(Debug, Clone)]
pub enum Command {
    SelectGuild(Snowflake),
    FetchHistory(Snowflake),
    SendMessage { channel_id: Snowflake, content: String },
}

} // verus!
