//! How the REST client reads an HTTP status, and what its replies to the
//! interface's commands become.
use vstd::prelude::*;

use crate::events::Event;
use crate::models::{Channel, Message, Role, Snowflake};

verus! {

pub const API_BASE: &'static str = "https://discord.com/api/v10";

/// What an HTTP status means for a request.
#[derive(Debug, Clone, Copy, PartialEq, Eq, Structural)]
pub enum ResponseClass {
    /// 401: the token is invalid or expired.
    Unauthorized,
    /// 429: rate limited; the `Retry-After` header says for how long.
    RateLimited,
    /// Any other status outside 200-299.
    Failed,
    /// 200-299: the body holds the answer.
    Success,
}

/// The class of an HTTP status: 401 and 429 first, then success for 2xx.
pub fn classify_status(status: u16) -> (r: ResponseClass)
    ensures
        r == if status == 401 {
            ResponseClass::Unauthorized
        } else if status == 429 {
            ResponseClass::RateLimited
        } else if 200 <= status <= 299 {
            ResponseClass::Success
        } else {
            ResponseClass::Failed
        },
{
    if status == 401 {
        ResponseClass::Unauthorized
    } else if status == 429 {
        ResponseClass::RateLimited
    } else if 200 <= status && status <= 299 {
        ResponseClass::Success
    } else {
        ResponseClass::Failed
    }
}

/// What the interface is told when a guild's channels could not be loaded.
pub const GUILD_LOAD_FAILED: &'static str = "Impossible de charger les salons du serveur";

/// The event for a selected guild: its channels, its owner and roles, and
/// the member's roles once all three replies arrived; an error when any of
/// them failed.
pub fn guild_channels_event(
    guild_id: String,
    channels: Option<Vec<Channel>>,
    guild: Option<(Snowflake, Vec<Role>)>,
    member_roles: Option<Vec<Snowflake>>,
    me_id: &str,
) -> (r: Event)
    ensures
        match (channels, guild, member_roles) {
            (Some(c), Some((owner, roles)), Some(mr)) => r matches Event::GuildChannels {
                guild_id: g,
                channels: c2,
                roles: r2,
                owner_id: o2,
                member_roles: m2,
                me_id: me2,
            } && g == guild_id && c2 == c && r2 == roles && o2 == owner && m2 == mr && me2@ == me_id@,
            _ => r matches Event::Error(e) && e@ == GUILD_LOAD_FAILED@,
        },
{
    match (channels, guild, member_roles) {
        (Some(channels), Some((owner_id, roles)), Some(member_roles)) => {
            let mut me = String::new();
            me.append(me_id);
            Event::GuildChannels { guild_id, channels, roles, owner_id, member_roles, me_id: me }
        },
        _ => {
            let mut e = String::new();
            e.append(GUILD_LOAD_FAILED);
            Event::Error(e)
        },
    }
}

/// The event for a channel's history: Discord answers newest first, the
/// interface shows the messages oldest first.
pub fn history_event(channel_id: String, reply: Result<Vec<Message>, String>) -> (r: Event)
    ensures
        match reply {
            Ok(ms) => r matches Event::MessagesLoaded { channel_id: c, messages } && c == channel_id
                && messages@ == ms@.reverse(),
            Err(e) => r == Event::Error(e),
        },
{
    match reply {
        Ok(mut ms) => {
            let ghost orig = ms@;
            let mut out: Vec<Message> = Vec::new();
            while ms.len() > 0
                invariant
                    ms@ == orig.take(ms@.len() as int),
                    out@ == orig.skip(ms@.len() as int).reverse(),
                    ms@.len() <= orig.len(),
                decreases ms@.len(),
            {
                let ghost n = ms@.len() as int;
                let m = ms.pop().unwrap();
                assert(m == orig[n - 1]);
                assert(orig.skip(n - 1) == seq![orig[n - 1]] + orig.skip(n));
                assert(orig.skip(n - 1).reverse() =~= orig.skip(n).reverse().push(orig[n - 1]));
                out.push(m);
                assert(ms@ == orig.take(n - 1));
            }
            assert(orig.skip(0) == orig);
            Event::MessagesLoaded { channel_id, messages: out }
        },
        Err(e) => Event::Error(e),
    }
}

/// The event for a sent message: the message as Discord stored it, or the
/// error.
pub fn sent_event(reply: Result<Message, String>) -> (r: Event)
    ensures
        match reply {
            Ok(m) => r == Event::MessageCreated(m),
            Err(e) => r == Event::Error(e),
        },
{
    match reply {
        Ok(m) => Event::MessageCreated(m),
        Err(e) => Event::Error(e),
    }
}

} // verus!
