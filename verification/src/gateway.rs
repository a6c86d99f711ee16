//! Gateway decisions that do not need the socket: the reconnection backoff,
//! the guilds of a READY payload, and the events each dispatch produces.
use vstd::prelude::*;

use crate::events::{ConnectionState, Event};
use crate::gateway_state::{GatewayState, GatewayStateView};
use crate::models::{Guild, Message, Snowflake, User};
use crate::text::{copy_opt, opt_view, str_eq, to_string_of};

verus! {

pub const GATEWAY_URL: &'static str = "wss://gateway.discord.gg/?v=10&encoding=json";

/// A command for the gateway task (interface to gateway, apart from REST).
#[derive(Debug, Clone)]
pub enum GatewayCommand {
    SubscribeGuild(Snowflake),
}

/// Doubles the reconnection delay, capped at thirty seconds whatever the
/// current delay.
pub fn next_backoff(current_ms: u64) -> (r: u64)
    ensures
        r == if 2 * current_ms <= 30_000 {
            2 * current_ms
        } else {
            30_000
        },
{
    if current_ms < 15_000 {
        current_ms * 2
    } else {
        30_000
    }
}

/// The fields of one guild of a READY payload, each present only when the
/// payload holds a string there. User accounts carry the name and icon under
/// `properties`, bots at the top level.
#[derive(Debug, Clone)]
pub struct RawGuild {
    pub id: Option<String>,
    pub name: Option<String>,
    pub icon: Option<String>,
    pub properties_name: Option<String>,
    pub properties_icon: Option<String>,
}

/// The guild a READY entry describes: it needs an id and a name, top-level
/// fields winning over those under `properties`; without a name the guild is
/// unavailable and skipped.
pub open spec fn guild_from_raw(g: RawGuild) -> Option<(Seq<char>, Seq<char>, Option<Seq<char>>)> {
    match g.id {
        Some(id) => match (if g.name is Some {
            g.name
        } else {
            g.properties_name
        }) {
            Some(name) => Some(
                (
                    id@,
                    name@,
                    if g.icon is Some {
                        opt_view(g.icon)
                    } else {
                        opt_view(g.properties_icon)
                    },
                ),
            ),
            None => None,
        },
        None => None,
    }
}

/// The abstract value of a guild.
pub open spec fn guild_view(g: Guild) -> (Seq<char>, Seq<char>, Option<Seq<char>>) {
    (g.id@, g.name@, opt_view(g.icon))
}

/// The guilds that the entries describe, in order.
pub open spec fn ready_guilds_spec(raw: Seq<RawGuild>) -> Seq<(Seq<char>, Seq<char>, Option<Seq<char>>)>
    decreases raw.len(),
{
    if raw.len() == 0 {
        Seq::empty()
    } else {
        let rest = ready_guilds_spec(raw.drop_last());
        match guild_from_raw(raw.last()) {
            Some(g) => rest.push(g),
            None => rest,
        }
    }
}

/// One READY entry as a guild, if it describes one.
pub fn parse_one_guild(g: &RawGuild) -> (r: Option<Guild>)
    ensures
        match r {
            Some(guild) => guild_from_raw(*g) == Some(guild_view(guild)),
            None => guild_from_raw(*g) is None,
        },
{
    let id = match &g.id {
        Some(id) => id.clone(),
        None => return None,
    };
    let name = match &g.name {
        Some(n) => n.clone(),
        None => match &g.properties_name {
            Some(n) => n.clone(),
            None => return None,
        },
    };
    let icon = if g.icon.is_some() {
        copy_opt(&g.icon)
    } else {
        copy_opt(&g.properties_icon)
    };
    Some(Guild { id, name, icon })
}

/// The guilds of a READY payload, entry by entry, so that one malformed
/// entry does not empty the list.
pub fn parse_ready_guilds(raw: &[RawGuild]) -> (r: Vec<Guild>)
    ensures
        r@.map_values(|g: Guild| guild_view(g)) == ready_guilds_spec(raw@),
{
    let mut out: Vec<Guild> = Vec::new();
    let mut i: usize = 0;
    while i < raw.len()
        invariant
            i <= raw@.len(),
            out@.map_values(|g: Guild| guild_view(g)) == ready_guilds_spec(raw@.take(i as int)),
        decreases raw@.len() - i,
    {
        let ghost before = out@.map_values(|g: Guild| guild_view(g));
        assert(raw@.take(i + 1).drop_last() == raw@.take(i as int));
        assert(raw@.take(i + 1).last() == raw@[i as int]);
        match parse_one_guild(&raw[i]) {
            Some(g) => {
                out.push(g);
                assert(out@.map_values(|g: Guild| guild_view(g)) == before.push(
                    guild_view(out@.last()),
                ));
            },
            None => {},
        }
        i = i + 1;
    }
    assert(raw@.take(i as int) == raw@);
    out
}

/// What a dispatch payload carries, as read by the caller: the event name,
/// the READY session id, user and guilds, a decoded message, and the ids of
/// a deleted message.
pub struct DispatchData {
    pub session_id: Option<String>,
    pub user: Option<User>,
    pub guilds: Vec<Guild>,
    pub message: Option<Message>,
    pub deleted_id: Option<String>,
    pub deleted_channel_id: Option<String>,
}

/// The gateway state after a dispatch: READY records its session id, when
/// it has one.
pub open spec fn dispatch_state(st: GatewayStateView, t: Seq<char>, d: DispatchData) -> GatewayStateView {
    if t == "READY"@ {
        match d.session_id {
            Some(sid) => GatewayStateView { session_id: Some(sid@), ..st },
            None => st,
        }
    } else {
        st
    }
}

/// Whether `evs` are the events of a dispatch named `t` carrying `d`.
/// READY reports the connection, then the user and guilds, or an error
/// when the user could not be read; MESSAGE_CREATE and MESSAGE_UPDATE
/// report the message when it could be decoded; MESSAGE_DELETE reports the
/// ids when both are there; every other event produces nothing.
pub open spec fn dispatched(t: Seq<char>, d: DispatchData, evs: Seq<Event>) -> bool {
    if t == "READY"@ {
        &&& evs.len() == 2
        &&& evs[0] == Event::Connection(ConnectionState::Connected)
        &&& match d.user {
            Some(u) => evs[1] == Event::Ready { user: u, guilds: d.guilds },
            None => evs[1] matches Event::Error(e) && e@ == "READY sans user déchiffrable"@,
        }
    } else if t == "MESSAGE_CREATE"@ {
        evs == match d.message {
            Some(m) => seq![Event::MessageCreated(m)],
            None => Seq::<Event>::empty(),
        }
    } else if t == "MESSAGE_UPDATE"@ {
        evs == match d.message {
            Some(m) => seq![Event::MessageUpdated(m)],
            None => Seq::<Event>::empty(),
        }
    } else if t == "MESSAGE_DELETE"@ {
        evs == match (d.deleted_id, d.deleted_channel_id) {
            (Some(id), Some(cid)) => seq![Event::MessageDeleted { id, channel_id: cid }],
            _ => Seq::<Event>::empty(),
        }
    } else {
        evs.len() == 0
    }
}

/// The events a dispatch produces, and the session READY records.
pub fn dispatch_event(t: &str, d: DispatchData, state: &mut GatewayState) -> (r: Vec<Event>)
    ensures
        final(state)@ == dispatch_state(old(state)@, t@, d),
        dispatched(t@, d, r@),
{
    proof {
        reveal_strlit("READY");
        reveal_strlit("MESSAGE_CREATE");
        reveal_strlit("MESSAGE_UPDATE");
        reveal_strlit("MESSAGE_DELETE");
        assert("READY"@.len() == 5);
        assert("MESSAGE_CREATE"@.len() == 14);
        assert("MESSAGE_UPDATE"@.len() == 14);
        assert("READY"@ != "MESSAGE_CREATE"@);
        assert("READY"@ != "MESSAGE_UPDATE"@);
        assert("READY"@ != "MESSAGE_DELETE"@);
        assert("MESSAGE_CREATE"@[8] != "MESSAGE_UPDATE"@[8]);
        assert("MESSAGE_CREATE"@[8] != "MESSAGE_DELETE"@[8]);
        assert("MESSAGE_UPDATE"@[8] != "MESSAGE_DELETE"@[8]);
    }
    let mut out: Vec<Event> = Vec::new();
    if str_eq(t, "READY") {
        if let Some(sid) = d.session_id {
            state.set_session(sid);
        }
        out.push(Event::Connection(ConnectionState::Connected));
        match d.user {
            Some(user) => out.push(Event::Ready { user, guilds: d.guilds }),
            None => out.push(Event::Error(to_string_of("READY sans user déchiffrable"))),
        }
    } else if str_eq(t, "MESSAGE_CREATE") {
        if let Some(m) = d.message {
            out.push(Event::MessageCreated(m));
        }
    } else if str_eq(t, "MESSAGE_UPDATE") {
        if let Some(m) = d.message {
            out.push(Event::MessageUpdated(m));
        }
    } else if str_eq(t, "MESSAGE_DELETE") {
        match (d.deleted_id, d.deleted_channel_id) {
            (Some(id), Some(cid)) => out.push(Event::MessageDeleted { id, channel_id: cid }),
            _ => {},
        }
    }
    out
}

/// What each dispatch reports, by its name alone: MESSAGE_CREATE and
/// MESSAGE_UPDATE carrying a decoded message report exactly that message as
/// created or updated; MESSAGE_DELETE carrying both ids reports exactly
/// that deletion; READY reports the connection, then the user and guilds or
/// an error, and records the session it carries; a name that is none of
/// these four reports nothing; and only READY touches the gateway state.
pub proof fn law_dispatch_by_name(
    t: Seq<char>,
    d: DispatchData,
    evs: Seq<Event>,
    st: GatewayStateView,
    m: Message,
    id: Snowflake,
    cid: Snowflake,
    u: User,
    sid: String,
)
    requires
        dispatched(t, d, evs),
    ensures
        t == "READY"@ && d.user == Some(u) ==> evs[1] == (Event::Ready { user: u, guilds: d.guilds }),
        t == "READY"@ && d.user is None ==> (evs[1] is Error),
        t == "READY"@ && d.session_id == Some(sid) ==> dispatch_state(st, t, d) == (GatewayStateView {
            session_id: Some(sid@),
            ..st
        }),
        t == "MESSAGE_CREATE"@ && d.message == Some(m) ==> evs == seq![Event::MessageCreated(m)],
        t == "MESSAGE_UPDATE"@ && d.message == Some(m) ==> evs == seq![Event::MessageUpdated(m)],
        t == "MESSAGE_DELETE"@ && d.deleted_id == Some(id) && d.deleted_channel_id == Some(cid)
            ==> evs == seq![(Event::MessageDeleted { id, channel_id: cid })],
        (t == "MESSAGE_CREATE"@ || t == "MESSAGE_UPDATE"@) && d.message is None ==> evs.len() == 0,
        t == "READY"@ ==> evs.len() == 2 && evs[0] == Event::Connection(ConnectionState::Connected),
        t != "READY"@ && t != "MESSAGE_CREATE"@ && t != "MESSAGE_UPDATE"@ && t != "MESSAGE_DELETE"@
            ==> evs.len() == 0,
        t != "READY"@ ==> dispatch_state(st, t, d) == st,
{
    reveal_strlit("READY");
    reveal_strlit("MESSAGE_CREATE");
    reveal_strlit("MESSAGE_UPDATE");
    reveal_strlit("MESSAGE_DELETE");
    assert("READY"@.len() == 5);
    assert("MESSAGE_CREATE"@.len() == 14);
    assert("MESSAGE_UPDATE"@.len() == 14);
    assert("READY"@ != "MESSAGE_CREATE"@);
    assert("READY"@ != "MESSAGE_UPDATE"@);
    assert("READY"@ != "MESSAGE_DELETE"@);
    assert("MESSAGE_CREATE"@[8] != "MESSAGE_UPDATE"@[8]);
    assert("MESSAGE_CREATE"@[8] != "MESSAGE_DELETE"@[8]);
    assert("MESSAGE_UPDATE"@[8] != "MESSAGE_DELETE"@[8]);
}

} // verus!
