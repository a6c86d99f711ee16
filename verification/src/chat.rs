//! The chat screen's state and how each network event changes it.
use vstd::prelude::*;

use crate::channel_tree::{build_channel_tree, channel_tree_spec, TreeRow};
use crate::events::{ConnectionState, Event};
use crate::models::{Channel, Guild, Message, User};
use crate::perms::{channel_visible, id_visible, ids_contain, visible_channel_ids};
use crate::commands::Command;
use crate::plugins::{after_event_all, outgoing_chain, outgoing_plugins, Plugin, PluginManager};
use crate::text::{is_blank, str_eq, trim, trim_spec};

verus! {

/// The glyph drawn before a channel of this kind.
pub open spec fn channel_icon_spec(kind: u8) -> Seq<char> {
    if kind == 2 {
        "🔊"@
    } else if kind == 5 {
        "📢"@
    } else if kind == 13 {
        "🎙"@
    } else if kind == 15 {
        "💬"@
    } else {
        "#"@
    }
}

/// Voice 🔊, announcement 📢, stage 🎙, forum 💬; `#` for text and the rest.
pub fn channel_icon(kind: u8) -> (r: &'static str)
    ensures
        r@ == channel_icon_spec(kind),
{
    match kind {
        2 => "🔊",
        5 => "📢",
        13 => "🎙",
        15 => "💬",
        _ => "#",
    }
}

/// Whether one of `ms` has this id.
pub open spec fn has_message_id(ms: Seq<Message>, id: Seq<char>) -> bool {
    exists|k: int| 0 <= k < ms.len() && (#[trigger] ms[k]).id@ == id
}

/// No two messages share an id.
pub open spec fn unique_ids(ms: Seq<Message>) -> bool {
    forall|a: int, b: int| 0 <= a < b < ms.len() ==> (#[trigger] ms[a]).id@ != (#[trigger] ms[b]).id@
}

/// True when the message should be added: none with its id is there yet.
pub fn should_append_message(existing: &[Message], incoming: &Message) -> (r: bool)
    ensures
        r == !has_message_id(existing@, incoming.id@),
{
    let mut k: usize = 0;
    while k < existing.len()
        invariant
            k <= existing@.len(),
            forall|j: int| 0 <= j < k ==> (#[trigger] existing@[j]).id@ != incoming.id@,
        decreases existing@.len() - k,
    {
        if str_eq(existing[k].id.as_str(), incoming.id.as_str()) {
            return false;
        }
        k = k + 1;
    }
    true
}

#[derive(Default)]
pub struct ChatState {
    pub user: Option<User>,
    pub guilds: Vec<Guild>,
    pub channels: Vec<Channel>,
    pub channel_tree: Vec<TreeRow>,
    pub messages: Vec<Message>,
    pub selected_guild: Option<String>,
    pub selected_channel: Option<String>,
    pub connection: Option<ConnectionState>,
    pub draft: String,
    pub last_error: Option<String>,
}

/// Whether an optional selection is `id`.
pub open spec fn selected_is(sel: Option<String>, id: Seq<char>) -> bool {
    sel matches Some(s) && s@ == id
}

/// The messages of `ms` whose id is not `id`, in order.
pub open spec fn without_id(ms: Seq<Message>, id: Seq<char>) -> Seq<Message>
    decreases ms.len(),
{
    if ms.len() == 0 {
        Seq::empty()
    } else if ms.last().id@ == id {
        without_id(ms.drop_last(), id)
    } else {
        without_id(ms.drop_last(), id).push(ms.last())
    }
}

/// The first position of a message with this id, at or after `i`.
pub open spec fn index_of_id(ms: Seq<Message>, id: Seq<char>, i: int) -> Option<int>
    decreases ms.len() - i,
{
    if i < 0 || i >= ms.len() {
        None
    } else if ms[i].id@ == id {
        Some(i)
    } else {
        index_of_id(ms, id, i + 1)
    }
}

pub proof fn lemma_index_of_id(ms: Seq<Message>, id: Seq<char>, i: int)
    ensures
        index_of_id(ms, id, i) matches Some(k) ==> 0 <= k < ms.len() && ms[k].id@ == id,
    decreases ms.len() - i,
{
    if 0 <= i < ms.len() && ms[i].id@ != id {
        lemma_index_of_id(ms, id, i + 1);
    }
}

/// The position of the first message with this id.
fn find_message(ms: &Vec<Message>, id: &str) -> (r: Option<usize>)
    ensures
        match r {
            Some(k) => index_of_id(ms@, id@, 0) == Some(k as int),
            None => index_of_id(ms@, id@, 0) is None,
        },
{
    let mut k: usize = 0;
    while k < ms.len()
        invariant
            k <= ms@.len(),
            index_of_id(ms@, id@, 0) == index_of_id(ms@, id@, k as int),
        decreases ms@.len() - k,
    {
        if str_eq(ms[k].id.as_str(), id) {
            return Some(k);
        }
        k = k + 1;
    }
    None
}

/// The ids that count as visible for a guild's channel list: all of them
/// when no role is known (permission data missing), else the visible ones.
pub open spec fn visible_for_tree(
    ids: Seq<String>,
    channels: Seq<Channel>,
    roles: Seq<crate::models::Role>,
    owner_id: Seq<char>,
    member_roles: Seq<String>,
    me_id: Seq<char>,
    guild_id: Seq<char>,
) -> bool {
    if roles.len() == 0 {
        forall|id: Seq<char>|
            ids_contain(ids, id) <==> exists|i: int|
                0 <= i < channels.len() && (#[trigger] channels[i]).id@ == id
    } else {
        (forall|j: int|
            0 <= j < ids.len() ==> id_visible(
                (#[trigger] ids[j])@,
                channels,
                roles,
                owner_id,
                member_roles,
                me_id,
                guild_id,
            )) && (forall|i: int|
            0 <= i < channels.len() && channel_visible(
                #[trigger] channels[i],
                roles,
                owner_id,
                member_roles,
                me_id,
                guild_id,
            ) ==> ids_contain(ids, channels[i].id@))
    }
}

/// The ids of all channels.
fn all_ids(channels: &[Channel]) -> (r: Vec<String>)
    ensures
        r@.len() == channels@.len(),
        forall|i: int| 0 <= i < r@.len() ==> (#[trigger] r@[i])@ == channels@[i].id@,
{
    let mut r: Vec<String> = Vec::new();
    let mut i: usize = 0;
    while i < channels.len()
        invariant
            i <= channels@.len(),
            r@.len() == i,
            forall|k: int| 0 <= k < i ==> (#[trigger] r@[k])@ == channels@[k].id@,
        decreases channels@.len() - i,
    {
        r.push(channels[i].id.clone());
        i = i + 1;
    }
    r
}

/// What applying event `ev` to the chat state `o` gives: `n`.
pub open spec fn event_applied(o: ChatState, ev: Event, n: ChatState) -> bool {
    &&& match ev {
        Event::Connection(c) => n.connection == Some(c),
        _ => n.connection == o.connection,
    }
    &&& match ev {
        Event::Ready { user, guilds } => n.user == Some(user) && n.guilds == guilds,
        _ => n.user == o.user && n.guilds == o.guilds,
    }
    &&& match ev {
        Event::GuildChannels { guild_id, channels, roles, owner_id, member_roles, me_id } => if selected_is(o.selected_guild, guild_id@) {
            &&& n.channels == channels
            &&& n.last_error is None
            &&& exists|vis: Seq<String>|
                visible_for_tree(
                    vis,
                    channels@,
                    roles@,
                    owner_id@,
                    member_roles@,
                    me_id@,
                    guild_id@,
                ) && crate::channel_tree::row_views(n.channel_tree@) == channel_tree_spec(channels@, vis)
        } else {
            &&& n.channels == o.channels
            &&& n.channel_tree == o.channel_tree
            &&& n.last_error == o.last_error
        },
        _ => n.channels == o.channels && n.channel_tree == o.channel_tree,
    }
    &&& match ev {
        Event::MessagesLoaded { channel_id, messages } => if selected_is(o.selected_channel, channel_id@) {
            n.messages == messages && n.last_error is None
        } else {
            n.messages == o.messages && n.last_error == o.last_error
        },
        Event::MessageCreated(m) => n.last_error == o.last_error && if selected_is(
            o.selected_channel,
            m.channel_id@,
        ) && !has_message_id(o.messages@, m.id@) {
            n.messages@ == o.messages@.push(m)
        } else {
            n.messages == o.messages
        },
        Event::MessageUpdated(m) => n.last_error == o.last_error && match index_of_id(o.messages@, m.id@, 0) {
            Some(k) => n.messages@ == o.messages@.update(k, m),
            None => n.messages == o.messages,
        },
        Event::MessageDeleted { id, channel_id } => n.last_error == o.last_error && n.messages@
            == without_id(o.messages@, id@),
        Event::Error(e) => n.last_error == Some(e) && n.messages == o.messages,
        Event::GuildChannels { .. } => n.messages == o.messages,
        _ => n.messages == o.messages && n.last_error == o.last_error,
    }
    &&& n.selected_guild == o.selected_guild
    &&& n.selected_channel == o.selected_channel
    &&& n.draft == o.draft
    // messages keep distinct ids, given a loaded history with distinct ids
    &&& unique_ids(o.messages@) && (ev matches Event::MessagesLoaded { messages, .. } ==> unique_ids(
        messages@,
    )) ==> unique_ids(n.messages@)
}

/// Applies a network event to the chat state. Guild channels only land for
/// the selected guild, history only for the selected channel, a created
/// message only in the selected channel and only once per id; an update
/// replaces the message with its id, a deletion removes every message with
/// its id; errors are kept for display. Authentication failures are handled
/// by the caller and change nothing here.
pub fn apply_event(state: &mut ChatState, ev: Event)
    ensures
        event_applied(*old(state), ev, *final(state)),
{
    match ev {
        Event::Connection(c) => {
            state.connection = Some(c);
        },
        Event::Ready { user, guilds } => {
            state.user = Some(user);
            state.guilds = guilds;
        },
        Event::GuildChannels { guild_id, channels, roles, owner_id, member_roles, me_id } => {
            let selected = match &state.selected_guild {
                Some(g) => str_eq(g.as_str(), guild_id.as_str()),
                None => false,
            };
            if selected {
                let visible = if roles.len() == 0 {
                    let ids = all_ids(channels.as_slice());
                    proof {
                        assert forall|id: Seq<char>|
                            ids_contain(ids@, id) <==> exists|i: int|
                                0 <= i < channels@.len() && (#[trigger] channels@[i]).id@
                                    == id by {
                            if ids_contain(ids@, id) {
                                let j = choose|j: int| 0 <= j < ids@.len() && (#[trigger] ids@[j])@ == id;
                                assert(channels@[j].id@ == id);
                            }
                            if exists|i: int|
                                0 <= i < channels@.len() && (#[trigger] channels@[i]).id@ == id {
                                let i = choose|i: int|
                                    0 <= i < channels@.len() && (#[trigger] channels@[i]).id@
                                        == id;
                                assert(ids@[i]@ == id);
                            }
                        }
                    }
                    ids
                } else {
                    visible_channel_ids(
                        channels.as_slice(),
                        roles.as_slice(),
                        owner_id.as_str(),
                        member_roles.as_slice(),
                        me_id.as_str(),
                        guild_id.as_str(),
                    )
                };
                assert(visible_for_tree(
                    visible@,
                    channels@,
                    roles@,
                    owner_id@,
                    member_roles@,
                    me_id@,
                    guild_id@,
                ));
                state.channel_tree = build_channel_tree(channels.as_slice(), visible.as_slice());
                state.channels = channels;
                state.last_error = None;
            }
        },
        Event::MessagesLoaded { channel_id, messages } => {
            let selected = match &state.selected_channel {
                Some(c) => str_eq(c.as_str(), channel_id.as_str()),
                None => false,
            };
            if selected {
                state.messages = messages;
                state.last_error = None;
            }
        },
        Event::MessageCreated(m) => {
            let selected = match &state.selected_channel {
                Some(c) => str_eq(c.as_str(), m.channel_id.as_str()),
                None => false,
            };
            if selected && should_append_message(state.messages.as_slice(), &m) {
                let ghost old_ms = state.messages@;
                state.messages.push(m);
                assert forall|a: int, b: int|
                    0 <= a < b < state.messages@.len() && unique_ids(
                        old_ms,
                    ) implies (#[trigger] state.messages@[a]).id@ != (
                #[trigger] state.messages@[b]).id@ by {
                    if b == old_ms.len() {
                        assert(state.messages@[a] == old_ms[a]);
                    } else {
                        assert(state.messages@[a] == old_ms[a]);
                        assert(state.messages@[b] == old_ms[b]);
                    }
                }
            }
        },
        Event::MessageUpdated(m) => {
            let ghost old_ms = state.messages@;
            let found = find_message(&state.messages, m.id.as_str());
            if let Some(k) = found {
                proof { lemma_index_of_id(old_ms, m.id@, 0); }
                state.messages.set(k, m);
                assert forall|a: int, b: int|
                    0 <= a < b < state.messages@.len() && unique_ids(
                        old_ms,
                    ) implies (#[trigger] state.messages@[a]).id@ != (
                #[trigger] state.messages@[b]).id@ by {
                    assert(state.messages@[a].id@ == old_ms[a].id@);
                    assert(state.messages@[b].id@ == old_ms[b].id@);
                }
            }
        },
        Event::MessageDeleted { id, .. } => {
            let ghost old_ms = state.messages@;
            let mut kept: Vec<Message> = Vec::new();
            let mut rest: Vec<Message> = Vec::new();
            std::mem::swap(&mut rest, &mut state.messages);
            let ghost mut i: int = 0;
            // walk the messages in order, keeping those with another id
            while rest.len() > 0
                invariant
                    0 <= i <= old_ms.len(),
                    rest@ == old_ms.skip(i),
                    kept@ == without_id(old_ms.take(i), id@),
                decreases rest@.len(),
            {
                let m = rest.remove(0);
                assert(m == old_ms[i]);
                assert(old_ms.take(i + 1).drop_last() == old_ms.take(i));
                assert(old_ms.take(i + 1).last() == old_ms[i]);
                if !str_eq(m.id.as_str(), id.as_str()) {
                    kept.push(m);
                }
                proof {
                    i = i + 1;
                }
                assert(rest@ == old_ms.skip(i));
            }
            assert(old_ms.take(i) == old_ms);
            state.messages = kept;
            proof {
                lemma_without_id_unique(old_ms, id@);
            }
        },
        Event::Error(e) => {
            state.last_error = Some(e);
        },
        Event::AuthFailed(_) => {},
    }
}

/// Receives one event from the network: the enabled plugins observe it
/// first; an authentication failure is handed back to the caller, which
/// returns to the token screen, and changes nothing else; every other event
/// is applied to the chat state.
pub fn receive_event<P: Plugin>(state: &mut ChatState, plugins: &mut PluginManager<P>, ev: Event) -> (r:
    Option<String>)
    requires
        old(plugins).wf(),
    ensures
        final(plugins).wf(),
        final(plugins).plugins_view() == after_event_all(
            old(plugins).plugins_view(),
            old(plugins).enabled_flags(),
            ev,
        ),
        final(plugins).names_view() == old(plugins).names_view(),
        final(plugins).entries() == old(plugins).entries(),
        match ev {
            Event::AuthFailed(m) => r == Some(m) && *final(state) == *old(state),
            _ => r is None && event_applied(*old(state), ev, *final(state)),
        },
{
    plugins.dispatch_event(&ev);
    match ev {
        Event::AuthFailed(m) => Some(m),
        _ => {
            apply_event(state, ev);
            None
        },
    }
}

/// Whether clicking a channel of this kind opens its history: text,
/// announcement and forum channels do; voice and stage channels do nothing.
pub open spec fn selectable_spec(kind: u8) -> bool {
    kind == 0 || kind == 5 || kind == 15
}

pub fn is_selectable(kind: u8) -> (r: bool)
    ensures
        r == selectable_spec(kind),
{
    kind == 0 || kind == 5 || kind == 15
}

/// The user clicked a guild: it becomes the selected one, its channel list
/// is emptied until it arrives, and the request for it is returned.
pub fn select_guild(state: &mut ChatState, guild_id: String) -> (r: Command)
    ensures
        r == Command::SelectGuild(guild_id),
        final(state).selected_guild == Some(guild_id),
        final(state).channels@.len() == 0,
        final(state).channel_tree@.len() == 0,
        final(state).user == old(state).user,
        final(state).guilds == old(state).guilds,
        final(state).messages == old(state).messages,
        final(state).selected_channel == old(state).selected_channel,
        final(state).connection == old(state).connection,
        final(state).draft == old(state).draft,
        final(state).last_error == old(state).last_error,
{
    state.selected_guild = Some(guild_id.clone());
    state.channels = Vec::new();
    state.channel_tree = Vec::new();
    Command::SelectGuild(guild_id)
}

/// The user clicked a channel: a text-like channel becomes the selected
/// one, its messages are emptied until its history arrives, and the request
/// for that history is returned; clicking another kind changes nothing.
pub fn select_channel(state: &mut ChatState, channel: &Channel) -> (r: Option<Command>)
    ensures
        if selectable_spec(channel.kind) {
            &&& r == Some(Command::FetchHistory(channel.id))
            &&& final(state).selected_channel == Some(channel.id)
            &&& final(state).messages@.len() == 0
            &&& final(state).user == old(state).user
            &&& final(state).guilds == old(state).guilds
            &&& final(state).channels == old(state).channels
            &&& final(state).channel_tree == old(state).channel_tree
            &&& final(state).selected_guild == old(state).selected_guild
            &&& final(state).connection == old(state).connection
            &&& final(state).draft == old(state).draft
            &&& final(state).last_error == old(state).last_error
        } else {
            r is None && *final(state) == *old(state)
        },
{
    if is_selectable(channel.kind) {
        state.selected_channel = Some(channel.id.clone());
        state.messages = Vec::new();
        Some(Command::FetchHistory(channel.id.clone()))
    } else {
        None
    }
}

/// The user sent the draft. With a channel selected and a draft that is
/// not blank, the trimmed draft goes through the enabled plugins in turn,
/// what they make of it is returned as the message to send unless it is
/// blank, and the draft is cleared; otherwise nothing happens.
pub fn submit_draft<P: Plugin>(state: &mut ChatState, plugins: &mut PluginManager<P>) -> (r: Option<
    Command,
>)
    requires
        old(plugins).wf(),
    ensures
        final(plugins).wf(),
        final(plugins).names_view() == old(plugins).names_view(),
        final(plugins).entries() == old(plugins).entries(),
        if is_blank(old(state).draft@) || old(state).selected_channel is None {
            r is None && *final(state) == *old(state) && *final(plugins) == *old(plugins)
        } else {
            let sent = outgoing_chain(
                old(plugins).plugins_view(),
                old(plugins).enabled_flags(),
                trim_spec(old(state).draft@),
                old(plugins).plugins_view().len() as int,
            );
            &&& final(plugins).plugins_view() == outgoing_plugins(
                old(plugins).plugins_view(),
                old(plugins).enabled_flags(),
                trim_spec(old(state).draft@),
            )
            &&& final(state).draft@.len() == 0
            &&& if is_blank(sent) {
                r is None
            } else {
                r matches Some(Command::SendMessage { channel_id, content }) && Some(channel_id)
                    == old(state).selected_channel && content@ == sent
            }
            &&& final(state).user == old(state).user
            &&& final(state).guilds == old(state).guilds
            &&& final(state).channels == old(state).channels
            &&& final(state).channel_tree == old(state).channel_tree
            &&& final(state).messages == old(state).messages
            &&& final(state).selected_guild == old(state).selected_guild
            &&& final(state).selected_channel == old(state).selected_channel
            &&& final(state).connection == old(state).connection
            &&& final(state).last_error == old(state).last_error
        },
{
    let trimmed = trim(state.draft.as_str());
    if trimmed.as_str().is_empty() {
        return None;
    }
    let cid = match &state.selected_channel {
        Some(c) => c.clone(),
        None => {
            return None;
        },
    };
    let mut content = trimmed;
    plugins.apply_outgoing(&mut content);
    state.draft = String::new();
    let left = trim(content.as_str());
    if left.as_str().is_empty() {
        None
    } else {
        Some(Command::SendMessage { channel_id: cid, content })
    }
}

/// The connection status shown above the guild list.
pub open spec fn status_label_spec(c: Option<ConnectionState>) -> Seq<char> {
    match c {
        Some(ConnectionState::Connected) => "● connecté"@,
        Some(ConnectionState::Reconnecting) => "○ reconnexion…"@,
        Some(ConnectionState::Connecting) => "○ connexion…"@,
        _ => "○ hors ligne"@,
    }
}

pub fn status_label(c: Option<ConnectionState>) -> (r: &'static str)
    ensures
        r@ == status_label_spec(c),
{
    match c {
        Some(ConnectionState::Connected) => "● connecté",
        Some(ConnectionState::Reconnecting) => "○ reconnexion…",
        Some(ConnectionState::Connecting) => "○ connexion…",
        _ => "○ hors ligne",
    }
}

/// The name shown for a message's author: the display name when there is
/// one, else the user name.
pub fn display_name(user: &User) -> (r: String)
    ensures
        r@ == match user.global_name {
            Some(g) => g@,
            None => user.username@,
        },
{
    match &user.global_name {
        Some(g) => g.clone(),
        None => user.username.clone(),
    }
}

/// The token typed on the login screen, trimmed; none when it is blank.
pub fn token_from_input(input: &str) -> (r: Option<String>)
    ensures
        match r {
            Some(t) => !is_blank(input@) && t@ == trim_spec(input@),
            None => is_blank(input@),
        },
{
    let t = trim(input);
    if t.as_str().is_empty() {
        None
    } else {
        Some(t)
    }
}

/// Removing the messages with one id keeps the others' ids distinct.
pub proof fn lemma_without_id_unique(ms: Seq<Message>, id: Seq<char>)
    ensures
        unique_ids(ms) ==> unique_ids(without_id(ms, id)),
        forall|k: int|
            0 <= k < without_id(ms, id).len() ==> (#[trigger] without_id(ms, id)[k]).id@ != id
                && has_message_id(ms, without_id(ms, id)[k].id@),
    decreases ms.len(),
{
    if ms.len() > 0 {
        lemma_without_id_unique(ms.drop_last(), id);
        let rest = without_id(ms.drop_last(), id);
        assert forall|k: int| 0 <= k < rest.len() implies has_message_id(ms, (#[trigger] rest[k]).id@) by {
            let j = choose|j: int| 0 <= j < ms.drop_last().len() && (#[trigger] ms.drop_last()[j]).id@ == rest[k].id@;
            assert(ms[j] == ms.drop_last()[j]);
        }
        if ms.last().id@ != id {
            let w = rest.push(ms.last());
            assert(has_message_id(ms, ms.last().id@)) by {
                assert(ms[ms.len() - 1] == ms.last());
            }
            if unique_ids(ms) {
                assert(unique_ids(ms.drop_last())) by {
                    assert forall|a: int, b: int|
                        0 <= a < b < ms.drop_last().len() implies (#[trigger] ms.drop_last()[a]).id@
                            != (#[trigger] ms.drop_last()[b]).id@ by {
                        assert(ms.drop_last()[a] == ms[a]);
                        assert(ms.drop_last()[b] == ms[b]);
                    }
                }
                assert forall|a: int, b: int|
                    0 <= a < b < w.len() implies (#[trigger] w[a]).id@ != (#[trigger] w[b]).id@ by {
                    if b == w.len() - 1 {
                        assert(w[a] == rest[a]);
                        let j = choose|j: int| 0 <= j < ms.drop_last().len() && (#[trigger] ms.drop_last()[j]).id@ == rest[a].id@;
                        assert(ms[j] == ms.drop_last()[j]);
                        assert(ms[j].id@ != ms[ms.len() - 1].id@);
                    } else {
                        assert(w[a] == rest[a]);
                        assert(w[b] == rest[b]);
                    }
                }
            }
            assert forall|k: int| 0 <= k < w.len() implies (#[trigger] w[k]).id@ != id && has_message_id(ms, w[k].id@) by {
                if k < rest.len() {
                    assert(w[k] == rest[k]);
                }
            }
        } else {
            if unique_ids(ms) {
                assert(unique_ids(ms.drop_last())) by {
                    assert forall|a: int, b: int|
                        0 <= a < b < ms.drop_last().len() implies (#[trigger] ms.drop_last()[a]).id@
                            != (#[trigger] ms.drop_last()[b]).id@ by {
                        assert(ms.drop_last()[a] == ms[a]);
                        assert(ms.drop_last()[b] == ms[b]);
                    }
                }
            }
        }
    }
}

} // verus!
