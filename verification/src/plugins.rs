//! Plugins compiled into the client and switched on or off at run time,
//! with the three built-in ones: TextReplace, MessageCounter and Loud.
use vstd::prelude::*;

use crate::events::Event;
use crate::models::has_prefix;
use crate::text::{chars_of, push_range, str_eq, to_string_of};

verus! {

/// A plugin: hooks that observe events, transform outgoing messages and
/// transform displayed content. Its name and each hook's effect are a
/// function of the plugin's value and of what it is handed, named by a spec
/// function that the plugin defines; the spec defaults are those of a plugin
/// with the empty name that starts disabled and whose hooks do nothing. What
/// is proved of the plugin manager holds of plugins whose `name` and hooks
/// meet these contracts, as the built-in ones are proved to.
pub trait Plugin: Sized {
    /// Whether the plugin starts enabled.
    open spec fn default_spec(&self) -> bool {
        false
    }

    /// The plugin after it observed an event.
    open spec fn after_event(&self, event: Event) -> Self {
        *self
    }

    /// What the plugin makes of an outgoing message.
    open spec fn outgoing(&self, content: Seq<char>) -> Seq<char> {
        content
    }

    /// The plugin after it transformed an outgoing message.
    open spec fn after_outgoing(&self, content: Seq<char>) -> Self {
        *self
    }

    /// What the plugin makes of displayed content.
    open spec fn rendered(&self, content: Seq<char>) -> Seq<char> {
        content
    }

    /// The name the plugin goes by, which `name` returns; a plugin with a
    /// name states it here (the default is the empty name).
    open spec fn name_spec(&self) -> Seq<char> {
        Seq::empty()
    }

    /// The name under which the plugin is registered and switched on or off.
    fn name(&self) -> (r: &str)
        ensures
            r@ == self.name_spec(),
    ;

    fn description(&self) -> &str;

    fn default_enabled(&self) -> (r: bool)
        ensures
            r == self.default_spec(),
    ;

    /// Observes gateway and REST events (read only).
    fn on_event(&mut self, event: &Event)
        ensures
            *final(self) == old(self).after_event(*event),
    ;

    /// Transforms a message BEFORE it is sent.
    fn on_outgoing_message(&mut self, content: &mut String)
        ensures
            *final(self) == old(self).after_outgoing(old(content)@),
            final(content)@ == old(self).outgoing(old(content)@),
    ;

    /// Transforms DISPLAYED content before markdown rendering.
    fn on_render_content(&self, content: &mut String)
        ensures
            final(content)@ == self.rendered(old(content)@),
    ;
}

/// The plugins after an event: the enabled ones have observed it.
pub open spec fn after_event_all<P: Plugin>(ps: Seq<P>, on: Seq<bool>, event: Event) -> Seq<P> {
    Seq::new(ps.len(), |i: int| if on[i] { ps[i].after_event(event) } else { ps[i] })
}

/// The message after the enabled plugins among the first `k` transformed it
/// in turn.
pub open spec fn outgoing_chain<P: Plugin>(ps: Seq<P>, on: Seq<bool>, content: Seq<char>, k: int) -> Seq<
    char,
>
    decreases k,
{
    if k <= 0 {
        content
    } else {
        let c = outgoing_chain(ps, on, content, k - 1);
        if on[k - 1] {
            ps[k - 1].outgoing(c)
        } else {
            c
        }
    }
}

/// The plugins after an outgoing message went through the enabled ones.
pub open spec fn outgoing_plugins<P: Plugin>(ps: Seq<P>, on: Seq<bool>, content: Seq<char>) -> Seq<P> {
    Seq::new(
        ps.len(),
        |i: int|
            if on[i] {
                ps[i].after_outgoing(outgoing_chain(ps, on, content, i))
            } else {
                ps[i]
            },
    )
}

/// The displayed content after the enabled plugins among the first `k`
/// transformed it in turn.
pub open spec fn render_chain<P: Plugin>(ps: Seq<P>, on: Seq<bool>, content: Seq<char>, k: int) -> Seq<
    char,
>
    decreases k,
{
    if k <= 0 {
        content
    } else {
        let c = render_chain(ps, on, content, k - 1);
        if on[k - 1] {
            ps[k - 1].rendered(c)
        } else {
            c
        }
    }
}

/// The enabled state recorded for a name, if any.
pub open spec fn lookup(entries: Seq<(String, bool)>, name: Seq<char>) -> Option<bool>
    decreases entries.len(),
{
    if entries.len() == 0 {
        None
    } else if entries[0].0@ == name {
        Some(entries[0].1)
    } else {
        lookup(entries.skip(1), name)
    }
}

/// Whether a name is enabled: unknown names are not.
pub open spec fn enabled_in(entries: Seq<(String, bool)>, name: Seq<char>) -> bool {
    lookup(entries, name) == Some(true)
}

/// The registered plugins, the names under which they were registered, and
/// the enabled state of each known name.
pub struct PluginManager<P: Plugin> {
    plugins: Vec<P>,
    names: Vec<String>,
    enabled: Vec<(String, bool)>,
}

impl<P: Plugin> PluginManager<P> {
    /// Every plugin has its registered name, and no name has two recorded states.
    pub closed spec fn wf(&self) -> bool {
        &&& self.names@.len() == self.plugins@.len()
        &&& unique_names(self.enabled@)
    }

    /// The registered plugins.
    pub closed spec fn plugins_view(&self) -> Seq<P> {
        self.plugins@
    }

    /// The names under which the plugins were registered.
    pub closed spec fn names_view(&self) -> Seq<String> {
        self.names@
    }

    /// The name plugin `i` was registered under.
    pub closed spec fn name_of(&self, i: int) -> Seq<char> {
        self.names@[i]@
    }

    /// The recorded enabled states.
    pub closed spec fn entries(&self) -> Seq<(String, bool)> {
        self.enabled@
    }

    /// Whether the plugin registered under this name receives its hooks.
    pub open spec fn enabled_spec(&self, name: Seq<char>) -> bool {
        enabled_in(self.entries(), name)
    }

    pub fn new() -> (r: Self)
        ensures
            r.wf(),
            r.plugins_view().len() == 0,
            forall|n: Seq<char>| lookup(r.entries(), n) is None,
    {
        PluginManager { plugins: Vec::new(), names: Vec::new(), enabled: Vec::new() }
    }

    fn find_entry(&self, name: &str) -> (r: Option<usize>)
        ensures
            match r {
                Some(k) => k < self.enabled@.len() && self.enabled@[k as int].0@ == name@ && lookup(
                    self.enabled@,
                    name@,
                ) == Some(self.enabled@[k as int].1) && forall|j: int|
                    0 <= j < k ==> (#[trigger] self.enabled@[j]).0@ != name@,
                None => lookup(self.enabled@, name@) is None,
            },
    {
        let mut k: usize = 0;
        assert(self.enabled@.skip(0) == self.enabled@);
        while k < self.enabled.len()
            invariant
                k <= self.enabled@.len(),
                lookup(self.enabled@, name@) == lookup(self.enabled@.skip(k as int), name@),
                forall|j: int| 0 <= j < k ==> (#[trigger] self.enabled@[j]).0@ != name@,
            decreases self.enabled@.len() - k,
        {
            assert(self.enabled@.skip(k as int).skip(1) == self.enabled@.skip(k + 1));
            assert(self.enabled@.skip(k as int)[0] == self.enabled@[k as int]);
            if str_eq(self.enabled[k].0.as_str(), name) {
                return Some(k);
            }
            k = k + 1;
        }
        None
    }

    pub fn is_enabled(&self, name: &str) -> (r: bool)
        ensures
            r == self.enabled_spec(name@),
    {
        match self.find_entry(name) {
            Some(k) => self.enabled[k].1,
            None => false,
        }
    }

    /// The registered plugins, in the order they were registered.
    pub fn plugins(&self) -> (r: &[P])
        ensures
            r@ == self.plugins_view(),
    {
        self.plugins.as_slice()
    }

    /// The registered plugin at position `i`, to change its settings; its
    /// name and every recorded state stay as they are.
    pub fn plugin_mut(&mut self, i: usize) -> (r: &mut P)
        requires
            old(self).wf(),
            i < old(self).plugins_view().len(),
        ensures
            *r == old(self).plugins_view()[i as int],
            final(self).plugins_view() == old(self).plugins_view().update(i as int, *final(r)),
            final(self).names_view() == old(self).names_view(),
            final(self).entries() == old(self).entries(),
            final(self).wf(),
    {
        &mut self.plugins[i]
    }

    /// Records the enabled state of a name (in memory only).
    pub fn set_enabled(&mut self, name: &str, enabled: bool)
        requires
            old(self).wf(),
        ensures
            final(self).wf(),
            final(self).plugins_view() == old(self).plugins_view(),
            final(self).names_view() == old(self).names_view(),
            lookup(final(self).entries(), name@) == Some(enabled),
            forall|n: Seq<char>|
                n != name@ ==> lookup(final(self).entries(), n) == lookup(old(self).entries(), n),
    {
        match self.find_entry(name) {
            Some(k) => {
                let ghost old_e = self.enabled@;
                self.enabled.set(k, (to_string_of(name), enabled));
                proof {
                    lemma_lookup_update(old_e, k as int, name@, enabled);
                    assert forall|a: int, b: int| 0 <= a < b < self.enabled@.len() implies (
                    #[trigger] self.enabled@[a]).0@ != (#[trigger] self.enabled@[b]).0@ by {
                        assert(old_e[a].0@ != old_e[b].0@);
                    }
                }
            },
            None => {
                let ghost old_e = self.enabled@;
                self.enabled.push((to_string_of(name), enabled));
                proof {
                    lemma_lookup_push(old_e, name@, enabled);
                    lemma_lookup_none(old_e, name@);
                    assert forall|a: int, b: int| 0 <= a < b < self.enabled@.len() implies (
                    #[trigger] self.enabled@[a]).0@ != (#[trigger] self.enabled@[b]).0@ by {
                        if b < old_e.len() {
                            assert(old_e[a].0@ != old_e[b].0@);
                        } else {
                            assert(old_e[a].0@ != name@);
                        }
                    }
                }
            },
        }
    }

    /// Registers a plugin under `name`; a name whose state is not known yet
    /// takes `default`.
    fn register_named(&mut self, name: &str, default: bool, plugin: P)
        requires
            old(self).wf(),
        ensures
            final(self).wf(),
            final(self).plugins_view() == old(self).plugins_view().push(plugin),
            forall|i: int|
                0 <= i < old(self).plugins_view().len() ==> final(self).name_of(i) == old(self).name_of(i),
            final(self).name_of(old(self).plugins_view().len() as int) == name@,
            lookup(final(self).entries(), name@) == if lookup(old(self).entries(), name@) is Some {
                lookup(old(self).entries(), name@)
            } else {
                Some(default)
            },
            forall|n: Seq<char>|
                n != name@ ==> lookup(final(self).entries(), n) == lookup(old(self).entries(), n),
    {
        let ghost old_names = self.names@;
        if self.find_entry(name).is_none() {
            self.set_enabled(name, default);
        }
        self.names.push(to_string_of(name));
        self.plugins.push(plugin);
        assert(forall|i: int| 0 <= i < old_names.len() ==> self.names@[i] == old_names[i]);
    }

    /// Registers a plugin under its name; a name whose state is not known
    /// yet takes the plugin's `default_enabled()`.
    pub fn register(&mut self, plugin: P)
        requires
            old(self).wf(),
        ensures
            final(self).wf(),
            final(self).plugins_view() == old(self).plugins_view().push(plugin),
            forall|i: int|
                0 <= i < old(self).plugins_view().len() ==> final(self).name_of(i) == old(self).name_of(i),
            final(self).name_of(old(self).plugins_view().len() as int) == plugin.name_spec(),
            lookup(final(self).entries(), plugin.name_spec()) == if lookup(
                old(self).entries(),
                plugin.name_spec(),
            ) is Some {
                lookup(old(self).entries(), plugin.name_spec())
            } else {
                Some(plugin.default_spec())
            },
            forall|n: Seq<char>|
                n != plugin.name_spec() ==> lookup(final(self).entries(), n) == lookup(
                    old(self).entries(),
                    n,
                ),
    {
        let name = to_string_of(plugin.name());
        let default = plugin.default_enabled();
        self.register_named(name.as_str(), default, plugin);
    }

    /// Which plugins are enabled, by registration index.
    pub open spec fn enabled_flags(&self) -> Seq<bool> {
        Seq::new(self.plugins_view().len(), |i: int| self.enabled_spec(self.name_of(i)))
    }

    /// Lets every enabled plugin observe the event, once each, in
    /// registration order; disabled plugins are not touched.
    pub fn dispatch_event(&mut self, event: &Event)
        requires
            old(self).wf(),
        ensures
            final(self).wf(),
            final(self).plugins_view() == after_event_all(
                old(self).plugins_view(),
                old(self).enabled_flags(),
                *event,
            ),
            final(self).names_view() == old(self).names_view(),
            final(self).entries() == old(self).entries(),
    {
        let ghost old_plugins = self.plugins_view();
        let ghost on = self.enabled_flags();
        let mut i: usize = 0;
        while i < self.plugins.len()
            invariant
                i <= self.plugins_view().len(),
                self.names@.len() == self.plugins_view().len(),
                self.plugins_view().len() == old_plugins.len(),
                on == old(self).enabled_flags(),
                on.len() == old_plugins.len(),
                self.names == old(self).names,
                self.enabled == old(self).enabled,
                self.plugins_view() == Seq::new(
                    old_plugins.len(),
                    |k: int|
                        if k < i && on[k] {
                            old_plugins[k].after_event(*event)
                        } else {
                            old_plugins[k]
                        },
                ),
            decreases self.plugins_view().len() - i,
        {
            assert(self.name_of(i as int) == self.names@[i as int]@);
            assert(old(self).name_of(i as int) == self.names@[i as int]@);
            let is_on = self.is_enabled(self.names[i].as_str());
            assert(is_on == on[i as int]);
            let ghost before = self.plugins_view();
            if is_on {
                self.plugins[i].on_event(event);
            }
            assert(self.plugins_view() =~= Seq::new(
                old_plugins.len(),
                |k: int|
                    if k < i + 1 && on[k] {
                        old_plugins[k].after_event(*event)
                    } else {
                        old_plugins[k]
                    },
            ));
            i = i + 1;
        }
        assert(self.plugins_view() =~= after_event_all(old_plugins, on, *event));
    }

    /// Passes an outgoing message through every enabled plugin, in
    /// registration order, each getting what the previous one made of it;
    /// disabled plugins are not touched.
    pub fn apply_outgoing(&mut self, content: &mut String)
        requires
            old(self).wf(),
        ensures
            final(self).wf(),
            final(content)@ == outgoing_chain(
                old(self).plugins_view(),
                old(self).enabled_flags(),
                old(content)@,
                old(self).plugins_view().len() as int,
            ),
            final(self).plugins_view() == outgoing_plugins(
                old(self).plugins_view(),
                old(self).enabled_flags(),
                old(content)@,
            ),
            final(self).names_view() == old(self).names_view(),
            final(self).entries() == old(self).entries(),
    {
        let ghost old_plugins = self.plugins_view();
        let ghost on = self.enabled_flags();
        let ghost c0 = content@;
        let mut i: usize = 0;
        while i < self.plugins.len()
            invariant
                i <= self.plugins_view().len(),
                self.names@.len() == self.plugins_view().len(),
                self.plugins_view().len() == old_plugins.len(),
                on == old(self).enabled_flags(),
                on.len() == old_plugins.len(),
                self.names == old(self).names,
                self.enabled == old(self).enabled,
                content@ == outgoing_chain(old_plugins, on, c0, i as int),
                self.plugins_view() == Seq::new(
                    old_plugins.len(),
                    |k: int|
                        if k < i && on[k] {
                            old_plugins[k].after_outgoing(outgoing_chain(old_plugins, on, c0, k))
                        } else {
                            old_plugins[k]
                        },
                ),
            decreases self.plugins_view().len() - i,
        {
            assert(self.name_of(i as int) == self.names@[i as int]@);
            assert(old(self).name_of(i as int) == self.names@[i as int]@);
            let is_on = self.is_enabled(self.names[i].as_str());
            assert(is_on == on[i as int]);
            if is_on {
                self.plugins[i].on_outgoing_message(content);
            }
            assert(self.plugins_view() =~= Seq::new(
                old_plugins.len(),
                |k: int|
                    if k < i + 1 && on[k] {
                        old_plugins[k].after_outgoing(outgoing_chain(old_plugins, on, c0, k))
                    } else {
                        old_plugins[k]
                    },
            ));
            i = i + 1;
        }
        assert(self.plugins_view() =~= outgoing_plugins(old_plugins, on, c0));
    }

    /// Passes displayed content through every enabled plugin, in
    /// registration order, each getting what the previous one made of it.
    pub fn apply_render(&self, content: &mut String)
        requires
            self.wf(),
        ensures
            final(content)@ == render_chain(
                self.plugins_view(),
                self.enabled_flags(),
                old(content)@,
                self.plugins_view().len() as int,
            ),
    {
        let ghost c0 = content@;
        let ghost on = self.enabled_flags();
        let mut i: usize = 0;
        while i < self.plugins.len()
            invariant
                i <= self.plugins_view().len(),
                self.names@.len() == self.plugins_view().len(),
                on == self.enabled_flags(),
                content@ == render_chain(self.plugins_view(), on, c0, i as int),
            decreases self.plugins_view().len() - i,
        {
            assert(self.name_of(i as int) == self.names@[i as int]@);
            if self.is_enabled(self.names[i].as_str()) {
                self.plugins[i].on_render_content(content);
            }
            i = i + 1;
        }
    }

    /// Replaces every recorded state by the given ones (a later entry for
    /// the same name wins).
    pub fn load_enabled(&mut self, entries: &[(String, bool)])
        requires
            old(self).wf(),
        ensures
            final(self).wf(),
            final(self).plugins_view() == old(self).plugins_view(),
            final(self).names_view() == old(self).names_view(),
            forall|n: Seq<char>| #[trigger] lookup(final(self).entries(), n) == last_lookup(entries@, n),
    {
        self.enabled = Vec::new();
        let mut k: usize = 0;
        while k < entries.len()
            invariant
                k <= entries@.len(),
                self.wf(),
                self.plugins_view() == old(self).plugins_view(),
                self.names_view() == old(self).names_view(),
                forall|n: Seq<char>|
                    #[trigger] lookup(self.enabled@, n) == last_lookup(entries@.take(k as int), n),
            decreases entries@.len() - k,
        {
            self.set_enabled(entries[k].0.as_str(), entries[k].1);
            assert(entries@.take(k + 1).drop_last() == entries@.take(k as int));
            assert(entries@.take(k + 1).last() == entries@[k as int]);
            k = k + 1;
        }
        assert(entries@.take(k as int) == entries@);
    }

    /// Replaces the recorded states by those saved in `saved`, the text of
    /// the saved file: `None`, a file that could not be read, leaves them as
    /// they are, and a text that is not a JSON object of booleans leaves none.
    pub fn load_persisted(&mut self, saved: Option<&str>)
        requires
            old(self).wf(),
        ensures
            final(self).wf(),
            final(self).plugins_view() == old(self).plugins_view(),
            final(self).names_view() == old(self).names_view(),
            forall|n: Seq<char>| #[trigger]
                lookup(final(self).entries(), n) == match saved {
                    Some(t) => saved_state(t@, n),
                    None => lookup(old(self).entries(), n),
                },
    {
        match saved {
            Some(t) => {
                let entries = parse_enabled(t);
                proof {
                    match json_bool_object(t@) {
                        Some(m) => lemma_lists_map_last_lookup(entries@, m),
                        None => {},
                    }
                }
                self.load_enabled(entries.as_slice());
            },
            None => {},
        }
    }

    /// Records the states switched on or off in the settings window, in
    /// order; says whether there was any, in which case the caller saves.
    pub fn apply_toggles(&mut self, toggles: &[(String, bool)]) -> (r: bool)
        requires
            old(self).wf(),
        ensures
            final(self).wf(),
            r == (toggles@.len() > 0),
            final(self).plugins_view() == old(self).plugins_view(),
            final(self).names_view() == old(self).names_view(),
            forall|n: Seq<char>| #[trigger]
                lookup(final(self).entries(), n) == match last_lookup(toggles@, n) {
                    Some(b) => Some(b),
                    None => lookup(old(self).entries(), n),
                },
    {
        let mut k: usize = 0;
        while k < toggles.len()
            invariant
                k <= toggles@.len(),
                self.wf(),
                self.plugins_view() == old(self).plugins_view(),
                self.names_view() == old(self).names_view(),
                forall|n: Seq<char>| #[trigger]
                    lookup(self.entries(), n) == match last_lookup(toggles@.take(k as int), n) {
                        Some(b) => Some(b),
                        None => lookup(old(self).entries(), n),
                    },
            decreases toggles@.len() - k,
        {
            self.set_enabled(toggles[k].0.as_str(), toggles[k].1);
            assert(toggles@.take(k + 1).drop_last() == toggles@.take(k as int));
            assert(toggles@.take(k + 1).last() == toggles@[k as int]);
            k = k + 1;
        }
        assert(toggles@.take(k as int) == toggles@);
        toggles.len() > 0
    }

    /// The recorded states as the JSON text to save, `{ "<name>": <bool> }`:
    /// reading it back gives each name its recorded state and nothing else.
    pub fn saved_text(&self) -> (r: String)
        requires
            self.wf(),
        ensures
            forall|n: Seq<char>| #[trigger] saved_state(r@, n) == lookup(self.entries(), n),
    {
        let r = json_text_of(&self.enabled);
        proof {
            law_saved_states_reload(self.enabled@, r@);
        }
        r
    }

    /// The recorded states, for saving.
    pub fn enabled_entries(&self) -> (r: Vec<(String, bool)>)
        requires
            self.wf(),
        ensures
            forall|n: Seq<char>| #[trigger] lookup(r@, n) == lookup(self.entries(), n),
            unique_names(r@),
    {
        let mut r: Vec<(String, bool)> = Vec::new();
        let mut k: usize = 0;
        while k < self.enabled.len()
            invariant
                k <= self.enabled@.len(),
                r@.len() == k,
                forall|j: int| 0 <= j < k ==> (#[trigger] r@[j]).0@ == self.enabled@[j].0@ && r@[j].1
                    == self.enabled@[j].1,
            decreases self.enabled@.len() - k,
        {
            r.push((self.enabled[k].0.clone(), self.enabled[k].1));
            k = k + 1;
        }
        proof {
            lemma_lookup_same(r@, self.enabled@);
            assert forall|a: int, b: int| 0 <= a < b < r@.len() implies (#[trigger] r@[a]).0@ != (
            #[trigger] r@[b]).0@ by {
                assert(self.enabled@[a].0@ != self.enabled@[b].0@);
            }
        }
        r
    }
}

/// What `serde_json` reads from a text as an object whose values are
/// booleans: each key with its value, or nothing when the text is not such
/// an object.
pub uninterp spec fn json_bool_object(s: Seq<char>) -> Option<Map<Seq<char>, bool>>;

/// Entries that list a map exactly: each name once and with its value in
/// the map, and every key of the map among them.
pub open spec fn lists_map(entries: Seq<(String, bool)>, m: Map<Seq<char>, bool>) -> bool {
    &&& unique_names(entries)
    &&& forall|j: int|
        0 <= j < entries.len() ==> m.dom().contains((#[trigger] entries[j]).0@) && m[entries[j].0@]
            == entries[j].1
    &&& forall|k: Seq<char>| #[trigger]
        m.dom().contains(k) ==> exists|j: int| 0 <= j < entries.len() && (#[trigger] entries[j]).0@ == k
}

/// The state that a saved text gives a name: its value in the JSON object,
/// none when the object lacks it or the text is not such an object.
pub open spec fn saved_state(text: Seq<char>, name: Seq<char>) -> Option<bool> {
    match json_bool_object(text) {
        Some(m) => if m.dom().contains(name) {
            Some(m[name])
        } else {
            None
        },
        None => None,
    }
}

/// Reads `s` with `serde_json::from_str` into a `HashMap<String, bool>` and
/// hands out its entries in the order the map walks them. The contract says
/// that the parse fails exactly when `json_bool_object` has nothing for the
/// text, and that otherwise the entries list that map; their order, which
/// the map's hasher decides, is not stated.
#[verifier::external_body]
fn parse_json_bool_object(s: &str) -> (r: Option<Vec<(String, bool)>>)
    ensures
        match json_bool_object(s@) {
            Some(m) => r matches Some(v) && lists_map(v@, m),
            None => r is None,
        },
{
    match serde_json::from_str::<std::collections::HashMap<String, bool>>(s) {
        Ok(m) => Some(m.into_iter().collect()),
        Err(_) => None,
    }
}

/// Writes the entries with `serde_json::to_string_pretty` as a JSON object
/// `{ "<name>": <bool> }`, through a `HashMap<String, bool>`. The contract
/// says that serde_json reads the text back as the object that lists exactly
/// these entries; the order of the keys, which the map's hasher decides, is
/// not stated. serde_json documents that this serialization fails only for a
/// failing `Serialize` impl or a map whose keys are not strings, neither of
/// which occurs here, so the `Err` arm is not taken.
#[verifier::external_body]
fn json_text_of(entries: &Vec<(String, bool)>) -> (r: String)
    requires
        unique_names(entries@),
    ensures
        json_bool_object(r@) is Some,
        lists_map(entries@, json_bool_object(r@)->0),
{
    let map: std::collections::HashMap<String, bool> = entries.iter().cloned().collect();
    match serde_json::to_string_pretty(&map) {
        Ok(t) => t,
        Err(_) => String::new(),
    }
}

/// What is saved is what loading restores: a text that serde_json reads
/// back as exactly the saved entries, each name once, gives each name the
/// state it was saved with, and no state to a name that was not saved.
pub proof fn law_saved_states_reload(entries: Seq<(String, bool)>, text: Seq<char>)
    requires
        unique_names(entries),
        json_bool_object(text) matches Some(m) && lists_map(entries, m),
    ensures
        forall|n: Seq<char>| #[trigger] saved_state(text, n) == lookup(entries, n),
{
    let m = json_bool_object(text)->0;
    lemma_lists_map_last_lookup(entries, m);
    lemma_last_lookup_unique(entries);
    assert forall|n: Seq<char>| #[trigger] saved_state(text, n) == lookup(entries, n) by {
        assert(last_lookup(entries, n) == lookup(entries, n));
        assert(last_lookup(entries, n) == if m.dom().contains(n) {
            Some(m[n])
        } else {
            None
        });
    }
}

/// The enabled states saved as a JSON object `{ "<name>": <bool> }`, each
/// name once; none when the text is not such an object.
pub fn parse_enabled(s: &str) -> (r: Vec<(String, bool)>)
    ensures
        match json_bool_object(s@) {
            Some(m) => lists_map(r@, m),
            None => r@.len() == 0,
        },
{
    match parse_json_bool_object(s) {
        Some(v) => v,
        None => Vec::new(),
    }
}

/// Loading entries that list a map gives each name its value in the map,
/// and none to a name the map lacks.
proof fn lemma_lists_map_last_lookup(e: Seq<(String, bool)>, m: Map<Seq<char>, bool>)
    requires
        lists_map(e, m),
    ensures
        forall|n: Seq<char>| #[trigger]
            last_lookup(e, n) == if m.dom().contains(n) {
                Some(m[n])
            } else {
                None
            },
{
    lemma_last_lookup_unique(e);
    assert forall|n: Seq<char>| #[trigger]
        last_lookup(e, n) == if m.dom().contains(n) {
            Some(m[n])
        } else {
            None
        } by {
        lemma_lookup_at(e, n);
        assert(last_lookup(e, n) == lookup(e, n));
        if m.dom().contains(n) {
            let j = choose|j: int| 0 <= j < e.len() && (#[trigger] e[j]).0@ == n;
            assert(lookup(e, n) == Some(e[j].1));
        } else {
            assert forall|j: int| 0 <= j < e.len() implies (#[trigger] e[j]).0@ != n by {
                assert(m.dom().contains(e[j].0@));
            }
        }
    }
}

/// The state that the last entry for a name gives it.
pub open spec fn last_lookup(entries: Seq<(String, bool)>, name: Seq<char>) -> Option<bool>
    decreases entries.len(),
{
    if entries.len() == 0 {
        None
    } else if entries.last().0@ == name {
        Some(entries.last().1)
    } else {
        last_lookup(entries.drop_last(), name)
    }
}

/// No name occurs twice.
pub open spec fn unique_names(entries: Seq<(String, bool)>) -> bool {
    forall|a: int, b: int|
        0 <= a < b < entries.len() ==> (#[trigger] entries[a]).0@ != (#[trigger] entries[b]).0@
}

proof fn lemma_lookup_none(e: Seq<(String, bool)>, name: Seq<char>)
    requires
        lookup(e, name) is None,
    ensures
        forall|j: int| 0 <= j < e.len() ==> (#[trigger] e[j]).0@ != name,
    decreases e.len(),
{
    if e.len() > 0 {
        lemma_lookup_none(e.skip(1), name);
        assert forall|j: int| 0 <= j < e.len() implies (#[trigger] e[j]).0@ != name by {
            if j > 0 {
                assert(e[j] == e.skip(1)[j - 1]);
            }
        }
    }
}

proof fn lemma_lookup_at(e: Seq<(String, bool)>, name: Seq<char>)
    requires
        unique_names(e),
    ensures
        forall|j: int| 0 <= j < e.len() && (#[trigger] e[j]).0@ == name ==> lookup(e, name) == Some(e[j].1),
        (forall|j: int| 0 <= j < e.len() ==> (#[trigger] e[j]).0@ != name) ==> lookup(e, name) is None,
    decreases e.len(),
{
    if e.len() > 0 {
        let t = e.skip(1);
        assert forall|a: int, b: int| 0 <= a < b < t.len() implies (#[trigger] t[a]).0@ != (
        #[trigger] t[b]).0@ by {
            assert(t[a] == e[a + 1] && t[b] == e[b + 1]);
        }
        lemma_lookup_at(t, name);
        assert forall|j: int| 0 <= j < e.len() && (#[trigger] e[j]).0@ == name implies lookup(e, name)
            == Some(e[j].1) by {
            if j > 0 {
                assert(e[j] == t[j - 1]);
                assert(e[0].0@ != e[j].0@);
            }
        }
        if forall|j: int| 0 <= j < e.len() ==> (#[trigger] e[j]).0@ != name {
            assert(e[0].0@ != name);
            assert forall|j: int| 0 <= j < t.len() implies (#[trigger] t[j]).0@ != name by {
                assert(t[j] == e[j + 1]);
            }
        }
    }
}

proof fn lemma_last_lookup_at(e: Seq<(String, bool)>, name: Seq<char>)
    requires
        unique_names(e),
    ensures
        forall|j: int| 0 <= j < e.len() && (#[trigger] e[j]).0@ == name ==> last_lookup(e, name)
            == Some(e[j].1),
        (forall|j: int| 0 <= j < e.len() ==> (#[trigger] e[j]).0@ != name) ==> last_lookup(e, name) is None,
    decreases e.len(),
{
    if e.len() > 0 {
        let t = e.drop_last();
        let n = e.len() - 1;
        assert forall|a: int, b: int| 0 <= a < b < t.len() implies (#[trigger] t[a]).0@ != (
        #[trigger] t[b]).0@ by {
            assert(t[a] == e[a] && t[b] == e[b]);
        }
        lemma_last_lookup_at(t, name);
        assert(e.last() == e[n]);
        assert forall|j: int| 0 <= j < e.len() && (#[trigger] e[j]).0@ == name implies last_lookup(
            e,
            name,
        ) == Some(e[j].1) by {
            if j < n {
                assert(e[j] == t[j]);
                assert(e[j].0@ != e[n].0@);
            }
        }
        if forall|j: int| 0 <= j < e.len() ==> (#[trigger] e[j]).0@ != name {
            assert(e[n].0@ != name);
            assert forall|j: int| 0 <= j < t.len() implies (#[trigger] t[j]).0@ != name by {
                assert(t[j] == e[j]);
            }
        }
    }
}

/// With each name once, the last entry for a name is its only one.
proof fn lemma_last_lookup_unique(saved: Seq<(String, bool)>)
    requires
        unique_names(saved),
    ensures
        forall|n: Seq<char>| #[trigger] last_lookup(saved, n) == lookup(saved, n),
{
    assert forall|n: Seq<char>| #[trigger] last_lookup(saved, n) == lookup(saved, n) by {
        lemma_lookup_at(saved, n);
        lemma_last_lookup_at(saved, n);
        if exists|j: int| 0 <= j < saved.len() && (#[trigger] saved[j]).0@ == n {
            let j = choose|j: int| 0 <= j < saved.len() && (#[trigger] saved[j]).0@ == n;
            assert(lookup(saved, n) == Some(saved[j].1));
        }
    }
}

pub proof fn lemma_lookup_update(e: Seq<(String, bool)>, k: int, name: Seq<char>, v: bool)
    requires
        0 <= k < e.len(),
        e[k].0@ == name,
        forall|j: int| 0 <= j < k ==> (#[trigger] e[j]).0@ != name,
    ensures
        forall|s: String| #![auto] s@ == name ==> lookup(e.update(k, (s, v)), name) == Some(v),
        forall|s: String, n: Seq<char>| #![auto] s@ == name && n != name ==> lookup(e.update(k, (s, v)), n) == lookup(e, n),
    decreases e.len(),
{
    assert forall|s: String| #![auto] s@ == name implies lookup(e.update(k, (s, v)), name) == Some(v) by {
        lemma_lookup_update_one(e, k, name, s, v);
    }
    assert forall|s: String, n: Seq<char>| #![auto] s@ == name && n != name implies lookup(e.update(k, (s, v)), n) == lookup(e, n) by {
        lemma_lookup_update_other(e, k, name, s, v, n);
    }
}

proof fn lemma_lookup_update_one(e: Seq<(String, bool)>, k: int, name: Seq<char>, s: String, v: bool)
    requires
        0 <= k < e.len(),
        e[k].0@ == name,
        s@ == name,
        forall|j: int| 0 <= j < k ==> (#[trigger] e[j]).0@ != name,
    ensures
        lookup(e.update(k, (s, v)), name) == Some(v),
    decreases e.len(),
{
    let u = e.update(k, (s, v));
    if k == 0 {
        assert(u[0] == (s, v));
    } else {
        assert(e[0].0@ != name);
        assert(u[0] == e[0]);
        assert(u.skip(1) == e.skip(1).update(k - 1, (s, v)));
        assert(e.skip(1)[k - 1] == e[k]);
        assert forall|j: int| 0 <= j < k - 1 implies (#[trigger] e.skip(1)[j]).0@ != name by {
            assert(e.skip(1)[j] == e[j + 1]);
        }
        lemma_lookup_update_one(e.skip(1), k - 1, name, s, v);
    }
}

proof fn lemma_lookup_update_other(
    e: Seq<(String, bool)>,
    k: int,
    name: Seq<char>,
    s: String,
    v: bool,
    n: Seq<char>,
)
    requires
        0 <= k < e.len(),
        e[k].0@ == name,
        s@ == name,
        n != name,
    ensures
        lookup(e.update(k, (s, v)), n) == lookup(e, n),
    decreases e.len(),
{
    let u = e.update(k, (s, v));
    if k == 0 {
        assert(u.skip(1) == e.skip(1));
    } else {
        assert(u[0] == e[0]);
        assert(u.skip(1) == e.skip(1).update(k - 1, (s, v)));
        lemma_lookup_update_other(e.skip(1), k - 1, name, s, v, n);
    }
}

pub proof fn lemma_lookup_push(e: Seq<(String, bool)>, name: Seq<char>, v: bool)
    requires
        lookup(e, name) is None,
    ensures
        forall|s: String| #![auto] s@ == name ==> lookup(e.push((s, v)), name) == Some(v),
        forall|s: String, n: Seq<char>| #![auto] s@ == name && n != name ==> lookup(e.push((s, v)), n) == lookup(e, n),
    decreases e.len(),
{
    assert forall|s: String| #![auto] s@ == name implies lookup(e.push((s, v)), name) == Some(v) by {
        lemma_lookup_push_one(e, name, v, s, name);
    }
    assert forall|s: String, n: Seq<char>| #![auto] s@ == name && n != name implies lookup(e.push((s, v)), n) == lookup(e, n) by {
        lemma_lookup_push_one(e, name, v, s, n);
    }
}

proof fn lemma_lookup_push_one(e: Seq<(String, bool)>, name: Seq<char>, v: bool, s: String, n: Seq<char>)
    requires
        lookup(e, name) is None,
        s@ == name,
    ensures
        n == name ==> lookup(e.push((s, v)), n) == Some(v),
        n != name ==> lookup(e.push((s, v)), n) == lookup(e, n),
    decreases e.len(),
{
    if e.len() > 0 {
        assert(e.push((s, v)).skip(1) == e.skip(1).push((s, v)));
        assert(e.push((s, v))[0] == e[0]);
        if e[0].0@ != name {
            lemma_lookup_push_one(e.skip(1), name, v, s, n);
        }
    } else {
        assert(e.push((s, v)).skip(1) == e);
    }
}

proof fn lemma_lookup_same(a: Seq<(String, bool)>, b: Seq<(String, bool)>)
    requires
        a.len() == b.len(),
        forall|j: int| 0 <= j < a.len() ==> (#[trigger] a[j]).0@ == b[j].0@ && a[j].1 == b[j].1,
    ensures
        forall|n: Seq<char>| #[trigger] lookup(a, n) == lookup(b, n),
    decreases a.len(),
{
    if a.len() > 0 {
        assert forall|j: int| 0 <= j < a.skip(1).len() implies (#[trigger] a.skip(1)[j]).0@ == b.skip(1)[j].0@ && a.skip(1)[j].1 == b.skip(1)[j].1 by {
            assert(a.skip(1)[j] == a[j + 1]);
            assert(b.skip(1)[j] == b[j + 1]);
        }
        lemma_lookup_same(a.skip(1), b.skip(1));
        assert(a[0].0@ == b[0].0@ && a[0].1 == b[0].1);
        assert forall|n: Seq<char>| #[trigger] lookup(a, n) == lookup(b, n) by {
            assert(lookup(a.skip(1), n) == lookup(b.skip(1), n));
        }
    }
}

/// `s` with every occurrence of `from` (scanning left to right, without
/// overlap) replaced by `to`, as `str::replace` does for a non-empty `from`.
pub open spec fn replace_spec(s: Seq<char>, from: Seq<char>, to: Seq<char>) -> Seq<char>
    decreases s.len(),
{
    if s.len() == 0 || from.len() == 0 {
        s
    } else if has_prefix(s, from) {
        to + replace_spec(s.skip(from.len() as int), from, to)
    } else {
        seq![s[0]] + replace_spec(s.skip(1), from, to)
    }
}

/// The rules applied in order; rules with an empty `from` are skipped.
pub open spec fn apply_rules_spec(content: Seq<char>, rules: Seq<(String, String)>) -> Seq<char>
    decreases rules.len(),
{
    if rules.len() == 0 {
        content
    } else {
        replace_spec(apply_rules_spec(content, rules.drop_last()), rules.last().0@, rules.last().1@)
    }
}

/// Whether `from` occurs in `s` starting at position `i`.
pub open spec fn occurs_at(s: Seq<char>, from: Seq<char>, i: int) -> bool {
    0 <= i && i + from.len() <= s.len() && s.subrange(i, i + from.len()) == from
}

/// Whether `from` occurs in `s` starting before position `k`.
pub open spec fn occurs_before(s: Seq<char>, from: Seq<char>, k: int) -> bool {
    exists|i: int| 0 <= i < k && #[trigger] occurs_at(s, from, i)
}

proof fn lemma_occurs_at_prefix(s: Seq<char>, from: Seq<char>, i: int)
    requires
        0 <= i < s.len(),
    ensures
        occurs_at(s, from, i) == has_prefix(s.skip(i), from),
{
    if i + from.len() <= s.len() {
        assert(s.skip(i).take(from.len() as int) == s.subrange(i, i + from.len()));
    }
}

/// Replacing in a text in which `from` starts nowhere before position `k`
/// keeps its first `k` characters and goes on from there.
proof fn lemma_replace_keeps_prefix(s: Seq<char>, from: Seq<char>, to: Seq<char>, k: int)
    requires
        from.len() > 0,
        0 <= k <= s.len(),
        !occurs_before(s, from, k),
    ensures
        replace_spec(s, from, to) == s.take(k) + replace_spec(s.skip(k), from, to),
    decreases k,
{
    if k == 0 {
        assert(s.take(0) + s.skip(0) == s.skip(0));
        assert(s.skip(0) == s);
    } else {
        lemma_occurs_at_prefix(s, from, 0);
        assert(!occurs_at(s, from, 0));
        let t = s.skip(1);
        assert forall|i: int| 0 <= i < k - 1 implies !#[trigger] occurs_at(t, from, i) by {
            if occurs_at(t, from, i) {
                assert(s.subrange(i + 1, i + 1 + from.len()) == t.subrange(i, i + from.len()));
                assert(occurs_at(s, from, i + 1));
            }
        }
        lemma_replace_keeps_prefix(t, from, to, k - 1);
        assert(t.skip(k - 1) == s.skip(k));
        assert(seq![s[0]] + t.take(k - 1) == s.take(k));
        assert(seq![s[0]] + (t.take(k - 1) + replace_spec(s.skip(k), from, to)) == s.take(k)
            + replace_spec(s.skip(k), from, to));
    }
}

/// What replacing every occurrence does, told by occurrences alone: a text
/// in which `from` does not occur is left as it is, and in a text made of a
/// part `a` in which `from` starts nowhere, then `from`, then `b`, the first
/// occurrence becomes `to` and the replacing goes on in `b`; whatever `to`
/// is, the empty text included.
pub proof fn law_replace_first_occurrence(
    a: Seq<char>,
    from: Seq<char>,
    to: Seq<char>,
    b: Seq<char>,
    s: Seq<char>,
)
    requires
        from.len() > 0,
    ensures
        !occurs_before(s, from, s.len() as int) ==> replace_spec(s, from, to) == s,
        !occurs_before(a + from + b, from, a.len() as int) ==> replace_spec(a + from + b, from, to)
            == a + to + replace_spec(b, from, to),
{
    if !occurs_before(s, from, s.len() as int) {
        lemma_replace_keeps_prefix(s, from, to, s.len() as int);
        assert(s.take(s.len() as int) == s);
        assert(s.skip(s.len() as int).len() == 0);
        assert(s + Seq::<char>::empty() == s);
    }
    let w = a + from + b;
    if !occurs_before(w, from, a.len() as int) {
        lemma_replace_keeps_prefix(w, from, to, a.len() as int);
        assert(w.take(a.len() as int) == a);
        let r = w.skip(a.len() as int);
        assert(r == from + b);
        assert(r.take(from.len() as int) == from);
        assert(has_prefix(r, from));
        assert(r.skip(from.len() as int) == b);
        assert(a + (to + replace_spec(b, from, to)) == a + to + replace_spec(b, from, to));
    }
}

/// The rules apply one after the other: a single rule with a non-empty
/// `from` replaces every occurrence of it by its `to`, the empty one
/// included; a rule with an empty `from` changes nothing; and applying two
/// lists of rules in turn is applying the two lists joined.
pub proof fn law_apply_rules_in_turn(
    content: Seq<char>,
    rule: (String, String),
    first: Seq<(String, String)>,
    then: Seq<(String, String)>,
)
    ensures
        rule.0@.len() > 0 ==> apply_rules_spec(content, seq![rule]) == replace_spec(
            content,
            rule.0@,
            rule.1@,
        ),
        rule.0@.len() == 0 ==> apply_rules_spec(content, seq![rule]) == content,
        apply_rules_spec(content, first + then) == apply_rules_spec(
            apply_rules_spec(content, first),
            then,
        ),
    decreases then.len(),
{
    let one = seq![rule];
    assert(one.drop_last() =~= Seq::<(String, String)>::empty());
    assert(apply_rules_spec(content, one.drop_last()) == content);
    assert(one.last() == rule);
    assert(apply_rules_spec(content, one) == replace_spec(content, rule.0@, rule.1@));
    if then.len() > 0 {
        law_apply_rules_in_turn(content, rule, first, then.drop_last());
        assert((first + then).drop_last() == first + then.drop_last());
        assert((first + then).last() == then.last());
    } else {
        assert(first + then == first);
    }
}

/// Whether `v[at..]` begins with `p`.
fn prefix_at(v: &Vec<char>, at: usize, p: &Vec<char>) -> (r: bool)
    requires
        at <= v@.len(),
    ensures
        r == has_prefix(v@.skip(at as int), p@),
{
    if p.len() > v.len() - at {
        return false;
    }
    let mut i: usize = 0;
    while i < p.len()
        invariant
            i <= p@.len(),
            at + p@.len() <= v@.len(),
            v@.len() == v.len(),
            forall|j: int| 0 <= j < i ==> v@[at + j] == p@[j],
        decreases p@.len() - i,
    {
        if v[at + i] != p[i] {
            assert(v@.skip(at as int).take(p@.len() as int)[i as int] != p@[i as int]);
            return false;
        }
        i = i + 1;
    }
    assert(v@.skip(at as int).take(p@.len() as int) =~= p@);
    true
}

/// `s.replace(from, to)` for a non-empty `from`.
fn replace_all(s: &str, from: &str, to: &str) -> (r: String)
    requires
        from@.len() > 0,
    ensures
        r@ == replace_spec(s@, from@, to@),
{
    let v = chars_of(s);
    let f = chars_of(from);
    let mut out = String::new();
    let mut pos: usize = 0;
    assert(v@.skip(0) == v@);
    while pos < v.len()
        invariant
            pos <= v@.len(),
            v@.len() == v.len(),
            v@ == s@,
            f@ == from@,
            f@.len() > 0,
            out@ + replace_spec(v@.skip(pos as int), f@, to@) == replace_spec(s@, from@, to@),
        decreases v@.len() - pos,
    {
        let ghost rest = v@.skip(pos as int);
        if prefix_at(&v, pos, &f) {
            out.append(to);
            assert(rest.skip(f@.len() as int) == v@.skip(pos + f@.len()));
            pos = pos + f.len();
        } else {
            out.push(v[pos]);
            assert(rest.skip(1) == v@.skip(pos + 1));
            assert(rest[0] == v@[pos as int]);
            pos = pos + 1;
        }
    }
    assert(v@.skip(pos as int).len() == 0);
    out
}

/// Applies the find-and-replace rules in order (rules with an empty `from`
/// are ignored).
pub fn apply_rules(content: &str, rules: &[(String, String)]) -> (r: String)
    ensures
        r@ == apply_rules_spec(content@, rules@),
{
    let mut out = to_string_of(content);
    let mut k: usize = 0;
    while k < rules.len()
        invariant
            k <= rules@.len(),
            out@ == apply_rules_spec(content@, rules@.take(k as int)),
        decreases rules@.len() - k,
    {
        let (from, to) = &rules[k];
        assert(rules@.take(k + 1).drop_last() == rules@.take(k as int));
        assert(rules@.take(k + 1).last() == rules@[k as int]);
        if !from.as_str().is_empty() {
            out = replace_all(out.as_str(), from.as_str(), to.as_str());
        }
        k = k + 1;
    }
    assert(rules@.take(k as int) == rules@);
    out
}

/// Find-and-replace rules applied to sent messages.
pub struct TextReplace {
    pub rules: Vec<(String, String)>,
}

impl TextReplace {
    /// One rule: `(shrug)` becomes `¯\_(ツ)_/¯`.
    pub fn new() -> (r: TextReplace)
        ensures
            r.rules@.len() == 1,
            r.rules@[0].0@ == "(shrug)"@,
            r.rules@[0].1@ == "¯\\_(ツ)_/¯"@,
    {
        let mut rules: Vec<(String, String)> = Vec::new();
        rules.push((to_string_of("(shrug)"), to_string_of("¯\\_(ツ)_/¯")));
        TextReplace { rules }
    }

    /// Adds an empty rule at the end (the settings' "+ Règle" button).
    pub fn add_rule(&mut self)
        ensures
            final(self).rules@.len() == old(self).rules@.len() + 1,
            final(self).rules@.take(old(self).rules@.len() as int) == old(self).rules@,
            final(self).rules@.last().0@.len() == 0,
            final(self).rules@.last().1@.len() == 0,
    {
        self.rules.push((String::new(), String::new()));
    }

    /// Removes rule `i` when there is one (the settings' "✕" button).
    pub fn remove_rule(&mut self, i: usize)
        ensures
            final(self).rules@ == if i < old(self).rules@.len() {
                old(self).rules@.remove(i as int)
            } else {
                old(self).rules@
            },
    {
        if i < self.rules.len() {
            self.rules.remove(i);
        }
    }

    /// The rewriting the plugin applies to an outgoing message.
    pub fn rewrite(&self, content: &mut String)
        ensures
            final(content)@ == apply_rules_spec(old(content)@, self.rules@),
    {
        *content = apply_rules(content.as_str(), self.rules.as_slice());
    }
}

impl Plugin for TextReplace {
    open spec fn name_spec(&self) -> Seq<char> {
        "TextReplace"@
    }

    open spec fn outgoing(&self, content: Seq<char>) -> Seq<char> {
        apply_rules_spec(content, self.rules@)
    }

    fn name(&self) -> (r: &str) {
        "TextReplace"
    }

    fn description(&self) -> (r: &str)
        ensures
            r@ == "Remplace du texte dans les messages envoyés."@,
    {
        "Remplace du texte dans les messages envoyés."
    }

    fn on_outgoing_message(&mut self, content: &mut String) {
        self.rewrite(content);
    }

    fn default_enabled(&self) -> bool {
        false
    }

    fn on_event(&mut self, _event: &Event) {
    }

    fn on_render_content(&self, _content: &mut String) {
    }
}

/// The count after an event: one more for a created message, up to the
/// largest value; unchanged otherwise.
pub open spec fn count_after(count: u64, event: Event) -> int {
    if (event matches Event::MessageCreated(_)) && count < u64::MAX {
        count + 1
    } else {
        count as int
    }
}

/// Counts the messages received during the session.
pub struct MessageCounter {
    pub count: u64,
}

impl MessageCounter {
    pub fn new() -> (r: MessageCounter)
        ensures
            r.count == 0,
    {
        MessageCounter { count: 0 }
    }

    /// Counts a created message; other events are ignored. The count stops
    /// at its largest value.
    pub fn observe(&mut self, event: &Event)
        ensures
            final(self).count == count_after(old(self).count, *event),
    {
        if let Event::MessageCreated(_) = event {
            if self.count < u64::MAX {
                self.count = self.count + 1;
            }
        }
    }
}

/// How many of the events are created messages.
pub open spec fn created_count(events: Seq<Event>) -> nat
    decreases events.len(),
{
    if events.len() == 0 {
        0
    } else {
        created_count(events.drop_last()) + if events.last() is MessageCreated {
            1nat
        } else {
            0nat
        }
    }
}

/// The counter after it observed the events, in order.
pub open spec fn counter_after_events(c: MessageCounter, events: Seq<Event>) -> MessageCounter
    decreases events.len(),
{
    if events.len() == 0 {
        c
    } else {
        counter_after_events(c, events.drop_last()).after_event(events.last())
    }
}

/// The counter counts created messages and nothing else: after any events
/// it has grown by the number of created messages among them, up to the
/// largest value it can hold.
pub proof fn law_counter_counts_created(c: MessageCounter, events: Seq<Event>)
    ensures
        counter_after_events(c, events).count == if c.count + created_count(events) <= u64::MAX {
            c.count + created_count(events)
        } else {
            u64::MAX as int
        },
    decreases events.len(),
{
    if events.len() > 0 {
        law_counter_counts_created(c, events.drop_last());
    }
}

impl Plugin for MessageCounter {
    open spec fn name_spec(&self) -> Seq<char> {
        "MessageCounter"@
    }

    open spec fn after_event(&self, event: Event) -> MessageCounter {
        MessageCounter { count: count_after(self.count, event) as u64 }
    }

    fn name(&self) -> (r: &str) {
        "MessageCounter"
    }

    fn description(&self) -> (r: &str)
        ensures
            r@ == "Compte les messages reçus pendant la session."@,
    {
        "Compte les messages reçus pendant la session."
    }

    fn on_event(&mut self, event: &Event) {
        self.observe(event);
    }

    fn default_enabled(&self) -> bool {
        false
    }

    fn on_outgoing_message(&mut self, _content: &mut String) {
    }

    fn on_render_content(&self, _content: &mut String) {
    }
}

/// Upper-cases displayed messages.
pub struct Loud;

/// The Unicode upper-case mapping of a string.
pub uninterp spec fn uppercase(s: Seq<char>) -> Seq<char>;

/// `str::to_uppercase`: the Unicode upper-case mapping, which may change the
/// length of the text. The result is named, not described.
#[verifier::external_body]
fn to_uppercase(s: &str) -> (r: String)
    ensures
        r@ == uppercase(s@),
{
    s.to_uppercase()
}

impl Loud {
    /// The rewriting the plugin applies to displayed content.
    pub fn shout(&self, content: &mut String)
        ensures
            final(content)@ == uppercase(old(content)@),
    {
        *content = to_uppercase(content.as_str());
    }
}

impl Plugin for Loud {
    open spec fn name_spec(&self) -> Seq<char> {
        "Loud"@
    }

    open spec fn rendered(&self, content: Seq<char>) -> Seq<char> {
        uppercase(content)
    }

    fn name(&self) -> (r: &str) {
        "Loud"
    }

    fn description(&self) -> (r: &str)
        ensures
            r@ == "MET LES MESSAGES AFFICHÉS EN MAJUSCULES."@,
    {
        "MET LES MESSAGES AFFICHÉS EN MAJUSCULES."
    }

    fn on_render_content(&self, content: &mut String) {
        self.shout(content);
    }

    fn default_enabled(&self) -> bool {
        false
    }

    fn on_event(&mut self, _event: &Event) {
    }

    fn on_outgoing_message(&mut self, _content: &mut String) {
    }
}

/// The plugins compiled into the client.
pub enum BuiltinPlugin {
    TextReplace(TextReplace),
    MessageCounter(MessageCounter),
    Loud(Loud),
}

impl Plugin for BuiltinPlugin {
    /// The name of the built-in plugin it holds.
    open spec fn name_spec(&self) -> Seq<char> {
        match self {
            BuiltinPlugin::TextReplace(p) => p.name_spec(),
            BuiltinPlugin::MessageCounter(p) => p.name_spec(),
            BuiltinPlugin::Loud(p) => p.name_spec(),
        }
    }

    open spec fn after_event(&self, event: Event) -> BuiltinPlugin {
        match self {
            BuiltinPlugin::TextReplace(p) => BuiltinPlugin::TextReplace(p.after_event(event)),
            BuiltinPlugin::MessageCounter(p) => BuiltinPlugin::MessageCounter(p.after_event(event)),
            BuiltinPlugin::Loud(p) => BuiltinPlugin::Loud(p.after_event(event)),
        }
    }

    open spec fn outgoing(&self, content: Seq<char>) -> Seq<char> {
        match self {
            BuiltinPlugin::TextReplace(p) => p.outgoing(content),
            BuiltinPlugin::MessageCounter(p) => p.outgoing(content),
            BuiltinPlugin::Loud(p) => p.outgoing(content),
        }
    }

    open spec fn after_outgoing(&self, content: Seq<char>) -> BuiltinPlugin {
        match self {
            BuiltinPlugin::TextReplace(p) => BuiltinPlugin::TextReplace(p.after_outgoing(content)),
            BuiltinPlugin::MessageCounter(p) => BuiltinPlugin::MessageCounter(
                p.after_outgoing(content),
            ),
            BuiltinPlugin::Loud(p) => BuiltinPlugin::Loud(p.after_outgoing(content)),
        }
    }

    open spec fn rendered(&self, content: Seq<char>) -> Seq<char> {
        match self {
            BuiltinPlugin::TextReplace(p) => p.rendered(content),
            BuiltinPlugin::MessageCounter(p) => p.rendered(content),
            BuiltinPlugin::Loud(p) => p.rendered(content),
        }
    }

    fn name(&self) -> (r: &str) {
        match self {
            BuiltinPlugin::TextReplace(p) => p.name(),
            BuiltinPlugin::MessageCounter(p) => p.name(),
            BuiltinPlugin::Loud(p) => p.name(),
        }
    }

    fn description(&self) -> (r: &str)
        ensures
            r@ == match self {
                BuiltinPlugin::TextReplace(_) => "Remplace du texte dans les messages envoyés."@,
                BuiltinPlugin::MessageCounter(_) => "Compte les messages reçus pendant la session."@,
                BuiltinPlugin::Loud(_) => "MET LES MESSAGES AFFICHÉS EN MAJUSCULES."@,
            },
    {
        match self {
            BuiltinPlugin::TextReplace(p) => p.description(),
            BuiltinPlugin::MessageCounter(p) => p.description(),
            BuiltinPlugin::Loud(p) => p.description(),
        }
    }

    fn default_enabled(&self) -> (r: bool)
        ensures
            !r,
    {
        match self {
            BuiltinPlugin::TextReplace(p) => p.default_enabled(),
            BuiltinPlugin::MessageCounter(p) => p.default_enabled(),
            BuiltinPlugin::Loud(p) => p.default_enabled(),
        }
    }

    fn on_event(&mut self, event: &Event) {
        match self {
            BuiltinPlugin::TextReplace(p) => p.on_event(event),
            BuiltinPlugin::MessageCounter(p) => p.on_event(event),
            BuiltinPlugin::Loud(p) => p.on_event(event),
        }
    }

    fn on_outgoing_message(&mut self, content: &mut String) {
        match self {
            BuiltinPlugin::TextReplace(p) => p.on_outgoing_message(content),
            BuiltinPlugin::MessageCounter(p) => p.on_outgoing_message(content),
            BuiltinPlugin::Loud(p) => p.on_outgoing_message(content),
        }
    }

    fn on_render_content(&self, content: &mut String) {
        match self {
            BuiltinPlugin::TextReplace(p) => p.on_render_content(content),
            BuiltinPlugin::MessageCounter(p) => p.on_render_content(content),
            BuiltinPlugin::Loud(p) => p.on_render_content(content),
        }
    }
}

/// The state a built-in plugin starts with: the saved one if there is one,
/// else its default (disabled).
pub open spec fn builtin_state(saved: Seq<(String, bool)>, name: Seq<char>) -> Option<bool> {
    match last_lookup(saved, name) {
        Some(b) => Some(b),
        None => Some(false),
    }
}

impl PluginManager<BuiltinPlugin> {
    /// The manager with the built-in plugins TextReplace, MessageCounter and
    /// Loud, in that order, after the saved states are loaded: a saved state
    /// wins over a plugin's default.
    pub fn builtin(saved: &[(String, bool)]) -> (r: Self)
        ensures
            r.wf(),
            r.plugins_view().len() == 3,
            r.plugins_view()[0] is TextReplace,
            r.plugins_view()[1] is MessageCounter,
            r.plugins_view()[2] is Loud,
            r.name_of(0) == "TextReplace"@,
            r.name_of(1) == "MessageCounter"@,
            r.name_of(2) == "Loud"@,
            forall|i: int| 0 <= i < 3 ==> #[trigger] lookup(r.entries(), r.name_of(i)) == builtin_state(
                saved@,
                r.name_of(i),
            ),
            forall|n: Seq<char>|
                n != "TextReplace"@ && n != "MessageCounter"@ && n != "Loud"@ ==> #[trigger] lookup(
                    r.entries(),
                    n,
                ) == last_lookup(saved@, n),
    {
        let mut m: PluginManager<BuiltinPlugin> = PluginManager::new();
        m.load_enabled(saved);
        m.register(BuiltinPlugin::TextReplace(TextReplace::new()));
        m.register(BuiltinPlugin::MessageCounter(MessageCounter::new()));
        m.register(BuiltinPlugin::Loud(Loud));
        proof {
            reveal_strlit("TextReplace");
            reveal_strlit("MessageCounter");
            reveal_strlit("Loud");
        }
        m
    }
}

} // verus!
