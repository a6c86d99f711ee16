use std::cell::Cell;
use std::rc::Rc;

use veloce::cdn::{avatar_for, avatar_url, default_avatar_url};
use veloce::chat::{
    apply_event, channel_icon, display_name, is_selectable, receive_event, select_channel,
    select_guild, should_append_message, status_label, submit_draft, token_from_input, ChatState,
};
use veloce::commands::Command;
use veloce::events::ConnectionState;
use veloce::models::Channel;
use veloce::text::trim;
use veloce::emoji::{custom_emoji_url, split_emojis, twemoji_code, twemoji_url, EmojiSeg};
use veloce::events::Event;
use veloce::grouping::group_flags;
use veloce::markdown::{parse_markdown, Span};
use veloce::models::{Message, User};
use veloce::plugins::{
    apply_rules, parse_enabled, BuiltinPlugin, Loud, MessageCounter, Plugin, PluginManager, TextReplace,
};
use veloce::timestamp::{format_timestamp_at, parse_epoch};

// ---- cdn ----

#[test]
fn avatar_png_et_gif() {
    assert_eq!(
        avatar_url("42", "abc", 80),
        "https://cdn.discordapp.com/avatars/42/abc.png?size=80"
    );
    assert_eq!(
        avatar_url("42", "a_xyz", 80),
        "https://cdn.discordapp.com/avatars/42/a_xyz.gif?size=80"
    );
}

#[test]
fn defaut_systeme_pseudo_et_legacy() {
    let url = default_avatar_url("80351110224678912", Some("0"));
    assert!(url.starts_with("https://cdn.discordapp.com/embed/avatars/"));
    assert!(url.ends_with(".png"));
    assert_eq!(
        default_avatar_url("1", Some("1337")),
        "https://cdn.discordapp.com/embed/avatars/2.png"
    );
}

#[test]
fn defaut_pseudo_index_exact() {
    // (80351110224678912 >> 22) % 6 == 19157244611 % 6 == 5
    assert_eq!(
        default_avatar_url("80351110224678912", Some("0")),
        "https://cdn.discordapp.com/embed/avatars/5.png"
    );
    // no discriminator behaves as the new system
    assert_eq!(
        default_avatar_url("80351110224678912", None),
        "https://cdn.discordapp.com/embed/avatars/5.png"
    );
    // unreadable id gives 0
    assert_eq!(
        default_avatar_url("abc", None),
        "https://cdn.discordapp.com/embed/avatars/0.png"
    );
    // unreadable legacy discriminator gives 0
    assert_eq!(
        default_avatar_url("1", Some("x")),
        "https://cdn.discordapp.com/embed/avatars/0.png"
    );
}

#[test]
fn avatar_pour_un_utilisateur() {
    let mut u = user("42");
    u.avatar = Some("abc".into());
    assert_eq!(avatar_for(&u), "https://cdn.discordapp.com/avatars/42/abc.png?size=80");
    u.avatar = Some(String::new());
    u.discriminator = Some("1337".into());
    assert_eq!(avatar_for(&u), "https://cdn.discordapp.com/embed/avatars/2.png");
    u.avatar = None;
    assert_eq!(avatar_for(&u), "https://cdn.discordapp.com/embed/avatars/2.png");
}

// ---- emoji ----

#[test]
fn custom_url() {
    assert_eq!(
        custom_emoji_url("123"),
        "https://cdn.discordapp.com/emojis/123.png?size=44"
    );
}

#[test]
fn twemoji_code_simple_et_fe0f_et_zwj() {
    assert_eq!(twemoji_code("\u{1F600}"), "1f600");
    assert_eq!(twemoji_code("\u{2764}\u{FE0F}"), "2764");
    assert_eq!(
        twemoji_code("\u{1F468}\u{200D}\u{1F469}\u{200D}\u{1F467}"),
        "1f468-200d-1f469-200d-1f467"
    );
    assert_eq!(twemoji_code("5\u{FE0F}\u{20E3}"), "35-20e3");
}

#[test]
fn twemoji_url_forme() {
    assert_eq!(
        twemoji_url("\u{1F600}"),
        "https://cdn.jsdelivr.net/gh/jdecked/twemoji@15.1.0/assets/72x72/1f600.png"
    );
}

#[test]
fn split_custom_simple_et_anime() {
    assert_eq!(
        split_emojis("<:smile:123>"),
        vec![EmojiSeg::Emoji { url: custom_emoji_url("123") }]
    );
    assert_eq!(
        split_emojis("<a:wave:456>"),
        vec![EmojiSeg::Emoji { url: custom_emoji_url("456") }]
    );
}

#[test]
fn split_unicode_mixte() {
    let segs = split_emojis("a\u{1F600}b");
    assert_eq!(
        segs,
        vec![
            EmojiSeg::Text("a".into()),
            EmojiSeg::Emoji { url: twemoji_url("\u{1F600}") },
            EmojiSeg::Text("b".into()),
        ]
    );
}

#[test]
fn chiffre_nu_n_est_pas_emoji() {
    assert_eq!(split_emojis("5"), vec![EmojiSeg::Text("5".into())]);
}

#[test]
fn keycap_est_emoji() {
    let segs = split_emojis("5\u{FE0F}\u{20E3}");
    assert_eq!(
        segs,
        vec![EmojiSeg::Emoji { url: twemoji_url("5\u{FE0F}\u{20E3}") }]
    );
}

#[test]
fn texte_consecutif_fusionne() {
    assert_eq!(split_emojis("hello"), vec![EmojiSeg::Text("hello".into())]);
}

#[test]
fn emoji_custom_mal_forme_reste_texte() {
    assert_eq!(split_emojis("<:x:>"), vec![EmojiSeg::Text("<:x:>".into())]);
    assert_eq!(split_emojis("<:x:12a>"), vec![EmojiSeg::Text("<:x:12a>".into())]);
    assert_eq!(split_emojis(""), vec![]);
    assert_eq!(
        split_emojis("a<:s:1>b"),
        vec![
            EmojiSeg::Text("a".into()),
            EmojiSeg::Emoji { url: custom_emoji_url("1") },
            EmojiSeg::Text("b".into()),
        ]
    );
}

// ---- markdown ----

fn neutre(t: &str) -> Span {
    Span { text: t.into(), bold: false, italic: false, strike: false, code: false }
}

#[test]
fn texte_simple_un_span_neutre() {
    assert_eq!(parse_markdown("bonjour"), vec![neutre("bonjour")]);
}

#[test]
fn gras_detecte() {
    let r = parse_markdown("a **b** c");
    assert_eq!(r[0], neutre("a "));
    assert_eq!(
        r[1],
        Span { text: "b".into(), bold: true, italic: false, strike: false, code: false }
    );
    assert_eq!(r[2], neutre(" c"));
}

#[test]
fn italique_et_code() {
    let r = parse_markdown("*i* `c`");
    assert!(r.iter().any(|s| s.text == "i" && s.italic));
    assert!(r.iter().any(|s| s.text == "c" && s.code));
}

#[test]
fn barre_detecte() {
    let r = parse_markdown("~~x~~");
    assert_eq!(
        r,
        vec![Span { text: "x".into(), bold: false, italic: false, strike: true, code: false }]
    );
}

#[test]
fn marqueur_non_ferme_reste_litteral() {
    assert_eq!(parse_markdown("**oops"), vec![neutre("**oops")]);
}

#[test]
fn markdown_vide_et_marqueur_vide() {
    assert_eq!(parse_markdown(""), vec![]);
    // an empty pair closes on nothing and stays literal
    assert_eq!(parse_markdown("****"), vec![neutre("****")]);
}

// ---- timestamp ----

#[test]
fn epoch_connu() {
    assert_eq!(parse_epoch("1970-01-01T00:00:00.000000+00:00"), Some(0));
    assert_eq!(parse_epoch("2021-01-01T00:00:00+00:00"), Some(1_609_459_200));
}

#[test]
fn epoch_invalide_donne_none() {
    assert_eq!(parse_epoch(""), None);
    assert_eq!(parse_epoch("pas-une-date"), None);
}

#[test]
fn epoch_avec_decalage() {
    // the offset is ignored: Discord sends UTC
    assert_eq!(parse_epoch("1970-01-01T02:00:00+02:00"), Some(7200));
    assert_eq!(parse_epoch("1970-01-01T00:00:00Z"), Some(0));
    assert_eq!(parse_epoch("1969-12-31T23:59:59+00:00"), Some(-1));
}

#[test]
fn epoch_ignore_fraction_et_fuseau() {
    assert_eq!(parse_epoch("2021-01-01T00:00:00.5+02:00"), Some(1_609_459_200));
    assert_eq!(parse_epoch("2021-01-01T00:00:00"), Some(1_609_459_200));
}

#[test]
fn format_avec_offset_utc() {
    assert_eq!(
        format_timestamp_at("2026-06-29T14:23:45.000000+00:00", 0),
        "29/06/2026 à 14:23"
    );
}

#[test]
fn format_avec_offset_utc_plus_2() {
    assert_eq!(
        format_timestamp_at("2026-06-29T14:23:45.000000+00:00", 2 * 3600),
        "29/06/2026 à 16:23"
    );
}

#[test]
fn format_invalide_donne_vide() {
    assert_eq!(format_timestamp_at("xxx", 0), "");
    assert_eq!(format_timestamp_at("pas-une-date", 0), "");
}

#[test]
fn format_offset_negatif_change_de_jour() {
    assert_eq!(
        format_timestamp_at("2026-06-29T01:05:00+00:00", -3 * 3600),
        "28/06/2026 à 22:05"
    );
    assert_eq!(
        format_timestamp_at("2026-06-29T14:23:45+02:00", 0),
        "29/06/2026 à 12:23"
    );
}

// ---- grouping ----

fn user(id: &str) -> User {
    User {
        id: id.into(),
        username: id.into(),
        global_name: None,
        discriminator: None,
        avatar: None,
    }
}

fn msg_in(id: &str, channel: &str, author: &str, ts: Option<&str>) -> Message {
    Message {
        id: id.into(),
        channel_id: channel.into(),
        content: String::new(),
        author: user(author),
        timestamp: ts.map(|t| t.into()),
        edited_timestamp: None,
        mentions: vec![],
        mention_roles: vec![],
        attachments: vec![],
        embeds: vec![],
        referenced_message: None,
    }
}

fn msg(id: &str, author: &str, ts: &str) -> Message {
    msg_in(id, "c", author, Some(ts))
}

#[test]
fn premier_est_toujours_entete() {
    let m = vec![msg("1", "alice", "2026-06-29T14:00:00+00:00")];
    assert_eq!(group_flags(&m), vec![true]);
}

#[test]
fn meme_auteur_proche_est_continuation() {
    let m = vec![
        msg("1", "alice", "2026-06-29T14:00:00+00:00"),
        msg("2", "alice", "2026-06-29T14:03:00+00:00"),
    ];
    assert_eq!(group_flags(&m), vec![true, false]);
}

#[test]
fn auteur_different_coupe() {
    let m = vec![
        msg("1", "alice", "2026-06-29T14:00:00+00:00"),
        msg("2", "bob", "2026-06-29T14:01:00+00:00"),
    ];
    assert_eq!(group_flags(&m), vec![true, true]);
}

#[test]
fn ecart_superieur_a_7min_coupe() {
    let m = vec![
        msg("1", "alice", "2026-06-29T14:00:00+00:00"),
        msg("2", "alice", "2026-06-29T14:08:00+00:00"),
    ];
    assert_eq!(group_flags(&m), vec![true, true]);
}

#[test]
fn timestamp_absent_coupe_groupe() {
    let m1 = msg("1", "alice", "2026-06-29T14:00:00+00:00");
    let m2 = msg_in("2", "c", "alice", None);
    assert_eq!(group_flags(&[m1, m2]), vec![true, true]);
}

#[test]
fn ecart_de_7min_exactement_continue() {
    let m = vec![
        msg("1", "alice", "2026-06-29T14:00:00+00:00"),
        msg("2", "alice", "2026-06-29T14:07:00+00:00"),
    ];
    assert_eq!(group_flags(&m), vec![true, false]);
    assert_eq!(group_flags(&[]), Vec::<bool>::new());
}

// ---- chat state ----

#[test]
fn should_append_message_dedupe_par_id() {
    let existing = vec![msg_in("1", "ch1", "u1", None)];
    assert!(!should_append_message(&existing, &msg_in("1", "ch1", "u1", None)));
    assert!(should_append_message(&existing, &msg_in("2", "ch1", "u1", None)));
}

#[test]
fn icones_de_salon() {
    assert_eq!(channel_icon(0), "#");
    assert_eq!(channel_icon(2), "🔊");
    assert_eq!(channel_icon(5), "📢");
    assert_eq!(channel_icon(13), "🎙");
    assert_eq!(channel_icon(15), "💬");
}

#[test]
fn evenements_de_messages_dans_le_salon_choisi() {
    let mut s = ChatState::default();
    s.selected_channel = Some("c".into());
    apply_event(&mut s, Event::MessageCreated(msg_in("1", "c", "a", None)));
    apply_event(&mut s, Event::MessageCreated(msg_in("1", "c", "a", None)));
    apply_event(&mut s, Event::MessageCreated(msg_in("2", "autre", "a", None)));
    assert_eq!(s.messages.len(), 1);
    let mut edited = msg_in("1", "c", "a", None);
    edited.content = "edit".into();
    apply_event(&mut s, Event::MessageUpdated(edited));
    assert_eq!(s.messages[0].content, "edit");
    apply_event(&mut s, Event::MessageDeleted { id: "1".into(), channel_id: "c".into() });
    assert!(s.messages.is_empty());
    apply_event(&mut s, Event::Error("boom".into()));
    assert_eq!(s.last_error.as_deref(), Some("boom"));
    apply_event(
        &mut s,
        Event::MessagesLoaded { channel_id: "autre".into(), messages: vec![msg_in("9", "autre", "a", None)] },
    );
    assert!(s.messages.is_empty());
    apply_event(
        &mut s,
        Event::MessagesLoaded { channel_id: "c".into(), messages: vec![msg_in("9", "c", "a", None)] },
    );
    assert_eq!(s.messages.len(), 1);
    assert!(s.last_error.is_none());
}

// ---- plugins ----

#[test]
fn met_en_majuscules() {
    let p = Loud;
    let mut s = "hello".to_string();
    p.on_render_content(&mut s);
    assert_eq!(s, "HELLO");
}

#[test]
fn compte_seulement_les_message_created() {
    let mut p = MessageCounter::new();
    p.on_event(&Event::Error("x".into()));
    assert_eq!(p.count, 0);
    p.on_event(&Event::MessageCreated(msg_in("1", "c", "a", None)));
    assert_eq!(p.count, 1);
}

#[test]
fn apply_rules_remplace_plusieurs_et_ignore_vide() {
    let rules = vec![
        ("foo".to_string(), "bar".to_string()),
        (String::new(), "X".to_string()),
    ];
    assert_eq!(apply_rules("foo foo baz", &rules), "bar bar baz");
    assert_eq!(apply_rules("rien", &rules), "rien");
}

#[test]
fn regles_appliquees_dans_l_ordre() {
    let rules = vec![
        ("a".to_string(), "b".to_string()),
        ("b".to_string(), "c".to_string()),
    ];
    assert_eq!(apply_rules("ab", &rules), "cc");
    // replacement text is not scanned again
    let rules = vec![("a".to_string(), "aa".to_string())];
    assert_eq!(apply_rules("aa", &rules), "aaaa");
}

#[test]
fn text_replace_par_defaut_shrug() {
    let mut p = TextReplace::new();
    let mut s = "bof (shrug)".to_string();
    p.on_outgoing_message(&mut s);
    assert_eq!(s, "bof ¯\\_(ツ)_/¯");
    assert_eq!(p.name(), "TextReplace");
    assert!(!p.default_enabled());
}

struct TestPlugin {
    nm: String,
    on: bool,
    tag: String,
    events: Rc<Cell<u32>>,
}

impl TestPlugin {
    fn new(nm: &str, on: bool, tag: &str, events: Rc<Cell<u32>>) -> Self {
        Self { nm: nm.into(), on, tag: tag.into(), events }
    }
}

impl Plugin for TestPlugin {
    fn name(&self) -> &str {
        &self.nm
    }
    fn description(&self) -> &str {
        "t"
    }
    fn default_enabled(&self) -> bool {
        self.on
    }
    fn on_event(&mut self, _e: &Event) {
        self.events.set(self.events.get() + 1);
    }
    fn on_outgoing_message(&mut self, c: &mut String) {
        c.push_str(&self.tag);
    }
    fn on_render_content(&self, c: &mut String) {
        c.push_str(&self.tag);
    }
}

#[test]
fn register_applique_default_enabled() {
    let mut m = PluginManager::new();
    m.register(TestPlugin::new("A", true, "", Rc::new(Cell::new(0))));
    m.register(TestPlugin::new("B", false, "", Rc::new(Cell::new(0))));
    assert!(m.is_enabled("A"));
    assert!(!m.is_enabled("B"));
}

#[test]
fn dispatch_event_seulement_si_active() {
    let c = Rc::new(Cell::new(0));
    let mut m = PluginManager::new();
    m.register(TestPlugin::new("A", true, "", c.clone()));
    m.dispatch_event(&Event::Error("x".into()));
    assert_eq!(c.get(), 1);
    m.set_enabled("A", false);
    m.dispatch_event(&Event::Error("x".into()));
    assert_eq!(c.get(), 1);
}

#[test]
fn apply_outgoing_chaine_dans_l_ordre_et_ignore_desactives() {
    let mut m = PluginManager::new();
    m.register(TestPlugin::new("A", true, "a", Rc::new(Cell::new(0))));
    m.register(TestPlugin::new("B", true, "b", Rc::new(Cell::new(0))));
    let mut s = String::new();
    m.apply_outgoing(&mut s);
    assert_eq!(s, "ab");
    m.set_enabled("A", false);
    let mut s2 = String::new();
    m.apply_outgoing(&mut s2);
    assert_eq!(s2, "b");
}

#[test]
fn apply_render_chaine_les_actives() {
    let mut m = PluginManager::new();
    m.register(TestPlugin::new("A", true, "!", Rc::new(Cell::new(0))));
    let mut s = "hi".to_string();
    m.apply_render(&mut s);
    assert_eq!(s, "hi!");
}

#[test]
fn etat_persistant_relu_et_prioritaire() {
    let mut m = PluginManager::new();
    m.load_enabled(&[("A".to_string(), false), ("Z".to_string(), true)]);
    // a saved state wins over the default of a plugin registered later
    m.register(TestPlugin::new("A", true, "", Rc::new(Cell::new(0))));
    assert!(!m.is_enabled("A"));
    assert!(m.is_enabled("Z"));
    assert!(!m.is_enabled("inconnu"));
    let entries = m.enabled_entries();
    assert!(entries.contains(&("A".to_string(), false)));
    assert!(entries.contains(&("Z".to_string(), true)));
    m.set_enabled("A", true);
    assert!(m.is_enabled("A"));
}

fn saved(entries: &[(String, bool)], name: &str) -> Option<bool> {
    entries.iter().find(|(n, _)| n == name).map(|(_, b)| *b)
}

#[test]
fn parse_enabled_valide_et_invalide() {
    let m = parse_enabled(r#"{"A":true,"B":false}"#);
    assert_eq!(saved(&m, "A"), Some(true));
    assert_eq!(saved(&m, "B"), Some(false));
    assert_eq!(m.len(), 2);
    // invalid JSON gives no entry (and no panic)
    assert!(parse_enabled("pas du json").is_empty());
    assert!(parse_enabled(r#"{"A":1}"#).is_empty());
    assert!(parse_enabled("").is_empty());
}

#[test]
fn parse_enabled_cle_repetee() {
    let m = parse_enabled(r#"{"A":true,"A":false}"#);
    assert_eq!(m, vec![("A".to_string(), false)]);
}

#[test]
fn chargement_persistant() {
    let mut m = PluginManager::new();
    m.register(TestPlugin::new("A", true, "", Rc::new(Cell::new(0))));
    assert!(m.is_enabled("A"));
    // an unreadable file changes nothing
    m.load_persisted(None);
    assert!(m.is_enabled("A"));
    m.load_persisted(Some(r#"{"A":false,"B":true}"#));
    assert!(!m.is_enabled("A"));
    assert!(m.is_enabled("B"));
    // a text that does not read leaves no state
    m.load_persisted(Some("pas du json"));
    assert!(!m.is_enabled("B"));
    assert!(m.enabled_entries().is_empty());
}

#[test]
fn sauvegarde_puis_rechargement() {
    let mut m = PluginManager::new();
    m.register(TestPlugin::new("A", true, "", Rc::new(Cell::new(0))));
    m.register(TestPlugin::new("B\"x", false, "", Rc::new(Cell::new(0))));
    m.set_enabled("C", true);
    let text = m.saved_text();
    let entries = parse_enabled(&text);
    assert_eq!(entries.len(), 3);
    assert_eq!(saved(&entries, "A"), Some(true));
    assert_eq!(saved(&entries, "B\"x"), Some(false));
    assert_eq!(saved(&entries, "C"), Some(true));
    let mut m2 = PluginManager::<TestPlugin>::new();
    m2.load_persisted(Some(&text));
    assert!(m2.is_enabled("A"));
    assert!(!m2.is_enabled("B\"x"));
    assert!(m2.is_enabled("C"));
    assert_eq!(m2.enabled_entries().len(), 3);
}

#[test]
fn sauvegarde_vide() {
    let m = PluginManager::<TestPlugin>::new();
    let text = m.saved_text();
    assert_eq!(text.trim(), "{}");
    assert!(parse_enabled(&text).is_empty());
}

#[test]
fn reglages_d_un_plugin() {
    let mut m = PluginManager::<BuiltinPlugin>::builtin(&[]);
    if let BuiltinPlugin::TextReplace(t) = m.plugin_mut(0) {
        t.add_rule();
    }
    match &m.plugins()[0] {
        BuiltinPlugin::TextReplace(t) => assert_eq!(t.rules.len(), 2),
        _ => panic!("TextReplace attendu en tête"),
    }
    assert_eq!(m.plugins()[0].name(), "TextReplace");
    assert!(!m.is_enabled("TextReplace"));
}

// ---- built-in plugins ----

#[test]
fn builtin_enregistre_les_trois_desactives_par_defaut() {
    let m = PluginManager::<BuiltinPlugin>::builtin(&[]);
    assert_eq!(m.plugins().len(), 3);
    assert_eq!(m.plugins()[0].name(), "TextReplace");
    assert_eq!(m.plugins()[1].name(), "MessageCounter");
    assert_eq!(m.plugins()[2].name(), "Loud");
    assert!(!m.is_enabled("TextReplace"));
    assert!(!m.is_enabled("MessageCounter"));
    assert!(!m.is_enabled("Loud"));
}

#[test]
fn builtin_etat_sauve_l_emporte() {
    let saved = vec![("Loud".to_string(), true), ("Autre".to_string(), true)];
    let mut m = PluginManager::<BuiltinPlugin>::builtin(&saved);
    assert!(m.is_enabled("Loud"));
    assert!(m.is_enabled("Autre"));
    assert!(!m.is_enabled("TextReplace"));
    let mut s = "salut".to_string();
    m.apply_render(&mut s);
    assert_eq!(s, "SALUT");
    let mut out = "(shrug)".to_string();
    m.apply_outgoing(&mut out);
    assert_eq!(out, "(shrug)");
    m.set_enabled("TextReplace", true);
    m.apply_outgoing(&mut out);
    assert_eq!(out, "¯\\_(ツ)_/¯");
}

#[test]
fn etat_sauve_puis_recharge() {
    let mut m = PluginManager::<BuiltinPlugin>::builtin(&[]);
    m.set_enabled("MessageCounter", true);
    let saved = m.enabled_entries();
    let m2 = PluginManager::<BuiltinPlugin>::builtin(&saved);
    assert!(m2.is_enabled("MessageCounter"));
    assert!(!m2.is_enabled("Loud"));
}

// ---- interface decisions ----

fn salon(id: &str, kind: u8) -> Channel {
    Channel {
        id: id.into(),
        name: Some(id.into()),
        kind,
        guild_id: Some("g".into()),
        position: Some(0),
        parent_id: None,
        permission_overwrites: vec![],
    }
}

#[test]
fn reception_auth_echouee_rendue_a_l_appelant() {
    let mut s = ChatState::default();
    let c = Rc::new(Cell::new(0));
    let mut m = PluginManager::new();
    m.register(TestPlugin::new("A", true, "", c.clone()));
    let r = receive_event(&mut s, &mut m, Event::AuthFailed("token invalide".into()));
    assert_eq!(r.as_deref(), Some("token invalide"));
    assert_eq!(c.get(), 1);
    assert!(s.last_error.is_none());
    let r = receive_event(&mut s, &mut m, Event::Error("réseau".into()));
    assert!(r.is_none());
    assert_eq!(s.last_error.as_deref(), Some("réseau"));
    assert_eq!(c.get(), 2);
}

#[test]
fn selection_de_serveur_et_de_salon() {
    let mut s = ChatState::default();
    s.channels = vec![salon("x", 0)];
    let cmd = select_guild(&mut s, "g1".into());
    assert!(matches!(cmd, Command::SelectGuild(ref g) if g == "g1"));
    assert_eq!(s.selected_guild.as_deref(), Some("g1"));
    assert!(s.channels.is_empty());
    s.messages = vec![msg_in("1", "c", "a", None)];
    assert!(select_channel(&mut s, &salon("voc", 2)).is_none());
    assert_eq!(s.messages.len(), 1);
    assert!(s.selected_channel.is_none());
    let cmd = select_channel(&mut s, &salon("txt", 0));
    assert!(matches!(cmd, Some(Command::FetchHistory(ref c)) if c == "txt"));
    assert_eq!(s.selected_channel.as_deref(), Some("txt"));
    assert!(s.messages.is_empty());
    assert!(is_selectable(5) && is_selectable(15) && !is_selectable(13) && !is_selectable(4));
}

#[test]
fn envoi_du_brouillon() {
    let mut s = ChatState::default();
    let mut m = PluginManager::<BuiltinPlugin>::builtin(&[]);
    s.draft = "  bonjour  ".into();
    // no channel selected: nothing happens
    assert!(submit_draft(&mut s, &mut m).is_none());
    assert_eq!(s.draft, "  bonjour  ");
    s.selected_channel = Some("c".into());
    let cmd = submit_draft(&mut s, &mut m);
    assert!(matches!(cmd, Some(Command::SendMessage { ref channel_id, ref content })
        if channel_id == "c" && content == "bonjour"));
    assert!(s.draft.is_empty());
    // a blank draft is not sent and stays
    s.draft = " \t ".into();
    assert!(submit_draft(&mut s, &mut m).is_none());
    assert_eq!(s.draft, " \t ");
    // the plugins rewrite the message
    m.set_enabled("TextReplace", true);
    s.draft = "(shrug)".into();
    let cmd = submit_draft(&mut s, &mut m);
    assert!(matches!(cmd, Some(Command::SendMessage { ref content, .. }) if content == "¯\\_(ツ)_/¯"));
}

#[test]
fn libelles_et_noms() {
    assert_eq!(status_label(Some(ConnectionState::Connected)), "● connecté");
    assert_eq!(status_label(Some(ConnectionState::Reconnecting)), "○ reconnexion…");
    assert_eq!(status_label(Some(ConnectionState::Connecting)), "○ connexion…");
    assert_eq!(status_label(Some(ConnectionState::Disconnected)), "○ hors ligne");
    assert_eq!(status_label(None), "○ hors ligne");
    let mut u = user("alice");
    assert_eq!(display_name(&u), "alice");
    u.global_name = Some("Alice".into());
    assert_eq!(display_name(&u), "Alice");
}

#[test]
fn saisie_du_token() {
    assert_eq!(token_from_input("  abc.def  ").as_deref(), Some("abc.def"));
    assert_eq!(token_from_input(" \u{3000}\n"), None);
    assert_eq!(token_from_input(""), None);
    assert_eq!(trim("\u{2003}x y\u{85}"), "x y");
}

#[test]
fn bascules_et_regles() {
    let mut m = PluginManager::<BuiltinPlugin>::builtin(&[]);
    assert!(!m.apply_toggles(&[]));
    assert!(m.apply_toggles(&[("Loud".to_string(), true), ("Loud".to_string(), false), ("TextReplace".to_string(), true)]));
    assert!(!m.is_enabled("Loud"));
    assert!(m.is_enabled("TextReplace"));
    let mut t = TextReplace::new();
    t.add_rule();
    assert_eq!(t.rules.len(), 2);
    assert_eq!(t.rules[1], (String::new(), String::new()));
    t.remove_rule(5);
    assert_eq!(t.rules.len(), 2);
    t.remove_rule(0);
    assert_eq!(t.rules, vec![(String::new(), String::new())]);
}

fn source(spans: &[Span]) -> String {
    spans
        .iter()
        .map(|s| {
            let m = if s.bold {
                "**"
            } else if s.strike {
                "~~"
            } else if s.code {
                "`"
            } else if s.italic {
                "*"
            } else {
                ""
            };
            format!("{m}{}{m}", s.text)
        })
        .collect()
}

#[test]
fn markdown_sans_perte() {
    for input in ["a **b** *c* `d` ~~e~~ f", "**oops", "****x**", "*a**b*", "``", "~~~x~~"] {
        let spans = parse_markdown(input);
        assert_eq!(source(&spans), input);
        assert!(spans.iter().all(|s| !s.text.is_empty()));
        let plain = |s: &Span| !(s.bold || s.italic || s.strike || s.code);
        assert!(spans.windows(2).all(|w| !(plain(&w[0]) && plain(&w[1]))));
    }
}

#[test]
fn crochets_des_plugins_integres() {
    let mut c = BuiltinPlugin::MessageCounter(MessageCounter::new());
    c.on_event(&Event::MessageCreated(msg_in("1", "c", "a", None)));
    c.on_event(&Event::Error("x".into()));
    assert!(matches!(c, BuiltinPlugin::MessageCounter(ref m) if m.count == 1));
    assert_eq!(c.description(), "Compte les messages reçus pendant la session.");
    let mut s = "abc".to_string();
    c.on_outgoing_message(&mut s);
    c.on_render_content(&mut s);
    assert_eq!(s, "abc");
    let l = BuiltinPlugin::Loud(Loud);
    l.on_render_content(&mut s);
    assert_eq!(s, "ABC");
    assert_eq!(l.description(), "MET LES MESSAGES AFFICHÉS EN MAJUSCULES.");
    let t = BuiltinPlugin::TextReplace(TextReplace::new());
    assert_eq!(t.description(), "Remplace du texte dans les messages envoyés.");
    assert!(!t.default_enabled());
}

#[test]
fn chaines_de_polices() {
    assert_eq!(
        veloce::fonts::family_fallback(false),
        vec!["noto_sans", "noto_sans_cjk", "noto_sans_symbols2", "noto_sans_math", "noto_emoji"]
    );
    assert_eq!(veloce::fonts::family_fallback(true)[0], "noto_sans_mono");
}
