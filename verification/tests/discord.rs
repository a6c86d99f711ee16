use base64::Engine;
use veloce::channel_tree::{build_channel_tree, TreeRow};
use veloce::events::{ConnectionState, Event};
use veloce::gateway::{dispatch_event, next_backoff, parse_ready_guilds, DispatchData, RawGuild};
use veloce::gateway_state::{GatewayAction, GatewayState};
use veloce::identity::{super_properties_b64, USER_AGENT};
use veloce::models::{Attachment, Channel, Message, Overwrite, Role, User};
use veloce::perms::{
    base_permissions, can_view_channel, channel_permissions, parse, visible_channel_ids,
    ADMINISTRATOR, VIEW_CHANNEL,
};
use veloce::session::{Frame, GatewaySession, Payload};
use veloce::rest::{
    classify_status, guild_channels_event, history_event, sent_event, ResponseClass,
    GUILD_LOAD_FAILED,
};

fn ow(id: &str, kind: u8, allow: &str, deny: &str) -> Overwrite {
    Overwrite {
        id: id.into(),
        kind,
        allow: allow.into(),
        deny: deny.into(),
    }
}

fn chan(id: &str, parent: Option<&str>, kind: u8, ows: Vec<Overwrite>) -> Channel {
    Channel {
        id: id.into(),
        name: Some(id.into()),
        kind,
        guild_id: Some("10".into()),
        position: Some(0),
        parent_id: parent.map(|s| s.into()),
        permission_overwrites: ows,
    }
}

fn c(id: &str, kind: u8, parent: Option<&str>, pos: i32) -> Channel {
    Channel {
        id: id.into(),
        name: Some(id.into()),
        kind,
        guild_id: Some("10".into()),
        position: Some(pos),
        parent_id: parent.map(|s| s.into()),
        permission_overwrites: vec![],
    }
}

const V: u64 = VIEW_CHANNEL;

#[test]
fn owner_a_tout() {
    assert_eq!(base_permissions(0, &[], true), u64::MAX);
}

#[test]
fn admin_a_tout() {
    let b = base_permissions(ADMINISTRATOR, &[], false);
    assert_eq!(b, u64::MAX);
}

#[test]
fn everyone_deny_view_cache() {
    let b = V;
    let ows = vec![ow("10", 0, "0", &V.to_string())];
    assert!(!can_view_channel(b, &ows, "10", &[], "me"));
}

#[test]
fn role_allow_view_par_dessus_everyone_deny() {
    let b = V;
    let ows = vec![ow("10", 0, "0", &V.to_string()), ow("42", 0, &V.to_string(), "0")];
    assert!(can_view_channel(b, &ows, "10", &["42".to_string()], "me"));
}

#[test]
fn member_overwrite_prioritaire() {
    let b = V;
    let ows = vec![ow("42", 0, "0", &V.to_string()), ow("me", 1, &V.to_string(), "0")];
    assert!(can_view_channel(b, &ows, "10", &["42".to_string()], "me"));
}

#[test]
fn visible_channel_ids_filtre() {
    let everyone = Role {
        id: "10".into(),
        name: String::new(),
        permissions: V.to_string(),
        position: 0,
        color: 0,
    };
    let chans = vec![
        chan("a", None, 0, vec![]),
        chan("b", None, 0, vec![ow("10", 0, "0", &V.to_string())]),
    ];
    let vis = visible_channel_ids(&chans, &[everyone], "owner", &[], "me", "10");
    assert!(vis.contains(&"a".to_string()));
    assert!(!vis.contains(&"b".to_string()));
}

#[test]
fn groupe_par_categorie_et_ordonne() {
    let chans = vec![
        c("cat1", 4, None, 1),
        c("txt", 0, Some("cat1"), 1),
        c("voc", 2, Some("cat1"), 0),
        c("root", 0, None, 0),
    ];
    let visible: Vec<String> = ["cat1", "txt", "voc", "root"]
        .iter()
        .map(|s| s.to_string())
        .collect();
    let rows = build_channel_tree(&chans, &visible);
    match &rows[0] {
        TreeRow::Channel(ch) => assert_eq!(ch.id, "root"),
        _ => panic!(),
    }
    match &rows[1] {
        TreeRow::Category { id, .. } => assert_eq!(id, "cat1"),
        _ => panic!(),
    }
    match &rows[2] {
        TreeRow::Channel(ch) => assert_eq!(ch.id, "txt"),
        _ => panic!(),
    }
    match &rows[3] {
        TreeRow::Channel(ch) => assert_eq!(ch.id, "voc"),
        _ => panic!(),
    }
}

#[test]
fn filtre_invisibles_et_categorie_vide_masquee() {
    let chans = vec![c("cat1", 4, None, 0), c("secret", 0, Some("cat1"), 0)];
    let visible: Vec<String> = Vec::new();
    let rows = build_channel_tree(&chans, &visible);
    assert!(rows.is_empty());
}

#[test]
fn message_deleted_porte_id_et_channel() {
    let e = Event::MessageDeleted {
        id: "1".into(),
        channel_id: "2".into(),
    };
    match e.clone() {
        Event::MessageDeleted { id, channel_id } => {
            assert_eq!(id, "1");
            assert_eq!(channel_id, "2");
        }
        other => panic!("variant inattendu: {other:?}"),
    }
}

#[test]
fn connection_state_compare() {
    assert_ne!(ConnectionState::Connected, ConnectionState::Disconnected);
}

#[test]
fn next_backoff_double_et_plafonne() {
    assert_eq!(next_backoff(1000), 2000);
    assert_eq!(next_backoff(20_000), 30_000);
    assert_eq!(next_backoff(30_000), 30_000);
}

#[test]
fn next_backoff_sature() {
    assert_eq!(next_backoff(14_999), 29_998);
    assert_eq!(next_backoff(15_000), 30_000);
    assert_eq!(next_backoff(u64::MAX), 30_000);
    assert_eq!(next_backoff(0), 0);
}

fn raw(id: Option<&str>, name: Option<&str>, icon: Option<&str>, pname: Option<&str>, picon: Option<&str>) -> RawGuild {
    RawGuild {
        id: id.map(|s| s.to_string()),
        name: name.map(|s| s.to_string()),
        icon: icon.map(|s| s.to_string()),
        properties_name: pname.map(|s| s.to_string()),
        properties_icon: picon.map(|s| s.to_string()),
    }
}

#[test]
fn parse_ready_guilds_tolere_nom_top_level_et_properties() {
    let d = vec![
        raw(Some("1"), Some("Bot-style"), Some("a"), None, None),
        raw(Some("2"), None, None, Some("User-style"), Some("b")),
        raw(Some("3"), None, None, None, None),
    ];
    let g = parse_ready_guilds(&d);
    assert_eq!(g.len(), 2);
    assert_eq!(g[0].id, "1");
    assert_eq!(g[0].name, "Bot-style");
    assert_eq!(g[0].icon.as_deref(), Some("a"));
    assert_eq!(g[1].id, "2");
    assert_eq!(g[1].name, "User-style");
    assert_eq!(g[1].icon.as_deref(), Some("b"));
}

#[test]
fn parse_ready_guilds_vide_si_absent() {
    assert!(parse_ready_guilds(&[]).is_empty());
}

#[test]
fn hello_demarre_heartbeat() {
    let mut s = GatewayState::default();
    assert_eq!(
        s.on_hello(41250),
        GatewayAction::StartHeartbeat { interval_ms: 41250 }
    );
    assert_eq!(s.heartbeat_interval_ms, Some(41250));
}

#[test]
fn handshake_identify_sans_session_puis_resume_avec() {
    let mut s = GatewayState::default();
    assert_eq!(s.handshake_action(), GatewayAction::Identify);
    s.set_session("sess-1".into());
    s.on_payload(0, Some("MESSAGE_CREATE"), Some(7), None);
    assert_eq!(
        s.handshake_action(),
        GatewayAction::Resume {
            session_id: "sess-1".into(),
            seq: Some(7)
        }
    );
}

#[test]
fn dispatch_enregistre_la_sequence() {
    let mut s = GatewayState::default();
    let a = s.on_payload(0, Some("READY"), Some(1), None);
    assert_eq!(a, GatewayAction::Dispatch("READY".into()));
    assert_eq!(s.seq, Some(1));
}

#[test]
fn op1_demande_heartbeat() {
    let mut s = GatewayState::default();
    assert_eq!(
        s.on_payload(1, None, None, None),
        GatewayAction::SendHeartbeat
    );
}

#[test]
fn invalid_session_non_resumable_vide_la_session() {
    let mut s = GatewayState::default();
    s.set_session("x".into());
    let a = s.on_payload(9, None, None, Some(false));
    assert_eq!(a, GatewayAction::ReconnectFull);
    assert!(s.session_id.is_none());
}

#[test]
fn invalid_session_resumable_garde_la_session() {
    let mut s = GatewayState::default();
    s.set_session("x".into());
    let a = s.on_payload(9, None, None, Some(true));
    assert_eq!(a, GatewayAction::ReconnectResumable);
    assert_eq!(s.session_id.as_deref(), Some("x"));
}

#[test]
fn ack_met_a_jour_last_ack() {
    let mut s = GatewayState {
        last_ack: false,
        ..Default::default()
    };
    assert_eq!(s.on_payload(11, None, None, None), GatewayAction::Ignore);
    assert!(s.last_ack);
}

#[test]
fn user_agent_non_vide() {
    assert!(USER_AGENT.contains("Mozilla"));
}

fn attachment(filename: &str, ct: Option<&str>) -> Attachment {
    Attachment {
        id: "1".into(),
        filename: filename.into(),
        content_type: ct.map(|s| s.into()),
        url: "u".into(),
        proxy_url: "u".into(),
        size: 0,
        width: None,
        height: None,
    }
}

#[test]
fn is_image_par_extension_sans_content_type() {
    let a = attachment("x.JPG", None);
    assert!(a.is_image());
    let b = Attachment {
        filename: "x.zip".into(),
        ..a.clone()
    };
    assert!(!b.is_image());
}

#[test]
fn is_image_par_content_type_sans_extension() {
    let a = attachment("blob", Some("image/png"));
    assert!(a.is_image());
}

#[test]
fn non_image_content_type_retourne_faux() {
    let a = attachment("blob", Some("application/octet-stream"));
    assert!(!a.is_image());
}

// ---- further cases ----

#[test]
fn bitfield_illisible_vaut_zero() {
    assert_eq!(parse("1024"), 1024);
    assert_eq!(parse("+7"), 7);
    assert_eq!(parse("abc"), 0);
    assert_eq!(parse(""), 0);
    assert_eq!(parse("+"), 0);
    assert_eq!(parse("-1"), 0);
    assert_eq!(parse("18446744073709551615"), u64::MAX);
    assert_eq!(parse("18446744073709551616"), 0);
}

#[test]
fn admin_ignore_les_overwrites() {
    // the channel denies everything, but ADMINISTRATOR bypasses it
    let ows = vec![ow("10", 0, "0", &u64::MAX.to_string())];
    assert_eq!(channel_permissions(ADMINISTRATOR | V, &ows, "10", &[], "me"), ADMINISTRATOR | V);
}

#[test]
fn roles_agreges_avant_le_membre() {
    // two member roles: one allows bit 1, the other denies bit 2; then the member denies VIEW
    let ows = vec![
        ow("r1", 0, "1", "0"),
        ow("r2", 0, "0", "2"),
        ow("me", 1, "0", &V.to_string()),
    ];
    let p = channel_permissions(V | 2, &ows, "10", &["r1".to_string(), "r2".to_string()], "me");
    assert_eq!(p, 1);
}

#[test]
fn owner_voit_tout_malgre_les_deny() {
    let chans = vec![chan("a", None, 0, vec![ow("10", 0, "0", &V.to_string())])];
    let vis = visible_channel_ids(&chans, &[], "me", &[], "me", "10");
    assert_eq!(vis, vec!["a".to_string()]);
}

#[test]
fn ids_visibles_sans_doublon() {
    let everyone = Role {
        id: "10".into(),
        name: String::new(),
        permissions: V.to_string(),
        position: 0,
        color: 0,
    };
    let chans = vec![chan("a", None, 0, vec![]), chan("a", None, 0, vec![])];
    let vis = visible_channel_ids(&chans, &[everyone], "owner", &[], "me", "10");
    assert_eq!(vis, vec!["a".to_string()]);
}

#[test]
fn arbre_trie_par_position_puis_id() {
    let chans = vec![c("b", 0, None, 1), c("a", 0, None, 1), c("z", 0, None, 0)];
    let visible: Vec<String> = vec!["a".into(), "b".into(), "z".into()];
    let rows = build_channel_tree(&chans, &visible);
    let ids: Vec<String> = rows
        .iter()
        .map(|r| match r {
            TreeRow::Channel(ch) => ch.id.clone(),
            TreeRow::Category { id, .. } => id.clone(),
        })
        .collect();
    assert_eq!(ids, vec!["z", "a", "b"]);
}

#[test]
fn statut_http_classe() {
    assert_eq!(classify_status(401), ResponseClass::Unauthorized);
    assert_eq!(classify_status(429), ResponseClass::RateLimited);
    assert_eq!(classify_status(404), ResponseClass::Failed);
    assert_eq!(classify_status(500), ResponseClass::Failed);
    assert_eq!(classify_status(200), ResponseClass::Success);
    assert_eq!(classify_status(204), ResponseClass::Success);
}

fn user(id: &str) -> User {
    User {
        id: id.into(),
        username: id.into(),
        global_name: None,
        discriminator: None,
        avatar: None,
    }
}

fn message(id: &str, channel: &str) -> Message {
    Message {
        id: id.into(),
        channel_id: channel.into(),
        content: String::new(),
        author: user("u"),
        timestamp: None,
        edited_timestamp: None,
        mentions: vec![],
        mention_roles: vec![],
        attachments: vec![],
        embeds: vec![],
        referenced_message: None,
    }
}

fn data() -> DispatchData {
    DispatchData {
        session_id: None,
        user: None,
        guilds: vec![],
        message: None,
        deleted_id: None,
        deleted_channel_id: None,
    }
}

#[test]
fn ready_enregistre_la_session_et_signale_connecte() {
    let mut s = GatewayState::default();
    let d = DispatchData {
        session_id: Some("sess".into()),
        user: Some(user("me")),
        ..data()
    };
    let evs = dispatch_event("READY", d, &mut s);
    assert_eq!(s.session_id.as_deref(), Some("sess"));
    assert_eq!(evs.len(), 2);
    assert!(matches!(evs[0], Event::Connection(ConnectionState::Connected)));
    assert!(matches!(&evs[1], Event::Ready { user, .. } if user.id == "me"));
}

#[test]
fn ready_sans_user_donne_une_erreur() {
    let mut s = GatewayState::default();
    let evs = dispatch_event("READY", data(), &mut s);
    assert_eq!(evs.len(), 2);
    assert!(matches!(&evs[1], Event::Error(_)));
    assert!(s.session_id.is_none());
}

#[test]
fn dispatch_messages_et_inconnus() {
    let mut s = GatewayState::default();
    let d = DispatchData {
        message: Some(message("1", "c")),
        ..data()
    };
    let evs = dispatch_event("MESSAGE_CREATE", d, &mut s);
    assert!(matches!(&evs[..], [Event::MessageCreated(m)] if m.id == "1"));
    let d = DispatchData {
        deleted_id: Some("1".into()),
        deleted_channel_id: Some("c".into()),
        ..data()
    };
    let evs = dispatch_event("MESSAGE_DELETE", d, &mut s);
    assert!(matches!(&evs[..], [Event::MessageDeleted { id, channel_id }] if id == "1" && channel_id == "c"));
    let evs = dispatch_event("TYPING_START", data(), &mut s);
    assert!(evs.is_empty());
    let d = DispatchData {
        deleted_id: Some("1".into()),
        ..data()
    };
    assert!(dispatch_event("MESSAGE_DELETE", d, &mut s).is_empty());
}

#[test]
fn resume_apres_dispatch_et_identify_apres_session_invalide() {
    let mut s = GatewayState::default();
    s.set_session("abc".into());
    s.on_payload(0, None, Some(42), None);
    assert_eq!(
        s.handshake_action(),
        GatewayAction::Resume { session_id: "abc".into(), seq: Some(42) }
    );
    s.on_payload(9, None, None, None);
    assert_eq!(s.handshake_action(), GatewayAction::Identify);
    assert_eq!(s.seq, None);
}

#[test]
fn super_properties_en_base64_standard() {
    assert_eq!(super_properties_b64("{}"), "e30=");
    assert_eq!(super_properties_b64(""), "");
    assert_eq!(super_properties_b64("ab"), "YWI=");
    assert_eq!(super_properties_b64("abc"), "YWJj");
    assert_eq!(super_properties_b64("é?>"), "w6k/Pg==");
}

#[test]
fn reponses_rest_en_evenements() {
    let ev = guild_channels_event(
        "g".into(),
        Some(vec![c("1", 0, None, 0)]),
        Some(("owner".into(), vec![])),
        Some(vec!["r".into()]),
        "me",
    );
    assert!(matches!(&ev, Event::GuildChannels { guild_id, channels, owner_id, member_roles, me_id, .. }
        if guild_id == "g" && channels.len() == 1 && owner_id == "owner" && member_roles.len() == 1 && me_id == "me"));
    let ev = guild_channels_event("g".into(), Some(vec![]), None, Some(vec![]), "me");
    assert!(matches!(&ev, Event::Error(e) if e == GUILD_LOAD_FAILED));
    let ev = history_event("c".into(), Ok(vec![message("3", "c"), message("2", "c"), message("1", "c")]));
    match ev {
        Event::MessagesLoaded { channel_id, messages } => {
            assert_eq!(channel_id, "c");
            let ids: Vec<&str> = messages.iter().map(|m| m.id.as_str()).collect();
            assert_eq!(ids, vec!["1", "2", "3"]);
        }
        other => panic!("{other:?}"),
    }
    assert!(matches!(history_event("c".into(), Err("404".into())), Event::Error(e) if e == "404"));
    assert!(matches!(sent_event(Ok(message("9", "c"))), Event::MessageCreated(m) if m.id == "9"));
    assert!(matches!(sent_event(Err("x".into())), Event::Error(e) if e == "x"));
}

fn payload(op: u8, t: Option<&str>, s: Option<u64>, interval: Option<u64>, d_bool: Option<bool>, d: DispatchData) -> Payload {
    Payload { op, t: t.map(|x| x.into()), s, heartbeat_interval: interval, d_bool, data: d }
}

#[test]
fn session_gateway_de_bout_en_bout() {
    let mut g = GatewaySession::new();
    assert!(matches!(g.begin_connection(), Event::Connection(ConnectionState::Connecting)));
    assert!(g.heartbeat_tick().is_none());
    // a subscription before HELLO is remembered, not sent
    assert!(g.subscribe("g1".into()).is_none());
    let step = g.on_payload(payload(10, None, None, Some(41250), None, data()));
    assert!(matches!(step.frames[..], [Frame::Identify]));
    assert_eq!(step.restart_heartbeat, Some(41250));
    assert!(!step.reconnect);
    assert!(matches!(g.heartbeat_tick(), Some(Frame::Heartbeat(None))));
    assert!(matches!(g.subscribe("g2".into()), Some(Frame::Subscribe(ref id)) if id == "g2"));
    assert!(matches!(g.subscribe("g1".into()), Some(Frame::Subscribe(_))));
    let d = DispatchData { session_id: Some("sess".into()), user: Some(user("me")), ..data() };
    let step = g.on_payload(payload(0, Some("READY"), Some(1), None, None, d));
    assert_eq!(step.events.len(), 2);
    let ids: Vec<&str> = step
        .frames
        .iter()
        .map(|f| match f {
            Frame::Subscribe(id) => id.as_str(),
            _ => "?",
        })
        .collect();
    assert_eq!(ids, vec!["g1", "g2"]);
    let d = DispatchData { message: Some(message("7", "c")), ..data() };
    let step = g.on_payload(payload(0, Some("MESSAGE_CREATE"), Some(5), None, None, d));
    assert!(matches!(&step.events[..], [Event::MessageCreated(m)] if m.id == "7"));
    assert!(step.frames.is_empty());
    let step = g.on_payload(payload(1, None, None, None, None, data()));
    assert!(matches!(step.frames[..], [Frame::Heartbeat(Some(5))]));
    let step = g.on_payload(payload(7, None, None, None, None, data()));
    assert!(step.reconnect);
    let (ev, wait) = g.connection_lost();
    assert!(matches!(ev, Event::Connection(ConnectionState::Reconnecting)));
    assert_eq!(wait, 1000);
    assert_eq!(g.backoff_ms(), 2000);
    g.begin_connection();
    assert!(g.heartbeat_tick().is_none());
    let step = g.on_payload(payload(10, None, None, Some(1000), None, data()));
    assert!(matches!(&step.frames[..], [Frame::Resume { session_id, seq: Some(5) }] if session_id == "sess"));
    assert_eq!(g.backoff_ms(), 1000);
    // a non-resumable invalid session forgets the session
    let step = g.on_payload(payload(9, None, None, None, Some(false), data()));
    assert!(step.reconnect);
    assert!(g.state().session_id.is_none());
    let step = g.on_payload(payload(10, None, None, None, None, data()));
    assert!(matches!(step.frames[..], [Frame::Identify]));
    assert_eq!(step.restart_heartbeat, None);
}

#[test]
fn delai_de_reconnexion_plafonne() {
    let mut g = GatewaySession::new();
    let mut waits = vec![];
    for _ in 0..7 {
        waits.push(g.connection_lost().1);
    }
    assert_eq!(waits, vec![1000, 2000, 4000, 8000, 16000, 30000, 30000]);
}

#[test]
fn super_properties_b64_se_decode_en_json_valide() {
    let props = r#"{"browser":"Discord Client","client_build_number":9999,"os":"Windows"}"#;
    let b64 = super_properties_b64(props);
    let bytes = base64::engine::general_purpose::STANDARD.decode(b64).unwrap();
    let v: serde_json::Value = serde_json::from_slice(&bytes).unwrap();
    assert!(v.get("os").is_some());
    assert!(v.get("browser").is_some());
    assert!(v.get("client_build_number").is_some());
}

#[test]
fn racine_triee_par_position_seule() {
    let chans = vec![c("txt", 0, None, 5), c("voc", 2, None, 0)];
    let visible: Vec<String> = vec!["txt".into(), "voc".into()];
    let rows = build_channel_tree(&chans, &visible);
    let ids: Vec<String> = rows
        .iter()
        .map(|r| match r {
            TreeRow::Channel(ch) => ch.id.clone(),
            TreeRow::Category { id, .. } => id.clone(),
        })
        .collect();
    assert_eq!(ids, vec!["voc", "txt"]);
}

#[test]
fn ordre_d_entree_sans_effet_sur_l_arbre() {
    let chans = vec![
        c("cat1", 4, None, 1),
        c("txt", 0, Some("cat1"), 1),
        c("voc", 2, Some("cat1"), 0),
        c("root", 0, None, 0),
        c("cat0", 4, None, 0),
        c("x", 5, Some("cat0"), 3),
    ];
    let mut rev = chans.clone();
    rev.reverse();
    let visible: Vec<String> = chans.iter().map(|ch| ch.id.clone()).collect();
    let ids = |rows: Vec<TreeRow>| -> Vec<String> {
        rows.iter()
            .map(|r| match r {
                TreeRow::Channel(ch) => ch.id.clone(),
                TreeRow::Category { id, .. } => id.clone(),
            })
            .collect()
    };
    let a = ids(build_channel_tree(&chans, &visible));
    assert_eq!(a, ids(build_channel_tree(&rev, &visible)));
    assert_eq!(a, vec!["root", "cat0", "x", "cat1", "txt", "voc"]);
}

#[test]
fn session_invalide_puis_identify_malgre_les_appels_suivants() {
    let mut s = GatewayState::default();
    s.set_session("abc".to_string());
    s.on_payload(0, Some("READY"), Some(3), None);
    assert_eq!(
        s.handshake_action(),
        GatewayAction::Resume { session_id: "abc".to_string(), seq: Some(3) }
    );
    assert_eq!(s.on_payload(9, None, None, Some(false)), GatewayAction::ReconnectFull);
    s.on_hello(41_250);
    s.on_payload(0, Some("MESSAGE_CREATE"), Some(7), None);
    s.on_payload(11, None, None, None);
    s.on_payload(9, None, None, Some(true));
    assert_eq!(s.handshake_action(), GatewayAction::Identify);
}
