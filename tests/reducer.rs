use prose_core::message::{Body, Message, Reaction};
use prose_core::message_like::{
    MessageLike, MessageLikeBody, MessageLikeId, MessageTargetId, ParticipantId, Payload,
};

fn user(s: &str) -> ParticipantId {
    ParticipantId::User(s.to_string())
}

fn text(id: &str, stanza_id: Option<&str>, from: &str, ts: i64, body: &str) -> MessageLike {
    MessageLike {
        id: MessageLikeId(id.to_string()),
        stanza_id: stanza_id.map(|s| s.to_string()),
        target: None,
        to: Some("a@prose.org".to_string()),
        from: user(from),
        timestamp: ts,
        payload: Payload::Message {
            body: MessageLikeBody {
                raw: body.to_string(),
                html: body.to_string(),
                mentions: vec![],
            },
            attachments: vec![],
            encryption_info: None,
            is_transient: false,
        },
    }
}

fn modifier(id: &str, target: MessageTargetId, from: &str, ts: i64, payload: Payload) -> MessageLike {
    MessageLike {
        id: MessageLikeId(id.to_string()),
        stanza_id: None,
        target: Some(target),
        to: Some("a@prose.org".to_string()),
        from: user(from),
        timestamp: ts,
        payload,
    }
}

fn remote(id: &str) -> MessageTargetId {
    MessageTargetId::RemoteId(id.to_string())
}

fn reaction(emojis: &[&str]) -> Payload {
    Payload::Reaction { emojis: emojis.iter().map(|e| e.to_string()).collect() }
}

fn correction(body: &str) -> Payload {
    Payload::Correction {
        body: MessageLikeBody { raw: body.to_string(), html: body.to_string(), mentions: vec![] },
        attachments: vec![],
        encryption_info: None,
    }
}

fn reactions_of(m: &Message) -> Vec<(String, Vec<String>)> {
    m.reactions
        .iter()
        .map(|r| (r.emoji.clone(), r.from.iter().map(|p| p.address().clone()).collect()))
        .collect()
}

fn pairs(v: &[(&str, &[&str])]) -> Vec<(String, Vec<String>)> {
    v.iter().map(|(e, f)| (e.to_string(), f.iter().map(|x| x.to_string()).collect())).collect()
}

fn empty_message() -> Message {
    Message {
        remote_id: Some("1".to_string()),
        server_id: None,
        from: user("b@prose.org"),
        body: Body { raw: "Hello".to_string(), html: "Hello".to_string() },
        timestamp: 0,
        is_read: false,
        is_edited: false,
        is_delivered: false,
        is_transient: false,
        is_encrypted: false,
        reactions: vec![],
        attachments: vec![],
        mentions: vec![],
    }
}

#[test]
fn test_toggle_reaction() {
    let mut message = empty_message();
    assert!(message.reactions.is_empty());

    message.toggle_reaction(&user("a@prose.org"), "🎉".to_string());
    assert_eq!(reactions_of(&message), pairs(&[("🎉", &["a@prose.org"])]));

    message.toggle_reaction(&user("b@prose.org"), "🎉".to_string());
    assert_eq!(reactions_of(&message), pairs(&[("🎉", &["a@prose.org", "b@prose.org"])]));

    message.toggle_reaction(&user("b@prose.org"), "✅".to_string());
    assert_eq!(
        reactions_of(&message),
        pairs(&[("🎉", &["a@prose.org", "b@prose.org"]), ("✅", &["b@prose.org"])])
    );

    message.toggle_reaction(&user("a@prose.org"), "🎉".to_string());
    assert_eq!(
        reactions_of(&message),
        pairs(&[("🎉", &["b@prose.org"]), ("✅", &["b@prose.org"])])
    );

    message.toggle_reaction(&user("b@prose.org"), "🎉".to_string());
    assert_eq!(reactions_of(&message), pairs(&[("🎉", &[]), ("✅", &["b@prose.org"])]));
}

#[test]
fn test_reactions_for_user() {
    let mut message = empty_message();
    message.reactions = vec![
        Reaction { emoji: "🎉".to_string(), from: vec![user("a@prose.org"), user("b@prose.org")] },
        Reaction { emoji: "✅".to_string(), from: vec![user("b@prose.org")] },
    ];
    assert_eq!(message.reactions_from(&user("a@prose.org")), vec!["🎉".to_string()]);
    assert_eq!(
        message.reactions_from(&user("b@prose.org")),
        vec!["🎉".to_string(), "✅".to_string()]
    );
}

#[test]
fn test_reduces_emojis() {
    let messages = vec![
        text("1", Some("stanza-id-1"), "b@prose.org", 1680883200000, "Hello World"),
        modifier("2", remote("1"), "b@prose.org", 1680883201000, reaction(&["👍"])),
        modifier("3", remote("1"), "c@prose.org", 1680883202000, reaction(&["👍"])),
        modifier("4", remote("1"), "b@prose.org", 1680883203000, reaction(&["👍", "📼", "🍿", "☕️"])),
        modifier(
            "5",
            MessageTargetId::ServerId("stanza-id-1".to_string()),
            "b@prose.org",
            1680883204000,
            reaction(&["📼", "🍿"]),
        ),
    ];
    let mut reduced = Message::reducing_messages(messages);
    let m = reduced.pop().unwrap();
    assert_eq!(m.remote_id, Some("1".to_string()));
    assert_eq!(m.server_id, Some("stanza-id-1".to_string()));
    assert_eq!(m.from.address(), "b@prose.org");
    assert_eq!(m.body.raw, "Hello World");
    assert_eq!(m.body.html, "Hello World");
    assert_eq!(m.timestamp, 1680883200000);
    assert!(!m.is_read && !m.is_edited && !m.is_delivered && !m.is_transient && !m.is_encrypted);
    assert_eq!(
        reactions_of(&m),
        pairs(&[("👍", &["c@prose.org"]), ("📼", &["b@prose.org"]), ("🍿", &["b@prose.org"])])
    );
    assert!(m.attachments.is_empty() && m.mentions.is_empty());
}

#[test]
fn send_edit_react_scenario() {
    let mut events = vec![text("m1", None, "me@prose.org", 1, "Hi")];
    let r = Message::reducing_messages(rebuild(&events));
    assert_eq!(r.len(), 1);
    assert_eq!(r[0].body.raw, "Hi");
    assert!(!r[0].is_edited);

    events.push(modifier("c1", remote("m1"), "me@prose.org", 2, correction("Hello")));
    let r = Message::reducing_messages(rebuild(&events));
    assert_eq!(r[0].body.raw, "Hello");
    assert!(r[0].is_edited);

    events.push(modifier("r1", remote("m1"), "a@prose.org", 3, reaction(&["👍"])));
    let r = Message::reducing_messages(rebuild(&events));
    assert_eq!(reactions_of(&r[0]), pairs(&[("👍", &["a@prose.org"])]));

    events.push(modifier("r2", remote("m1"), "a@prose.org", 4, reaction(&[])));
    let r = Message::reducing_messages(rebuild(&events));
    assert!(r[0].reactions.is_empty());
}

fn rebuild(events: &[MessageLike]) -> Vec<MessageLike> {
    events
        .iter()
        .map(|e| MessageLike {
            id: e.id.duplicate(),
            stanza_id: e.stanza_id.clone(),
            target: e.target.as_ref().map(|t| match t {
                MessageTargetId::RemoteId(s) => MessageTargetId::RemoteId(s.clone()),
                MessageTargetId::ServerId(s) => MessageTargetId::ServerId(s.clone()),
            }),
            to: e.to.clone(),
            from: e.from.duplicate(),
            timestamp: e.timestamp,
            payload: match &e.payload {
                Payload::Message { body, .. } => text_payload(&body.raw),
                Payload::Correction { body, .. } => correction(&body.raw),
                Payload::Reaction { emojis } => Payload::Reaction { emojis: emojis.clone() },
                Payload::Retraction => Payload::Retraction,
                Payload::DeliveryReceipt => Payload::DeliveryReceipt,
                Payload::ReadReceipt => Payload::ReadReceipt,
                Payload::Error { message } => Payload::Error { message: message.clone() },
            },
        })
        .collect()
}

fn text_payload(body: &str) -> Payload {
    Payload::Message {
        body: MessageLikeBody { raw: body.to_string(), html: body.to_string(), mentions: vec![] },
        attachments: vec![],
        encryption_info: None,
        is_transient: false,
    }
}

#[test]
fn reaction_folding_scenario() {
    let events = vec![
        text("m1", None, "me@prose.org", 1, "Hi"),
        modifier("r1", remote("m1"), "A", 2, reaction(&["🎉"])),
        modifier("r2", remote("m1"), "B", 3, reaction(&["🎉", "✅"])),
        modifier("r3", remote("m1"), "B", 4, reaction(&["✅"])),
    ];
    let r = Message::reducing_messages(events);
    assert_eq!(reactions_of(&r[0]), pairs(&[("🎉", &["A"]), ("✅", &["B"])]));
}

#[test]
fn server_id_target_scenario() {
    let events = vec![
        text("m1", Some("s1"), "me@prose.org", 1, "Hi"),
        modifier("r1", MessageTargetId::ServerId("s1".to_string()), "U", 2, reaction(&["❤"])),
    ];
    let r = Message::reducing_messages(events);
    assert_eq!(reactions_of(&r[0]), pairs(&[("❤", &["U"])]));
}

#[test]
fn retraction_with_modifiers_scenario() {
    let events = vec![
        text("m1", None, "me@prose.org", 1, "Hi"),
        modifier("c1", remote("m1"), "me@prose.org", 2, correction("edited")),
        modifier("x1", remote("m1"), "me@prose.org", 3, Payload::Retraction),
        modifier("r1", remote("m1"), "U", 4, reaction(&["🔥"])),
    ];
    assert!(Message::reducing_messages(events).is_empty());
}

#[test]
fn modifier_before_its_target_applies() {
    let events = vec![
        modifier("r1", remote("m1"), "U", 1, reaction(&["👍"])),
        modifier("d1", remote("m1"), "U", 2, Payload::DeliveryReceipt),
        text("m1", None, "me@prose.org", 3, "Hi"),
    ];
    let r = Message::reducing_messages(events);
    assert_eq!(reactions_of(&r[0]), pairs(&[("👍", &["U"])]));
    assert!(r[0].is_delivered);
}

#[test]
fn orphan_modifier_is_skipped() {
    let events = vec![
        text("m1", None, "me@prose.org", 1, "Hi"),
        modifier("c1", remote("missing"), "me@prose.org", 2, correction("x")),
        modifier("c2", MessageTargetId::ServerId("nope".to_string()), "me@prose.org", 3, correction("y")),
    ];
    let r = Message::reducing_messages(events);
    assert_eq!(r.len(), 1);
    assert_eq!(r[0].body.raw, "Hi");
    assert!(!r[0].is_edited);
}

#[test]
fn receipts_twice_equal_once() {
    let events = vec![
        text("m1", None, "me@prose.org", 1, "Hi"),
        modifier("d1", remote("m1"), "U", 2, Payload::ReadReceipt),
        modifier("d2", remote("m1"), "U", 3, Payload::ReadReceipt),
        modifier("d3", remote("m1"), "U", 4, Payload::DeliveryReceipt),
    ];
    let r = Message::reducing_messages(events);
    assert!(r[0].is_read && r[0].is_delivered);
}

#[test]
fn last_correction_wins() {
    let events = vec![
        text("m1", None, "me@prose.org", 1, "a"),
        modifier("c1", remote("m1"), "me@prose.org", 2, correction("b")),
        modifier("c2", remote("m1"), "me@prose.org", 3, correction("c")),
        modifier("c3", remote("m1"), "me@prose.org", 4, correction("d")),
    ];
    let r = Message::reducing_messages(events);
    assert_eq!(r[0].body.raw, "d");
    assert!(r[0].is_edited);
}

#[test]
fn retracted_server_id_still_resolves_for_others() {
    let events = vec![
        text("m1", Some("s1"), "me@prose.org", 1, "one"),
        text("m2", Some("s2"), "me@prose.org", 2, "two"),
        modifier("x1", MessageTargetId::ServerId("s1".to_string()), "me@prose.org", 3, Payload::Retraction),
        modifier("r1", MessageTargetId::ServerId("s2".to_string()), "U", 4, reaction(&["👍"])),
    ];
    let r = Message::reducing_messages(events);
    assert_eq!(r.len(), 1);
    assert_eq!(r[0].remote_id, Some("m2".to_string()));
    assert_eq!(reactions_of(&r[0]), pairs(&[("👍", &["U"])]));
}

#[test]
fn duplicate_emojis_count_once() {
    let events = vec![
        text("m1", None, "me@prose.org", 1, "Hi"),
        modifier("r1", remote("m1"), "U", 2, reaction(&["👍", "👍"])),
    ];
    let r = Message::reducing_messages(events);
    assert_eq!(reactions_of(&r[0]), pairs(&[("👍", &["U"])]));
}

#[test]
fn synthetic_ids_are_hidden_and_errors_become_messages() {
    let mut e = text("!!abc", None, "me@prose.org", 1, "Hi");
    e.payload = Payload::Error { message: "Error: boom".to_string() };
    let r = Message::reducing_messages(vec![e]);
    assert_eq!(r[0].remote_id, None);
    assert_eq!(r[0].body.raw, "Error: boom");
    assert_eq!(r[0].body.html, "Error: boom");
}

#[test]
fn generated_ids_carry_prefix() {
    let id = MessageLikeId::new(None);
    assert!(id.id().starts_with("!!"));
    assert_eq!(id.id().len(), 38);
    assert_eq!(id.original_id(), None);
    let id = MessageLikeId::new(Some("abc".to_string()));
    assert_eq!(id.original_id(), Some(&"abc".to_string()));
    assert_eq!(id.into_original_id(), Some("abc".to_string()));
}

#[test]
fn reordering_across_targets_is_stable() {
    let a = vec![
        text("m1", None, "me@prose.org", 1, "one"),
        modifier("r1", remote("m1"), "U", 2, reaction(&["👍"])),
        text("m2", None, "me@prose.org", 3, "two"),
        modifier("c2", remote("m2"), "me@prose.org", 4, correction("TWO")),
        modifier("d1", remote("m1"), "U", 5, Payload::ReadReceipt),
    ];
    let b = vec![
        modifier("c2", remote("m2"), "me@prose.org", 4, correction("TWO")),
        text("m1", None, "me@prose.org", 1, "one"),
        modifier("d1", remote("m1"), "U", 5, Payload::ReadReceipt),
        text("m2", None, "me@prose.org", 3, "two"),
        modifier("r1", remote("m1"), "U", 2, reaction(&["👍"])),
    ];
    let ra = Message::reducing_messages(a);
    let rb = Message::reducing_messages(b);
    assert_eq!(ra.len(), 2);
    assert_eq!(rb.len(), 2);
    for (x, y) in ra.iter().zip(rb.iter()) {
        assert_eq!(x.remote_id, y.remote_id);
        assert_eq!(x.body.raw, y.body.raw);
        assert_eq!(x.is_read, y.is_read);
        assert_eq!(x.is_edited, y.is_edited);
        assert_eq!(reactions_of(x), reactions_of(y));
    }
    assert_eq!(ra[1].body.raw, "TWO");
    assert!(ra[0].is_read);
}
