use prose_core::message_like::{
    bare_address, resolve_sender, Envelope, EnvelopeError, MessageLike, MessageTargetId,
    ParticipantId, Payload, StanzaContent,
};
use prose_core::room::{
    correction_event, sent_message_event, system_message_event, SendMessageBody, SendMessageRequest,
};

fn content(body: Option<&str>) -> StanzaContent {
    StanzaContent {
        is_groupchat: false,
        error: None,
        reactions_target: None,
        reactions: vec![],
        retraction_target: None,
        replace_target: None,
        body: body.map(|b| b.to_string()),
        html: None,
        mentions: vec![],
        attachments: vec![],
        encryption_info: None,
        received_marker: None,
        displayed_marker: None,
    }
}

fn envelope(id: Option<&str>, from: Option<&str>, delay: Option<i64>, body: Option<&str>) -> Envelope {
    Envelope {
        id: id.map(|s| s.to_string()),
        stanza_id: None,
        from: from.map(|s| s.to_string()),
        to: Some("recv@prose.org/res".to_string()),
        muc_user: None,
        delay,
        content: content(body),
    }
}

#[test]
fn bare_addresses() {
    assert_eq!(bare_address(&"a@prose.org/phone".to_string()), "a@prose.org");
    assert_eq!(bare_address(&"a@prose.org".to_string()), "a@prose.org");
}

#[test]
fn senders_resolve() {
    assert_eq!(
        resolve_sender(false, Some("a@prose.org/phone".to_string()), None),
        Ok(ParticipantId::User("a@prose.org".to_string()))
    );
    assert_eq!(
        resolve_sender(true, Some("room@conference.prose.org/nick".to_string()), Some("b@prose.org/x".to_string())),
        Ok(ParticipantId::User("b@prose.org".to_string()))
    );
    assert_eq!(
        resolve_sender(true, Some("room@conference.prose.org/nick".to_string()), None),
        Ok(ParticipantId::Occupant("room@conference.prose.org/nick".to_string()))
    );
    assert_eq!(
        resolve_sender(true, Some("room@conference.prose.org".to_string()), None),
        Err(EnvelopeError::ExpectedFullAddress)
    );
    assert_eq!(resolve_sender(false, None, None), Err(EnvelopeError::MissingFrom));
}

#[test]
fn live_message_uses_receive_time_without_delay() {
    let m = MessageLike::from_live(envelope(Some("m1"), Some("a@prose.org/x"), None, Some("Hi")), 42).unwrap();
    assert_eq!(m.id.id(), "m1");
    assert_eq!(m.timestamp, 42);
    assert_eq!(m.to, Some("recv@prose.org".to_string()));
    assert_eq!(m.from, ParticipantId::User("a@prose.org".to_string()));
    assert!(matches!(m.payload, Payload::Message { .. }));
    let m = MessageLike::from_live(envelope(None, Some("a@prose.org"), Some(7), Some("Hi")), 42).unwrap();
    assert_eq!(m.timestamp, 7);
    assert!(m.id.id().starts_with("!!"));
    assert_eq!(
        MessageLike::from_live(envelope(Some("m1"), Some("a@prose.org"), None, None), 1).err(),
        Some(EnvelopeError::NoPayload)
    );
}

#[test]
fn archived_message_needs_delay() {
    let m = MessageLike::from_archive("s1".to_string(), envelope(Some("m1"), Some("a@prose.org"), Some(5), Some("Hi")))
        .unwrap();
    assert_eq!(m.stanza_id, Some("s1".to_string()));
    assert_eq!(m.timestamp, 5);
    assert_eq!(
        MessageLike::from_archive("s1".to_string(), envelope(Some("m1"), Some("a@prose.org"), None, Some("Hi"))).err(),
        Some(EnvelopeError::MissingDelay)
    );
    assert_eq!(
        MessageLike::from_archive("s1".to_string(), envelope(Some("m1"), None, Some(5), None)).err(),
        Some(EnvelopeError::NoPayload)
    );
}

#[test]
fn local_echo_events() {
    let request = SendMessageRequest {
        body: Some(SendMessageBody { text: "Hi".to_string(), mentions: vec![] }),
        attachments: vec![],
    };
    let e = sent_message_event("id-1".to_string(), "me@prose.org".to_string(), 9, request);
    assert_eq!(e.id.id(), "id-1");
    assert_eq!(e.timestamp, 9);
    assert!(matches!(e.payload, Payload::Message { ref body, is_transient: false, .. } if body.raw == "Hi"));

    let request = SendMessageRequest { body: None, attachments: vec![] };
    let e = correction_event("id-2".to_string(), "id-1".to_string(), "me@prose.org".to_string(), 10, request);
    assert!(matches!(e.target, Some(MessageTargetId::RemoteId(ref t)) if t == "id-1"));
    assert!(matches!(e.payload, Payload::Correction { ref body, .. } if body.raw.is_empty()));

    let e = system_message_event("id-3".to_string(), 11, "OMEMO is now enabled.".to_string());
    assert_eq!(e.from, ParticipantId::User("prose-bot@prose.org".to_string()));
    assert!(matches!(e.payload, Payload::Message { is_transient: true, .. }));
}
