use std::sync::Arc;

use prose_core::account::{ProseClientAccountBuilder, ProseClientAccountBuilderError, ProseClientAccountError};
use prose_core::message::{Body, Message};
use prose_core::message_like::{
    MessageLikeError, ParticipantId, Payload, StanzaContent, TargetedPayload, MessageTargetId,
};
use prose_core::room::{
    fallback_name, mark_as_read, send_action, encryption_notice, Generic, Group, MessageRef, Participant, Room,
    RoomId, RoomInner, RoomState, RoomType, SendAction, SendMessageBody, SendMessageRequest,
    SyncedRoomSettings, DirectMessage,
};

fn inner(room_id: RoomId, t: RoomType, enabled: bool) -> RoomInner {
    RoomInner {
        room_id,
        room_type: t,
        state: RoomState::Connected,
        name: Some("Room".to_string()),
        description: None,
        topic: Some("Topic".to_string()),
        user_nickname: "me".to_string(),
        participants: vec![
            Participant {
                id: ParticipantId::Occupant("room@conference.prose.org/a".to_string()),
                name: None,
                real_id: Some("a@prose.org".to_string()),
                is_self: false,
            },
            Participant {
                id: ParticipantId::Occupant("room@conference.prose.org/me".to_string()),
                name: Some("Me".to_string()),
                real_id: Some("me@prose.org".to_string()),
                is_self: true,
            },
            Participant {
                id: ParticipantId::Occupant("room@conference.prose.org/c".to_string()),
                name: Some("Cee".to_string()),
                real_id: None,
                is_self: false,
            },
        ],
        settings: SyncedRoomSettings { last_read_message: None, encryption_enabled: enabled },
    }
}

fn request(text: Option<&str>) -> SendMessageRequest {
    SendMessageRequest {
        body: text.map(|t| SendMessageBody { text: t.to_string(), mentions: vec![] }),
        attachments: vec![],
    }
}

#[test]
fn room_getters() {
    let room: Room<Group> =
        Room::new(Arc::new(inner(RoomId::Muc("room@conference.prose.org".to_string()), RoomType::Group, true)));
    assert_eq!(room.name(), Some("Room".to_string()));
    assert_eq!(room.subject(), Some("Topic".to_string()));
    assert_eq!(room.description(), None);
    assert_eq!(room.user_nickname(), "me");
    assert_eq!(room.state(), RoomState::Connected);
    assert!(room.encryption_enabled());
    assert_eq!(room.muc_id(), "room@conference.prose.org");
    assert_eq!(room.participants().len(), 3);
    let generic: Room<Generic> = room.to_generic();
    assert!(matches!(generic.jid(), RoomId::Muc(_)));
}

#[test]
fn send_actions() {
    assert_eq!(send_action(&request(None)), SendAction::Ignore);
    assert_eq!(send_action(&request(Some(""))), SendAction::Ignore);
    assert_eq!(send_action(&request(Some("/omemo enable"))), SendAction::SetEncryption(true));
    assert_eq!(send_action(&request(Some("/omemo disable"))), SendAction::SetEncryption(false));
    assert_eq!(send_action(&request(Some("/omemo"))), SendAction::Send);
    assert_eq!(send_action(&request(Some("Hi"))), SendAction::Send);
    assert_eq!(encryption_notice(true), "OMEMO is now enabled.");
    assert_eq!(encryption_notice(false), "OMEMO is now disabled.");
}

#[test]
fn mark_as_read_is_idempotent() {
    let mut s = SyncedRoomSettings { last_read_message: None, encryption_enabled: false };
    let ids = mark_as_read(&mut s, MessageRef { id: "m1".to_string(), timestamp: 1 });
    assert_eq!(ids, vec!["m1".to_string()]);
    let ids = mark_as_read(&mut s, MessageRef { id: "m1".to_string(), timestamp: 1 });
    assert!(ids.is_empty());
    let ids = mark_as_read(&mut s, MessageRef { id: "m2".to_string(), timestamp: 2 });
    assert_eq!(ids, vec!["m1".to_string(), "m2".to_string()]);
    assert_eq!(s.last_read_message.unwrap().id, "m2");
}

#[test]
fn encryption_recipients_by_room_type() {
    let room: Room<Group> =
        Room::new(Arc::new(inner(RoomId::Muc("r@c".to_string()), RoomType::Group, true)));
    assert_eq!(room.encryption_recipients(), Some(vec!["a@prose.org".to_string()]));
    let room: Room<Generic> =
        Room::new(Arc::new(inner(RoomId::Muc("r@c".to_string()), RoomType::PublicChannel, true)));
    assert_eq!(room.encryption_recipients(), None);
    let room: Room<DirectMessage> =
        Room::new(Arc::new(inner(RoomId::User("a@prose.org".to_string()), RoomType::DirectMessage, false)));
    assert_eq!(room.encryption_recipients(), None);
}

#[test]
fn senders_resolve_real_ids_and_names() {
    let room: Room<Group> = Room::new(Arc::new(inner(RoomId::Muc("r@c".to_string()), RoomType::Group, false)));
    let a = ParticipantId::Occupant("room@conference.prose.org/a".to_string());
    let l = room.sender_lookup(&a);
    assert_eq!(l.profile_user, Some("a@prose.org".to_string()));
    let s = l.finish(&a, Some("Alice".to_string()));
    assert_eq!(s.id, ParticipantId::User("a@prose.org".to_string()));
    assert_eq!(s.name, "Alice");

    let a2 = ParticipantId::Occupant("room@conference.prose.org/a".to_string());
    let s = room.sender_lookup(&a2).finish(&a2, None);
    assert_eq!(s.name, "a");

    let c = ParticipantId::Occupant("room@conference.prose.org/c".to_string());
    let s = room.sender_lookup(&c).finish(&c, None);
    assert_eq!(s.id, c);
    assert_eq!(s.name, "Cee");

    let u = ParticipantId::User("bob@prose.org".to_string());
    let s = room.sender_lookup(&u).finish(&u, None);
    assert_eq!(s.name, "bob");
    assert_eq!(fallback_name(&ParticipantId::User("x".to_string())), "x");
}

#[test]
fn reactions_target_server_ids_in_rooms() {
    let m = Message {
        remote_id: Some("m1".to_string()),
        server_id: None,
        from: ParticipantId::User("a@prose.org".to_string()),
        body: Body { raw: String::new(), html: String::new() },
        timestamp: 0,
        is_read: false,
        is_edited: false,
        is_delivered: false,
        is_transient: false,
        is_encrypted: false,
        reactions: vec![],
        attachments: vec![],
        mentions: vec![],
    };
    let muc: Room<Group> = Room::new(Arc::new(inner(RoomId::Muc("r@c".to_string()), RoomType::Group, false)));
    assert_eq!(muc.reaction_target(&m, &"m1".to_string()), None);
    let dm: Room<DirectMessage> =
        Room::new(Arc::new(inner(RoomId::User("a@prose.org".to_string()), RoomType::DirectMessage, false)));
    assert_eq!(dm.reaction_target(&m, &"m1".to_string()), Some("m1".to_string()));
}

fn content() -> StanzaContent {
    StanzaContent {
        is_groupchat: false,
        error: None,
        reactions_target: None,
        reactions: vec![],
        retraction_target: None,
        replace_target: None,
        body: None,
        html: None,
        mentions: vec![],
        attachments: vec![],
        encryption_info: None,
        received_marker: None,
        displayed_marker: None,
    }
}

#[test]
fn payload_precedence() {
    let mut c = content();
    assert_eq!(TargetedPayload::from_stanza(content()).err(), Some(MessageLikeError::NoPayload));

    c.body = Some("Hello".to_string());
    let t = TargetedPayload::from_stanza(c).unwrap();
    assert!(t.target.is_none());
    assert!(matches!(t.payload, Payload::Message { ref body, .. } if body.raw == "Hello" && body.html == "Hello"));

    let mut c = content();
    c.body = Some("Hello".to_string());
    c.replace_target = Some("m1".to_string());
    c.received_marker = Some("m0".to_string());
    let t = TargetedPayload::from_stanza(c).unwrap();
    assert!(matches!(t.target, Some(MessageTargetId::RemoteId(ref id)) if id == "m1"));
    assert!(matches!(t.payload, Payload::Correction { .. }));

    let mut c = content();
    c.displayed_marker = Some("m2".to_string());
    let t = TargetedPayload::from_stanza(c).unwrap();
    assert!(matches!(t.payload, Payload::ReadReceipt));

    let mut c = content();
    c.replace_target = Some("m1".to_string());
    c.received_marker = Some("m0".to_string());
    let t = TargetedPayload::from_stanza(c).unwrap();
    assert!(matches!(t.payload, Payload::DeliveryReceipt));

    let mut c = content();
    c.is_groupchat = true;
    c.reactions_target = Some("s1".to_string());
    c.reactions = vec!["👍".to_string()];
    c.retraction_target = Some("m1".to_string());
    let t = TargetedPayload::from_stanza(c).unwrap();
    assert!(matches!(t.target, Some(MessageTargetId::ServerId(ref id)) if id == "s1"));
    assert!(matches!(t.payload, Payload::Reaction { ref emojis } if emojis == &vec!["👍".to_string()]));

    let mut c = content();
    c.retraction_target = Some("m1".to_string());
    assert!(matches!(TargetedPayload::from_stanza(c).unwrap().payload, Payload::Retraction));

    let mut c = content();
    c.error = Some("item-not-found".to_string());
    c.body = Some("x".to_string());
    let t = TargetedPayload::from_stanza(c).unwrap();
    assert!(matches!(t.payload, Payload::Error { ref message } if message == "Error: item-not-found"));
}

#[test]
fn account_lifecycle() {
    let b = ProseClientAccountBuilder::new();
    assert_eq!(b.build::<u8>().err(), Some(ProseClientAccountBuilderError::CredentialsNotSet));
    let mut a = ProseClientAccountBuilder::new()
        .credentials("me@prose.org".to_string(), "pw".to_string(), "cli".to_string())
        .build::<u8>()
        .unwrap();
    assert_eq!(a.disconnect(), Err(ProseClientAccountError::AlreadyDisconnected));
    assert_eq!(a.connect(), Ok(()));
    assert_eq!(a.connect(), Err(ProseClientAccountError::AlreadyConnected));
    assert!(a.broker().is_none());
    a.attach_broker(4);
    assert_eq!(a.broker(), Some(&4));
    assert_eq!(a.disconnect(), Ok(()));
}

#[test]
fn settings_change_on_a_copy() {
    let room: Room<Group> = Room::new(Arc::new(inner(RoomId::Muc("r@c".to_string()), RoomType::Group, true)));
    assert!(room.encryption_update(true).is_none());
    let s = room.encryption_update(false).unwrap();
    assert!(!s.encryption_enabled);
    assert!(room.encryption_enabled());
}

#[test]
fn recipients_are_sorted() {
    let mut i = inner(RoomId::Muc("r@c".to_string()), RoomType::Group, true);
    i.participants.insert(
        0,
        Participant {
            id: ParticipantId::Occupant("room@conference.prose.org/z".to_string()),
            name: None,
            real_id: Some("z@prose.org".to_string()),
            is_self: false,
        },
    );
    let room: Room<Group> = Room::new(Arc::new(i));
    assert_eq!(room.encryption_recipients(), Some(vec!["a@prose.org".to_string(), "z@prose.org".to_string()]));
}

#[test]
fn last_read_flag() {
    let mut i = inner(RoomId::Muc("r@c".to_string()), RoomType::Group, true);
    i.settings.last_read_message = Some(MessageRef { id: "m1".to_string(), timestamp: 1 });
    let room: Room<Group> = Room::new(Arc::new(i));
    let mut m = Message {
        remote_id: Some("m1".to_string()),
        server_id: None,
        from: ParticipantId::User("a@prose.org".to_string()),
        body: Body { raw: String::new(), html: String::new() },
        timestamp: 0,
        is_read: false,
        is_edited: false,
        is_delivered: false,
        is_transient: false,
        is_encrypted: false,
        reactions: vec![],
        attachments: vec![],
        mentions: vec![],
    };
    assert!(room.is_last_read(&m));
    m.remote_id = Some("m2".to_string());
    assert!(!room.is_last_read(&m));
}
