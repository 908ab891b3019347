use prose_core::history::{
    catchup_start, ArchivePage, BeforeRequest, Catchup, CatchupRequest, HistoryLoader, ParsedItem,
    CATCHUP_PAGE_SIZE, MAX_CATCHUP_DURATION_MS,
};
use prose_core::message_like::{
    MessageLike, MessageLikeBody, MessageLikeId, MessageTargetId, ParticipantId, Payload,
};

const DAY: i64 = 86_400_000;

fn text(id: &str, stanza_id: &str, ts: i64) -> MessageLike {
    MessageLike {
        id: MessageLikeId(id.to_string()),
        stanza_id: Some(stanza_id.to_string()),
        target: None,
        to: None,
        from: ParticipantId::User("a@prose.org".to_string()),
        timestamp: ts,
        payload: Payload::Message {
            body: MessageLikeBody { raw: id.to_string(), html: id.to_string(), mentions: vec![] },
            attachments: vec![],
            encryption_info: None,
            is_transient: false,
        },
    }
}

fn event(id: &str, ts: i64, target: &str, payload: Payload) -> MessageLike {
    MessageLike {
        id: MessageLikeId(id.to_string()),
        stanza_id: None,
        target: Some(MessageTargetId::RemoteId(target.to_string())),
        to: None,
        from: ParticipantId::User("b@prose.org".to_string()),
        timestamp: ts,
        payload,
    }
}

fn page(first: &str, last: &str, items: Vec<ParsedItem>, is_last: bool) -> ArchivePage {
    ArchivePage {
        first_item_id: Some(first.to_string()),
        last_item_id: Some(last.to_string()),
        items,
        is_last,
    }
}

#[test]
fn catchup_start_takes_floor() {
    let now: i64 = 1_700_000_000_000;
    assert_eq!(catchup_start(Some(now - 10 * DAY), Some(now - 9 * DAY), now), now - 5 * DAY);
    assert_eq!(MAX_CATCHUP_DURATION_MS, 5 * DAY);
}

#[test]
fn catchup_start_takes_latest() {
    let now: i64 = 1_700_000_000_000;
    assert_eq!(catchup_start(Some(now - DAY), Some(now - 2 * DAY), now), now - DAY);
    assert_eq!(catchup_start(None, Some(now - 2 * DAY), now), now - 2 * DAY);
    assert_eq!(catchup_start(None, None, now), now - 5 * DAY);
}

#[test]
fn catchup_pages_forward_until_last() {
    let now: i64 = 1_700_000_000_000;
    let since = catchup_start(Some(now - 10 * DAY), Some(now - 9 * DAY), now);
    let mut c = Catchup::new(since, Some(now - 3 * DAY));
    assert_eq!(
        c.next_request(),
        Some(CatchupRequest::Since { time: now - 5 * DAY, limit: CATCHUP_PAGE_SIZE })
    );
    c.receive_page(page(
        "s1",
        "s2",
        vec![
            ParsedItem::Event(text("m1", "s1", now - 4 * DAY)),
            ParsedItem::NoPayload,
            ParsedItem::Event(text("m2", "s2", now - 2 * DAY)),
        ],
        false,
    ));
    assert_eq!(
        c.next_request(),
        Some(CatchupRequest::After { after: "s2".to_string(), limit: CATCHUP_PAGE_SIZE })
    );
    let mut error = text("e1", "s3", now - DAY);
    error.payload = Payload::Error { message: "Error: x".to_string() };
    c.receive_page(page(
        "s3",
        "s4",
        vec![ParsedItem::Event(error), ParsedItem::Invalid, ParsedItem::Event(text("m3", "s4", now - DAY))],
        true,
    ));
    assert_eq!(c.next_request(), None);
    assert_eq!(c.messages.len(), 3);
    assert_eq!(c.unread_count, 2);
}

#[test]
fn loader_requests_latest_then_stops_at_page_cap() {
    let mut l = HistoryLoader::new(None, 2, 2);
    assert_eq!(l.next_request(), Some(BeforeRequest { before: None, limit: 2 }));
    l.receive_page(page("s2", "s3", vec![ParsedItem::NoPayload, ParsedItem::Event(text("m3", "s3", 3))], false));
    assert_eq!(l.cursor, Some("s2".to_string()));
    assert_eq!(l.text_count, 1);
    assert_eq!(l.next_request(), Some(BeforeRequest { before: Some("s2".to_string()), limit: 2 }));
    l.receive_page(page(
        "s0",
        "s1",
        vec![
            ParsedItem::Event(event("r0", 0, "m3", Payload::DeliveryReceipt)),
            ParsedItem::Event(text("m1", "s1", 1)),
        ],
        false,
    ));
    assert_eq!(l.pages, 2);
    assert_eq!(l.next_request(), None);
    let ids: Vec<String> = l.messages.iter().map(|m| m.id.id().clone()).collect();
    assert_eq!(ids, vec!["m3", "m1", "r0"]);
    assert!(l.modifier_query().is_none());
    let (messages, cursor) = l.finish(vec![]);
    assert_eq!(cursor, Some("s0".to_string()));
    let bodies: Vec<String> = messages.iter().map(|m| m.body.raw.clone()).collect();
    assert_eq!(bodies, vec!["m1", "m3"]);
    assert!(messages[1].is_delivered);
}

#[test]
fn loader_end_of_archive_clears_cursor() {
    let mut l = HistoryLoader::new(Some("s9".to_string()), 10, 5);
    assert_eq!(l.next_request(), Some(BeforeRequest { before: Some("s9".to_string()), limit: 10 }));
    l.receive_page(page("s1", "s1", vec![ParsedItem::Event(text("m1", "s1", 10))], true));
    assert_eq!(l.cursor, None);
    assert_eq!(l.next_request(), None);
    let (targets, newer_than) = l.modifier_query().unwrap();
    assert_eq!(targets.len(), 2);
    assert_eq!(newer_than, 10);
    let later = vec![event("c1", 11, "m1", Payload::Correction {
        body: MessageLikeBody { raw: "edited".to_string(), html: "edited".to_string(), mentions: vec![] },
        attachments: vec![],
        encryption_info: None,
    })];
    let (messages, cursor) = l.finish(later);
    assert_eq!(cursor, None);
    assert_eq!(messages[0].body.raw, "edited");
    assert!(messages[0].is_edited);
}
