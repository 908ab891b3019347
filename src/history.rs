//! Loading conversation history from the server archive: backwards
//! pagination for display and forward catch-up after a reconnect.
//!
//! Both are state machines: the caller performs the archive requests they
//! ask for and hands back each page, already decoded item by item.

use vstd::prelude::*;

use crate::message::{message_views, reduced, reversed, Message};
use crate::message_like::{MessageLike, MessageTargetId};

verus! {

/// One archived item after decoding.
#[derive(Debug)]
pub enum ParsedItem {
    /// The item decoded to an event.
    Event(MessageLike),
    /// The item carries nothing that becomes an event.
    NoPayload,
    /// The item could not be decoded.
    Invalid,
}

/// A page of the archive, oldest item first.
#[derive(Debug)]
pub struct ArchivePage {
    /// The archive id of the first (oldest) item of the page.
    pub first_item_id: Option<String>,
    /// The archive id of the last (newest) item of the page.
    pub last_item_id: Option<String>,
    pub items: Vec<ParsedItem>,
    /// Whether the archive has nothing beyond this page.
    pub is_last: bool,
}

/// Whether an item is kept: a decoded event that is not an error.
pub open spec fn kept(i: ParsedItem) -> bool {
    i matches ParsedItem::Event(e) && !(e.payload is Error)
}

pub open spec fn event_of(i: ParsedItem) -> MessageLike {
    i->Event_0
}

/// The kept events of `items`, newest first.
pub open spec fn kept_newest_first(items: Seq<ParsedItem>) -> Seq<MessageLike>
    decreases items.len(),
{
    if items.len() == 0 {
        Seq::empty()
    } else if kept(items.last()) {
        seq![event_of(items.last())] + kept_newest_first(items.drop_last())
    } else {
        kept_newest_first(items.drop_last())
    }
}

/// The kept events of `items`, oldest first.
pub open spec fn kept_oldest_first(items: Seq<ParsedItem>) -> Seq<MessageLike>
    decreases items.len(),
{
    if items.len() == 0 {
        Seq::empty()
    } else if kept(items.last()) {
        kept_oldest_first(items.drop_last()).push(event_of(items.last()))
    } else {
        kept_oldest_first(items.drop_last())
    }
}

/// The number of text messages among `events`.
pub open spec fn count_texts(events: Seq<MessageLike>) -> nat
    decreases events.len(),
{
    if events.len() == 0 {
        0
    } else {
        count_texts(events.drop_last()) + if events.last().payload is Message {
            1nat
        } else {
            0nat
        }
    }
}

/// The ids by which modifiers may target a text message: its own id unless
/// synthesized, then its server id if any.
pub open spec fn target_views_of(e: MessageLike) -> Seq<(bool, Seq<char>)> {
    if e.payload is Message {
        let own = match e.id.original_id_spec() {
            Some(id) => seq![(false, id@)],
            None => Seq::empty(),
        };
        let server = match e.stanza_id {
            Some(s) => seq![(true, s@)],
            None => Seq::empty(),
        };
        own + server
    } else {
        Seq::empty()
    }
}

/// The targets of the events, in order.
pub open spec fn targets_of(events: Seq<MessageLike>) -> Seq<(bool, Seq<char>)>
    decreases events.len(),
{
    if events.len() == 0 {
        Seq::empty()
    } else {
        targets_of(events.drop_last()) + target_views_of(events.last())
    }
}

/// A target as (is a server id, id).
pub open spec fn target_view(t: MessageTargetId) -> (bool, Seq<char>) {
    match t {
        MessageTargetId::RemoteId(s) => (false, s@),
        MessageTargetId::ServerId(s) => (true, s@),
    }
}

pub open spec fn target_views(ts: Seq<MessageTargetId>) -> Seq<(bool, Seq<char>)> {
    ts.map_values(|t: MessageTargetId| target_view(t))
}

proof fn lemma_count_texts_le(events: Seq<MessageLike>)
    ensures
        count_texts(events) <= events.len(),
    decreases events.len(),
{
    if events.len() > 0 {
        lemma_count_texts_le(events.drop_last());
    }
}

/// Pushes the targets of a text message.
fn push_targets(targets: &mut Vec<MessageTargetId>, e: &MessageLike)
    ensures
        target_views(final(targets)@) == target_views(old(targets)@) + target_views_of(*e),
{
    let ghost before = target_views(targets@);
    if e.payload.is_message() {
        match e.id.original_id() {
            Some(id) => {
                targets.push(MessageTargetId::RemoteId(id.clone()));
            },
            None => {},
        }
        match &e.stanza_id {
            Some(s) => {
                targets.push(MessageTargetId::ServerId(s.clone()));
            },
            None => {},
        }
        assert(target_views(targets@) =~= before + target_views_of(*e));
    } else {
        assert(target_views(targets@) =~= before + target_views_of(*e));
    }
}

/// A request for the page of at most `limit` items just before `before`
/// (the newest page when there is no cursor).
#[derive(Debug, PartialEq, Eq)]
pub struct BeforeRequest {
    pub before: Option<String>,
    pub limit: u32,
}

/// Backwards pagination of a room's archive: pages are fetched until
/// `page_size` text messages were seen, `max_pages` pages were loaded, or
/// the archive ends.
#[derive(Debug)]
pub struct HistoryLoader {
    pub before: Option<String>,
    pub page_size: u32,
    pub max_pages: u32,
    /// The cursor for the next page and for the caller's next load.
    pub cursor: Option<String>,
    /// Every kept event, newest first.
    pub messages: Vec<MessageLike>,
    pub text_count: usize,
    pub pages: u32,
    /// Ids of the text messages seen, for modifiers that target them.
    pub text_targets: Vec<MessageTargetId>,
    pub reached_end: bool,
}

impl HistoryLoader {
    /// The loader's invariant.
    pub open spec fn wf(&self) -> bool {
        &&& self.text_count == count_texts(self.messages@)
        &&& self.pages <= self.max_pages
        &&& target_views(self.text_targets@) == targets_of(self.messages@)
        &&& self.reached_end ==> self.cursor is None
    }

    /// Whether another page is owed.
    pub open spec fn wants_page(&self) -> bool {
        !self.reached_end && self.text_count < self.page_size && self.pages < self.max_pages
    }

    /// Starts a load of the messages before `before` (the latest ones when
    /// there is no cursor).
    pub fn new(before: Option<String>, page_size: u32, max_pages: u32) -> (r: Self)
        ensures
            r.wf(),
            r.before == before,
            r.cursor == before,
            r.page_size == page_size,
            r.max_pages == max_pages,
            r.messages@.len() == 0,
            r.pages == 0,
            !r.reached_end,
    {
        let cursor = match &before {
            Some(b) => Some(b.clone()),
            None => None,
        };
        let r = HistoryLoader {
            before,
            page_size,
            max_pages,
            cursor,
            messages: Vec::new(),
            text_count: 0,
            pages: 0,
            text_targets: Vec::new(),
            reached_end: false,
        };
        assert(target_views(r.text_targets@) =~= targets_of(r.messages@));
        r
    }

    /// The next archive request, or `None` once loading is complete.
    pub fn next_request(&self) -> (r: Option<BeforeRequest>)
        requires
            self.wf(),
        ensures
            r is Some <==> self.wants_page(),
            r matches Some(q) ==> q.limit == self.page_size && q.before == self.cursor,
    {
        if !self.reached_end && self.text_count < self.page_size as usize && self.pages
            < self.max_pages {
            let before = match &self.cursor {
                Some(c) => Some(c.clone()),
                None => None,
            };
            Some(BeforeRequest { before, limit: self.page_size })
        } else {
            None
        }
    }

    /// Takes in the page that `next_request` asked for: its kept events are
    /// added newest first, its first item becomes the cursor, and the end of
    /// the archive ends the load.
    pub fn receive_page(&mut self, page: ArchivePage)
        requires
            old(self).wf(),
            old(self).wants_page(),
        ensures
            final(self).wf(),
            final(self).messages@ == old(self).messages@ + kept_newest_first(page.items@),
            final(self).pages == old(self).pages + 1,
            final(self).reached_end == page.is_last,
            final(self).cursor == if page.is_last {
                None
            } else {
                page.first_item_id
            },
            final(self).before == old(self).before,
            final(self).page_size == old(self).page_size,
            final(self).max_pages == old(self).max_pages,
    {
        let ghost base = self.messages@;
        let ghost orig = page.items@;
        self.cursor = page.first_item_id;
        let mut items = page.items;
        while items.len() > 0
            invariant
                base + kept_newest_first(orig) == self.messages@ + kept_newest_first(items@),
                self.text_count == count_texts(self.messages@),
                target_views(self.text_targets@) == targets_of(self.messages@),
                self.pages == old(self).pages,
                self.pages < self.max_pages,
                self.max_pages == old(self).max_pages,
                self.page_size == old(self).page_size,
                self.before == old(self).before,
                self.cursor == page.first_item_id,
                !self.reached_end,
            decreases items.len(),
        {
            let ghost rest = items@;
            let item = items.pop().unwrap();
            assert(items@ =~= rest.drop_last());
            match item {
                ParsedItem::Event(e) => {
                    if !e.payload.is_error() {
                        let ghost prev = self.messages@;
                        push_targets(&mut self.text_targets, &e);
                        let is_text = e.payload.is_message();
                        self.messages.push(e);
                        proof {
                            assert(self.messages@.drop_last() =~= prev);
                            lemma_count_texts_le(self.messages@);
                            assert(base + kept_newest_first(orig) =~= self.messages@
                                + kept_newest_first(items@));
                        }
                        // The count stays below the length of the vector, so it cannot overflow.
                        let _ = self.messages.len();
                        if is_text {
                            self.text_count = self.text_count + 1;
                        }
                    }
                },
                _ => {},
            }
        }
        assert(kept_newest_first(items@) =~= Seq::empty());
        assert(self.messages@ =~= base + kept_newest_first(orig));
        self.pages = self.pages + 1;
        if page.is_last {
            self.cursor = None;
            self.reached_end = true;
        }
    }

    /// When loading before a cursor, the request for events cached earlier
    /// that target the loaded text messages and are newer than the newest
    /// loaded event: the targets and that timestamp.
    pub fn modifier_query(&self) -> (r: Option<(Vec<MessageTargetId>, i64)>)
        requires
            self.wf(),
        ensures
            r is Some <==> (self.before is Some && self.text_targets@.len() > 0
                && self.messages@.len() > 0),
            r matches Some(q) ==> target_views(q.0@) == target_views(self.text_targets@)
                && q.1 == self.messages@[0].timestamp,
    {
        if self.before.is_some() && self.text_targets.len() > 0 && self.messages.len() > 0 {
            let mut ts: Vec<MessageTargetId> = Vec::new();
            let mut i: usize = 0;
            while i < self.text_targets.len()
                invariant
                    i <= self.text_targets.len(),
                    target_views(ts@) == target_views(self.text_targets@.take(i as int)),
                decreases self.text_targets.len() - i,
            {
                let t = match &self.text_targets[i] {
                    MessageTargetId::RemoteId(s) => MessageTargetId::RemoteId(s.clone()),
                    MessageTargetId::ServerId(s) => MessageTargetId::ServerId(s.clone()),
                };
                assert(target_view(t) == target_view(self.text_targets@[i as int]));
                let ghost prev = ts@;
                ts.push(t);
                assert(target_views(ts@) =~= target_views(prev).push(target_view(ts@[i as int])));
                assert(self.text_targets@.take(i as int + 1) =~= self.text_targets@.take(i as int).push(self.text_targets@[i as int]));
                assert(target_views(ts@) =~= target_views(self.text_targets@.take(i as int + 1)));
                i += 1;
            }
            assert(self.text_targets@.take(self.text_targets.len() as int) =~= self.text_targets@);
            Some((ts, self.messages[0].timestamp))
        } else {
            None
        }
    }

    /// Ends the load: the loaded events, oldest first, followed by the later
    /// modifiers, reduced to logical messages; and the cursor to continue
    /// from.
    pub fn finish(self, later: Vec<MessageLike>) -> (r: (Vec<Message>, Option<String>))
        ensures
            message_views(r.0@) == reduced(oldest_first(self.messages@) + later@),
            r.1 == self.cursor,
    {
        let ghost newest = self.messages@;
        let mut events = reversed(self.messages);
        assert(events@ =~= oldest_first(newest));
        let mut later = later;
        events.append(&mut later);
        (Message::reducing_messages(events), self.cursor)
    }
}

/// A load asks for at most `max_pages` pages: each page taken in counts one
/// toward the cap, and no page is asked for at the cap or after the end of
/// the archive.
pub proof fn lemma_load_is_bounded(l: HistoryLoader)
    requires
        l.wf(),
    ensures
        l.pages >= l.max_pages || l.reached_end ==> !l.wants_page(),
        l.wants_page() ==> l.max_pages - l.pages > 0,
        l.pages <= l.max_pages,
{
}

/// `events` in reverse order.
pub open spec fn oldest_first(events: Seq<MessageLike>) -> Seq<MessageLike> {
    Seq::new(events.len(), |j: int| events[events.len() - 1 - j])
}

/// How far back a catch-up reaches at most: five days, in milliseconds.
pub const MAX_CATCHUP_DURATION_MS: i64 = 432_000_000;

/// Number of items asked for per catch-up page.
pub const CATCHUP_PAGE_SIZE: u32 = 100;

pub open spec fn later_of(a: Option<i64>, b: Option<i64>) -> Option<i64> {
    match (a, b) {
        (Some(x), Some(y)) => Some(if x >= y { x } else { y }),
        (Some(x), None) => Some(x),
        (None, y) => y,
    }
}

/// The start of a catch-up: the latest of the last catch-up, the newest
/// message received before the current connection, and the floor five days
/// before `now`.
pub open spec fn catchup_start_spec(
    last_catchup: Option<i64>,
    last_received: Option<i64>,
    now: i64,
) -> i64 {
    let floor = now - MAX_CATCHUP_DURATION_MS;
    match later_of(last_catchup, last_received) {
        Some(t) => if t >= floor {
            t
        } else {
            floor as i64
        },
        None => floor as i64,
    }
}

/// The start time of a catch-up.
pub fn catchup_start(last_catchup: Option<i64>, last_received: Option<i64>, now: i64) -> (r: i64)
    requires
        now >= i64::MIN + MAX_CATCHUP_DURATION_MS,
    ensures
        r == catchup_start_spec(last_catchup, last_received, now),
{
    let floor = now - MAX_CATCHUP_DURATION_MS;
    let latest = match (last_catchup, last_received) {
        (Some(x), Some(y)) => Some(
            if x >= y {
                x
            } else {
                y
            },
        ),
        (Some(x), None) => Some(x),
        (None, y) => y,
    };
    match latest {
        Some(t) => if t >= floor {
            t
        } else {
            floor
        },
        None => floor,
    }
}

/// A forward archive request.
#[derive(Debug, PartialEq, Eq)]
pub enum CatchupRequest {
    /// The first page of items since a time.
    Since { time: i64, limit: u32 },
    /// The page of items after an archive id.
    After { after: String, limit: u32 },
}

/// The number of text messages newer than the last read one.
pub open spec fn count_unread(events: Seq<MessageLike>, last_read: Option<i64>) -> nat
    decreases events.len(),
{
    if events.len() == 0 {
        0
    } else {
        let e = events.last();
        count_unread(events.drop_last(), last_read) + if e.payload is Message && (
        match last_read {
            Some(t) => e.timestamp > t,
            None => true,
        }) {
            1nat
        } else {
            0nat
        }
    }
}

/// Forward catch-up of one room's archive since `since`, page by page until
/// the archive reports its end.
#[derive(Debug)]
pub struct Catchup {
    pub since: i64,
    pub last_read: Option<i64>,
    /// Every kept event, oldest first.
    pub messages: Vec<MessageLike>,
    pub unread_count: usize,
    pub started: bool,
    pub last_item_id: Option<String>,
    pub is_complete: bool,
}

impl Catchup {
    pub open spec fn wf(&self) -> bool {
        self.unread_count == count_unread(self.messages@, self.last_read)
    }

    /// Starts a catch-up from `since`; messages newer than `last_read` count
    /// as unread.
    pub fn new(since: i64, last_read: Option<i64>) -> (r: Self)
        ensures
            r.wf(),
            r.since == since,
            r.last_read == last_read,
            r.messages@.len() == 0,
            !r.started,
            !r.is_complete,
    {
        Catchup {
            since,
            last_read,
            messages: Vec::new(),
            unread_count: 0,
            started: false,
            last_item_id: None,
            is_complete: false,
        }
    }

    /// The next request: the page since the start time first, then the page
    /// after the newest item seen, until the archive ended.
    pub fn next_request(&self) -> (r: Option<CatchupRequest>)
        ensures
            !self.started ==> r == Some(
                CatchupRequest::Since { time: self.since, limit: CATCHUP_PAGE_SIZE },
            ),
            self.started && (self.is_complete || self.last_item_id is None) ==> r is None,
            self.started && !self.is_complete && self.last_item_id is Some ==> (r matches Some(
                CatchupRequest::After { after, limit },
            ) && after@ == self.last_item_id->Some_0@ && limit == CATCHUP_PAGE_SIZE),
    {
        if !self.started {
            return Some(CatchupRequest::Since { time: self.since, limit: CATCHUP_PAGE_SIZE });
        }
        if self.is_complete {
            return None;
        }
        match &self.last_item_id {
            Some(id) => Some(CatchupRequest::After { after: id.clone(), limit: CATCHUP_PAGE_SIZE }),
            None => None,
        }
    }

    /// Takes in a page: its kept events are appended oldest first and
    /// counted when unread.
    pub fn receive_page(&mut self, page: ArchivePage)
        requires
            old(self).wf(),
        ensures
            final(self).wf(),
            final(self).messages@ == old(self).messages@ + kept_oldest_first(page.items@),
            final(self).started,
            final(self).last_item_id == page.last_item_id,
            final(self).is_complete == page.is_last,
            final(self).since == old(self).since,
            final(self).last_read == old(self).last_read,
    {
        let ghost base = self.messages@;
        let ghost orig = page.items@;
        let mut items = reversed(page.items);
        let n = items.len();
        while items.len() > 0
            invariant
                items.len() <= n,
                n == orig.len(),
                forall|j: int| 0 <= j < items.len() ==> #[trigger] items@[j] == orig[n - 1 - j],
                self.messages@ == base + kept_oldest_first(orig.take(n - items.len())),
                self.unread_count == count_unread(self.messages@, self.last_read),
                self.last_read == old(self).last_read,
                self.since == old(self).since,
            decreases items.len(),
        {
            let ghost i = n - items.len();
            let item = items.pop().unwrap();
            assert(item == orig[i]);
            assert(orig.take(i + 1).drop_last() =~= orig.take(i));
            match item {
                ParsedItem::Event(e) => {
                    if !e.payload.is_error() {
                        let unread = e.payload.is_message() && match self.last_read {
                            Some(t) => e.timestamp > t,
                            None => true,
                        };
                        let ghost prev = self.messages@;
                        self.messages.push(e);
                        proof {
                            assert(self.messages@.drop_last() =~= prev);
                            lemma_count_unread_le(self.messages@, self.last_read);
                        }
                        // The count stays below the length of the vector, so it cannot overflow.
                        let _ = self.messages.len();
                        if unread {
                            self.unread_count = self.unread_count + 1;
                        }
                    }
                },
                _ => {},
            }
        }
        assert(orig.take(n as int) =~= orig);
        self.started = true;
        self.last_item_id = page.last_item_id;
        self.is_complete = page.is_last;
    }
}

proof fn lemma_count_unread_le(events: Seq<MessageLike>, last_read: Option<i64>)
    ensures
        count_unread(events, last_read) <= events.len(),
    decreases events.len(),
{
    if events.len() > 0 {
        lemma_count_unread_le(events.drop_last(), last_read);
    }
}

} // verus!
