//! Message-like events: the atomic entries of a conversation's log.

use vstd::prelude::*;
use vstd::string::StringExecFns;

verus! {

/// Prefix of identifiers that were synthesized because the stanza had none.
pub const SYNTHETIC_ID_PREFIX: &'static str = "!!";

/// The identity of a message's author: a user (bare address) or a room
/// occupant (full occupant address).
#[derive(Debug, Clone, PartialEq, Eq)]
pub enum ParticipantId {
    User(String),
    Occupant(String),
}

impl View for ParticipantId {
    /// Whether the participant is an occupant, and its address.
    type V = (bool, Seq<char>);

    open spec fn view(&self) -> (bool, Seq<char>) {
        match self {
            ParticipantId::User(s) => (false, s@),
            ParticipantId::Occupant(s) => (true, s@),
        }
    }
}

impl ParticipantId {
    /// An identical copy.
    pub fn duplicate(&self) -> (r: Self)
        ensures
            r == *self,
    {
        match self {
            ParticipantId::User(s) => ParticipantId::User(s.clone()),
            ParticipantId::Occupant(s) => ParticipantId::Occupant(s.clone()),
        }
    }

    /// Whether both name the same participant.
    pub fn same_as(&self, other: &ParticipantId) -> (r: bool)
        ensures
            r == (self@ == other@),
    {
        match self {
            ParticipantId::User(a) => match other {
                ParticipantId::User(b) => *a == *b,
                ParticipantId::Occupant(_) => false,
            },
            ParticipantId::Occupant(a) => match other {
                ParticipantId::Occupant(b) => *a == *b,
                ParticipantId::User(_) => false,
            },
        }
    }

    /// The address of the participant.
    pub fn address(&self) -> (r: &String)
        ensures
            r@ == self@.1,
    {
        match self {
            ParticipantId::User(s) => s,
            ParticipantId::Occupant(s) => s,
        }
    }
}

/// Whether `s` starts with the synthetic-identifier prefix.
pub open spec fn is_synthetic(s: Seq<char>) -> bool {
    s.len() >= 2 && s[0] == '!' && s[1] == '!'
}

/// An identifier that can act as a placeholder when a message carries no id
/// of its own: such generated identifiers start with `!!`.
#[derive(Debug, Clone)]
pub struct MessageLikeId(pub String);

/// Relies on `uuid::Uuid::new_v4` and its `to_string`: a fresh random
/// identifier in hyphenated form, 36 characters long.
#[verifier::external_body]
fn new_uuid_string() -> (r: String)
    ensures
        r@.len() == 36,
{
    uuid::Uuid::new_v4().to_string()
}

impl MessageLikeId {
    /// Wraps `id`, or synthesizes `"!!" + uuid` when there is none.
    pub fn new(id: Option<String>) -> (r: Self)
        ensures
            id is Some ==> r.0 == id->Some_0,
            id is None ==> is_synthetic(r.0@) && r.0@.len() == 38,
    {
        match id {
            Some(id) => MessageLikeId(id),
            None => {
                let uuid = new_uuid_string();
                let prefix = <String as StringExecFns>::from_str(SYNTHETIC_ID_PREFIX);
                proof {
                    reveal_strlit("!!");
                }
                let s = prefix.concat(uuid.as_str());
                MessageLikeId(s)
            },
        }
    }

    /// Returns either the original message id or the generated one.
    pub fn id(&self) -> (r: &String)
        ensures
            r == &self.0,
    {
        &self.0
    }

    /// The original message id, or `None` for a generated one.
    pub open spec fn original_id_spec(&self) -> Option<String> {
        if is_synthetic(self.0@) {
            None
        } else {
            Some(self.0)
        }
    }

    /// Returns the original message id or `None` if this id was generated.
    pub fn into_original_id(self) -> (r: Option<String>)
        ensures
            r == self.original_id_spec(),
    {
        if starts_with_synthetic_prefix(&self.0) {
            None
        } else {
            Some(self.0)
        }
    }

    /// Borrowing form of `into_original_id`.
    pub fn original_id(&self) -> (r: Option<&String>)
        ensures
            r matches Some(s) ==> self.original_id_spec() == Some(*s),
            r is None <==> self.original_id_spec() is None,
    {
        if starts_with_synthetic_prefix(&self.0) {
            None
        } else {
            Some(&self.0)
        }
    }

    /// An identical copy.
    pub fn duplicate(&self) -> (r: Self)
        ensures
            r == *self,
    {
        MessageLikeId(self.0.clone())
    }
}

fn starts_with_synthetic_prefix(s: &String) -> (r: bool)
    ensures
        r == is_synthetic(s@),
{
    let t = s.as_str();
    if t.unicode_len() < 2 {
        return false;
    }
    t.get_char(0) == '!' && t.get_char(1) == '!'
}

/// A mention of a user inside a body, over a range of its characters.
#[derive(Debug, Clone)]
pub struct Mention {
    pub user: String,
    pub start: usize,
    pub end: usize,
}

/// A file attached to a message.
#[derive(Debug, Clone)]
pub struct Attachment {
    pub url: String,
    pub media_type: String,
    pub file_name: Option<String>,
}

/// Marks a payload that was sent end-to-end encrypted.
#[derive(Debug, Clone)]
pub struct EncryptionInfo {
    /// The device that encrypted the payload.
    pub sender_device_id: u32,
}

/// The text of a message: raw, as html, and with its mentions.
#[derive(Debug, Clone)]
pub struct MessageLikeBody {
    pub raw: String,
    pub html: String,
    pub mentions: Vec<Mention>,
}

/// How a modifier names its target: by the sender's id or by the archive's id.
#[derive(Debug, Clone)]
pub enum MessageTargetId {
    RemoteId(String),
    ServerId(String),
}

/// What a message-like event carries.
#[derive(Debug, Clone)]
pub enum Payload {
    Correction {
        body: MessageLikeBody,
        attachments: Vec<Attachment>,
        encryption_info: Option<EncryptionInfo>,
    },
    DeliveryReceipt,
    ReadReceipt,
    Message {
        body: MessageLikeBody,
        attachments: Vec<Attachment>,
        encryption_info: Option<EncryptionInfo>,
        is_transient: bool,
    },
    Reaction { emojis: Vec<String> },
    Retraction,
    Error { message: String },
}

impl Payload {
    /// Whether this is a message (not a modifier of one).
    pub fn is_message(&self) -> (r: bool)
        ensures
            r == (self is Message),
    {
        match self {
            Payload::Message { .. } => true,
            _ => false,
        }
    }

    /// Whether this is an error.
    pub fn is_error(&self) -> (r: bool)
        ensures
            r == (self is Error),
    {
        match self {
            Payload::Error { .. } => true,
            _ => false,
        }
    }
}

/// Why a stanza yields no message-like event.
#[derive(Debug, PartialEq, Eq, Structural)]
pub enum MessageLikeError {
    NoPayload,
}

/// A permanent event of a conversation: replaying all of them restores its
/// history. Timestamps are milliseconds since the Unix epoch.
#[derive(Debug, Clone)]
pub struct MessageLike {
    pub id: MessageLikeId,
    pub stanza_id: Option<String>,
    pub target: Option<MessageTargetId>,
    pub to: Option<String>,
    pub from: ParticipantId,
    pub timestamp: i64,
    pub payload: Payload,
}

/// What a received message stanza holds, as far as the payload is
/// concerned. Filled in by the stanza decoder.
#[derive(Debug)]
pub struct StanzaContent {
    /// Whether the stanza was sent to a multi-user room.
    pub is_groupchat: bool,
    /// The text of an attached stanza error.
    pub error: Option<String>,
    /// The id targeted by a reactions element.
    pub reactions_target: Option<String>,
    /// The emojis of a reactions element.
    pub reactions: Vec<String>,
    /// The id targeted by a fastening that retracts.
    pub retraction_target: Option<String>,
    /// The id replaced by a message-correction element.
    pub replace_target: Option<String>,
    pub body: Option<String>,
    pub html: Option<String>,
    pub mentions: Vec<Mention>,
    pub attachments: Vec<Attachment>,
    pub encryption_info: Option<EncryptionInfo>,
    /// The id acknowledged by a "received" marker.
    pub received_marker: Option<String>,
    /// The id acknowledged by a "displayed" marker.
    pub displayed_marker: Option<String>,
}

/// A payload together with the event it targets.
#[derive(Debug)]
pub struct TargetedPayload {
    pub target: Option<MessageTargetId>,
    pub payload: Payload,
}

pub open spec fn error_prefix() -> Seq<char> {
    seq!['E', 'r', 'r', 'o', 'r', ':', ' ']
}

/// The html of a body: the given one, or the raw text.
pub open spec fn html_of(c: StanzaContent) -> Seq<char> {
    match c.html {
        Some(h) => h@,
        None => c.body->Some_0@,
    }
}

/// Whether `p` is the body taken from `c`.
pub open spec fn body_of(c: StanzaContent, b: MessageLikeBody) -> bool {
    &&& c.body matches Some(raw) && b.raw@ == raw@
    &&& b.html@ == html_of(c)
    &&& b.mentions@ == c.mentions@
}

/// The payload that a stanza carries, by precedence: error, reactions,
/// retraction, correction (with a body), delivery receipt, read receipt,
/// message (a body). `Err(NoPayload)` when none applies.
pub open spec fn payload_of(c: StanzaContent, r: Result<TargetedPayload, MessageLikeError>) -> bool {
    if c.error is Some {
        r matches Ok(t) && (t.target is None && (t.payload matches Payload::Error { message }
            && message@ == error_prefix() + c.error->Some_0@))
    } else if c.reactions_target is Some {
        let id = c.reactions_target->Some_0;
        r matches Ok(t) && t.payload == (Payload::Reaction { emojis: c.reactions }) && (
        if c.is_groupchat {
            t.target == Some(MessageTargetId::ServerId(id))
        } else {
            t.target == Some(MessageTargetId::RemoteId(id))
        })
    } else if c.retraction_target is Some {
        r matches Ok(t) && t.payload is Retraction && t.target == Some(
            MessageTargetId::RemoteId(c.retraction_target->Some_0),
        )
    } else if c.replace_target is Some && c.body is Some {
        r matches Ok(t) && (t.target == Some(MessageTargetId::RemoteId(c.replace_target->Some_0))
            && (t.payload matches Payload::Correction { body, attachments, encryption_info }
            && body_of(c, body) && attachments == c.attachments && encryption_info
            == c.encryption_info))
    } else if c.received_marker is Some {
        r matches Ok(t) && t.payload is DeliveryReceipt && t.target == Some(
            MessageTargetId::RemoteId(c.received_marker->Some_0),
        )
    } else if c.displayed_marker is Some {
        r matches Ok(t) && t.payload is ReadReceipt && t.target == Some(
            MessageTargetId::RemoteId(c.displayed_marker->Some_0),
        )
    } else if c.body is Some {
        r matches Ok(t) && (t.target is None && (t.payload matches Payload::Message {
            body,
            attachments,
            encryption_info,
            is_transient,
        } && body_of(c, body) && attachments == c.attachments && encryption_info
            == c.encryption_info && !is_transient))
    } else {
        r == Err::<TargetedPayload, MessageLikeError>(MessageLikeError::NoPayload)
    }
}

fn body_from(raw: String, html: Option<String>, mentions: Vec<Mention>) -> (r: MessageLikeBody)
    ensures
        r.raw == raw,
        r.mentions == mentions,
        r.html@ == match html {
            Some(h) => h@,
            None => raw@,
        },
{
    let html = match html {
        Some(h) => h,
        None => raw.clone(),
    };
    MessageLikeBody { raw, html, mentions }
}

impl TargetedPayload {
    /// Decides what a stanza carries; see `payload_of` for the precedence.
    pub fn from_stanza(c: StanzaContent) -> (r: Result<TargetedPayload, MessageLikeError>)
        ensures
            payload_of(c, r),
    {
        if let Some(error) = c.error {
            let prefix = <String as StringExecFns>::from_str("Error: ");
            proof {
                reveal_strlit("Error: ");
                assert(prefix@ =~= error_prefix());
            }
            let message = prefix.concat(error.as_str());
            return Ok(TargetedPayload { target: None, payload: Payload::Error { message } });
        }
        if let Some(id) = c.reactions_target {
            let target = if c.is_groupchat {
                MessageTargetId::ServerId(id)
            } else {
                MessageTargetId::RemoteId(id)
            };
            return Ok(
                TargetedPayload {
                    target: Some(target),
                    payload: Payload::Reaction { emojis: c.reactions },
                },
            );
        }
        if let Some(id) = c.retraction_target {
            return Ok(
                TargetedPayload {
                    target: Some(MessageTargetId::RemoteId(id)),
                    payload: Payload::Retraction,
                },
            );
        }
        if c.replace_target.is_some() && c.body.is_some() {
            let id = c.replace_target.unwrap();
            let raw = c.body.unwrap();
            return Ok(
                TargetedPayload {
                    target: Some(MessageTargetId::RemoteId(id)),
                    payload: Payload::Correction {
                        body: body_from(raw, c.html, c.mentions),
                        attachments: c.attachments,
                        encryption_info: c.encryption_info,
                    },
                },
            );
        }
        if let Some(id) = c.received_marker {
            return Ok(
                TargetedPayload {
                    target: Some(MessageTargetId::RemoteId(id)),
                    payload: Payload::DeliveryReceipt,
                },
            );
        }
        if let Some(id) = c.displayed_marker {
            return Ok(
                TargetedPayload {
                    target: Some(MessageTargetId::RemoteId(id)),
                    payload: Payload::ReadReceipt,
                },
            );
        }
        if let Some(raw) = c.body {
            return Ok(
                TargetedPayload {
                    target: None,
                    payload: Payload::Message {
                        body: body_from(raw, c.html, c.mentions),
                        attachments: c.attachments,
                        encryption_info: c.encryption_info,
                        is_transient: false,
                    },
                },
            );
        }
        Err(MessageLikeError::NoPayload)
    }
}

/// The part of an address before `sep`, or all of it.
pub(crate) fn before_char(s: &String, sep: char) -> (r: String)
    ensures
        r@.len() <= s@.len(),
        r@ == s@.take(r@.len() as int),
        r@.len() < s@.len() ==> s@[r@.len() as int] == sep,
        forall|j: int| 0 <= j < r@.len() ==> r@[j] != sep,
{
    let t = s.as_str();
    let n = t.unicode_len();
    let mut i: usize = 0;
    while i < n && t.get_char(i) != sep
        invariant
            i <= n,
            n == s@.len(),
            t@ == s@,
            forall|j: int| 0 <= j < i ==> s@[j] != sep,
        decreases n - i,
    {
        i += 1;
    }
    let r = t.substring_char(0, i);
    assert(r@ =~= s@.take(i as int));
    r.to_owned()
}

/// Whether `b` is the bare form of the address `full`: everything before
/// its first `/`.
pub open spec fn is_bare_of(full: Seq<char>, b: Seq<char>) -> bool {
    &&& b.len() <= full.len()
    &&& b == full.take(b.len() as int)
    &&& b.len() < full.len() ==> full[b.len() as int] == '/'
    &&& forall|j: int| 0 <= j < b.len() ==> b[j] != '/'
}

/// Whether an address has a resource part.
pub open spec fn is_full(a: Seq<char>) -> bool {
    a.contains('/')
}

/// The bare form of an address.
pub fn bare_address(full: &String) -> (r: String)
    ensures
        is_bare_of(full@, r@),
{
    before_char(full, '/')
}

/// Why a stanza could not become a message-like event.
#[derive(Debug, PartialEq, Eq, Structural)]
pub enum EnvelopeError {
    /// The stanza carries nothing that becomes an event.
    NoPayload,
    /// The stanza has no sender.
    MissingFrom,
    /// A room message whose sender is not a full occupant address.
    ExpectedFullAddress,
    /// An archived message without its delay timestamp.
    MissingDelay,
}

/// What identifies the sender of a stanza: in a room the real user behind
/// the occupant if the room discloses it, else the occupant; elsewhere the
/// bare address of the sender.
pub open spec fn sender_of(
    is_groupchat: bool,
    from: Option<String>,
    muc_user: Option<String>,
    r: Result<ParticipantId, EnvelopeError>,
) -> bool {
    match from {
        None => r == Err::<ParticipantId, EnvelopeError>(EnvelopeError::MissingFrom),
        Some(f) => if is_groupchat {
            match muc_user {
                Some(u) => r matches Ok(ParticipantId::User(b)) && is_bare_of(u@, b@),
                None => if is_full(f@) {
                    r == Ok::<ParticipantId, EnvelopeError>(ParticipantId::Occupant(f))
                } else {
                    r == Err::<ParticipantId, EnvelopeError>(EnvelopeError::ExpectedFullAddress)
                },
            }
        } else {
            r matches Ok(ParticipantId::User(b)) && is_bare_of(f@, b@)
        },
    }
}

fn has_resource(a: &String) -> (r: bool)
    ensures
        r == is_full(a@),
{
    let b = before_char(a, '/');
    let n = b.as_str().unicode_len();
    let full = n < a.as_str().unicode_len();
    proof {
        if full {
            assert(a@[n as int] == '/');
        } else {
            assert(b@ =~= a@);
            if a@.contains('/') {
                let j = choose|j: int| 0 <= j < a@.len() && a@[j] == '/';
                assert(b@[j] == '/');
            }
        }
    }
    full
}

/// Resolves the sender of a stanza; see `sender_of`.
pub fn resolve_sender(is_groupchat: bool, from: Option<String>, muc_user: Option<String>) -> (r: Result<
    ParticipantId,
    EnvelopeError,
>)
    ensures
        sender_of(is_groupchat, from, muc_user, r),
{
    let f = match from {
        Some(f) => f,
        None => return Err(EnvelopeError::MissingFrom),
    };
    if is_groupchat {
        if let Some(u) = muc_user {
            return Ok(ParticipantId::User(bare_address(&u)));
        }
        if has_resource(&f) {
            Ok(ParticipantId::Occupant(f))
        } else {
            Err(EnvelopeError::ExpectedFullAddress)
        }
    } else {
        Ok(ParticipantId::User(bare_address(&f)))
    }
}

/// A decoded message stanza, before it becomes an event.
#[derive(Debug)]
pub struct Envelope {
    pub id: Option<String>,
    /// The id the archive or the server assigned, if any.
    pub stanza_id: Option<String>,
    pub from: Option<String>,
    pub to: Option<String>,
    /// The real address of a room occupant, when the room discloses it.
    pub muc_user: Option<String>,
    /// The delay timestamp, when the stanza carries one.
    pub delay: Option<i64>,
    pub content: StanzaContent,
}

/// Whether `r` is the event that `env` becomes with stanza id `stanza_id`,
/// timestamp `ts` and sender `from`.
pub open spec fn event_of(env: Envelope, stanza_id: Option<String>, ts: i64, from: ParticipantId, r: MessageLike) -> bool {
    &&& (env.id matches Some(id) ==> r.id.0 == id)
    &&& (env.id is None ==> is_synthetic(r.id.0@))
    &&& r.stanza_id == stanza_id
    &&& r.from == from
    &&& r.timestamp == ts
    &&& (env.to is None <==> r.to is None)
    &&& (env.to matches Some(t) ==> is_bare_of(t@, r.to->Some_0@))
    &&& payload_of(env.content, Ok(TargetedPayload { target: r.target, payload: r.payload }))
}

fn bare_opt(a: Option<String>) -> (r: Option<String>)
    ensures
        a is None <==> r is None,
        a matches Some(t) ==> is_bare_of(t@, r->Some_0@),
{
    match a {
        Some(t) => Some(bare_address(&t)),
        None => None,
    }
}

impl MessageLike {
    /// The event of a live or carbon-copied stanza: its own delay timestamp,
    /// else the time it was received.
    pub fn from_live(env: Envelope, received_at: i64) -> (r: Result<MessageLike, EnvelopeError>)
        ensures
            ({
                let ts = match env.delay {
                    Some(d) => d,
                    None => received_at,
                };
                match r {
                    Ok(m) => sender_of(env.content.is_groupchat, env.from, env.muc_user, Ok(m.from))
                        && event_of(env, env.stanza_id, ts, m.from, m),
                    Err(e) => (sender_of(env.content.is_groupchat, env.from, env.muc_user, Err(e)))
                        || (e == EnvelopeError::NoPayload && payload_of(
                        env.content,
                        Err(MessageLikeError::NoPayload),
                    )),
                }
            }),
            (exists|p: ParticipantId|
                sender_of(env.content.is_groupchat, env.from, env.muc_user, Ok(p))) && !payload_of(
                env.content,
                Err(MessageLikeError::NoPayload),
            ) ==> r is Ok,
    {
        let ghost env0 = env;
        let timestamp = match env.delay {
            Some(d) => d,
            None => received_at,
        };
        let sender = resolve_sender(env.content.is_groupchat, env.from, env.muc_user);
        let from = match sender {
            Ok(p) => p,
            Err(e) => return Err(e),
        };
        let tpr = TargetedPayload::from_stanza(env.content);
        let tp = match tpr {
            Ok(tp) => tp,
            Err(_) => return Err(EnvelopeError::NoPayload),
        };
        let ghost tp0 = tp;
        let id = MessageLikeId::new(env.id);
        let r = MessageLike {
            id,
            stanza_id: env.stanza_id,
            target: tp.target,
            to: bare_opt(env.to),
            from,
            timestamp,
            payload: tp.payload,
        };
        proof {
            assert(TargetedPayload { target: r.target, payload: r.payload } == tp0);
            assert(sender_of(env0.content.is_groupchat, env0.from, env0.muc_user, Ok(r.from)));
            assert(event_of(env0, env0.stanza_id, timestamp, r.from, r));
        }
        Ok(r)
    }

    /// The event of an archived stanza, under its archive id; the delay
    /// timestamp is required.
    pub fn from_archive(archive_id: String, env: Envelope) -> (r: Result<MessageLike, EnvelopeError>)
        ensures
            payload_of(env.content, Err(MessageLikeError::NoPayload)) ==> r == Err::<
                MessageLike,
                EnvelopeError,
            >(EnvelopeError::NoPayload),
            !payload_of(env.content, Err(MessageLikeError::NoPayload)) ==> match r {
                Ok(m) => env.delay is Some && sender_of(
                    env.content.is_groupchat,
                    env.from,
                    env.muc_user,
                    Ok(m.from),
                ) && event_of(env, Some(archive_id), env.delay->Some_0, m.from, m),
                Err(e) => sender_of(env.content.is_groupchat, env.from, env.muc_user, Err(e)) || (e
                    == EnvelopeError::MissingDelay && env.delay is None),
            },
            !payload_of(env.content, Err(MessageLikeError::NoPayload)) && env.delay is Some && (
            exists|p: ParticipantId|
                sender_of(env.content.is_groupchat, env.from, env.muc_user, Ok(p))) ==> r is Ok,
    {
        let ghost env0 = env;
        let is_groupchat = env.content.is_groupchat;
        let tpr = TargetedPayload::from_stanza(env.content);
        let tp = match tpr {
            Ok(tp) => tp,
            Err(_) => return Err(EnvelopeError::NoPayload),
        };
        let ghost tp0 = tp;
        let sender = resolve_sender(is_groupchat, env.from, env.muc_user);
        let from = match sender {
            Ok(p) => p,
            Err(e) => return Err(e),
        };
        let timestamp = match env.delay {
            Some(d) => d,
            None => return Err(EnvelopeError::MissingDelay),
        };
        let id = MessageLikeId::new(env.id);
        let r = MessageLike {
            id,
            stanza_id: Some(archive_id),
            target: tp.target,
            to: bare_opt(env.to),
            from,
            timestamp,
            payload: tp.payload,
        };
        proof {
            assert(TargetedPayload { target: r.target, payload: r.payload } == tp0);
            assert(sender_of(env0.content.is_groupchat, env0.from, env0.muc_user, Ok(r.from)));
            assert(event_of(env0, Some(archive_id), timestamp, r.from, r));
        }
        Ok(r)
    }
}

} // verus!
