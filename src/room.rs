//! Rooms: their state as the messaging core sees it, and the decisions that
//! the per-room messaging operations make.

use std::marker::PhantomData;
use std::sync::Arc;

use itertools::Itertools;
use vstd::prelude::*;

use crate::message::{opt_view, string_views, Message};
use crate::message_like::{
    before_char, MessageLike, MessageLikeBody, MessageLikeId, MessageTargetId, ParticipantId, Payload,
};

verus! {

/// The address of a conversation: a user (one-to-one chat) or a
/// multi-user room.
#[derive(Debug)]
pub enum RoomId {
    User(String),
    Muc(String),
}

/// What kind of conversation a room is.
#[derive(Debug, Clone, Copy, PartialEq, Eq, Structural)]
pub enum RoomType {
    DirectMessage,
    Group,
    PrivateChannel,
    PublicChannel,
    Generic,
}

/// Where a room stands in its lifecycle.
#[derive(Debug, Clone, Copy, PartialEq, Eq, Structural)]
pub enum RoomState {
    Pending,
    Connecting,
    Connected,
    Disconnected,
}

/// A reference to a message of the log.
#[derive(Debug)]
pub struct MessageRef {
    pub id: String,
    pub timestamp: i64,
}

/// Per-room state that is synchronised between the user's devices.
#[derive(Debug)]
pub struct SyncedRoomSettings {
    pub last_read_message: Option<MessageRef>,
    pub encryption_enabled: bool,
}

/// A participant of a room.
#[derive(Debug)]
pub struct Participant {
    pub id: ParticipantId,
    pub name: Option<String>,
    /// The participant's user address, when known.
    pub real_id: Option<String>,
    pub is_self: bool,
}

/// What the embedder learns of a participant.
#[derive(Debug)]
pub struct ParticipantInfo {
    pub id: ParticipantId,
    pub name: Option<String>,
    pub is_self: bool,
}

/// The shared state of a room.
#[derive(Debug)]
pub struct RoomInner {
    pub room_id: RoomId,
    pub room_type: RoomType,
    pub state: RoomState,
    pub name: Option<String>,
    pub description: Option<String>,
    pub topic: Option<String>,
    pub user_nickname: String,
    pub participants: Vec<Participant>,
    pub settings: SyncedRoomSettings,
}

/// Marker of one-to-one conversations.
pub struct DirectMessage;

/// Marker of groups.
pub struct Group;

/// Marker of private channels.
pub struct PrivateChannel;

/// Marker of public channels.
pub struct PublicChannel;

/// Marker of a room of any kind.
pub struct Generic;

/// Kinds that are channels.
pub trait Channel {}

/// Kinds whose topic can be set.
pub trait HasTopic {}

/// Kinds that can be renamed.
pub trait HasMutableName {}

/// Kinds hosted by a multi-user room service.
pub trait MucRoom {}

impl Channel for PrivateChannel {}

impl Channel for PublicChannel {}

impl HasTopic for Group {}

impl HasTopic for PrivateChannel {}

impl HasTopic for PublicChannel {}

impl HasTopic for Generic {}

impl HasMutableName for PrivateChannel {}

impl HasMutableName for PublicChannel {}

impl HasMutableName for Generic {}

impl MucRoom for Group {}

impl MucRoom for PrivateChannel {}

impl MucRoom for PublicChannel {}

impl MucRoom for Generic {}

/// Relies on `Arc::clone`: another pointer to the same value.
#[verifier::external_body]
fn share(inner: &Arc<RoomInner>) -> (r: Arc<RoomInner>)
    ensures
        r == *inner,
{
    Arc::clone(inner)
}

/// A room, typed by its kind.
pub struct Room<Kind> {
    pub inner: Arc<RoomInner>,
    pub kind: PhantomData<Kind>,
}

impl<Kind> Room<Kind> {
    /// Wraps shared room state.
    pub fn new(inner: Arc<RoomInner>) -> (r: Self)
        ensures
            r.inner == inner,
    {
        Room { inner, kind: PhantomData }
    }

    /// The same room, without its kind.
    pub fn to_generic(&self) -> (r: Room<Generic>)
        ensures
            r.inner == self.inner,
    {
        Room { inner: share(&self.inner), kind: PhantomData }
    }

    pub fn jid(&self) -> (r: &RoomId)
        ensures
            r == &self.inner.room_id,
    {
        &self.inner.room_id
    }

    pub fn state(&self) -> (r: RoomState)
        ensures
            r == self.inner.state,
    {
        self.inner.state
    }

    pub fn name(&self) -> (r: Option<String>)
        ensures
            r == self.inner.name,
    {
        clone_opt(&self.inner.name)
    }

    pub fn description(&self) -> (r: Option<String>)
        ensures
            r == self.inner.description,
    {
        clone_opt(&self.inner.description)
    }

    pub fn user_nickname(&self) -> (r: &String)
        ensures
            r == &self.inner.user_nickname,
    {
        &self.inner.user_nickname
    }

    pub fn subject(&self) -> (r: Option<String>)
        ensures
            r == self.inner.topic,
    {
        clone_opt(&self.inner.topic)
    }

    /// The participants, as the embedder sees them.
    pub fn participants(&self) -> (r: Vec<ParticipantInfo>)
        ensures
            r@.len() == self.inner.participants@.len(),
            forall|i: int|
                0 <= i < r@.len() ==> #[trigger] r@[i].id == self.inner.participants@[i].id
                    && r@[i].name == self.inner.participants@[i].name && r@[i].is_self
                    == self.inner.participants@[i].is_self,
    {
        let ps = &self.inner.participants;
        let mut r: Vec<ParticipantInfo> = Vec::new();
        let mut i: usize = 0;
        while i < ps.len()
            invariant
                i <= ps.len(),
                r@.len() == i,
                forall|j: int|
                    0 <= j < i ==> #[trigger] r@[j].id == ps@[j].id && r@[j].name == ps@[j].name
                        && r@[j].is_self == ps@[j].is_self,
            decreases ps.len() - i,
        {
            let p = &ps[i];
            r.push(ParticipantInfo { id: p.id.duplicate(), name: clone_opt(&p.name), is_self: p.is_self });
            i += 1;
        }
        r
    }

    pub fn encryption_enabled(&self) -> (r: bool)
        ensures
            r == self.inner.settings.encryption_enabled,
    {
        self.inner.settings.encryption_enabled
    }
}

impl<Kind: MucRoom> Room<Kind> {
    /// The address of the multi-user room.
    pub fn muc_id(&self) -> (r: &String)
        requires
            self.inner.room_id is Muc,
        ensures
            r == &self.inner.room_id->Muc_0,
    {
        match &self.inner.room_id {
            RoomId::Muc(id) => id,
            RoomId::User(_) => vstd::pervasive::unreached(),
        }
    }
}

fn clone_opt(o: &Option<String>) -> (r: Option<String>)
    ensures
        r == *o,
{
    match o {
        Some(s) => Some(s.clone()),
        None => None,
    }
}

/// The text of a message to send, with its mentions.
#[derive(Debug)]
pub struct SendMessageBody {
    pub text: String,
    pub mentions: Vec<crate::message_like::Mention>,
}

/// A message the user wants to send.
#[derive(Debug)]
pub struct SendMessageRequest {
    pub body: Option<SendMessageBody>,
    pub attachments: Vec<crate::message_like::Attachment>,
}

impl SendMessageRequest {
    /// Whether there is nothing to send.
    pub open spec fn is_empty_spec(&self) -> bool {
        (self.body is None || self.body->Some_0.text@.len() == 0) && self.attachments@.len() == 0
    }

    pub fn is_empty(&self) -> (r: bool)
        ensures
            r == self.is_empty_spec(),
    {
        let no_text = match &self.body {
            Some(b) => b.text.as_str().unicode_len() == 0,
            None => true,
        };
        no_text && self.attachments.len() == 0
    }
}

/// What sending a request amounts to.
#[derive(Debug, PartialEq, Eq, Structural)]
pub enum SendAction {
    /// The request is empty and is dropped.
    Ignore,
    /// A slash command that switches encryption on or off; a transient
    /// system message confirms it and nothing goes on the wire.
    SetEncryption(bool),
    /// The request is sent.
    Send,
}

pub open spec fn omemo_enable() -> Seq<char> {
    seq!['/', 'o', 'm', 'e', 'm', 'o', ' ', 'e', 'n', 'a', 'b', 'l', 'e']
}

pub open spec fn omemo_disable() -> Seq<char> {
    seq!['/', 'o', 'm', 'e', 'm', 'o', ' ', 'd', 'i', 's', 'a', 'b', 'l', 'e']
}

/// Whether the request's text is `t`.
pub open spec fn text_is(request: &SendMessageRequest, t: Seq<char>) -> bool {
    request.body matches Some(b) && b.text@ == t
}

/// Decides what sending `request` amounts to.
pub fn send_action(request: &SendMessageRequest) -> (r: SendAction)
    ensures
        request.is_empty_spec() ==> r == SendAction::Ignore,
        !request.is_empty_spec() && text_is(request, omemo_enable()) ==> r
            == SendAction::SetEncryption(true),
        !request.is_empty_spec() && text_is(request, omemo_disable()) ==> r
            == SendAction::SetEncryption(false),
        !request.is_empty_spec() && !text_is(request, omemo_enable()) && !text_is(
            request,
            omemo_disable(),
        ) ==> r == SendAction::Send,
{
    if request.is_empty() {
        return SendAction::Ignore;
    }
    match &request.body {
        Some(b) => {
            let enable = "/omemo enable";
            let disable = "/omemo disable";
            proof {
                reveal_strlit("/omemo enable");
                reveal_strlit("/omemo disable");
                assert(enable@ =~= omemo_enable());
                assert(disable@ =~= omemo_disable());
            }
            if same_text(b.text.as_str(), enable) {
                SendAction::SetEncryption(true)
            } else if same_text(b.text.as_str(), disable) {
                SendAction::SetEncryption(false)
            } else {
                SendAction::Send
            }
        },
        None => SendAction::Send,
    }
}

/// The confirmation shown after the encryption slash command.
pub fn encryption_notice(enabled: bool) -> (r: String)
    ensures
        enabled ==> r@ == "OMEMO is now enabled."@,
        !enabled ==> r@ == "OMEMO is now disabled."@,
{
    if enabled {
        "OMEMO is now enabled.".to_string()
    } else {
        "OMEMO is now disabled.".to_string()
    }
}

fn same_text(a: &str, b: &str) -> (r: bool)
    ensures
        r == (a@ == b@),
{
    let n = a.unicode_len();
    if n != b.unicode_len() {
        return false;
    }
    let mut i: usize = 0;
    while i < n
        invariant
            i <= n,
            n == a@.len(),
            n == b@.len(),
            forall|j: int| 0 <= j < i ==> a@[j] == b@[j],
        decreases n - i,
    {
        if a.get_char(i) != b.get_char(i) {
            return false;
        }
        i += 1;
    }
    assert(a@ =~= b@);
    true
}

pub open spec fn ref_view(r: Option<MessageRef>) -> Option<(Seq<char>, i64)> {
    match r {
        Some(m) => Some((m.id@, m.timestamp)),
        None => None,
    }
}

/// Marks `last` as the last read message. Returns the ids whose read marker
/// changed: none when `last` already was the last read message, else the
/// former one (if any) and `last`.
pub fn mark_as_read(settings: &mut SyncedRoomSettings, last: MessageRef) -> (r: Vec<String>)
    ensures
        ref_view(old(settings).last_read_message) == ref_view(Some(last)) ==> r@.len() == 0
            && *final(settings) == *old(settings),
        ref_view(old(settings).last_read_message) != ref_view(Some(last)) ==> {
            &&& final(settings).last_read_message == Some(last)
            &&& final(settings).encryption_enabled == old(settings).encryption_enabled
            &&& string_views(r@) == match old(settings).last_read_message {
                Some(f) => seq![f.id@, last.id@],
                None => seq![last.id@],
            }
        },
{
    let same = match &settings.last_read_message {
        Some(f) => f.id == last.id && f.timestamp == last.timestamp,
        None => false,
    };
    let mut r: Vec<String> = Vec::new();
    if same {
        return r;
    }
    let former = settings.last_read_message.take();
    match former {
        Some(f) => r.push(f.id),
        None => {},
    }
    r.push(last.id.clone());
    settings.last_read_message = Some(last);
    assert(string_views(r@) =~= match old(settings).last_read_message {
        Some(f) => seq![f.id@, last.id@],
        None => seq![last.id@],
    });
    r
}

impl SyncedRoomSettings {
    /// An identical copy.
    pub fn duplicate(&self) -> (r: Self)
        ensures
            r == *self,
    {
        SyncedRoomSettings {
            last_read_message: match &self.last_read_message {
                Some(m) => Some(MessageRef { id: m.id.clone(), timestamp: m.timestamp }),
                None => None,
            },
            encryption_enabled: self.encryption_enabled,
        }
    }
}

impl<Kind> Room<Kind> {
    /// The settings after switching encryption on or off, worked out on a
    /// copy: `None` when nothing changes, so that nothing is stored.
    pub fn encryption_update(&self, enabled: bool) -> (r: Option<SyncedRoomSettings>)
        ensures
            self.inner.settings.encryption_enabled == enabled ==> r is None,
            self.inner.settings.encryption_enabled != enabled ==> r == Some(
                SyncedRoomSettings { encryption_enabled: enabled, ..self.inner.settings },
            ),
    {
        if self.inner.settings.encryption_enabled == enabled {
            return None;
        }
        let mut updated = self.inner.settings.duplicate();
        updated.encryption_enabled = enabled;
        Some(updated)
    }

    /// Whether `message` is the last message the user read here.
    pub fn is_last_read(&self, message: &Message) -> (r: bool)
        ensures
            r == (opt_view(message.remote_id) == match self.inner.settings.last_read_message {
                Some(m) => Some(m.id@),
                None => None,
            }),
    {
        match (&message.remote_id, &self.inner.settings.last_read_message) {
            (Some(a), Some(m)) => *a == m.id,
            (None, None) => true,
            _ => false,
        }
    }
}

/// Whether messages of a room of this type are encrypted when the room has
/// encryption enabled.
pub open spec fn encrypts(t: RoomType, enabled: bool) -> bool {
    enabled && (t is DirectMessage || t is Group || t is PrivateChannel)
}

/// The user addresses of the other participants whose address is known.
pub open spec fn other_real_ids(ps: Seq<Participant>) -> Seq<Seq<char>>
    decreases ps.len(),
{
    if ps.len() == 0 {
        Seq::empty()
    } else {
        let p = ps.last();
        let prev = other_real_ids(ps.drop_last());
        if !p.is_self && p.real_id is Some {
            prev.push(p.real_id->Some_0@)
        } else {
            prev
        }
    }
}

/// Whether `a` comes before `b` or equals it, comparing characters by code
/// point; on UTF-8 text this is the byte order that `String` compares by.
pub open spec fn text_le(a: Seq<char>, b: Seq<char>) -> bool
    decreases a.len(),
{
    if a.len() == 0 {
        true
    } else if b.len() == 0 {
        false
    } else if a[0] != b[0] {
        (a[0] as u32) < (b[0] as u32)
    } else {
        text_le(a.drop_first(), b.drop_first())
    }
}

/// Relies on `Itertools::sorted`: the same strings, in ascending order.
#[verifier::external_body]
fn sorted_strings(v: Vec<String>) -> (r: Vec<String>)
    ensures
        string_views(r@).to_multiset() == string_views(v@).to_multiset(),
        forall|i: int, j: int| 0 <= i < j < r@.len() ==> text_le(r@[i]@, r@[j]@),
{
    v.into_iter().sorted().collect()
}

impl<Kind> Room<Kind> {
    /// The users a message is encrypted for, in ascending order, or `None`
    /// when messages of this room go out in plain text.
    pub fn encryption_recipients(&self) -> (r: Option<Vec<String>>)
        ensures
            r is Some <==> encrypts(self.inner.room_type, self.inner.settings.encryption_enabled),
            r matches Some(v) ==> string_views(v@).to_multiset() == other_real_ids(
                self.inner.participants@,
            ).to_multiset() && forall|i: int, j: int|
                0 <= i < j < v@.len() ==> text_le(v@[i]@, v@[j]@),
    {
        let t = self.inner.room_type;
        let on = self.inner.settings.encryption_enabled && match t {
            RoomType::DirectMessage | RoomType::Group | RoomType::PrivateChannel => true,
            _ => false,
        };
        if !on {
            return None;
        }
        let ps = &self.inner.participants;
        let mut r: Vec<String> = Vec::new();
        let mut i: usize = 0;
        while i < ps.len()
            invariant
                i <= ps.len(),
                string_views(r@) == other_real_ids(ps@.take(i as int)),
            decreases ps.len() - i,
        {
            assert(ps@.take(i as int + 1).drop_last() =~= ps@.take(i as int));
            let p = &ps[i];
            if !p.is_self {
                match &p.real_id {
                    Some(id) => {
                        let ghost prev = r@;
                        r.push(id.clone());
                        assert(string_views(r@) =~= string_views(prev).push(id@));
                    },
                    None => {},
                }
            }
            i += 1;
        }
        assert(ps@.take(ps.len() as int) =~= ps@);
        Some(sorted_strings(r))
    }

    /// Where a reaction to `message` goes: to its client id in a chat with a
    /// user, to its server id in a multi-user room; `None` for a room message
    /// without a server id.
    pub fn reaction_target(&self, message: &Message, id: &String) -> (r: Option<String>)
        ensures
            self.inner.room_id is User ==> r == Some(*id),
            self.inner.room_id is Muc ==> r == message.server_id,
    {
        match &self.inner.room_id {
            RoomId::User(_) => Some(id.clone()),
            RoomId::Muc(_) => clone_opt(&message.server_id),
        }
    }

    /// The participant with id `id`, if any.
    pub fn participant(&self, id: &ParticipantId) -> (r: Option<&Participant>)
        ensures
            r matches Some(p) ==> p.id@ == id@ && exists|j: int|
                0 <= j < self.inner.participants@.len() && self.inner.participants@[j] == *p
                    && forall|k: int| 0 <= k < j ==> self.inner.participants@[k].id@ != id@,
            r is None ==> forall|j: int|
                0 <= j < self.inner.participants@.len() ==> self.inner.participants@[j].id@ != id@,
    {
        let ps = &self.inner.participants;
        let mut i: usize = 0;
        while i < ps.len()
            invariant
                i <= ps.len(),
                ps@ == self.inner.participants@,
                forall|j: int| 0 <= j < i ==> ps@[j].id@ != id@,
            decreases ps.len() - i,
        {
            if ps[i].id.same_as(id) {
                assert(self.inner.participants@[i as int] == ps@[i as int]);
                return Some(&ps[i]);
            }
            i += 1;
        }
        None
    }
}

/// The user a participant id names directly.
pub open spec fn user_of(id: ParticipantId) -> Option<String> {
    match id {
        ParticipantId::User(u) => Some(u),
        ParticipantId::Occupant(_) => None,
    }
}

/// How the sender of a message is shown.
#[derive(Debug)]
pub struct MessageSender {
    pub id: ParticipantId,
    pub name: String,
}

/// The first step of resolving a sender: the id to show, the name the room
/// knows, and the user whose profile name to look up when it knows none.
#[derive(Debug)]
pub struct SenderLookup {
    pub sender_id: ParticipantId,
    pub room_name: Option<String>,
    pub profile_user: Option<String>,
}

impl<Kind> Room<Kind> {
    /// The user a sender stands for: the real address of the participant
    /// when the room knows one, else the sender itself when it is a user.
    pub open spec fn real_user_of(&self, id: ParticipantId) -> Option<String> {
        match self.participant_spec(id@) {
            Some(p) if p.real_id is Some => p.real_id,
            _ => user_of(id),
        }
    }

    /// The name the room knows for a sender.
    pub open spec fn room_name_of(&self, id: ParticipantId) -> Option<String> {
        match self.participant_spec(id@) {
            Some(p) => p.name,
            None => None,
        }
    }

    /// Starts resolving the sender `id`: a participant's real address is
    /// preferred, a user id stands for itself.
    #[verifier::rlimit(40)]
    pub fn sender_lookup(&self, id: &ParticipantId) -> (r: SenderLookup)
        ensures
            r.sender_id == match self.real_user_of(*id) {
                Some(u) => ParticipantId::User(u),
                None => *id,
            },
            r.room_name == self.room_name_of(*id),
            r.profile_user == if r.room_name is Some {
                None
            } else {
                self.real_user_of(*id)
            },
    {
        let found = self.participant(id);
        proof {
            if found is Some {
                let p = *found->Some_0;
                let ps = self.inner.participants@;
                self.lemma_participant_spec(id@, p);
            }
        }
        let (name, real_user) = match found {
            Some(p) => (clone_opt(&p.name), clone_opt(&p.real_id)),
            None => (None, None),
        };
        let real_user = match real_user {
            Some(u) => Some(u),
            None => match id {
                ParticipantId::User(u) => Some(u.clone()),
                ParticipantId::Occupant(_) => None,
            },
        };
        let sender_id = match &real_user {
            Some(u) => ParticipantId::User(u.clone()),
            None => id.duplicate(),
        };
        let profile_user = if name.is_some() {
            None
        } else {
            real_user
        };
        SenderLookup { sender_id, room_name: name, profile_user }
    }

    /// The first participant with the given id.
    pub open spec fn participant_spec(&self, id: (bool, Seq<char>)) -> Option<Participant> {
        let ps = self.inner.participants@;
        if exists|j: int| 0 <= j < ps.len() && ps[j].id@ == id {
            let j = choose|j: int|
                0 <= j < ps.len() && ps[j].id@ == id && forall|k: int| 0 <= k < j ==> ps[k].id@ != id;
            Some(ps[j])
        } else {
            None
        }
    }

    proof fn lemma_participant_spec(&self, id: (bool, Seq<char>), p: Participant)
        requires
            exists|j: int|
                0 <= j < self.inner.participants@.len() && self.inner.participants@[j] == p && p.id@ == id
                    && forall|k: int| 0 <= k < j ==> self.inner.participants@[k].id@ != id,
        ensures
            self.participant_spec(id) == Some(p),
    {
        let ps = self.inner.participants@;
        let j = choose|j: int|
            0 <= j < ps.len() && ps[j] == p && p.id@ == id && forall|k: int| 0 <= k < j ==> ps[k].id@ != id;
        assert(ps[j].id@ == id);
        let c = choose|c: int|
            0 <= c < ps.len() && ps[c].id@ == id && forall|k: int| 0 <= k < c ==> ps[k].id@ != id;
        assert(c == j);
    }
}

/// The part of an address after the last `sep`, or all of it.
fn after_last_char(s: &String, sep: char) -> (r: String)
    ensures
        r@.len() <= s@.len(),
        r@ == s@.skip(s@.len() - r@.len()),
        r@.len() < s@.len() ==> s@[s@.len() - r@.len() - 1] == sep,
        forall|j: int| 0 <= j < r@.len() ==> r@[j] != sep,
{
    let t = s.as_str();
    let n = t.unicode_len();
    let mut i: usize = n;
    while i > 0 && t.get_char(i - 1) != sep
        invariant
            i <= n,
            n == s@.len(),
            t@ == s@,
            forall|j: int| i <= j < n ==> s@[j] != sep,
        decreases i,
    {
        i -= 1;
    }
    let r = t.substring_char(i, n);
    assert(r@ =~= s@.skip(i as int));
    r.to_owned()
}

/// The name shown for a participant that neither the room nor the profiles
/// name: the local part of a user address, the nickname of an occupant.
pub fn fallback_name(id: &ParticipantId) -> (r: String)
    ensures
        is_fallback_name(*id, r@),
{
    match id {
        ParticipantId::User(u) => before_char(u, '@'),
        ParticipantId::Occupant(o) => after_last_char(o, '/'),
    }
}

impl SenderLookup {
    /// Completes the resolution with the profile name found for
    /// `profile_user`, if any.
    pub fn finish(self, sender: &ParticipantId, profile_name: Option<String>) -> (r: MessageSender)
        ensures
            r.id == self.sender_id,
            self.room_name is Some ==> r.name == self.room_name->Some_0,
            self.room_name is None && self.profile_user is Some && profile_name is Some ==> r.name
                == profile_name->Some_0,
            self.room_name is None && !(self.profile_user is Some && profile_name is Some)
                ==> is_fallback_name(*sender, r.name@),
    {
        let name = match self.room_name {
            Some(n) => n,
            None => match (&self.profile_user, profile_name) {
                (Some(_), Some(n)) => n,
                _ => fallback_name(sender),
            },
        };
        MessageSender { id: self.sender_id, name }
    }
}

/// Whether `n` is the fallback name of a participant: the local part of a
/// user address (up to the first `@`), the nickname of an occupant (after
/// the last `/`).
pub open spec fn is_fallback_name(id: ParticipantId, n: Seq<char>) -> bool {
    match id {
        ParticipantId::User(u) => n.len() <= u@.len() && n == u@.take(n.len() as int) && (n.len()
            < u@.len() ==> u@[n.len() as int] == '@') && !n.contains('@'),
        ParticipantId::Occupant(o) => n.len() <= o@.len() && n == o@.skip(o@.len() - n.len()) && (
        n.len() < o@.len() ==> o@[o@.len() - n.len() - 1] == '/') && !n.contains('/'),
    }
}

/// Whether `b` is the body of a request with `body`: its text (empty without one), as
/// raw text and html, with its mentions.
pub open spec fn body_of_request(body: Option<SendMessageBody>, b: MessageLikeBody) -> bool {
    match body {
        Some(body) => b.raw == body.text && b.html@ == body.text@ && b.mentions == body.mentions,
        None => b.raw@.len() == 0 && b.html@.len() == 0 && b.mentions@.len() == 0,
    }
}

fn body_from_request(body: Option<SendMessageBody>) -> (r: MessageLikeBody)
    ensures
        body_of_request(body, r),
{
    match body {
        Some(b) => {
            let html = b.text.clone();
            MessageLikeBody { raw: b.text, html, mentions: b.mentions }
        },
        None => MessageLikeBody { raw: String::new(), html: String::new(), mentions: Vec::new() },
    }
}

/// The event recorded when the local user sends `request` as message `id`:
/// the local echo, kept unencrypted.
pub fn sent_message_event(id: String, user: String, now: i64, request: SendMessageRequest) -> (r: MessageLike)
    ensures
        r.id.0 == id,
        r.stanza_id is None && r.target is None && r.to is None,
        r.from == ParticipantId::User(user),
        r.timestamp == now,
        r.payload matches Payload::Message { body, attachments, encryption_info, is_transient }
            && body_of_request(request.body, body) && attachments == request.attachments
            && encryption_info is None && !is_transient,
{
    let ghost req = request;
    let body = body_from_request(request.body);
    proof {
        assert(body_of_request(req.body, body));
    }
    MessageLike {
        id: MessageLikeId(id),
        stanza_id: None,
        target: None,
        to: None,
        from: ParticipantId::User(user),
        timestamp: now,
        payload: Payload::Message {
            body,
            attachments: request.attachments,
            encryption_info: None,
            is_transient: false,
        },
    }
}

/// The event recorded when the local user edits message `target` with
/// `request`; the correction itself has id `id`.
pub fn correction_event(
    id: String,
    target: String,
    user: String,
    now: i64,
    request: SendMessageRequest,
) -> (r: MessageLike)
    ensures
        r.id.0 == id,
        r.stanza_id is None && r.to is None,
        r.target == Some(MessageTargetId::RemoteId(target)),
        r.from == ParticipantId::User(user),
        r.timestamp == now,
        r.payload matches Payload::Correction { body, attachments, encryption_info }
            && body_of_request(request.body, body) && attachments == request.attachments
            && encryption_info is None,
{
    let ghost req = request;
    let body = body_from_request(request.body);
    proof {
        assert(body_of_request(req.body, body));
    }
    MessageLike {
        id: MessageLikeId(id),
        stanza_id: None,
        target: Some(MessageTargetId::RemoteId(target)),
        to: None,
        from: ParticipantId::User(user),
        timestamp: now,
        payload: Payload::Correction {
            body,
            attachments: request.attachments,
            encryption_info: None,
        },
    }
}

/// The address that system messages are shown from.
pub open spec fn system_sender() -> Seq<char> {
    "prose-bot@prose.org"@
}

/// A transient message shown in the room by the client itself.
pub fn system_message_event(id: String, now: i64, text: String) -> (r: MessageLike)
    ensures
        r.id.0 == id,
        r.stanza_id is None && r.target is None && r.to is None,
        r.from@ == (false, system_sender()),
        r.timestamp == now,
        r.payload matches Payload::Message { body, attachments, encryption_info, is_transient }
            && body.raw == text && body.html@ == text@ && body.mentions@.len() == 0
            && attachments@.len() == 0 && encryption_info is None && is_transient,
{
    let html = text.clone();
    MessageLike {
        id: MessageLikeId(id),
        stanza_id: None,
        target: None,
        to: None,
        from: ParticipantId::User("prose-bot@prose.org".to_string()),
        timestamp: now,
        payload: Payload::Message {
            body: MessageLikeBody { raw: text, html, mentions: Vec::new() },
            attachments: Vec::new(),
            encryption_info: None,
            is_transient: true,
        },
    }
}

} // verus!
