//! Logical messages and the reducer that folds a log of message-like events
//! into them.

use vstd::prelude::*;

use crate::id_index::{index_entries, index_of, insert_full, new_index};
use crate::message_like::{
    Attachment, Mention, MessageLike, MessageTargetId, ParticipantId, Payload,
};

verus! {

/// An emoji reaction and the participants that reacted with it.
#[derive(Debug, Clone)]
pub struct Reaction {
    pub emoji: String,
    pub from: Vec<ParticipantId>,
}

/// The view of a participant: whether it is an occupant, and its address.
pub type ParticipantView = (bool, Seq<char>);

/// The view of a reaction: its emoji and the views of its participants.
pub type ReactionView = (Seq<char>, Seq<ParticipantView>);

pub open spec fn participant_views(ps: Seq<ParticipantId>) -> Seq<ParticipantView> {
    ps.map_values(|p: ParticipantId| p@)
}

pub open spec fn reaction_views(rs: Seq<Reaction>) -> Seq<ReactionView> {
    rs.map_values(|r: Reaction| r@)
}

pub open spec fn string_views(es: Seq<String>) -> Seq<Seq<char>> {
    es.map_values(|e: String| e@)
}

pub open spec fn opt_view(o: Option<String>) -> Option<Seq<char>> {
    match o {
        Some(s) => Some(s@),
        None => None,
    }
}

impl View for Reaction {
    type V = ReactionView;

    open spec fn view(&self) -> ReactionView {
        (self.emoji@, participant_views(self.from@))
    }
}

/// The text of a logical message.
#[derive(Debug, Clone)]
pub struct Body {
    pub raw: String,
    pub html: String,
}

/// A logical message: a message event with all modifiers applied.
#[derive(Debug, Clone)]
pub struct Message {
    pub remote_id: Option<String>,
    pub server_id: Option<String>,
    pub from: ParticipantId,
    pub body: Body,
    pub timestamp: i64,
    pub is_read: bool,
    pub is_edited: bool,
    pub is_delivered: bool,
    pub is_transient: bool,
    pub is_encrypted: bool,
    pub reactions: Vec<Reaction>,
    pub attachments: Vec<Attachment>,
    pub mentions: Vec<Mention>,
}

/// The mathematical value of a logical message.
pub struct MessageView {
    pub remote_id: Option<Seq<char>>,
    pub server_id: Option<Seq<char>>,
    pub from: ParticipantView,
    pub raw: Seq<char>,
    pub html: Seq<char>,
    pub timestamp: i64,
    pub is_read: bool,
    pub is_edited: bool,
    pub is_delivered: bool,
    pub is_transient: bool,
    pub is_encrypted: bool,
    pub reactions: Seq<ReactionView>,
    pub attachments: Seq<Attachment>,
    pub mentions: Seq<Mention>,
}

impl View for Message {
    type V = MessageView;

    open spec fn view(&self) -> MessageView {
        MessageView {
            remote_id: opt_view(self.remote_id),
            server_id: opt_view(self.server_id),
            from: self.from@,
            raw: self.body.raw@,
            html: self.body.html@,
            timestamp: self.timestamp,
            is_read: self.is_read,
            is_edited: self.is_edited,
            is_delivered: self.is_delivered,
            is_transient: self.is_transient,
            is_encrypted: self.is_encrypted,
            reactions: reaction_views(self.reactions@),
            attachments: self.attachments@,
            mentions: self.mentions@,
        }
    }
}

pub open spec fn message_views(ms: Seq<Message>) -> Seq<MessageView> {
    ms.map_values(|m: Message| m@)
}

// ---------------------------------------------------------------------------
// Reaction sets
// ---------------------------------------------------------------------------

/// `es` without repeated items, each kept at its first position.
pub open spec fn distinct(es: Seq<Seq<char>>) -> Seq<Seq<char>>
    decreases es.len(),
{
    if es.len() == 0 {
        es
    } else {
        let d = distinct(es.drop_last());
        if d.contains(es.last()) {
            d
        } else {
            d.push(es.last())
        }
    }
}

/// `ps` without `p`.
pub open spec fn others(ps: Seq<ParticipantView>, p: ParticipantView) -> Seq<ParticipantView>
    decreases ps.len(),
{
    if ps.len() == 0 {
        ps
    } else if ps.last() != p {
        others(ps.drop_last(), p).push(ps.last())
    } else {
        others(ps.drop_last(), p)
    }
}

/// `es` without `e`.
pub open spec fn except(es: Seq<Seq<char>>, e: Seq<char>) -> Seq<Seq<char>>
    decreases es.len(),
{
    if es.len() == 0 {
        es
    } else if es.last() != e {
        except(es.drop_last(), e).push(es.last())
    } else {
        except(es.drop_last(), e)
    }
}

/// Walks the existing reactions in order against the emojis that `actor`
/// wants: a wanted emoji gains the actor and is crossed off, any other loses
/// the actor. Returns the updated reactions and the emojis not yet placed.
pub open spec fn scan_reactions(
    rs: Seq<ReactionView>,
    actor: ParticipantView,
    wanted: Seq<Seq<char>>,
) -> (Seq<ReactionView>, Seq<Seq<char>>)
    decreases rs.len(),
{
    if rs.len() == 0 {
        (Seq::empty(), wanted)
    } else {
        let (done, rest) = scan_reactions(rs.drop_last(), actor, wanted);
        let r = rs.last();
        if rest.contains(r.0) {
            let from = if r.1.contains(actor) {
                r.1
            } else {
                r.1.push(actor)
            };
            (done.push((r.0, from)), except(rest, r.0))
        } else {
            (done.push((r.0, others(r.1, actor))), rest)
        }
    }
}

/// The reactions that someone still holds.
pub open spec fn nonempty_only(rs: Seq<ReactionView>) -> Seq<ReactionView>
    decreases rs.len(),
{
    if rs.len() == 0 {
        rs
    } else if rs.last().1.len() > 0 {
        nonempty_only(rs.drop_last()).push(rs.last())
    } else {
        nonempty_only(rs.drop_last())
    }
}

/// The reactions after `actor` declared `emojis` as its full set of
/// reactions: reactions left with nobody are dropped, and each newly wanted
/// emoji is appended with the actor alone.
pub open spec fn folded_reactions(
    rs: Seq<ReactionView>,
    actor: ParticipantView,
    emojis: Seq<Seq<char>>,
) -> Seq<ReactionView> {
    let (done, rest) = scan_reactions(rs, actor, distinct(emojis));
    nonempty_only(done) + rest.map_values(
        |e: Seq<char>| (e, seq![actor]),
    )
}

/// Index of the first reaction with `emoji`, if there is one.
pub open spec fn first_with_emoji(rs: Seq<ReactionView>, emoji: Seq<char>) -> int {
    choose|i: int|
        0 <= i < rs.len() && rs[i].0 == emoji && forall|j: int| 0 <= j < i ==> rs[j].0 != emoji
}

/// Index of the first occurrence of `p` in `ps`.
pub open spec fn first_of<A>(ps: Seq<A>, p: A) -> int {
    choose|i: int| 0 <= i < ps.len() && ps[i] == p && forall|j: int| 0 <= j < i ==> ps[j] != p
}

/// The reactions after `user` toggled `emoji`: the first reaction with that
/// emoji gains or loses the user; without one a new reaction is appended.
pub open spec fn toggled_reactions(
    rs: Seq<ReactionView>,
    user: ParticipantView,
    emoji: Seq<char>,
) -> Seq<ReactionView> {
    if exists|i: int| 0 <= i < rs.len() && rs[i].0 == emoji {
        let i = first_with_emoji(rs, emoji);
        let f = rs[i].1;
        if f.contains(user) {
            rs.update(i, (emoji, f.remove(first_of(f, user))))
        } else {
            rs.update(i, (emoji, f.push(user)))
        }
    } else {
        rs.push((emoji, seq![user]))
    }
}

/// The emojis of the reactions that include `user`, in order.
pub open spec fn emojis_of(rs: Seq<ReactionView>, user: ParticipantView) -> Seq<Seq<char>>
    decreases rs.len(),
{
    if rs.len() == 0 {
        Seq::empty()
    } else if rs.last().1.contains(user) {
        emojis_of(rs.drop_last(), user).push(rs.last().0)
    } else {
        emojis_of(rs.drop_last(), user)
    }
}

fn copy_participants(ps: &Vec<ParticipantId>) -> (r: Vec<ParticipantId>)
    ensures
        r@ == ps@,
{
    let mut r: Vec<ParticipantId> = Vec::new();
    let mut i: usize = 0;
    while i < ps.len()
        invariant
            i <= ps.len(),
            r@ == ps@.take(i as int),
        decreases ps.len() - i,
    {
        r.push(ps[i].duplicate());
        i += 1;
        assert(r@ =~= ps@.take(i as int));
    }
    assert(ps@.take(ps.len() as int) =~= ps@);
    r
}

fn contains_participant(ps: &Vec<ParticipantId>, p: &ParticipantId) -> (r: bool)
    ensures
        r == participant_views(ps@).contains(p@),
{
    let mut i: usize = 0;
    while i < ps.len()
        invariant
            i <= ps.len(),
            forall|j: int| 0 <= j < i ==> ps@[j]@ != p@,
        decreases ps.len() - i,
    {
        if ps[i].same_as(p) {
            assert(participant_views(ps@)[i as int] == p@);
            return true;
        }
        i += 1;
    }
    false
}

fn without_participant(ps: &Vec<ParticipantId>, p: &ParticipantId) -> (r: Vec<ParticipantId>)
    ensures
        participant_views(r@) == others(participant_views(ps@), p@),
{
    let ghost pv = p@;
    let mut r: Vec<ParticipantId> = Vec::new();
    let mut i: usize = 0;
    while i < ps.len()
        invariant
            i <= ps.len(),
            pv == p@,
            participant_views(r@) == others(participant_views(ps@.take(i as int)), pv),
        decreases ps.len() - i,
    {
        let ghost prev = ps@.take(i as int);
        assert(participant_views(ps@.take(i as int + 1)) =~= participant_views(prev).push(
            ps@[i as int]@,
        ));
        assert(participant_views(ps@.take(i as int + 1)).drop_last() =~= participant_views(prev));
        if !ps[i].same_as(p) {
            r.push(ps[i].duplicate());
            assert(participant_views(r@) =~= participant_views(r@.drop_last()).push(
                ps@[i as int]@,
            ));
        }
        i += 1;
    }
    assert(ps@.take(ps.len() as int) =~= ps@);
    r
}

fn contains_emoji(es: &Vec<String>, e: &String) -> (r: bool)
    ensures
        r == string_views(es@).contains(e@),
{
    let mut i: usize = 0;
    while i < es.len()
        invariant
            i <= es.len(),
            forall|j: int| 0 <= j < i ==> es@[j]@ != e@,
        decreases es.len() - i,
    {
        if es[i] == *e {
            assert(string_views(es@)[i as int] == e@);
            return true;
        }
        i += 1;
    }
    false
}

fn without_emoji(es: Vec<String>, e: &String) -> (r: Vec<String>)
    ensures
        string_views(r@) == except(string_views(es@), e@),
{
    let ghost ev = e@;
    let mut r: Vec<String> = Vec::new();
    let mut i: usize = 0;
    while i < es.len()
        invariant
            i <= es.len(),
            ev == e@,
            string_views(r@) == except(string_views(es@.take(i as int)), ev),
        decreases es.len() - i,
    {
        let ghost prev = es@.take(i as int);
        assert(string_views(es@.take(i as int + 1)) =~= string_views(prev).push(es@[i as int]@));
        assert(string_views(es@.take(i as int + 1)).drop_last() =~= string_views(prev));
        if es[i] != *e {
            r.push(es[i].clone());
            assert(string_views(r@) =~= string_views(r@.drop_last()).push(es@[i as int]@));
        }
        i += 1;
    }
    assert(es@.take(es.len() as int) =~= es@);
    r
}

fn distinct_emojis(es: Vec<String>) -> (r: Vec<String>)
    ensures
        string_views(r@) == distinct(string_views(es@)),
{
    let mut r: Vec<String> = Vec::new();
    let mut i: usize = 0;
    while i < es.len()
        invariant
            i <= es.len(),
            string_views(r@) == distinct(string_views(es@.take(i as int))),
        decreases es.len() - i,
    {
        let ghost prev = es@.take(i as int);
        assert(string_views(es@.take(i as int + 1)) =~= string_views(prev).push(es@[i as int]@));
        assert(string_views(es@.take(i as int + 1)).drop_last() =~= string_views(prev));
        if !contains_emoji(&r, &es[i]) {
            r.push(es[i].clone());
            assert(string_views(r@) =~= string_views(r@.drop_last()).push(es@[i as int]@));
        }
        i += 1;
    }
    assert(es@.take(es.len() as int) =~= es@);
    r
}

/// Applies a reaction snapshot of `actor` to `reactions`.
fn fold_reactions(reactions: Vec<Reaction>, actor: &ParticipantId, emojis: Vec<String>) -> (r: Vec<
    Reaction,
>)
    ensures
        reaction_views(r@) == folded_reactions(
            reaction_views(reactions@),
            actor@,
            string_views(emojis@),
        ),
{
    let ghost rs = reaction_views(reactions@);
    let ghost av = actor@;
    let mut wanted = distinct_emojis(emojis);
    let ghost wanted0 = string_views(wanted@);
    let mut kept: Vec<Reaction> = Vec::new();
    let mut i: usize = 0;
    while i < reactions.len()
        invariant
            i <= reactions.len(),
            rs == reaction_views(reactions@),
            av == actor@,
            ({
                let (done, rest) = scan_reactions(rs.take(i as int), av, wanted0);
                &&& reaction_views(kept@) == nonempty_only(done)
                &&& string_views(wanted@) == rest
            }),
        decreases reactions.len() - i,
    {
        let ghost (done0, rest0) = scan_reactions(rs.take(i as int), av, wanted0);
        assert(rs.take(i as int + 1).drop_last() =~= rs.take(i as int));
        let r = &reactions[i];
        let from = if contains_emoji(&wanted, &r.emoji) {
            wanted = without_emoji(wanted, &r.emoji);
            let mut f = copy_participants(&r.from);
            if !contains_participant(&r.from, actor) {
                f.push(actor.duplicate());
                assert(participant_views(f@) =~= participant_views(r.from@).push(av));
            }
            f
        } else {
            without_participant(&r.from, actor)
        };
        let ghost (done1, rest1) = scan_reactions(rs.take(i as int + 1), av, wanted0);
        assert(done1 == done0.push((r.emoji@, participant_views(from@))));
        assert(done1.drop_last() =~= done0);
        if from.len() > 0 {
            let nr = Reaction { emoji: r.emoji.clone(), from };
            kept.push(nr);
            assert(reaction_views(kept@) =~= reaction_views(kept@.drop_last()).push(nr@));
        }
        i += 1;
    }
    assert(rs.take(reactions.len() as int) =~= rs);
    let ghost (done, rest) = scan_reactions(rs, av, wanted0);
    let ghost base = reaction_views(kept@);
    let mut j: usize = 0;
    while j < wanted.len()
        invariant
            j <= wanted.len(),
            av == actor@,
            string_views(wanted@) == rest,
            base == nonempty_only(done),
            reaction_views(kept@) == base + rest.take(j as int).map_values(
                |e: Seq<char>| (e, seq![av]),
            ),
        decreases wanted.len() - j,
    {
        let mut f: Vec<ParticipantId> = Vec::new();
        f.push(actor.duplicate());
        assert(participant_views(f@) =~= seq![av]);
        let nr = Reaction { emoji: wanted[j].clone(), from: f };
        kept.push(nr);
        let ghost tail = rest.take(j as int).map_values(|e: Seq<char>| (e, seq![av]));
        assert(base + tail.push((rest[j as int], seq![av])) =~= (base + tail).push(
            (rest[j as int], seq![av]),
        ));
        assert(rest.take(j as int + 1).map_values(|e: Seq<char>| (e, seq![av])) =~= rest.take(
            j as int,
        ).map_values(|e: Seq<char>| (e, seq![av])).push((rest[j as int], seq![av])));
        assert(reaction_views(kept@) =~= reaction_views(kept@.drop_last()).push(nr@));
        j += 1;
    }
    assert(rest.take(wanted.len() as int) =~= rest);
    kept
}

impl Message {
    /// Adds `user_id` to the first reaction with `emoji`, or removes it if it
    /// is there already; appends a new reaction if none has that emoji.
    pub fn toggle_reaction(&mut self, user_id: &ParticipantId, emoji: String)
        ensures
            final(self)@ == (MessageView {
                reactions: toggled_reactions(old(self)@.reactions, user_id@, emoji@),
                ..old(self)@
            }),
    {
        let ghost rs = reaction_views(self.reactions@);
        let mut i: usize = 0;
        while i < self.reactions.len()
            invariant
                i <= self.reactions.len(),
                *self == *old(self),
                rs == reaction_views(self.reactions@),
                forall|j: int| 0 <= j < i ==> rs[j].0 != emoji@,
            decreases self.reactions.len() - i,
        {
            if self.reactions[i].emoji == emoji {
                assert(rs[i as int].0 == emoji@);
                assert(first_with_emoji(rs, emoji@) == i);
                let ghost f = participant_views(self.reactions@[i as int].from@);
                let mut k: usize = 0;
                let n = self.reactions[i].from.len();
                while k < n && !self.reactions[i].from[k].same_as(user_id)
                    invariant
                        k <= n,
                        *self == *old(self),
                        i < self.reactions.len(),
                        n == self.reactions@[i as int].from@.len(),
                        f == participant_views(self.reactions@[i as int].from@),
                        forall|j: int| 0 <= j < k ==> f[j] != user_id@,
                    decreases n - k,
                {
                    k += 1;
                }
                let mut from = copy_participants(&self.reactions[i].from);
                if k < n {
                    assert(f[k as int] == user_id@);
                    assert(first_of(f, user_id@) == k as int);
                    from.remove(k);
                    assert(participant_views(from@) =~= f.remove(k as int));
                } else {
                    from.push(user_id.duplicate());
                    assert(participant_views(from@) =~= f.push(user_id@));
                }
                let nr = Reaction { emoji, from };
                self.reactions.set(i, nr);
                assert(reaction_views(self.reactions@) =~= toggled_reactions(
                    rs,
                    user_id@,
                    nr.emoji@,
                ));
                return ;
            }
            i += 1;
        }
        let mut from: Vec<ParticipantId> = Vec::new();
        from.push(user_id.duplicate());
        let nr = Reaction { emoji, from };
        self.reactions.push(nr);
        assert(participant_views(nr.from@) =~= seq![user_id@]);
        assert(reaction_views(self.reactions@) =~= rs.push(nr@));
    }

    /// The emojis that `user_id` reacted with, in the order of the reactions.
    pub fn reactions_from(&self, user_id: &ParticipantId) -> (r: Vec<String>)
        ensures
            string_views(r@) == emojis_of(self@.reactions, user_id@),
    {
        let ghost rs = reaction_views(self.reactions@);
        let mut r: Vec<String> = Vec::new();
        let mut i: usize = 0;
        while i < self.reactions.len()
            invariant
                i <= self.reactions.len(),
                rs == reaction_views(self.reactions@),
                string_views(r@) == emojis_of(rs.take(i as int), user_id@),
            decreases self.reactions.len() - i,
        {
            let ghost prev = rs.take(i as int);
            assert(rs.take(i as int + 1).drop_last() =~= prev);
            if contains_participant(&self.reactions[i].from, user_id) {
                r.push(self.reactions[i].emoji.clone());
                assert(string_views(r@) =~= string_views(r@.drop_last()).push(rs[i as int].0));
            }
            i += 1;
        }
        assert(rs.take(self.reactions.len() as int) =~= rs);
        r
    }
}

// ---------------------------------------------------------------------------
// Reducing a log of events
// ---------------------------------------------------------------------------

/// Whether an event is a message event (a message or an error), as
/// opposed to a modifier of one.
pub open spec fn is_message_event(e: MessageLike) -> bool {
    e.payload is Message || e.payload is Error
}

/// The logical message that a message event starts out as.
pub open spec fn message_of(e: MessageLike) -> MessageView {
    match e.payload {
        Payload::Message { body, attachments, encryption_info, is_transient } => MessageView {
            remote_id: opt_view(e.id.original_id_spec()),
            server_id: opt_view(e.stanza_id),
            from: e.from@,
            raw: body.raw@,
            html: body.html@,
            timestamp: e.timestamp,
            is_read: false,
            is_edited: false,
            is_delivered: false,
            is_transient: is_transient,
            is_encrypted: encryption_info is Some,
            reactions: Seq::empty(),
            attachments: attachments@,
            mentions: body.mentions@,
        },
        Payload::Error { message } => MessageView {
            remote_id: opt_view(e.id.original_id_spec()),
            server_id: opt_view(e.stanza_id),
            from: e.from@,
            raw: message@,
            html: message@,
            timestamp: e.timestamp,
            is_read: false,
            is_edited: false,
            is_delivered: false,
            is_transient: false,
            is_encrypted: false,
            reactions: Seq::empty(),
            attachments: Seq::empty(),
            mentions: Seq::empty(),
        },
        _ => arbitrary(),
    }
}

/// The state of a reduction: the client ids in order of first appearance,
/// one slot per id (`None` once retracted), and the server ids with the slot
/// each resolves to.
pub struct ReduceState {
    pub keys: Seq<Seq<char>>,
    pub slots: Seq<Option<MessageView>>,
    pub stanza_keys: Seq<Seq<char>>,
    pub stanza_slots: Seq<int>,
}

pub open spec fn empty_state() -> ReduceState {
    ReduceState {
        keys: Seq::empty(),
        slots: Seq::empty(),
        stanza_keys: Seq::empty(),
        stanza_slots: Seq::empty(),
    }
}

/// Position of `k` in `keys`.
pub open spec fn position(keys: Seq<Seq<char>>, k: Seq<char>) -> int {
    choose|i: int| 0 <= i < keys.len() && keys[i] == k
}

/// `(keys, values)` with `k` bound to `v`: in place if present, else appended.
pub open spec fn bind(keys: Seq<Seq<char>>, values: Seq<int>, k: Seq<char>, v: int) -> (
    Seq<Seq<char>>,
    Seq<int>,
) {
    if keys.contains(k) {
        (keys, values.update(position(keys, k), v))
    } else {
        (keys.push(k), values.push(v))
    }
}

/// First pass: a message event takes the slot of its client id (a new one
/// for a new id) and registers its server id.
pub open spec fn record(s: ReduceState, e: MessageLike) -> ReduceState {
    if is_message_event(e) {
        let k = e.id.0@;
        let m = message_of(e);
        let present = s.keys.contains(k);
        let idx = if present {
            position(s.keys, k)
        } else {
            s.keys.len() as int
        };
        let keys = if present {
            s.keys
        } else {
            s.keys.push(k)
        };
        let slots = if present {
            s.slots.update(idx, Some(m))
        } else {
            s.slots.push(Some(m))
        };
        match e.stanza_id {
            Some(sid) => {
                let (sk, ss) = bind(s.stanza_keys, s.stanza_slots, sid@, idx);
                ReduceState { keys, slots, stanza_keys: sk, stanza_slots: ss }
            },
            None => ReduceState { keys, slots, ..s },
        }
    } else {
        s
    }
}

pub open spec fn recorded(events: Seq<MessageLike>) -> ReduceState
    decreases events.len(),
{
    if events.len() == 0 {
        empty_state()
    } else {
        record(recorded(events.drop_last()), events.last())
    }
}

/// The slot that a modifier's target resolves to, if any.
pub open spec fn resolve(s: ReduceState, target: Option<MessageTargetId>) -> Option<int> {
    match target {
        Some(MessageTargetId::RemoteId(id)) => if s.keys.contains(id@) {
            Some(position(s.keys, id@))
        } else {
            None
        },
        Some(MessageTargetId::ServerId(sid)) => if s.stanza_keys.contains(sid@) {
            Some(s.stanza_slots[position(s.stanza_keys, sid@)])
        } else {
            None
        },
        None => None,
    }
}

/// A modifier applied to the message it targets; `None` for a retraction.
pub open spec fn modified(m: MessageView, e: MessageLike) -> Option<MessageView> {
    match e.payload {
        Payload::Correction { body, attachments, encryption_info } => Some(
            MessageView {
                raw: body.raw@,
                html: body.html@,
                mentions: body.mentions@,
                attachments: attachments@,
                is_edited: true,
                is_encrypted: encryption_info is Some,
                ..m
            },
        ),
        Payload::DeliveryReceipt => Some(MessageView { is_delivered: true, ..m }),
        Payload::ReadReceipt => Some(MessageView { is_read: true, ..m }),
        Payload::Reaction { emojis } => Some(
            MessageView {
                reactions: folded_reactions(m.reactions, e.from@, string_views(emojis@)),
                ..m
            },
        ),
        Payload::Retraction => None,
        _ => Some(m),
    }
}

/// Second pass: a modifier changes the live message it resolves to; one
/// that resolves to nothing, or to a retracted message, is skipped.
pub open spec fn apply(s: ReduceState, e: MessageLike) -> ReduceState {
    match resolve(s, e.target) {
        Some(i) => match s.slots[i] {
            Some(m) => ReduceState { slots: s.slots.update(i, modified(m, e)), ..s },
            None => s,
        },
        None => s,
    }
}

pub open spec fn applied(s: ReduceState, mods: Seq<MessageLike>) -> ReduceState
    decreases mods.len(),
{
    if mods.len() == 0 {
        s
    } else {
        apply(applied(s, mods.drop_last()), mods.last())
    }
}

/// The modifiers among `events`, in input order.
pub open spec fn modifiers_of(events: Seq<MessageLike>) -> Seq<MessageLike>
    decreases events.len(),
{
    if events.len() == 0 {
        events
    } else if is_message_event(events.last()) {
        modifiers_of(events.drop_last())
    } else {
        modifiers_of(events.drop_last()).push(events.last())
    }
}

/// The live messages of the slots, in order.
pub open spec fn surviving(slots: Seq<Option<MessageView>>) -> Seq<MessageView>
    decreases slots.len(),
{
    if slots.len() == 0 {
        Seq::empty()
    } else {
        match slots.last() {
            Some(m) => surviving(slots.drop_last()).push(m),
            None => surviving(slots.drop_last()),
        }
    }
}

/// The logical messages that a log of events reduces to.
pub open spec fn reduced(events: Seq<MessageLike>) -> Seq<MessageView> {
    surviving(applied(recorded(events), modifiers_of(events)).slots)
}

/// The structural invariant of a reduction state.
pub open spec fn state_wf(s: ReduceState) -> bool {
    &&& s.keys.no_duplicates()
    &&& s.stanza_keys.no_duplicates()
    &&& s.keys.len() == s.slots.len()
    &&& s.stanza_keys.len() == s.stanza_slots.len()
    &&& forall|j: int| 0 <= j < s.stanza_slots.len() ==> 0 <= #[trigger] s.stanza_slots[j] < s.slots.len()
}

proof fn lemma_position(keys: Seq<Seq<char>>, i: int)
    requires
        keys.no_duplicates(),
        0 <= i < keys.len(),
    ensures
        position(keys, keys[i]) == i,
{
    let k = keys[i];
    assert(keys.contains(k));
}

proof fn lemma_push_no_duplicates(keys: Seq<Seq<char>>, k: Seq<char>)
    requires
        keys.no_duplicates(),
        !keys.contains(k),
    ensures
        keys.push(k).no_duplicates(),
{
    let p = keys.push(k);
    assert forall|a: int, b: int| 0 <= a < p.len() && 0 <= b < p.len() && a != b implies p[a]
        != p[b] by {
        if a < keys.len() && b < keys.len() {
        } else if a < keys.len() {
            assert(keys.contains(p[a]));
        } else {
            assert(keys.contains(p[b]));
        }
    }
}

/// Reversal of a vector, element by element.
pub(crate) fn reversed<T>(v: Vec<T>) -> (r: Vec<T>)
    ensures
        r.len() == v.len(),
        forall|j: int| 0 <= j < v.len() ==> #[trigger] r@[j] == v@[v.len() - 1 - j],
{
    let ghost orig = v@;
    let mut v = v;
    let mut r: Vec<T> = Vec::new();
    while v.len() > 0
        invariant
            r.len() + v.len() == orig.len(),
            v@ == orig.take(v.len() as int),
            forall|j: int| 0 <= j < r.len() ==> #[trigger] r@[j] == orig[orig.len() - 1 - j],
        decreases v.len(),
    {
        let x = v.pop().unwrap();
        r.push(x);
        assert(v@ =~= orig.take(v.len() as int));
    }
    r
}

/// Builds the logical message of a message event. Returns its client id,
/// its server id and the message.
fn message_from_event(e: MessageLike) -> (r: (String, Option<String>, Message))
    requires
        is_message_event(e),
    ensures
        r.0@ == e.id.0@,
        opt_view(r.1) == opt_view(e.stanza_id),
        r.2@ == message_of(e),
{
    let key = e.id.0.clone();
    let stanza_key = match &e.stanza_id {
        Some(s) => Some(s.clone()),
        None => None,
    };
    let remote_id = e.id.into_original_id();
    let m = match e.payload {
        Payload::Message { body, attachments, encryption_info, is_transient } => Message {
            remote_id,
            server_id: e.stanza_id,
            from: e.from,
            body: Body { raw: body.raw, html: body.html },
            timestamp: e.timestamp,
            is_read: false,
            is_edited: false,
            is_delivered: false,
            is_transient,
            is_encrypted: encryption_info.is_some(),
            reactions: Vec::new(),
            attachments,
            mentions: body.mentions,
        },
        Payload::Error { message } => {
            let html = message.clone();
            Message {
                remote_id,
                server_id: e.stanza_id,
                from: e.from,
                body: Body { raw: message, html },
                timestamp: e.timestamp,
                is_read: false,
                is_edited: false,
                is_delivered: false,
                is_transient: false,
                is_encrypted: false,
                reactions: Vec::new(),
                attachments: Vec::new(),
                mentions: Vec::new(),
            }
        },
        _ => vstd::pervasive::unreached(),
    };
    proof {
        assert(reaction_views(m.reactions@) =~= Seq::empty());
    }
    (key, stanza_key, m)
}

/// Applies a modifier event to the message it targets.
fn modify_message(m: Message, e: MessageLike) -> (r: Option<Message>)
    requires
        !is_message_event(e),
    ensures
        match r {
            Some(n) => modified(m@, e) == Some(n@),
            None => modified(m@, e) is None,
        },
{
    let mut m = m;
    match e.payload {
        Payload::Correction { body, attachments, encryption_info } => {
            m.body = Body { raw: body.raw, html: body.html };
            m.mentions = body.mentions;
            m.is_edited = true;
            m.attachments = attachments;
            m.is_encrypted = encryption_info.is_some();
            Some(m)
        },
        Payload::DeliveryReceipt => {
            m.is_delivered = true;
            Some(m)
        },
        Payload::ReadReceipt => {
            m.is_read = true;
            Some(m)
        },
        Payload::Reaction { emojis } => {
            let mut reactions: Vec<Reaction> = Vec::new();
            std::mem::swap(&mut reactions, &mut m.reactions);
            m.reactions = fold_reactions(reactions, &e.from, emojis);
            Some(m)
        },
        Payload::Retraction => None,
        _ => Some(m),
    }
}

impl Message {
    /// Folds a chronologically ordered log of message-like events into the
    /// logical messages it describes, in order of first appearance, without
    /// the retracted ones.
    pub fn reducing_messages(messages: Vec<MessageLike>) -> (r: Vec<Message>)
        ensures
            message_views(r@) == reduced(messages@),
    {
        let ghost input = messages@;
        let n = messages.len();
        let mut pending = reversed(messages);
        let mut ids = new_index();
        let mut slots: Vec<Option<Message>> = Vec::new();
        let mut stanza_ids = new_index();
        let mut stanza_slots: Vec<usize> = Vec::new();
        let mut modifiers: Vec<MessageLike> = Vec::new();
        let ghost mut st = empty_state();

        // First pass: message events take their slots, modifiers wait.
        while pending.len() > 0
            invariant
                pending.len() <= n,
                n == input.len(),
                forall|j: int| 0 <= j < pending.len() ==> #[trigger] pending@[j] == input[n - 1 - j],
                st == recorded(input.take(n - pending.len())),
                state_wf(st),
                st.keys == index_entries(ids),
                st.stanza_keys == index_entries(stanza_ids),
                slot_views(slots@) == st.slots,
                st.stanza_slots == stanza_slots@.map_values(|x: usize| x as int),
                modifiers@ == modifiers_of(input.take(n - pending.len())),
                forall|j: int| 0 <= j < modifiers.len() ==> !is_message_event(#[trigger] modifiers@[j]),
            decreases pending.len(),
        {
            let ghost i = n - pending.len();
            let e = pending.pop().unwrap();
            assert(e == input[i]);
            assert(input.take(i + 1).drop_last() =~= input.take(i));
            if e.payload.is_message() || e.payload.is_error() {
                let (key, stanza_key, m) = message_from_event(e);
                let ghost old_st = st;
                let (idx, inserted) = insert_full(&mut ids, key);
                if inserted {
                    slots.push(Some(m));
                    proof {
                        lemma_push_no_duplicates(old_st.keys, key@);
                    }
                } else {
                    slots.set(idx, Some(m));
                    proof {
                        lemma_position(old_st.keys, idx as int);
                    }
                }
                assert(slot_views(slots@) =~= record(old_st, e).slots);
                match stanza_key {
                    Some(sk) => {
                        let ghost skv = sk@;
                        let (sidx, sinserted) = insert_full(&mut stanza_ids, sk);
                        if sinserted {
                            stanza_slots.push(idx);
                            proof {
                                lemma_push_no_duplicates(old_st.stanza_keys, skv);
                            }
                        } else {
                            stanza_slots.set(sidx, idx);
                            proof {
                                lemma_position(old_st.stanza_keys, sidx as int);
                            }
                        }
                    },
                    None => {},
                }
                proof {
                    st = record(old_st, e);
                    assert(st.stanza_slots =~= stanza_slots@.map_values(|x: usize| x as int));
                }
            } else {
                modifiers.push(e);
            }
        }
        assert(input.take(n as int) =~= input);
        let ghost st1 = st;
        let ghost mods = modifiers@;
        let m = modifiers.len();
        let mut pending = reversed(modifiers);

        // Second pass: modifiers in input order.
        while pending.len() > 0
            invariant
                pending.len() <= m,
                m == mods.len(),
                forall|j: int| 0 <= j < pending.len() ==> #[trigger] pending@[j] == mods[m - 1 - j],
                forall|j: int| 0 <= j < mods.len() ==> !is_message_event(#[trigger] mods[j]),
                st == applied(st1, mods.take(m - pending.len())),
                state_wf(st),
                st.keys == index_entries(ids),
                st.stanza_keys == index_entries(stanza_ids),
                slot_views(slots@) == st.slots,
                st.stanza_slots == stanza_slots@.map_values(|x: usize| x as int),
            decreases pending.len(),
        {
            let ghost i = m - pending.len();
            let e = pending.pop().unwrap();
            assert(e == mods[i]);
            assert(mods.take(i + 1).drop_last() =~= mods.take(i));
            let ghost old_st = st;
            let target = resolve_target(&ids, &stanza_ids, &stanza_slots, &e.target, Ghost(st));
            match target {
                Some(t) => {
                    let mut taken: Option<Message> = None;
                    std::mem::swap(&mut taken, &mut slots[t]);
                    match taken {
                        Some(msg) => {
                            let updated = modify_message(msg, e);
                            slots.set(t, updated);
                            proof {
                                st = apply(old_st, e);
                            }
                            assert(slot_views(slots@) =~= st.slots);
                        },
                        None => {
                            assert(slot_views(slots@) =~= st.slots);
                        },
                    }
                },
                None => {},
            }
        }
        assert(mods.take(m as int) =~= mods);
        let ghost fin = st.slots;

        let k = slots.len();
        let mut rest = reversed(slots);
        let mut out: Vec<Message> = Vec::new();
        while rest.len() > 0
            invariant
                rest.len() <= k,
                k == fin.len(),
                forall|j: int| 0 <= j < rest.len() ==> #[trigger] slot_view(rest@[j]) == fin[k - 1 - j],
                message_views(out@) == surviving(fin.take(k - rest.len())),
            decreases rest.len(),
        {
            let ghost i = k - rest.len();
            let slot = rest.pop().unwrap();
            assert(slot_view(slot) == fin[i]);
            assert(fin.take(i + 1).drop_last() =~= fin.take(i));
            match slot {
                Some(msg) => {
                    out.push(msg);
                    assert(message_views(out@) =~= message_views(out@.drop_last()).push(msg@));
                },
                None => {},
            }
        }
        assert(fin.take(k as int) =~= fin);
        out
    }
}

pub open spec fn slot_view(s: Option<Message>) -> Option<MessageView> {
    match s {
        Some(m) => Some(m@),
        None => None,
    }
}

pub open spec fn slot_views(s: Seq<Option<Message>>) -> Seq<Option<MessageView>> {
    s.map_values(|o: Option<Message>| slot_view(o))
}

/// Resolves a modifier's target to a slot through the client-id index or
/// the server-id index.
fn resolve_target(
    ids: &indexmap::IndexSet<String>,
    stanza_ids: &indexmap::IndexSet<String>,
    stanza_slots: &Vec<usize>,
    target: &Option<MessageTargetId>,
    st: Ghost<ReduceState>,
) -> (r: Option<usize>)
    requires
        state_wf(st@),
        st@.keys == index_entries(*ids),
        st@.stanza_keys == index_entries(*stanza_ids),
        st@.stanza_slots == stanza_slots@.map_values(|x: usize| x as int),
    ensures
        match r {
            Some(i) => resolve(st@, *target) == Some(i as int) && i < st@.slots.len(),
            None => resolve(st@, *target) is None,
        },
{
    match target {
        Some(MessageTargetId::RemoteId(id)) => {
            let r = index_of(ids, id);
            proof {
                if let Some(i) = r {
                    lemma_position(st@.keys, i as int);
                }
            }
            r
        },
        Some(MessageTargetId::ServerId(sid)) => match index_of(stanza_ids, sid) {
            Some(j) => {
                proof {
                    lemma_position(st@.stanza_keys, j as int);
                }
                let t = stanza_slots[j];
                assert(st@.stanza_slots[j as int] == t as int);
                Some(t)
            },
            None => None,
        },
        None => None,
    }
}

// ---------------------------------------------------------------------------
// Laws of the reducer
// ---------------------------------------------------------------------------

/// Whether two states resolve every target alike.
pub open spec fn same_index(s: ReduceState, t: ReduceState) -> bool {
    &&& s.keys == t.keys
    &&& s.stanza_keys == t.stanza_keys
    &&& s.stanza_slots == t.stanza_slots
    &&& s.slots.len() == t.slots.len()
}

proof fn lemma_applied_keeps_index(s: ReduceState, mods: Seq<MessageLike>)
    requires
        state_wf(s),
    ensures
        same_index(applied(s, mods), s),
        state_wf(applied(s, mods)),
    decreases mods.len(),
{
    if mods.len() > 0 {
        lemma_applied_keeps_index(s, mods.drop_last());
        lemma_resolve_in_bounds(applied(s, mods.drop_last()), mods.last().target);
    }
}

proof fn lemma_applied_concat(s: ReduceState, a: Seq<MessageLike>, b: Seq<MessageLike>)
    ensures
        applied(s, a + b) == applied(applied(s, a), b),
    decreases b.len(),
{
    if b.len() == 0 {
        assert(a + b =~= a);
    } else {
        assert((a + b).drop_last() =~= a + b.drop_last());
        lemma_applied_concat(s, a, b.drop_last());
    }
}

proof fn lemma_recorded_wf(events: Seq<MessageLike>)
    ensures
        state_wf(recorded(events)),
    decreases events.len(),
{
    if events.len() > 0 {
        lemma_recorded_wf(events.drop_last());
        let s = recorded(events.drop_last());
        let e = events.last();
        if is_message_event(e) {
            let k = e.id.0@;
            if s.keys.contains(k) {
                let i = choose|i: int| 0 <= i < s.keys.len() && s.keys[i] == k;
                lemma_position(s.keys, i);
            } else {
                lemma_push_no_duplicates(s.keys, k);
            }
            match e.stanza_id {
                Some(sid) => {
                    if s.stanza_keys.contains(sid@) {
                        let i = choose|i: int| 0 <= i < s.stanza_keys.len() && s.stanza_keys[i] == sid@;
                        lemma_position(s.stanza_keys, i);
                    } else {
                        lemma_push_no_duplicates(s.stanza_keys, sid@);
                    }
                },
                None => {},
            }
        }
    }
}

proof fn lemma_resolve_in_bounds(s: ReduceState, t: Option<MessageTargetId>)
    requires
        state_wf(s),
    ensures
        resolve(s, t) matches Some(i) ==> 0 <= i < s.slots.len(),
{
    match t {
        Some(MessageTargetId::RemoteId(id)) => if s.keys.contains(id@) {
            let i = choose|i: int| 0 <= i < s.keys.len() && s.keys[i] == id@;
            lemma_position(s.keys, i);
        },
        Some(MessageTargetId::ServerId(sid)) => if s.stanza_keys.contains(sid@) {
            let i = choose|i: int| 0 <= i < s.stanza_keys.len() && s.stanza_keys[i] == sid@;
            lemma_position(s.stanza_keys, i);
        },
        None => {},
    }
}

pub open spec fn is_receipt(e: MessageLike) -> bool {
    e.payload is DeliveryReceipt || e.payload is ReadReceipt
}

/// Applying the same delivery or read receipt twice has the effect of
/// applying it once.
pub proof fn lemma_receipt_idempotent(s: ReduceState, e: MessageLike)
    requires
        state_wf(s),
        is_receipt(e),
    ensures
        apply(apply(s, e), e) == apply(s, e),
{
    let t = apply(s, e);
    lemma_resolve_in_bounds(s, e.target);
    match resolve(s, e.target) {
        Some(i) => match s.slots[i] {
            Some(m) => {
                assert(t.slots[i] == modified(m, e));
                let m2 = modified(m, e)->Some_0;
                assert(modified(m2, e) == Some(m2));
                assert(t.slots.update(i, modified(m2, e)) =~= t.slots);
            },
            None => {},
        },
        None => {},
    }
}

/// A log that ends in the same receipt twice reduces as if it held the
/// receipt once.
pub proof fn lemma_reduce_receipt_idempotent(events: Seq<MessageLike>, e: MessageLike)
    requires
        is_receipt(e),
    ensures
        reduced(events.push(e).push(e)) == reduced(events.push(e)),
{
    let once = events.push(e);
    let twice = once.push(e);
    assert(twice.drop_last() =~= once);
    assert(once.drop_last() =~= events);
    assert(recorded(twice) == recorded(once));
    assert(recorded(once) == recorded(events));
    let mods = modifiers_of(events);
    assert(modifiers_of(once) == mods.push(e));
    assert(modifiers_of(twice) == mods.push(e).push(e));
    assert(mods.push(e).push(e).drop_last() =~= mods.push(e));
    assert(mods.push(e).drop_last() =~= mods);
    lemma_recorded_wf(events);
    lemma_applied_keeps_index(recorded(events), mods);
    lemma_receipt_idempotent(applied(recorded(events), mods), e);
}

/// Once a retraction removed a message, no later event brings it back, and
/// every target still resolves as before: the retracted message's ids stay
/// known for modifiers of other messages.
pub proof fn lemma_retraction_is_final(
    s: ReduceState,
    before: Seq<MessageLike>,
    e: MessageLike,
    later: Seq<MessageLike>,
    i: int,
)
    requires
        state_wf(s),
        e.payload is Retraction,
        resolve(applied(s, before), e.target) == Some(i),
    ensures
        applied(s, before.push(e) + later).slots[i] is None,
        forall|t: Option<MessageTargetId>|
            resolve(applied(s, before.push(e) + later), t) == resolve(s, t),
{
    lemma_applied_concat(s, before.push(e), later);
    assert(before.push(e).drop_last() =~= before);
    lemma_applied_keeps_index(s, before);
    lemma_resolve_in_bounds(applied(s, before), e.target);
    let mid = applied(s, before.push(e));
    lemma_applied_keeps_index(s, before.push(e));
    lemma_stays_retracted(mid, later, i);
    lemma_applied_keeps_index(s, before.push(e) + later);
}

proof fn lemma_stays_retracted(s: ReduceState, later: Seq<MessageLike>, i: int)
    requires
        state_wf(s),
        0 <= i < s.slots.len(),
        s.slots[i] is None,
    ensures
        applied(s, later).slots[i] is None,
    decreases later.len(),
{
    if later.len() > 0 {
        lemma_stays_retracted(s, later.drop_last(), i);
        lemma_applied_keeps_index(s, later.drop_last());
        let p = applied(s, later.drop_last());
        lemma_resolve_in_bounds(p, later.last().target);
        match resolve(p, later.last().target) {
            Some(j) => if j != i {
                match p.slots[j] {
                    Some(m) => {
                        assert(p.slots.update(j, modified(m, later.last()))[i] == p.slots[i]);
                    },
                    None => {},
                }
            },
            None => {},
        }
    }
}

// ---------------------------------------------------------------------------
// Laws of reaction sets
// ---------------------------------------------------------------------------

/// Whether no two reactions share an emoji.
pub open spec fn distinct_emojis_in(rs: Seq<ReactionView>) -> bool {
    forall|i: int, j: int| 0 <= i < j < rs.len() ==> rs[i].0 != rs[j].0
}

proof fn lemma_distinct(es: Seq<Seq<char>>)
    ensures
        distinct(es).no_duplicates(),
        forall|e: Seq<char>| distinct(es).contains(e) <==> es.contains(e),
    decreases es.len(),
{
    if es.len() > 0 {
        let prev = es.drop_last();
        lemma_distinct(prev);
        let d = distinct(prev);
        let x = es.last();
        assert(es =~= prev.push(x));
        assert forall|e: Seq<char>| distinct(es).contains(e) <==> es.contains(e) by {
            vstd::seq_lib::lemma_seq_contains_after_push(prev, x, e);
            vstd::seq_lib::lemma_seq_contains_after_push(d, x, e);
        }
        if !d.contains(x) {
            lemma_push_no_duplicates(d, x);
        }
    }
}

proof fn lemma_except(es: Seq<Seq<char>>, x: Seq<char>)
    requires
        es.no_duplicates(),
    ensures
        except(es, x).no_duplicates(),
        forall|e: Seq<char>| except(es, x).contains(e) <==> es.contains(e) && e != x,
    decreases es.len(),
{
    if es.len() > 0 {
        let prev = es.drop_last();
        assert(prev.no_duplicates()) by {
            assert forall|a: int, b: int| 0 <= a < prev.len() && 0 <= b < prev.len() && a != b implies prev[a] != prev[b] by {
                assert(prev[a] == es[a] && prev[b] == es[b]);
            }
        }
        lemma_except(prev, x);
        let last = es.last();
        assert(es =~= prev.push(last));
        assert forall|e: Seq<char>| except(es, x).contains(e) <==> es.contains(e) && e != x by {
            vstd::seq_lib::lemma_seq_contains_after_push(prev, last, e);
            assert(es.contains(e) == (last == e || prev.contains(e)));
            assert(except(prev, x).contains(e) == (prev.contains(e) && e != x));
            if last != x {
                assert(except(es, x) == except(prev, x).push(last));
                vstd::seq_lib::lemma_seq_contains_after_push(except(prev, x), last, e);
            } else {
                assert(except(es, x) == except(prev, x));
            }
        }
        if last != x {
            if prev.contains(last) {
                let k = choose|k: int| 0 <= k < prev.len() && prev[k] == last;
                assert(es[k] == es[es.len() - 1]);
            }
            lemma_push_no_duplicates(except(prev, x), last);
        }
    } else {
        assert(except(es, x) == es);
    }
}

proof fn lemma_others(ps: Seq<ParticipantView>, p: ParticipantView)
    ensures
        forall|q: ParticipantView| others(ps, p).contains(q) <==> ps.contains(q) && q != p,
    decreases ps.len(),
{
    if ps.len() > 0 {
        let prev = ps.drop_last();
        lemma_others(prev, p);
        let last = ps.last();
        assert(ps =~= prev.push(last));
        assert forall|q: ParticipantView| others(ps, p).contains(q) <==> ps.contains(q) && q != p by {
            vstd::seq_lib::lemma_seq_contains_after_push(prev, last, q);
            assert(ps.contains(q) == (last == q || prev.contains(q)));
            assert(others(prev, p).contains(q) == (prev.contains(q) && q != p));
            if last != p {
                assert(others(ps, p) == others(prev, p).push(last));
                vstd::seq_lib::lemma_seq_contains_after_push(others(prev, p), last, q);
            } else {
                assert(others(ps, p) == others(prev, p));
            }
        }
    } else {
        assert(others(ps, p) == ps);
    }
}

/// What a scan leaves: the reactions keep their emojis in order, the actor
/// holds exactly the wanted ones, and the wanted emojis no reaction had
/// remain, each once.
proof fn lemma_scan(rs: Seq<ReactionView>, a: ParticipantView, w: Seq<Seq<char>>)
    requires
        distinct_emojis_in(rs),
        w.no_duplicates(),
    ensures
        ({
            let (done, rest) = scan_reactions(rs, a, w);
            &&& done.len() == rs.len()
            &&& forall|k: int| 0 <= k < rs.len() ==> (#[trigger] done[k]).0 == rs[k].0
            &&& forall|k: int| 0 <= k < rs.len() ==> ((#[trigger] done[k]).1.contains(a) <==> w.contains(rs[k].0))
            &&& forall|k: int| 0 <= k < rs.len() ==> (forall|q: ParticipantView| q != a ==> ((#[trigger] done[k]).1.contains(q) <==> rs[k].1.contains(q)))
            &&& rest.no_duplicates()
            &&& forall|e: Seq<char>| rest.contains(e) <==> (w.contains(e) && forall|k: int| 0 <= k < rs.len() ==> rs[k].0 != e)
        }),
    decreases rs.len(),
{
    if rs.len() > 0 {
        let prev = rs.drop_last();
        assert(distinct_emojis_in(prev)) by {
            assert forall|i: int, j: int| 0 <= i < j < prev.len() implies prev[i].0 != prev[j].0 by {
                assert(prev[i] == rs[i] && prev[j] == rs[j]);
            }
        }
        lemma_scan(prev, a, w);
        let (done0, rest0) = scan_reactions(prev, a, w);
        let (done, rest) = scan_reactions(rs, a, w);
        let r = rs.last();
        let n = rs.len() - 1;
        assert(r == rs[n]);
        assert forall|k: int| 0 <= k < n implies rs[k].0 != r.0 by {}
        if rest0.contains(r.0) {
            lemma_except(rest0, r.0);
            let from = if r.1.contains(a) { r.1 } else { r.1.push(a) };
            assert(done == done0.push((r.0, from)));
            assert(from.contains(a)) by {
                if !r.1.contains(a) {
                    assert(from[from.len() - 1] == a);
                }
            }
            assert forall|q: ParticipantView| q != a implies (from.contains(q) <==> r.1.contains(q)) by {
                if !r.1.contains(a) {
                    vstd::seq_lib::lemma_seq_contains_after_push(r.1, a, q);
                }
            }
            assert forall|k: int| 0 <= k < rs.len() implies ((#[trigger] done[k]).1.contains(a) <==> w.contains(rs[k].0)) by {
                if k < n {
                    assert(done[k] == done0[k]);
                    assert(prev[k] == rs[k]);
                }
            }
            assert forall|k: int| 0 <= k < rs.len() implies (forall|q: ParticipantView| q != a ==> ((#[trigger] done[k]).1.contains(q) <==> rs[k].1.contains(q))) by {
                if k < n {
                    assert(done[k] == done0[k]);
                    assert(prev[k] == rs[k]);
                }
            }
            assert forall|e: Seq<char>| rest.contains(e) <==> (w.contains(e) && forall|k: int| 0 <= k < rs.len() ==> rs[k].0 != e) by {
                if w.contains(e) && forall|k: int| 0 <= k < rs.len() ==> rs[k].0 != e {
                    assert forall|k: int| 0 <= k < prev.len() implies prev[k].0 != e by {
                        assert(prev[k] == rs[k]);
                    }
                    assert(rs[n].0 != e);
                }
                if rest.contains(e) {
                    assert(rest0.contains(e));
                    assert forall|k: int| 0 <= k < rs.len() implies rs[k].0 != e by {
                        if k < n {
                            assert(prev[k] == rs[k]);
                        }
                    }
                }
            }
        } else {
            lemma_others(r.1, a);
            assert(done == done0.push((r.0, others(r.1, a))));
            assert(!w.contains(r.0)) by {
                if w.contains(r.0) {
                    assert forall|k: int| 0 <= k < prev.len() implies prev[k].0 != r.0 by {
                        assert(prev[k] == rs[k]);
                    }
                }
            }
            assert forall|k: int| 0 <= k < rs.len() implies ((#[trigger] done[k]).1.contains(a) <==> w.contains(rs[k].0)) by {
                if k < n {
                    assert(done[k] == done0[k]);
                    assert(prev[k] == rs[k]);
                }
            }
            assert forall|k: int| 0 <= k < rs.len() implies (forall|q: ParticipantView| q != a ==> ((#[trigger] done[k]).1.contains(q) <==> rs[k].1.contains(q))) by {
                if k < n {
                    assert(done[k] == done0[k]);
                    assert(prev[k] == rs[k]);
                }
            }
            assert forall|e: Seq<char>| rest.contains(e) <==> (w.contains(e) && forall|k: int| 0 <= k < rs.len() ==> rs[k].0 != e) by {
                if w.contains(e) && forall|k: int| 0 <= k < rs.len() ==> rs[k].0 != e {
                    assert forall|k: int| 0 <= k < prev.len() implies prev[k].0 != e by {
                        assert(prev[k] == rs[k]);
                    }
                }
                if rest.contains(e) {
                    assert forall|k: int| 0 <= k < rs.len() implies rs[k].0 != e by {
                        if k < n {
                            assert(prev[k] == rs[k]);
                        }
                    }
                }
            }
        }
    }
}

proof fn lemma_emojis_of_concat(x: Seq<ReactionView>, y: Seq<ReactionView>, a: ParticipantView)
    ensures
        emojis_of(x + y, a) == emojis_of(x, a) + emojis_of(y, a),
    decreases y.len(),
{
    if y.len() == 0 {
        assert(x + y =~= x);
        assert(emojis_of(x, a) + emojis_of(y, a) =~= emojis_of(x, a));
    } else {
        assert((x + y).drop_last() =~= x + y.drop_last());
        lemma_emojis_of_concat(x, y.drop_last(), a);
        assert(emojis_of(x + y, a) =~= emojis_of(x, a) + emojis_of(y, a));
    }
}

proof fn lemma_emojis_of_nonempty(d: Seq<ReactionView>, a: ParticipantView)
    ensures
        emojis_of(nonempty_only(d), a) == emojis_of(d, a),
    decreases d.len(),
{
    if d.len() > 0 {
        lemma_emojis_of_nonempty(d.drop_last(), a);
        let l = d.last();
        if l.1.len() > 0 {
            let x = nonempty_only(d.drop_last());
            assert(x.push(l).drop_last() =~= x);
        } else {
            assert(!l.1.contains(a));
        }
    }
}

proof fn lemma_emojis_of_appended(rest: Seq<Seq<char>>, a: ParticipantView)
    ensures
        emojis_of(rest.map_values(|e: Seq<char>| (e, seq![a])), a) == rest,
    decreases rest.len(),
{
    if rest.len() > 0 {
        let m = rest.map_values(|e: Seq<char>| (e, seq![a]));
        assert(m.drop_last() =~= rest.drop_last().map_values(|e: Seq<char>| (e, seq![a])));
        lemma_emojis_of_appended(rest.drop_last(), a);
        assert(seq![a].contains(a)) by {
            assert(seq![a][0] == a);
        }
        assert(m.last() == (rest.last(), seq![a]));
        assert(emojis_of(m, a) =~= rest);
    }
}

proof fn lemma_emojis_of_members(d: Seq<ReactionView>, a: ParticipantView)
    ensures
        forall|e: Seq<char>| emojis_of(d, a).contains(e) <==> exists|k: int|
            0 <= k < d.len() && d[k].1.contains(a) && d[k].0 == e,
        distinct_emojis_in(d) ==> emojis_of(d, a).no_duplicates(),
    decreases d.len(),
{
    if d.len() > 0 {
        let prev = d.drop_last();
        lemma_emojis_of_members(prev, a);
        let l = d.last();
        let n = d.len() - 1;
        assert forall|e: Seq<char>| emojis_of(d, a).contains(e) <==> exists|k: int|
            0 <= k < d.len() && d[k].1.contains(a) && d[k].0 == e by {
            assert(emojis_of(prev, a).contains(e) == exists|k: int|
                0 <= k < prev.len() && prev[k].1.contains(a) && prev[k].0 == e);
            assert(l == d[n]);
            if l.1.contains(a) {
                assert(emojis_of(d, a) == emojis_of(prev, a).push(l.0));
                vstd::seq_lib::lemma_seq_contains_after_push(emojis_of(prev, a), l.0, e);
            } else {
                assert(emojis_of(d, a) == emojis_of(prev, a));
            }
            if exists|k: int| 0 <= k < d.len() && d[k].1.contains(a) && d[k].0 == e {
                let k = choose|k: int| 0 <= k < d.len() && d[k].1.contains(a) && d[k].0 == e;
                if k < n {
                    assert(prev[k] == d[k]);
                }
            }
            if exists|k: int| 0 <= k < prev.len() && prev[k].1.contains(a) && prev[k].0 == e {
                let k = choose|k: int| 0 <= k < prev.len() && prev[k].1.contains(a) && prev[k].0 == e;
                assert(d[k] == prev[k]);
            }
        }
        if distinct_emojis_in(d) {
            assert(distinct_emojis_in(prev)) by {
                assert forall|i: int, j: int| 0 <= i < j < prev.len() implies prev[i].0 != prev[j].0 by {
                    assert(prev[i] == d[i] && prev[j] == d[j]);
                }
            }
            if l.1.contains(a) {
                if emojis_of(prev, a).contains(l.0) {
                    let k = choose|k: int| 0 <= k < prev.len() && prev[k].1.contains(a) && prev[k].0 == l.0;
                    assert(d[k] == prev[k]);
                }
                lemma_push_no_duplicates(emojis_of(prev, a), l.0);
            }
        }
    }
}

/// A reaction event is a full snapshot of its author's reactions: after it,
/// the author reacts with exactly the emojis it lists, each once.
pub proof fn lemma_reaction_snapshot(
    rs: Seq<ReactionView>,
    actor: ParticipantView,
    emojis: Seq<Seq<char>>,
)
    requires
        distinct_emojis_in(rs),
    ensures
        emojis_of(folded_reactions(rs, actor, emojis), actor).no_duplicates(),
        forall|e: Seq<char>|
            emojis_of(folded_reactions(rs, actor, emojis), actor).contains(e) <==> emojis.contains(e),
{
    let w = distinct(emojis);
    lemma_distinct(emojis);
    lemma_scan(rs, actor, w);
    let (done, rest) = scan_reactions(rs, actor, w);
    let kept = nonempty_only(done);
    let added = rest.map_values(|e: Seq<char>| (e, seq![actor]));
    lemma_emojis_of_concat(kept, added, actor);
    lemma_emojis_of_nonempty(done, actor);
    lemma_emojis_of_appended(rest, actor);
    lemma_emojis_of_members(done, actor);
    assert(distinct_emojis_in(done)) by {
        assert forall|i: int, j: int| 0 <= i < j < done.len() implies done[i].0 != done[j].0 by {
            assert(done[i].0 == rs[i].0 && done[j].0 == rs[j].0);
        }
    }
    let x = emojis_of(done, actor);
    let all = x + rest;
    assert(emojis_of(folded_reactions(rs, actor, emojis), actor) == all);
    assert forall|e: Seq<char>| all.contains(e) <==> x.contains(e) || rest.contains(e) by {
        if all.contains(e) {
            let k = choose|k: int| 0 <= k < all.len() && all[k] == e;
            if k < x.len() {
                assert(x[k] == e);
            } else {
                assert(rest[k - x.len()] == e);
            }
        }
        if x.contains(e) {
            let k = choose|k: int| 0 <= k < x.len() && x[k] == e;
            assert(all[k] == e);
        }
        if rest.contains(e) {
            let k = choose|k: int| 0 <= k < rest.len() && rest[k] == e;
            assert(all[k + x.len()] == e);
        }
    }
    assert forall|e: Seq<char>| all.contains(e) <==> emojis.contains(e) by {
        if x.contains(e) {
            let k = choose|k: int| 0 <= k < done.len() && done[k].1.contains(actor) && done[k].0 == e;
            assert(w.contains(rs[k].0));
        }
        if w.contains(e) && !rest.contains(e) {
            let k = choose|k: int| 0 <= k < rs.len() && rs[k].0 == e;
            assert(done[k].1.contains(actor) && done[k].0 == e);
        }
    }
    assert forall|i: int, j: int| 0 <= i < all.len() && 0 <= j < all.len() && i != j implies all[i]
        != all[j] by {
        if i < x.len() && j < x.len() {
        } else if i >= x.len() && j >= x.len() {
            assert(all[i] == rest[i - x.len()] && all[j] == rest[j - x.len()]);
        } else {
            let (p, q) = if i < x.len() { (i, j) } else { (j, i) };
            assert(x.contains(all[p]));
            assert(rest[q - x.len()] == all[q]);
            assert(rest.contains(all[q]));
            let k = choose|k: int| 0 <= k < done.len() && done[k].1.contains(actor) && done[k].0 == all[p];
            assert(rs[k].0 == all[p]);
        }
    }
}

proof fn lemma_emojis_of_pointwise(d1: Seq<ReactionView>, d2: Seq<ReactionView>, b: ParticipantView)
    requires
        d1.len() == d2.len(),
        forall|k: int| 0 <= k < d1.len() ==> d1[k].0 == d2[k].0 && (d1[k].1.contains(b) <==> d2[k].1.contains(b)),
    ensures
        emojis_of(d1, b) == emojis_of(d2, b),
    decreases d1.len(),
{
    if d1.len() > 0 {
        let n = d1.len() - 1;
        assert forall|k: int| 0 <= k < n implies d1.drop_last()[k].0 == d2.drop_last()[k].0 && (
        d1.drop_last()[k].1.contains(b) <==> d2.drop_last()[k].1.contains(b)) by {
            assert(d1.drop_last()[k] == d1[k] && d2.drop_last()[k] == d2[k]);
        }
        lemma_emojis_of_pointwise(d1.drop_last(), d2.drop_last(), b);
        assert(d1.last() == d1[n] && d2.last() == d2[n]);
    }
}

proof fn lemma_emojis_of_added(rest: Seq<Seq<char>>, a: ParticipantView, b: ParticipantView)
    requires
        a != b,
    ensures
        emojis_of(rest.map_values(|e: Seq<char>| (e, seq![a])), b) == Seq::<Seq<char>>::empty(),
    decreases rest.len(),
{
    if rest.len() > 0 {
        let m = rest.map_values(|e: Seq<char>| (e, seq![a]));
        assert(m.drop_last() =~= rest.drop_last().map_values(|e: Seq<char>| (e, seq![a])));
        lemma_emojis_of_added(rest.drop_last(), a, b);
        assert(m.last() == (rest.last(), seq![a]));
        assert(!seq![a].contains(b)) by {
            if seq![a].contains(b) {
                let k = choose|k: int| 0 <= k < 1 && seq![a][k] == b;
            }
        }
    }
}

proof fn lemma_nonempty_only(d: Seq<ReactionView>)
    ensures
        forall|x: ReactionView| nonempty_only(d).contains(x) ==> d.contains(x),
        distinct_emojis_in(d) ==> distinct_emojis_in(nonempty_only(d)),
    decreases d.len(),
{
    if d.len() > 0 {
        let prev = d.drop_last();
        lemma_nonempty_only(prev);
        let l = d.last();
        let n = d.len() - 1;
        assert forall|x: ReactionView| nonempty_only(d).contains(x) implies d.contains(x) by {
            if l.1.len() > 0 {
                vstd::seq_lib::lemma_seq_contains_after_push(nonempty_only(prev), l, x);
            }
            if x != l {
                assert(prev.contains(x));
                let k = choose|k: int| 0 <= k < prev.len() && prev[k] == x;
                assert(d[k] == x);
            } else {
                assert(d[n] == x);
            }
        }
        if distinct_emojis_in(d) {
            assert(distinct_emojis_in(prev)) by {
                assert forall|i: int, j: int| 0 <= i < j < prev.len() implies prev[i].0 != prev[j].0 by {
                    assert(prev[i] == d[i] && prev[j] == d[j]);
                }
            }
            if l.1.len() > 0 {
                let q = nonempty_only(prev);
                let r = q.push(l);
                assert forall|i: int, j: int| 0 <= i < j < r.len() implies r[i].0 != r[j].0 by {
                    if j == q.len() {
                        assert(q.contains(q[i]));
                        assert(prev.contains(q[i]));
                        let k = choose|k: int| 0 <= k < prev.len() && prev[k] == q[i];
                        assert(d[k] == prev[k]);
                        assert(d[n] == l);
                    }
                }
            }
        }
    }
}

/// A reaction event of one participant leaves the reactions of every other
/// participant as they were, and the reactions keep distinct emojis.
pub proof fn lemma_snapshot_keeps_others(
    rs: Seq<ReactionView>,
    actor: ParticipantView,
    emojis: Seq<Seq<char>>,
    other: ParticipantView,
)
    requires
        distinct_emojis_in(rs),
        other != actor,
    ensures
        emojis_of(folded_reactions(rs, actor, emojis), other) == emojis_of(rs, other),
        distinct_emojis_in(folded_reactions(rs, actor, emojis)),
{
    let w = distinct(emojis);
    lemma_distinct(emojis);
    lemma_scan(rs, actor, w);
    let (done, rest) = scan_reactions(rs, actor, w);
    let kept = nonempty_only(done);
    let added = rest.map_values(|e: Seq<char>| (e, seq![actor]));
    lemma_emojis_of_concat(kept, added, other);
    lemma_emojis_of_nonempty(done, other);
    lemma_emojis_of_added(rest, actor, other);
    lemma_emojis_of_pointwise(done, rs, other);
    assert(emojis_of(kept, other) + Seq::<Seq<char>>::empty() =~= emojis_of(kept, other));
    assert(distinct_emojis_in(done)) by {
        assert forall|i: int, j: int| 0 <= i < j < done.len() implies done[i].0 != done[j].0 by {
            assert(done[i].0 == rs[i].0 && done[j].0 == rs[j].0);
        }
    }
    lemma_nonempty_only(done);
    let all = kept + added;
    assert forall|i: int, j: int| 0 <= i < j < all.len() implies all[i].0 != all[j].0 by {
        if j < kept.len() {
            assert(all[i] == kept[i] && all[j] == kept[j]);
        } else if i >= kept.len() {
            assert(all[i].0 == rest[i - kept.len()] && all[j].0 == rest[j - kept.len()]);
        } else {
            assert(all[i] == kept[i]);
            assert(kept.contains(kept[i]));
            assert(done.contains(kept[i]));
            let k = choose|k: int| 0 <= k < done.len() && done[k] == kept[i];
            assert(done[k].0 == rs[k].0);
            let e = rest[j - kept.len()];
            assert(all[j].0 == e);
            assert(rest.contains(e));
        }
    }
}

/// Two modifiers that do not resolve to the same message can be applied in
/// either order with the same result.
pub proof fn lemma_modifiers_of_different_targets_commute(
    s: ReduceState,
    e1: MessageLike,
    e2: MessageLike,
)
    requires
        state_wf(s),
        resolve(s, e1.target) is None || resolve(s, e2.target) is None || resolve(s, e1.target)
            != resolve(s, e2.target),
    ensures
        apply(apply(s, e1), e2) == apply(apply(s, e2), e1),
{
    lemma_resolve_in_bounds(s, e1.target);
    lemma_resolve_in_bounds(s, e2.target);
    let a = apply(s, e1);
    let b = apply(s, e2);
    assert(resolve(a, e2.target) == resolve(s, e2.target));
    assert(resolve(b, e1.target) == resolve(s, e1.target));
    match (resolve(s, e1.target), resolve(s, e2.target)) {
        (Some(i), Some(j)) => {
            assert(a.slots[j] == s.slots[j]);
            assert(b.slots[i] == s.slots[i]);
            assert(apply(a, e2).slots =~= apply(b, e1).slots);
        },
        _ => {},
    }
}

/// Whether `e` is a reaction of `actor` that resolves to slot `i`.
pub open spec fn reacts_on(e: MessageLike, s: ReduceState, actor: ParticipantView, i: int) -> bool {
    e.payload is Reaction && e.from@ == actor && resolve(s, e.target) == Some(i)
}

/// Whether `e` retracts the message of slot `i`.
pub open spec fn retracts(e: MessageLike, s: ReduceState, i: int) -> bool {
    e.payload is Retraction && resolve(s, e.target) == Some(i)
}

/// Whether slot `i` holds a message whose reactions have distinct emojis.
pub open spec fn live_with_distinct_emojis(s: ReduceState, i: int) -> bool {
    s.slots[i] matches Some(m) && distinct_emojis_in(m.reactions)
}

proof fn lemma_slot_stays_live(s: ReduceState, mods: Seq<MessageLike>, i: int)
    requires
        state_wf(s),
        0 <= i < s.slots.len(),
        live_with_distinct_emojis(s, i),
        forall|k: int| 0 <= k < mods.len() ==> !retracts(#[trigger] mods[k], s, i),
    ensures
        live_with_distinct_emojis(applied(s, mods), i),
    decreases mods.len(),
{
    if mods.len() > 0 {
        let prev = mods.drop_last();
        assert forall|k: int| 0 <= k < prev.len() implies !retracts(#[trigger] prev[k], s, i) by {
            assert(prev[k] == mods[k]);
        }
        lemma_slot_stays_live(s, prev, i);
        lemma_applied_keeps_index(s, prev);
        let p = applied(s, prev);
        let e = mods.last();
        assert(!retracts(mods[mods.len() - 1], s, i));
        lemma_resolve_in_bounds(p, e.target);
        assert(resolve(p, e.target) == resolve(s, e.target));
        if resolve(p, e.target) == Some(i) {
            let m = p.slots[i]->Some_0;
            if let Payload::Reaction { emojis } = e.payload {
                let other = (!e.from@.0, e.from@.1);
                lemma_snapshot_keeps_others(m.reactions, e.from@, string_views(emojis@), other);
            }
        }
    }
}

/// For each message and participant, the participant's reactions on the
/// message are those of its last reaction event to it, each once, however
/// other events interleave, as long as the message is not retracted.
pub proof fn lemma_last_reaction_wins(
    s: ReduceState,
    mods: Seq<MessageLike>,
    i: int,
    actor: ParticipantView,
    last: int,
)
    requires
        state_wf(s),
        0 <= i < s.slots.len(),
        live_with_distinct_emojis(s, i),
        0 <= last < mods.len(),
        reacts_on(mods[last], s, actor, i),
        forall|k: int| last < k < mods.len() ==> !reacts_on(#[trigger] mods[k], s, actor, i),
        forall|k: int| 0 <= k < mods.len() ==> !retracts(#[trigger] mods[k], s, i),
    ensures
        applied(s, mods).slots[i] matches Some(m) && emojis_of(m.reactions, actor).no_duplicates()
            && forall|e: Seq<char>|
            emojis_of(m.reactions, actor).contains(e) <==> string_views(
                mods[last].payload->Reaction_emojis@,
            ).contains(e),
    decreases mods.len(),
{
    let prev = mods.drop_last();
    let e = mods.last();
    let n = mods.len() - 1;
    assert(e == mods[n]);
    assert forall|k: int| 0 <= k < prev.len() implies !retracts(#[trigger] prev[k], s, i) by {
        assert(prev[k] == mods[k]);
    }
    lemma_slot_stays_live(s, prev, i);
    lemma_applied_keeps_index(s, prev);
    let p = applied(s, prev);
    lemma_resolve_in_bounds(p, e.target);
    assert(resolve(p, e.target) == resolve(s, e.target));
    if n == last {
        let m = p.slots[i]->Some_0;
        lemma_reaction_snapshot(m.reactions, actor, string_views(e.payload->Reaction_emojis@));
    } else {
        assert(mods[last] == prev[last]);
        assert forall|k: int| last < k < prev.len() implies !reacts_on(#[trigger] prev[k], s, actor, i) by {
            assert(prev[k] == mods[k]);
        }
        lemma_last_reaction_wins(s, prev, i, actor, last);
        assert(!reacts_on(mods[n], s, actor, i));
        assert(!retracts(mods[n], s, i));
        if resolve(p, e.target) == Some(i) {
            let m = p.slots[i]->Some_0;
            if let Payload::Reaction { emojis } = e.payload {
                lemma_snapshot_keeps_others(m.reactions, e.from@, string_views(emojis@), actor);
            }
        }
    }
}

proof fn lemma_recorded_fresh(events: Seq<MessageLike>)
    ensures
        forall|j: int|
            0 <= j < recorded(events).slots.len() ==> (#[trigger] recorded(events).slots[j] matches Some(m)
                && m.reactions.len() == 0 && !m.is_edited),
    decreases events.len(),
{
    if events.len() > 0 {
        lemma_recorded_fresh(events.drop_last());
        lemma_recorded_wf(events.drop_last());
        let s = recorded(events.drop_last());
        let e = events.last();
        if is_message_event(e) {
            let k = e.id.0@;
            if s.keys.contains(k) {
                let i = choose|i: int| 0 <= i < s.keys.len() && s.keys[i] == k;
                lemma_position(s.keys, i);
            }
            assert(message_of(e).reactions.len() == 0);
        }
    }
}

/// In the reduction of a log, a message that is not retracted carries, for
/// each participant, exactly the emojis of that participant's last reaction
/// event to it, each once.
pub proof fn lemma_reduced_reactions(
    events: Seq<MessageLike>,
    i: int,
    actor: ParticipantView,
    last: int,
)
    requires
        0 <= i < recorded(events).slots.len(),
        0 <= last < modifiers_of(events).len(),
        reacts_on(modifiers_of(events)[last], recorded(events), actor, i),
        forall|k: int|
            last < k < modifiers_of(events).len() ==> !reacts_on(
                #[trigger] modifiers_of(events)[k],
                recorded(events),
                actor,
                i,
            ),
        forall|k: int|
            0 <= k < modifiers_of(events).len() ==> !retracts(
                #[trigger] modifiers_of(events)[k],
                recorded(events),
                i,
            ),
    ensures
        applied(recorded(events), modifiers_of(events)).slots[i] matches Some(m)
            && emojis_of(m.reactions, actor).no_duplicates() && forall|e: Seq<char>|
            emojis_of(m.reactions, actor).contains(e) <==> string_views(
                modifiers_of(events)[last].payload->Reaction_emojis@,
            ).contains(e),
{
    lemma_recorded_wf(events);
    lemma_recorded_fresh(events);
    assert(recorded(events).slots[i] matches Some(m) && m.reactions.len() == 0);
    lemma_last_reaction_wins(recorded(events), modifiers_of(events), i, actor, last);
}

/// Whether `e` is a correction that resolves to slot `i`.
pub open spec fn corrects(e: MessageLike, s: ReduceState, i: int) -> bool {
    e.payload is Correction && resolve(s, e.target) == Some(i)
}

/// Whether message `m` carries the text and attachments of correction `c`
/// and is marked edited.
pub open spec fn shows_correction(m: MessageView, c: MessageLike) -> bool {
    &&& m.raw == c.payload->Correction_body.raw@
    &&& m.html == c.payload->Correction_body.html@
    &&& m.mentions == c.payload->Correction_body.mentions@
    &&& m.attachments == c.payload->Correction_attachments@
    &&& m.is_encrypted == c.payload->Correction_encryption_info is Some
    &&& m.is_edited
}

proof fn lemma_slot_stays_some(s: ReduceState, mods: Seq<MessageLike>, i: int)
    requires
        state_wf(s),
        0 <= i < s.slots.len(),
        s.slots[i] is Some,
        forall|k: int| 0 <= k < mods.len() ==> !retracts(#[trigger] mods[k], s, i),
    ensures
        applied(s, mods).slots[i] is Some,
    decreases mods.len(),
{
    if mods.len() > 0 {
        let prev = mods.drop_last();
        assert forall|k: int| 0 <= k < prev.len() implies !retracts(#[trigger] prev[k], s, i) by {
            assert(prev[k] == mods[k]);
        }
        lemma_slot_stays_some(s, prev, i);
        lemma_applied_keeps_index(s, prev);
        let p = applied(s, prev);
        let e = mods.last();
        assert(!retracts(mods[mods.len() - 1], s, i));
        lemma_resolve_in_bounds(p, e.target);
        assert(resolve(p, e.target) == resolve(s, e.target));
    }
}

/// Of the corrections of a message, the last one applied gives the message
/// its text, mentions and attachments, and marks it edited, whatever other
/// modifiers come before or after, as long as the message is not retracted.
pub proof fn lemma_last_correction_wins(s: ReduceState, mods: Seq<MessageLike>, i: int, last: int)
    requires
        state_wf(s),
        0 <= i < s.slots.len(),
        s.slots[i] is Some,
        0 <= last < mods.len(),
        corrects(mods[last], s, i),
        forall|k: int| last < k < mods.len() ==> !corrects(#[trigger] mods[k], s, i),
        forall|k: int| 0 <= k < mods.len() ==> !retracts(#[trigger] mods[k], s, i),
    ensures
        applied(s, mods).slots[i] matches Some(m) && shows_correction(m, mods[last]),
    decreases mods.len(),
{
    let prev = mods.drop_last();
    let e = mods.last();
    let n = mods.len() - 1;
    assert(e == mods[n]);
    assert forall|k: int| 0 <= k < prev.len() implies !retracts(#[trigger] prev[k], s, i) by {
        assert(prev[k] == mods[k]);
    }
    lemma_slot_stays_some(s, prev, i);
    lemma_applied_keeps_index(s, prev);
    let p = applied(s, prev);
    lemma_resolve_in_bounds(p, e.target);
    assert(resolve(p, e.target) == resolve(s, e.target));
    if n != last {
        assert(mods[last] == prev[last]);
        assert forall|k: int| last < k < prev.len() implies !corrects(#[trigger] prev[k], s, i) by {
            assert(prev[k] == mods[k]);
        }
        lemma_last_correction_wins(s, prev, i, last);
        assert(!corrects(mods[n], s, i));
        assert(!retracts(mods[n], s, i));
    }
}

/// In the reduction of a log, a message that is not retracted shows its last
/// correction.
pub proof fn lemma_reduced_correction(events: Seq<MessageLike>, i: int, last: int)
    requires
        0 <= i < recorded(events).slots.len(),
        0 <= last < modifiers_of(events).len(),
        corrects(modifiers_of(events)[last], recorded(events), i),
        forall|k: int|
            last < k < modifiers_of(events).len() ==> !corrects(
                #[trigger] modifiers_of(events)[k],
                recorded(events),
                i,
            ),
        forall|k: int|
            0 <= k < modifiers_of(events).len() ==> !retracts(
                #[trigger] modifiers_of(events)[k],
                recorded(events),
                i,
            ),
    ensures
        applied(recorded(events), modifiers_of(events)).slots[i] matches Some(m) && shows_correction(
            m,
            modifiers_of(events)[last],
        ),
{
    lemma_recorded_wf(events);
    lemma_recorded_fresh(events);
    lemma_last_correction_wins(recorded(events), modifiers_of(events), i, last);
}

/// The message events among `events`, in input order.
pub open spec fn message_events_of(events: Seq<MessageLike>) -> Seq<MessageLike>
    decreases events.len(),
{
    if events.len() == 0 {
        events
    } else if is_message_event(events.last()) {
        message_events_of(events.drop_last()).push(events.last())
    } else {
        message_events_of(events.drop_last())
    }
}

proof fn lemma_recorded_message_events(events: Seq<MessageLike>)
    ensures
        recorded(events) == recorded(message_events_of(events)),
    decreases events.len(),
{
    if events.len() > 0 {
        lemma_recorded_message_events(events.drop_last());
        if is_message_event(events.last()) {
            let m = message_events_of(events.drop_last());
            assert(m.push(events.last()).drop_last() =~= m);
        }
    }
}

/// Moving modifiers across message events changes nothing: two logs with
/// the same message events in the same order and the same modifiers in the
/// same order reduce to the same messages.
pub proof fn lemma_interleaving_is_irrelevant(a: Seq<MessageLike>, b: Seq<MessageLike>)
    requires
        message_events_of(a) == message_events_of(b),
        modifiers_of(a) == modifiers_of(b),
    ensures
        reduced(a) == reduced(b),
{
    lemma_recorded_message_events(a);
    lemma_recorded_message_events(b);
}

// ---------------------------------------------------------------------------
// From slots to the reduced messages
// ---------------------------------------------------------------------------

/// The `remote_id` a message with client id `k` carries.
pub open spec fn remote_id_of_key(k: Seq<char>) -> Option<Seq<char>> {
    if crate::message_like::is_synthetic(k) {
        None
    } else {
        Some(k)
    }
}

/// Every live slot holds a message whose `remote_id` comes from its key.
pub open spec fn ids_match(s: ReduceState) -> bool {
    forall|k: int|
        0 <= k < s.slots.len() && #[trigger] s.slots[k] is Some ==> s.slots[k]->Some_0.remote_id
            == remote_id_of_key(s.keys[k])
}

proof fn lemma_recorded_ids(events: Seq<MessageLike>)
    ensures
        ids_match(recorded(events)),
    decreases events.len(),
{
    if events.len() > 0 {
        lemma_recorded_ids(events.drop_last());
        lemma_recorded_wf(events.drop_last());
        let s = recorded(events.drop_last());
        let e = events.last();
        if is_message_event(e) {
            let k = e.id.0@;
            if s.keys.contains(k) {
                let i = choose|i: int| 0 <= i < s.keys.len() && s.keys[i] == k;
                lemma_position(s.keys, i);
            }
        }
    }
}

proof fn lemma_applied_ids(s: ReduceState, mods: Seq<MessageLike>)
    requires
        state_wf(s),
        ids_match(s),
    ensures
        ids_match(applied(s, mods)),
    decreases mods.len(),
{
    if mods.len() > 0 {
        lemma_applied_ids(s, mods.drop_last());
        lemma_applied_keeps_index(s, mods.drop_last());
        let p = applied(s, mods.drop_last());
        lemma_resolve_in_bounds(p, mods.last().target);
    }
}

proof fn lemma_surviving_members(slots: Seq<Option<MessageView>>)
    ensures
        forall|o: MessageView|
            surviving(slots).contains(o) <==> exists|k: int| 0 <= k < slots.len() && slots[k] == Some(o),
    decreases slots.len(),
{
    if slots.len() > 0 {
        let prev = slots.drop_last();
        lemma_surviving_members(prev);
        assert forall|o: MessageView|
            surviving(slots).contains(o) <==> exists|k: int| 0 <= k < slots.len() && slots[k] == Some(o) by {
            assert(surviving(prev).contains(o) == exists|k: int| 0 <= k < prev.len() && prev[k] == Some(o));
            match slots.last() {
                Some(m) => {
                    assert(surviving(slots) == surviving(prev).push(m));
                    vstd::seq_lib::lemma_seq_contains_after_push(surviving(prev), m, o);
                },
                None => {},
            }
            if exists|k: int| 0 <= k < slots.len() && slots[k] == Some(o) {
                let k = choose|k: int| 0 <= k < slots.len() && slots[k] == Some(o);
                if k < prev.len() {
                    assert(prev[k] == slots[k]);
                }
            }
            if exists|k: int| 0 <= k < prev.len() && prev[k] == Some(o) {
                let k = choose|k: int| 0 <= k < prev.len() && prev[k] == Some(o);
                assert(slots[k] == prev[k]);
            }
        }
    }
}

/// The final state of reducing `events`.
pub open spec fn final_state(events: Seq<MessageLike>) -> ReduceState {
    applied(recorded(events), modifiers_of(events))
}

/// The reduced messages with `remote_id` `x` are exactly the message of the
/// slot of client id `x`, if that slot is live.
proof fn lemma_output_of_key(events: Seq<MessageLike>, x: Seq<char>)
    requires
        !crate::message_like::is_synthetic(x),
        recorded(events).keys.contains(x),
    ensures
        0 <= position(recorded(events).keys, x) < final_state(events).slots.len(),
        position(recorded(events).keys, x) < recorded(events).slots.len(),
        forall|o: MessageView|
            reduced(events).contains(o) && o.remote_id == Some(x) ==> final_state(events).slots[position(
                recorded(events).keys,
                x,
            )] == Some(o),
        final_state(events).slots[position(recorded(events).keys, x)] matches Some(m) ==> reduced(
            events,
        ).contains(m) && m.remote_id == Some(x),
{
    let s = recorded(events);
    let f = final_state(events);
    lemma_recorded_wf(events);
    lemma_recorded_ids(events);
    lemma_applied_keeps_index(s, modifiers_of(events));
    lemma_applied_ids(s, modifiers_of(events));
    lemma_surviving_members(f.slots);
    let i = choose|i: int| 0 <= i < s.keys.len() && s.keys[i] == x;
    lemma_position(s.keys, i);
    assert forall|o: MessageView| reduced(events).contains(o) && o.remote_id == Some(x) implies f.slots[i]
        == Some(o) by {
        let k = choose|k: int| 0 <= k < f.slots.len() && f.slots[k] == Some(o);
        assert(f.slots[k] is Some);
        assert(remote_id_of_key(f.keys[k]) == Some(x));
        assert(f.keys[k] == x);
    }
    if f.slots[i] is Some {
        assert(f.slots[i]->Some_0.remote_id == remote_id_of_key(f.keys[i]));
    }
}

/// A retracted message is absent from the reduced messages: none of them
/// has its client id.
pub proof fn lemma_reduced_retraction(events: Seq<MessageLike>, x: Seq<char>, k: int)
    requires
        !crate::message_like::is_synthetic(x),
        recorded(events).keys.contains(x),
        0 <= k < modifiers_of(events).len(),
        retracts(modifiers_of(events)[k], recorded(events), position(recorded(events).keys, x)),
    ensures
        forall|o: MessageView| reduced(events).contains(o) ==> o.remote_id != Some(x),
{
    let s = recorded(events);
    let mods = modifiers_of(events);
    let i = position(s.keys, x);
    lemma_recorded_wf(events);
    lemma_output_of_key(events, x);
    let before = mods.take(k);
    let later = mods.skip(k + 1);
    assert(mods =~= before.push(mods[k]) + later);
    lemma_applied_keeps_index(s, before);
    assert(resolve(applied(s, before), mods[k].target) == resolve(s, mods[k].target));
    lemma_retraction_is_final(s, before, mods[k], later, i);
}

/// Among the reduced messages, the one with client id `x` shows the last
/// correction of that message, unless the message was retracted.
pub proof fn lemma_reduced_shows_last_correction(events: Seq<MessageLike>, x: Seq<char>, last: int)
    requires
        !crate::message_like::is_synthetic(x),
        recorded(events).keys.contains(x),
        0 <= last < modifiers_of(events).len(),
        corrects(modifiers_of(events)[last], recorded(events), position(recorded(events).keys, x)),
        forall|k: int|
            last < k < modifiers_of(events).len() ==> !corrects(
                #[trigger] modifiers_of(events)[k],
                recorded(events),
                position(recorded(events).keys, x),
            ),
        forall|k: int|
            0 <= k < modifiers_of(events).len() ==> !retracts(
                #[trigger] modifiers_of(events)[k],
                recorded(events),
                position(recorded(events).keys, x),
            ),
    ensures
        exists|o: MessageView| reduced(events).contains(o) && o.remote_id == Some(x),
        forall|o: MessageView|
            reduced(events).contains(o) && o.remote_id == Some(x) ==> shows_correction(
                o,
                modifiers_of(events)[last],
            ),
{
    lemma_output_of_key(events, x);
    lemma_reduced_correction(events, position(recorded(events).keys, x), last);
    let m = final_state(events).slots[position(recorded(events).keys, x)]->Some_0;
    assert(reduced(events).contains(m) && m.remote_id == Some(x));
}

/// Among the reduced messages, the one with client id `x` carries, for
/// `actor`, exactly the emojis of the actor's last reaction event to it,
/// each once, unless the message was retracted.
pub proof fn lemma_reduced_reaction_set(
    events: Seq<MessageLike>,
    x: Seq<char>,
    actor: ParticipantView,
    last: int,
)
    requires
        !crate::message_like::is_synthetic(x),
        recorded(events).keys.contains(x),
        0 <= last < modifiers_of(events).len(),
        reacts_on(modifiers_of(events)[last], recorded(events), actor, position(recorded(events).keys, x)),
        forall|k: int|
            last < k < modifiers_of(events).len() ==> !reacts_on(
                #[trigger] modifiers_of(events)[k],
                recorded(events),
                actor,
                position(recorded(events).keys, x),
            ),
        forall|k: int|
            0 <= k < modifiers_of(events).len() ==> !retracts(
                #[trigger] modifiers_of(events)[k],
                recorded(events),
                position(recorded(events).keys, x),
            ),
    ensures
        exists|o: MessageView| reduced(events).contains(o) && o.remote_id == Some(x),
        forall|o: MessageView|
            reduced(events).contains(o) && o.remote_id == Some(x) ==> emojis_of(o.reactions, actor).no_duplicates()
                && forall|e: Seq<char>|
                emojis_of(o.reactions, actor).contains(e) <==> string_views(
                    modifiers_of(events)[last].payload->Reaction_emojis@,
                ).contains(e),
{
    lemma_output_of_key(events, x);
    lemma_reduced_reactions(events, position(recorded(events).keys, x), actor, last);
    let m = final_state(events).slots[position(recorded(events).keys, x)]->Some_0;
    assert(reduced(events).contains(m) && m.remote_id == Some(x));
}

/// The flag that receipt `r` sets.
pub open spec fn receipt_flag(m: MessageView, r: MessageLike) -> bool {
    if r.payload is ReadReceipt {
        m.is_read
    } else {
        m.is_delivered
    }
}

proof fn lemma_flag_stays(s: ReduceState, mods: Seq<MessageLike>, i: int, r: MessageLike)
    requires
        state_wf(s),
        0 <= i < s.slots.len(),
        s.slots[i] matches Some(m) ==> receipt_flag(m, r),
    ensures
        applied(s, mods).slots[i] matches Some(m) ==> receipt_flag(m, r),
    decreases mods.len(),
{
    if mods.len() > 0 {
        lemma_flag_stays(s, mods.drop_last(), i, r);
        lemma_applied_keeps_index(s, mods.drop_last());
        let p = applied(s, mods.drop_last());
        lemma_resolve_in_bounds(p, mods.last().target);
    }
}

proof fn lemma_modifiers_concat(a: Seq<MessageLike>, b: Seq<MessageLike>)
    ensures
        modifiers_of(a + b) == modifiers_of(a) + modifiers_of(b),
        message_events_of(a + b) == message_events_of(a) + message_events_of(b),
    decreases b.len(),
{
    if b.len() == 0 {
        assert(a + b =~= a);
        assert(modifiers_of(a) + modifiers_of(b) =~= modifiers_of(a));
        assert(message_events_of(a) + message_events_of(b) =~= message_events_of(a));
    } else {
        assert((a + b).drop_last() =~= a + b.drop_last());
        lemma_modifiers_concat(a, b.drop_last());
        assert(modifiers_of(a + b) =~= modifiers_of(a) + modifiers_of(b));
        assert(message_events_of(a + b) =~= message_events_of(a) + message_events_of(b));
    }
}

/// A receipt applied once more after other modifiers changes nothing.
proof fn lemma_receipt_again(s: ReduceState, a: Seq<MessageLike>, r: MessageLike, b: Seq<MessageLike>)
    requires
        state_wf(s),
        is_receipt(r),
    ensures
        apply(applied(s, a.push(r) + b), r) == applied(s, a.push(r) + b),
{
    lemma_applied_keeps_index(s, a);
    let q0 = applied(s, a);
    assert(a.push(r).drop_last() =~= a);
    let q = applied(s, a.push(r));
    lemma_applied_keeps_index(s, a.push(r));
    lemma_applied_concat(s, a.push(r), b);
    lemma_applied_keeps_index(q, b);
    let p = applied(q, b);
    lemma_resolve_in_bounds(q0, r.target);
    match resolve(q0, r.target) {
        Some(i) => {
            assert(q.slots[i] matches Some(m) ==> receipt_flag(m, r));
            lemma_flag_stays(q, b, i, r);
            assert(resolve(p, r.target) == Some(i));
            match p.slots[i] {
                Some(m) => {
                    assert(modified(m, r) == Some(m));
                    assert(p.slots.update(i, Some(m)) =~= p.slots);
                },
                None => {},
            }
        },
        None => {
            assert(resolve(p, r.target) is None);
        },
    }
}

/// A second copy of a delivery or read receipt, anywhere after the first,
/// leaves the reduced messages unchanged.
pub proof fn lemma_repeated_receipt(
    a: Seq<MessageLike>,
    r: MessageLike,
    b: Seq<MessageLike>,
    c: Seq<MessageLike>,
)
    requires
        is_receipt(r),
    ensures
        reduced(a.push(r) + b.push(r) + c) == reduced(a.push(r) + b + c),
{
    let xs = a.push(r) + b + c;
    let ys = a.push(r) + b.push(r) + c;
    lemma_modifiers_concat(a.push(r) + b.push(r), c);
    lemma_modifiers_concat(a.push(r) + b, c);
    lemma_modifiers_concat(a.push(r), b.push(r));
    lemma_modifiers_concat(a.push(r), b);
    lemma_modifiers_concat(a, seq![r]);
    lemma_modifiers_concat(b, seq![r]);
    assert(a.push(r) =~= a + seq![r]);
    assert(b.push(r) =~= b + seq![r]);
    assert(seq![r].drop_last() =~= Seq::<MessageLike>::empty());
    let one = seq![r];
    assert(one.last() == r);
    assert(!is_message_event(r));
    assert(modifiers_of(one.drop_last()) == Seq::<MessageLike>::empty());
    assert(message_events_of(one.drop_last()) == Seq::<MessageLike>::empty());
    assert(modifiers_of(one) =~= seq![r]);
    assert(message_events_of(one) =~= Seq::<MessageLike>::empty());
    let ma = modifiers_of(a);
    let mb = modifiers_of(b);
    let mc = modifiers_of(c);
    assert(modifiers_of(ys) =~= (ma.push(r) + mb).push(r) + mc);
    assert(modifiers_of(xs) =~= (ma.push(r) + mb) + mc);
    assert(message_events_of(ys) =~= message_events_of(xs));
    lemma_recorded_message_events(xs);
    lemma_recorded_message_events(ys);
    let s = recorded(xs);
    lemma_recorded_wf(xs);
    lemma_applied_concat(s, (ma.push(r) + mb).push(r), mc);
    lemma_applied_concat(s, ma.push(r) + mb, mc);
    assert((ma.push(r) + mb).push(r).drop_last() =~= ma.push(r) + mb);
    lemma_receipt_again(s, ma, r, mb);
}

/// Whether `m` still has the text, attachments and flags of `orig`.
pub open spec fn keeps_text(m: MessageView, orig: MessageView) -> bool {
    &&& m.raw == orig.raw
    &&& m.html == orig.html
    &&& m.mentions == orig.mentions
    &&& m.attachments == orig.attachments
    &&& m.is_edited == orig.is_edited
}

proof fn lemma_text_stays(s: ReduceState, mods: Seq<MessageLike>, i: int, orig: MessageView)
    requires
        state_wf(s),
        0 <= i < s.slots.len(),
        s.slots[i] matches Some(m) ==> keeps_text(m, orig),
        forall|k: int| 0 <= k < mods.len() ==> !corrects(#[trigger] mods[k], s, i),
    ensures
        applied(s, mods).slots[i] matches Some(m) ==> keeps_text(m, orig),
    decreases mods.len(),
{
    if mods.len() > 0 {
        let prev = mods.drop_last();
        assert forall|k: int| 0 <= k < prev.len() implies !corrects(#[trigger] prev[k], s, i) by {
            assert(prev[k] == mods[k]);
        }
        lemma_text_stays(s, prev, i, orig);
        lemma_applied_keeps_index(s, prev);
        let p = applied(s, prev);
        lemma_resolve_in_bounds(p, mods.last().target);
        assert(!corrects(mods[mods.len() - 1], s, i));
        assert(resolve(p, mods.last().target) == resolve(s, mods.last().target));
    }
}

/// A message that no correction targets keeps, among the reduced messages,
/// the text it was sent with, and is not marked edited.
pub proof fn lemma_reduced_without_correction(events: Seq<MessageLike>, x: Seq<char>)
    requires
        !crate::message_like::is_synthetic(x),
        recorded(events).keys.contains(x),
        forall|k: int|
            0 <= k < modifiers_of(events).len() ==> !corrects(
                #[trigger] modifiers_of(events)[k],
                recorded(events),
                position(recorded(events).keys, x),
            ),
    ensures
        recorded(events).slots[position(recorded(events).keys, x)] matches Some(orig) && forall|o: MessageView|
            reduced(events).contains(o) && o.remote_id == Some(x) ==> keeps_text(o, orig) && !o.is_edited,
{
    lemma_output_of_key(events, x);
    lemma_recorded_wf(events);
    lemma_recorded_fresh(events);
    let i = position(recorded(events).keys, x);
    let orig = recorded(events).slots[i]->Some_0;
    lemma_text_stays(recorded(events), modifiers_of(events), i, orig);
}

/// Whether `e` is a read receipt (`read`) or a delivery receipt (`!read`).
pub open spec fn sets_flag(e: MessageLike, read: bool) -> bool {
    if read {
        e.payload is ReadReceipt
    } else {
        e.payload is DeliveryReceipt
    }
}

pub open spec fn flag_of(m: MessageView, read: bool) -> bool {
    if read {
        m.is_read
    } else {
        m.is_delivered
    }
}

/// Whether one of `mods` is a receipt of that kind that resolves to slot `i`.
pub open spec fn receipt_reaches(mods: Seq<MessageLike>, s: ReduceState, i: int, read: bool) -> bool {
    exists|k: int| 0 <= k < mods.len() && sets_flag(mods[k], read) && resolve(s, mods[k].target) == Some(i)
}

proof fn lemma_flag_iff(s: ReduceState, mods: Seq<MessageLike>, i: int, read: bool)
    requires
        state_wf(s),
        0 <= i < s.slots.len(),
    ensures
        applied(s, mods).slots[i] matches Some(m) ==> s.slots[i] is Some && (flag_of(m, read) <==> (
        flag_of(s.slots[i]->Some_0, read) || receipt_reaches(mods, s, i, read))),
    decreases mods.len(),
{
    if mods.len() > 0 {
        let prev = mods.drop_last();
        let e = mods.last();
        lemma_flag_iff(s, prev, i, read);
        lemma_applied_keeps_index(s, prev);
        let p = applied(s, prev);
        lemma_resolve_in_bounds(p, e.target);
        assert(resolve(p, e.target) == resolve(s, e.target));
        assert(e == mods[mods.len() - 1]);
        assert forall|k: int| 0 <= k < prev.len() implies prev[k] == mods[k] by {}
        if receipt_reaches(prev, s, i, read) {
            let k = choose|k: int|
                0 <= k < prev.len() && sets_flag(prev[k], read) && resolve(s, prev[k].target) == Some(i);
            assert(mods[k] == prev[k]);
        }
        if receipt_reaches(mods, s, i, read) {
            let k = choose|k: int|
                0 <= k < mods.len() && sets_flag(mods[k], read) && resolve(s, mods[k].target) == Some(i);
            if k < prev.len() {
                assert(prev[k] == mods[k]);
            }
        }
    }
}

/// Among the reduced messages, the one with client id `x` is marked read
/// (delivered) exactly when some read (delivery) receipt resolves to it:
/// receipts set their flag and nothing clears it.
pub proof fn lemma_reduced_receipt_flags(events: Seq<MessageLike>, x: Seq<char>, read: bool)
    requires
        !crate::message_like::is_synthetic(x),
        recorded(events).keys.contains(x),
    ensures
        forall|o: MessageView|
            reduced(events).contains(o) && o.remote_id == Some(x) ==> (flag_of(o, read)
                <==> receipt_reaches(
                modifiers_of(events),
                recorded(events),
                position(recorded(events).keys, x),
                read,
            )),
{
    lemma_output_of_key(events, x);
    lemma_recorded_wf(events);
    lemma_recorded_fresh(events);
    lemma_recorded_unflagged(events);
    let i = position(recorded(events).keys, x);
    lemma_flag_iff(recorded(events), modifiers_of(events), i, read);
}

proof fn lemma_recorded_unflagged(events: Seq<MessageLike>)
    ensures
        forall|j: int|
            0 <= j < recorded(events).slots.len() && #[trigger] recorded(events).slots[j] is Some
                ==> !recorded(events).slots[j]->Some_0.is_read
                && !recorded(events).slots[j]->Some_0.is_delivered,
    decreases events.len(),
{
    if events.len() > 0 {
        lemma_recorded_unflagged(events.drop_last());
        lemma_recorded_wf(events.drop_last());
        let s = recorded(events.drop_last());
        let e = events.last();
        if is_message_event(e) {
            let k = e.id.0@;
            if s.keys.contains(k) {
                let i = choose|i: int| 0 <= i < s.keys.len() && s.keys[i] == k;
                lemma_position(s.keys, i);
            }
        }
    }
}

} // verus!
