//! The end-to-end encryption composition: which devices a message is
//! encrypted for, the symmetric layer around the per-device key wrap,
//! pre-key replenishment and device-list upkeep.

use vstd::prelude::*;
use vstd::string::StringExecFns;
use vstd::utf8::{decode_utf8, encode_utf8, valid_utf8};

use aes_gcm::aead::Aead;
use aes_gcm::{AeadCore, KeyInit};
use rand::seq::SliceRandom;

verus! {

/// Size of the symmetric data key.
pub const KEY_SIZE: usize = 16;

/// Size of the authentication tag.
pub const MAC_SIZE: usize = 16;

/// Size of the nonce.
pub const NONCE_SIZE: usize = 12;

/// The longest plaintext AES-GCM encrypts: 2^36 bytes.
pub const MAX_PLAINTEXT: u64 = 0x10_0000_0000;

/// The published bundle is kept at pre-keys with ids `1..=PRE_KEY_COUNT`.
pub const PRE_KEY_COUNT: u32 = 100;

/// How far a peer device's identity is trusted.
#[derive(Debug, Clone, Copy, PartialEq, Eq, Structural)]
pub enum Trust {
    Trusted,
    Undecided,
    Untrusted,
}

/// Session state with one device of a user.
#[derive(Debug, Clone, Copy, PartialEq, Eq, Structural)]
pub struct Session {
    pub device_id: u32,
    pub trust: Trust,
    pub is_active: bool,
}

impl Session {
    /// Whether messages may be encrypted for this device.
    pub open spec fn is_usable(&self) -> bool {
        self.is_active && !(self.trust is Untrusted)
    }

    pub fn is_trusted_or_undecided(&self) -> (r: bool)
        ensures
            r == !(self.trust is Untrusted),
    {
        match self.trust {
            Trust::Untrusted => false,
            _ => true,
        }
    }
}

/// A device that will receive a wrapped data key.
#[derive(Debug)]
pub struct Recipient {
    pub user_id: String,
    pub device_id: u32,
}

/// Why a message could not be encrypted.
#[derive(Debug, Clone, Copy, PartialEq, Eq, Structural)]
pub enum EncryptionError {
    /// The recipient has no active device to encrypt for.
    NoDevices,
    /// The cipher failed.
    CryptoFailed,
}

/// Why a message could not be decrypted.
#[derive(Debug, Clone, Copy, PartialEq, Eq, Structural)]
pub enum DecryptionError {
    /// No key is addressed to this device.
    NotEncryptedForThisDevice,
    /// The cipher rejected the payload, or it was not text.
    CryptoFailed,
    /// The unwrapped key material has the wrong size.
    SizeMismatch,
}

/// A data key wrapped for one device.
#[derive(Debug)]
pub struct EncryptionKey {
    pub recipient_device_id: u32,
    pub data: Vec<u8>,
    pub is_pre_key: bool,
}

/// An encrypted message as sent: the sender's device, the nonce, one wrapped
/// key per recipient device and the ciphertext without its tag.
#[derive(Debug)]
pub struct EncryptedPayload {
    pub device_id: u32,
    pub iv: Vec<u8>,
    pub keys: Vec<EncryptionKey>,
    pub payload: Vec<u8>,
}

/// The ids of the usable sessions, in order.
pub open spec fn usable_ids(sessions: Seq<Session>) -> Seq<u32>
    decreases sessions.len(),
{
    if sessions.len() == 0 {
        Seq::empty()
    } else if sessions.last().is_usable() {
        usable_ids(sessions.drop_last()).push(sessions.last().device_id)
    } else {
        usable_ids(sessions.drop_last())
    }
}

/// `ids` without `id`.
pub open spec fn without_id(ids: Seq<u32>, id: u32) -> Seq<u32>
    decreases ids.len(),
{
    if ids.len() == 0 {
        ids
    } else if ids.last() != id {
        without_id(ids.drop_last(), id).push(ids.last())
    } else {
        without_id(ids.drop_last(), id)
    }
}

/// The devices of active sessions that are not distrusted.
pub fn active_and_trusted_device_ids(sessions: &Vec<Session>) -> (r: Vec<u32>)
    ensures
        r@ == usable_ids(sessions@),
{
    let mut r: Vec<u32> = Vec::new();
    let mut i: usize = 0;
    while i < sessions.len()
        invariant
            i <= sessions.len(),
            r@ == usable_ids(sessions@.take(i as int)),
        decreases sessions.len() - i,
    {
        assert(sessions@.take(i as int + 1).drop_last() =~= sessions@.take(i as int));
        let s = sessions[i];
        if s.is_active && s.is_trusted_or_undecided() {
            r.push(s.device_id);
        }
        i += 1;
    }
    assert(sessions@.take(sessions.len() as int) =~= sessions@);
    r
}

/// The devices that a message to `peer` is encrypted for: the usable devices
/// of the sender's other devices, then those of the peer. `NoDevices` when
/// the peer has no usable device.
pub open spec fn recipients_spec(
    own_sessions: Seq<Session>,
    local_device_id: u32,
    peer_sessions: Seq<Session>,
) -> Option<(Seq<u32>, Seq<u32>)> {
    if usable_ids(peer_sessions).len() == 0 {
        None
    } else {
        Some((without_id(usable_ids(own_sessions), local_device_id), usable_ids(peer_sessions)))
    }
}

pub open spec fn recipient_view(r: Recipient) -> (Seq<char>, u32) {
    (r.user_id@, r.device_id)
}

pub open spec fn recipient_views(rs: Seq<Recipient>) -> Seq<(Seq<char>, u32)> {
    rs.map_values(|r: Recipient| recipient_view(r))
}

pub open spec fn addressed(user: Seq<char>, ids: Seq<u32>) -> Seq<(Seq<char>, u32)> {
    ids.map_values(|d: u32| (user, d))
}

pub open spec fn selected(ids: Seq<u32>, skip: Option<u32>) -> Seq<u32> {
    match skip {
        Some(s) => without_id(ids, s),
        None => ids,
    }
}

fn push_recipients(out: &mut Vec<Recipient>, user: &String, ids: &Vec<u32>, skip: Option<u32>)
    ensures
        recipient_views(final(out)@) == recipient_views(old(out)@) + addressed(
            user@,
            selected(ids@, skip),
        ),
{
    let ghost base = recipient_views(out@);
    let mut i: usize = 0;
    while i < ids.len()
        invariant
            i <= ids.len(),
            recipient_views(out@) == base + addressed(user@, selected(ids@.take(i as int), skip)),
        decreases ids.len() - i,
    {
        let ghost prev = out@;
        assert(ids@.take(i as int + 1).drop_last() =~= ids@.take(i as int));
        let d = ids[i];
        assert(ids@.take(i as int + 1).last() == d);
        let keep = match skip {
            Some(s) => d != s,
            None => true,
        };
        if keep {
            out.push(Recipient { user_id: user.clone(), device_id: d });
            assert(selected(ids@.take(i as int + 1), skip) =~= selected(ids@.take(i as int), skip).push(d));
            assert(recipient_views(out@) =~= recipient_views(prev).push((user@, d)));
            assert(addressed(user@, selected(ids@.take(i as int + 1), skip)) =~= addressed(
                user@,
                selected(ids@.take(i as int), skip),
            ).push((user@, d)));
        } else {
            assert(selected(ids@.take(i as int + 1), skip) =~= selected(ids@.take(i as int), skip));
        }
        i += 1;
    }
    assert(ids@.take(ids.len() as int) =~= ids@);
}

/// The devices a message is encrypted for, in order; see `recipients_spec`.
pub fn key_recipients(
    own_user: &String,
    own_sessions: &Vec<Session>,
    local_device_id: u32,
    peer: &String,
    peer_sessions: &Vec<Session>,
) -> (r: Result<Vec<Recipient>, EncryptionError>)
    ensures
        match recipients_spec(own_sessions@, local_device_id, peer_sessions@) {
            Some((own, theirs)) => r matches Ok(v) && recipient_views(v@) == addressed(own_user@, own)
                + addressed(peer@, theirs),
            None => r == Err::<Vec<Recipient>, EncryptionError>(EncryptionError::NoDevices),
        },
{
    let theirs = active_and_trusted_device_ids(peer_sessions);
    if theirs.len() == 0 {
        return Err(EncryptionError::NoDevices);
    }
    let ours = active_and_trusted_device_ids(own_sessions);
    let mut out: Vec<Recipient> = Vec::new();
    push_recipients(&mut out, own_user, &ours, Some(local_device_id));
    push_recipients(&mut out, peer, &theirs, None);
    assert(recipient_views(Seq::<Recipient>::empty()) =~= Seq::empty());
    assert(Seq::<(Seq<char>, u32)>::empty() + addressed(
        own_user@,
        without_id(ours@, local_device_id),
    ) =~= addressed(own_user@, without_id(ours@, local_device_id)));
    Ok(out)
}

proof fn lemma_push_distinct<A>(s: Seq<A>, x: A)
    requires
        s.no_duplicates(),
        !s.contains(x),
    ensures
        s.push(x).no_duplicates(),
{
    let p = s.push(x);
    assert forall|a: int, b: int| 0 <= a < p.len() && 0 <= b < p.len() && a != b implies p[a]
        != p[b] by {
        if a < s.len() && b < s.len() {
        } else if a < s.len() {
            assert(s.contains(p[a]));
        } else {
            assert(s.contains(p[b]));
        }
    }
}

/// Whether no two sessions are with the same device.
pub open spec fn distinct_devices(sessions: Seq<Session>) -> bool {
    forall|a: int, b: int|
        0 <= a < b < sessions.len() ==> sessions[a].device_id != sessions[b].device_id
}

proof fn lemma_usable_ids(sessions: Seq<Session>)
    requires
        distinct_devices(sessions),
    ensures
        usable_ids(sessions).no_duplicates(),
        forall|d: u32|
            usable_ids(sessions).contains(d) <==> exists|k: int|
                0 <= k < sessions.len() && sessions[k].is_usable() && sessions[k].device_id == d,
    decreases sessions.len(),
{
    if sessions.len() > 0 {
        let prev = sessions.drop_last();
        assert(distinct_devices(prev));
        lemma_usable_ids(prev);
        let last = sessions.last();
        assert forall|d: u32|
            usable_ids(sessions).contains(d) <==> exists|k: int|
                0 <= k < sessions.len() && sessions[k].is_usable() && sessions[k].device_id == d by {
            if usable_ids(sessions).contains(d) {
                if last.is_usable() && last.device_id == d {
                    assert(sessions[sessions.len() - 1] == last);
                } else {
                    if last.is_usable() {
                        vstd::seq_lib::lemma_seq_contains_after_push(usable_ids(prev), last.device_id, d);
                    }
                    let k = choose|k: int|
                        0 <= k < prev.len() && prev[k].is_usable() && prev[k].device_id == d;
                    assert(sessions[k] == prev[k]);
                }
            }
            if exists|k: int|
                0 <= k < sessions.len() && sessions[k].is_usable() && sessions[k].device_id == d {
                let k = choose|k: int|
                    0 <= k < sessions.len() && sessions[k].is_usable() && sessions[k].device_id == d;
                if k < prev.len() {
                    assert(prev[k] == sessions[k]);
                    if last.is_usable() {
                        vstd::seq_lib::lemma_seq_contains_after_push(usable_ids(prev), last.device_id, d);
                    }
                } else {
                    vstd::seq_lib::lemma_seq_contains_after_push(usable_ids(prev), last.device_id, d);
                }
            }
        }
        if last.is_usable() {
            if usable_ids(prev).contains(last.device_id) {
                let k = choose|k: int|
                    0 <= k < prev.len() && prev[k].is_usable() && prev[k].device_id == last.device_id;
                assert(sessions[k].device_id == sessions[sessions.len() - 1].device_id);
            }
            lemma_push_distinct(usable_ids(prev), last.device_id);
        }
    }
}

proof fn lemma_without_id(ids: Seq<u32>, id: u32)
    requires
        ids.no_duplicates(),
    ensures
        without_id(ids, id).no_duplicates(),
        forall|d: u32| without_id(ids, id).contains(d) <==> ids.contains(d) && d != id,
    decreases ids.len(),
{
    if ids.len() > 0 {
        let prev = ids.drop_last();
        assert(prev.no_duplicates()) by {
            assert forall|a: int, b: int| 0 <= a < prev.len() && 0 <= b < prev.len() && a != b implies prev[a] != prev[b] by {
                assert(prev[a] == ids[a] && prev[b] == ids[b]);
            }
        }
        lemma_without_id(prev, id);
        let last = ids.last();
        assert(ids =~= prev.push(last));
        assert forall|d: u32| without_id(ids, id).contains(d) <==> ids.contains(d) && d != id by {
            vstd::seq_lib::lemma_seq_contains_after_push(prev, last, d);
            assert(ids.contains(d) == (last == d || prev.contains(d)));
            assert(without_id(prev, id).contains(d) == (prev.contains(d) && d != id));
            if last != id {
                assert(without_id(ids, id) == without_id(prev, id).push(last));
                vstd::seq_lib::lemma_seq_contains_after_push(without_id(prev, id), last, d);
            } else {
                assert(without_id(ids, id) == without_id(prev, id));
            }
        }
        if last != id {
            if prev.contains(last) {
                let k = choose|k: int| 0 <= k < prev.len() && prev[k] == last;
                assert(ids[k] == ids[ids.len() - 1]);
            }
            lemma_push_distinct(without_id(prev, id), last);
        }
    } else {
        assert(without_id(ids, id) == ids);
    }
}

proof fn lemma_addressed(user: Seq<char>, ids: Seq<u32>)
    requires
        ids.no_duplicates(),
    ensures
        addressed(user, ids).no_duplicates(),
        forall|x: (Seq<char>, u32)| addressed(user, ids).contains(x) <==> x.0 == user && ids.contains(x.1),
{
    let a = addressed(user, ids);
    assert forall|x: (Seq<char>, u32)| a.contains(x) <==> x.0 == user && ids.contains(x.1) by {
        if a.contains(x) {
            let k = choose|k: int| 0 <= k < a.len() && a[k] == x;
            assert(ids[k] == x.1);
        }
        if x.0 == user && ids.contains(x.1) {
            let k = choose|k: int| 0 <= k < ids.len() && ids[k] == x.1;
            assert(a[k] == x);
        }
    }
}

/// A message is addressed to every usable device of both parties exactly
/// once: to each usable device of the sender other than the local one, and
/// to each usable device of the peer, and to nothing else.
pub proof fn lemma_recipients_exactly_once(
    own_user: Seq<char>,
    own_sessions: Seq<Session>,
    local_device_id: u32,
    peer: Seq<char>,
    peer_sessions: Seq<Session>,
)
    requires
        own_user != peer,
        distinct_devices(own_sessions),
        distinct_devices(peer_sessions),
        recipients_spec(own_sessions, local_device_id, peer_sessions) is Some,
    ensures
        ({
            let (own, theirs) = recipients_spec(own_sessions, local_device_id, peer_sessions)->Some_0;
            let all = addressed(own_user, own) + addressed(peer, theirs);
            &&& all.no_duplicates()
            &&& forall|x: (Seq<char>, u32)|
                all.contains(x) <==> (x.0 == own_user && x.1 != local_device_id && exists|k: int|
                    0 <= k < own_sessions.len() && own_sessions[k].is_usable()
                        && own_sessions[k].device_id == x.1) || (x.0 == peer && exists|k: int|
                    0 <= k < peer_sessions.len() && peer_sessions[k].is_usable()
                        && peer_sessions[k].device_id == x.1)
        }),
{
    lemma_usable_ids(own_sessions);
    lemma_usable_ids(peer_sessions);
    let own = without_id(usable_ids(own_sessions), local_device_id);
    let theirs = usable_ids(peer_sessions);
    lemma_without_id(usable_ids(own_sessions), local_device_id);
    lemma_addressed(own_user, own);
    lemma_addressed(peer, theirs);
    let a = addressed(own_user, own);
    let b = addressed(peer, theirs);
    let all = a + b;
    assert forall|x: (Seq<char>, u32)| all.contains(x) <==> a.contains(x) || b.contains(x) by {
        if all.contains(x) {
            let k = choose|k: int| 0 <= k < all.len() && all[k] == x;
            if k < a.len() {
                assert(a[k] == x);
            } else {
                assert(b[k - a.len()] == x);
            }
        }
        if a.contains(x) {
            let k = choose|k: int| 0 <= k < a.len() && a[k] == x;
            assert(all[k] == x);
        }
        if b.contains(x) {
            let k = choose|k: int| 0 <= k < b.len() && b[k] == x;
            assert(all[k + a.len()] == x);
        }
    }
    assert forall|x: (Seq<char>, u32)|
        all.contains(x) <==> (x.0 == own_user && x.1 != local_device_id && exists|k: int|
            0 <= k < own_sessions.len() && own_sessions[k].is_usable() && own_sessions[k].device_id
                == x.1) || (x.0 == peer && exists|k: int|
            0 <= k < peer_sessions.len() && peer_sessions[k].is_usable() && peer_sessions[k].device_id
                == x.1) by {
        assert(a.contains(x) == (x.0 == own_user && own.contains(x.1)));
        assert(b.contains(x) == (x.0 == peer && theirs.contains(x.1)));
        assert(own.contains(x.1) == (usable_ids(own_sessions).contains(x.1) && x.1 != local_device_id));
    }
    assert forall|i: int, j: int| 0 <= i < all.len() && 0 <= j < all.len() && i != j implies all[i]
        != all[j] by {
        if i < a.len() && j < a.len() {
        } else if i >= a.len() && j >= a.len() {
            assert(all[i] == b[i - a.len()] && all[j] == b[j - a.len()]);
        } else if i < a.len() {
            assert(a.contains(all[i]));
            assert(b.contains(all[j])) by {
                assert(b[j - a.len()] == all[j]);
            }
        } else {
            assert(b.contains(all[i])) by {
                assert(b[i - a.len()] == all[i]);
            }
            assert(a.contains(all[j]));
        }
    }
}

/// A stored session with a device, with the device's identity key when it
/// is known.
#[derive(Debug)]
pub struct SessionRecord {
    pub device_id: u32,
    pub identity: Option<Vec<u8>>,
    pub trust: Trust,
    pub is_active: bool,
}

/// What the embedder is shown of a device.
#[derive(Debug)]
pub struct DeviceInfo {
    pub id: u32,
    pub identity: Vec<u8>,
    pub trust: Trust,
    pub is_active: bool,
    pub is_this_device: bool,
}

/// Whether `d` describes the session `s`, seen from device `this_device`.
pub open spec fn describes(d: DeviceInfo, s: SessionRecord, this_device: Option<u32>) -> bool {
    &&& d.id == s.device_id
    &&& s.identity matches Some(k) && d.identity@ == k@
    &&& d.trust == s.trust
    &&& d.is_active == s.is_active
    &&& d.is_this_device == (this_device == Some(s.device_id))
}

/// The sessions whose identity is known, in order.
pub open spec fn with_identity(ss: Seq<SessionRecord>) -> Seq<SessionRecord>
    decreases ss.len(),
{
    if ss.len() == 0 {
        ss
    } else if ss.last().identity is Some {
        with_identity(ss.drop_last()).push(ss.last())
    } else {
        with_identity(ss.drop_last())
    }
}

fn copy_bytes(b: &Vec<u8>) -> (r: Vec<u8>)
    ensures
        r@ == b@,
{
    let mut r: Vec<u8> = Vec::new();
    let mut i: usize = 0;
    while i < b.len()
        invariant
            i <= b.len(),
            r@ == b@.take(i as int),
        decreases b.len() - i,
    {
        r.push(b[i]);
        i += 1;
        assert(r@ =~= b@.take(i as int));
    }
    assert(b@.take(b.len() as int) =~= b@);
    r
}

/// The devices of a user as shown to the embedder: one per session whose
/// identity is known, marking the local device.
pub fn device_infos(sessions: &Vec<SessionRecord>, this_device: Option<u32>) -> (r: Vec<DeviceInfo>)
    ensures
        r@.len() == with_identity(sessions@).len(),
        forall|k: int|
            0 <= k < r@.len() ==> describes(#[trigger] r@[k], with_identity(sessions@)[k], this_device),
{
    let mut r: Vec<DeviceInfo> = Vec::new();
    let mut i: usize = 0;
    while i < sessions.len()
        invariant
            i <= sessions.len(),
            r@.len() == with_identity(sessions@.take(i as int)).len(),
            forall|k: int|
                0 <= k < r@.len() ==> describes(
                    #[trigger] r@[k],
                    with_identity(sessions@.take(i as int))[k],
                    this_device,
                ),
        decreases sessions.len() - i,
    {
        assert(sessions@.take(i as int + 1).drop_last() =~= sessions@.take(i as int));
        let s = &sessions[i];
        match &s.identity {
            Some(k) => {
                let d = DeviceInfo {
                    id: s.device_id,
                    identity: copy_bytes(k),
                    trust: s.trust,
                    is_active: s.is_active,
                    is_this_device: match this_device {
                        Some(t) => t == s.device_id,
                        None => false,
                    },
                };
                r.push(d);
            },
            None => {},
        }
        i += 1;
    }
    assert(sessions@.take(sessions.len() as int) =~= sessions@);
    r
}

/// The devices with which a session must still be started, in order.
pub open spec fn without_session(devices: Seq<u32>, sessions: Seq<u32>) -> Seq<u32>
    decreases devices.len(),
{
    if devices.len() == 0 {
        devices
    } else if sessions.contains(devices.last()) {
        without_session(devices.drop_last(), sessions)
    } else {
        without_session(devices.drop_last(), sessions).push(devices.last())
    }
}

/// The devices of `devices` that have no session in `sessions`.
pub fn devices_without_session(devices: &Vec<u32>, sessions: &Vec<u32>) -> (r: Vec<u32>)
    ensures
        r@ == without_session(devices@, sessions@),
{
    let mut r: Vec<u32> = Vec::new();
    let mut i: usize = 0;
    while i < devices.len()
        invariant
            i <= devices.len(),
            r@ == without_session(devices@.take(i as int), sessions@),
        decreases devices.len() - i,
    {
        assert(devices@.take(i as int + 1).drop_last() =~= devices@.take(i as int));
        let d = devices[i];
        let mut found = false;
        let mut j: usize = 0;
        while j < sessions.len()
            invariant
                j <= sessions.len(),
                found == exists|k: int| 0 <= k < j && sessions@[k] == d,
            decreases sessions.len() - j,
        {
            if sessions[j] == d {
                found = true;
            }
            j += 1;
        }
        if !found {
            r.push(d);
        }
        i += 1;
    }
    assert(devices@.take(devices.len() as int) =~= devices@);
    r
}

// ---------------------------------------------------------------------------
// Symmetric layer
// ---------------------------------------------------------------------------

/// What AES-128-GCM produces for a key, a nonce and a plaintext: the
/// ciphertext followed by the tag.
pub uninterp spec fn aead_seal(key: Seq<u8>, nonce: Seq<u8>, plaintext: Seq<u8>) -> Seq<u8>;

/// Relies on `Aes128Gcm::generate_key` with the operating system's random
/// source: a fresh random key.
#[verifier::external_body]
fn random_key() -> (r: Vec<u8>)
    ensures
        r@.len() == KEY_SIZE,
{
    aes_gcm::Aes128Gcm::generate_key(aes_gcm::aead::OsRng).to_vec()
}

/// Relies on `Aes128Gcm::generate_nonce` with the operating system's random
/// source: a fresh random nonce.
#[verifier::external_body]
fn random_nonce() -> (r: Vec<u8>)
    ensures
        r@.len() == NONCE_SIZE,
{
    aes_gcm::Aes128Gcm::generate_nonce(aes_gcm::aead::OsRng).to_vec()
}

/// Relies on `Aes128Gcm::encrypt`: the ciphertext with the 16-byte tag
/// appended; it fails exactly on plaintexts longer than 2^36 bytes.
#[verifier::external_body]
fn aead_encrypt(key: &Vec<u8>, nonce: &Vec<u8>, plaintext: &[u8]) -> (r: Option<Vec<u8>>)
    requires
        key@.len() == KEY_SIZE,
        nonce@.len() == NONCE_SIZE,
    ensures
        r is Some <==> plaintext@.len() <= MAX_PLAINTEXT,
        r is Some ==> r->Some_0@ == aead_seal(key@, nonce@, plaintext@),
        r is Some ==> r->Some_0@.len() == plaintext@.len() + MAC_SIZE,
{
    let cipher = aes_gcm::Aes128Gcm::new(aes_gcm::Key::<aes_gcm::Aes128Gcm>::from_slice(key));
    cipher.encrypt(aes_gcm::Nonce::from_slice(nonce), plaintext).ok()
}

/// Relies on `Aes128Gcm::decrypt`: what was sealed under the same key and
/// nonce opens to its plaintext, for plaintexts `encrypt` accepts.
#[verifier::external_body]
fn aead_decrypt(key: &[u8], nonce: &Vec<u8>, sealed: &Vec<u8>) -> (r: Option<Vec<u8>>)
    requires
        key@.len() == KEY_SIZE,
        nonce@.len() == NONCE_SIZE,
    ensures
        forall|p: Seq<u8>|
            p.len() <= MAX_PLAINTEXT && sealed@ == aead_seal(key@, nonce@, p) ==> r is Some
                && r->Some_0@ == p,
{
    let cipher = aes_gcm::Aes128Gcm::new(aes_gcm::Key::<aes_gcm::Aes128Gcm>::from_slice(key));
    cipher.decrypt(aes_gcm::Nonce::from_slice(nonce), sealed.as_slice()).ok()
}

/// Relies on `String::from_utf8`: the text that valid UTF-8 encodes.
#[verifier::external_body]
fn utf8_to_string(bytes: Vec<u8>) -> (r: Option<String>)
    ensures
        r is Some <==> valid_utf8(bytes@),
        r matches Some(s) ==> s@ == decode_utf8(bytes@),
{
    String::from_utf8(bytes).ok()
}

/// A message body encrypted under a fresh data key.
#[derive(Debug)]
pub struct SealedBody {
    pub nonce: Vec<u8>,
    /// The ciphertext without its tag.
    pub payload: Vec<u8>,
    /// The data key followed by the tag: what gets wrapped for each device.
    pub dek_and_mac: Vec<u8>,
}

/// Whether `payload` and `dek_and_mac` are the encryption of the text `p`
/// under `dek` and `nonce`.
pub open spec fn encrypts_to(
    p: Seq<char>,
    dek: Seq<u8>,
    nonce: Seq<u8>,
    payload: Seq<u8>,
    dek_and_mac: Seq<u8>,
) -> bool {
    let c = aead_seal(dek, nonce, encode_utf8(p));
    &&& dek.len() == KEY_SIZE
    &&& nonce.len() == NONCE_SIZE
    &&& encode_utf8(p).len() <= MAX_PLAINTEXT
    &&& c.len() == encode_utf8(p).len() + MAC_SIZE
    &&& payload == c.take(c.len() - MAC_SIZE)
    &&& dek_and_mac == dek + c.skip(c.len() - MAC_SIZE)
}

/// Whether `payload`, with the tag carried in `dek_and_mac`, opens to the
/// text `p` under the data key of `dek_and_mac` and `iv`.
pub open spec fn opens_to(payload: Seq<u8>, iv: Seq<u8>, dek_and_mac: Seq<u8>, p: Seq<char>) -> bool {
    &&& dek_and_mac.len() == KEY_SIZE + MAC_SIZE
    &&& iv.len() == NONCE_SIZE
    &&& encode_utf8(p).len() <= MAX_PLAINTEXT
    &&& payload + dek_and_mac.skip(KEY_SIZE as int) == aead_seal(
        dek_and_mac.take(KEY_SIZE as int),
        iv,
        encode_utf8(p),
    )
}

/// Encrypts `text` under the given data key and nonce.
pub fn seal_body(text: &str, dek: Vec<u8>, nonce: Vec<u8>) -> (r: Result<SealedBody, EncryptionError>)
    requires
        dek@.len() == KEY_SIZE,
        nonce@.len() == NONCE_SIZE,
    ensures
        encode_utf8(text@).len() <= MAX_PLAINTEXT ==> r is Ok,
        r matches Ok(b) ==> b.nonce@ == nonce@ && encrypts_to(
            text@,
            dek@,
            nonce@,
            b.payload@,
            b.dek_and_mac@,
        ),
{
    let bytes = text.as_bytes();
    let sealed = match aead_encrypt(&dek, &nonce, bytes) {
        Some(c) => c,
        None => return Err(EncryptionError::CryptoFailed),
    };
    let n = sealed.len() - MAC_SIZE;
    let mut payload: Vec<u8> = Vec::new();
    let mut dek_and_mac: Vec<u8> = Vec::new();
    let mut i: usize = 0;
    while i < KEY_SIZE
        invariant
            i <= KEY_SIZE,
            dek@.len() == KEY_SIZE,
            dek_and_mac@ == dek@.take(i as int),
        decreases KEY_SIZE - i,
    {
        dek_and_mac.push(dek[i]);
        i += 1;
        assert(dek_and_mac@ =~= dek@.take(i as int));
    }
    let mut j: usize = 0;
    while j < sealed.len()
        invariant
            j <= sealed.len(),
            n == sealed@.len() - MAC_SIZE,
            dek@.len() == KEY_SIZE,
            payload@ == sealed@.take(if j <= n { j as int } else { n as int }),
            dek_and_mac@ == dek@ + sealed@.subrange(n as int, if j <= n { n as int } else { j as int }),
        decreases sealed.len() - j,
    {
        if j < n {
            payload.push(sealed[j]);
        } else {
            dek_and_mac.push(sealed[j]);
        }
        j += 1;
        assert(payload@ =~= sealed@.take(if j <= n { j as int } else { n as int }));
        assert(dek_and_mac@ =~= dek@ + sealed@.subrange(n as int, if j <= n { n as int } else { j as int }));
    }
    assert(sealed@.subrange(n as int, sealed@.len() as int) =~= sealed@.skip(n as int));
    Ok(SealedBody { nonce, payload, dek_and_mac })
}

/// Decrypts a payload with the unwrapped data key and tag.
pub fn open_body(payload: &Vec<u8>, iv: &Vec<u8>, dek_and_mac: &Vec<u8>) -> (r: Result<
    String,
    DecryptionError,
>)
    ensures
        dek_and_mac@.len() != KEY_SIZE + MAC_SIZE ==> r == Err::<String, DecryptionError>(
            DecryptionError::SizeMismatch,
        ),
        dek_and_mac@.len() == KEY_SIZE + MAC_SIZE && iv@.len() != NONCE_SIZE ==> r == Err::<
            String,
            DecryptionError,
        >(DecryptionError::CryptoFailed),
        forall|p: Seq<char>|
            opens_to(payload@, iv@, dek_and_mac@, p) ==> (r matches Ok(s) && s@ == p),
        r matches Err(e) ==> e is SizeMismatch || e is CryptoFailed,
{
    if dek_and_mac.len() != KEY_SIZE + MAC_SIZE {
        return Err(DecryptionError::SizeMismatch);
    }
    if iv.len() != NONCE_SIZE {
        return Err(DecryptionError::CryptoFailed);
    }
    let mut key: Vec<u8> = Vec::new();
    let mut sealed: Vec<u8> = Vec::new();
    let mut i: usize = 0;
    while i < payload.len()
        invariant
            i <= payload.len(),
            sealed@ == payload@.take(i as int),
        decreases payload.len() - i,
    {
        sealed.push(payload[i]);
        i += 1;
        assert(sealed@ =~= payload@.take(i as int));
    }
    let mut k: usize = 0;
    while k < KEY_SIZE + MAC_SIZE
        invariant
            k <= KEY_SIZE + MAC_SIZE,
            dek_and_mac@.len() == KEY_SIZE + MAC_SIZE,
            key@ == dek_and_mac@.take(if k <= KEY_SIZE { k as int } else { KEY_SIZE as int }),
            sealed@ == payload@ + dek_and_mac@.subrange(
                KEY_SIZE as int,
                if k <= KEY_SIZE { KEY_SIZE as int } else { k as int },
            ),
        decreases KEY_SIZE + MAC_SIZE - k,
    {
        if k < KEY_SIZE {
            key.push(dek_and_mac[k]);
        } else {
            sealed.push(dek_and_mac[k]);
        }
        k += 1;
        assert(key@ =~= dek_and_mac@.take(if k <= KEY_SIZE { k as int } else { KEY_SIZE as int }));
        assert(sealed@ =~= payload@ + dek_and_mac@.subrange(
            KEY_SIZE as int,
            if k <= KEY_SIZE { KEY_SIZE as int } else { k as int },
        ));
    }
    assert(dek_and_mac@.subrange(KEY_SIZE as int, (KEY_SIZE + MAC_SIZE) as int) =~= dek_and_mac@.skip(
        KEY_SIZE as int,
    ));
    let plain = match aead_decrypt(key.as_slice(), iv, &sealed) {
        Some(v) => v,
        None => return Err(DecryptionError::CryptoFailed),
    };
    let ghost pv = plain@;
    let r = match utf8_to_string(plain) {
        Some(s) => Ok(s),
        None => Err(DecryptionError::CryptoFailed),
    };
    proof {
        assert forall|p: Seq<char>| opens_to(payload@, iv@, dek_and_mac@, p) implies (r matches Ok(
            s,
        ) && s@ == p) by {
            assert(pv == encode_utf8(p));
            vstd::utf8::encode_utf8_valid_utf8(p);
            vstd::utf8::encode_utf8_decode_utf8(p);
        }
    }
    r
}

/// Encrypting a text and opening the result with the same key material gives
/// the text back.
pub proof fn lemma_seal_open_round_trip(
    p: Seq<char>,
    dek: Seq<u8>,
    nonce: Seq<u8>,
    payload: Seq<u8>,
    dek_and_mac: Seq<u8>,
)
    requires
        encrypts_to(p, dek, nonce, payload, dek_and_mac),
    ensures
        opens_to(payload, nonce, dek_and_mac, p),
{
    let c = aead_seal(dek, nonce, encode_utf8(p));
    let n = c.len() - MAC_SIZE;
    assert(dek_and_mac.take(KEY_SIZE as int) =~= dek);
    assert(dek_and_mac.skip(KEY_SIZE as int) =~= c.skip(n));
    assert(payload + dek_and_mac.skip(KEY_SIZE as int) =~= c);
}

/// Draws a fresh data key and nonce and encrypts `text` under them.
pub fn encrypt_body(text: &str) -> (r: Result<SealedBody, EncryptionError>)
    ensures
        encode_utf8(text@).len() <= MAX_PLAINTEXT ==> r is Ok,
        r matches Ok(b) ==> exists|dek: Seq<u8>|
            encrypts_to(text@, dek, b.nonce@, b.payload@, b.dek_and_mac@),
{
    let dek = random_key();
    let nonce = random_nonce();
    let ghost d = dek@;
    let r = seal_body(text, dek, nonce);
    proof {
        if r is Ok {
            let b = r->Ok_0;
            assert(encrypts_to(text@, d, b.nonce@, b.payload@, b.dek_and_mac@));
        }
    }
    r
}

/// The key addressed to `device_id`: the first such, if any.
pub fn key_for_device(keys: &Vec<EncryptionKey>, device_id: u32) -> (r: Option<usize>)
    ensures
        match r {
            Some(i) => i < keys@.len() && keys@[i as int].recipient_device_id == device_id
                && forall|j: int| 0 <= j < i ==> keys@[j].recipient_device_id != device_id,
            None => forall|j: int|
                0 <= j < keys@.len() ==> keys@[j].recipient_device_id != device_id,
        },
{
    let mut i: usize = 0;
    while i < keys.len()
        invariant
            i <= keys.len(),
            forall|j: int| 0 <= j < i ==> keys@[j].recipient_device_id != device_id,
        decreases keys.len() - i,
    {
        if keys[i].recipient_device_id == device_id {
            return Some(i);
        }
        i += 1;
    }
    None
}

/// The text of a received message: the decrypted text, or when decryption
/// failed, the body of the message cached under the same id, if it was
/// decrypted before; else the decryption error.
pub fn decrypted_or_cached(
    result: Result<String, DecryptionError>,
    cached: Option<&crate::message_like::MessageLike>,
) -> (r: Result<String, DecryptionError>)
    ensures
        result is Ok ==> r == result,
        result is Err && cached is Some && cached->Some_0.payload is Message ==> (r matches Ok(s)
            && s@ == cached->Some_0.payload->Message_body.raw@),
        result is Err && !(cached is Some && cached->Some_0.payload is Message) ==> r == result,
{
    match result {
        Ok(text) => Ok(text),
        Err(e) => match cached {
            Some(m) => match &m.payload {
                crate::message_like::Payload::Message { body, .. } => Ok(body.raw.clone()),
                _ => Err(e),
            },
            None => Err(e),
        },
    }
}

// ---------------------------------------------------------------------------
// Pre-keys
// ---------------------------------------------------------------------------

/// The pre-key ids in `1..=PRE_KEY_COUNT` below `bound` that `existing`
/// lacks, ascending.
pub open spec fn missing_below(existing: Seq<u32>, bound: int) -> Seq<u32>
    decreases bound,
{
    if bound <= 1 {
        Seq::empty()
    } else {
        let id = (bound - 1) as u32;
        let prev = missing_below(existing, bound - 1);
        if existing.contains(id) {
            prev
        } else {
            prev.push(id)
        }
    }
}

pub open spec fn missing_spec(existing: Seq<u32>) -> Seq<u32> {
    missing_below(existing, PRE_KEY_COUNT as int + 1)
}

/// The pre-key ids in `1..=100` that `existing` lacks, ascending.
pub fn missing_pre_key_ids(existing: &Vec<u32>) -> (r: Vec<u32>)
    ensures
        r@ == missing_spec(existing@),
{
    let mut r: Vec<u32> = Vec::new();
    let mut id: u32 = 1;
    while id <= PRE_KEY_COUNT
        invariant
            1 <= id <= PRE_KEY_COUNT + 1,
            r@ == missing_below(existing@, id as int),
        decreases PRE_KEY_COUNT + 1 - id,
    {
        let mut found = false;
        let mut i: usize = 0;
        while i < existing.len()
            invariant
                i <= existing.len(),
                found == exists|j: int| 0 <= j < i && existing@[j] == id,
            decreases existing.len() - i,
        {
            if existing[i] == id {
                found = true;
            }
            i += 1;
        }
        if !found {
            r.push(id);
        }
        id += 1;
    }
    r
}

proof fn lemma_missing_below(existing: Seq<u32>, bound: int)
    requires
        bound <= PRE_KEY_COUNT + 1,
    ensures
        forall|id: u32| 1 <= id < bound ==> (existing.contains(id) || #[trigger] missing_below(existing, bound).contains(id)),
        forall|id: u32| #[trigger] missing_below(existing, bound).contains(id) ==> 1 <= id < bound && !existing.contains(id),
        forall|a: int, b: int| 0 <= a < b < missing_below(existing, bound).len() ==> missing_below(existing, bound)[a] < missing_below(existing, bound)[b],
    decreases bound,
{
    if bound > 1 {
        lemma_missing_below(existing, bound - 1);
        let prev = missing_below(existing, bound - 1);
        let id0 = (bound - 1) as u32;
        assert forall|id: u32| 1 <= id < bound implies (existing.contains(id) || #[trigger] missing_below(existing, bound).contains(id)) by {
            if id < bound - 1 {
                if !existing.contains(id) {
                    assert(prev.contains(id));
                    let k = choose|k: int| 0 <= k < prev.len() && prev[k] == id;
                    assert(missing_below(existing, bound)[k] == id);
                }
            } else if !existing.contains(id) {
                assert(missing_below(existing, bound).last() == id);
            }
        }
        let m = missing_below(existing, bound);
        assert forall|id: u32| #[trigger] m.contains(id) implies 1 <= id < bound && !existing.contains(id) by {
            let k = choose|k: int| 0 <= k < m.len() && m[k] == id;
            if k < prev.len() {
                assert(prev[k] == id);
                assert(prev.contains(id));
            } else {
                assert(!existing.contains(id0));
                assert(m == prev.push(id0));
            }
        }
        assert forall|a: int, b: int| 0 <= a < b < m.len() implies m[a] < m[b] by {
            if b < prev.len() {
            } else {
                assert(m == prev.push(id0));
                assert(prev.contains(prev[a]));
            }
        }
    }
}

/// After replenishment the bundle holds every pre-key id of `1..=100`: those
/// it kept and the regenerated ones, which are new, in range and ascending.
pub proof fn lemma_replenished_bundle_is_full(existing: Seq<u32>)
    ensures
        forall|id: u32|
            1 <= id <= PRE_KEY_COUNT ==> (existing.contains(id) || #[trigger] missing_spec(
                existing,
            ).contains(id)),
        forall|id: u32| #[trigger]
            missing_spec(existing).contains(id) ==> 1 <= id <= PRE_KEY_COUNT && !existing.contains(id),
        forall|a: int, b: int|
            0 <= a < b < missing_spec(existing).len() ==> missing_spec(existing)[a] < missing_spec(
                existing,
            )[b],
{
    lemma_missing_below(existing, PRE_KEY_COUNT as int + 1);
}

/// A one-time pre-key of the local device.
#[derive(Debug)]
pub struct PreKey {
    pub id: u32,
    pub key: Vec<u8>,
}

pub open spec fn pre_key_ids(ks: Seq<PreKey>) -> Seq<u32> {
    ks.map_values(|k: PreKey| k.id)
}

/// Whether one of `ks` has id `id`.
pub open spec fn has_pre_key(ks: Seq<PreKey>, id: u32) -> bool {
    exists|j: int| 0 <= j < ks.len() && ks[j].id == id
}

/// Whether `k` equals, by id and key, one of `ks`.
pub open spec fn drawn_from(k: PreKey, ks: Seq<PreKey>) -> bool {
    exists|j: int| 0 <= j < ks.len() && ks[j].id == k.id && ks[j].key@ == k.key@
}

fn copy_pre_key(k: &PreKey) -> (r: PreKey)
    ensures
        r.id == k.id,
        r.key@ == k.key@,
{
    let mut key: Vec<u8> = Vec::new();
    let mut i: usize = 0;
    while i < k.key.len()
        invariant
            i <= k.key.len(),
            key@ == k.key@.take(i as int),
        decreases k.key.len() - i,
    {
        key.push(k.key[i]);
        i += 1;
        assert(key@ =~= k.key@.take(i as int));
    }
    assert(k.key@.take(k.key.len() as int) =~= k.key@);
    PreKey { id: k.id, key }
}

fn find_pre_key(ks: &Vec<PreKey>, id: u32) -> (r: Option<usize>)
    ensures
        r matches Some(j) ==> j < ks@.len() && ks@[j as int].id == id,
        r is None ==> !has_pre_key(ks@, id),
{
    let mut j: usize = 0;
    while j < ks.len()
        invariant
            j <= ks.len(),
            forall|k: int| 0 <= k < j ==> ks@[k].id != id,
        decreases ks.len() - j,
    {
        if ks[j].id == id {
            return Some(j);
        }
        j += 1;
    }
    None
}

/// The pre-keys to publish, in id order: for each id of `1..=100`, the
/// stored key with that id, else the regenerated one; ids that neither has
/// are left out.
pub fn bundle_pre_keys(stored: &Vec<PreKey>, generated: &Vec<PreKey>) -> (r: Vec<PreKey>)
    ensures
        forall|k: int| 0 <= k < r@.len() ==> 1 <= #[trigger] r@[k].id <= PRE_KEY_COUNT,
        forall|a: int, b: int| 0 <= a < b < r@.len() ==> r@[a].id < r@[b].id,
        forall|id: u32|
            1 <= id <= PRE_KEY_COUNT ==> (pre_key_ids(r@).contains(id) <==> has_pre_key(stored@, id)
                || has_pre_key(generated@, id)),
        forall|k: int|
            0 <= k < r@.len() ==> drawn_from(#[trigger] r@[k], stored@) || drawn_from(r@[k], generated@),
        forall|k: int|
            0 <= k < r@.len() && has_pre_key(stored@, #[trigger] r@[k].id) ==> drawn_from(r@[k], stored@),
{
    let mut r: Vec<PreKey> = Vec::new();
    let mut id: u32 = 1;
    while id <= PRE_KEY_COUNT
        invariant
            1 <= id <= PRE_KEY_COUNT + 1,
            forall|k: int| 0 <= k < r@.len() ==> 1 <= #[trigger] r@[k].id < id,
            forall|a: int, b: int| 0 <= a < b < r@.len() ==> r@[a].id < r@[b].id,
            forall|x: u32|
                1 <= x < id ==> (pre_key_ids(r@).contains(x) <==> has_pre_key(stored@, x)
                    || has_pre_key(generated@, x)),
            forall|k: int|
                0 <= k < r@.len() ==> drawn_from(#[trigger] r@[k], stored@) || drawn_from(r@[k], generated@),
            forall|k: int|
                0 <= k < r@.len() && has_pre_key(stored@, #[trigger] r@[k].id) ==> drawn_from(r@[k], stored@),
        decreases PRE_KEY_COUNT + 1 - id,
    {
        let found = match find_pre_key(stored, id) {
            Some(j) => Some(copy_pre_key(&stored[j])),
            None => match find_pre_key(generated, id) {
                Some(j) => Some(copy_pre_key(&generated[j])),
                None => None,
            },
        };
        let ghost before = r@;
        match found {
            Some(k) => {
                r.push(k);
                assert(pre_key_ids(r@) =~= pre_key_ids(before).push(id));
                assert forall|x: u32| 1 <= x < id + 1 implies (pre_key_ids(r@).contains(x) <==> has_pre_key(stored@, x)
                    || has_pre_key(generated@, x)) by {
                    vstd::seq_lib::lemma_seq_contains_after_push(pre_key_ids(before), id, x);
                    if x < id && pre_key_ids(before).contains(x) {
                    }
                }
                assert forall|k: int| 0 <= k < r@.len() implies drawn_from(#[trigger] r@[k], stored@)
                    || drawn_from(r@[k], generated@) by {
                    if k < before.len() {
                        assert(r@[k] == before[k]);
                    }
                }
                assert forall|k: int| 0 <= k < r@.len() && has_pre_key(stored@, #[trigger] r@[k].id)
                    implies drawn_from(r@[k], stored@) by {
                    if k < before.len() {
                        assert(r@[k] == before[k]);
                    }
                }
            },
            None => {
                assert forall|x: u32| 1 <= x < id + 1 implies (pre_key_ids(r@).contains(x) <==> has_pre_key(stored@, x)
                    || has_pre_key(generated@, x)) by {
                    if x == id && pre_key_ids(r@).contains(x) {
                        let k = choose|k: int| 0 <= k < r@.len() && pre_key_ids(r@)[k] == x;
                        assert(r@[k].id == x);
                    }
                }
            },
        }
        id += 1;
    }
    r
}

/// Once the regenerated keys cover the ids the stored ones lack, the
/// published bundle holds exactly the ids `1..=100`, in order.
pub proof fn lemma_bundle_is_full(stored: Seq<PreKey>, generated: Seq<PreKey>, r: Seq<PreKey>)
    requires
        forall|id: u32| #[trigger]
            missing_spec(pre_key_ids(stored)).contains(id) ==> has_pre_key(generated, id),
        forall|k: int| 0 <= k < r.len() ==> 1 <= #[trigger] r[k].id <= PRE_KEY_COUNT,
        forall|a: int, b: int| 0 <= a < b < r.len() ==> r[a].id < r[b].id,
        forall|id: u32|
            1 <= id <= PRE_KEY_COUNT ==> (pre_key_ids(r).contains(id) <==> has_pre_key(stored, id)
                || has_pre_key(generated, id)),
    ensures
        pre_key_ids(r) == Seq::new(PRE_KEY_COUNT as nat, |k: int| (k + 1) as u32),
{
    lemma_replenished_bundle_is_full(pre_key_ids(stored));
    assert forall|id: u32| 1 <= id <= PRE_KEY_COUNT implies #[trigger] pre_key_ids(r).contains(id) by {
        if pre_key_ids(stored).contains(id) {
            let j = choose|j: int| 0 <= j < pre_key_ids(stored).len() && pre_key_ids(stored)[j] == id;
            assert(stored[j].id == id);
            assert(has_pre_key(stored, id));
        } else {
            assert(missing_spec(pre_key_ids(stored)).contains(id));
            assert(has_pre_key(generated, id));
        }
    }
    lemma_sorted_full(pre_key_ids(r));
}

/// A strictly ascending sequence of ids of `1..=100` that holds each of them
/// is `1, 2, ..., 100`.
proof fn lemma_sorted_full(ids: Seq<u32>)
    requires
        forall|k: int| 0 <= k < ids.len() ==> 1 <= #[trigger] ids[k] <= PRE_KEY_COUNT,
        forall|a: int, b: int| 0 <= a < b < ids.len() ==> ids[a] < ids[b],
        forall|id: u32| 1 <= id <= PRE_KEY_COUNT ==> #[trigger] ids.contains(id),
    ensures
        ids == Seq::new(PRE_KEY_COUNT as nat, |k: int| (k + 1) as u32),
{
    lemma_value_position(ids, PRE_KEY_COUNT);
    assert(ids.len() <= PRE_KEY_COUNT) by {
        if ids.len() > PRE_KEY_COUNT {
            lemma_ascending_lower(ids, PRE_KEY_COUNT as int);
        }
    }
    assert forall|k: int| 0 <= k < ids.len() implies ids[k] == (k + 1) as u32 by {
        lemma_value_position(ids, (k + 1) as u32);
    }
    assert(ids =~= Seq::new(PRE_KEY_COUNT as nat, |k: int| (k + 1) as u32));
}

proof fn lemma_ascending_lower(ids: Seq<u32>, k: int)
    requires
        0 <= k < ids.len(),
        forall|i: int| 0 <= i < ids.len() ==> 1 <= #[trigger] ids[i] <= PRE_KEY_COUNT,
        forall|a: int, b: int| 0 <= a < b < ids.len() ==> ids[a] < ids[b],
    ensures
        ids[k] >= k + 1,
    decreases k,
{
    if k > 0 {
        lemma_ascending_lower(ids, k - 1);
    }
}

/// In such a sequence the value `v` sits at position `v - 1`.
proof fn lemma_value_position(ids: Seq<u32>, v: u32)
    requires
        1 <= v <= PRE_KEY_COUNT,
        forall|i: int| 0 <= i < ids.len() ==> 1 <= #[trigger] ids[i] <= PRE_KEY_COUNT,
        forall|a: int, b: int| 0 <= a < b < ids.len() ==> ids[a] < ids[b],
        forall|id: u32| 1 <= id <= PRE_KEY_COUNT ==> #[trigger] ids.contains(id),
    ensures
        ((v - 1) as int) < ids.len(),
        ids[(v - 1) as int] == v,
    decreases v,
{
    assert(ids.contains(v));
    let p = choose|p: int| 0 <= p < ids.len() && ids[p] == v;
    lemma_ascending_lower(ids, p);
    if v == 1 {
        assert(p == 0);
    } else {
        lemma_value_position(ids, (v - 1) as u32);
        let q = (v - 2) as int;
        assert(ids[q] == v - 1);
        assert(p > q) by {
            if p < q {
                assert(ids[p] < ids[q]);
            }
        }
        assert(p == q + 1) by {
            if p > q + 1 {
                assert(ids[q] < ids[q + 1] && ids[q + 1] < ids[p]);
            }
        }
    }
}

/// Relies on `SliceRandom::choose`: some item of a non-empty slice, chosen
/// at random; nothing from an empty one.
#[verifier::external_body]
fn choose_random(ids: &Vec<u32>) -> (r: Option<u32>)
    ensures
        ids@.len() == 0 ==> r is None,
        ids@.len() > 0 ==> r is Some && ids@.contains(r->Some_0),
{
    ids.choose(&mut rand::thread_rng()).copied()
}

/// The pre-key that a new session with a device starts from: one of the
/// bundle's, at random; `None` when the bundle has none.
pub fn pick_pre_key(pre_key_ids: &Vec<u32>) -> (r: Option<u32>)
    ensures
        pre_key_ids@.len() == 0 ==> r is None,
        pre_key_ids@.len() > 0 ==> (r matches Some(x) && pre_key_ids@.contains(x)),
{
    choose_random(pre_key_ids)
}

// ---------------------------------------------------------------------------
// Device lists
// ---------------------------------------------------------------------------

/// A device of a user, as announced in the user's device list.
#[derive(Debug)]
pub struct Device {
    pub id: u32,
    pub label: Option<String>,
}

pub open spec fn device_ids(ds: Seq<Device>) -> Seq<u32> {
    ds.map_values(|d: Device| d.id)
}

/// Our own device list as received: when it lacks the local device, the
/// local device is appended with its label and the list must be
/// republished (`true`).
pub fn reconcile_own_device_list(devices: Vec<Device>, local_device_id: u32, label: String) -> (r: (
    Vec<Device>,
    bool,
))
    ensures
        device_ids(devices@).contains(local_device_id) ==> r.0@ == devices@ && !r.1,
        !device_ids(devices@).contains(local_device_id) ==> r.1 && r.0@ == devices@.push(
            Device { id: local_device_id, label: Some(label) },
        ),
{
    let mut i: usize = 0;
    while i < devices.len()
        invariant
            i <= devices.len(),
            forall|j: int| 0 <= j < i ==> devices@[j].id != local_device_id,
        decreases devices.len() - i,
    {
        if devices[i].id == local_device_id {
            assert(device_ids(devices@)[i as int] == local_device_id);
            return (devices, false);
        }
        i += 1;
    }
    let mut devices = devices;
    devices.push(Device { id: local_device_id, label: Some(label) });
    (devices, true)
}

/// Removes `device_id` from a device list; `true` when it was there.
pub fn remove_device(devices: Vec<Device>, device_id: u32) -> (r: (Vec<Device>, bool))
    ensures
        device_ids(r.0@) == without_id(device_ids(devices@), device_id),
        r.1 == device_ids(devices@).contains(device_id),
{
    let ghost orig = devices@;
    let n = devices.len();
    let mut rest = crate::message::reversed(devices);
    let mut kept: Vec<Device> = Vec::new();
    let mut removed = false;
    while rest.len() > 0
        invariant
            rest.len() <= n,
            n == orig.len(),
            forall|j: int| 0 <= j < rest.len() ==> #[trigger] rest@[j] == orig[n - 1 - j],
            device_ids(kept@) == without_id(device_ids(orig.take(n - rest.len())), device_id),
            removed == device_ids(orig.take(n - rest.len())).contains(device_id),
        decreases rest.len(),
    {
        let ghost i = n - rest.len();
        let d = rest.pop().unwrap();
        assert(d == orig[i]);
        assert(device_ids(orig.take(i + 1)) =~= device_ids(orig.take(i)).push(d.id));
        assert(device_ids(orig.take(i + 1)).drop_last() =~= device_ids(orig.take(i)));
        proof {
            vstd::seq_lib::lemma_seq_contains_after_push(device_ids(orig.take(i)), d.id, device_id);
        }
        if d.id == device_id {
            removed = true;
        } else {
            let ghost prev = kept@;
            kept.push(d);
            assert(device_ids(kept@) =~= device_ids(prev).push(orig[i].id));
        }
    }
    assert(orig.take(n as int) =~= orig);
    (kept, removed)
}

/// Builds the label of the local device from the software's name and
/// operating system: `"name (os)"`, or the name alone.
pub fn local_device_label(name: &String, os: Option<&String>) -> (r: String)
    ensures
        os is None ==> r@ == name@,
        os matches Some(o) ==> r@ == name@ + seq![' ', '('] + o@ + seq![')'],
{
    match os {
        None => name.clone(),
        Some(o) => {
            let s = name.clone().concat(" (");
            let s = s.concat(o.as_str());
            let s = s.concat(")");
            proof {
                reveal_strlit(" (");
                reveal_strlit(")");
            }
            assert(s@ =~= name@ + seq![' ', '('] + o@ + seq![')']);
            s
        },
    }
}

// ---------------------------------------------------------------------------
// Attempt guards
// ---------------------------------------------------------------------------

/// How starting a session with a device went.
#[derive(Debug, Clone, Copy, PartialEq, Eq, Structural)]
pub enum SessionStart {
    Started,
    /// The device has published no bundle.
    BundleMissing,
    /// The bundle could not be used.
    Failed,
}

/// Remembers which (user, device) pairs an action was tried for, so that it
/// is tried at most once per pair.
#[derive(Debug)]
pub struct AttemptGuard {
    pub tried: Vec<(String, u32)>,
}

pub open spec fn tried_views(t: Seq<(String, u32)>) -> Seq<(Seq<char>, u32)> {
    t.map_values(|x: (String, u32)| (x.0@, x.1))
}

impl AttemptGuard {
    pub fn new() -> (r: Self)
        ensures
            r.tried@.len() == 0,
    {
        AttemptGuard { tried: Vec::new() }
    }

    /// Records an attempt for `(user, device)`; `true` if it is the first.
    pub fn first_attempt(&mut self, user: &String, device: u32) -> (r: bool)
        ensures
            r == !tried_views(old(self).tried@).contains((user@, device)),
            tried_views(final(self).tried@).to_set() == tried_views(old(self).tried@).to_set().insert(
                (user@, device),
            ),
    {
        let mut i: usize = 0;
        while i < self.tried.len()
            invariant
                i <= self.tried.len(),
                *self == *old(self),
                forall|j: int| 0 <= j < i ==> tried_views(self.tried@)[j] != (user@, device),
            decreases self.tried.len() - i,
        {
            if self.tried[i].1 == device && self.tried[i].0 == *user {
                assert(tried_views(self.tried@)[i as int] == (user@, device));
                assert(tried_views(self.tried@).to_set().insert((user@, device)) =~= tried_views(self.tried@).to_set());
                return false;
            }
            i += 1;
        }
        let ghost prev = tried_views(self.tried@);
        self.tried.push((user.clone(), device));
        assert(tried_views(self.tried@) =~= prev.push((user@, device)));
        proof {
            prev.lemma_push_to_set_commute((user@, device));
        }
        true
    }

    /// After starting a session with `device` of `user` came out as
    /// `outcome`: whether to unpublish the device. Only a device of our own
    /// account is unpublished, only when its bundle is missing or unusable,
    /// and at most once.
    pub fn should_unpublish(
        &mut self,
        own_user: &String,
        user: &String,
        device: u32,
        outcome: SessionStart,
    ) -> (r: bool)
        ensures
            r == (user@ == own_user@ && !(outcome is Started) && !tried_views(
                old(self).tried@,
            ).contains((user@, device))),
            user@ == own_user@ && !(outcome is Started) ==> tried_views(final(self).tried@).to_set()
                == tried_views(old(self).tried@).to_set().insert((user@, device)),
            !(user@ == own_user@ && !(outcome is Started)) ==> *final(self) == *old(self),
    {
        let own = *user == *own_user;
        let broken = match outcome {
            SessionStart::Started => false,
            _ => true,
        };
        if own && broken {
            self.first_attempt(user, device)
        } else {
            false
        }
    }

    /// Forgets every attempt.
    pub fn clear(&mut self)
        ensures
            final(self).tried@.len() == 0,
    {
        self.tried.clear();
    }
}

} // verus!
