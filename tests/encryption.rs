use prose_core::message_like::{MessageLike, MessageLikeBody, MessageLikeId, ParticipantId, Payload};
use prose_core::encryption::{
    decrypted_or_cached, bundle_pre_keys, SessionStart, device_infos, devices_without_session, SessionRecord, PreKey, active_and_trusted_device_ids, encrypt_body, key_for_device, key_recipients,
    local_device_label, missing_pre_key_ids, open_body, pick_pre_key, reconcile_own_device_list,
    remove_device, seal_body, AttemptGuard, DecryptionError, Device, EncryptionError,
    EncryptionKey, Session, Trust, PRE_KEY_COUNT,
};

fn session(id: u32, trust: Trust, active: bool) -> Session {
    Session { device_id: id, trust, is_active: active }
}

#[test]
fn usable_devices_are_active_and_not_distrusted() {
    let s = vec![
        session(1, Trust::Trusted, true),
        session(2, Trust::Untrusted, true),
        session(3, Trust::Undecided, true),
        session(4, Trust::Trusted, false),
    ];
    assert_eq!(active_and_trusted_device_ids(&s), vec![1, 3]);
}

#[test]
fn recipients_cover_both_parties_once() {
    let own = vec![session(10, Trust::Trusted, true), session(11, Trust::Trusted, true)];
    let peer = vec![session(20, Trust::Undecided, true), session(21, Trust::Untrusted, true)];
    let r = key_recipients(&"me@prose.org".to_string(), &own, 10, &"you@prose.org".to_string(), &peer)
        .unwrap();
    let got: Vec<(String, u32)> = r.iter().map(|x| (x.user_id.clone(), x.device_id)).collect();
    assert_eq!(got, vec![("me@prose.org".to_string(), 11), ("you@prose.org".to_string(), 20)]);
}

#[test]
fn recipients_need_a_peer_device() {
    let own = vec![session(10, Trust::Trusted, true)];
    let peer = vec![session(20, Trust::Trusted, false)];
    let r = key_recipients(&"me@prose.org".to_string(), &own, 10, &"you@prose.org".to_string(), &peer);
    assert_eq!(r.err(), Some(EncryptionError::NoDevices));
}

#[test]
fn seal_then_open_round_trips() {
    let sealed = seal_body("Hello 🌍", vec![7u8; 16], vec![3u8; 12]).unwrap();
    assert_eq!(sealed.dek_and_mac.len(), 32);
    assert_eq!(&sealed.dek_and_mac[..16], &[7u8; 16]);
    assert_eq!(sealed.payload.len(), "Hello 🌍".len());
    assert_ne!(sealed.payload, "Hello 🌍".as_bytes().to_vec());
    let text = open_body(&sealed.payload, &sealed.nonce, &sealed.dek_and_mac).unwrap();
    assert_eq!(text, "Hello 🌍");
}

#[test]
fn fresh_keys_round_trip() {
    let sealed = encrypt_body("secret").unwrap();
    assert_eq!(sealed.nonce.len(), 12);
    assert_eq!(open_body(&sealed.payload, &sealed.nonce, &sealed.dek_and_mac).unwrap(), "secret");
}

#[test]
fn open_rejects_bad_material() {
    let sealed = seal_body("Hi", vec![1u8; 16], vec![2u8; 12]).unwrap();
    assert_eq!(
        open_body(&sealed.payload, &sealed.nonce, &vec![0u8; 31]),
        Err(DecryptionError::SizeMismatch)
    );
    assert_eq!(
        open_body(&sealed.payload, &vec![0u8; 11], &sealed.dek_and_mac),
        Err(DecryptionError::CryptoFailed)
    );
    let mut tampered = sealed.dek_and_mac.clone();
    tampered[31] ^= 1;
    assert_eq!(open_body(&sealed.payload, &sealed.nonce, &tampered), Err(DecryptionError::CryptoFailed));
}

#[test]
fn key_for_this_device() {
    let keys = vec![
        EncryptionKey { recipient_device_id: 5, data: vec![1], is_pre_key: false },
        EncryptionKey { recipient_device_id: 9, data: vec![2], is_pre_key: true },
    ];
    assert_eq!(key_for_device(&keys, 9), Some(1));
    assert_eq!(key_for_device(&keys, 4), None);
}

#[test]
fn consumed_pre_key_is_regenerated() {
    let existing: Vec<u32> = (1..=100).filter(|id| *id != 7).collect();
    assert_eq!(missing_pre_key_ids(&existing), vec![7]);
    let mut all = existing.clone();
    all.extend(missing_pre_key_ids(&existing));
    all.sort();
    assert_eq!(all, (1..=PRE_KEY_COUNT).collect::<Vec<u32>>());
}

#[test]
fn missing_pre_keys_of_empty_bundle() {
    assert_eq!(missing_pre_key_ids(&vec![]), (1..=100).collect::<Vec<u32>>());
    assert_eq!(missing_pre_key_ids(&vec![200, 1, 100]), (2..=99).collect::<Vec<u32>>());
}

#[test]
fn pre_key_is_picked_from_bundle() {
    assert_eq!(pick_pre_key(&vec![]), None);
    let ids = vec![3, 4, 5];
    assert!(ids.contains(&pick_pre_key(&ids).unwrap()));
}

#[test]
fn own_device_list_gets_local_device() {
    let devices = vec![Device { id: 1, label: None }];
    let (list, changed) = reconcile_own_device_list(devices, 2, "Prose (macOS)".to_string());
    assert!(changed);
    assert_eq!(list.iter().map(|d| d.id).collect::<Vec<_>>(), vec![1, 2]);
    assert_eq!(list[1].label, Some("Prose (macOS)".to_string()));
    let (list, changed) = reconcile_own_device_list(list, 1, "x".to_string());
    assert!(!changed);
    assert_eq!(list.len(), 2);
}

#[test]
fn device_removal() {
    let devices = vec![Device { id: 1, label: None }, Device { id: 2, label: None }];
    let (list, removed) = remove_device(devices, 1);
    assert!(removed);
    assert_eq!(list.iter().map(|d| d.id).collect::<Vec<_>>(), vec![2]);
    let (list, removed) = remove_device(list, 9);
    assert!(!removed);
    assert_eq!(list.len(), 1);
}

#[test]
fn device_label() {
    assert_eq!(local_device_label(&"Prose".to_string(), Some(&"macOS".to_string())), "Prose (macOS)");
    assert_eq!(local_device_label(&"Prose".to_string(), None), "Prose");
}

#[test]
fn attempts_once_per_device() {
    let mut g = AttemptGuard::new();
    assert!(g.first_attempt(&"a@prose.org".to_string(), 1));
    assert!(!g.first_attempt(&"a@prose.org".to_string(), 1));
    assert!(g.first_attempt(&"a@prose.org".to_string(), 2));
    assert!(g.first_attempt(&"b@prose.org".to_string(), 1));
    g.clear();
    assert!(g.first_attempt(&"a@prose.org".to_string(), 1));
}

#[test]
fn cached_body_replaces_failed_decryption() {
    let cached = MessageLike {
        id: MessageLikeId("m1".to_string()),
        stanza_id: None,
        target: None,
        to: None,
        from: ParticipantId::User("a@prose.org".to_string()),
        timestamp: 0,
        payload: Payload::Message {
            body: MessageLikeBody { raw: "earlier".to_string(), html: "earlier".to_string(), mentions: vec![] },
            attachments: vec![],
            encryption_info: None,
            is_transient: false,
        },
    };
    assert_eq!(decrypted_or_cached(Ok("now".to_string()), Some(&cached)), Ok("now".to_string()));
    assert_eq!(
        decrypted_or_cached(Err(DecryptionError::CryptoFailed), Some(&cached)),
        Ok("earlier".to_string())
    );
    assert_eq!(
        decrypted_or_cached(Err(DecryptionError::CryptoFailed), None),
        Err(DecryptionError::CryptoFailed)
    );
}

#[test]
fn pre_key_message_replenishes_bundle() {
    let stored: Vec<PreKey> =
        (1..=100u32).filter(|id| *id != 7).map(|id| PreKey { id, key: vec![id as u8] }).collect();
    let ids: Vec<u32> = stored.iter().map(|k| k.id).collect();
    let missing = missing_pre_key_ids(&ids);
    assert_eq!(missing, vec![7]);
    let generated: Vec<PreKey> = missing.iter().map(|id| PreKey { id: *id, key: vec![0xAA] }).collect();
    let bundle = bundle_pre_keys(&stored, &generated);
    assert_eq!(bundle.iter().map(|k| k.id).collect::<Vec<u32>>(), (1..=100).collect::<Vec<u32>>());
    assert_eq!(bundle[6].key, vec![0xAA]);
    assert_eq!(bundle[7].key, vec![8u8]);
}

#[test]
fn bundle_drops_out_of_range_ids() {
    let stored = vec![PreKey { id: 150, key: vec![1] }, PreKey { id: 2, key: vec![2] }];
    let bundle = bundle_pre_keys(&stored, &vec![PreKey { id: 1, key: vec![3] }]);
    assert_eq!(bundle.iter().map(|k| k.id).collect::<Vec<u32>>(), vec![1, 2]);
}

#[test]
fn device_infos_need_identity() {
    let sessions = vec![
        SessionRecord { device_id: 1, identity: Some(vec![9]), trust: Trust::Trusted, is_active: true },
        SessionRecord { device_id: 2, identity: None, trust: Trust::Trusted, is_active: true },
        SessionRecord { device_id: 3, identity: Some(vec![8]), trust: Trust::Untrusted, is_active: false },
    ];
    let infos = device_infos(&sessions, Some(3));
    assert_eq!(infos.len(), 2);
    assert_eq!((infos[0].id, infos[0].is_this_device), (1, false));
    assert_eq!((infos[1].id, infos[1].is_this_device, infos[1].trust), (3, true, Trust::Untrusted));
    assert_eq!(infos[1].identity, vec![8]);
}

#[test]
fn sessions_to_start() {
    assert_eq!(devices_without_session(&vec![1, 2, 3], &vec![2]), vec![1, 3]);
    assert_eq!(devices_without_session(&vec![], &vec![2]), Vec::<u32>::new());
}

#[test]
fn unpublish_only_own_broken_devices_once() {
    let mut g = AttemptGuard::new();
    let me = "me@prose.org".to_string();
    let you = "you@prose.org".to_string();
    assert!(!g.should_unpublish(&me, &you, 1, SessionStart::BundleMissing));
    assert!(!g.should_unpublish(&me, &me, 1, SessionStart::Started));
    assert!(g.should_unpublish(&me, &me, 1, SessionStart::BundleMissing));
    assert!(!g.should_unpublish(&me, &me, 1, SessionStart::Failed));
    assert!(g.should_unpublish(&me, &me, 2, SessionStart::Failed));
}

#[test]
fn stored_pre_key_wins_over_regenerated() {
    let stored = vec![PreKey { id: 3, key: vec![1] }];
    let generated = vec![PreKey { id: 3, key: vec![2] }, PreKey { id: 4, key: vec![3] }];
    let bundle = bundle_pre_keys(&stored, &generated);
    assert_eq!(bundle.iter().map(|k| (k.id, k.key.clone())).collect::<Vec<_>>(), vec![(3, vec![1]), (4, vec![3])]);
}
