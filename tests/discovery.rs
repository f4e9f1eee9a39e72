use authority_discovery::codec::{decode_address_list, decode_signed, encode_address_list, encode_signed};
use authority_discovery::discovery::{
    get_own_public_keys_within_authority_set, interval_at, request_addresses_of_others,
    truncate_addresses, AuthorityDiscovery, DiscoveryError, BOOTSTRAP_DELAY_MS,
};
use authority_discovery::MAX_ADDRESSES_PER_AUTHORITY;
use parity_multiaddr::Multiaddr;
use sp_core::crypto::Pair as _;
use sp_core::sr25519;

fn pair(seed: u8) -> sr25519::Pair {
    sr25519::Pair::from_seed(&[seed; 32])
}

fn public(p: &sr25519::Pair) -> Vec<u8> {
    AsRef::<[u8]>::as_ref(&p.public()).to_vec()
}

fn dht_key(id: &[u8]) -> Vec<u8> {
    parity_multihash::encode(parity_multihash::Hash::SHA2256, id).unwrap().into_bytes()
}

fn addr(s: &str) -> Vec<u8> {
    s.parse::<Multiaddr>().unwrap().to_vec()
}

fn peer_id() -> Vec<u8> {
    parity_multihash::encode(parity_multihash::Hash::SHA2256, b"peer").unwrap().into_bytes()
}

fn signed_record(signer: &sr25519::Pair, addrs: &Vec<Vec<u8>>) -> Vec<u8> {
    let list = encode_address_list(addrs);
    let sig = AsRef::<[u8]>::as_ref(&signer.sign(&list)).to_vec();
    encode_signed(&list, &sig)
}

#[test]
fn address_list_bytes_are_protobuf_fields() {
    let xs = vec![vec![1u8, 2], vec![3u8]];
    assert_eq!(encode_address_list(&xs), vec![0x0a, 2, 1, 2, 0x0a, 1, 3]);
}

#[test]
fn long_payload_takes_two_length_bytes() {
    let xs = vec![vec![7u8; 300]];
    let b = encode_address_list(&xs);
    assert_eq!(&b[..3], &[0x0a, 0xac, 0x02]);
    assert_eq!(b.len(), 303);
    assert_eq!(decode_address_list(&b), Some(xs));
}

#[test]
fn address_list_round_trip_keeps_order() {
    let xs = vec![addr("/ip4/1.2.3.4/tcp/1"), vec![], addr("/ip4/5.6.7.8/tcp/2")];
    assert_eq!(decode_address_list(&encode_address_list(&xs)), Some(xs));
    assert_eq!(decode_address_list(&vec![]), Some(vec![]));
}

#[test]
fn signed_round_trip() {
    let a = vec![1u8, 2, 3];
    let s = vec![9u8; 64];
    assert_eq!(decode_signed(&encode_signed(&a, &s)), Some((a, s)));
    assert_eq!(encode_signed(&vec![], &vec![]), Vec::<u8>::new());
    assert_eq!(decode_signed(&vec![]), Some((vec![], vec![])));
}

#[test]
fn malformed_bytes_are_refused() {
    assert_eq!(decode_address_list(&vec![0x0a, 5, 1]), None);
    assert_eq!(decode_address_list(&vec![0x12, 0]), None);
    assert_eq!(decode_signed(&vec![0xff]), None);
    assert_eq!(decode_signed(&vec![0x0a, 0, 0x0a, 0]), None);
}

#[test]
fn timer_coalesces_missed_ticks() {
    let mut t = interval_at(100, 10);
    assert!(!t.poll_tick(99));
    assert_eq!(t.next, 100);
    assert!(t.poll_tick(135));
    assert_eq!(t.next, 140);
    assert!(!t.poll_tick(139));
    assert!(t.poll_tick(140));
    assert_eq!(t.next, 150);
}

#[test]
fn timers_wait_for_bootstrap() {
    let mut d = AuthorityDiscovery::new(vec![], 1_000);
    let t = d.poll(1_000 + BOOTSTRAP_DELAY_MS - 1);
    assert!(!t.publish && !t.query);
    let t = d.poll(1_000 + BOOTSTRAP_DELAY_MS);
    assert!(t.publish && t.query);
    let t = d.poll(1_000 + BOOTSTRAP_DELAY_MS + 600_000);
    assert!(!t.publish && t.query);
}

#[test]
fn no_sentry_nodes_given() {
    let d = AuthorityDiscovery::new(vec![], 0);
    assert_eq!(d.sentry_nodes(), None);
}

#[test]
fn invalid_sentry_list_is_configured_but_empty() {
    let d = AuthorityDiscovery::new(vec!["not-a-valid-address".to_string()], 0);
    assert_eq!(d.sentry_nodes(), Some(vec![]));
    let ext = vec![addr("/ip4/1.2.3.4/tcp/30333")];
    assert_eq!(d.addresses_to_publish(&ext, &peer_id()), Ok(vec![]));
}

#[test]
fn valid_sentry_addresses_are_advertised() {
    let d = AuthorityDiscovery::new(
        vec!["/ip4/10.0.0.1/tcp/30333".to_string(), "bad".to_string()],
        0,
    );
    let expected = vec![addr("/ip4/10.0.0.1/tcp/30333")];
    assert_eq!(d.sentry_nodes(), Some(expected.clone()));
    let ext = vec![addr("/ip4/1.2.3.4/tcp/30333")];
    assert_eq!(d.addresses_to_publish(&ext, &peer_id()), Ok(expected));
}

#[test]
fn own_keys_are_intersected_with_authority_set() {
    let (a, b, c) = (public(&pair(1)), public(&pair(2)), public(&pair(3)));
    let own = get_own_public_keys_within_authority_set(&vec![a.clone(), c.clone(), a.clone()], &vec![a.clone(), b]);
    assert_eq!(own, vec![a]);
    assert!(get_own_public_keys_within_authority_set(&vec![c], &vec![]).is_empty());
}

#[test]
fn query_issues_one_key_per_authority() {
    let (a, b) = (public(&pair(1)), public(&pair(2)));
    let keys = request_addresses_of_others(&vec![a.clone(), b.clone()]);
    assert_eq!(keys, vec![dht_key(&a), dht_key(&b)]);
    assert_ne!(keys[0], a);
}

#[test]
fn publish_puts_one_record_per_own_key() {
    let (ka, kb) = (pair(1), pair(2));
    let (a, b) = (public(&ka), public(&kb));
    let authorities = vec![a.clone(), b.clone()];
    let own = get_own_public_keys_within_authority_set(&vec![a.clone()], &authorities);
    assert_eq!(own, vec![a.clone()]);
    let d = AuthorityDiscovery::new(vec![], 0);
    let ext = vec![addr("/ip4/1.2.3.4/tcp/30333")];
    let pubs = d.publish_ext_addresses(&ext, &peer_id(), &vec![ka]).unwrap();
    assert_eq!(pubs.len(), 1);
    assert_eq!(pubs[0].key, dht_key(&a));
    assert_eq!(pubs[0].authority, a);

    let (list, sig) = decode_signed(&pubs[0].value).unwrap();
    let s = sr25519::Signature::try_from(&sig[..]).unwrap();
    let p = sr25519::Public::try_from(&a[..]).unwrap();
    assert!(sr25519::Pair::verify(&s, &list, &p));
    let q = sr25519::Public::try_from(&b[..]).unwrap();
    assert!(!sr25519::Pair::verify(&s, &list, &q));

    let mut expected = ext[0].clone();
    let with_peer = ext[0].len() < decode_address_list(&list).unwrap()[0].len();
    assert!(with_peer);
    expected = decode_address_list(&list).unwrap()[0][..expected.len()].to_vec();
    assert_eq!(expected, ext[0]);

    let mut other = AuthorityDiscovery::new(vec![], 0);
    let values = vec![(pubs[0].key.clone(), pubs[0].value.clone())];
    let group = other.handle_dht_value_found_event(&values, &authorities).unwrap();
    assert_eq!(group, decode_address_list(&list).unwrap());
    assert_eq!(other.address_cache().get(&a), Some(group));
}

#[test]
fn no_own_key_in_set_publishes_nothing() {
    let d = AuthorityDiscovery::new(vec![], 0);
    let pubs = d.publish_ext_addresses(&vec![addr("/ip4/1.2.3.4/tcp/1")], &peer_id(), &vec![]).unwrap();
    assert!(pubs.is_empty());
}

#[test]
fn bad_peer_id_is_an_address_error() {
    let d = AuthorityDiscovery::new(vec![], 0);
    let r = d.publish_ext_addresses(&vec![addr("/ip4/1.2.3.4/tcp/1")], &vec![0xff], &vec![pair(1)]);
    assert!(matches!(r, Err(DiscoveryError::ParsingAddress)));
}

#[test]
fn tampered_signature_leaves_cache_unchanged() {
    let ka = pair(1);
    let a = public(&ka);
    let addrs = vec![addr("/ip4/1.2.3.4/tcp/1")];
    let list = encode_address_list(&addrs);
    let mut sig = AsRef::<[u8]>::as_ref(&ka.sign(&list)).to_vec();
    sig[0] ^= 1;
    let value = encode_signed(&list, &sig);
    let mut d = AuthorityDiscovery::new(vec![], 0);
    let r = d.handle_dht_value_found_event(&vec![(dht_key(&a), value)], &vec![a.clone(), public(&pair(2))]);
    assert_eq!(r, Err(DiscoveryError::Verification));
    assert_eq!(d.address_cache().get(&a), None);
    assert_eq!(d.address_cache().len(), 0);
}

#[test]
fn record_signed_by_other_key_is_refused() {
    let (ka, kb) = (pair(1), pair(2));
    let a = public(&ka);
    let value = signed_record(&kb, &vec![addr("/ip4/1.2.3.4/tcp/1")]);
    let mut d = AuthorityDiscovery::new(vec![], 0);
    let r = d.handle_dht_value_found_event(&vec![(dht_key(&a), value)], &vec![a.clone(), public(&kb)]);
    assert_eq!(r, Err(DiscoveryError::Verification));
}

#[test]
fn unknown_key_stops_the_batch() {
    let ka = pair(1);
    let a = public(&ka);
    let value = signed_record(&ka, &vec![addr("/ip4/1.2.3.4/tcp/1")]);
    let mut d = AuthorityDiscovery::new(vec![], 0);
    let r = d.handle_dht_value_found_event(
        &vec![(dht_key(&public(&pair(9))), value.clone()), (dht_key(&a), value)],
        &vec![a.clone()],
    );
    assert_eq!(r, Err(DiscoveryError::UnknownAuthority));
    assert_eq!(d.address_cache().len(), 0);
}

#[test]
fn malformed_records_give_their_errors() {
    let ka = pair(1);
    let a = public(&ka);
    let auths = vec![a.clone()];
    let mut d = AuthorityDiscovery::new(vec![], 0);
    let r = d.handle_dht_value_found_event(&vec![(dht_key(&a), vec![0xff, 0x00])], &auths);
    assert_eq!(r, Err(DiscoveryError::DecodingRecord));
    let short = encode_signed(&encode_address_list(&vec![]), &vec![1u8; 10]);
    let r = d.handle_dht_value_found_event(&vec![(dht_key(&a), short)], &auths);
    assert_eq!(r, Err(DiscoveryError::DecodingSignature));
    let bad_addr = signed_record(&ka, &vec![vec![0xff, 0xff, 0xff]]);
    let r = d.handle_dht_value_found_event(&vec![(dht_key(&a), bad_addr)], &auths);
    assert_eq!(r, Err(DiscoveryError::ParsingAddress));
    let list = vec![0x0a, 9];
    let sig = AsRef::<[u8]>::as_ref(&ka.sign(&list)).to_vec();
    let r = d.handle_dht_value_found_event(&vec![(dht_key(&a), encode_signed(&list, &sig))], &auths);
    assert_eq!(r, Err(DiscoveryError::DecodingRecord));
}

#[test]
fn more_than_five_addresses_are_truncated() {
    let ka = pair(1);
    let a = public(&ka);
    let addrs: Vec<Vec<u8>> = (1..=7).map(|i| addr(&format!("/ip4/10.0.0.{}/tcp/1", i))).collect();
    let mut d = AuthorityDiscovery::new(vec![], 0);
    let group = d
        .handle_dht_value_found_event(&vec![(dht_key(&a), signed_record(&ka, &addrs))], &vec![a.clone()])
        .unwrap();
    assert_eq!(group.len(), MAX_ADDRESSES_PER_AUTHORITY);
    assert_eq!(d.address_cache().get(&a), Some(addrs[..5].to_vec()));
}

#[test]
fn five_or_fewer_addresses_are_kept() {
    let addrs: Vec<Vec<u8>> = (1..=5).map(|i| vec![i as u8]).collect();
    assert_eq!(truncate_addresses(addrs.clone()), addrs);
    let six: Vec<Vec<u8>> = (1..=6).map(|i| vec![i as u8]).collect();
    assert_eq!(truncate_addresses(six.clone()), six[..5].to_vec());
}

#[test]
fn leaving_authority_is_purged() {
    let (ka, kb) = (pair(1), pair(2));
    let (a, b) = (public(&ka), public(&kb));
    let xa = vec![addr("/ip4/1.1.1.1/tcp/1")];
    let xb = vec![addr("/ip4/2.2.2.2/tcp/2")];
    let mut d = AuthorityDiscovery::new(vec![], 0);
    let both = vec![a.clone(), b.clone()];
    let values = vec![(dht_key(&a), signed_record(&ka, &xa)), (dht_key(&b), signed_record(&kb, &xb))];
    let group = d.handle_dht_value_found_event(&values, &both).unwrap();
    assert_eq!(group.len(), 2);
    let group = d.handle_dht_value_found_event(&vec![], &vec![a.clone()]).unwrap();
    assert_eq!(group, xa);
    assert_eq!(d.address_cache().get(&b), None);
    assert_eq!(d.address_cache().len(), 1);
}

#[test]
fn shared_addresses_appear_once_in_priority_group() {
    let (ka, kb) = (pair(1), pair(2));
    let (a, b) = (public(&ka), public(&kb));
    let x = vec![addr("/ip4/1.1.1.1/tcp/1")];
    let mut d = AuthorityDiscovery::new(vec![], 0);
    let values = vec![(dht_key(&a), signed_record(&ka, &x)), (dht_key(&b), signed_record(&kb, &x))];
    let first = d.handle_dht_value_found_event(&values, &vec![a.clone(), b.clone()]).unwrap();
    assert_eq!(first, x);
    let second = d.address_cache().priority_addresses();
    assert_eq!(first, second);
}

#[test]
fn newer_record_replaces_older() {
    let ka = pair(1);
    let a = public(&ka);
    let mut d = AuthorityDiscovery::new(vec![], 0);
    let x1 = vec![addr("/ip4/1.1.1.1/tcp/1")];
    let x2 = vec![addr("/ip4/2.2.2.2/tcp/2")];
    d.handle_dht_value_found_event(&vec![(dht_key(&a), signed_record(&ka, &x1))], &vec![a.clone()]).unwrap();
    let g = d.handle_dht_value_found_event(&vec![(dht_key(&a), signed_record(&ka, &x2))], &vec![a.clone()]).unwrap();
    assert_eq!(g, x2);
    assert_eq!(d.address_cache().len(), 1);
}

#[test]
fn published_key_matches_query_key() {
    let ka = pair(4);
    let a = public(&ka);
    let d = AuthorityDiscovery::new(vec![], 0);
    let pubs = d.publish_ext_addresses(&vec![addr("/ip4/1.2.3.4/tcp/1")], &peer_id(), &vec![ka]).unwrap();
    let queried = request_addresses_of_others(&vec![public(&pair(5)), a]);
    assert_eq!(pubs[0].key, queried[1]);
    assert_ne!(pubs[0].key, queried[0]);
}
