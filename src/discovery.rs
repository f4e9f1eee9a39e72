//! The discovery task: publishing own records, querying others', verifying what the
//! DHT returns, and the two timers that pace it.
use crate::cache::{
    clone_bytes, clone_list, contains_bytes, other_than, lemma_push_contains, lemma_push_no_duplicates, inserted, is_member, priority_set, purged, AddressCache,
    EntryModel,
};
use crate::codec::{
    address_list_bytes, copy_range, decode_address_list, decode_signed, encode_address_list, encode_signed,
    parse_address_list, parse_signed, seqs, signed_bytes,
};
use crate::external::{
    append_peer_id, check_address, dht_key_of, hash_authority_id, is_address, signature_valid,
    public_key, sign, verify_signature, with_peer_id,
};
use sp_core::sr25519;
use crate::MAX_ADDRESSES_PER_AUTHORITY;
use vstd::prelude::*;

verus! {

/// Length of an encoded sr25519 signature.
pub const SIGNATURE_LEN: usize = 64;

/// Why a pass of the task stopped.
#[derive(Debug, Clone, Copy, PartialEq, Eq, Structural)]
pub enum DiscoveryError {
    /// A DHT key matches no authority of the current set.
    UnknownAuthority,
    /// A record or the address list inside it is malformed.
    DecodingRecord,
    /// The signature field is too short to hold a signature.
    DecodingSignature,
    /// The signature does not verify against the authority's key.
    Verification,
    /// An address is malformed.
    ParsingAddress,
    /// The chain backend could not report the authority set.
    CallingRuntime,
    /// The network refused the new priority group.
    SettingPriorityGroup,
}

/// The first authority of `auths` whose DHT key is `key`.
pub open spec fn find_authority(auths: Seq<Seq<u8>>, key: Seq<u8>) -> Option<Seq<u8>>
    decreases auths.len(),
{
    if auths.len() == 0 {
        None
    } else if dht_key_of(auths[0]) == key {
        Some(auths[0])
    } else {
        find_authority(auths.drop_first(), key)
    }
}

/// The first `MAX_ADDRESSES_PER_AUTHORITY` addresses of `a`.
pub open spec fn truncated(a: Seq<Seq<u8>>) -> Seq<Seq<u8>> {
    if a.len() > MAX_ADDRESSES_PER_AUTHORITY {
        a.take(MAX_ADDRESSES_PER_AUTHORITY as int)
    } else {
        a
    }
}

/// What one DHT record yields: the authority and the addresses to cache for it.
pub open spec fn record_outcome(auths: Seq<Seq<u8>>, key: Seq<u8>, value: Seq<u8>) -> Result<
    (Seq<u8>, Seq<Seq<u8>>),
    DiscoveryError,
> {
    match find_authority(auths, key) {
        None => Err(DiscoveryError::UnknownAuthority),
        Some(id) => match parse_signed(value) {
            None => Err(DiscoveryError::DecodingRecord),
            Some((list, sig)) => if sig.len() < SIGNATURE_LEN {
                Err(DiscoveryError::DecodingSignature)
            } else if !signature_valid(sig.take(SIGNATURE_LEN as int), list, id) {
                Err(DiscoveryError::Verification)
            } else {
                match parse_address_list(list) {
                    None => Err(DiscoveryError::DecodingRecord),
                    Some(addrs) => if exists|i: int| 0 <= i < addrs.len() && !is_address(#[trigger] addrs[i]) {
                        Err(DiscoveryError::ParsingAddress)
                    } else {
                        Ok((id, truncated(addrs)))
                    },
                }
            },
        },
    }
}

/// The cache after the records of `values` are taken in order, and the error that
/// stopped the batch, if one did.
pub open spec fn apply_batch(
    m: Seq<EntryModel>,
    auths: Seq<Seq<u8>>,
    values: Seq<(Seq<u8>, Seq<u8>)>,
) -> (Seq<EntryModel>, Option<DiscoveryError>)
    decreases values.len(),
{
    if values.len() == 0 {
        (m, None)
    } else {
        let (m2, e) = apply_batch(m, auths, values.drop_last());
        if e is Some {
            (m2, e)
        } else {
            match record_outcome(auths, values.last().0, values.last().1) {
                Err(err) => (m2, Some(err)),
                Ok((id, a)) => (inserted(m2, id, a), None),
            }
        }
    }
}

pub open spec fn pair_models(v: Seq<(Vec<u8>, Vec<u8>)>) -> Seq<(Seq<u8>, Seq<u8>)> {
    v.map_values(|p: (Vec<u8>, Vec<u8>)| (p.0@, p.1@))
}

/// The addresses advertised for this node: each external address with the peer
/// identity appended, or `None` where one of them cannot take it.
pub open spec fn own_addresses(external: Seq<Seq<u8>>, peer: Seq<u8>) -> Option<Seq<Seq<u8>>> {
    if forall|i: int| 0 <= i < external.len() ==> (#[trigger] with_peer_id(external[i], peer)) is Some {
        Some(Seq::new(external.len(), |i: int| with_peer_id(external[i], peer).unwrap()))
    } else {
        None
    }
}

/// A DHT write: the record `value` of authority `authority` under `key`.
pub struct Publication {
    pub authority: Vec<u8>,
    pub key: Vec<u8>,
    pub signature: Vec<u8>,
    pub value: Vec<u8>,
}

/// A periodic trigger: it is due at `next` and every `period` after.
pub struct Interval {
    pub next: u64,
    pub period: u64,
}

/// The first deadline after `now` of a timer due at `next` with period `period`,
/// saturating at the largest representable instant.
pub open spec fn next_deadline(next: u64, period: u64, now: u64) -> u64 {
    let d = next + ((now - next) / (period as int) + 1) * period;
    if d <= u64::MAX {
        d as u64
    } else {
        u64::MAX
    }
}

/// A timer that is first due at `start` and then every `period`.
pub fn interval_at(start: u64, period: u64) -> (r: Interval)
    requires
        period > 0,
    ensures
        r.next == start,
        r.period == period,
{
    Interval { next: start, period }
}

impl Interval {
    /// Whether the timer is due at `now`. A due timer moves to its first deadline after
    /// `now`, so however many periods have gone by, they count as one tick.
    pub fn poll_tick(&mut self, now: u64) -> (r: bool)
        requires
            old(self).period > 0,
        ensures
            r == (old(self).next <= now),
            final(self).period == old(self).period,
            r ==> final(self).next == next_deadline(old(self).next, old(self).period, now),
            !r ==> final(self).next == old(self).next,
    {
        if self.next > now {
            return false;
        }
        let x: u64 = now - self.next;
        let q: u64 = x / self.period;
        assert(q * self.period <= x) by (nonlinear_arith)
            requires q == x / self.period, self.period > 0;
        let qp: u128 = (q as u128) * (self.period as u128);
        let d: u128 = self.next as u128 + qp + self.period as u128;
        assert((q + 1) * self.period == q * self.period + self.period) by (nonlinear_arith);
        if d <= u64::MAX as u128 {
            self.next = d as u64;
        } else {
            self.next = u64::MAX;
        }
        true
    }
}

/// Delay before the first use of the DHT, which needs time to bootstrap, in milliseconds.
pub const BOOTSTRAP_DELAY_MS: u64 = 30_000;

/// Period of publishing own addresses, in milliseconds (12 hours).
pub const PUBLISH_PERIOD_MS: u64 = 43_200_000;

/// Period of querying the addresses of others, in milliseconds (10 minutes).
pub const QUERY_PERIOD_MS: u64 = 600_000;

/// Which actions a call of `poll` asks for.
pub struct Tick {
    pub publish: bool,
    pub query: bool,
}

/// Makes an authority discoverable and discovers other authorities.
pub struct AuthorityDiscovery {
    /// Addresses of sentry nodes, advertised in place of this node's own: `None` where
    /// none were given, possibly empty where none of those given could be parsed.
    sentry_nodes: Option<Vec<Vec<u8>>>,
    publish_interval: Interval,
    query_interval: Interval,
    address_cache: AddressCache,
}

/// Bytes of each of `nodes` that parses as an address, in order.
pub open spec fn parsed_addresses(nodes: Seq<String>) -> Seq<Seq<u8>>
    decreases nodes.len(),
{
    if nodes.len() == 0 {
        seq![]
    } else {
        let rest = parsed_addresses(nodes.drop_last());
        match crate::external::address_from_str(nodes.last()@) {
            Some(a) => rest.push(a),
            None => rest,
        }
    }
}

/// The saturating sum of `now` and the bootstrap delay.
pub open spec fn first_deadline(now: u64) -> u64 {
    if now <= u64::MAX - BOOTSTRAP_DELAY_MS {
        (now + BOOTSTRAP_DELAY_MS) as u64
    } else {
        u64::MAX
    }
}

impl AuthorityDiscovery {
    /// A discovery task started at `now` (milliseconds). Where `sentry_nodes` is not empty,
    /// the addresses among them that parse are advertised in place of this node's own.
    pub fn new(sentry_nodes: Vec<String>, now: u64) -> (r: Self)
        ensures
            r.sentry_nodes_view() == if sentry_nodes@.len() == 0 {
                None
            } else {
                Some(parsed_addresses(sentry_nodes@))
            },
            r.publish_timer().next == first_deadline(now),
            r.publish_timer().period == PUBLISH_PERIOD_MS,
            r.query_timer().next == first_deadline(now),
            r.query_timer().period == QUERY_PERIOD_MS,
            r.cache()@ == Seq::<EntryModel>::empty(),
    {
        let start = if now <= u64::MAX - BOOTSTRAP_DELAY_MS {
            now + BOOTSTRAP_DELAY_MS
        } else {
            u64::MAX
        };
        let sentry = if sentry_nodes.len() == 0 {
            None
        } else {
            let mut addrs: Vec<Vec<u8>> = Vec::new();
            let mut i: usize = 0;
            while i < sentry_nodes.len()
                invariant
                    i <= sentry_nodes@.len(),
                    seqs(addrs@) == parsed_addresses(sentry_nodes@.take(i as int)),
                decreases sentry_nodes@.len() - i,
            {
                let ghost before = seqs(addrs@);
                assert(sentry_nodes@.take(i + 1).drop_last() =~= sentry_nodes@.take(i as int));
                match crate::external::parse_address(&sentry_nodes[i]) {
                    Some(a) => {
                        addrs.push(a);
                        assert(seqs(addrs@) =~= before.push(addrs@.last()@));
                    },
                    None => {},
                }
                i = i + 1;
            }
            assert(sentry_nodes@.take(sentry_nodes@.len() as int) =~= sentry_nodes@);
            Some(addrs)
        };
        AuthorityDiscovery {
            sentry_nodes: sentry,
            publish_interval: interval_at(start, PUBLISH_PERIOD_MS),
            query_interval: interval_at(start, QUERY_PERIOD_MS),
            address_cache: AddressCache::new(),
        }
    }

    pub closed spec fn sentry_nodes_view(&self) -> Option<Seq<Seq<u8>>> {
        match self.sentry_nodes {
            Some(v) => Some(seqs(v@)),
            None => None,
        }
    }

    pub closed spec fn cache(&self) -> AddressCache {
        self.address_cache
    }

    pub closed spec fn publish_timer(&self) -> Interval {
        self.publish_interval
    }

    pub closed spec fn query_timer(&self) -> Interval {
        self.query_interval
    }

    /// The sentry addresses, if any were given.
    pub fn sentry_nodes(&self) -> (r: Option<Vec<Vec<u8>>>)
        ensures
            match self.sentry_nodes_view() {
                Some(s) => r matches Some(v) && seqs(v@) == s,
                None => r is None,
            },
    {
        match &self.sentry_nodes {
            Some(v) => Some(clone_list(v)),
            None => None,
        }
    }

    /// The cache of verified addresses.
    pub fn address_cache(&self) -> (r: &AddressCache)
        ensures
            *r == self.cache(),
    {
        &self.address_cache
    }
}

/// The DHT keys of `authorities`, in their order.
pub fn request_addresses_of_others(authorities: &Vec<Vec<u8>>) -> (r: Vec<Vec<u8>>)
    ensures
        r@.len() == authorities@.len(),
        forall|i: int| 0 <= i < r@.len() ==> #[trigger] r@[i]@ == dht_key_of(authorities@[i]@),
{
    let mut r: Vec<Vec<u8>> = Vec::new();
    let mut i: usize = 0;
    while i < authorities.len()
        invariant
            i <= authorities@.len(),
            r@.len() == i,
            forall|k: int| 0 <= k < i ==> #[trigger] r@[k]@ == dht_key_of(authorities@[k]@),
        decreases authorities@.len() - i,
    {
        r.push(hash_authority_id(&authorities[i]));
        i = i + 1;
    }
    r
}

fn find_in_index(auths: &Vec<Vec<u8>>, keys: &Vec<Vec<u8>>, key: &Vec<u8>) -> (r: Option<usize>)
    requires
        keys@.len() == auths@.len(),
        forall|i: int| 0 <= i < keys@.len() ==> #[trigger] keys@[i]@ == dht_key_of(auths@[i]@),
    ensures
        match find_authority(seqs(auths@), key@) {
            None => r is None,
            Some(id) => r matches Some(i) && i < auths@.len() && auths@[i as int]@ == id,
        },
{
    let ghost all = seqs(auths@);
    let mut i: usize = 0;
    assert(all.subrange(0, all.len() as int) =~= all);
    while i < auths.len()
        invariant
            all == seqs(auths@),
            keys@.len() == auths@.len(),
            forall|i: int| 0 <= i < keys@.len() ==> #[trigger] keys@[i]@ == dht_key_of(auths@[i]@),
            i <= auths@.len(),
            find_authority(all, key@) == find_authority(all.subrange(i as int, all.len() as int), key@),
        decreases auths@.len() - i,
    {
        let ghost rest = all.subrange(i as int, all.len() as int);
        assert(rest[0] == auths@[i as int]@);
        assert(rest.drop_first() =~= all.subrange(i + 1, all.len() as int));
        assert(keys@[i as int]@ == dht_key_of(auths@[i as int]@));
        if crate::cache::bytes_eq(&keys[i], key) {
            return Some(i);
        }
        i = i + 1;
    }
    None
}

/// The first `MAX_ADDRESSES_PER_AUTHORITY` of `a`, or all of them where there are no more.
pub fn truncate_addresses(a: Vec<Vec<u8>>) -> (r: Vec<Vec<u8>>)
    ensures
        seqs(r@) == truncated(seqs(a@)),
{
    if a.len() > MAX_ADDRESSES_PER_AUTHORITY {
        let mut r: Vec<Vec<u8>> = Vec::new();
        let mut i: usize = 0;
        while i < MAX_ADDRESSES_PER_AUTHORITY
            invariant
                i <= MAX_ADDRESSES_PER_AUTHORITY < a@.len(),
                seqs(r@) == seqs(a@).take(i as int),
            decreases MAX_ADDRESSES_PER_AUTHORITY - i,
        {
            let ghost before = seqs(r@);
            r.push(clone_bytes(&a[i]));
            assert(seqs(r@) =~= before.push(a@[i as int]@));
            assert(seqs(a@).take(i + 1) =~= seqs(a@).take(i as int).push(a@[i as int]@));
            i = i + 1;
        }
        r
    } else {
        a
    }
}

/// Whether every one of `addrs` is a well-formed address.
fn check_addresses(addrs: &Vec<Vec<u8>>) -> (r: bool)
    ensures
        r == !(exists|k: int| 0 <= k < seqs(addrs@).len() && !is_address(#[trigger] seqs(addrs@)[k])),
{
    let mut j: usize = 0;
    while j < addrs.len()
        invariant
            j <= addrs@.len(),
            forall|k: int| 0 <= k < j ==> is_address(#[trigger] seqs(addrs@)[k]),
        decreases addrs@.len() - j,
    {
        if !check_address(&addrs[j]) {
            assert(!is_address(seqs(addrs@)[j as int]));
            return false;
        }
        j = j + 1;
    }
    true
}

/// The addresses cached for an authority once its record is taken are the first
/// `MAX_ADDRESSES_PER_AUTHORITY` of those the record holds, or all of them where it holds
/// no more.
pub proof fn lemma_cached_addresses_truncated(m: Seq<EntryModel>, id: Seq<u8>, addrs: Seq<Seq<u8>>)
    ensures
        crate::cache::lookup(inserted(m, id, truncated(addrs)), id) == Some(truncated(addrs)),
        addrs.len() > MAX_ADDRESSES_PER_AUTHORITY ==> truncated(addrs).len() == MAX_ADDRESSES_PER_AUTHORITY
            && forall|i: int| 0 <= i < MAX_ADDRESSES_PER_AUTHORITY ==> #[trigger] truncated(addrs)[i] == addrs[i],
        addrs.len() <= MAX_ADDRESSES_PER_AUTHORITY ==> truncated(addrs) == addrs,
{
    let r = inserted(m, id, truncated(addrs));
    assert(r.last() == (id, truncated(addrs)));
}

proof fn lemma_purge_keeps_members(m: Seq<EntryModel>, auths: Seq<Vec<u8>>)
    requires
        forall|i: int| 0 <= i < m.len() ==> is_member(auths, #[trigger] m[i].0),
    ensures
        purged(m, auths) == m,
    decreases m.len(),
{
    reveal(Seq::filter);
    if m.len() > 0 {
        lemma_purge_keeps_members(m.drop_last(), auths);
        assert(is_member(auths, m[m.len() - 1].0));
        assert(m.drop_last().push(m.last()) =~= m);
    }
}

/// A pass with no new records over an unchanged authority set leaves the cache as the
/// previous pass left it, so the priority group it pushes is the same set again.
pub proof fn lemma_repeated_pass_is_idempotent(m: Seq<EntryModel>, auths: Seq<Vec<u8>>)
    requires
        forall|i: int| 0 <= i < m.len() ==> is_member(auths, #[trigger] m[i].0),
    ensures
        apply_batch(purged(m, auths), seqs(auths), seq![]) == (m, None::<DiscoveryError>),
        priority_set(apply_batch(purged(m, auths), seqs(auths), seq![]).0) == priority_set(m),
{
    lemma_purge_keeps_members(m, auths);
}

/// Checks one DHT record against the authority set `auths`, whose DHT keys are `keys`.
pub fn verify_record(auths: &Vec<Vec<u8>>, keys: &Vec<Vec<u8>>, key: &Vec<u8>, value: &Vec<u8>) -> (r:
    Result<(Vec<u8>, Vec<Vec<u8>>), DiscoveryError>)
    requires
        keys@.len() == auths@.len(),
        forall|i: int| 0 <= i < keys@.len() ==> #[trigger] keys@[i]@ == dht_key_of(auths@[i]@),
    ensures
        match record_outcome(seqs(auths@), key@, value@) {
            Ok((id, a)) => r matches Ok((x, y)) && x@ == id && seqs(y@) == a,
            Err(e) => r == Err::<(Vec<u8>, Vec<Vec<u8>>), DiscoveryError>(e),
        },
{
    let idx = match find_in_index(auths, keys, key) {
        None => {
            return Err(DiscoveryError::UnknownAuthority);
        },
        Some(i) => i,
    };
    let (list, sig) = match decode_signed(value) {
        None => {
            return Err(DiscoveryError::DecodingRecord);
        },
        Some(p) => p,
    };
    if sig.len() < SIGNATURE_LEN {
        return Err(DiscoveryError::DecodingSignature);
    }
    let ghost whole_sig = sig@;
    let sig = copy_range(&sig, 0, SIGNATURE_LEN);
    assert(sig@ =~= whole_sig.take(SIGNATURE_LEN as int));
    if !verify_signature(&sig, &list, &auths[idx]) {
        return Err(DiscoveryError::Verification);
    }
    let addrs = match decode_address_list(&list) {
        None => {
            return Err(DiscoveryError::DecodingRecord);
        },
        Some(a) => a,
    };
    if !check_addresses(&addrs) {
        return Err(DiscoveryError::ParsingAddress);
    }
    Ok((clone_bytes(&auths[idx]), truncate_addresses(addrs)))
}

proof fn lemma_batch_stops(
    m: Seq<EntryModel>,
    auths: Seq<Seq<u8>>,
    values: Seq<(Seq<u8>, Seq<u8>)>,
    i: int,
    k: int,
)
    requires
        0 <= i <= k <= values.len(),
        apply_batch(m, auths, values.take(i)).1 is Some,
    ensures
        apply_batch(m, auths, values.take(k)) == apply_batch(m, auths, values.take(i)),
    decreases k - i,
{
    if k > i {
        lemma_batch_stops(m, auths, values, i, k - 1);
        assert(values.take(k).drop_last() =~= values.take(k - 1));
    }
}

proof fn lemma_find_authority_member(auths: Seq<Seq<u8>>, key: Seq<u8>)
    ensures
        find_authority(auths, key) matches Some(id) ==> auths.contains(id),
    decreases auths.len(),
{
    if auths.len() > 0 && dht_key_of(auths[0]) != key {
        lemma_find_authority_member(auths.drop_first(), key);
        if let Some(id) = find_authority(auths, key) {
            let k = choose|k: int| 0 <= k < auths.drop_first().len() && auths.drop_first()[k] == id;
            assert(auths[k + 1] == id);
        }
    } else if auths.len() > 0 {
        assert(auths[0] == auths[0]);
    }
}

/// Every authority that a batch leaves in the cache is in the set the batch was checked
/// against, where that holds of the cache the batch starts from.
pub proof fn lemma_batch_keeps_members(m: Seq<EntryModel>, auths: Seq<Vec<u8>>, values: Seq<(Seq<u8>, Seq<u8>)>)
    requires
        forall|i: int| 0 <= i < m.len() ==> is_member(auths, #[trigger] m[i].0),
    ensures
        forall|i: int| 0 <= i < apply_batch(m, seqs(auths), values).0.len()
            ==> is_member(auths, #[trigger] apply_batch(m, seqs(auths), values).0[i].0),
    decreases values.len(),
{
    if values.len() > 0 {
        lemma_batch_keeps_members(m, auths, values.drop_last());
        let (m2, e) = apply_batch(m, seqs(auths), values.drop_last());
        if e is None {
            if let Ok((id, a)) = record_outcome(seqs(auths), values.last().0, values.last().1) {
                lemma_find_authority_member(seqs(auths), values.last().0);
                let pred = other_than(id);
                let r = inserted(m2, id, a);
                assert forall|i: int| 0 <= i < r.len() implies is_member(auths, #[trigger] r[i].0) by {
                    if i < r.len() - 1 {
                        assert(m2.filter(pred)[i] == r[i]);
                        assert(m2.filter(pred).contains(r[i]));
                        m2.lemma_filter_contains_rev(pred, r[i]);
                        let k = choose|k: int| 0 <= k < m2.len() && m2[k] == r[i];
                        assert(is_member(auths, m2[k].0));
                    }
                }
            }
        }
    }
}

/// A record published for authority `id` is looked up, at verification, under the same
/// DHT key: the key it was stored under resolves to an authority of the current set with
/// that key, wherever `id` is in the set.
pub proof fn lemma_published_key_resolves(auths: Seq<Seq<u8>>, id: Seq<u8>)
    requires
        auths.contains(id),
    ensures
        find_authority(auths, dht_key_of(id)) matches Some(x) && dht_key_of(x) == dht_key_of(id)
            && auths.contains(x),
    decreases auths.len(),
{
    lemma_find_authority_member(auths, dht_key_of(id));
    if auths[0] != id {
        let k = choose|k: int| 0 <= k < auths.len() && auths[k] == id;
        assert(auths.drop_first()[k - 1] == id);
        lemma_published_key_resolves(auths.drop_first(), id);
    }
}

/// A published record of authority `id` that `id`'s key signs yields, at verification,
/// exactly its addresses (the first `MAX_ADDRESSES_PER_AUTHORITY` of them); with a
/// signature that does not verify it is refused.
#[verifier::rlimit(50)]
pub proof fn lemma_published_record_outcome(
    auths: Seq<Seq<u8>>,
    id: Seq<u8>,
    addresses: Seq<Seq<u8>>,
    signature: Seq<u8>,
)
    requires
        find_authority(auths, dht_key_of(id)) == Some(id),
        signature.len() == SIGNATURE_LEN,
        forall|i: int| 0 <= i < addresses.len() ==> is_address(#[trigger] addresses[i]),
        forall|i: int| 0 <= i < addresses.len() ==> #[trigger] addresses[i].len()
            < crate::codec::pow128(crate::codec::VARINT_MAX_BYTES as nat),
        address_list_bytes(addresses).len() < crate::codec::pow128(crate::codec::VARINT_MAX_BYTES as nat),
    ensures
        signature_valid(signature, address_list_bytes(addresses), id) ==> record_outcome(
            auths,
            dht_key_of(id),
            signed_bytes(address_list_bytes(addresses), signature),
        ) == Ok::<(Seq<u8>, Seq<Seq<u8>>), DiscoveryError>((id, truncated(addresses))),
        !signature_valid(signature, address_list_bytes(addresses), id) ==> record_outcome(
            auths,
            dht_key_of(id),
            signed_bytes(address_list_bytes(addresses), signature),
        ) == Err::<(Seq<u8>, Seq<Seq<u8>>), DiscoveryError>(DiscoveryError::Verification),
{
    let list = address_list_bytes(addresses);
    crate::codec::lemma_signed_round_trip(list, signature);
    crate::codec::lemma_address_list_round_trip(addresses);
    assert(signature.take(SIGNATURE_LEN as int) =~= signature);
    assert(parse_signed(signed_bytes(list, signature)) == Some((list, signature)));
    assert(parse_address_list(list) == Some(addresses));
    assert(!(exists|i: int| 0 <= i < addresses.len() && !is_address(#[trigger] addresses[i])));
}

/// The keys of `local_keys` that are in `authorities`, each once.
pub fn get_own_public_keys_within_authority_set(local_keys: &Vec<Vec<u8>>, authorities: &Vec<Vec<u8>>) -> (r: Vec<Vec<u8>>)
    ensures
        seqs(r@).no_duplicates(),
        forall|k: Seq<u8>| #[trigger] seqs(r@).contains(k) <==> (seqs(local_keys@).contains(k)
            && seqs(authorities@).contains(k)),
{
    let mut r: Vec<Vec<u8>> = Vec::new();
    let mut i: usize = 0;
    while i < local_keys.len()
        invariant
            i <= local_keys@.len(),
            seqs(r@).no_duplicates(),
            forall|k: Seq<u8>| #[trigger] seqs(r@).contains(k) <==> (seqs(local_keys@).take(i as int).contains(k)
                && seqs(authorities@).contains(k)),
        decreases local_keys@.len() - i,
    {
        let ghost before = seqs(r@);
        let ghost x = local_keys@[i as int]@;
        let ghost pre = seqs(local_keys@).take(i as int);
        assert(seqs(local_keys@).take(i + 1) =~= pre.push(x));
        if contains_bytes(authorities, &local_keys[i]) && !contains_bytes(&r, &local_keys[i]) {
            r.push(clone_bytes(&local_keys[i]));
            assert(seqs(r@) =~= before.push(x));
            proof {
                lemma_push_no_duplicates(before, x);
            }
        }
        proof {
            assert forall|k: Seq<u8>| #[trigger] seqs(r@).contains(k) <==> (seqs(local_keys@).take(i + 1).contains(k)
                && seqs(authorities@).contains(k)) by {
                lemma_push_contains(before, x, k);
                lemma_push_contains(pre, x, k);
            }
        }
        i = i + 1;
    }
    assert(seqs(local_keys@).take(local_keys@.len() as int) =~= seqs(local_keys@));
    r
}

/// What a node advertises: its sentry addresses where they were given, else its own.
pub open spec fn advertised(
    sentry: Option<Seq<Seq<u8>>>,
    external: Seq<Seq<u8>>,
    peer: Seq<u8>,
) -> Option<Seq<Seq<u8>>> {
    match sentry {
        Some(s) => Some(s),
        None => own_addresses(external, peer),
    }
}

impl AuthorityDiscovery {
    /// Drops the cached addresses of authorities that left `current_authorities`.
    pub fn purge_old_authorities_from_cache(&mut self, current_authorities: &Vec<Vec<u8>>)
        ensures
            final(self).cache()@ == purged(old(self).cache()@, current_authorities@),
            final(self).sentry_nodes_view() == old(self).sentry_nodes_view(),
            final(self).publish_timer() == old(self).publish_timer(),
            final(self).query_timer() == old(self).query_timer(),
    {
        self.address_cache.purge(current_authorities);
    }

    /// Verifies a batch of DHT records against `authorities`, the current set, and caches
    /// the addresses they hold. Entries of authorities outside the set are dropped first.
    /// The first record that fails stops the batch with its error; otherwise the result is
    /// every cached address once, the new priority group.
    pub fn handle_dht_value_found_event(
        &mut self,
        values: &Vec<(Vec<u8>, Vec<u8>)>,
        authorities: &Vec<Vec<u8>>,
    ) -> (r: Result<Vec<Vec<u8>>, DiscoveryError>)
        ensures
            ({
                let (m, e) = apply_batch(
                    purged(old(self).cache()@, authorities@),
                    seqs(authorities@),
                    pair_models(values@),
                );
                &&& final(self).cache()@ == m
                &&& match e {
                    Some(err) => r == Err::<Vec<Vec<u8>>, DiscoveryError>(err),
                    None => r matches Ok(p) && seqs(p@).no_duplicates() && seqs(p@).to_set()
                        == priority_set(m),
                }
            }),
            forall|i: int| 0 <= i < final(self).cache()@.len()
                ==> is_member(authorities@, #[trigger] final(self).cache()@[i].0),
            final(self).sentry_nodes_view() == old(self).sentry_nodes_view(),
            final(self).publish_timer() == old(self).publish_timer(),
            final(self).query_timer() == old(self).query_timer(),
    {
        self.purge_old_authorities_from_cache(authorities);
        let ghost start = self.cache()@;
        let ghost vals = pair_models(values@);
        let ghost auths = seqs(authorities@);
        let keys = request_addresses_of_others(authorities);
        let mut i: usize = 0;
        assert(vals.take(0) =~= Seq::<(Seq<u8>, Seq<u8>)>::empty());
        while i < values.len()
            invariant
                i <= values@.len(),
                start == purged(old(self).cache()@, authorities@),
                forall|k: int| 0 <= k < start.len() ==> is_member(authorities@, #[trigger] start[k].0),
                vals == pair_models(values@),
                auths == seqs(authorities@),
                keys@.len() == authorities@.len(),
                forall|k: int| 0 <= k < keys@.len() ==> #[trigger] keys@[k]@ == dht_key_of(authorities@[k]@),
                apply_batch(start, auths, vals.take(i as int)) == (self.cache()@, None::<DiscoveryError>),
                self.sentry_nodes_view() == old(self).sentry_nodes_view(),
                self.publish_timer() == old(self).publish_timer(),
                self.query_timer() == old(self).query_timer(),
            decreases values@.len() - i,
        {
            assert(vals.take(i + 1).drop_last() =~= vals.take(i as int));
            assert(vals.take(i + 1).last() == (values@[i as int].0@, values@[i as int].1@));
            match verify_record(authorities, &keys, &values[i].0, &values[i].1) {
                Err(e) => {
                    proof {
                        assert(apply_batch(start, auths, vals.take(i + 1)) == (self.cache()@, Some(e)));
                        lemma_batch_stops(start, auths, vals, i + 1, vals.len() as int);
                        assert(vals.take(vals.len() as int) =~= vals);
                        lemma_batch_keeps_members(start, authorities@, vals);
                        let fin = apply_batch(start, auths, vals).0;
                        assert(self.cache()@ == fin);
                        assert forall|k: int| 0 <= k < fin.len() implies is_member(
                            authorities@,
                            #[trigger] fin[k].0,
                        ) by {}
                    }
                    return Err(e);
                },
                Ok((id, addrs)) => {
                    self.address_cache.insert(id, addrs);
                },
            }
            i = i + 1;
        }
        assert(vals.take(vals.len() as int) =~= vals);
        proof {
            lemma_batch_keeps_members(start, authorities@, vals);
        }
        Ok(self.address_cache.priority_addresses())
    }

    /// The addresses to advertise: the sentry addresses where they were given (even where
    /// none of them parsed), else each of `external` with `peer_id` appended.
    pub fn addresses_to_publish(&self, external: &Vec<Vec<u8>>, peer_id: &Vec<u8>) -> (r: Result<
        Vec<Vec<u8>>,
        DiscoveryError,
    >)
        ensures
            match advertised(self.sentry_nodes_view(), seqs(external@), peer_id@) {
                Some(a) => r matches Ok(v) && seqs(v@) == a,
                None => r == Err::<Vec<Vec<u8>>, DiscoveryError>(DiscoveryError::ParsingAddress),
            },
    {
        match &self.sentry_nodes {
            Some(v) => {
                return Ok(clone_list(v));
            },
            None => {},
        }
        let ghost ext = seqs(external@);
        let mut out: Vec<Vec<u8>> = Vec::new();
        let mut i: usize = 0;
        while i < external.len()
            invariant
                ext == seqs(external@),
                self.sentry_nodes_view() is None,
                i <= external@.len(),
                out@.len() == i,
                forall|k: int| 0 <= k < i ==> (#[trigger] with_peer_id(ext[k], peer_id@)) is Some,
                forall|k: int| 0 <= k < i ==> #[trigger] out@[k]@ == with_peer_id(ext[k], peer_id@).unwrap(),
            decreases external@.len() - i,
        {
            assert(ext[i as int] == external@[i as int]@);
            match append_peer_id(&external[i], peer_id) {
                None => {
                    assert(with_peer_id(ext[i as int], peer_id@) is None);
                    assert(self.sentry_nodes_view() is None);
                    assert(own_addresses(ext, peer_id@) is None);
                    return Err(DiscoveryError::ParsingAddress);
                },
                Some(a) => {
                    out.push(a);
                },
            }
            i = i + 1;
        }
        assert(seqs(out@) =~= Seq::new(ext.len(), |k: int| with_peer_id(ext[k], peer_id@).unwrap()));
        Ok(out)
    }

    /// Signs the advertised addresses once with each of `keys`, the key pairs of this node
    /// that are in the authority set, and gives the DHT writes to make: one per key, under
    /// the DHT key of its public key.
    pub fn publish_ext_addresses(
        &self,
        external: &Vec<Vec<u8>>,
        peer_id: &Vec<u8>,
        keys: &Vec<sr25519::Pair>,
    ) -> (r: Result<Vec<Publication>, DiscoveryError>)
        ensures
            match advertised(self.sentry_nodes_view(), seqs(external@), peer_id@) {
                None => r matches Err(e) && e == DiscoveryError::ParsingAddress,
                Some(a) => r matches Ok(p) && p@.len() == keys@.len() && forall|i: int|
                    0 <= i < p@.len() ==> {
                        let q = #[trigger] p@[i];
                        &&& q.authority@.len() == 32
                        &&& q.key@ == dht_key_of(q.authority@)
                        &&& q.signature@.len() == SIGNATURE_LEN
                        &&& q.value@ == signed_bytes(address_list_bytes(a), q.signature@)
                    },
            },
    {
        let addresses = match self.addresses_to_publish(external, peer_id) {
            Err(e) => {
                return Err(e);
            },
            Ok(a) => a,
        };
        let serialized = encode_address_list(&addresses);
        let ghost a = seqs(addresses@);
        let mut out: Vec<Publication> = Vec::new();
        let mut i: usize = 0;
        while i < keys.len()
            invariant
                i <= keys@.len(),
                out@.len() == i,
                serialized@ == address_list_bytes(a),
                forall|k: int| 0 <= k < i ==> {
                    let q = #[trigger] out@[k];
                    &&& q.authority@.len() == 32
                    &&& q.key@ == dht_key_of(q.authority@)
                    &&& q.signature@.len() == SIGNATURE_LEN
                    &&& q.value@ == signed_bytes(address_list_bytes(a), q.signature@)
                },
            decreases keys@.len() - i,
        {
            let signature = sign(&keys[i], &serialized);
            let authority = public_key(&keys[i]);
            let value = encode_signed(&serialized, &signature);
            let key = hash_authority_id(&authority);
            out.push(Publication { authority, key, signature, value });
            i = i + 1;
        }
        Ok(out)
    }

    /// Checks both timers at `now` (milliseconds); each that is due counts as one tick,
    /// however late the check. Events of the DHT are to be handled before this call.
    pub fn poll(&mut self, now: u64) -> (r: Tick)
        requires
            old(self).publish_timer().period > 0,
            old(self).query_timer().period > 0,
        ensures
            r.publish == (old(self).publish_timer().next <= now),
            r.query == (old(self).query_timer().next <= now),
            final(self).publish_timer().next == if r.publish {
                next_deadline(old(self).publish_timer().next, old(self).publish_timer().period, now)
            } else {
                old(self).publish_timer().next
            },
            final(self).query_timer().next == if r.query {
                next_deadline(old(self).query_timer().next, old(self).query_timer().period, now)
            } else {
                old(self).query_timer().next
            },
            final(self).publish_timer().period == old(self).publish_timer().period,
            final(self).query_timer().period == old(self).query_timer().period,
            final(self).cache() == old(self).cache(),
            final(self).sentry_nodes_view() == old(self).sentry_nodes_view(),
    {
        let publish = self.publish_interval.poll_tick(now);
        let query = self.query_interval.poll_tick(now);
        Tick { publish, query }
    }
}

} // verus!
