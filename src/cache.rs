//! Cache of verified addresses per authority, and the priority set it projects.
use crate::codec::seqs;
use vstd::prelude::*;

verus! {

/// An authority's raw public key and the addresses cached for it, as plain sequences.
pub type EntryModel = (Seq<u8>, Seq<Seq<u8>>);

pub open spec fn entry_model(e: (Vec<u8>, Vec<Vec<u8>>)) -> EntryModel {
    (e.0@, seqs(e.1@))
}

/// Whether authority `id` is in `authorities`.
pub open spec fn is_member(authorities: Seq<Vec<u8>>, id: Seq<u8>) -> bool {
    seqs(authorities).contains(id)
}

/// The addresses cached for `id`: those of the latest entry for it.
pub open spec fn lookup(m: Seq<EntryModel>, id: Seq<u8>) -> Option<Seq<Seq<u8>>>
    decreases m.len(),
{
    if m.len() == 0 {
        None
    } else if m.last().0 == id {
        Some(m.last().1)
    } else {
        lookup(m.drop_last(), id)
    }
}

/// Every address held in some entry of `m`.
pub open spec fn priority_set(m: Seq<EntryModel>) -> Set<Seq<u8>> {
    Set::new(|a: Seq<u8>| exists|i: int| 0 <= i < m.len() && #[trigger] m[i].1.contains(a))
}

/// Holds of the entries of authorities in `authorities`.
pub open spec fn member_of(authorities: Seq<Vec<u8>>) -> spec_fn(EntryModel) -> bool {
    |e: EntryModel| is_member(authorities, e.0)
}

/// Holds of the entries of authorities other than `id`.
pub open spec fn other_than(id: Seq<u8>) -> spec_fn(EntryModel) -> bool {
    |e: EntryModel| e.0 != id
}

/// Entries of `m` for authorities in `authorities`, in their order.
pub open spec fn purged(m: Seq<EntryModel>, authorities: Seq<Vec<u8>>) -> Seq<EntryModel> {
    m.filter(member_of(authorities))
}

/// `m` with the entry for `id` set to `addresses`.
pub open spec fn inserted(m: Seq<EntryModel>, id: Seq<u8>, addresses: Seq<Seq<u8>>) -> Seq<EntryModel> {
    m.filter(other_than(id)).push((id, addresses))
}

pub proof fn lemma_push_contains(s: Seq<Seq<u8>>, x: Seq<u8>, a: Seq<u8>)
    ensures
        s.push(x).contains(a) == (s.contains(a) || a == x),
{
    if s.contains(a) {
        let k = choose|k: int| 0 <= k < s.len() && s[k] == a;
        assert(s.push(x)[k] == a);
    }
    if a == x {
        assert(s.push(x)[s.len() as int] == a);
    }
    if s.push(x).contains(a) {
        let k = choose|k: int| 0 <= k < s.push(x).len() && s.push(x)[k] == a;
        if k < s.len() {
            assert(s[k] == a);
        }
    }
}

pub proof fn lemma_push_no_duplicates(s: Seq<Seq<u8>>, x: Seq<u8>)
    requires
        s.no_duplicates(),
        !s.contains(x),
    ensures
        s.push(x).no_duplicates(),
{
    let t = s.push(x);
    assert forall|i: int, j: int| 0 <= i < t.len() && 0 <= j < t.len() && i != j implies t[i] != t[j] by {
        if i == s.len() {
            assert(t[j] == s[j]);
        } else if j == s.len() {
            assert(t[i] == s[i]);
        } else {
            assert(t[i] == s[i] && t[j] == s[j]);
        }
    }
}

/// Verified addresses of authorities, one entry per authority.
pub struct AddressCache {
    entries: Vec<(Vec<u8>, Vec<Vec<u8>>)>,
}

pub fn bytes_eq(a: &Vec<u8>, b: &Vec<u8>) -> (r: bool)
    ensures
        r == (a@ == b@),
{
    if a.len() != b.len() {
        return false;
    }
    let mut i: usize = 0;
    while i < a.len()
        invariant
            a@.len() == b@.len(),
            i <= a@.len(),
            forall|k: int| 0 <= k < i ==> a@[k] == b@[k],
        decreases a@.len() - i,
    {
        if a[i] != b[i] {
            return false;
        }
        i = i + 1;
    }
    assert(a@ =~= b@);
    true
}

pub fn contains_bytes(v: &Vec<Vec<u8>>, x: &Vec<u8>) -> (r: bool)
    ensures
        r == seqs(v@).contains(x@),
{
    let mut i: usize = 0;
    while i < v.len()
        invariant
            i <= v@.len(),
            forall|k: int| 0 <= k < i ==> v@[k]@ != x@,
        decreases v@.len() - i,
    {
        if bytes_eq(&v[i], x) {
            assert(seqs(v@)[i as int] == x@);
            return true;
        }
        i = i + 1;
    }
    assert forall|k: int| 0 <= k < seqs(v@).len() implies seqs(v@)[k] != x@ by {
        assert(seqs(v@)[k] == v@[k]@);
    }
    false
}

pub fn clone_bytes(a: &Vec<u8>) -> (r: Vec<u8>)
    ensures
        r@ == a@,
{
    let mut r: Vec<u8> = Vec::new();
    let mut i: usize = 0;
    while i < a.len()
        invariant
            i <= a@.len(),
            r@ == a@.subrange(0, i as int),
        decreases a@.len() - i,
    {
        r.push(a[i]);
        assert(r@ =~= a@.subrange(0, i + 1));
        i = i + 1;
    }
    assert(a@.subrange(0, a@.len() as int) =~= a@);
    r
}

pub fn clone_list(a: &Vec<Vec<u8>>) -> (r: Vec<Vec<u8>>)
    ensures
        seqs(r@) == seqs(a@),
{
    let mut r: Vec<Vec<u8>> = Vec::new();
    let mut i: usize = 0;
    while i < a.len()
        invariant
            i <= a@.len(),
            seqs(r@) == seqs(a@).subrange(0, i as int),
        decreases a@.len() - i,
    {
        let ghost before = seqs(r@);
        r.push(clone_bytes(&a[i]));
        assert(seqs(r@) =~= before.push(a@[i as int]@));
        assert(seqs(r@) =~= seqs(a@).subrange(0, i + 1));
        i = i + 1;
    }
    assert(seqs(a@).subrange(0, a@.len() as int) =~= seqs(a@));
    r
}

impl View for AddressCache {
    type V = Seq<EntryModel>;

    closed spec fn view(&self) -> Seq<EntryModel> {
        self.entries@.map_values(|e: (Vec<u8>, Vec<Vec<u8>>)| entry_model(e))
    }
}

impl AddressCache {
    /// An empty cache.
    pub fn new() -> (r: Self)
        ensures
            r@ == Seq::<EntryModel>::empty(),
    {
        let r = AddressCache { entries: Vec::new() };
        assert(r@ =~= Seq::<EntryModel>::empty());
        r
    }

    /// Number of authorities with cached addresses.
    pub fn len(&self) -> (r: usize)
        ensures
            r == self@.len(),
    {
        self.entries.len()
    }

    /// Drops the entries of authorities that are not in `authorities`.
    pub fn purge(&mut self, authorities: &Vec<Vec<u8>>)
        ensures
            final(self)@ == purged(old(self)@, authorities@),
            forall|i: int| 0 <= i < final(self)@.len() ==> is_member(authorities@, #[trigger] final(self)@[i].0),
    {
        let ghost pred = member_of(authorities@);
        let ghost m = self@;
        let mut kept: Vec<(Vec<u8>, Vec<Vec<u8>>)> = Vec::new();
        let mut i: usize = 0;
        while i < self.entries.len()
            invariant
                m == self@,
                pred == member_of(authorities@),
                i <= self.entries@.len(),
                kept@.map_values(|e: (Vec<u8>, Vec<Vec<u8>>)| entry_model(e)) == m.take(i as int).filter(pred),
            decreases self.entries@.len() - i,
        {
            let ghost before = kept@.map_values(|e: (Vec<u8>, Vec<Vec<u8>>)| entry_model(e));
            proof {
                reveal(Seq::filter);
                assert(m.take(i + 1).drop_last() =~= m.take(i as int));
                assert(m.take(i + 1).last() == m[i as int]);
                assert(m.take(i + 1).filter(pred) == if pred(m[i as int]) {
                    m.take(i as int).filter(pred).push(m[i as int])
                } else {
                    m.take(i as int).filter(pred)
                });
                assert(m[i as int] == entry_model(self.entries@[i as int]));
            }
            if contains_bytes(authorities, &self.entries[i].0) {
                let id = clone_bytes(&self.entries[i].0);
                let addrs = clone_list(&self.entries[i].1);
                kept.push((id, addrs));
                assert(kept@.map_values(|e: (Vec<u8>, Vec<Vec<u8>>)| entry_model(e)) =~= before.push(m[i as int]));
                assert(pred(m[i as int]));
            } else {
                assert(!pred(m[i as int]));
            }
            i = i + 1;
        }
        assert(m.take(m.len() as int) =~= m);
        self.entries = kept;
        proof {
            assert forall|i: int| 0 <= i < self@.len() implies is_member(authorities@, #[trigger] self@[i].0) by {
                m.lemma_filter_pred(pred, i);
            }
        }
    }

    /// Sets the addresses cached for `id`, replacing any earlier entry for it.
    pub fn insert(&mut self, id: Vec<u8>, addresses: Vec<Vec<u8>>)
        ensures
            final(self)@ == inserted(old(self)@, id@, seqs(addresses@)),
            lookup(final(self)@, id@) == Some(seqs(addresses@)),
    {
        let ghost pred = other_than(id@);
        let ghost m = self@;
        let mut kept: Vec<(Vec<u8>, Vec<Vec<u8>>)> = Vec::new();
        let mut i: usize = 0;
        while i < self.entries.len()
            invariant
                m == self@,
                pred == other_than(id@),
                i <= self.entries@.len(),
                kept@.map_values(|e: (Vec<u8>, Vec<Vec<u8>>)| entry_model(e)) == m.take(i as int).filter(pred),
            decreases self.entries@.len() - i,
        {
            let ghost before = kept@.map_values(|e: (Vec<u8>, Vec<Vec<u8>>)| entry_model(e));
            proof {
                reveal(Seq::filter);
                assert(m.take(i + 1).drop_last() =~= m.take(i as int));
                assert(m.take(i + 1).last() == m[i as int]);
                assert(m.take(i + 1).filter(pred) == if pred(m[i as int]) {
                    m.take(i as int).filter(pred).push(m[i as int])
                } else {
                    m.take(i as int).filter(pred)
                });
                assert(m[i as int] == entry_model(self.entries@[i as int]));
            }
            if !bytes_eq(&self.entries[i].0, &id) {
                let k = clone_bytes(&self.entries[i].0);
                let addrs = clone_list(&self.entries[i].1);
                kept.push((k, addrs));
                assert(kept@.map_values(|e: (Vec<u8>, Vec<Vec<u8>>)| entry_model(e)) =~= before.push(m[i as int]));
                assert(pred(m[i as int]));
            } else {
                assert(!pred(m[i as int]));
            }
            i = i + 1;
        }
        assert(m.take(m.len() as int) =~= m);
        let ghost filtered = kept@.map_values(|e: (Vec<u8>, Vec<Vec<u8>>)| entry_model(e));
        kept.push((id, addresses));
        self.entries = kept;
        assert(self@ =~= filtered.push((id@, seqs(addresses@))));
        assert(self@.drop_last() =~= filtered);
    }

    /// The addresses cached for `id`, if any.
    pub fn get(&self, id: &Vec<u8>) -> (r: Option<Vec<Vec<u8>>>)
        ensures
            match lookup(self@, id@) {
                Some(a) => r matches Some(v) && seqs(v@) == a,
                None => r is None,
            },
    {
        let mut i: usize = self.entries.len();
        assert(self@.take(i as int) =~= self@);
        while i > 0
            invariant
                i <= self.entries@.len(),
                lookup(self@, id@) == lookup(self@.take(i as int), id@),
            decreases i,
        {
            let ghost t = self@.take(i as int);
            assert(t.drop_last() =~= self@.take(i - 1));
            assert(t.last() == self@[i - 1]);
            if bytes_eq(&self.entries[i - 1].0, id) {
                return Some(clone_list(&self.entries[i - 1].1));
            }
            i = i - 1;
        }
        None
    }

    /// Every cached address once, whatever the number of authorities that announced it.
    pub fn priority_addresses(&self) -> (r: Vec<Vec<u8>>)
        ensures
            seqs(r@).no_duplicates(),
            seqs(r@).to_set() == priority_set(self@),
    {
        let ghost m = self@;
        let mut r: Vec<Vec<u8>> = Vec::new();
        let mut i: usize = 0;
        while i < self.entries.len()
            invariant
                m == self@,
                i <= m.len(),
                seqs(r@).no_duplicates(),
                forall|a: Seq<u8>| #[trigger] seqs(r@).contains(a) <==>
                    exists|p: int| 0 <= p < i && #[trigger] m[p].1.contains(a),
            decreases m.len() - i,
        {
            let addrs = &self.entries[i].1;
            assert(seqs(addrs@) == m[i as int].1);
            let mut j: usize = 0;
            while j < addrs.len()
                invariant
                    m == self@,
                    i < m.len(),
                    j <= addrs@.len(),
                    seqs(addrs@) == m[i as int].1,
                    seqs(r@).no_duplicates(),
                    forall|a: Seq<u8>| #[trigger] seqs(r@).contains(a) <==>
                        ((exists|p: int| 0 <= p < i && #[trigger] m[p].1.contains(a))
                        || seqs(addrs@).subrange(0, j as int).contains(a)),
                decreases addrs@.len() - j,
            {
                let ghost before = seqs(r@);
                let ghost x = addrs@[j as int]@;
                let ghost pre = seqs(addrs@).subrange(0, j as int);
                assert(seqs(addrs@).subrange(0, j + 1) =~= pre.push(x));
                if !contains_bytes(&r, &addrs[j]) {
                    r.push(clone_bytes(&addrs[j]));
                    assert(seqs(r@) =~= before.push(x));
                    proof {
                        lemma_push_no_duplicates(before, x);
                    }
                }
                proof {
                    assert forall|a: Seq<u8>| #[trigger] seqs(r@).contains(a) <==>
                        ((exists|p: int| 0 <= p < i && #[trigger] m[p].1.contains(a))
                        || seqs(addrs@).subrange(0, j + 1).contains(a)) by {
                        lemma_push_contains(before, x, a);
                        lemma_push_contains(pre, x, a);
                    }
                }
                j = j + 1;
            }
            assert(seqs(addrs@).subrange(0, addrs@.len() as int) =~= seqs(addrs@));
            assert forall|a: Seq<u8>| #[trigger] seqs(r@).contains(a) <==>
                exists|p: int| 0 <= p < i + 1 && #[trigger] m[p].1.contains(a) by {
                if m[i as int].1.contains(a) {
                    assert(exists|p: int| 0 <= p < i + 1 && #[trigger] m[p].1.contains(a));
                }
            }
            i = i + 1;
        }
        assert(seqs(r@).to_set() =~= priority_set(m));
        r
    }
}

} // verus!
