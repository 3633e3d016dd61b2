//! The shared state of the server: keys with their values and deadlines, and
//! the broadcast channel of each pub/sub channel name.
//!
//! Time is a count of milliseconds on a clock that the caller keeps; a
//! deadline is the time at which a key expires.
use vstd::prelude::*;
use vstd::slice::slice_to_vec;
use tokio::sync::broadcast::{Receiver, Sender};
use crate::text::same_text;

verus! {

/// The sending half of a tokio broadcast channel, held opaque.
#[verifier::external_type_specification]
#[verifier::external_body]
#[verifier::reject_recursive_types(T)]
pub struct ExSender<T>(Sender<T>);

/// The receiving half of a tokio broadcast channel, held opaque.
#[verifier::external_type_specification]
#[verifier::external_body]
#[verifier::reject_recursive_types(T)]
pub struct ExReceiver<T>(Receiver<T>);

/// The number of messages a channel holds for a slow receiver.
pub const CHANNEL_CAPACITY: usize = 1024;

/// Relies on tokio::sync::broadcast::channel: a new channel with room for
/// `capacity` messages, and its first receiver. It panics on a zero capacity.
#[verifier::external_body]
fn new_channel(capacity: usize) -> (Sender<Vec<u8>>, Receiver<Vec<u8>>)
    requires
        0 < capacity <= CHANNEL_CAPACITY,
{
    tokio::sync::broadcast::channel(capacity)
}

/// Relies on broadcast::Sender::subscribe: a new receiver of the channel.
#[verifier::external_body]
fn add_receiver(tx: &Sender<Vec<u8>>) -> Receiver<Vec<u8>> {
    tx.subscribe()
}

/// Relies on broadcast::Sender::send: on success it gives the number of
/// receivers, which is at least one; it fails when no receiver is left.
#[verifier::external_body]
fn send_message(tx: &Sender<Vec<u8>>, value: Vec<u8>) -> (r: Option<usize>)
    ensures
        r is Some ==> r->Some_0 >= 1,
{
    tx.send(value).ok()
}

/// The count that a publish reports for what the send gave: the number of
/// receivers, or 0 when the send failed.
pub open spec fn reported(sent: Option<usize>) -> usize {
    match sent {
        Some(n) => n,
        None => 0,
    }
}

/// Computes `reported`.
pub fn receivers_reported(sent: Option<usize>) -> (r: usize)
    ensures
        r == reported(sent),
{
    match sent {
        Some(n) => n,
        None => 0,
    }
}

/// The value of one key.
pub struct EntryModel {
    /// The sequence number of the write that stored it.
    pub id: u64,
    pub data: Seq<u8>,
    /// When the key expires.
    pub expires_at: Option<u64>,
}

struct Entry {
    id: u64,
    data: Vec<u8>,
    expires_at: Option<u64>,
}

impl Entry {
    spec fn model(&self) -> EntryModel {
        EntryModel { id: self.id, data: self.data@, expires_at: self.expires_at }
    }
}

/// `now + d`, or the largest time when that is past it.
pub open spec fn deadline(now: u64, d: u64) -> u64 {
    if now + d > u64::MAX {
        u64::MAX
    } else {
        (now + d) as u64
    }
}

/// An entry whose deadline has come at `now`.
pub open spec fn expired(e: EntryModel, now: u64) -> bool {
    e.expires_at matches Some(w) && w <= now
}

/// The entries that are left once those expired at `now` are gone.
pub open spec fn unexpired(m: Map<Seq<char>, EntryModel>, now: u64) -> Map<Seq<char>, EntryModel> {
    Map::new(|k: Seq<char>| m.contains_key(k) && !expired(m[k], now), |k: Seq<char>| m[k])
}

/// `r` is the earliest deadline of `m`, or `None` when no key has one.
pub open spec fn is_earliest(m: Map<Seq<char>, EntryModel>, r: Option<u64>) -> bool {
    &&& (r is None <==> forall|k: Seq<char>| #[trigger] m.contains_key(k) ==> m[k].expires_at is None)
    &&& (r matches Some(w) ==> (exists|k: Seq<char>| #[trigger] m.contains_key(k) && m[k].expires_at
        == Some(w)) && forall|k: Seq<char>| #[trigger] m.contains_key(k) && m[k].expires_at is Some
        ==> w <= m[k].expires_at->Some_0)
}

/// One element of the expiration index: a deadline, the sequence number of
/// the write that set it, and the key.
pub open spec fn before(a: (u64, u64, Seq<char>), b: (u64, u64, Seq<char>)) -> bool {
    a.0 < b.0 || (a.0 == b.0 && a.1 < b.1)
}

/// The index is strictly ordered by deadline, then sequence number.
pub open spec fn sorted_slots(s: Seq<(u64, u64, Seq<char>)>) -> bool {
    forall|a: int, b: int| 0 <= a < b < s.len() ==> before(#[trigger] s[a], #[trigger] s[b])
}

/// The expiration index `s` agrees with the entries `kv`: every element
/// names a key whose deadline and sequence number it holds, every key with a
/// deadline has its element, and every sequence number is below `next_id`.
pub open spec fn index_ok(
    s: Seq<(u64, u64, Seq<char>)>,
    kv: Map<Seq<char>, EntryModel>,
    next_id: u64,
) -> bool {
    &&& sorted_slots(s)
    &&& forall|t: (u64, u64, Seq<char>)| #[trigger]
        s.contains(t) ==> kv.contains_key(t.2) && kv[t.2].expires_at == Some(t.0) && kv[t.2].id
            == t.1
    &&& forall|k: Seq<char>| #[trigger]
        kv.contains_key(k) && kv[k].expires_at is Some ==> s.contains(
            (kv[k].expires_at->Some_0, kv[k].id, k),
        )
    &&& forall|k: Seq<char>| #[trigger] kv.contains_key(k) ==> kv[k].id < next_id
}

spec fn slots_of(x: Seq<(u64, u64, String)>) -> Seq<(u64, u64, Seq<char>)> {
    x.map_values(|t: (u64, u64, String)| (t.0, t.1, t.2@))
}

/// Two elements of an ordered index with the same deadline and sequence
/// number stand at the same place.
proof fn lemma_slot_unique(s: Seq<(u64, u64, Seq<char>)>, a: int, b: int)
    requires
        sorted_slots(s),
        0 <= a < s.len(),
        0 <= b < s.len(),
        s[a].0 == s[b].0,
        s[a].1 == s[b].1,
    ensures
        a == b,
{
    if a < b {
        assert(before(s[a], s[b]));
    } else if b < a {
        assert(before(s[b], s[a]));
    }
}

/// Taking an element out of an ordered index.
proof fn lemma_slot_remove(s: Seq<(u64, u64, Seq<char>)>, j: int)
    requires
        sorted_slots(s),
        0 <= j < s.len(),
    ensures
        sorted_slots(s.remove(j)),
        forall|t: (u64, u64, Seq<char>)|
            #[trigger] s.remove(j).contains(t) <==> (s.contains(t) && !(t.0 == s[j].0 && t.1
                == s[j].1)),
{
    let r = s.remove(j);
    s.remove_ensures(j);
    assert forall|a: int, b: int| 0 <= a < b < r.len() implies before(#[trigger] r[a], #[trigger] r[b]) by {
        let oa = if a < j { a } else { a + 1 };
        let ob = if b < j { b } else { b + 1 };
        assert(r[a] == s[oa]);
        assert(r[b] == s[ob]);
        assert(before(s[oa], s[ob]));
    }
    assert forall|t: (u64, u64, Seq<char>)| #[trigger] r.contains(t) <==> (s.contains(t) && !(t.0
        == s[j].0 && t.1 == s[j].1)) by {
        if r.contains(t) {
            let k = choose|k: int| 0 <= k < r.len() && r[k] == t;
            let ok = if k < j { k } else { k + 1 };
            assert(r[k] == s[ok]);
            assert(s.contains(t));
            if t.0 == s[j].0 && t.1 == s[j].1 {
                lemma_slot_unique(s, ok, j);
            }
        }
        if s.contains(t) && !(t.0 == s[j].0 && t.1 == s[j].1) {
            let k = choose|k: int| 0 <= k < s.len() && s[k] == t;
            assert(k != j);
            let nk = if k < j { k } else { k - 1 };
            assert(r[nk] == s[k]);
        }
    }
}

/// Putting an element into an ordered index at its place.
proof fn lemma_slot_insert(s: Seq<(u64, u64, Seq<char>)>, p: int, t: (u64, u64, Seq<char>))
    requires
        sorted_slots(s),
        0 <= p <= s.len(),
        forall|j: int| 0 <= j < p ==> before(#[trigger] s[j], t),
        forall|j: int| p <= j < s.len() ==> before(t, #[trigger] s[j]),
    ensures
        sorted_slots(s.insert(p, t)),
        forall|u: (u64, u64, Seq<char>)| #[trigger] s.insert(p, t).contains(u) <==> (u == t || s.contains(u)),
{
    let r = s.insert(p, t);
    s.insert_ensures(p, t);
    assert forall|a: int, b: int| 0 <= a < b < r.len() implies before(#[trigger] r[a], #[trigger] r[b]) by {
        if a < p && b < p {
            assert(r[a] == s[a] && r[b] == s[b]);
        } else if a < p && b == p {
            assert(r[a] == s[a]);
        } else if a < p {
            assert(r[a] == s[a] && r[b] == s[b - 1]);
            assert(before(s[a], t) && before(t, s[b - 1]));
        } else if a == p {
            assert(r[b] == s[b - 1]);
        } else {
            assert(r[a] == s[a - 1] && r[b] == s[b - 1]);
        }
    }
    assert forall|u: (u64, u64, Seq<char>)| #[trigger] r.contains(u) <==> (u == t || s.contains(u)) by {
        if r.contains(u) {
            let k = choose|k: int| 0 <= k < r.len() && r[k] == u;
            if k < p {
                assert(r[k] == s[k]);
            } else if k > p {
                assert(r[k] == s[k - 1]);
            }
        }
        if u == t {
            assert(r[p] == t);
        }
        if s.contains(u) {
            let k = choose|k: int| 0 <= k < s.len() && s[k] == u;
            if k < p {
                assert(r[k] == s[k]);
            } else {
                assert(r[k + 1] == s[k]);
            }
        }
    }
}

spec fn key_at(v: Seq<(String, Entry)>, i: int) -> Seq<char> {
    v[i].0@
}

spec fn name_at(v: Seq<(String, Sender<Vec<u8>>)>, i: int) -> Seq<char> {
    v[i].0@
}

/// Keys, values, deadlines and channels.
pub struct Store {
    entries: Vec<(String, Entry)>,
    /// Ordered by deadline, then sequence number; the first element is the
    /// earliest deadline.
    expirations: Vec<(u64, u64, String)>,
    pub_sub: Vec<(String, Sender<Vec<u8>>)>,
    next_id: u64,
    shutdown: bool,
    kv: Ghost<Map<Seq<char>, EntryModel>>,
    names: Ghost<Set<Seq<char>>>,
    /// For each channel, every message handed to its sender with what the
    /// send gave, in order.
    log: Ghost<Map<Seq<char>, Seq<(Seq<u8>, Option<usize>)>>>,
}

/// The entry clauses of well-formedness depend on the entries, the
/// channels and their models alone.
proof fn lemma_entries_wf_frame(a: &Store, b: &Store)
    requires
        a.entries_wf(),
        a.entries@ == b.entries@,
        a.kv@ == b.kv@,
        a.pub_sub@ == b.pub_sub@,
        a.names@ == b.names@,
    ensures
        b.entries_wf(),
{
    let e = b.entries@;
    let c = b.pub_sub@;
    assert(forall|kk: Seq<char>|
        #[trigger] b.kv@.contains_key(kk) ==> exists|i: int| 0 <= i < e.len() && key_at(e, i) == kk);
    assert(forall|kk: Seq<char>|
        #[trigger] b.names@.contains(kk) ==> exists|i: int| 0 <= i < c.len() && name_at(c, i) == kk);
}

impl Store {
    /// The value of each key.
    pub closed spec fn entries(&self) -> Map<Seq<char>, EntryModel> {
        self.kv@
    }

    /// The channel names that have a broadcast channel.
    pub closed spec fn channels(&self) -> Set<Seq<char>> {
        self.names@
    }

    /// The broadcast sender of each channel.
    pub closed spec fn senders(&self) -> Map<Seq<char>, Sender<Vec<u8>>> {
        Map::new(
            |k: Seq<char>| self.names@.contains(k),
            |k: Seq<char>|
                self.pub_sub@[choose|i: int| 0 <= i < self.pub_sub@.len() && name_at(self.pub_sub@, i) == k].1,
        )
    }

    /// For each channel, the messages handed to its sender, in order, each
    /// with what the send gave.
    pub closed spec fn sent(&self) -> Map<Seq<char>, Seq<(Seq<u8>, Option<usize>)>> {
        self.log@
    }

    /// The sequence number that the next write gets.
    pub closed spec fn next_id(&self) -> u64 {
        self.next_id
    }

    pub closed spec fn is_shut_down(&self) -> bool {
        self.shutdown
    }

    /// The expiration index: deadline, sequence number and key.
    pub closed spec fn expirations(&self) -> Seq<(u64, u64, Seq<char>)> {
        slots_of(self.expirations@)
    }

    /// Each key stands once in the entry list and agrees with its model, each
    /// channel name has its broadcast channel, and the expiration index agrees
    /// with the entries (`index_ok`).
    pub closed spec fn wf(&self) -> bool {
        &&& self.entries_wf()
        &&& self.channels_wf()
        &&& index_ok(self.expirations(), self.kv@, self.next_id)
    }

    closed spec fn channels_wf(&self) -> bool {
        let c = self.pub_sub@;
        &&& forall|i: int, j: int|
            0 <= i < c.len() && 0 <= j < c.len() && #[trigger] name_at(c, i) == #[trigger] name_at(c, j)
                ==> i == j
        &&& self.log@.dom() == self.names@
    }

    closed spec fn entries_wf(&self) -> bool {
        let e = self.entries@;
        let c = self.pub_sub@;
        &&& forall|i: int|
            0 <= i < e.len() ==> self.kv@.contains_key(#[trigger] key_at(e, i)) && self.kv@[key_at(
                e,
                i,
            )] == e[i].1.model()
        &&& forall|k: Seq<char>|
            #[trigger] self.kv@.contains_key(k) ==> exists|i: int| 0 <= i < e.len() && key_at(e, i) == k
        &&& forall|i: int, j: int|
            0 <= i < e.len() && 0 <= j < e.len() && #[trigger] key_at(e, i) == #[trigger] key_at(e, j)
                ==> i == j
        &&& forall|i: int| 0 <= i < c.len() ==> self.names@.contains(#[trigger] name_at(c, i))
        &&& forall|k: Seq<char>|
            #[trigger] self.names@.contains(k) ==> exists|i: int| 0 <= i < c.len() && name_at(c, i) == k
    }

    /// An empty store.
    pub fn new() -> (r: Store)
        ensures
            r.wf(),
            r.entries() == Map::<Seq<char>, EntryModel>::empty(),
            r.channels() == Set::<Seq<char>>::empty(),
            r.sent() == Map::<Seq<char>, Seq<(Seq<u8>, Option<usize>)>>::empty(),
            r.next_id() == 0,
            !r.is_shut_down(),
    {
        let r = Store {
            entries: Vec::new(),
            expirations: Vec::new(),
            pub_sub: Vec::new(),
            next_id: 0,
            shutdown: false,
            kv: Ghost(Map::empty()),
            names: Ghost(Set::empty()),
            log: Ghost(Map::empty()),
        };
        assert(r.expirations() =~= Seq::<(u64, u64, Seq<char>)>::empty());
        r
    }

    /// Where `key` stands in the entry list.
    fn find(&self, key: &str) -> (r: Option<usize>)
        requires
            self.entries_wf(),
        ensures
            r matches Some(i) ==> i < self.entries@.len() && key_at(self.entries@, i as int) == key@,
            r is None ==> !self.kv@.contains_key(key@),
    {
        let mut i: usize = 0;
        while i < self.entries.len()
            invariant
                self.entries_wf(),
                i <= self.entries@.len(),
                forall|j: int| 0 <= j < i ==> key_at(self.entries@, j) != key@,
            decreases self.entries@.len() - i,
        {
            if same_text(self.entries[i].0.as_str(), key) {
                return Some(i);
            }
            i = i + 1;
        }
        None
    }

    /// The earliest deadline of any key: the first element of the index.
    pub fn next_expiration(&self) -> (r: Option<u64>)
        requires
            self.wf(),
        ensures
            is_earliest(self.entries(), r),
    {
        let ghost x = self.expirations();
        let ghost kv = self.kv@;
        if self.expirations.len() == 0 {
            proof {
                assert forall|k: Seq<char>| #[trigger] kv.contains_key(k) implies kv[k].expires_at is None by {
                    if kv[k].expires_at is Some {
                        assert(x.contains((kv[k].expires_at->Some_0, kv[k].id, k)));
                    }
                }
            }
            None
        } else {
            let w = self.expirations[0].0;
            proof {
                assert(x[0].0 == w);
                assert(x.contains(x[0]));
                assert(kv.contains_key(x[0].2) && kv[x[0].2].expires_at == Some(w));
                assert forall|k: Seq<char>| #[trigger] kv.contains_key(k) && kv[k].expires_at is Some
                    implies w <= kv[k].expires_at->Some_0 by {
                    let t = (kv[k].expires_at->Some_0, kv[k].id, k);
                    assert(x.contains(t));
                    let j = choose|j: int| 0 <= j < x.len() && x[j] == t;
                    if j > 0 {
                        assert(before(x[0], x[j]));
                    }
                }
            }
            Some(w)
        }
    }

    /// A copy of the value of `key`. Deadlines are not looked at here: a key
    /// stays readable until it is purged.
    pub fn get(&self, key: &str) -> (r: Option<Vec<u8>>)
        requires
            self.wf(),
        ensures
            self.entries().contains_key(key@) ==> r is Some && r->Some_0@ == self.entries()[key@].data,
            !self.entries().contains_key(key@) ==> r is None,
    {
        match self.find(key) {
            Some(i) => {
                assert(self.kv@[key_at(self.entries@, i as int)] == self.entries@[i as int].1.model());
                Some(slice_to_vec(self.entries[i].1.data.as_slice()))
            },
            None => None,
        }
    }

    /// Drops the entry at index `i`.
    fn remove_at(&mut self, i: usize)
        requires
            old(self).entries_wf(),
            i < old(self).entries@.len(),
        ensures
            final(self).entries_wf(),
            final(self).expirations@ == old(self).expirations@,
            final(self).kv@ == old(self).kv@.remove(key_at(old(self).entries@, i as int)),
            final(self).entries@ == old(self).entries@.remove(i as int),
            final(self).names@ == old(self).names@,
            final(self).log@ == old(self).log@,
            final(self).pub_sub@ == old(self).pub_sub@,
            final(self).next_id == old(self).next_id,
            final(self).shutdown == old(self).shutdown,
    {
        let ghost e0 = self.entries@;
        let ghost k0 = key_at(e0, i as int);
        self.entries.remove(i);
        self.kv = Ghost(self.kv@.remove(k0));
        proof {
            let e = self.entries@;
            assert forall|j: int| 0 <= j < e.len() implies self.kv@.contains_key(#[trigger] key_at(e, j))
                && self.kv@[key_at(e, j)] == e[j].1.model() by {
                let oj = if j < i { j } else { j + 1 };
                assert(e[j] == e0[oj]);
                assert(key_at(e, j) == key_at(e0, oj));
                assert(key_at(e0, oj) != k0);
            }
            assert forall|k: Seq<char>| #[trigger] self.kv@.contains_key(k) implies exists|j: int|
                0 <= j < e.len() && key_at(e, j) == k by {
                let oj = choose|j: int| 0 <= j < e0.len() && key_at(e0, j) == k;
                assert(oj != i);
                let nj = if oj < i { oj } else { oj - 1 };
                assert(e[nj] == e0[oj]);
                assert(key_at(e, nj) == k);
            }
            assert forall|a: int, b: int| 0 <= a < e.len() && 0 <= b < e.len() && #[trigger] key_at(e, a)
                == #[trigger] key_at(e, b) implies a == b by {
                let oa = if a < i { a } else { a + 1 };
                let ob = if b < i { b } else { b + 1 };
                assert(key_at(e, a) == key_at(e0, oa));
                assert(key_at(e, b) == key_at(e0, ob));
            }
            let c = self.pub_sub@;
            assert(forall|i: int| 0 <= i < c.len() ==> self.names@.contains(#[trigger] name_at(c, i)));
            assert(forall|k: Seq<char>|
                #[trigger] self.names@.contains(k) ==> exists|i: int| 0 <= i < c.len() && name_at(c, i) == k);
        }
    }

    /// Where an element with deadline `when` and a sequence number above
    /// every other goes in the index.
    fn slot_position(&self, when: u64) -> (p: usize)
        requires
            sorted_slots(self.expirations()),
        ensures
            p <= self.expirations().len(),
            forall|j: int| 0 <= j < p ==> (#[trigger] self.expirations()[j]).0 <= when,
            forall|j: int| p <= j < self.expirations().len() ==> (#[trigger] self.expirations()[j]).0 > when,
    {
        let ghost x = self.expirations();
        let mut p: usize = 0;
        while p < self.expirations.len() && self.expirations[p].0 <= when
            invariant
                x == self.expirations(),
                sorted_slots(x),
                p <= x.len(),
                forall|j: int| 0 <= j < p ==> (#[trigger] x[j]).0 <= when,
            decreases x.len() - p,
        {
            assert(x[p as int].0 == self.expirations@[p as int].0);
            p = p + 1;
        }
        proof {
            if p < x.len() {
                assert(x[p as int].0 == self.expirations@[p as int].0);
                assert forall|j: int| p <= j < x.len() implies (#[trigger] x[j]).0 > when by {
                    if j > p {
                        assert(before(x[p as int], x[j]));
                    }
                }
            }
        }
        p
    }

    /// Where the element with deadline `t` and sequence number `id` stands.
    fn find_slot(&self, t: u64, id: u64) -> (j: usize)
        requires
            exists|j: int| 0 <= j < self.expirations().len() && (#[trigger] self.expirations()[j]).0 == t
                && self.expirations()[j].1 == id,
        ensures
            j < self.expirations().len(),
            self.expirations()[j as int].0 == t,
            self.expirations()[j as int].1 == id,
    {
        let ghost x = self.expirations();
        let mut j: usize = 0;
        while j < self.expirations.len()
            invariant
                x == self.expirations(),
                j <= x.len(),
                exists|j: int| 0 <= j < x.len() && (#[trigger] x[j]).0 == t && x[j].1 == id,
                forall|k: int| 0 <= k < j ==> !((#[trigger] x[k]).0 == t && x[k].1 == id),
            decreases x.len() - j,
        {
            assert(x[j as int].0 == self.expirations@[j as int].0);
            assert(x[j as int].1 == self.expirations@[j as int].1);
            if self.expirations[j].0 == t && self.expirations[j].1 == id {
                return j;
            }
            j = j + 1;
        }
        proof {
            let k = choose|k: int| 0 <= k < x.len() && (#[trigger] x[k]).0 == t && x[k].1 == id;
            assert(false);
        }
        j
    }

    /// Stores an entry under `key`. The result is the deadline and sequence
    /// number of the entry it replaced, if that one had a deadline.
    fn put_entry(&mut self, key: String, entry: Entry) -> (prev: Option<(u64, u64)>)
        requires
            old(self).entries_wf(),
        ensures
            final(self).entries_wf(),
            final(self).kv@ == old(self).kv@.insert(key@, entry.model()),
            prev == (if old(self).kv@.contains_key(key@) && old(self).kv@[key@].expires_at is Some {
                Some((old(self).kv@[key@].expires_at->Some_0, old(self).kv@[key@].id))
            } else {
                None
            }),
            final(self).expirations@ == old(self).expirations@,
            final(self).pub_sub@ == old(self).pub_sub@,
            final(self).names@ == old(self).names@,
            final(self).log@ == old(self).log@,
            final(self).next_id == old(self).next_id,
            final(self).shutdown == old(self).shutdown,
    {
        let ghost m0 = self.kv@;
        let ghost e0 = self.entries@;
        let ghost em = entry.model();
        let ghost k = key@;
        let prev = match self.find(key.as_str()) {
            Some(i) => {
                proof {
                    assert(m0[key_at(e0, i as int)] == e0[i as int].1.model());
                }
                let prev = match self.entries[i].1.expires_at {
                    Some(t) => Some((t, self.entries[i].1.id)),
                    None => None,
                };
                self.entries[i] = (key, entry);
                proof {
                    let e = self.entries@;
                    assert(key_at(e, i as int) == k);
                    assert forall|j: int| 0 <= j < e.len() && j != i implies key_at(e, j) == key_at(e0, j) && e[j] == e0[j] by {}
                }
                prev
            },
            None => {
                self.entries.push((key, entry));
                proof {
                    let e = self.entries@;
                    assert(key_at(e, e0.len() as int) == k);
                    assert forall|j: int| 0 <= j < e0.len() implies key_at(e, j) == key_at(e0, j) && e[j] == e0[j] by {}
                }
                None
            },
        };
        self.kv = Ghost(m0.insert(k, em));
        proof {
            let e = self.entries@;
            assert forall|j: int| 0 <= j < e.len() implies self.kv@.contains_key(#[trigger] key_at(e, j))
                && self.kv@[key_at(e, j)] == e[j].1.model() by {
                if key_at(e, j) != k {
                    assert(j < e0.len() && e[j] == e0[j]);
                }
            }
            assert forall|kk: Seq<char>| #[trigger] self.kv@.contains_key(kk) implies exists|j: int|
                0 <= j < e.len() && key_at(e, j) == kk by {
                if kk != k {
                    let oj = choose|j: int| 0 <= j < e0.len() && key_at(e0, j) == kk;
                    assert(key_at(e, oj) == kk);
                } else {
                    if e.len() > e0.len() {
                        assert(key_at(e, e0.len() as int) == k);
                    }
                }
            }
            assert forall|a: int, b: int| 0 <= a < e.len() && 0 <= b < e.len() && #[trigger] key_at(e, a)
                == #[trigger] key_at(e, b) implies a == b by {
                if a < e0.len() && b < e0.len() {
                    assert(key_at(e, a) == key_at(e0, a) || key_at(e, a) == k);
                    if key_at(e, a) == k && !(key_at(e0, a) == k) {
                        assert(e.len() == e0.len());
                    }
                } else if a < e0.len() {
                    assert(m0.contains_key(key_at(e0, a)));
                } else if b < e0.len() {
                    assert(m0.contains_key(key_at(e0, b)));
                }
            }
            let c = self.pub_sub@;
            assert(forall|i: int| 0 <= i < c.len() ==> self.names@.contains(#[trigger] name_at(c, i)));
            assert(forall|kk: Seq<char>|
                #[trigger] self.names@.contains(kk) ==> exists|i: int| 0 <= i < c.len() && name_at(c, i) == kk);
        }
        prev
    }

    /// Stores `value` under `key`, replacing what was there. With `expire`
    /// the key gets the deadline `now + expire`. The result says whether
    /// that deadline comes before every deadline the store held, so that the
    /// purge task must be woken.
    pub fn set(&mut self, key: String, value: Vec<u8>, expire: Option<u64>, now: u64) -> (notify: bool)
        requires
            old(self).wf(),
            old(self).next_id() < u64::MAX,
        ensures
            final(self).wf(),
            final(self).entries() == old(self).entries().insert(
                key@,
                EntryModel {
                    id: old(self).next_id(),
                    data: value@,
                    expires_at: match expire {
                        Some(d) => Some(deadline(now, d)),
                        None => None,
                    },
                },
            ),
            final(self).next_id() == old(self).next_id() + 1,
            final(self).channels() == old(self).channels(),
            final(self).senders() == old(self).senders(),
            final(self).sent() == old(self).sent(),
            final(self).is_shut_down() == old(self).is_shut_down(),
            notify == (expire is Some && forall|k: Seq<char>| #[trigger]
                old(self).entries().contains_key(k) && old(self).entries()[k].expires_at is Some
                ==> deadline(now, expire->Some_0) < old(self).entries()[k].expires_at->Some_0),
    {
        let mut notify = false;
        let expires_at = match expire {
            Some(d) => {
                let when = now.saturating_add(d);
                let earliest = self.next_expiration();
                notify = match earliest {
                    Some(e) => e > when,
                    None => true,
                };
                proof {
                    if !notify {
                        let e = earliest->Some_0;
                        let kk = choose|kk: Seq<char>| #[trigger] self.kv@.contains_key(kk)
                            && self.kv@[kk].expires_at == Some(e);
                        assert(self.kv@.contains_key(kk));
                    }
                }
                Some(when)
            },
            None => None,
        };
        let id = self.next_id;
        let ghost kv0 = self.kv@;
        let ghost x0 = self.expirations();
        let ghost before_index = *self;
        let ghost k = key@;
        if let Some(when) = expires_at {
            let p = self.slot_position(when);
            proof {
                assert forall|j: int| 0 <= j < p implies before(#[trigger] x0[j], (when, id, k)) by {
                    assert(x0.contains(x0[j]));
                }
                assert forall|j: int| p <= j < x0.len() implies before((when, id, k), #[trigger] x0[j]) by {}
                lemma_slot_insert(x0, p as int, (when, id, k));
            }
            let name = key.clone();
            self.expirations.insert(p, (when, id, name));
            proof {
                assert(self.expirations() =~= x0.insert(p as int, (when, id, k)));
            }
        }
        let ghost x1 = self.expirations();
        proof {
            if expires_at is None {
                assert(x1 == x0);
            }
            assert forall|u: (u64, u64, Seq<char>)| #[trigger] x0.contains(u) implies x1.contains(u) by {}
        }
        self.next_id = id + 1;
        let entry = Entry { id, data: value, expires_at };
        let ghost em = entry.model();
        proof {
            lemma_entries_wf_frame(&before_index, &*self);
        }
        let prev = self.put_entry(key, entry);
        let ghost after_put = *self;
        assert(self.expirations() == x1);
        if let Some((t, pid)) = prev {
            proof {
                assert(x0.contains((t, pid, k)));
                let a = choose|a: int| 0 <= a < x0.len() && x0[a] == (t, pid, k);
                assert(x1.contains((t, pid, k)));
                let b = choose|b: int| 0 <= b < x1.len() && x1[b] == (t, pid, k);
                assert(x1[b].0 == t && x1[b].1 == pid);
            }
            let j = self.find_slot(t, pid);
            proof {
                lemma_slot_remove(x1, j as int);
            }
            self.expirations.remove(j);
            proof {
                assert(self.expirations() =~= x1.remove(j as int));
            }
        }
        proof {
            lemma_entries_wf_frame(&after_put, &*self);
            let x2 = self.expirations();
            let kv2 = self.kv@;
            assert(kv2 == kv0.insert(k, em));
            if prev is None {
                assert(x2 == x1);
            }
            assert forall|u: (u64, u64, Seq<char>)| #[trigger] x2.contains(u) implies x1.contains(u) && !(
            prev matches Some((t, pid)) && u.0 == t && u.1 == pid) by {}
            assert forall|u: (u64, u64, Seq<char>)| x1.contains(u) && !(prev matches Some((t, pid)) && u.0
                == t && u.1 == pid) implies #[trigger] x2.contains(u) by {}
            assert forall|u: (u64, u64, Seq<char>)| #[trigger] x1.contains(u) implies x0.contains(u) || (
            expires_at is Some && u == (expires_at->Some_0, id, k)) by {}
            assert(sorted_slots(x2));
            assert forall|u: (u64, u64, Seq<char>)| #[trigger] x2.contains(u) implies kv2.contains_key(u.2)
                && kv2[u.2].expires_at == Some(u.0) && kv2[u.2].id == u.1 by {
                assert(x1.contains(u));
                if !(expires_at is Some && u == (expires_at->Some_0, id, k)) {
                    assert(x0.contains(u));
                    if u.2 == k {
                        assert(prev == Some((u.0, u.1)));
                    }
                }
            }
            assert forall|kk: Seq<char>| #[trigger] kv2.contains_key(kk) && kv2[kk].expires_at is Some
                implies x2.contains((kv2[kk].expires_at->Some_0, kv2[kk].id, kk)) by {
                let u = (kv2[kk].expires_at->Some_0, kv2[kk].id, kk);
                if kk == k {
                    assert(x1.contains(u));
                } else {
                    assert(x0.contains(u));
                    assert(x1.contains(u));
                    if let Some((t, pid)) = prev {
                        if u.0 == t && u.1 == pid {
                            let a = choose|a: int| 0 <= a < x0.len() && x0[a] == u;
                            assert(x0.contains((t, pid, k)));
                            let b = choose|b: int| 0 <= b < x0.len() && x0[b] == (t, pid, k);
                            lemma_slot_unique(x0, a, b);
                        }
                    }
                }
            }
            assert forall|kk: Seq<char>| #[trigger] kv2.contains_key(kk) implies kv2[kk].id < self.next_id by {
                if kk != k {
                    assert(kv0.contains_key(kk));
                }
            }
            assert(index_ok(x2, kv2, self.next_id));
        }
        notify
    }

    /// Takes the entry at index `i` out, with its element of the index.
    fn remove_entry(&mut self, i: usize)
        requires
            old(self).wf(),
            i < old(self).entries@.len(),
        ensures
            final(self).wf(),
            final(self).kv@ == old(self).kv@.remove(key_at(old(self).entries@, i as int)),
            final(self).entries@.len() + 1 == old(self).entries@.len(),
            final(self).pub_sub@ == old(self).pub_sub@,
            final(self).names@ == old(self).names@,
            final(self).log@ == old(self).log@,
            final(self).next_id == old(self).next_id,
            final(self).shutdown == old(self).shutdown,
    {
        let ghost kv0 = self.kv@;
        let ghost x0 = self.expirations();
        let ghost k = key_at(self.entries@, i as int);
        proof {
            assert(kv0[k] == self.entries@[i as int].1.model());
        }
        let had = self.entries[i].1.expires_at;
        let pid = self.entries[i].1.id;
        self.remove_at(i);
        let ghost after_remove = *self;
        assert(self.expirations() == x0);
        if let Some(t) = had {
            proof {
                assert(x0.contains((t, pid, k)));
                let b = choose|b: int| 0 <= b < x0.len() && x0[b] == (t, pid, k);
                assert(x0[b].0 == t && x0[b].1 == pid);
            }
            let j = self.find_slot(t, pid);
            proof {
                lemma_slot_remove(x0, j as int);
            }
            self.expirations.remove(j);
            proof {
                assert(self.expirations() =~= x0.remove(j as int));
            }
        }
        proof {
            lemma_entries_wf_frame(&after_remove, &*self);
            let x1 = self.expirations();
            let kv1 = self.kv@;
            if had is None {
                assert(x1 == x0);
            }
            assert forall|u: (u64, u64, Seq<char>)| #[trigger] x1.contains(u) implies x0.contains(u) && !(
            had is Some && u.0 == had->Some_0 && u.1 == pid) by {}
            assert forall|u: (u64, u64, Seq<char>)| x0.contains(u) && !(had is Some && u.0 == had->Some_0
                && u.1 == pid) implies #[trigger] x1.contains(u) by {}
            assert forall|u: (u64, u64, Seq<char>)| #[trigger] x1.contains(u) implies kv1.contains_key(u.2)
                && kv1[u.2].expires_at == Some(u.0) && kv1[u.2].id == u.1 by {
                assert(x0.contains(u));
            }
            assert forall|kk: Seq<char>| #[trigger] kv1.contains_key(kk) && kv1[kk].expires_at is Some
                implies x1.contains((kv1[kk].expires_at->Some_0, kv1[kk].id, kk)) by {
                let u = (kv1[kk].expires_at->Some_0, kv1[kk].id, kk);
                assert(kv0.contains_key(kk));
                assert(x0.contains(u));
                if let Some(t) = had {
                    if u.0 == t && u.1 == pid {
                        let a = choose|a: int| 0 <= a < x0.len() && x0[a] == u;
                        assert(x0.contains((t, pid, k)));
                        let b = choose|b: int| 0 <= b < x0.len() && x0[b] == (t, pid, k);
                        lemma_slot_unique(x0, a, b);
                    }
                }
            }
            assert forall|kk: Seq<char>| #[trigger] kv1.contains_key(kk) implies kv1[kk].id < self.next_id by {
                assert(kv0.contains_key(kk));
            }
            assert(index_ok(x1, kv1, self.next_id));
        }
    }

    /// Removes `key`; the result is 1 when it was there, else 0.
    pub fn del(&mut self, key: &str) -> (r: usize)
        requires
            old(self).wf(),
        ensures
            final(self).wf(),
            r == (if old(self).entries().contains_key(key@) { 1usize } else { 0usize }),
            final(self).entries() == old(self).entries().remove(key@),
            final(self).next_id() == old(self).next_id(),
            final(self).channels() == old(self).channels(),
            final(self).senders() == old(self).senders(),
            final(self).sent() == old(self).sent(),
            final(self).is_shut_down() == old(self).is_shut_down(),
    {
        match self.find(key) {
            Some(i) => {
                self.remove_entry(i);
                assert(self.senders() =~= old(self).senders());
                1
            },
            None => {
                assert(self.kv@.remove(key@) =~= self.kv@);
                0
            },
        }
    }

    /// Drops every key whose deadline has come at `now`, taking them from the
    /// front of the index, and gives the earliest deadline left. Once the
    /// store is shut down it does nothing and gives `None`.
    pub fn purge_expired_keys(&mut self, now: u64) -> (r: Option<u64>)
        requires
            old(self).wf(),
        ensures
            final(self).wf(),
            final(self).next_id() == old(self).next_id(),
            final(self).channels() == old(self).channels(),
            final(self).senders() == old(self).senders(),
            final(self).sent() == old(self).sent(),
            final(self).is_shut_down() == old(self).is_shut_down(),
            old(self).is_shut_down() ==> r is None && final(self).entries() == old(self).entries(),
            !old(self).is_shut_down() ==> final(self).entries() == unexpired(old(self).entries(), now)
                && is_earliest(final(self).entries(), r),
    {
        if self.shutdown {
            return None;
        }
        let ghost m0 = self.kv@;
        while self.expirations.len() > 0 && self.expirations[0].0 <= now
            invariant
                self.wf(),
                !self.shutdown,
                self.next_id == old(self).next_id,
                self.names@ == old(self).names@,
                self.log@ == old(self).log@,
                self.pub_sub@ == old(self).pub_sub@,
                m0 == old(self).kv@,
                forall|k: Seq<char>| #[trigger] self.kv@.contains_key(k) ==> m0.contains_key(k)
                    && self.kv@[k] == m0[k],
                forall|k: Seq<char>| #[trigger] m0.contains_key(k) && !expired(m0[k], now)
                    ==> self.kv@.contains_key(k),
            decreases self.entries@.len(),
        {
            let ghost x = self.expirations();
            let ghost kv = self.kv@;
            let name = self.expirations[0].2.clone();
            proof {
                assert(x[0] == (self.expirations@[0].0, self.expirations@[0].1, name@));
                assert(x.contains(x[0]));
                assert(kv.contains_key(name@));
            }
            match self.find(name.as_str()) {
                Some(i) => {
                    self.remove_entry(i);
                },
                None => {
                    proof {
                        assert(false);
                    }
                },
            }
        }
        proof {
            let x = self.expirations();
            let kv = self.kv@;
            let target = unexpired(m0, now);
            assert forall|k: Seq<char>| #[trigger] kv.contains_key(k) implies !expired(m0[k], now) by {
                if kv[k].expires_at is Some {
                    let u = (kv[k].expires_at->Some_0, kv[k].id, k);
                    assert(x.contains(u));
                    let j = choose|j: int| 0 <= j < x.len() && x[j] == u;
                    assert(x[0].0 == self.expirations@[0].0);
                    if j > 0 {
                        assert(before(x[0], x[j]));
                    }
                }
            }
            assert(kv =~= target);
            assert(self.senders() =~= old(self).senders());
        }
        self.next_expiration()
    }

    /// Marks the store as shut down, or not.
    pub fn set_shutdown(&mut self, value: bool)
        requires
            old(self).wf(),
        ensures
            final(self).wf(),
            final(self).is_shut_down() == value,
            final(self).entries() == old(self).entries(),
            final(self).channels() == old(self).channels(),
            final(self).senders() == old(self).senders(),
            final(self).sent() == old(self).sent(),
            final(self).next_id() == old(self).next_id(),
    {
        self.shutdown = value;
        proof {
            let c = self.pub_sub@;
            assert(forall|kk: Seq<char>|
                #[trigger] self.names@.contains(kk) ==> exists|i: int| 0 <= i < c.len() && name_at(c, i) == kk);
            let e = self.entries@;
            assert(forall|kk: Seq<char>|
                #[trigger] self.kv@.contains_key(kk) ==> exists|i: int| 0 <= i < e.len() && key_at(e, i) == kk);
        }
    }

    /// Whether the store is shut down.
    pub fn is_shutdown(&self) -> (r: bool)
        ensures
            r == self.is_shut_down(),
    {
        self.shutdown
    }

    /// Whether another write can still get a sequence number.
    pub fn can_write(&self) -> (r: bool)
        ensures
            r == (self.next_id() < u64::MAX),
    {
        self.next_id < u64::MAX
    }

    /// A receiver on the channel named `key`. An existing channel's sender is
    /// kept; otherwise a channel is made, with an empty record.
    pub fn subscribe(&mut self, key: String) -> (r: Receiver<Vec<u8>>)
        requires
            old(self).wf(),
        ensures
            final(self).wf(),
            final(self).channels() == old(self).channels().insert(key@),
            old(self).channels().contains(key@) ==> final(self).senders() == old(self).senders()
                && final(self).sent() == old(self).sent(),
            !old(self).channels().contains(key@) ==> final(self).sent() == old(self).sent().insert(
                key@,
                Seq::empty(),
            ) && final(self).senders().dom() == old(self).senders().dom().insert(key@) && forall|
                k: Seq<char>,
            | #[trigger] old(self).senders().contains_key(k) ==> final(self).senders()[k] == old(
                self,
            ).senders()[k],
            final(self).entries() == old(self).entries(),
            final(self).next_id() == old(self).next_id(),
            final(self).is_shut_down() == old(self).is_shut_down(),
    {
        let ghost c0 = self.pub_sub@;
        let ghost old_self = *self;
        let mut i: usize = 0;
        while i < self.pub_sub.len()
            invariant
                self.wf(),
                self.pub_sub@ == c0,
                *self == old_self,
                old_self == *old(self),
                i <= c0.len(),
                forall|j: int| 0 <= j < i ==> name_at(c0, j) != key@,
            decreases c0.len() - i,
        {
            if same_text(self.pub_sub[i].0.as_str(), key.as_str()) {
                proof {
                    assert(self.names@.contains(name_at(c0, i as int)));
                    assert(self.names@.insert(key@) =~= self.names@);
                }
                return add_receiver(&self.pub_sub[i].1);
            }
            i = i + 1;
        }
        proof {
            if self.names@.contains(key@) {
                let j = choose|j: int| 0 <= j < c0.len() && name_at(c0, j) == key@;
            }
        }
        let (tx, rx) = new_channel(CHANNEL_CAPACITY);
        let ghost k = key@;
        self.pub_sub.push((key, tx));
        self.names = Ghost(self.names@.insert(k));
        self.log = Ghost(self.log@.insert(k, Seq::empty()));
        proof {
            let c = self.pub_sub@;
            assert(name_at(c, c0.len() as int) == k);
            assert forall|j: int| 0 <= j < c.len() implies self.names@.contains(#[trigger] name_at(c, j)) by {
                if j < c0.len() {
                    assert(name_at(c, j) == name_at(c0, j));
                }
            }
            assert forall|kk: Seq<char>| #[trigger] self.names@.contains(kk) implies exists|j: int|
                0 <= j < c.len() && name_at(c, j) == kk by {
                if kk != k {
                    let oj = choose|j: int| 0 <= j < c0.len() && name_at(c0, j) == kk;
                    assert(name_at(c, oj) == kk);
                }
            }
            assert forall|a: int, b: int| 0 <= a < c.len() && 0 <= b < c.len() && #[trigger] name_at(c, a)
                == #[trigger] name_at(c, b) implies a == b by {
                if a < c0.len() {
                    assert(name_at(c, a) == name_at(c0, a));
                }
                if b < c0.len() {
                    assert(name_at(c, b) == name_at(c0, b));
                }
            }
            let e = self.entries@;
            assert(forall|kk: Seq<char>|
                #[trigger] self.kv@.contains_key(kk) ==> exists|i: int| 0 <= i < e.len() && key_at(e, i) == kk);
            assert(self.log@.dom() =~= self.names@);
            assert forall|kk: Seq<char>| #[trigger] old_self.senders().contains_key(kk) implies self.senders()[kk]
                == old_self.senders()[kk] by {
                let oj = choose|j: int| 0 <= j < c0.len() && name_at(c0, j) == kk;
                let nj = choose|j: int| 0 <= j < c.len() && name_at(c, j) == kk;
                assert(name_at(c, oj) == kk);
                assert(nj == oj);
            }
            assert(self.senders().dom() =~= old_self.senders().dom().insert(k));
        }
        rx
    }

    /// Hands `value` to the sender of the channel named `key`, and records
    /// it with what the send gave. The result is that number of receivers, 0
    /// when the send failed or there is no such channel; it is a hint, not a
    /// count of deliveries.
    pub fn publish(&mut self, key: &str, value: Vec<u8>) -> (r: usize)
        requires
            old(self).wf(),
        ensures
            final(self).wf(),
            final(self).entries() == old(self).entries(),
            final(self).channels() == old(self).channels(),
            final(self).senders() == old(self).senders(),
            final(self).next_id() == old(self).next_id(),
            final(self).is_shut_down() == old(self).is_shut_down(),
            !old(self).channels().contains(key@) ==> r == 0 && final(self).sent() == old(self).sent(),
            old(self).channels().contains(key@) ==> final(self).sent() == old(self).sent().insert(
                key@,
                old(self).sent()[key@].push((value@, final(self).sent()[key@].last().1)),
            ) && r == reported(final(self).sent()[key@].last().1),
    {
        let ghost old_self = *self;
        let mut i: usize = 0;
        while i < self.pub_sub.len()
            invariant
                self.wf(),
                *self == old_self,
                old_self == *old(self),
                i <= self.pub_sub@.len(),
                forall|j: int| 0 <= j < i ==> name_at(self.pub_sub@, j) != key@,
            decreases self.pub_sub@.len() - i,
        {
            if same_text(self.pub_sub[i].0.as_str(), key) {
                let ghost m = value@;
                let sent = send_message(&self.pub_sub[i].1, value);
                proof {
                    assert(self.names@.contains(name_at(self.pub_sub@, i as int)));
                }
                self.log = Ghost(self.log@.insert(key@, self.log@[key@].push((m, sent))));
                proof {
                    let c = self.pub_sub@;
                    let e = self.entries@;
                    assert(self.log@.dom() =~= self.names@);
                    assert(forall|kk: Seq<char>|
                        #[trigger] self.names@.contains(kk) ==> exists|i: int| 0 <= i < c.len() && name_at(c, i) == kk);
                    assert(forall|kk: Seq<char>|
                        #[trigger] self.kv@.contains_key(kk) ==> exists|i: int| 0 <= i < e.len() && key_at(e, i) == kk);
                    assert(self.senders() =~= old_self.senders());
                }
                return receivers_reported(sent);
            }
            i = i + 1;
        }
        proof {
            if self.names@.contains(key@) {
                let j = choose|j: int| 0 <= j < self.pub_sub@.len() && name_at(self.pub_sub@, j) == key@;
            }
        }
        0
    }
}

} // verus!
