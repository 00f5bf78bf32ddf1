//! Spools, the spool set and the multi-spool that ties them together.

use vstd::prelude::*;
use vstd::string::*;
use crate::codec::{to_array, be32, be32_value, decode_be32, encode_be32, lemma_be32_injective, lemma_be32_of_value, lemma_be32_value};
use crate::crypto::{public_key_decodes, public_key_is_valid, signature_verifies, verify_signature, encode_base64_url, base64_url, is_url_safe_base64_char, random_spool_id};
use crate::errors::{MultiSpoolError, SpoolError, SpoolSetError};
use crate::store::{
    default_tree, install_end_marker_merge, merges_end_marker, open_db, open_tree, tree_clear,
    tree_contains_key, tree_contents, tree_get, tree_insert, tree_has_entries, tree_keys, tree_merge,
    tree_remove, key_views, strictly_sorted,
};

verus! {

/// The size of a message in bytes. It stands in for the host's user forward
/// payload size, which the host's packet-framing library defines.
pub const MESSAGE_SIZE: usize = 1024;

/// The size of a message id in bytes.
pub const MESSAGE_ID_SIZE: usize = 4;

/// The size of a spool id in bytes.
pub const SPOOL_ID_SIZE: usize = 12;

/// The number of messages a spool's cache is sized for.
pub const SPOOL_SIZE: usize = 1000;

/// The maximum number of spools the spool set's cache is sized for.
pub const SPOOL_SET_SIZE: usize = 10000;

/// How often the engine flushes its write-back cache, in milliseconds.
pub const FLUSH_PERIOD_MS: u64 = 10000;

/// The name of the metadata tree: `meta_tree_id`.
pub open spec fn meta_tree_id() -> Seq<u8> {
    seq![109u8, 101, 116, 97, 95, 116, 114, 101, 101, 95, 105, 100]
}

/// The metadata key of the end-of-spool marker: `key`.
pub open spec fn end_key() -> Seq<u8> {
    seq![107u8, 101, 121]
}

fn meta_tree_id_bytes() -> (r: [u8; 12])
    ensures
        r@ == meta_tree_id(),
{
    let r: [u8; 12] = [109u8, 101, 116, 97, 95, 116, 114, 101, 101, 95, 105, 100];
    assert(r@ =~= meta_tree_id());
    r
}

fn end_key_bytes() -> (r: [u8; 3])
    ensures
        r@ == end_key(),
{
    let r: [u8; 3] = [107u8, 101, 121];
    assert(r@ =~= end_key());
    r
}

/// The message keys of a spool that holds `n` messages: the big-endian
/// encodings of `1..=n`.
pub open spec fn message_keys(n: nat) -> Set<Seq<u8>> {
    Set::new(|k: Seq<u8>| k.len() == 4 && 1 <= be32_value(k) <= n)
}

/// Where the upward scan for messages starts: the stored end marker, or 0
/// when there is none.
pub open spec fn marker_start(meta: Map<Seq<u8>, Seq<u8>>) -> int {
    if meta.contains_key(end_key()) {
        be32_value(meta[end_key()])
    } else {
        0
    }
}

/// The first `k' >= k` after which the data tree holds no next message.
pub open spec fn scan_end(data: Map<Seq<u8>, Seq<u8>>, k: int) -> int
    decreases u32::MAX - k,
{
    if 0 <= k < u32::MAX && data.contains_key(be32((k + 1) as u32)) {
        scan_end(data, k + 1)
    } else {
        k
    }
}

proof fn lemma_scan_end_bounds(data: Map<Seq<u8>, Seq<u8>>, k: int)
    requires
        0 <= k <= u32::MAX,
    ensures
        k <= scan_end(data, k) <= u32::MAX,
        scan_end(data, scan_end(data, k)) == scan_end(data, k),
    decreases u32::MAX - k,
{
    if 0 <= k < u32::MAX && data.contains_key(be32((k + 1) as u32)) {
        lemma_scan_end_bounds(data, k + 1);
    }
}

/// The last sequence number that the repair at open settles on.
pub open spec fn recovered_end(meta: Map<Seq<u8>, Seq<u8>>, data: Map<Seq<u8>, Seq<u8>>) -> int {
    scan_end(data, marker_start(meta))
}

/// Whether the stored state is one the repair at open refuses: an end
/// marker that is not four bytes, or one beside an empty data tree.
pub open spec fn corrupt_state(meta: Map<Seq<u8>, Seq<u8>>, data: Map<Seq<u8>, Seq<u8>>) -> bool {
    meta.contains_key(end_key()) && (meta[end_key()].len() != 4 || data.is_empty())
}

/// What a successful append of `m` does: the message goes under the next
/// sequence number and the invariant is kept.
pub open spec fn append_step(before: Spool, after: Spool, m: Seq<u8>) -> bool {
    &&& after.len() == before.len() + 1
    &&& after.last() == Some((before.len() + 1) as u32)
    &&& after.data_map() == before.data_map().insert(be32((before.len() + 1) as u32), m)
    &&& after.messages() == before.messages().push(m)
    &&& after.ready() == before.ready()
    &&& before.consistent() ==> after.consistent()
}

/// What a successful purge does: both trees end empty and so does the spool.
pub open spec fn purge_step(before: Spool, after: Spool) -> bool {
    &&& after.data_map().is_empty()
    &&& after.meta_map().is_empty()
    &&& after.last() is None
    &&& after.messages() == Seq::<Seq<u8>>::empty()
    &&& after.ready() == before.ready()
    &&& before.ready() ==> after.consistent()
}

/// Spool is an append-only log of fixed-size messages, numbered from 1.
pub struct Spool {
    path: String,
    last_key: Option<u32>,
    /// Keeps the database open; all access goes through the two trees.
    db: sled::Db,
    /// The messages, keyed by big-endian sequence number.
    data: sled::Tree,
    /// The metadata tree, which holds the end-of-spool marker.
    meta: sled::Tree,
}

impl Spool {
    /// The messages as stored, keyed by their big-endian sequence number.
    pub closed spec fn data_map(&self) -> Map<Seq<u8>, Seq<u8>> {
        tree_contents(self.data)
    }

    /// The metadata tree, which holds the end-of-spool marker.
    pub closed spec fn meta_map(&self) -> Map<Seq<u8>, Seq<u8>> {
        tree_contents(self.meta)
    }

    /// The largest sequence number written, if any.
    pub closed spec fn last(&self) -> Option<u32> {
        self.last_key
    }

    /// Where the spool's database lives.
    pub closed spec fn path_view(&self) -> Seq<char> {
        self.path@
    }

    /// The number of messages.
    pub closed spec fn len(&self) -> nat {
        match self.last_key {
            Some(k) => k as nat,
            None => 0,
        }
    }

    /// The messages in order: the one at sequence number `i + 1` at `i`.
    pub closed spec fn messages(&self) -> Seq<Seq<u8>> {
        Seq::new(self.len(), |i: int| self.data_map()[be32((i + 1) as u32)])
    }

    /// The metadata tree merges end markers by the monotonic rule.
    pub closed spec fn ready(&self) -> bool {
        merges_end_marker(self.meta)
    }

    /// The spool's invariant: the data tree holds exactly the keys `1..=n`
    /// and the end marker holds `n`, absent when the spool is empty.
    pub closed spec fn consistent(&self) -> bool {
        &&& self.ready()
        &&& self.data_map().dom() == message_keys(self.len())
        &&& match self.last_key {
            Some(k) => k >= 1 && self.meta_map().contains_key(end_key()) && self.meta_map()[end_key()]
                == be32(k),
            None => !self.meta_map().contains_key(end_key()),
        }
    }

    /// The largest sequence number written, if any.
    pub fn last_key(&self) -> (r: Option<u32>)
        ensures
            r == self.last(),
    {
        self.last_key
    }

    /// Whether any message is stored.
    pub fn has_messages(&self) -> (r: Result<bool, SpoolError>)
        ensures
            r matches Ok(b) ==> b == !self.data_map().is_empty(),
            r matches Err(e) ==> e is SledError,
    {
        match tree_has_entries(&self.data) {
            Ok(b) => Ok(b),
            Err(e) => Err(SpoolError::SledError(e)),
        }
    }

    /// Opens or creates the spool's database at `path`, installs the
    /// end-marker merge rule and repairs what a crash left behind.
    pub fn new(path: &str) -> (r: Result<Spool, SpoolError>)
        ensures
            r matches Err(e) ==> e is SledError || e is CorruptSpool,
            r matches Ok(s) ==> {
                &&& s.ready()
                &&& s.path_view() == path@
                &&& s.len() as int == recovered_end(s.meta_map(), s.data_map())
                &&& recovered_end(s.meta_map(), s.data_map()) == 0 ==> s.last() is None
                &&& recovered_end(s.meta_map(), s.data_map()) > 0 ==> s.last() == Some(
                    recovered_end(s.meta_map(), s.data_map()) as u32,
                )
                &&& !corrupt_state(s.meta_map(), s.data_map())
                &&& s.data_map().is_empty() ==> s.consistent() && s.last() is None
            },
    {
        let db = match open_db(path, (SPOOL_SIZE * MESSAGE_SIZE) as u64, FLUSH_PERIOD_MS) {
            Ok(db) => db,
            Err(e) => return Err(SpoolError::SledError(e)),
        };
        let data = default_tree(&db);
        let name = meta_tree_id_bytes();
        let mut meta = match open_tree(&db, &name) {
            Ok(t) => t,
            Err(e) => return Err(SpoolError::SledError(e)),
        };
        install_end_marker_merge(&mut meta);
        let mut spool = Spool { path: path.to_owned(), last_key: None, db, data, meta };
        let ghost meta0 = spool.meta_map();
        let ghost data0 = spool.data_map();
        match spool.ensure_consistency() {
            Ok(()) => {},
            Err(e) => return Err(e),
        }
        proof {
            let end = recovered_end(meta0, data0);
            lemma_scan_end_bounds(data0, marker_start(meta0));
            if end > 0 {
                lemma_be32_value(end as u32);
                assert(spool.meta_map()[end_key()] == be32(end as u32));
                assert(marker_start(spool.meta_map()) == end);
            } else {
                assert(spool.meta_map() == meta0);
            }
            if spool.data_map().is_empty() {
                assert(spool.data_map().dom() =~= message_keys(spool.len()));
                if meta0.contains_key(end_key()) {
                    assert(corrupt_state(meta0, data0));
                }
                assert(marker_start(meta0) == 0);
                assert(end == 0);
            }
        }
        Ok(spool)
    }

    /// Repairs the end marker after a crash: from the stored marker (or 0)
    /// it advances while the data tree holds the next message, then stores
    /// the result. A marker that is not four bytes, or one beside an empty
    /// data tree, is corruption.
    pub fn ensure_consistency(&mut self) -> (r: Result<(), SpoolError>)
        ensures
            final(self).data_map() == old(self).data_map(),
            final(self).path_view() == old(self).path_view(),
            final(self).ready() == old(self).ready(),
            r matches Err(SpoolError::CorruptSpool) ==> corrupt_state(old(self).meta_map(), old(self).data_map()),
            r matches Err(e) ==> e is CorruptSpool || e is SledError,
            r is Ok ==> {
                let end = recovered_end(old(self).meta_map(), old(self).data_map());
                &&& !corrupt_state(old(self).meta_map(), old(self).data_map())
                &&& final(self).len() as int == end
                &&& end > 0 ==> final(self).last() == Some(end as u32)
                &&& end > 0 ==> final(self).meta_map() == old(self).meta_map().insert(
                    end_key(),
                    be32(end as u32),
                )
                &&& end == 0 ==> final(self).meta_map() == old(self).meta_map() && final(self).last() is None
            },
    {
        let key = end_key_bytes();
        let marker = match tree_get(&self.meta, &key) {
            Ok(m) => m,
            Err(e) => return Err(SpoolError::SledError(e)),
        };
        let mut k: u32 = match marker {
            None => 0,
            Some(bytes) => {
                if bytes.len() != 4 {
                    return Err(SpoolError::CorruptSpool);
                }
                match tree_has_entries(&self.data) {
                    Ok(true) => {},
                    Ok(false) => return Err(SpoolError::CorruptSpool),
                    Err(e) => return Err(SpoolError::SledError(e)),
                }
                decode_be32(bytes.as_slice())
            },
        };
        let ghost data0 = self.data_map();
        let ghost start = k as int;
        assert(start == marker_start(old(self).meta_map()));
        while k < u32::MAX
            invariant
                self.data_map() == data0,
                scan_end(data0, k as int) == scan_end(data0, start),
            ensures
                self.data_map() == data0,
                scan_end(data0, k as int) == scan_end(data0, start),
                scan_end(data0, k as int) == k as int,
            decreases u32::MAX - k,
        {
            let next = encode_be32(k + 1);
            let present = match tree_contains_key(&self.data, &next) {
                Ok(b) => b,
                Err(e) => return Err(SpoolError::SledError(e)),
            };
            if !present {
                break;
            }
            k = k + 1;
        }
        assert(scan_end(data0, k as int) == k as int);
        if k > 0 {
            let value = encode_be32(k);
            match tree_insert(&mut self.meta, &key, &value) {
                Ok(()) => {},
                Err(e) => return Err(SpoolError::SledError(e)),
            }
            self.last_key = Some(k);
        } else {
            self.last_key = None;
        }
        Ok(())
    }

    /// Appends `message` under the next sequence number: 1 for an empty
    /// spool, else one past the last. Fails with `SpoolFull` when the last
    /// number is `u32::MAX`.
    pub fn append(&mut self, message: [u8; MESSAGE_SIZE]) -> (r: Result<(), SpoolError>)
        ensures
            final(self).path_view() == old(self).path_view(),
            final(self).ready() == old(self).ready(),
            r matches Err(SpoolError::SpoolFull) <==> old(self).last() == Some(u32::MAX),
            r matches Err(e) ==> e is SpoolFull || e is SledError,
            r matches Err(SpoolError::SpoolFull) ==> *final(self) == *old(self),
            r is Ok ==> append_step(*old(self), *final(self), message@),
    {
        let next: u32 = match self.last_key {
            Some(k) => {
                if k == u32::MAX {
                    return Err(SpoolError::SpoolFull);
                }
                k + 1
            },
            None => 1,
        };
        let ghost old_self = *self;
        let id = encode_be32(next);
        match tree_insert(&mut self.data, &id, &message) {
            Ok(()) => {},
            Err(e) => return Err(SpoolError::SledError(e)),
        }
        let key = end_key_bytes();
        match tree_merge(&mut self.meta, &key, &id) {
            Ok(()) => {},
            Err(e) => return Err(SpoolError::SledError(e)),
        }
        self.last_key = Some(next);
        proof {
            let n = old_self.len();
            assert(next as nat == n + 1);
            assert forall|i: int| 0 <= i < n implies #[trigger] be32((i + 1) as u32) != be32(next) by {
                lemma_be32_injective((i + 1) as u32, next);
            }
            assert(self.messages() =~= old_self.messages().push(message@));
            if old_self.consistent() {
                lemma_be32_value(next);
                if n > 0 {
                    lemma_be32_value(n as u32);
                }
                assert(self.meta_map()[end_key()] == be32(next));
                assert forall|k: Seq<u8>| #[trigger] message_keys(n + 1).contains(k) <==> self.data_map().dom().contains(k) by {
                    if k.len() == 4 {
                        lemma_be32_of_value(k);
                        lemma_be32_injective(be32_value(k) as u32, next);
                    }
                }
                assert(self.data_map().dom() =~= message_keys(self.len()));
            }
        }
        Ok(())
    }

    /// The message stored under `message_id`.
    pub fn read(&self, message_id: &[u8; MESSAGE_ID_SIZE]) -> (r: Result<[u8; MESSAGE_SIZE], SpoolError>)
        ensures
            match r {
                Ok(m) => self.data_map().contains_key(message_id@) && self.data_map()[message_id@] == m@,
                Err(SpoolError::NoSuchMessage) => !self.data_map().contains_key(message_id@),
                Err(SpoolError::CorruptSpool) => self.data_map().contains_key(message_id@)
                    && self.data_map()[message_id@].len() != MESSAGE_SIZE,
                Err(SpoolError::SledError(_)) => true,
                Err(SpoolError::SpoolFull) => false,
            },
    {
        match tree_get(&self.data, message_id) {
            Ok(Some(bytes)) => {
                if bytes.len() != MESSAGE_SIZE {
                    return Err(SpoolError::CorruptSpool);
                }
                Ok(to_array(bytes.as_slice()))
            },
            Ok(None) => Err(SpoolError::NoSuchMessage),
            Err(e) => Err(SpoolError::SledError(e)),
        }
    }

    /// Empties the spool: both trees are cleared and the next append gets
    /// sequence number 1.
    pub fn purge(&mut self) -> (r: Result<(), SpoolError>)
        ensures
            final(self).path_view() == old(self).path_view(),
            final(self).ready() == old(self).ready(),
            r matches Err(e) ==> e is SledError,
            r is Ok ==> purge_step(*old(self), *final(self)),
    {
        match tree_clear(&mut self.meta) {
            Ok(()) => {},
            Err(e) => return Err(SpoolError::SledError(e)),
        }
        match tree_clear(&mut self.data) {
            Ok(()) => {},
            Err(e) => return Err(SpoolError::SledError(e)),
        }
        self.last_key = None;
        assert(self.messages() =~= Seq::<Seq<u8>>::empty());
        assert(self.data_map().dom() =~= message_keys(0));
        Ok(())
    }
}

/// Appending `ms` one by one to an empty spool leaves exactly those
/// messages, in order, under sequence numbers `1..=ms.len()`; nothing else
/// is stored.
pub proof fn lemma_appends(states: Seq<Spool>, ms: Seq<Seq<u8>>)
    requires
        states.len() == ms.len() + 1,
        states[0].consistent(),
        states[0].last() is None,
        forall|i: int| 0 <= i < ms.len() ==> append_step(#[trigger] states[i], states[i + 1], ms[i]),
    ensures
        states.last().consistent(),
        states.last().len() == ms.len(),
        ms.len() > 0 ==> states.last().last() == Some(ms.len() as u32),
        states.last().messages() == ms,
        states.last().data_map().dom() == message_keys(ms.len()),
        forall|i: int| 1 <= i <= ms.len() ==> states.last().data_map()[#[trigger] be32(i as u32)] == ms[i - 1],
    decreases ms.len(),
{
    if ms.len() == 0 {
        assert(states[0].messages() =~= ms);
    } else {
        let n = ms.len() - 1;
        lemma_appends(states.subrange(0, n + 1), ms.subrange(0, n));
        assert(states.subrange(0, n + 1).last() == states[n]);
        assert(append_step(states[n], states[n + 1], ms[n]));
        assert(ms.subrange(0, n).push(ms[n]) =~= ms);
        let last = states.last();
        assert forall|i: int| 1 <= i <= ms.len() implies last.data_map()[#[trigger] be32(i as u32)] == ms[i - 1] by {
            assert(last.messages()[i - 1] == last.data_map()[be32(((i - 1) + 1) as u32)]);
        }
    }
}

/// In a consistent spool an id holds a message exactly when it is the
/// big-endian encoding of one of `1..=len`; `read` of any other id fails
/// with `NoSuchMessage`.
pub proof fn lemma_consistent_keys(s: Spool, message_id: Seq<u8>)
    requires
        s.consistent(),
    ensures
        s.data_map().contains_key(message_id) <==> (message_id.len() == 4 && 1 <= be32_value(message_id) <= s.len()),
{
    assert(s.data_map().dom().contains(message_id) == message_keys(s.len()).contains(message_id));
}

/// The number of messages is the last sequence number, 0 when there is none.
pub proof fn lemma_len_is_last(s: Spool)
    ensures
        s.len() == match s.last() {
            Some(k) => k as nat,
            None => 0,
        },
{
}

/// A message appended is read back byte for byte under the sequence number
/// the append gave it.
pub proof fn lemma_round_trip(before: Spool, after: Spool, m: Seq<u8>)
    requires
        append_step(before, after, m),
    ensures
        after.last() == Some(after.len() as u32),
        after.data_map().contains_key(be32(after.len() as u32)),
        after.data_map()[be32(after.len() as u32)] == m,
{
}

/// When the last append's marker update was lost, so that the data tree
/// holds `1..=n` while the marker still says `n - 1` (or is absent for
/// `n == 1`), the repair at open settles on `n`: the append is kept.
pub proof fn lemma_lost_marker_recovered(meta: Map<Seq<u8>, Seq<u8>>, data: Map<Seq<u8>, Seq<u8>>, n: u32)
    requires
        n >= 1,
        data.dom() == message_keys(n as nat),
        n == 1 ==> !meta.contains_key(end_key()),
        n > 1 ==> meta.contains_key(end_key()) && meta[end_key()] == be32((n - 1) as u32),
    ensures
        !corrupt_state(meta, data),
        recovered_end(meta, data) == n,
{
    lemma_be32_value(n);
    assert(message_keys(n as nat).contains(be32(n)));
    if n > 1 {
        lemma_be32_value((n - 1) as u32);
        assert(!data.is_empty()) by {
            assert(data.dom().contains(be32(n)));
        }
    }
    assert(marker_start(meta) == n - 1);
    assert(scan_end(data, n - 1) == scan_end(data, n as int));
    if n < u32::MAX {
        lemma_be32_value((n + 1) as u32);
        assert(!data.contains_key(be32((n + 1) as u32)));
    }
}

/// Purging twice leaves the same state as purging once; after either,
/// no message id reads anything.
pub proof fn lemma_purge_idempotent(s0: Spool, s1: Spool, s2: Spool, message_id: Seq<u8>)
    requires
        purge_step(s0, s1),
        purge_step(s1, s2),
    ensures
        s2.data_map() == s1.data_map(),
        s2.meta_map() == s1.meta_map(),
        s2.last() == s1.last(),
        s2.messages() == s1.messages(),
        !s1.data_map().contains_key(message_id),
        !s2.data_map().contains_key(message_id),
{
    assert(s2.data_map() =~= s1.data_map());
    assert(s2.meta_map() =~= s1.meta_map());
}

/// What a successful `put` of `id` with key `pk` does to a spool set.
pub open spec fn put_step(before: SpoolSet, after: SpoolSet, id: Seq<u8>, pk: Seq<u8>) -> bool {
    &&& after.ids() == before.ids().insert(id)
    &&& after.primary_map() == before.primary_map().insert(id, Seq::<u8>::empty())
    &&& after.public_keys() == before.public_keys().insert(id, pk)
}

/// What a successful `delete` of `id` does to a spool set.
pub open spec fn delete_step(before: SpoolSet, after: SpoolSet, id: Seq<u8>) -> bool {
    &&& after.ids() == before.ids().remove(id)
    &&& after.primary_map() == before.primary_map().remove(id)
    &&& after.public_keys() == before.public_keys().remove(id)
}

/// After any series of puts and deletes on a spool set whose two trees
/// hold the same ids, they still do: step `i` puts `ids[i]` with key
/// `keys[i]` when `puts[i]`, and deletes `ids[i]` otherwise.
pub proof fn lemma_key_sets_stay_equal(
    states: Seq<SpoolSet>,
    puts: Seq<bool>,
    ids: Seq<Seq<u8>>,
    keys: Seq<Seq<u8>>,
)
    requires
        states.len() == puts.len() + 1,
        ids.len() == puts.len(),
        keys.len() == puts.len(),
        states[0].ids() == states[0].public_keys().dom(),
        forall|i: int| 0 <= i < puts.len() ==> if puts[i] {
            put_step(#[trigger] states[i], states[i + 1], ids[i], keys[i])
        } else {
            delete_step(states[i], states[i + 1], ids[i])
        },
    ensures
        forall|i: int| 0 <= i < states.len() ==> (#[trigger] states[i]).ids() == states[i].public_keys().dom(),
    decreases puts.len(),
{
    if puts.len() > 0 {
        let n = puts.len() - 1;
        lemma_key_sets_stay_equal(states.subrange(0, n + 1), puts.subrange(0, n), ids.subrange(0, n), keys.subrange(0, n));
        assert(states.subrange(0, n + 1)[n] == states[n]);
        assert(states[n].ids() == states[n].public_keys().dom());
        if puts[n] {
            assert(put_step(states[n], states[n + 1], ids[n], keys[n]));
            assert(states[n + 1].ids() =~= states[n + 1].public_keys().dom());
        } else {
            assert(delete_step(states[n], states[n + 1], ids[n]));
            assert(states[n + 1].ids() =~= states[n + 1].public_keys().dom());
        }
        assert forall|i: int| 0 <= i < states.len() implies (#[trigger] states[i]).ids() == states[i].public_keys().dom() by {
            if i <= n {
                assert(states.subrange(0, n + 1)[i] == states[i]);
            }
        }
    }
}

/// SpoolSet is a persistent set of spool ids, each with the public key that
/// owns it. The primary tree holds the ids, the metadata tree maps each id
/// to its key.
pub struct SpoolSet {
    /// Keeps the database open; all access goes through the two trees.
    db: sled::Db,
    /// The spool ids, each with an empty value.
    primary: sled::Tree,
    /// Each spool id with its owner's public key.
    meta: sled::Tree,
}

impl SpoolSet {
    /// The primary tree: each id with an empty value.
    pub closed spec fn primary_map(&self) -> Map<Seq<u8>, Seq<u8>> {
        tree_contents(self.primary)
    }

    /// The ids in the primary tree.
    pub closed spec fn ids(&self) -> Set<Seq<u8>> {
        tree_contents(self.primary).dom()
    }

    /// The metadata tree: the public key stored for each id.
    pub closed spec fn public_keys(&self) -> Map<Seq<u8>, Seq<u8>> {
        tree_contents(self.meta)
    }

    /// The two trees hold the same ids.
    pub closed spec fn wf(&self) -> bool {
        self.ids() == self.public_keys().dom()
    }

    /// Opens or creates the spool set's database at `path` and drops every
    /// id that only one of the two trees holds.
    pub fn new(path: &str) -> (r: Result<SpoolSet, SpoolSetError>)
        ensures
            r matches Ok(s) ==> s.wf(),
            r matches Err(e) ==> e is SledError,
    {
        let db = match open_db(path, (SPOOL_SET_SIZE * SPOOL_ID_SIZE) as u64, FLUSH_PERIOD_MS) {
            Ok(db) => db,
            Err(e) => return Err(SpoolSetError::SledError(e)),
        };
        let primary = default_tree(&db);
        let name = meta_tree_id_bytes();
        let meta = match open_tree(&db, &name) {
            Ok(t) => t,
            Err(e) => return Err(SpoolSetError::SledError(e)),
        };
        let mut spool_set = SpoolSet { db, primary, meta };
        match spool_set.ensure_consistency() {
            Ok(()) => {},
            Err(e) => return Err(e),
        }
        Ok(spool_set)
    }

    /// Removes from each tree the ids that the other one lacks.
    pub fn ensure_consistency(&mut self) -> (r: Result<(), SpoolSetError>)
        ensures
            r matches Err(e) ==> e is SledError,
            r is Ok ==> {
                &&& final(self).wf()
                &&& final(self).ids() == old(self).ids().intersect(old(self).public_keys().dom())
                &&& final(self).public_keys() == old(self).public_keys().restrict(final(self).ids())
            },
    {
        let ghost ids0 = self.ids();
        let ghost keys0 = self.public_keys();
        let ks = match tree_keys(&self.primary) {
            Ok(ks) => ks,
            Err(e) => return Err(SpoolSetError::SledError(e)),
        };
        let mut i: usize = 0;
        while i < ks.len()
            invariant
                i <= ks@.len(),
                self.public_keys() == keys0,
                key_views(ks@).to_set() == ids0,
                forall|k: Seq<u8>| #[trigger] self.ids().contains(k) <==> (ids0.contains(k) && (keys0.contains_key(k)
                    || !key_views(ks@).subrange(0, i as int).contains(k))),
            decreases ks@.len() - i,
        {
            let key = ks[i].as_slice();
            let ghost before = *self;
            let in_meta = match tree_contains_key(&self.meta, key) {
                Ok(b) => b,
                Err(e) => return Err(SpoolSetError::SledError(e)),
            };
            if !in_meta {
                match tree_remove(&mut self.primary, key) {
                    Ok(()) => {},
                    Err(e) => return Err(SpoolSetError::SledError(e)),
                }
            }
            proof {
                let kv = key_views(ks@);
                assert(kv[i as int] == ks@[i as int]@);
                assert(kv.contains(key@));
                assert(kv.to_set().contains(key@));
                assert(kv.subrange(0, i + 1) =~= kv.subrange(0, i as int).push(key@));
                assert forall|k: Seq<u8>| k != key@ implies kv.subrange(0, i + 1).contains(k) == kv.subrange(0, i as int).contains(k) by {
                    if kv.subrange(0, i + 1).contains(k) {
                        let w = choose|w: int| 0 <= w < i + 1 && #[trigger] kv.subrange(0, i + 1)[w] == k;
                        assert(kv.subrange(0, i as int)[w] == k);
                    }
                }
                assert(kv.subrange(0, i + 1).contains(key@)) by {
                    assert(kv.subrange(0, i + 1)[i as int] == key@);
                }
                assert forall|k: Seq<u8>| #[trigger] self.ids().contains(k) <==> (ids0.contains(k) && (keys0.contains_key(k)
                    || !kv.subrange(0, i + 1).contains(k))) by {
                    if k != key@ {
                        assert(self.ids().contains(k) == before.ids().contains(k));
                    }
                }
            }
            i += 1;
        }
        assert(key_views(ks@).subrange(0, i as int) =~= key_views(ks@));
        let ghost ids1 = self.ids();
        assert(ids1 =~= ids0.intersect(keys0.dom()));
        let ms = match tree_keys(&self.meta) {
            Ok(ms) => ms,
            Err(e) => return Err(SpoolSetError::SledError(e)),
        };
        let mut j: usize = 0;
        while j < ms.len()
            invariant
                j <= ms@.len(),
                self.ids() == ids1,
                key_views(ms@).to_set() == keys0.dom(),
                forall|k: Seq<u8>| #[trigger] self.public_keys().contains_key(k) <==> (keys0.contains_key(k) && (ids1.contains(k)
                    || !key_views(ms@).subrange(0, j as int).contains(k))),
                forall|k: Seq<u8>| #[trigger] self.public_keys().contains_key(k) ==> self.public_keys()[k] == keys0[k],
            decreases ms@.len() - j,
        {
            let key = ms[j].as_slice();
            let ghost before = *self;
            let in_primary = match tree_contains_key(&self.primary, key) {
                Ok(b) => b,
                Err(e) => return Err(SpoolSetError::SledError(e)),
            };
            if !in_primary {
                match tree_remove(&mut self.meta, key) {
                    Ok(()) => {},
                    Err(e) => return Err(SpoolSetError::SledError(e)),
                }
            }
            proof {
                let kv = key_views(ms@);
                assert(kv[j as int] == ms@[j as int]@);
                assert(kv.contains(key@));
                assert(kv.to_set().contains(key@));
                assert(kv.subrange(0, j + 1) =~= kv.subrange(0, j as int).push(key@));
                assert forall|k: Seq<u8>| k != key@ implies kv.subrange(0, j + 1).contains(k) == kv.subrange(0, j as int).contains(k) by {
                    if kv.subrange(0, j + 1).contains(k) {
                        let w = choose|w: int| 0 <= w < j + 1 && #[trigger] kv.subrange(0, j + 1)[w] == k;
                        assert(kv.subrange(0, j as int)[w] == k);
                    }
                }
                assert(kv.subrange(0, j + 1).contains(key@)) by {
                    assert(kv.subrange(0, j + 1)[j as int] == key@);
                }
                assert forall|k: Seq<u8>| #[trigger] self.public_keys().contains_key(k) <==> (keys0.contains_key(k) && (ids1.contains(k)
                    || !kv.subrange(0, j + 1).contains(k))) by {
                    if k != key@ {
                        assert(self.public_keys().contains_key(k) == before.public_keys().contains_key(k));
                    }
                }
                assert forall|k: Seq<u8>| #[trigger] self.public_keys().contains_key(k) implies self.public_keys()[k] == keys0[k] by {
                    assert(before.public_keys().contains_key(k));
                }
            }
            j += 1;
        }
        assert(key_views(ms@).subrange(0, j as int) =~= key_views(ms@));
        assert(self.public_keys().dom() =~= self.ids());
        assert(self.public_keys() =~= keys0.restrict(self.ids()));
        Ok(())
    }

    /// Adds `spool_id`, owned by `public_key`, to both trees.
    pub fn put(&mut self, spool_id: [u8; SPOOL_ID_SIZE], public_key: [u8; 32]) -> (r: Result<(), SpoolSetError>)
        ensures
            r matches Err(e) ==> e is SledError,
            r is Ok ==> put_step(*old(self), *final(self), spool_id@, public_key@),
    {
        let empty: Vec<u8> = Vec::new();
        match tree_insert(&mut self.primary, &spool_id, empty.as_slice()) {
            Ok(()) => {},
            Err(e) => return Err(SpoolSetError::SledError(e)),
        }
        match tree_insert(&mut self.meta, &spool_id, &public_key) {
            Ok(()) => {},
            Err(e) => return Err(SpoolSetError::SledError(e)),
        }
        Ok(())
    }

    /// Whether `spool_id` is in the set.
    pub fn has(&self, spool_id: [u8; SPOOL_ID_SIZE]) -> (r: Result<bool, SpoolSetError>)
        ensures
            r matches Err(e) ==> e is SledError,
            r matches Ok(b) ==> b == self.ids().contains(spool_id@),
    {
        match tree_contains_key(&self.primary, &spool_id) {
            Ok(b) => Ok(b),
            Err(e) => Err(SpoolSetError::SledError(e)),
        }
    }

    /// Removes `key` from both trees.
    fn remove_key(&mut self, key: &[u8]) -> (r: Result<(), SpoolSetError>)
        ensures
            r matches Err(e) ==> e is SledError,
            r is Ok ==> {
                &&& final(self).primary_map() == old(self).primary_map().remove(key@)
                &&& final(self).ids() == old(self).ids().remove(key@)
                &&& final(self).public_keys() == old(self).public_keys().remove(key@)
                &&& old(self).wf() ==> final(self).wf()
            },
    {
        match tree_remove(&mut self.primary, key) {
            Ok(()) => {},
            Err(e) => return Err(SpoolSetError::SledError(e)),
        }
        match tree_remove(&mut self.meta, key) {
            Ok(()) => {},
            Err(e) => return Err(SpoolSetError::SledError(e)),
        }
        Ok(())
    }

    /// Removes `spool_id` from both trees.
    pub fn delete(&mut self, spool_id: [u8; SPOOL_ID_SIZE]) -> (r: Result<(), SpoolSetError>)
        ensures
            r matches Err(e) ==> e is SledError,
            r is Ok ==> delete_step(*old(self), *final(self), spool_id@),
    {
        self.remove_key(&spool_id)
    }

    /// Every id in the set, each once, in byte-lexicographic order.
    pub fn keys(&self) -> (r: Result<Vec<Vec<u8>>, SpoolSetError>)
        ensures
            r matches Err(e) ==> e is SledError,
            r matches Ok(ks) ==> key_views(ks@).no_duplicates() && key_views(ks@).to_set() == self.ids(),
            r matches Ok(ks) ==> strictly_sorted(key_views(ks@)),
    {
        match tree_keys(&self.primary) {
            Ok(ks) => Ok(ks),
            Err(e) => Err(SpoolSetError::SledError(e)),
        }
    }

    /// The public key stored for `spool_id`.
    pub fn get_public_key(&self, spool_id: [u8; SPOOL_ID_SIZE]) -> (r: Result<[u8; 32], SpoolSetError>)
        ensures
            match r {
                Ok(pk) => self.public_keys().contains_key(spool_id@) && self.public_keys()[spool_id@] == pk@
                    && public_key_decodes(pk@),
                Err(SpoolSetError::NoSuchSpoolId) => !self.public_keys().contains_key(spool_id@),
                Err(SpoolSetError::SignatureError) => self.public_keys().contains_key(spool_id@)
                    && !public_key_decodes(self.public_keys()[spool_id@]),
                Err(SpoolSetError::SledError(_)) => true,
            },
    {
        match tree_get(&self.meta, &spool_id) {
            Ok(Some(bytes)) => {
                if !public_key_is_valid(bytes.as_slice()) {
                    return Err(SpoolSetError::SignatureError);
                }
                Ok(to_array(bytes.as_slice()))
            },
            Ok(None) => Err(SpoolSetError::NoSuchSpoolId),
            Err(e) => Err(SpoolSetError::SledError(e)),
        }
    }
}

/// The path of the spool set's database under `base_dir`.
pub open spec fn spool_set_path_spec(base_dir: Seq<char>) -> Seq<char> {
    base_dir + "/spool_set.sled"@
}

/// The path of a spool's database under `base_dir`:
/// `<base_dir>/spool.<base64url(id)>.sled`.
pub open spec fn spool_path_spec(base_dir: Seq<char>, spool_id: Seq<u8>) -> Seq<char> {
    base_dir + "/spool."@ + base64_url(spool_id) + ".sled"@
}

/// The path of the spool set's database under `base_dir`.
pub fn spool_set_path(base_dir: &str) -> (r: String)
    ensures
        r@ == spool_set_path_spec(base_dir@),
{
    let mut p = String::from_str(base_dir);
    p.append("/spool_set.sled");
    p
}

/// The path of the database of spool `spool_id` under `base_dir`.
pub fn spool_path(base_dir: &str, spool_id: [u8; SPOOL_ID_SIZE]) -> (r: String)
    ensures
        r@ == spool_path_spec(base_dir@, spool_id@),
        base64_url(spool_id@).len() == 16,
        forall|i: int| 0 <= i < base64_url(spool_id@).len() ==> is_url_safe_base64_char(#[trigger] base64_url(spool_id@)[i]),
{
    let mut p = String::from_str(base_dir);
    p.append("/spool.");
    let encoded = encode_base64_url(&spool_id);
    p.append(encoded.as_str());
    p.append(".sled");
    p
}

proof fn lemma_push_ids(s: Seq<Seq<u8>>, x: Seq<u8>)
    ensures
        s.push(x).to_set() == s.to_set().insert(x),
        s.no_duplicates() && !s.contains(x) ==> s.push(x).no_duplicates(),
{
    assert forall|y: Seq<u8>| s.push(x).contains(y) <==> s.to_set().insert(x).contains(y) by {
        if s.push(x).contains(y) {
            let w = choose|w: int| 0 <= w < s.len() + 1 && #[trigger] s.push(x)[w] == y;
            if w < s.len() {
                assert(s[w] == y);
            }
        }
        if s.contains(y) {
            let w = choose|w: int| 0 <= w < s.len() && #[trigger] s[w] == y;
            assert(s.push(x)[w] == y);
        }
        if y == x {
            assert(s.push(x)[s.len() as int] == x);
        }
    }
    assert(s.push(x).to_set() =~= s.to_set().insert(x));
    if s.no_duplicates() && !s.contains(x) {
        assert forall|a: int, b: int| 0 <= a < s.len() + 1 && 0 <= b < s.len() + 1 && a != b implies s.push(x)[a]
            != s.push(x)[b] by {
            if a < s.len() && b == s.len() {
                assert(s[a] != x);
            }
            if b < s.len() && a == s.len() {
                assert(s[b] != x);
            }
        }
    }
}

proof fn lemma_remove_ids(s: Seq<Seq<u8>>, i: int)
    requires
        s.no_duplicates(),
        0 <= i < s.len(),
    ensures
        s.remove(i).to_set() == s.to_set().remove(s[i]),
        s.remove(i).no_duplicates(),
{
    let r = s.remove(i);
    assert forall|y: Seq<u8>| r.contains(y) <==> s.to_set().remove(s[i]).contains(y) by {
        if r.contains(y) {
            let w = choose|w: int| 0 <= w < r.len() && #[trigger] r[w] == y;
            if w < i {
                assert(s[w] == y);
            } else {
                assert(s[w + 1] == y);
            }
        }
        if s.contains(y) && y != s[i] {
            let w = choose|w: int| 0 <= w < s.len() && #[trigger] s[w] == y;
            if w < i {
                assert(r[w] == y);
            } else {
                assert(r[w - 1] == y);
            }
        }
    }
    assert(r.to_set() =~= s.to_set().remove(s[i]));
    assert forall|a: int, b: int| 0 <= a < r.len() && 0 <= b < r.len() && a != b implies r[a] != r[b] by {
        let sa = if a < i { a } else { a + 1 };
        let sb = if b < i { b } else { b + 1 };
        assert(r[a] == s[sa] && r[b] == s[sb]);
    }
}

fn same_id(a: &[u8; SPOOL_ID_SIZE], b: &[u8; SPOOL_ID_SIZE]) -> (r: bool)
    ensures
        r == (a@ == b@),
{
    let mut i: usize = 0;
    while i < SPOOL_ID_SIZE
        invariant
            i <= SPOOL_ID_SIZE,
            a@.len() == SPOOL_ID_SIZE,
            b@.len() == SPOOL_ID_SIZE,
            forall|j: int| 0 <= j < i ==> a@[j] == b@[j],
        decreases SPOOL_ID_SIZE - i,
    {
        if a[i] != b[i] {
            return false;
        }
        i += 1;
    }
    assert(a@ =~= b@);
    true
}

/// MultiSpool keeps a spool set and one open spool for each id in it, all
/// under one base directory.
pub struct MultiSpool {
    ids: Vec<[u8; SPOOL_ID_SIZE]>,
    spools: Vec<Spool>,
    spool_set: SpoolSet,
    base_dir: String,
    quarantined: Vec<[u8; SPOOL_ID_SIZE]>,
    /// The ids the spool set held once its own repair at open was done.
    ids_at_open: Ghost<Set<Seq<u8>>>,
}

impl MultiSpool {
    /// The ids of the open spools, in the order they were opened.
    pub closed spec fn id_views(&self) -> Seq<Seq<u8>> {
        id_seq(self.ids@)
    }

    /// The public key stored for each spool id.
    pub closed spec fn stored_keys(&self) -> Map<Seq<u8>, Seq<u8>> {
        self.spool_set.public_keys()
    }

    /// Whether `spool_id` names a spool.
    pub open spec fn has_spool(&self, spool_id: Seq<u8>) -> bool {
        self.stored_keys().contains_key(spool_id)
    }

    /// The ids of the spool set.
    pub closed spec fn spool_ids(&self) -> Set<Seq<u8>> {
        self.spool_set.ids()
    }

    /// The public key stored for `spool_id`.
    pub open spec fn public_key_of(&self, spool_id: Seq<u8>) -> Seq<u8> {
        self.stored_keys()[spool_id]
    }

    /// The base directory, as given to `new`.
    pub closed spec fn base_dir_view(&self) -> Seq<char> {
        self.base_dir@
    }

    /// The ids the spool set held at open, once its own repair was done.
    pub closed spec fn ids_at_open(&self) -> Set<Seq<u8>> {
        self.ids_at_open@
    }

    /// The ids of the open spools, in the order they were opened.
    pub closed spec fn open_ids(&self) -> Seq<[u8; SPOOL_ID_SIZE]> {
        self.ids@
    }

    /// The open spools, in the order of `open_ids`.
    pub closed spec fn open_spools(&self) -> Seq<Spool> {
        self.spools@
    }

    /// The ids whose spools were found corrupt at open and left out.
    pub closed spec fn quarantined_view(&self) -> Seq<Seq<u8>> {
        id_seq(self.quarantined@)
    }

    closed spec fn index_of(&self, spool_id: Seq<u8>) -> int {
        choose|i: int| 0 <= i < self.ids@.len() && #[trigger] self.ids@[i]@ == spool_id
    }

    /// The open spool of `spool_id`.
    pub closed spec fn spool(&self, spool_id: Seq<u8>) -> Spool {
        self.spools@[self.index_of(spool_id)]
    }

    /// The multi-spool's invariant: one open spool for each id of the
    /// spool set, each at its path and ready, and a well-formed spool set.
    pub closed spec fn wf(&self) -> bool {
        &&& self.ids@.len() == self.spools@.len()
        &&& self.id_views().no_duplicates()
        &&& self.id_views().to_set() == self.spool_set.ids()
        &&& self.spool_set.wf()
        &&& forall|i: int| 0 <= i < self.spools@.len() ==> {
            &&& (#[trigger] self.spools@[i]).ready()
            &&& self.spools@[i].path_view() == spool_path_spec(self.base_dir@, self.ids@[i]@)
        }
    }

    proof fn lemma_index_of(&self, i: int)
        requires
            self.id_views().no_duplicates(),
            0 <= i < self.ids@.len(),
        ensures
            self.index_of(self.ids@[i]@) == i,
    {
        let id = self.ids@[i]@;
        assert(self.id_views()[i] == id);
        let j = self.index_of(id);
        assert(0 <= j < self.ids@.len() && self.ids@[j]@ == id);
        assert(self.id_views()[j] == id);
    }

    proof fn lemma_has_index(&self, spool_id: Seq<u8>)
        requires
            self.wf(),
            self.has_spool(spool_id),
        ensures
            0 <= self.index_of(spool_id) < self.ids@.len(),
            self.ids@[self.index_of(spool_id)]@ == spool_id,
    {
        assert(self.spool_set.ids().contains(spool_id));
        assert(self.id_views().to_set().contains(spool_id));
        let w = choose|w: int| 0 <= w < self.id_views().len() && #[trigger] self.id_views()[w] == spool_id;
        assert(self.ids@[w]@ == spool_id);
        self.lemma_index_of(w);
    }

    /// The position of `spool_id` among the open spools.
    fn find(&self, spool_id: &[u8; SPOOL_ID_SIZE]) -> (r: Option<usize>)
        ensures
            match r {
                Some(i) => i < self.ids@.len() && i < self.spools@.len() && self.ids@[i as int]@ == spool_id@,
                None => self.ids@.len() == self.spools@.len() ==> !self.id_views().contains(spool_id@),
            },
    {
        let mut i: usize = 0;
        while i < self.ids.len() && i < self.spools.len()
            invariant
                i <= self.ids@.len(),
                forall|j: int| 0 <= j < i ==> self.ids@[j]@ != spool_id@,
            decreases self.ids@.len() - i,
        {
            if same_id(&self.ids[i], spool_id) {
                return Some(i);
            }
            i += 1;
        }
        proof {
            if self.ids@.len() == self.spools@.len() && self.id_views().contains(spool_id@) {
                let w = choose|w: int| 0 <= w < self.id_views().len() && #[trigger] self.id_views()[w] == spool_id@;
                assert(self.ids@[w]@ == spool_id@);
            }
        }
        None
    }
}

/// The byte strings of a list of spool ids.
pub open spec fn id_seq(ids: Seq<[u8; SPOOL_ID_SIZE]>) -> Seq<Seq<u8>> {
    ids.map_values(|id: [u8; SPOOL_ID_SIZE]| id@)
}

/// The multi-spool error for a spool-set error.
fn from_set_error(e: SpoolSetError) -> (r: MultiSpoolError)
    ensures
        e is SledError <==> r is SledError,
        e is NoSuchSpoolId <==> r is NoSuchSpool,
        e is SignatureError <==> r is SignatureError,
{
    match e {
        SpoolSetError::SledError(x) => MultiSpoolError::SledError(x),
        SpoolSetError::NoSuchSpoolId => MultiSpoolError::NoSuchSpool,
        SpoolSetError::SignatureError => MultiSpoolError::SignatureError,
    }
}

/// The multi-spool error for a spool error.
fn from_spool_error(e: SpoolError) -> (r: MultiSpoolError)
    ensures
        e is SledError <==> r is SledError,
        !(e is SledError) ==> r == MultiSpoolError::SpoolError(e),
{
    match e {
        SpoolError::SledError(x) => MultiSpoolError::SledError(x),
        other => MultiSpoolError::SpoolError(other),
    }
}

proof fn lemma_prefix_step(kv: Seq<Seq<u8>>, i: int)
    requires
        0 <= i < kv.len(),
    ensures
        forall|k: Seq<u8>| #[trigger] kv.subrange(0, i + 1).contains(k) <==> (kv.subrange(0, i).contains(k) || k == kv[i]),
        kv.no_duplicates() ==> !kv.subrange(0, i).contains(kv[i]),
{
    assert(kv.subrange(0, i + 1) =~= kv.subrange(0, i).push(kv[i]));
    lemma_push_ids(kv.subrange(0, i), kv[i]);
    assert forall|k: Seq<u8>| #[trigger] kv.subrange(0, i + 1).contains(k) <==> (kv.subrange(0, i).contains(k) || k == kv[i]) by {
        assert(kv.subrange(0, i + 1).to_set().contains(k) == kv.subrange(0, i + 1).contains(k));
    }
    if kv.no_duplicates() && kv.subrange(0, i).contains(kv[i]) {
        let w = choose|w: int| 0 <= w < i && #[trigger] kv.subrange(0, i)[w] == kv[i];
        assert(kv[w] == kv[i]);
    }
}

impl MultiSpool {
    /// Takes in spool `spool_id` as opening its database turned out: an
    /// opened spool joins, a corrupt one leaves the spool set and is listed
    /// as quarantined, and any other failure is handed back.
    pub fn admit_spool(&mut self, spool_id: [u8; SPOOL_ID_SIZE], opened: Result<Spool, SpoolError>) -> (r: Result<
        (),
        MultiSpoolError,
    >)
        ensures
            final(self).base_dir_view() == old(self).base_dir_view(),
            final(self).ids_at_open() == old(self).ids_at_open(),
            r is Ok && old(self).spool_ids() == old(self).stored_keys().dom()
                ==> final(self).spool_ids() == final(self).stored_keys().dom(),
            match opened {
                Ok(s) => {
                    &&& r is Ok
                    &&& final(self).open_ids() == old(self).open_ids().push(spool_id)
                    &&& final(self).id_views() == old(self).id_views().push(spool_id@)
                    &&& final(self).open_spools() == old(self).open_spools().push(s)
                    &&& final(self).spool_ids() == old(self).spool_ids()
                    &&& final(self).stored_keys() == old(self).stored_keys()
                    &&& final(self).quarantined_view() == old(self).quarantined_view()
                },
                Err(SpoolError::CorruptSpool) => match r {
                    Ok(()) => {
                        &&& final(self).open_ids() == old(self).open_ids()
                        &&& final(self).id_views() == old(self).id_views()
                        &&& final(self).open_spools() == old(self).open_spools()
                        &&& final(self).spool_ids() == old(self).spool_ids().remove(spool_id@)
                        &&& final(self).stored_keys() == old(self).stored_keys().remove(spool_id@)
                        &&& final(self).quarantined_view() == old(self).quarantined_view().push(spool_id@)
                    },
                    Err(e) => e is SledError,
                },
                Err(e) => {
                    &&& (r matches Err(x) && (x is SledError <==> e is SledError))
                    &&& *final(self) == *old(self)
                },
            },
    {
        match opened {
            Ok(spool) => {
                self.ids.push(spool_id);
                self.spools.push(spool);
                assert(id_seq(self.ids@) =~= id_seq(old(self).ids@).push(spool_id@));
                Ok(())
            },
            Err(SpoolError::CorruptSpool) => {
                match self.spool_set.delete(spool_id) {
                    Ok(()) => {},
                    Err(e) => return Err(from_set_error(e)),
                }
                self.quarantined.push(spool_id);
                assert(id_seq(self.quarantined@) =~= id_seq(old(self).quarantined@).push(spool_id@));
                Ok(())
            },
            Err(e) => Err(from_spool_error(e)),
        }
    }

    /// Opens the spool set under `base_dir` and every spool in it. A spool
    /// found corrupt is dropped from the set and listed as quarantined; any
    /// other failure ends the open.
    pub fn new(base_dir: &str) -> (r: Result<MultiSpool, MultiSpoolError>)
        ensures
            r matches Err(e) ==> e is SledError,
            r matches Ok(ms) ==> {
                &&& ms.wf()
                &&& ms.base_dir_view() == base_dir@
                &&& forall|q: Seq<u8>| ms.quarantined_view().contains(q) ==> !ms.has_spool(q) && ms.ids_at_open().contains(q)
                &&& forall|k: Seq<u8>| #[trigger] ms.has_spool(k) ==> ms.ids_at_open().contains(k)
                &&& forall|k: Seq<u8>| #[trigger] ms.ids_at_open().contains(k) && k.len() == SPOOL_ID_SIZE ==> ms.has_spool(k)
                    || ms.quarantined_view().contains(k)
                &&& forall|o: Seq<u8>| #[trigger] ms.has_spool(o) ==> {
                    &&& !corrupt_state(ms.spool(o).meta_map(), ms.spool(o).data_map())
                    &&& ms.spool(o).len() as int == recovered_end(ms.spool(o).meta_map(), ms.spool(o).data_map())
                }
            },
    {
        let set_path = spool_set_path(base_dir);
        let mut spool_set = match SpoolSet::new(set_path.as_str()) {
            Ok(s) => s,
            Err(e) => return Err(from_set_error(e)),
        };
        let keys = match spool_set.keys() {
            Ok(ks) => ks,
            Err(e) => return Err(from_set_error(e)),
        };
        let ghost k0 = spool_set.ids();
        let ghost kv = key_views(keys@);
        let mut ms = MultiSpool {
            ids: Vec::new(),
            spools: Vec::new(),
            spool_set,
            base_dir: base_dir.to_owned(),
            quarantined: Vec::new(),
            ids_at_open: Ghost(k0),
        };
        let mut i: usize = 0;
        while i < keys.len()
            invariant
                i <= keys@.len(),
                kv == key_views(keys@),
                kv.no_duplicates(),
                kv.to_set() == k0,
                ms.ids@.len() == ms.spools@.len(),
                ms.spool_set.wf(),
                forall|k: Seq<u8>| #[trigger] ms.spool_set.ids().contains(k) ==> k0.contains(k),
                forall|j: int| 0 <= j < i ==> (ms.spool_set.ids().contains(#[trigger] kv[j]) <==> id_seq(ms.ids@).contains(kv[j])),
                forall|j: int| i <= j < kv.len() ==> ms.spool_set.ids().contains(#[trigger] kv[j]),
                forall|k: Seq<u8>| #[trigger] id_seq(ms.ids@).contains(k) ==> kv.subrange(
                    0,
                    i as int,
                ).contains(k),
                id_seq(ms.ids@).no_duplicates(),
                forall|j: int| 0 <= j < ms.spools@.len() ==> {
                    &&& (#[trigger] ms.spools@[j]).ready()
                    &&& ms.spools@[j].path_view() == spool_path_spec(base_dir@, ms.ids@[j]@)
                    &&& !corrupt_state(ms.spools@[j].meta_map(), ms.spools@[j].data_map())
                    &&& ms.spools@[j].len() as int == recovered_end(ms.spools@[j].meta_map(), ms.spools@[j].data_map())
                },
                forall|q: Seq<u8>| #[trigger] id_seq(ms.quarantined@).contains(q)
                    ==> !ms.spool_set.ids().contains(q),
                ms.base_dir@ == base_dir@,
                ms.ids_at_open@ == k0,
                forall|q: Seq<u8>| #[trigger] id_seq(ms.quarantined@).contains(q) ==> kv.subrange(0, i as int).contains(q),
                forall|j: int| 0 <= j < i && (#[trigger] kv[j]).len() == SPOOL_ID_SIZE && !ms.spool_set.ids().contains(kv[j])
                    ==> id_seq(ms.quarantined@).contains(kv[j]),
            decreases keys@.len() - i,
        {
            let ghost set_before = ms.spool_set.ids();
            let ghost iv = id_seq(ms.ids@);
            let ghost qv = id_seq(ms.quarantined@);
            proof {
                lemma_prefix_step(kv, i as int);
                assert(kv[i as int] == keys@[i as int]@);
            }
            let raw = &keys[i];
            if raw.len() != SPOOL_ID_SIZE {
                match ms.spool_set.remove_key(raw.as_slice()) {
                    Ok(()) => {},
                    Err(e) => return Err(from_set_error(e)),
                }
                proof {
                    assert(!iv.contains(kv[i as int]));
                }
            } else {
                let id: [u8; SPOOL_ID_SIZE] = to_array(raw.as_slice());
                let path = spool_path(base_dir, id);
                let opened = Spool::new(path.as_str());
                let ghost op = opened;
                let ghost sp = ms.spools@;
                match ms.admit_spool(id, opened) {
                    Ok(()) => {},
                    Err(e) => return Err(e),
                }
                proof {
                    match op {
                        Ok(spool) => {
                            assert(ms.spools@ == sp.push(spool));
                            assert forall|j: int| 0 <= j < ms.spools@.len() implies ms.spools@[j] == if j < sp.len() {
                                sp[j]
                            } else {
                                spool
                            } by {}
                        assert(id_seq(ms.ids@) =~= iv.push(id@));
                        lemma_push_ids(iv, id@);
                        assert(iv.push(id@).to_set().contains(id@));
                        assert forall|k: Seq<u8>| #[trigger] iv.push(id@).contains(k) implies kv.subrange(
                            0,
                            i + 1,
                        ).contains(k) by {
                            assert(iv.push(id@).to_set().contains(k));
                        }
                        assert forall|k: Seq<u8>| #[trigger] iv.contains(k) implies iv.push(id@).contains(k) by {
                            assert(iv.push(id@).to_set().contains(k));
                        }
                        },
                        Err(SpoolError::CorruptSpool) => {
                        assert(id_seq(ms.quarantined@) =~= qv.push(id@));
                        lemma_push_ids(qv, id@);
                        assert forall|q: Seq<u8>| #[trigger] qv.push(id@).contains(q) implies !ms.spool_set.ids().contains(q) by {
                            assert(qv.push(id@).to_set().contains(q));
                        }
                        assert(!iv.contains(kv[i as int]));
                        },
                        Err(_) => {},
                    }
                }
            }
            proof {
                let qv2 = id_seq(ms.quarantined@);
                assert forall|q: Seq<u8>| #[trigger] qv.contains(q) implies qv2.contains(q) by {
                    if qv2 != qv {
                        assert(qv2 =~= qv.push(kv[i as int]));
                        assert(qv.push(kv[i as int]).to_set().contains(q));
                    }
                }
                assert forall|q: Seq<u8>| #[trigger] qv2.contains(q) implies kv.subrange(0, i + 1).contains(q) by {
                    if qv2 != qv {
                        assert(qv2 =~= qv.push(kv[i as int]));
                        assert(qv.push(kv[i as int]).to_set().contains(q));
                    }
                }
                assert forall|j: int| 0 <= j < i + 1 && (#[trigger] kv[j]).len() == SPOOL_ID_SIZE && !ms.spool_set.ids().contains(kv[j])
                    implies qv2.contains(kv[j]) by {
                    if j < i {
                        assert(kv[j] != kv[i as int]);
                        assert(ms.spool_set.ids().contains(kv[j]) == set_before.contains(kv[j]));
                    } else if qv2 != qv {
                        assert(qv2 =~= qv.push(kv[i as int]));
                        assert(qv2[qv.len() as int] == kv[i as int]);
                    }
                }
                let iv2 = id_seq(ms.ids@);
                assert forall|j: int| 0 <= j < kv.len() && j != i implies kv[j] != kv[i as int] by {}
                assert forall|j: int| 0 <= j < i + 1 implies (ms.spool_set.ids().contains(#[trigger] kv[j]) <==> iv2.contains(kv[j])) by {
                    if j < i {
                        assert(kv[j] != kv[i as int]);
                        assert(ms.spool_set.ids().contains(kv[j]) == set_before.contains(kv[j]));
                        assert(iv2.contains(kv[j]) == iv.contains(kv[j]));
                    }
                }
            }
            i += 1;
        }
        proof {
            let iv = id_seq(ms.ids@);
            assert(kv.subrange(0, i as int) =~= kv);
            assert forall|k: Seq<u8>| #[trigger] iv.to_set().contains(k) <==> ms.spool_set.ids().contains(k) by {
                if ms.spool_set.ids().contains(k) {
                    assert(kv.to_set().contains(k));
                    let w = choose|w: int| 0 <= w < kv.len() && #[trigger] kv[w] == k;
                }
                if iv.contains(k) {
                    assert(kv.contains(k));
                    let w = choose|w: int| 0 <= w < kv.len() && #[trigger] kv[w] == k;
                }
            }
            assert(iv.to_set() =~= ms.spool_set.ids());
        }
        proof {
            assert(ms.wf());
            assert forall|k: Seq<u8>| #[trigger] ms.ids_at_open().contains(k) && k.len() == SPOOL_ID_SIZE implies ms.has_spool(k)
                || ms.quarantined_view().contains(k) by {
                assert(kv.to_set().contains(k));
                let w = choose|w: int| 0 <= w < kv.len() && #[trigger] kv[w] == k;
            }
            assert forall|q: Seq<u8>| ms.quarantined_view().contains(q) implies !ms.has_spool(q) && ms.ids_at_open().contains(q) by {
                assert(kv.contains(q));
                assert(kv.to_set().contains(q));
            }
            assert forall|o: Seq<u8>| #[trigger] ms.has_spool(o) implies {
                &&& !corrupt_state(ms.spool(o).meta_map(), ms.spool(o).data_map())
                &&& ms.spool(o).len() as int == recovered_end(ms.spool(o).meta_map(), ms.spool(o).data_map())
            } by {
                ms.lemma_has_index(o);
            }
        }
        Ok(ms)
    }

    /// Creates spool `spool_id` owned by `public_key`. The signature must be
    /// one of the key's own bytes under that key; the id must be new, and
    /// the database at its path must hold no messages.
    pub fn create_spool_with_id(
        &mut self,
        public_key: [u8; 32],
        signature: [u8; 64],
        spool_id: [u8; SPOOL_ID_SIZE],
    ) -> (r: Result<[u8; SPOOL_ID_SIZE], MultiSpoolError>)
        ensures
            final(self).base_dir_view() == old(self).base_dir_view(),
            r matches Err(MultiSpoolError::SignatureError) <==> !signature_verifies(public_key@, public_key@, signature@),
            signature_verifies(public_key@, public_key@, signature@) && old(self).wf() && old(self).has_spool(spool_id@)
                ==> r matches Err(MultiSpoolError::SpoolIdCollision),
            old(self).wf() && (r matches Err(MultiSpoolError::SpoolIdCollision)) ==> old(self).has_spool(spool_id@),
            r matches Err(e) ==> e is SignatureError || e is SpoolIdCollision || e is SpoolDirectoryInUse || e is SledError
                || e is SpoolError,
            r matches Err(e) && !(e is SledError) ==> *final(self) == *old(self),
            r is Err ==> final(self).id_views() == old(self).id_views()
                && final(self).open_spools() == old(self).open_spools(),
            r matches Ok(id) ==> {
                &&& id == spool_id
                &&& final(self).has_spool(id@)
                &&& final(self).public_key_of(id@) == public_key@
                &&& final(self).spool_ids() == old(self).spool_ids().insert(id@)
                &&& public_key_decodes(public_key@)
                &&& old(self).wf() ==> forall|o: Seq<u8>| o != id@ && #[trigger] old(self).has_spool(o)
                    ==> final(self).has_spool(o) && final(self).spool(o) == old(self).spool(o)
                &&& old(self).wf() ==> {
                    &&& !old(self).has_spool(id@)
                    &&& final(self).wf()
                    &&& final(self).spool(id@).last() is None
                    &&& final(self).spool(id@).messages() == Seq::<Seq<u8>>::empty()
                    &&& final(self).spool(id@).consistent()
                }
            },
    {
        if !verify_signature(&public_key, &public_key, &signature) {
            return Err(MultiSpoolError::SignatureError);
        }
        if let Some(i) = self.find(&spool_id) {
            proof {
                if self.wf() {
                    assert(self.id_views()[i as int] == spool_id@);
                    assert(self.id_views().contains(spool_id@));
                    assert(self.id_views().to_set().contains(spool_id@));
                }
            }
            return Err(MultiSpoolError::SpoolIdCollision);
        }
        let ghost old_self = *self;
        let path = spool_path(self.base_dir.as_str(), spool_id);
        let spool = match Spool::new(path.as_str()) {
            Ok(s) => s,
            Err(e) => return Err(from_spool_error(e)),
        };
        match spool.has_messages() {
            Ok(false) => {},
            Ok(true) => return Err(MultiSpoolError::SpoolDirectoryInUse),
            Err(e) => return Err(from_spool_error(e)),
        }
        match self.spool_set.put(spool_id, public_key) {
            Ok(()) => {},
            Err(e) => return Err(from_set_error(e)),
        }
        self.ids.push(spool_id);
        self.spools.push(spool);
        proof {
            let iv = id_seq(old_self.ids@);
            assert(id_seq(self.ids@) =~= iv.push(spool_id@));
            lemma_push_ids(iv, spool_id@);
            if old_self.wf() {
                assert(!old_self.has_spool(spool_id@)) by {
                    if old_self.has_spool(spool_id@) {
                        assert(iv.to_set().contains(spool_id@));
                    }
                }
                assert forall|j: int| 0 <= j < self.spools@.len() implies {
                    &&& (#[trigger] self.spools@[j]).ready()
                    &&& self.spools@[j].path_view() == spool_path_spec(self.base_dir@, self.ids@[j]@)
                } by {
                    if j < old_self.spools@.len() {
                        assert(self.spools@[j] == old_self.spools@[j]);
                    }
                }
                let n = old_self.ids@.len() as int;
                assert(self.ids@[n] == spool_id);
                self.lemma_index_of(n);
                assert(self.spool(spool_id@) == spool);
                assert(spool.messages() =~= Seq::<Seq<u8>>::empty());
                assert forall|o: Seq<u8>| o != spool_id@ && #[trigger] old_self.has_spool(o) implies self.has_spool(o)
                    && self.spool(o) == old_self.spool(o) by {
                    old_self.lemma_has_index(o);
                    let j = old_self.index_of(o);
                    assert(self.ids@[j] == old_self.ids@[j]);
                    self.lemma_index_of(j);
                    assert(self.spools@[j] == old_self.spools@[j]);
                }
            }
        }
        Ok(spool_id)
    }

    /// Creates a spool owned by `public_key`: once the signature verifies,
    /// the id is drawn from the operating system's secure generator.
    pub fn create_spool(&mut self, public_key: [u8; 32], signature: [u8; 64]) -> (r: Result<
        [u8; SPOOL_ID_SIZE],
        MultiSpoolError,
    >)
        ensures
            final(self).base_dir_view() == old(self).base_dir_view(),
            r matches Err(MultiSpoolError::SignatureError) <==> !signature_verifies(public_key@, public_key@, signature@),
            r matches Err(e) ==> e is SignatureError || e is SpoolIdCollision || e is SpoolDirectoryInUse || e is SledError
                || e is SpoolError || e is RandomnessUnavailable,
            r matches Err(e) && !(e is SledError) ==> *final(self) == *old(self),
            r is Err ==> final(self).id_views() == old(self).id_views()
                && final(self).open_spools() == old(self).open_spools(),
            r matches Ok(id) ==> {
                &&& final(self).has_spool(id@)
                &&& final(self).public_key_of(id@) == public_key@
                &&& final(self).spool_ids() == old(self).spool_ids().insert(id@)
                &&& public_key_decodes(public_key@)
                &&& old(self).wf() ==> forall|o: Seq<u8>| o != id@ && #[trigger] old(self).has_spool(o)
                    ==> final(self).has_spool(o) && final(self).spool(o) == old(self).spool(o)
                &&& old(self).wf() ==> {
                    &&& !old(self).has_spool(id@)
                    &&& final(self).wf()
                    &&& final(self).spool(id@).last() is None
                    &&& final(self).spool(id@).messages() == Seq::<Seq<u8>>::empty()
                    &&& final(self).spool(id@).consistent()
                }
            },
    {
        if !verify_signature(&public_key, &public_key, &signature) {
            return Err(MultiSpoolError::SignatureError);
        }
        let spool_id = match random_spool_id() {
            Some(id) => id,
            None => return Err(MultiSpoolError::RandomnessUnavailable),
        };
        self.create_spool_with_id(public_key, signature, spool_id)
    }

    /// Purges spool `spool_id`: its messages are cleared and its id leaves
    /// the set. The signature must be one of the stored public key's own
    /// bytes under that key. Removing the emptied database directory, at
    /// `spool_path`, is left to the caller.
    pub fn purge_spool(&mut self, spool_id: [u8; SPOOL_ID_SIZE], signature: [u8; 64]) -> (r: Result<(), MultiSpoolError>)
        ensures
            final(self).base_dir_view() == old(self).base_dir_view(),
            r matches Err(MultiSpoolError::NoSuchSpool) ==> !old(self).has_spool(spool_id@) || !old(self).wf(),
            old(self).wf() && !old(self).has_spool(spool_id@) ==> (r matches Err(e) && (e is NoSuchSpool || e is SledError)),
            old(self).wf() && (r matches Err(MultiSpoolError::SignatureError)) ==> old(self).has_spool(spool_id@) && !(public_key_decodes(
                old(self).public_key_of(spool_id@),
            ) && signature_verifies(
                old(self).public_key_of(spool_id@),
                old(self).public_key_of(spool_id@),
                signature@,
            )),
            old(self).has_spool(spool_id@) && !(public_key_decodes(old(self).public_key_of(spool_id@))
                && signature_verifies(
                old(self).public_key_of(spool_id@),
                old(self).public_key_of(spool_id@),
                signature@,
            )) ==> (r matches Err(e) && (e is SignatureError || e is SledError)),
            old(self).wf() && old(self).has_spool(spool_id@) && public_key_decodes(old(self).public_key_of(spool_id@))
                && signature_verifies(
                old(self).public_key_of(spool_id@),
                old(self).public_key_of(spool_id@),
                signature@,
            ) ==> r is Ok || r matches Err(MultiSpoolError::SledError(_)),
            r matches Err(e) && !(e is SledError) ==> *final(self) == *old(self),
            r is Err ==> final(self).id_views() == old(self).id_views(),
            !(old(self).has_spool(spool_id@) && public_key_decodes(old(self).public_key_of(spool_id@))
                && signature_verifies(
                old(self).public_key_of(spool_id@),
                old(self).public_key_of(spool_id@),
                signature@,
            )) ==> *final(self) == *old(self),
            r is Ok ==> {
                &&& old(self).has_spool(spool_id@)
                &&& signature_verifies(
                    old(self).public_key_of(spool_id@),
                    old(self).public_key_of(spool_id@),
                    signature@,
                )
                &&& !final(self).has_spool(spool_id@)
                &&& final(self).spool_ids() == old(self).spool_ids().remove(spool_id@)
                &&& final(self).stored_keys() == old(self).stored_keys().remove(spool_id@)
                &&& old(self).wf() ==> final(self).wf()
                &&& old(self).wf() ==> forall|o: Seq<u8>| o != spool_id@ && #[trigger] old(self).has_spool(o)
                    ==> final(self).has_spool(o) && final(self).spool(o) == old(self).spool(o)
            },
    {
        let public_key = match self.spool_set.get_public_key(spool_id) {
            Ok(pk) => pk,
            Err(e) => return Err(from_set_error(e)),
        };
        if !verify_signature(&public_key, &public_key, &signature) {
            return Err(MultiSpoolError::SignatureError);
        }
        let i = match self.find(&spool_id) {
            Some(i) => i,
            None => {
                proof {
                    if old(self).wf() {
                        assert(id_seq(self.ids@).to_set().contains(spool_id@));
                    }
                }
                return Err(MultiSpoolError::NoSuchSpool);
            },
        };
        let ghost old_self = *self;
        match self.spools[i].purge() {
            Ok(()) => {},
            Err(e) => return Err(from_spool_error(e)),
        }
        match self.spool_set.delete(spool_id) {
            Ok(()) => {},
            Err(e) => return Err(from_set_error(e)),
        }
        let ghost mid = *self;
        self.ids.remove(i);
        self.spools.remove(i);
        proof {
            if old_self.wf() {
                let iv = id_seq(old_self.ids@);
                assert(id_seq(self.ids@) =~= iv.remove(i as int));
                assert(iv[i as int] == spool_id@);
                lemma_remove_ids(iv, i as int);
                assert forall|j: int| 0 <= j < self.spools@.len() implies {
                    &&& (#[trigger] self.spools@[j]).ready()
                    &&& self.spools@[j].path_view() == spool_path_spec(self.base_dir@, self.ids@[j]@)
                } by {
                    if j < i {
                        assert(self.spools@[j] == mid.spools@[j]);
                        assert(self.ids@[j] == old_self.ids@[j]);
                    } else {
                        assert(self.spools@[j] == mid.spools@[j + 1]);
                        assert(self.ids@[j] == old_self.ids@[j + 1]);
                    }
                }
                assert(self.spool_set.wf());
                assert forall|o: Seq<u8>| o != spool_id@ && #[trigger] old_self.has_spool(o) implies self.has_spool(o)
                    && self.spool(o) == old_self.spool(o) by {
                    old_self.lemma_has_index(o);
                    let j = old_self.index_of(o);
                    assert(j != i);
                    let k = if j < i { j } else { j - 1 };
                    assert(self.ids@[k] == old_self.ids@[j]);
                    assert(id_seq(self.ids@)[k] == o);
                    self.lemma_index_of(k);
                    assert(self.spools@[k] == mid.spools@[j]);
                }
            }
        }
        Ok(())
    }

    /// Appends `message` to spool `spool_id`. Anyone who knows a spool's id
    /// may append to it.
    pub fn append_to_spool(&mut self, spool_id: [u8; SPOOL_ID_SIZE], message: [u8; MESSAGE_SIZE]) -> (r: Result<(), MultiSpoolError>)
        ensures
            final(self).base_dir_view() == old(self).base_dir_view(),
            final(self).spool_ids() == old(self).spool_ids(),
            final(self).stored_keys() == old(self).stored_keys(),
            old(self).wf() ==> final(self).wf(),
            old(self).wf() ==> forall|o: Seq<u8>| o != spool_id@ && #[trigger] old(self).has_spool(o)
                ==> final(self).spool(o) == old(self).spool(o),
            old(self).wf() ==> (r matches Err(MultiSpoolError::NoSuchSpool) <==> !old(self).has_spool(spool_id@)),
            r matches Err(MultiSpoolError::NoSuchSpool) ==> *final(self) == *old(self),
            r matches Err(e) ==> e is NoSuchSpool || e is SledError || e matches MultiSpoolError::SpoolError(SpoolError::SpoolFull),
            old(self).wf() ==> (r matches Err(MultiSpoolError::SpoolError(SpoolError::SpoolFull)) <==> old(self).has_spool(
                spool_id@,
            ) && old(self).spool(spool_id@).last() == Some(u32::MAX)),
            r is Ok && old(self).wf() ==> append_step(old(self).spool(spool_id@), final(self).spool(spool_id@), message@),
    {
        let i = match self.find(&spool_id) {
            Some(i) => i,
            None => {
                proof {
                    if old(self).wf() && old(self).has_spool(spool_id@) {
                        assert(id_seq(self.ids@).to_set().contains(spool_id@));
                    }
                }
                return Err(MultiSpoolError::NoSuchSpool);
            },
        };
        let ghost old_self = *self;
        proof {
            if old_self.wf() {
                old_self.lemma_index_of(i as int);
                assert(id_seq(old_self.ids@)[i as int] == spool_id@);
                assert(id_seq(old_self.ids@).to_set().contains(spool_id@));
            }
        }
        let res = self.spools[i].append(message);
        proof {
            if old_self.wf() {
                assert(self.ids == old_self.ids);
                self.lemma_index_of(i as int);
                assert forall|j: int| 0 <= j < self.spools@.len() implies {
                    &&& (#[trigger] self.spools@[j]).ready()
                    &&& self.spools@[j].path_view() == spool_path_spec(self.base_dir@, self.ids@[j]@)
                } by {
                    if j != i {
                        assert(self.spools@[j] == old_self.spools@[j]);
                    }
                }
                assert forall|o: Seq<u8>| o != spool_id@ && #[trigger] old_self.has_spool(o) implies self.spool(o)
                    == old_self.spool(o) by {
                    old_self.lemma_has_index(o);
                    let j = old_self.index_of(o);
                    assert(self.index_of(o) == j);
                    assert(j != i);
                    assert(self.spools@[j] == old_self.spools@[j]);
                }
            }
        }
        match res {
            Ok(()) => Ok(()),
            Err(e) => Err(from_spool_error(e)),
        }
    }

    /// Reads message `message_id` of spool `spool_id`. The signature must be
    /// one of the stored public key's own bytes under that key.
    pub fn read_from_spool(
        &self,
        spool_id: [u8; SPOOL_ID_SIZE],
        signature: [u8; 64],
        message_id: &[u8; MESSAGE_ID_SIZE],
    ) -> (r: Result<[u8; MESSAGE_SIZE], MultiSpoolError>)
        ensures
            self.wf() && !self.has_spool(spool_id@) ==> (r matches Err(e) && (e is NoSuchSpool || e is SledError)),
            self.wf() && (r matches Err(MultiSpoolError::SignatureError)) ==> self.has_spool(spool_id@) && !(public_key_decodes(
                self.public_key_of(spool_id@),
            ) && signature_verifies(self.public_key_of(spool_id@), self.public_key_of(spool_id@), signature@)),
            self.has_spool(spool_id@) && !(public_key_decodes(self.public_key_of(spool_id@)) && signature_verifies(
                self.public_key_of(spool_id@),
                self.public_key_of(spool_id@),
                signature@,
            )) ==> (r matches Err(e) && (e is SignatureError || e is SledError)),
            r matches Ok(m) ==> {
                &&& self.has_spool(spool_id@)
                &&& signature_verifies(self.public_key_of(spool_id@), self.public_key_of(spool_id@), signature@)
                &&& self.wf() ==> self.spool(spool_id@).data_map().contains_key(message_id@) && self.spool(
                    spool_id@,
                ).data_map()[message_id@] == m@
            },
            self.wf() && self.has_spool(spool_id@) && public_key_decodes(self.public_key_of(spool_id@))
                && signature_verifies(self.public_key_of(spool_id@), self.public_key_of(spool_id@), signature@)
                ==> match r {
                Ok(m) => true,
                Err(MultiSpoolError::SpoolError(SpoolError::NoSuchMessage)) => !self.spool(
                    spool_id@,
                ).data_map().contains_key(message_id@),
                Err(MultiSpoolError::SpoolError(SpoolError::CorruptSpool)) => self.spool(spool_id@).data_map().contains_key(
                    message_id@,
                ) && self.spool(spool_id@).data_map()[message_id@].len() != MESSAGE_SIZE,
                Err(MultiSpoolError::SledError(_)) => true,
                Err(_) => false,
            },
    {
        let public_key = match self.spool_set.get_public_key(spool_id) {
            Ok(pk) => pk,
            Err(e) => return Err(from_set_error(e)),
        };
        if !verify_signature(&public_key, &public_key, &signature) {
            return Err(MultiSpoolError::SignatureError);
        }
        let i = match self.find(&spool_id) {
            Some(i) => i,
            None => {
                proof {
                    if self.wf() {
                        assert(id_seq(self.ids@).to_set().contains(spool_id@));
                    }
                }
                return Err(MultiSpoolError::NoSuchSpool);
            },
        };
        proof {
            if self.wf() {
                self.lemma_index_of(i as int);
            }
        }
        match self.spools[i].read(message_id) {
            Ok(m) => Ok(m),
            Err(e) => Err(from_spool_error(e)),
        }
    }

    /// The number of open spools.
    pub fn spool_count(&self) -> (r: usize)
        ensures
            r == self.id_views().len(),
            self.wf() ==> r == self.spool_ids().len(),
    {
        proof {
            if self.wf() {
                self.id_views().unique_seq_to_set();
            }
        }
        self.ids.len()
    }

    /// Whether a spool with id `spool_id` is open.
    pub fn contains_spool(&self, spool_id: [u8; SPOOL_ID_SIZE]) -> (r: bool)
        ensures
            r == self.id_views().contains(spool_id@),
            self.wf() ==> r == self.has_spool(spool_id@),
    {
        proof {
            if self.wf() {
                assert(self.id_views().to_set().contains(spool_id@) == self.id_views().contains(spool_id@));
            }
        }
        let mut i: usize = 0;
        while i < self.ids.len()
            invariant
                i <= self.ids@.len(),
                forall|j: int| 0 <= j < i ==> self.ids@[j]@ != spool_id@,
            decreases self.ids@.len() - i,
        {
            if same_id(&self.ids[i], &spool_id) {
                proof {
                    assert(self.id_views()[i as int] == spool_id@);
                }
                return true;
            }
            i += 1;
        }
        proof {
            if self.id_views().contains(spool_id@) {
                let w = choose|w: int| 0 <= w < self.id_views().len() && #[trigger] self.id_views()[w] == spool_id@;
                assert(self.ids@[w]@ == spool_id@);
            }
        }
        false
    }

    /// The ids whose spools were found corrupt at open.
    pub fn quarantined(&self) -> (r: &Vec<[u8; SPOOL_ID_SIZE]>)
        ensures
            id_seq(r@) == self.quarantined_view(),
    {
        &self.quarantined
    }
}

} // verus!
