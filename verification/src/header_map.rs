//! Two-tier index of known headers: a bounded in-memory tier backed by a
//! key-value spill store on disk. The spill store lives in a temporary
//! directory and is gone with the process; only the policy between the two
//! tiers is the node's own logic.

use crate::types::{lemma_byte32_bytes_injective, push_u64_be, u64_be_bytes, Byte32};

use vstd::prelude::*;

verus! {

/// The indexed summary of one header.
#[derive(Clone, Copy, Debug, PartialEq, Eq, Structural)]
pub struct HeaderIndexView {
    pub hash: Byte32,
    pub number: u64,
    pub epoch_number: u64,
    pub timestamp: u64,
    pub total_difficulty: u64,
}

/// The 64-byte on-disk encoding: the hash, then the four counters, each
/// big-endian.
pub open spec fn encode_view(v: HeaderIndexView) -> Seq<u8> {
    v.hash.bytes() + u64_be_bytes(v.number) + u64_be_bytes(v.epoch_number) + u64_be_bytes(
        v.timestamp,
    ) + u64_be_bytes(v.total_difficulty)
}

/// Serialize a header record for the spill store.
pub fn encode_header(v: &HeaderIndexView) -> (r: Vec<u8>)
    ensures
        r@ == encode_view(*v),
        r@.len() == 64,
{
    let mut out = v.hash.to_bytes();
    push_u64_be(&mut out, v.number);
    push_u64_be(&mut out, v.epoch_number);
    push_u64_be(&mut out, v.timestamp);
    push_u64_be(&mut out, v.total_difficulty);
    proof {
        assert(out@ =~= encode_view(*v));
    }
    out
}

/// Read a header record back from its 64-byte encoding.
pub fn decode_header(bytes: &Vec<u8>) -> (r: HeaderIndexView)
    requires
        bytes@.len() == 64,
    ensures
        encode_view(r) == bytes@,
{
    let mut hash_bytes: Vec<u8> = Vec::new();
    let mut i: usize = 0;
    while i < 32
        invariant
            0 <= i <= 32,
            bytes@.len() == 64,
            hash_bytes@ == bytes@.subrange(0, i as int),
        decreases 32 - i,
    {
        hash_bytes.push(bytes[i]);
        i += 1;
        proof {
            assert(hash_bytes@ =~= bytes@.subrange(0, i as int));
        }
    }
    let hash = Byte32::from_bytes(&hash_bytes);
    let number = crate::types::read_u64_be(bytes, 32);
    let epoch_number = crate::types::read_u64_be(bytes, 40);
    let timestamp = crate::types::read_u64_be(bytes, 48);
    let total_difficulty = crate::types::read_u64_be(bytes, 56);
    let r = HeaderIndexView { hash, number, epoch_number, timestamp, total_difficulty };
    proof {
        crate::types::lemma_u64_bytes_decode(bytes@.subrange(32, 40));
        crate::types::lemma_u64_bytes_decode(bytes@.subrange(40, 48));
        crate::types::lemma_u64_bytes_decode(bytes@.subrange(48, 56));
        crate::types::lemma_u64_bytes_decode(bytes@.subrange(56, 64));
        assert(encode_view(r) =~= bytes@);
    }
    r
}

/// Two records with the same encoding are the same record: the codec loses
/// nothing.
pub proof fn lemma_encode_injective(v1: HeaderIndexView, v2: HeaderIndexView)
    requires
        encode_view(v1) == encode_view(v2),
    ensures
        v1 == v2,
{
    let e1 = encode_view(v1);
    let e2 = encode_view(v2);
    assert(e1.subrange(0, 32) =~= v1.hash.bytes());
    assert(e2.subrange(0, 32) =~= v2.hash.bytes());
    crate::types::lemma_byte32_bytes_injective(v1.hash, v2.hash);
    assert(e1.subrange(32, 40) =~= u64_be_bytes(v1.number));
    assert(e2.subrange(32, 40) =~= u64_be_bytes(v2.number));
    crate::types::lemma_u64_bytes_roundtrip(v1.number);
    crate::types::lemma_u64_bytes_roundtrip(v2.number);
    assert(e1.subrange(40, 48) =~= u64_be_bytes(v1.epoch_number));
    assert(e2.subrange(40, 48) =~= u64_be_bytes(v2.epoch_number));
    crate::types::lemma_u64_bytes_roundtrip(v1.epoch_number);
    crate::types::lemma_u64_bytes_roundtrip(v2.epoch_number);
    assert(e1.subrange(48, 56) =~= u64_be_bytes(v1.timestamp));
    assert(e2.subrange(48, 56) =~= u64_be_bytes(v2.timestamp));
    crate::types::lemma_u64_bytes_roundtrip(v1.timestamp);
    crate::types::lemma_u64_bytes_roundtrip(v2.timestamp);
    assert(e1.subrange(56, 64) =~= u64_be_bytes(v1.total_difficulty));
    assert(e2.subrange(56, 64) =~= u64_be_bytes(v2.total_difficulty));
    crate::types::lemma_u64_bytes_roundtrip(v1.total_difficulty);
    crate::types::lemma_u64_bytes_roundtrip(v2.total_difficulty);
}

#[verifier::external_type_specification]
#[verifier::external_body]
pub struct ExSledDb(sled::Db);

#[verifier::external_type_specification]
#[verifier::external_body]
pub struct ExTempDir(tempfile::TempDir);

/// What the spill database holds: a map from key bytes to value bytes.
pub uninterp spec fn sled_contents(db: sled::Db) -> Map<Seq<u8>, Seq<u8>>;

/// The empty spill mapping.
pub open spec fn empty_contents() -> Map<Seq<u8>, Seq<u8>> {
    Map::empty()
}

/// Relies on `sled::Db::contains_key`; stops the process on an I/O failure.
#[verifier::external_body]
fn sled_contains(db: &sled::Db, key: &Vec<u8>) -> (r: bool)
    ensures
        r == sled_contents(*db).dom().contains(key@),
{
    db.contains_key(key.as_slice()).expect("sled contains_key")
}

/// Relies on `sled::Db::get`: the value stored under the key, if any; stops
/// the process on an I/O failure.
#[verifier::external_body]
fn sled_get(db: &sled::Db, key: &Vec<u8>) -> (r: Option<Vec<u8>>)
    ensures
        match r {
            Some(v) => sled_contents(*db).dom().contains(key@) && v@ == sled_contents(*db)[key@],
            None => !sled_contents(*db).dom().contains(key@),
        },
{
    db.get(key.as_slice()).expect("sled get").map(|v| v.as_ref().to_vec())
}

/// Relies on `sled::Db::insert`: maps the key to the value, telling whether
/// a previous value was replaced; stops the process on an I/O failure.
#[verifier::external_body]
fn sled_insert(db: &mut sled::Db, key: &Vec<u8>, value: &Vec<u8>) -> (r: bool)
    ensures
        sled_contents(*final(db)) == sled_contents(*old(db)).insert(key@, value@),
        r == sled_contents(*old(db)).dom().contains(key@),
{
    db.insert(key.as_slice(), value.as_slice()).expect("failed to insert item to sled").is_some()
}

/// Relies on `sled::Db::remove`: drops the key, returning the value it
/// held, if any; stops the process on an I/O failure.
#[verifier::external_body]
fn sled_remove(db: &mut sled::Db, key: &Vec<u8>) -> (r: Option<Vec<u8>>)
    ensures
        sled_contents(*final(db)) == sled_contents(*old(db)).remove(key@),
        match r {
            Some(v) => sled_contents(*old(db)).dom().contains(key@) && v@ == sled_contents(
                *old(db),
            )[key@],
            None => !sled_contents(*old(db)).dom().contains(key@),
        },
{
    db.remove(key.as_slice()).expect("failed to remove item from sled").map(|v| v.as_ref().to_vec())
}

/// Relies on `tempfile::Builder::tempdir` and `sled::Config::open`: a fresh
/// key-value database opened in a brand-new temporary directory holds
/// nothing. Both calls stop the process on an I/O failure, as the node
/// cannot run without its spill store.
#[verifier::external_body]
fn open_backend() -> (r: SledBackend)
    ensures
        sled_contents(r.db) == empty_contents(),
        r.count == 0,
{
    let tmpdir = tempfile::Builder::new()
        .prefix("header-map-")
        .tempdir()
        .expect("failed to create a tempdir to save the header map into");
    let db = sled::Config::new()
        .path(tmpdir.path())
        .open()
        .expect("failed to open a key-value database to save the header map into");
    SledBackend { db, tmpdir, count: 0 }
}

/// The spill contents after storing the first `n` records of `values` in
/// order (a later record under the same key wins).
pub open spec fn batch_contents(
    m: Map<Seq<u8>, Seq<u8>>,
    values: Seq<HeaderIndexView>,
    n: int,
) -> Map<Seq<u8>, Seq<u8>>
    decreases n,
{
    if n <= 0 {
        m
    } else {
        batch_contents(m, values, n - 1).insert(
            values[n - 1].hash.bytes(),
            encode_view(values[n - 1]),
        )
    }
}

/// The spill tier: a key-value database in a temporary directory, keyed by
/// header hash, holding 64-byte header encodings, with a tracked count.
pub struct SledBackend {
    db: sled::Db,
    tmpdir: tempfile::TempDir,
    count: usize,
}

impl SledBackend {
    /// The stored mapping, for specifications.
    pub closed spec fn contents_view(self) -> Map<Seq<u8>, Seq<u8>> {
        sled_contents(self.db)
    }

    /// The tracked number of stored records, for specifications.
    pub closed spec fn count_view(self) -> int {
        self.count as int
    }

    /// Well-formed: every stored value is a 64-byte header encoding whose
    /// leading 32 bytes repeat the key, and the tracked count is the number
    /// of stored keys.
    pub open spec fn wf(self) -> bool {
        &&& (forall|k: Seq<u8>|
            #[trigger] self.contents_view().dom().contains(k) ==> self.contents_view()[k].len()
                == 64 && self.contents_view()[k].subrange(0, 32) == k)
        &&& self.contents_view().dom().finite()
        &&& self.count_view() == self.contents_view().dom().len()
    }

    /// A fresh, empty spill store.
    pub fn new() -> (r: SledBackend)
        ensures
            r.wf(),
            r.contents_view() == empty_contents(),
            r.count_view() == 0,
    {
        let r = open_backend();
        proof {
            assert forall|k: Seq<u8>| #[trigger]
                r.contents_view().dom().contains(k) implies r.contents_view()[k].len() == 64
                && r.contents_view()[k].subrange(0, 32) == k by {
                assert(!empty_contents().dom().contains(k));
            }
            assert(empty_contents().dom() =~= Set::<Seq<u8>>::empty());
        }
        r
    }

    /// The tracked number of stored records.
    pub fn len(&self) -> (r: usize)
        ensures
            r == self.count_view(),
    {
        self.count
    }

    /// Whether a record is stored under `key`.
    pub fn contains_key(&self, key: &Byte32) -> (r: bool)
        ensures
            r == self.contents_view().dom().contains(key.bytes()),
    {
        let key_bytes = key.to_bytes();
        sled_contains(&self.db, &key_bytes)
    }

    /// The record stored under `key`, if any.
    pub fn get(&self, key: &Byte32) -> (r: Option<HeaderIndexView>)
        requires
            self.wf(),
        ensures
            match r {
                Some(v) => self.contents_view().dom().contains(key.bytes()) && encode_view(v)
                    == self.contents_view()[key.bytes()],
                None => !self.contents_view().dom().contains(key.bytes()),
            },
    {
        let key_bytes = key.to_bytes();
        match sled_get(&self.db, &key_bytes) {
            Some(value) => {
                proof {
                    assert(self.contents_view().dom().contains(key.bytes()));
                    assert(value@.len() == 64);
                }
                Some(decode_header(&value))
            }
            None => None,
        }
    }

    /// Store one record under its hash.
    pub fn insert(&mut self, value: &HeaderIndexView) -> (r: bool)
        requires
            old(self).wf(),
            old(self).count_view() < usize::MAX,
        ensures
            final(self).wf(),
            final(self).contents_view() == old(self).contents_view().insert(
                value.hash.bytes(),
                encode_view(*value),
            ),
            r == old(self).contents_view().dom().contains(value.hash.bytes()),
            final(self).count_view() == old(self).count_view() + if r {
                0int
            } else {
                1int
            },
    {
        let key_bytes = value.hash.to_bytes();
        let encoded = encode_header(value);
        let was_there = sled_insert(&mut self.db, &key_bytes, &encoded);
        if !was_there {
            self.count = self.count + 1;
        }
        proof {
            assert(encode_view(*value).subrange(0, 32) =~= value.hash.bytes());
            assert forall|k: Seq<u8>|
                #[trigger] self.contents_view().dom().contains(k) implies self.contents_view()[k]
                .len() == 64 && self.contents_view()[k].subrange(0, 32) == k by {
                if k != value.hash.bytes() {
                    assert(old(self).contents_view().dom().contains(k));
                }
            }
        }
        was_there
    }

    /// Store several records in order; a later record under the same hash
    /// wins.
    pub fn insert_batch(&mut self, values: &Vec<HeaderIndexView>)
        requires
            old(self).wf(),
            old(self).count_view() + values@.len() <= usize::MAX,
        ensures
            final(self).wf(),
            final(self).contents_view() == batch_contents(
                old(self).contents_view(),
                values@,
                values@.len() as int,
            ),
            forall|i: int|
                0 <= i < values@.len() ==> final(self).contents_view().dom().contains(
                    (#[trigger] values@[i]).hash.bytes(),
                ),
            final(self).count_view() <= old(self).count_view() + values@.len(),
    {
        let mut i: usize = 0;
        while i < values.len()
            invariant
                self.wf(),
                0 <= i <= values@.len(),
                self.count_view() <= old(self).count_view() + i,
                old(self).count_view() + values@.len() <= usize::MAX,
                self.contents_view() == batch_contents(
                    old(self).contents_view(),
                    values@,
                    i as int,
                ),
                forall|j: int|
                    0 <= j < i ==> self.contents_view().dom().contains(
                        (#[trigger] values@[j]).hash.bytes(),
                    ),
            decreases values@.len() - i,
        {
            let ghost pre = self.contents_view();
            self.insert(&values[i]);
            proof {
                assert forall|j: int| 0 <= j < i + 1 implies self.contents_view().dom().contains(
                    (#[trigger] values@[j]).hash.bytes(),
                ) by {
                    if j < i {
                        assert(pre.dom().contains(values@[j].hash.bytes()));
                    }
                }
            }
            i += 1;
        }
    }

    /// Drop and return the record under `key`.
    pub fn remove(&mut self, key: &Byte32) -> (r: Option<HeaderIndexView>)
        requires
            old(self).wf(),
        ensures
            final(self).wf(),
            final(self).contents_view() == old(self).contents_view().remove(key.bytes()),
            match r {
                Some(v) => old(self).contents_view().dom().contains(key.bytes()) && encode_view(v)
                    == old(self).contents_view()[key.bytes()] && final(self).count_view() == old(
                    self,
                ).count_view() - 1,
                None => !old(self).contents_view().dom().contains(key.bytes()) && final(self).count_view() == old(self).count_view(),
            },
            final(self).count_view() >= 0,
    {
        let key_bytes = key.to_bytes();
        let ghost pre = old(self).contents_view();
        let r = match sled_remove(&mut self.db, &key_bytes) {
            Some(value) => {
                proof {
                    assert(pre.dom().contains(key.bytes()));
                    assert(value@.len() == 64);
                }
                if self.count > 0 {
                    self.count = self.count - 1;
                }
                Some(decode_header(&value))
            }
            None => None,
        };
        proof {
            assert forall|k: Seq<u8>| #[trigger]
                self.contents_view().dom().contains(k) implies self.contents_view()[k].len() == 64
                && self.contents_view()[k].subrange(0, 32) == k by {
                assert(pre.dom().contains(k));
            }
        }
        r
    }

    /// Drop the record under `key` without decoding it.
    pub fn remove_no_return(&mut self, key: &Byte32)
        requires
            old(self).wf(),
        ensures
            final(self).wf(),
            final(self).contents_view() == old(self).contents_view().remove(key.bytes()),
            final(self).count_view() == old(self).count_view() - (
            if old(self).contents_view().dom().contains(key.bytes()) {
                1int
            } else {
                0int
            }),
    {
        self.remove(key);
    }
}

/// Whether some record of the memory tier has hash `h`.
pub open spec fn mem_has(s: Seq<HeaderIndexView>, h: Byte32) -> bool {
    exists|i: int| 0 <= i < s.len() && s[i].hash == h
}

/// Whether some record of the memory tier is exactly `v`.
pub open spec fn mem_holds(s: Seq<HeaderIndexView>, v: HeaderIndexView) -> bool {
    exists|i: int| 0 <= i < s.len() && s[i] == v
}

/// The two-tier header index: a bounded in-memory tier in front of the
/// spill store. On insert, an over-full memory tier evicts its oldest
/// record to disk; on a memory miss, a record found on disk is promoted
/// back into memory.
///
/// Recency here is arrival order, refreshed only by promotion (a memory hit
/// does not reorder), and each eviction spills one record on the spot; the
/// running node batches spills and ages by access time, a scheduling
/// difference with no bearing on which records are held. `SledBackend`'s
/// `insert_batch` serves the bulk flushes (a shutdown, a timer tick) that a
/// driver issues.
pub struct HeaderMap {
    memory: Vec<HeaderIndexView>,
    backend: SledBackend,
    memory_limit: usize,
}

impl HeaderMap {
    /// The memory tier, for specifications.
    pub closed spec fn memory_view(self) -> Seq<HeaderIndexView> {
        self.memory@
    }

    /// The spill tier, for specifications.
    pub closed spec fn spill_view(self) -> Map<Seq<u8>, Seq<u8>> {
        self.backend.contents_view()
    }

    /// The memory tier's capacity.
    pub closed spec fn limit_view(self) -> int {
        self.memory_limit as int
    }

    /// The tracked number of spilled records.
    pub closed spec fn spill_count_view(self) -> int {
        self.backend.count_view()
    }

    /// Whether the spill tier is well-formed.
    pub closed spec fn spill_wf(self) -> bool {
        self.backend.wf()
    }

    /// Whether a header with hash `h` is known to either tier.
    pub open spec fn has_header(self, h: Byte32) -> bool {
        mem_has(self.memory_view(), h) || self.spill_view().dom().contains(h.bytes())
    }

    /// Whether the record `v` is held exactly as inserted: in the memory
    /// tier by value, or in the spill tier as its 64-byte encoding.
    pub open spec fn known_rec(self, v: HeaderIndexView) -> bool {
        mem_holds(self.memory_view(), v) || (self.spill_view().dom().contains(v.hash.bytes())
            && self.spill_view()[v.hash.bytes()] == encode_view(v))
    }

    /// Well-formed: the memory tier fits its bound and holds unique hashes,
    /// the spill tier holds valid encodings, and no hash sits in both tiers.
    pub open spec fn wf(self) -> bool {
        &&& self.limit_view() >= 1
        &&& self.memory_view().len() <= self.limit_view()
        &&& (forall|i: int, j: int|
            0 <= i < j < self.memory_view().len() ==> self.memory_view()[i].hash
                != self.memory_view()[j].hash)
        &&& self.spill_wf()
        &&& (forall|i: int|
            0 <= i < self.memory_view().len() ==> !self.spill_view().dom().contains(
                (#[trigger] self.memory_view()[i]).hash.bytes(),
            ))
    }

    /// An empty two-tier map whose memory tier holds up to `memory_limit`
    /// records.
    pub fn new(memory_limit: usize) -> (r: HeaderMap)
        requires
            memory_limit >= 1,
        ensures
            r.wf(),
            r.memory_view() == Seq::<HeaderIndexView>::empty(),
            forall|h: Byte32| !r.has_header(h),
    {
        let r = HeaderMap { memory: Vec::new(), backend: SledBackend::new(), memory_limit };
        proof {
            assert(r.memory_view() =~= Seq::<HeaderIndexView>::empty());
        }
        r
    }

    fn find_in_memory(&self, h: &Byte32) -> (r: Option<usize>)
        ensures
            match r {
                Some(i) => 0 <= i < self.memory_view().len() && self.memory_view()[i as int].hash
                    == h,
                None => !mem_has(self.memory_view(), *h),
            },
    {
        let mut i: usize = 0;
        while i < self.memory.len()
            invariant
                0 <= i <= self.memory@.len(),
                forall|j: int| 0 <= j < i ==> self.memory@[j].hash != h,
            decreases self.memory@.len() - i,
        {
            if self.memory[i].hash == *h {
                return Some(i);
            }
            i += 1;
        }
        None
    }

    /// Whether a header with hash `h` is known to either tier.
    pub fn contains_key(&self, h: &Byte32) -> (r: bool)
        ensures
            r == self.has_header(*h),
    {
        if self.find_in_memory(h).is_some() {
            true
        } else {
            self.backend.contains_key(h)
        }
    }

    /// Total number of records over both tiers.
    pub fn len(&self) -> (r: u64)
        requires
            self.memory_view().len() + self.spill_count_view() <= u64::MAX,
        ensures
            r == self.memory_view().len() + self.spill_count_view(),
    {
        self.memory.len() as u64 + self.backend.len() as u64
    }

    /// Put `view` into the memory tier, spilling the oldest record when the
    /// tier is over its bound.
    fn place_in_memory(&mut self, view: HeaderIndexView)
        requires
            old(self).wf(),
            !old(self).has_header(view.hash),
            old(self).spill_count_view() < usize::MAX,
        ensures
            final(self).wf(),
            final(self).limit_view() == old(self).limit_view(),
            final(self).has_header(view.hash),
            mem_has(final(self).memory_view(), view.hash),
            forall|h: Byte32|
                #[trigger] final(self).has_header(h) <==> (old(self).has_header(h) || h
                    == view.hash),
            final(self).known_rec(view),
            forall|v: HeaderIndexView|
                #[trigger] final(self).known_rec(v) <==> (old(self).known_rec(v) || v == view),
    {
        let ghost m0 = self.memory@;
        self.memory.push(view);
        proof {
            assert(self.memory@[m0.len() as int] == view);
            assert forall|i: int, j: int| 0 <= i < j < self.memory@.len() implies
                self.memory@[i].hash != self.memory@[j].hash by {
                if j < m0.len() {
                    assert(self.memory@[i] == m0[i] && self.memory@[j] == m0[j]);
                } else {
                    assert(self.memory@[i] == m0[i] && self.memory@[j] == view);
                    if m0[i].hash == view.hash {
                        assert(mem_has(m0, view.hash));
                    }
                }
            }
        }
        if self.memory.len() > self.memory_limit {
            let ghost m1 = self.memory@;
            let oldest = self.memory.remove(0);
            let ghost m2 = self.memory@;
            proof {
                assert(oldest == m1[0]);
                assert(m2 =~= m1.subrange(1, m1.len() as int));
            }
            self.backend.insert(&oldest);
            proof {
                assert(m2[m2.len() - 1] == m1[m1.len() - 1]);
                assert(m2[m2.len() - 1] == view);
                assert(mem_has(m2, view.hash));
                assert forall|i: int, j: int| 0 <= i < j < m2.len() implies m2[i].hash
                    != m2[j].hash by {
                    assert(m2[i] == m1[i + 1] && m2[j] == m1[j + 1]);
                }
                assert forall|i: int|
                    0 <= i < m2.len() implies !self.backend.contents_view().dom().contains(
                    (#[trigger] m2[i]).hash.bytes(),
                ) by {
                    assert(m2[i] == m1[i + 1]);
                    if m2[i].hash.bytes() == oldest.hash.bytes() {
                        lemma_byte32_bytes_injective(m2[i].hash, oldest.hash);
                        assert(m1[i + 1].hash != m1[0].hash);
                    }
                }
                assert forall|h: Byte32|
                    #![trigger h.bytes()]
                    (mem_has(m2, h) || self.backend.contents_view().dom().contains(
                        h.bytes(),
                    )) <==> (mem_has(m0, h) || old(self).spill_view().dom().contains(h.bytes())
                    || h == view.hash) by {
                    if mem_has(m2, h) {
                        let i = choose|i: int| 0 <= i < m2.len() && m2[i].hash == h;
                        assert(m1[i + 1].hash == h);
                        if i + 1 < m0.len() {
                            assert(m0[i + 1].hash == h);
                        }
                    }
                    if self.backend.contents_view().dom().contains(h.bytes()) && h.bytes()
                        != oldest.hash.bytes() {
                        assert(old(self).spill_view().dom().contains(h.bytes()));
                    }
                    if h.bytes() == oldest.hash.bytes() {
                        lemma_byte32_bytes_injective(h, oldest.hash);
                    }
                    if mem_has(m0, h) {
                        let i = choose|i: int| 0 <= i < m0.len() && m0[i].hash == h;
                        if i == 0 {
                            assert(h == oldest.hash);
                            assert(self.backend.contents_view().dom().contains(h.bytes()));
                        } else {
                            assert(m1[i] == m0[i]);
                            assert(m2[i - 1].hash == h);
                        }
                    }
                    if h == view.hash {
                        assert(m1[m1.len() - 1] == view);
                        assert(m2[m2.len() - 1] == view);
                    }
                    if old(self).spill_view().dom().contains(h.bytes()) {
                        assert(self.backend.contents_view().dom().contains(h.bytes()));
                    }
                }
                // the same moves, record for record
                assert(mem_holds(m2, view)) by {
                    assert(m2[m2.len() - 1] == view);
                }
                assert forall|v: HeaderIndexView|
                    #![trigger v.hash.bytes()]
                    (mem_holds(m2, v) || (self.backend.contents_view().dom().contains(
                        v.hash.bytes(),
                    ) && self.backend.contents_view()[v.hash.bytes()] == encode_view(v))) <==> ((
                    mem_holds(m0, v) || (old(self).spill_view().dom().contains(v.hash.bytes())
                        && old(self).spill_view()[v.hash.bytes()] == encode_view(v))) || v
                    == view) by {
                    let k = v.hash.bytes();
                    let ok = oldest.hash.bytes();
                    if mem_holds(m2, v) {
                        let i = choose|i: int| 0 <= i < m2.len() && m2[i] == v;
                        assert(m1[i + 1] == v);
                        if i + 1 < m0.len() {
                            assert(m0[i + 1] == v);
                        }
                    }
                    if self.backend.contents_view().dom().contains(k)
                        && self.backend.contents_view()[k] == encode_view(v) {
                        if k == ok {
                            assert(self.backend.contents_view()[k] == encode_view(oldest));
                            lemma_encode_injective(v, oldest);
                            assert(m0[0] == v);
                            assert(mem_holds(m0, v));
                        } else {
                            assert(old(self).spill_view().dom().contains(k));
                            assert(old(self).spill_view()[k] == encode_view(v));
                        }
                    }
                    if v == view {
                        assert(mem_holds(m2, view));
                    }
                    if mem_holds(m0, v) {
                        let i = choose|i: int| 0 <= i < m0.len() && m0[i] == v;
                        if i == 0 {
                            assert(v == oldest);
                            assert(self.backend.contents_view()[ok] == encode_view(oldest));
                        } else {
                            assert(m1[i] == m0[i]);
                            assert(m2[i - 1] == v);
                        }
                    }
                    if old(self).spill_view().dom().contains(k) && old(self).spill_view()[k]
                        == encode_view(v) {
                        assert(k != ok) by {
                            if k == ok {
                                lemma_byte32_bytes_injective(v.hash, oldest.hash);
                                assert(mem_has(m0, oldest.hash)) by {
                                    assert(m0[0].hash == oldest.hash);
                                }
                                assert(old(self).has_header(oldest.hash));
                            }
                        }
                        assert(self.backend.contents_view()[k] == encode_view(v));
                    }
                }
            }
        } else {
            proof {
                assert forall|h: Byte32|
                    #![trigger h.bytes()]
                    (mem_has(self.memory@, h)
                        || self.backend.contents_view().dom().contains(h.bytes())) <==> (mem_has(
                        m0,
                        h,
                    ) || old(self).spill_view().dom().contains(h.bytes()) || h == view.hash) by {
                    if mem_has(self.memory@, h) {
                        let i = choose|i: int|
                            0 <= i < self.memory@.len() && self.memory@[i].hash == h;
                        if i < m0.len() {
                            assert(m0[i].hash == h);
                        }
                    }
                    if mem_has(m0, h) {
                        let i = choose|i: int| 0 <= i < m0.len() && m0[i].hash == h;
                        assert(self.memory@[i].hash == h);
                    }
                    if h == view.hash {
                        assert(self.memory@[m0.len() as int] == view);
                    }
                }
                assert forall|v: HeaderIndexView|
                    #![trigger v.hash.bytes()]
                    (mem_holds(self.memory@, v) || (self.backend.contents_view().dom().contains(
                        v.hash.bytes(),
                    ) && self.backend.contents_view()[v.hash.bytes()] == encode_view(v))) <==> ((
                    mem_holds(m0, v) || (old(self).spill_view().dom().contains(v.hash.bytes())
                        && old(self).spill_view()[v.hash.bytes()] == encode_view(v))) || v
                    == view) by {
                    if mem_holds(self.memory@, v) {
                        let i = choose|i: int|
                            0 <= i < self.memory@.len() && self.memory@[i] == v;
                        if i < m0.len() {
                            assert(m0[i] == v);
                        }
                    }
                    if mem_holds(m0, v) {
                        let i = choose|i: int| 0 <= i < m0.len() && m0[i] == v;
                        assert(self.memory@[i] == v);
                    }
                    if v == view {
                        assert(self.memory@[m0.len() as int] == view);
                    }
                }
            }
        }
    }

    /// Insert a header record; a record already known under its hash is
    /// left as it is.
    pub fn insert(&mut self, view: HeaderIndexView) -> (r: bool)
        requires
            old(self).wf(),
            old(self).spill_count_view() < usize::MAX,
        ensures
            final(self).wf(),
            final(self).limit_view() == old(self).limit_view(),
            r == !old(self).has_header(view.hash),
            final(self).has_header(view.hash),
            forall|h: Byte32|
                #[trigger] final(self).has_header(h) <==> (old(self).has_header(h) || h
                    == view.hash),
            r ==> final(self).known_rec(view),
            forall|v: HeaderIndexView|
                #[trigger] final(self).known_rec(v) <==> (old(self).known_rec(v) || (r && v
                    == view)),
    {
        if self.contains_key(&view.hash) {
            return false;
        }
        self.place_in_memory(view);
        true
    }

    /// Look a header up by hash; a record found only on disk is promoted
    /// back into the memory tier.
    pub fn get(&mut self, h: &Byte32) -> (r: Option<HeaderIndexView>)
        requires
            old(self).wf(),
            old(self).spill_count_view() < usize::MAX,
        ensures
            final(self).wf(),
            final(self).limit_view() == old(self).limit_view(),
            match r {
                Some(v) => old(self).has_header(*h) && v.hash == h && old(self).known_rec(v),
                None => !old(self).has_header(*h),
            },
            forall|h2: Byte32| #[trigger] final(self).has_header(h2) == old(self).has_header(h2),
            forall|v: HeaderIndexView|
                #[trigger] final(self).known_rec(v) == old(self).known_rec(v),
    {
        match self.find_in_memory(h) {
            Some(i) => {
                proof {
                    assert(mem_holds(self.memory@, self.memory@[i as int])) by {
                        assert(self.memory@[i as int] == self.memory@[i as int]);
                    }
                }
                Some(self.memory[i])
            }
            None => {
                match self.backend.get(h) {
                    Some(v) => {
                        proof {
                            assert(encode_view(v).subrange(0, 32) =~= v.hash.bytes());
                            assert(v.hash.bytes() == h.bytes());
                            lemma_byte32_bytes_injective(v.hash, *h);
                        }
                        self.backend.remove_no_return(h);
                        proof {
                            assert forall|i: int|
                                0 <= i < self.memory@.len() implies !self.backend.contents_view()
                                .dom().contains((#[trigger] self.memory@[i]).hash.bytes()) by {
                                assert(!old(self).spill_view().remove(h.bytes()).dom().contains(
                                    self.memory@[i].hash.bytes(),
                                ));
                            }
                        }
                        let ghost mid = *self;
                        self.place_in_memory(v);
                        proof {
                            assert forall|h2: Byte32| #[trigger]
                                self.has_header(h2) == old(self).has_header(h2) by {
                                assert(self.has_header(h2) <==> (mid.has_header(h2) || h2
                                    == v.hash));
                                if h2.bytes() == h.bytes() {
                                    lemma_byte32_bytes_injective(h2, *h);
                                }
                            }
                            // the promoted record only changed tiers
                            assert(old(self).known_rec(v)) by {
                                assert(old(self).spill_view()[v.hash.bytes()] == encode_view(v));
                            }
                            assert forall|v2: HeaderIndexView| #[trigger]
                                self.known_rec(v2) == old(self).known_rec(v2) by {
                                assert(self.known_rec(v2) <==> (mid.known_rec(v2) || v2 == v));
                                assert(mid.memory_view() == old(self).memory_view());
                                assert(mid.spill_view() == old(self).spill_view().remove(
                                    h.bytes(),
                                ));
                                if old(self).known_rec(v2) && !mem_holds(
                                    old(self).memory_view(),
                                    v2,
                                ) && v2.hash.bytes() == h.bytes() {
                                    assert(old(self).spill_view()[v2.hash.bytes()] == encode_view(
                                        v2,
                                    ));
                                    lemma_encode_injective(v2, v);
                                }
                            }
                        }
                        Some(v)
                    }
                    None => None,
                }
            }
        }
    }

    /// Forget the header under `h`, wherever it sits.
    pub fn remove(&mut self, h: &Byte32)
        requires
            old(self).wf(),
        ensures
            final(self).wf(),
            final(self).limit_view() == old(self).limit_view(),
            !final(self).has_header(*h),
            forall|h2: Byte32|
                #[trigger] final(self).has_header(h2) <==> (old(self).has_header(h2) && h2 != h),
            forall|v: HeaderIndexView|
                #[trigger] final(self).known_rec(v) <==> (old(self).known_rec(v) && v.hash != h),
    {
        let ghost m0 = self.memory@;
        match self.find_in_memory(h) {
            Some(i) => {
                self.memory.remove(i);
                proof {
                    let m2 = self.memory@;
                    assert(m2 =~= m0.remove(i as int));
                    assert forall|a: int, b: int| 0 <= a < b < m2.len() implies m2[a].hash
                        != m2[b].hash by {
                        let a2: int = if a < i {
                            a
                        } else {
                            a + 1
                        };
                        let b2: int = if b < i {
                            b
                        } else {
                            b + 1
                        };
                        assert(m2[a] == m0[a2] && m2[b] == m0[b2]);
                    }
                    assert forall|j: int|
                        0 <= j < m2.len() implies !self.backend.contents_view().dom().contains(
                        (#[trigger] m2[j]).hash.bytes(),
                    ) by {
                        if j < i {
                            assert(m2[j] == m0[j]);
                        } else {
                            assert(m2[j] == m0[j + 1]);
                        }
                    }
                    assert forall|h2: Byte32|
                        #![trigger h2.bytes()]
                        (mem_has(m2, h2) || self.backend.contents_view()
                            .dom().contains(h2.bytes())) <==> ((mem_has(m0, h2)
                            || old(self).spill_view().dom().contains(h2.bytes())) && h2 != h) by {
                        if mem_has(m2, h2) {
                            let j = choose|j: int| 0 <= j < m2.len() && m2[j].hash == h2;
                            if j < i {
                                assert(m0[j].hash == h2);
                                assert(m0[i as int].hash != m0[j].hash || i == j);
                            } else {
                                assert(m0[j + 1].hash == h2);
                            }
                        }
                        if self.backend.contents_view().dom().contains(h2.bytes()) {
                            if h2 == *h {
                                assert(mem_has(m0, *h)) by {
                                    assert(m0[i as int].hash == *h);
                                }
                            }
                        }
                        if mem_has(m0, h2) && h2 != h {
                            let j = choose|j: int| 0 <= j < m0.len() && m0[j].hash == h2;
                            assert(j != i);
                            if j < i {
                                assert(m2[j].hash == h2);
                            } else {
                                assert(m2[j - 1].hash == h2);
                            }
                        }
                    }
                }
            }
            None => {
                self.backend.remove_no_return(h);
                proof {
                    assert forall|j: int|
                        0 <= j < self.memory@.len() implies !self.backend.contents_view()
                        .dom().contains((#[trigger] self.memory@[j]).hash.bytes()) by {
                        assert(!old(self).spill_view().remove(h.bytes()).dom().contains(
                            self.memory@[j].hash.bytes(),
                        ));
                    }
                    assert forall|h2: Byte32|
                        #![trigger h2.bytes()]
                        (mem_has(self.memory@, h2) || self.backend.contents_view()
                            .dom().contains(h2.bytes())) <==> ((mem_has(m0, h2)
                            || old(self).spill_view().dom().contains(h2.bytes())) && h2 != h) by {
                        if h2.bytes() == h.bytes() {
                            lemma_byte32_bytes_injective(h2, *h);
                        }
                    }
                }
            }
        }
    }
}

} // verus!
