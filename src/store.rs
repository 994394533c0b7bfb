//! The content-addressed file store: keys, on-disk layout, and the index of
//! known blobs with the decisions taken on each access. Reading and writing
//! the blobs themselves is left to the caller, who reports what it saw.
use vstd::prelude::*;
use crate::text::hex_of;

verus! {

/// How long, in seconds, a blob is kept after an access.
pub const PERSISTENCY_DURATION: i64 = 600;

/// Length in bytes of a key: a BLAKE2b-512 digest.
pub const KEY_LEN: usize = 64;

/// The BLAKE2b-512 digest of a byte sequence.
pub uninterp spec fn blake2b_512(data: Seq<u8>) -> Seq<u8>;

/// Relies on `blake2::Blake2b512::digest`: the BLAKE2b digest with a 64-byte
/// output.
#[verifier::external_body]
fn blake2b_digest(data: &[u8]) -> (r: Vec<u8>)
    ensures
        r@ == blake2b_512(data@),
        r@.len() == 64,
{
    <blake2::Blake2b512 as blake2::Digest>::digest(data).to_vec()
}

/// Relies on `hex::encode`: two lowercase hexadecimal digits per byte, most
/// significant nibble first.
#[verifier::external_body]
pub(crate) fn hex_encode(data: &[u8]) -> (r: String)
    ensures
        r@ == hex_of(data@),
{
    hex::encode(data)
}

/// The key of a blob: the hash of its bytes.
#[derive(Debug)]
pub struct FileStoreKey {
    hash: Vec<u8>,
}

impl Clone for FileStoreKey {
    fn clone(&self) -> (r: FileStoreKey)
        ensures
            r@ == self@,
    {
        let mut hash: Vec<u8> = Vec::new();
        let mut i: usize = 0;
        while i < self.hash.len()
            invariant
                0 <= i <= self.hash@.len(),
                hash@ == self.hash@.subrange(0, i as int),
            decreases self.hash@.len() - i,
        {
            hash.push(self.hash[i]);
            i = i + 1;
            assert(hash@ =~= self.hash@.subrange(0, i as int));
        }
        assert(hash@ =~= self.hash@);
        FileStoreKey { hash }
    }
}

impl View for FileStoreKey {
    type V = Seq<u8>;

    open spec fn view(&self) -> Seq<u8> {
        self.hash_view()
    }
}

impl FileStoreKey {
    pub closed spec fn hash_view(&self) -> Seq<u8> {
        self.hash@
    }

    /// The key of the given bytes.
    pub fn from_content(data: &[u8]) -> (r: FileStoreKey)
        ensures
            r@ == blake2b_512(data@),
            r@.len() == KEY_LEN,
    {
        FileStoreKey { hash: blake2b_digest(data) }
    }

    /// A key from a hash computed elsewhere; `None` unless it has the
    /// length of a digest.
    pub fn from_hash(hash: Vec<u8>) -> (r: Option<FileStoreKey>)
        ensures
            hash@.len() == KEY_LEN ==> r is Some && r->0@ == hash@,
            hash@.len() != KEY_LEN ==> r is None,
    {
        if hash.len() == KEY_LEN {
            Some(FileStoreKey { hash })
        } else {
            None
        }
    }

    /// The raw bytes of the hash.
    pub fn hash(&self) -> (r: &Vec<u8>)
        ensures
            r@ == self@,
    {
        &self.hash
    }

    /// The key as lowercase hexadecimal text.
    pub fn to_string(&self) -> (r: String)
        ensures
            r@ == hex_of(self@),
    {
        hex_encode(self.hash.as_slice())
    }

    /// Whether two keys are equal, byte by byte.
    pub fn same(&self, other: &FileStoreKey) -> (r: bool)
        ensures
            r == (self@ == other@),
    {
        if self.hash.len() != other.hash.len() {
            return false;
        }
        let mut i: usize = 0;
        while i < self.hash.len()
            invariant
                self.hash@.len() == other.hash@.len(),
                0 <= i <= self.hash@.len(),
                forall|j: int| 0 <= j < i ==> self.hash@[j] == other.hash@[j],
            decreases self.hash@.len() - i,
        {
            if self.hash[i] != other.hash[i] {
                return false;
            }
            i = i + 1;
        }
        assert(self.hash@ =~= other.hash@);
        true
    }
}

impl PartialEq for FileStoreKey {
    fn eq(&self, other: &FileStoreKey) -> (r: bool)
        ensures
            r == (self@ == other@),
    {
        self.same(other)
    }
}

impl vstd::std_specs::cmp::PartialEqSpecImpl for FileStoreKey {
    open spec fn obeys_eq_spec() -> bool {
        true
    }

    open spec fn eq_spec(&self, other: &FileStoreKey) -> bool {
        self@ == other@
    }
}

/// The on-disk path of a blob, relative to the store root:
/// `<hex of byte 0>/<hex of byte 1>/<hex of the whole key>`.
pub open spec fn blob_path(root: Seq<char>, key: Seq<u8>) -> Seq<char> {
    root + seq!['/'] + hex_of(seq![key[0]]) + seq!['/'] + hex_of(seq![key[1]]) + seq!['/']
        + hex_of(key)
}

/// A blob known to the store and the moment (seconds since the epoch)
/// until which it must be kept.
#[derive(Clone, Debug)]
pub struct FileStoreItem {
    pub key: FileStoreKey,
    pub persistent: i64,
}

/// A marker held while a blob is in use: it names the blob and its path.
#[derive(Clone, Debug)]
pub struct FileStoreHandle {
    pub key: FileStoreKey,
    pub path: String,
}

/// Errors of the store.
#[derive(Clone, Copy, Debug, PartialEq, Eq)]
pub enum FileStoreError {
    InvalidPath,
    NotFound,
}

/// What the caller found on disk for a blob.
#[derive(Clone, Copy, Debug, PartialEq, Eq)]
pub enum BlobState {
    /// No file at the blob's path.
    Missing,
    /// A file whose bytes do not hash to its key: it must be unlinked.
    Corrupted,
    /// A file that can be trusted.
    Present,
}

/// What `store` asks the caller to do with the incoming bytes.
#[derive(Clone, Copy, Debug, PartialEq, Eq)]
pub enum StoreAction {
    /// Write the bytes to the blob's path and mark it read-only.
    Write,
    /// The blob is already there: read the stream to its end, write nothing.
    ConsumeOnly,
}

/// The index of a store rooted at a directory.
#[derive(Debug)]
pub struct FileStore {
    base_path: String,
    items: Vec<FileStoreItem>,
}

/// Whether `key` is in the list of items.
pub open spec fn items_hold(items: Seq<FileStoreItem>, key: Seq<u8>) -> bool {
    exists|i: int| 0 <= i < items.len() && #[trigger] items[i].key@ == key
}

/// Every key appears at most once.
pub open spec fn items_unique(items: Seq<FileStoreItem>) -> bool {
    forall|i: int, j: int|
        0 <= i < items.len() && 0 <= j < items.len() && #[trigger] items[i].key@
            == #[trigger] items[j].key@ ==> i == j
}

/// The deadline recorded for `key`, in a list that holds it once.
pub open spec fn deadline_in(items: Seq<FileStoreItem>, key: Seq<u8>) -> i64 {
    items[choose|i: int| 0 <= i < items.len() && #[trigger] items[i].key@ == key].persistent
}

/// Whether a file can be trusted: if its creation and modification times
/// agree it is, otherwise its bytes must hash to its key.
pub open spec fn intact(key: Seq<u8>, times_agree: bool, rehashed: Option<Seq<u8>>) -> bool {
    times_agree || (rehashed is Some && rehashed->0 == key)
}

/// The state of a blob, from what was seen on disk.
pub open spec fn blob_state(exists: bool, is_intact: bool) -> BlobState {
    if !exists {
        BlobState::Missing
    } else if !is_intact {
        BlobState::Corrupted
    } else {
        BlobState::Present
    }
}

/// Checks whether a file on disk can be trusted as the blob `key`.
/// `rehashed` is the key of its current bytes, `None` when unreadable.
pub fn check_integrity(key: &FileStoreKey, times_agree: bool, rehashed: Option<&FileStoreKey>) -> (r: bool)
    ensures
        r == intact(key@, times_agree, match rehashed { Some(k) => Some(k@), None => None }),
{
    if times_agree {
        return true;
    }
    match rehashed {
        Some(k) => k.same(key),
        None => false,
    }
}

fn blob_state_of(exists: bool, is_intact: bool) -> (r: BlobState)
    ensures
        r == blob_state(exists, is_intact),
{
    if !exists {
        BlobState::Missing
    } else if !is_intact {
        BlobState::Corrupted
    } else {
        BlobState::Present
    }
}

impl FileStore {
    pub closed spec fn root(&self) -> Seq<char> {
        self.base_path@
    }

    pub closed spec fn entries(&self) -> Seq<FileStoreItem> {
        self.items@
    }

    /// The index holds `key`.
    pub open spec fn holds(&self, key: Seq<u8>) -> bool {
        items_hold(self.entries(), key)
    }

    /// The deadline recorded for `key`.
    pub open spec fn deadline(&self, key: Seq<u8>) -> i64 {
        deadline_in(self.entries(), key)
    }

    pub open spec fn wf(&self) -> bool {
        &&& items_unique(self.entries())
        &&& forall|i: int| 0 <= i < self.entries().len() ==> (#[trigger] self.entries()[i]).key@.len() == KEY_LEN
    }

    /// An empty index for a store rooted at `base_path`.
    pub fn new(base_path: String) -> (r: FileStore)
        ensures
            r.wf(),
            r.root() == base_path@,
            r.entries().len() == 0,
    {
        FileStore { base_path, items: Vec::new() }
    }

    /// The root directory of the store.
    pub fn base_path(&self) -> (r: &String)
        ensures
            r@ == self.root(),
    {
        &self.base_path
    }

    /// The items of the index, to be saved by the caller.
    pub fn items(&self) -> (r: &Vec<FileStoreItem>)
        ensures
            r@ == self.entries(),
    {
        &self.items
    }

    /// Position of `key` in the index, if it is there.
    fn find(&self, key: &FileStoreKey) -> (r: Option<usize>)
        ensures
            r is Some ==> r->0 < self.entries().len() && self.entries()[r->0 as int].key@ == key@,
            r is None ==> !self.holds(key@),
    {
        let mut i: usize = 0;
        while i < self.items.len()
            invariant
                0 <= i <= self.items@.len(),
                forall|j: int| 0 <= j < i ==> self.items@[j].key@ != key@,
            decreases self.items@.len() - i,
        {
            if self.items[i].key.same(key) {
                return Some(i);
            }
            i = i + 1;
        }
        None
    }

    /// Whether the index knows `key`.
    pub fn contains(&self, key: &FileStoreKey) -> (r: bool)
        ensures
            r == self.holds(key@),
    {
        self.find(key).is_some()
    }

    /// Set the deadline of `key` to `now + PERSISTENCY_DURATION`, adding the
    /// key to the index if needed.
    pub fn touch(&mut self, key: &FileStoreKey, now: i64)
        requires
            old(self).wf(),
            key@.len() == KEY_LEN,
            now <= i64::MAX - PERSISTENCY_DURATION,
        ensures
            final(self).wf(),
            final(self).root() == old(self).root(),
            final(self).holds(key@),
            final(self).deadline(key@) == now + PERSISTENCY_DURATION,
            forall|k: Seq<u8>| k != key@ ==> (final(self).holds(k) == old(self).holds(k)),
            forall|k: Seq<u8>| k != key@ && old(self).holds(k) ==> final(self).deadline(k) == old(self).deadline(k),
    {
        self.set_deadline(key, now + PERSISTENCY_DURATION);
    }

    /// Record `target` as the deadline of `key`, adding the key to the index
    /// if needed (as when the index is read back from disk).
    pub fn set_deadline(&mut self, key: &FileStoreKey, target: i64)
        requires
            old(self).wf(),
            key@.len() == KEY_LEN,
        ensures
            final(self).wf(),
            final(self).root() == old(self).root(),
            final(self).holds(key@),
            final(self).deadline(key@) == target,
            forall|k: Seq<u8>| k != key@ ==> (final(self).holds(k) == old(self).holds(k)),
            forall|k: Seq<u8>| k != key@ && old(self).holds(k) ==> final(self).deadline(k) == old(self).deadline(k),
    {
        match self.find(key) {
            Some(i) => {
                let ghost before = self.items@;
                let k = self.items[i].key.clone();
                self.items.set(i, FileStoreItem { key: k, persistent: target });
                assert forall|k: Seq<u8>| k != key@ && items_hold(before, k) implies
                    items_hold(self.items@, k) && deadline_in(self.items@, k) == deadline_in(before, k) by {
                    let j = choose|j: int| 0 <= j < before.len() && #[trigger] before[j].key@ == k;
                    assert(self.items@[j].key@ == k);
                    let c = choose|c: int| 0 <= c < self.items@.len() && #[trigger] self.items@[c].key@ == k;
                    assert(c == j);
                    let d = choose|d: int| 0 <= d < before.len() && #[trigger] before[d].key@ == k;
                    assert(d == j);
                }
                assert forall|k: Seq<u8>| k != key@ && items_hold(self.items@, k) implies items_hold(before, k) by {
                    let j = choose|j: int| 0 <= j < self.items@.len() && #[trigger] self.items@[j].key@ == k;
                    assert(before[j].key@ == k);
                }
                assert(self.items@[i as int].key@ == key@);
            },
            None => {
                let ghost before = self.items@;
                self.items.push(FileStoreItem { key: key.clone(), persistent: target });
                let ghost n = before.len() as int;
                assert(self.items@[n].key@ == key@);
                assert forall|k: Seq<u8>| k != key@ && items_hold(before, k) implies
                    items_hold(self.items@, k) && deadline_in(self.items@, k) == deadline_in(before, k) by {
                    let j = choose|j: int| 0 <= j < before.len() && #[trigger] before[j].key@ == k;
                    assert(self.items@[j].key@ == k);
                    let c = choose|c: int| 0 <= c < self.items@.len() && #[trigger] self.items@[c].key@ == k;
                    assert(c != n);
                    assert(self.items@[c] == before[c]);
                    assert(c == j);
                }
                assert forall|k: Seq<u8>| k != key@ && items_hold(self.items@, k) implies items_hold(before, k) by {
                    let j = choose|j: int| 0 <= j < self.items@.len() && #[trigger] self.items@[j].key@ == k;
                    assert(j != n);
                    assert(self.items@[j] == before[j]);
                    assert(before[j].key@ == k);
                }
                let ghost c = choose|c: int| 0 <= c < self.items@.len() && #[trigger] self.items@[c].key@ == key@;
                assert(c == n);
            },
        }
    }

    /// Drop `key` from the index; the file on disk is not touched.
    pub fn remove(&mut self, key: &FileStoreKey)
        requires
            old(self).wf(),
        ensures
            final(self).wf(),
            final(self).root() == old(self).root(),
            !final(self).holds(key@),
            forall|k: Seq<u8>| k != key@ ==> (final(self).holds(k) == old(self).holds(k)),
            forall|k: Seq<u8>| k != key@ && old(self).holds(k) ==> final(self).deadline(k) == old(self).deadline(k),
    {
        match self.find(key) {
            Some(i) => {
                let ghost before = self.items@;
                self.items.remove(i);
                assert forall|k: Seq<u8>| k != key@ && items_hold(before, k) implies
                    items_hold(self.items@, k) && deadline_in(self.items@, k) == deadline_in(before, k) by {
                    let j = choose|j: int| 0 <= j < before.len() && #[trigger] before[j].key@ == k;
                    let jj = if j < i { j } else { j - 1 };
                    assert(self.items@[jj].key@ == k);
                    let c = choose|c: int| 0 <= c < self.items@.len() && #[trigger] self.items@[c].key@ == k;
                    let cc = if c < i { c } else { c + 1 };
                    assert(before[cc].key@ == k);
                    assert(cc == j);
                }
                assert forall|k: Seq<u8>| items_hold(self.items@, k) implies items_hold(before, k) by {
                    let j = choose|j: int| 0 <= j < self.items@.len() && #[trigger] self.items@[j].key@ == k;
                    let jj = if j < i { j } else { j + 1 };
                    assert(before[jj].key@ == k);
                }
                assert forall|a: int, b: int|
                    0 <= a < self.items@.len() && 0 <= b < self.items@.len() && #[trigger] self.items@[a].key@
                        == #[trigger] self.items@[b].key@ implies a == b by {
                    let aa = if a < i { a } else { a + 1 };
                    let bb = if b < i { b } else { b + 1 };
                    assert(before[aa].key@ == before[bb].key@);
                }
                assert(!items_hold(self.items@, key@)) by {
                    if items_hold(self.items@, key@) {
                        let j = choose|j: int| 0 <= j < self.items@.len() && #[trigger] self.items@[j].key@ == key@;
                        let jj = if j < i { j } else { j + 1 };
                        assert(before[jj].key@ == key@);
                    }
                }
            },
            None => {},
        }
    }

    /// The path of the blob `key`.
    pub fn key_to_path(&self, key: &FileStoreKey) -> (r: String)
        requires
            key@.len() >= 2,
        ensures
            r@ == blob_path(self.root(), key@),
    {
        let h = key.hash();
        let one = vec![h[0]];
        let two = vec![h[1]];
        let first = hex_encode(one.as_slice());
        let second = hex_encode(two.as_slice());
        let full = hex_encode(h.as_slice());
        let mut path = self.base_path.clone();
        path.append("/");
        path.append(first.as_str());
        path.append("/");
        path.append(second.as_str());
        path.append("/");
        path.append(full.as_str());
        proof {
            reveal_strlit("/");
            assert(one@ =~= seq![key@[0]]);
            assert(two@ =~= seq![key@[1]]);
        }
        path
    }
}

/// What `store` does with a blob in the given state: a trusted blob is not
/// written again.
pub open spec fn store_action(state: BlobState) -> StoreAction {
    if state is Present {
        StoreAction::ConsumeOnly
    } else {
        StoreAction::Write
    }
}

/// `b` differs from `a` at most in `key`.
pub open spec fn same_elsewhere(a: FileStore, b: FileStore, key: Seq<u8>) -> bool {
    &&& b.wf()
    &&& b.root() == a.root()
    &&& forall|k: Seq<u8>| k != key ==> (b.holds(k) == a.holds(k))
    &&& forall|k: Seq<u8>| k != key && a.holds(k) ==> b.deadline(k) == a.deadline(k)
}

impl FileStore {
    /// Classify a blob from what was seen on disk, dropping a corrupted one
    /// from the index (the caller unlinks its file).
    pub fn check(&mut self, key: &FileStoreKey, exists: bool, is_intact: bool) -> (r: BlobState)
        requires
            old(self).wf(),
        ensures
            r == blob_state(exists, is_intact),
            same_elsewhere(*old(self), *final(self), key@),
            r is Corrupted ==> !final(self).holds(key@),
            !(r is Corrupted) ==> *final(self) == *old(self),
    {
        let state = blob_state_of(exists, is_intact);
        if let BlobState::Corrupted = state {
            self.remove(key);
        }
        state
    }

    /// Whether the store has a trusted blob for `key`; a corrupted one is
    /// dropped.
    pub fn has_key(&mut self, key: &FileStoreKey, exists: bool, is_intact: bool) -> (r: bool)
        requires
            old(self).wf(),
        ensures
            r == (blob_state(exists, is_intact) is Present),
            same_elsewhere(*old(self), *final(self), key@),
            blob_state(exists, is_intact) is Corrupted ==> !final(self).holds(key@),
    {
        let state = self.check(key, exists, is_intact);
        match state {
            BlobState::Present => true,
            _ => false,
        }
    }

    /// Serve the blob `key`: a trusted one is kept for a while longer and
    /// its handle returned; a missing or corrupted one leaves the index.
    pub fn get(&mut self, key: &FileStoreKey, exists: bool, is_intact: bool, now: i64) -> (r: Option<
        FileStoreHandle,
    >)
        requires
            old(self).wf(),
            key@.len() == KEY_LEN,
            now <= i64::MAX - PERSISTENCY_DURATION,
        ensures
            same_elsewhere(*old(self), *final(self), key@),
            blob_state(exists, is_intact) is Present ==> {
                &&& r is Some
                &&& r->0.key@ == key@
                &&& r->0.path@ == blob_path(old(self).root(), key@)
                &&& final(self).holds(key@)
                &&& final(self).deadline(key@) == now + PERSISTENCY_DURATION
            },
            !(blob_state(exists, is_intact) is Present) ==> r is None && !final(self).holds(key@),
    {
        let state = self.check(key, exists, is_intact);
        match state {
            BlobState::Present => {
                self.touch(key, now);
                let path = self.key_to_path(key);
                Some(FileStoreHandle { key: key.clone(), path })
            },
            _ => {
                self.remove(key);
                None
            },
        }
    }

    /// Store the blob `key`, whose bytes the caller streams. The returned
    /// action says whether to write them or only read them to their end;
    /// either way the blob is kept for a while.
    pub fn store(&mut self, key: &FileStoreKey, exists: bool, is_intact: bool, now: i64) -> (r: StoreAction)
        requires
            old(self).wf(),
            key@.len() == KEY_LEN,
            now <= i64::MAX - PERSISTENCY_DURATION,
        ensures
            r == store_action(blob_state(exists, is_intact)),
            same_elsewhere(*old(self), *final(self), key@),
            final(self).holds(key@),
            final(self).deadline(key@) == now + PERSISTENCY_DURATION,
    {
        let present = self.has_key(key, exists, is_intact);
        self.touch(key, now);
        if present {
            StoreAction::ConsumeOnly
        } else {
            StoreAction::Write
        }
    }

    /// Keep the blob `key` for a while longer; `NotFound` when its file is
    /// missing.
    pub fn persist(&mut self, key: &FileStoreKey, exists: bool, now: i64) -> (r: Result<(), FileStoreError>)
        requires
            old(self).wf(),
            key@.len() == KEY_LEN,
            now <= i64::MAX - PERSISTENCY_DURATION,
        ensures
            !exists ==> r == Err::<(), FileStoreError>(FileStoreError::NotFound) && *final(self) == *old(self),
            exists ==> r is Ok && final(self).holds(key@) && final(self).deadline(key@) == now
                + PERSISTENCY_DURATION,
            same_elsewhere(*old(self), *final(self), key@),
    {
        if !exists {
            return Err(FileStoreError::NotFound);
        }
        self.touch(key, now);
        Ok(())
    }
}

/// A blob whose bytes hash to its key is trusted, so once stored it is
/// served from its path under the store root.
pub proof fn law_stored_blob_is_served(key: Seq<u8>, times_agree: bool)
    ensures
        intact(key, times_agree, Some(key)),
        blob_state(true, intact(key, times_agree, Some(key))) is Present,
{
}

/// Storing a blob that is already there and intact writes nothing: the
/// stream is only read to its end, and the file stays as it was.
pub proof fn law_store_twice_keeps_file(key: Seq<u8>, times_agree: bool)
    ensures
        store_action(blob_state(true, intact(key, times_agree, Some(key)))) == StoreAction::ConsumeOnly,
{
}

/// A blob whose file was modified after creation and whose bytes no longer
/// hash to its key is corrupted: `get` drops it, and once its file is
/// unlinked `has_key` says no.
pub proof fn law_corrupted_blob_dropped(key: Seq<u8>, rehashed: Seq<u8>)
    requires
        rehashed != key,
    ensures
        blob_state(true, intact(key, false, Some(rehashed))) is Corrupted,
        !(blob_state(false, false) is Present),
{
}

} // verus!

verus! {

/// The sum of the sizes.
pub open spec fn total_size(sizes: Seq<u64>) -> nat
    decreases sizes.len(),
{
    if sizes.len() == 0 {
        0
    } else {
        total_size(sizes.drop_last()) + sizes.last() as nat
    }
}

/// The sum of the sizes of the chosen blobs.
pub open spec fn chosen_size(sizes: Seq<u64>, chosen: Seq<bool>) -> nat
    decreases sizes.len(),
{
    if sizes.len() == 0 || chosen.len() < sizes.len() {
        0
    } else {
        chosen_size(sizes.drop_last(), chosen.subrange(0, sizes.len() - 1)) + (if chosen[sizes.len() - 1] {
            sizes.last() as nat
        } else {
            0nat
        })
    }
}

/// A blob may go: no handle holds it and its deadline has passed.
pub open spec fn evictable(items: Seq<FileStoreItem>, held: Seq<bool>, now: i64, i: int) -> bool {
    items[i].persistent < now && !held[i]
}

proof fn lemma_chosen_size_flip(sizes: Seq<u64>, chosen: Seq<bool>, i: int)
    requires
        sizes.len() == chosen.len(),
        0 <= i < sizes.len(),
        !chosen[i],
    ensures
        chosen_size(sizes, chosen.update(i, true)) == chosen_size(sizes, chosen) + sizes[i],
    decreases sizes.len(),
{
    let n = sizes.len() - 1;
    let c2 = chosen.update(i, true);
    if i == n {
        assert(c2.subrange(0, n) =~= chosen.subrange(0, n));
    } else {
        assert(c2.subrange(0, n) =~= chosen.subrange(0, n).update(i, true));
        lemma_chosen_size_flip(sizes.drop_last(), chosen.subrange(0, n), i);
    }
}

proof fn lemma_chosen_size_le(sizes: Seq<u64>, chosen: Seq<bool>)
    requires
        sizes.len() == chosen.len(),
    ensures
        chosen_size(sizes, chosen) <= total_size(sizes),
    decreases sizes.len(),
{
    if sizes.len() > 0 {
        lemma_chosen_size_le(sizes.drop_last(), chosen.subrange(0, sizes.len() - 1));
    }
}

proof fn lemma_chosen_size_none(sizes: Seq<u64>, chosen: Seq<bool>)
    requires
        sizes.len() == chosen.len(),
        forall|i: int| 0 <= i < chosen.len() ==> !chosen[i],
    ensures
        chosen_size(sizes, chosen) == 0,
    decreases sizes.len(),
{
    if sizes.len() > 0 {
        lemma_chosen_size_none(sizes.drop_last(), chosen.subrange(0, sizes.len() - 1));
    }
}

impl FileStore {
    /// Which blobs to delete to bring the store back under its floor once
    /// it is over its cap. `sizes[i]` is the size of the `i`-th item of the
    /// index and `held[i]` whether a handle holds it. Nothing goes while the
    /// total is within `max_cache`; otherwise blobs go oldest deadline first,
    /// only those no handle holds and whose deadline is past, until the
    /// total falls below `min_cache` or none is left that may go.
    #[verifier::spinoff_prover]
    pub fn eviction_plan(&self, sizes: &Vec<u64>, held: &Vec<bool>, now: i64, max_cache: u64, min_cache: u64) -> (r:
        Vec<bool>)
        requires
            sizes@.len() == self.entries().len(),
            held@.len() == self.entries().len(),
        ensures
            r@.len() == sizes@.len(),
            forall|i: int| 0 <= i < r@.len() && #[trigger] r@[i] ==> evictable(self.entries(), held@, now, i),
            total_size(sizes@) <= max_cache ==> forall|i: int| 0 <= i < r@.len() ==> !r@[i],
            total_size(sizes@) > max_cache ==> {
                ||| total_size(sizes@) - chosen_size(sizes@, r@) < min_cache
                ||| forall|i: int| 0 <= i < r@.len() && evictable(self.entries(), held@, now, i) ==> #[trigger] r@[i]
            },
            forall|i: int, j: int|
                0 <= i < r@.len() && 0 <= j < r@.len() && #[trigger] r@[i] && !#[trigger] r@[j] && evictable(
                    self.entries(),
                    held@,
                    now,
                    j,
                ) ==> self.entries()[i].persistent <= self.entries()[j].persistent,
    {
        let n = sizes.len();
        let mut chosen: Vec<bool> = Vec::new();
        let mut total: u128 = 0;
        let mut i: usize = 0;
        while i < n
            invariant
                n == sizes@.len(),
                0 <= i <= n,
                chosen@.len() == i,
                forall|x: int| 0 <= x < i ==> !chosen@[x],
                total == total_size(sizes@.subrange(0, i as int)),
                total <= i * 0xffff_ffff_ffff_ffffu128,
            decreases n - i,
        {
            assert(sizes@.subrange(0, i + 1).drop_last() =~= sizes@.subrange(0, i as int));
            proof {
                assert(total + sizes@[i as int] <= (i + 1) * 0xffff_ffff_ffff_ffffu128) by (nonlinear_arith)
                    requires
                        total <= i * 0xffff_ffff_ffff_ffffu128,
                        sizes@[i as int] <= 0xffff_ffff_ffff_ffffu64,
                ;
                assert((i + 1) * 0xffff_ffff_ffff_ffffu128 <= 0xffff_ffff_ffff_ffff_ffff_ffff_ffff_ffffu128) by (nonlinear_arith)
                    requires
                        i < 0xffff_ffff_ffff_ffffu128,
                ;
            }
            total = total + sizes[i] as u128;
            chosen.push(false);
            i = i + 1;
        }
        assert(sizes@.subrange(0, n as int) =~= sizes@);
        proof {
            lemma_chosen_size_none(sizes@, chosen@);
            lemma_num_chosen_none(chosen@);
        }
        if total <= max_cache as u128 {
            return chosen;
        }
        let mut remaining: u128 = total;
        let mut count: usize = 0;
        let mut go = true;
        while go && remaining >= min_cache as u128
            invariant
                n == sizes@.len(),
                chosen@.len() == n,
                held@.len() == n,
                self.entries().len() == n,
                total == total_size(sizes@),
                remaining == total - chosen_size(sizes@, chosen@),
                count == num_chosen(chosen@),
                count <= n,
                forall|x: int| 0 <= x < n && #[trigger] chosen@[x] ==> evictable(self.entries(), held@, now, x),
                forall|x: int, y: int|
                    0 <= x < n && 0 <= y < n && #[trigger] chosen@[x] && !#[trigger] chosen@[y] && evictable(
                        self.entries(),
                        held@,
                        now,
                        y,
                    ) ==> self.entries()[x].persistent <= self.entries()[y].persistent,
                !go ==> forall|x: int| 0 <= x < n && evictable(self.entries(), held@, now, x) ==> #[trigger] chosen@[x],
            decreases (if go { 1int } else { 0int }) + n - count,
        {
            // the evictable blob with the oldest deadline not chosen yet
            let mut best: Option<usize> = None;
            let mut j: usize = 0;
            while j < n
                invariant
                    n == sizes@.len(),
                    chosen@.len() == n,
                    held@.len() == n,
                    self.entries().len() == n,
                    0 <= j <= n,
                    best is Some ==> best->0 < j && !chosen@[best->0 as int] && evictable(self.entries(), held@, now, best->0 as int)
                        && forall|y: int| 0 <= y < j && !chosen@[y] && evictable(self.entries(), held@, now, y)
                            ==> self.entries()[best->0 as int].persistent <= #[trigger] self.entries()[y].persistent,
                    best is None ==> forall|y: int| 0 <= y < j ==> !(!chosen@[y] && #[trigger] evictable(self.entries(), held@, now, y)),
                decreases n - j,
            {
                if !chosen[j] && self.items[j].persistent < now && !held[j] {
                    match best {
                        None => {
                            best = Some(j);
                        },
                        Some(b) => {
                            if self.items[j].persistent < self.items[b].persistent {
                                best = Some(j);
                            }
                        },
                    }
                }
                j = j + 1;
            }
            match best {
                None => {
                    go = false;
                },
                Some(b) => {
                    proof {
                        lemma_chosen_size_flip(sizes@, chosen@, b as int);
                        lemma_chosen_size_le(sizes@, chosen@.update(b as int, true));
                        lemma_count_chosen(chosen@, b as int);
                    }
                    chosen.set(b, true);
                    remaining = remaining - sizes[b] as u128;
                    count = count + 1;
                },
            }
        }
        chosen
    }
}

/// The number of chosen blobs.
pub open spec fn num_chosen(chosen: Seq<bool>) -> nat
    decreases chosen.len(),
{
    if chosen.len() == 0 {
        0
    } else {
        num_chosen(chosen.drop_last()) + (if chosen.last() { 1nat } else { 0nat })
    }
}

proof fn lemma_count_chosen(chosen: Seq<bool>, b: int)
    requires
        0 <= b < chosen.len(),
        !chosen[b],
    ensures
        num_chosen(chosen.update(b, true)) == num_chosen(chosen) + 1,
        num_chosen(chosen) < chosen.len(),
    decreases chosen.len(),
{
    let c2 = chosen.update(b, true);
    if b == chosen.len() - 1 {
        assert(c2.drop_last() =~= chosen.drop_last());
        lemma_num_chosen_le(chosen.drop_last());
    } else {
        assert(c2.drop_last() =~= chosen.drop_last().update(b, true));
        lemma_count_chosen(chosen.drop_last(), b);
    }
}

proof fn lemma_num_chosen_le(chosen: Seq<bool>)
    ensures
        num_chosen(chosen) <= chosen.len(),
    decreases chosen.len(),
{
    if chosen.len() > 0 {
        lemma_num_chosen_le(chosen.drop_last());
    }
}

proof fn lemma_num_chosen_none(chosen: Seq<bool>)
    requires
        forall|i: int| 0 <= i < chosen.len() ==> !chosen[i],
    ensures
        num_chosen(chosen) == 0,
    decreases chosen.len(),
{
    if chosen.len() > 0 {
        lemma_num_chosen_none(chosen.drop_last());
    }
}

} // verus!
