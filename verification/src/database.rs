//! The content-addressed backend of the tree: the `Database` trait every
//! backend implements, and an in-memory implementation with the
//! write-cache that gives batches read-your-writes semantics and an
//! atomic commit.
use vstd::prelude::*;

verus! {

use crate::Errors;
use crate::utils::hash_eq;
use crate::utils::slice_to_hash;

/// A content-addressed key-value backend. `view_map` is the visible
/// state: inside an open batch it already reflects this batch's pending
/// writes and deletes; `finish_batch` makes that state durable without
/// changing it.
pub trait Database: Sized {
    /// The visible key-value map: what `get` observes.
    spec fn view_map(&self) -> Map<Seq<u8>, Seq<u8>>;

    /// Whether this backend owes success: a reliable backend never fails
    /// an operation on a digest-wide key. A backend with real failure
    /// modes says so by never claiming reliability.
    spec fn reliable(&self) -> bool;

    /// Open (or create) a backend at the given location.
    fn new(dbpath: &str) -> Self;

    /// An idempotent read of the visible state.
    fn get(&mut self, key: &[u8]) -> (r: Result<Option<Vec<u8>>, Errors>)
        ensures
            final (self).view_map() == old(self).view_map(),
            final (self).reliable() == old(self).reliable(),
            r matches Ok(Some(v)) ==> old(self).view_map().contains_key(key@) && v@ == old(
                self,
            ).view_map()[key@],
            r matches Ok(None) ==> !old(self).view_map().contains_key(key@),
            old(self).reliable() && key@.len() == 32 ==> r is Ok,
    ;

    /// Write one pair, immediately or deferred to the open batch.
    fn put(&mut self, key: &[u8], value: Vec<u8>) -> (r: Result<(), Errors>)
        ensures
            final (self).reliable() == old(self).reliable(),
            r is Ok ==> final (self).view_map() == old(self).view_map().insert(key@, value@),
            old(self).reliable() && key@.len() == 32 ==> r is Ok,
    ;

    /// Remove one key, immediately or deferred to the open batch.
    fn delete(&mut self, key: &[u8]) -> (r: Result<(), Errors>)
        ensures
            final (self).reliable() == old(self).reliable(),
            r is Ok ==> final (self).view_map() == old(self).view_map().remove(key@),
            old(self).reliable() && key@.len() == 32 ==> r is Ok,
    ;

    /// Open a batch; until `finish_batch`, writes are pending but visible
    /// to this handle's reads.
    fn init_batch(&mut self) -> (r: Result<(), Errors>)
        ensures
            final (self).reliable() == old(self).reliable(),
            r is Ok ==> final (self).view_map() == old(self).view_map(),
            old(self).reliable() ==> r is Ok,
    ;

    /// Commit the open batch atomically; the visible state is unchanged,
    /// it only becomes durable.
    fn finish_batch(&mut self) -> (r: Result<(), Errors>)
        ensures
            final (self).reliable() == old(self).reliable(),
            r is Ok ==> final (self).view_map() == old(self).view_map(),
            old(self).reliable() ==> r is Ok,
    ;
}

/// An unordered map from 32-byte keys to byte strings, backed by the
/// hashbrown crate; opaque here, described by `byte_map_view`.
#[verifier::external_body]
pub struct ByteMap {
    inner: hashbrown::HashMap<crate::Hash, Vec<u8>>,
}

/// The entries a `ByteMap` holds, keyed by the bytes of each key.
pub uninterp spec fn byte_map_view(m: ByteMap) -> Map<Seq<u8>, Seq<u8>>;

/// The empty visible map.
pub open spec fn no_entries() -> Map<Seq<u8>, Seq<u8>> {
    Map::empty()
}

/// Relies on `hashbrown::HashMap::new`: an empty map.
#[verifier::external_body]
fn byte_map_new() -> (r: ByteMap)
    ensures
        byte_map_view(r) == no_entries(),
{
    ByteMap { inner: hashbrown::HashMap::new() }
}

/// Relies on `hashbrown::HashMap::get`: the value stored under the key,
/// if any; `[u8; 32]` keys equal exactly when their bytes are.
#[verifier::external_body]
fn byte_map_get(m: &ByteMap, key: &crate::Hash) -> (r: Option<Vec<u8>>)
    ensures
        r matches Some(v) ==> byte_map_view(*m).contains_key(key@) && v@ == byte_map_view(*m)[key@],
        r is None ==> !byte_map_view(*m).contains_key(key@),
{
    m.inner.get(key).cloned()
}

/// Relies on `hashbrown::HashMap::insert`: the map maps the key to the
/// value afterwards, other entries untouched.
#[verifier::external_body]
fn byte_map_insert(m: &mut ByteMap, key: crate::Hash, value: Vec<u8>)
    ensures
        byte_map_view(*final (m)) == byte_map_view(*old(m)).insert(key@, value@),
{
    m.inner.insert(key, value);
}

/// Relies on `hashbrown::HashMap::remove`: the key is absent afterwards,
/// other entries untouched.
#[verifier::external_body]
fn byte_map_remove(m: &mut ByteMap, key: &crate::Hash)
    ensures
        byte_map_view(*final (m)) == byte_map_view(*old(m)).remove(key@),
{
    m.inner.remove(key);
}

/// Relies on `hashbrown::HashMap::drain`: every entry moves out exactly
/// once, in no promised order, leaving the map empty.
#[verifier::external_body]
fn byte_map_take_entries(m: &mut ByteMap) -> (r: Vec<(crate::Hash, Vec<u8>)>)
    ensures
        byte_map_view(*final (m)) == no_entries(),
        forall|i: int|
            0 <= i < r@.len() ==> byte_map_view(*old(m)).contains_key(#[trigger] r@[i].0@)
                && r@[i].1@ == byte_map_view(*old(m))[r@[i].0@],
        forall|k: Seq<u8>|
            byte_map_view(*old(m)).contains_key(k) ==> exists|i: int|
                0 <= i < r@.len() && #[trigger] r@[i].0@ == k,
        forall|i: int, j: int| 0 <= i < j < r@.len() ==> r@[i].0@ != r@[j].0@,
{
    m.inner.drain().collect()
}

/// The set of key byte strings a sequence of keys denotes.
pub open spec fn key_set(s: Seq<crate::Hash>) -> Set<Seq<u8>> {
    Set::new(|k: Seq<u8>| exists|i: int| 0 <= i < s.len() && s[i]@ == k)
}

/// The in-memory write cache of an open batch: a set of pending deletes
/// and a map of pending writes. A read consults the delete set first,
/// then the write map, then the underlying store.
struct MemCache {
    set: Vec<crate::Hash>,
    map: ByteMap,
}

/// Appending a key adds exactly its bytes to the key set.
proof fn lemma_key_set_push(s: Seq<crate::Hash>, x: crate::Hash)
    ensures
        key_set(s.push(x)) == key_set(s).insert(x@),
{
    let t = s.push(x);
    assert forall|k: Seq<u8>| #[trigger]
        key_set(t).contains(k) == key_set(s).insert(x@).contains(k) by {
        if key_set(s).insert(x@).contains(k) {
            if k == x@ {
                assert(t[s.len() as int]@ == k);
            } else {
                let i = choose|i: int| 0 <= i < s.len() && s[i]@ == k;
                assert(t[i]@ == k);
            }
        } else {
            if key_set(t).contains(k) {
                let i = choose|i: int| 0 <= i < t.len() && t[i]@ == k;
                assert(i == s.len() || s[i]@ == k);
            }
        }
    }
    assert(key_set(t) =~= key_set(s).insert(x@));
}

impl MemCache {
    spec fn set_view(&self) -> Set<Seq<u8>> {
        key_set(self.set@)
    }

    spec fn map_view(&self) -> Map<Seq<u8>, Seq<u8>> {
        byte_map_view(self.map)
    }

    fn new() -> (r: MemCache)
        ensures
            r.set_view() == Set::<Seq<u8>>::empty(),
            r.map_view() == no_entries(),
    {
        let r = MemCache { set: Vec::new(), map: byte_map_new() };
        proof {
            assert(r.set_view() =~= Set::<Seq<u8>>::empty());
        }
        r
    }

    fn clear(&mut self)
        ensures
            final (self).set_view() == Set::<Seq<u8>>::empty(),
            final (self).map_view() == no_entries(),
    {
        self.set.clear();
        self.map = byte_map_new();
        proof {
            assert(self.set_view() =~= Set::<Seq<u8>>::empty());
        }
    }

    /// Whether the delete set shadows this key.
    fn deleted(&self, key: &crate::Hash) -> (r: bool)
        ensures
            r == self.set_view().contains(key@),
    {
        let mut i: usize = 0;
        let n: usize = self.set.len();
        while i < n
            invariant
                i <= n,
                n == self.set@.len(),
                forall|j: int| 0 <= j < i ==> self.set@[j]@ != key@,
            ensures
                i <= n,
                forall|j: int| 0 <= j < i ==> self.set@[j]@ != key@,
                i < n ==> self.set@[i as int]@ == key@,
            decreases n - i,
        {
            if hash_eq(&self.set[i], key) {
                break ;
            }
            i = i + 1;
        }
        i < n
    }

    /// The pending write under this key, if any.
    fn get(&self, key: &crate::Hash) -> (r: Option<Vec<u8>>)
        ensures
            r matches Some(v) ==> self.map_view().contains_key(key@) && v@
                == self.map_view()[key@],
            r is None ==> !self.map_view().contains_key(key@),
    {
        byte_map_get(&self.map, key)
    }

    /// Record a pending write; the key stops being shadowed by a pending
    /// delete.
    fn put(&mut self, key: &crate::Hash, value: Vec<u8>)
        ensures
            final (self).map_view() == old(self).map_view().insert(key@, value@),
            final (self).set_view() == old(self).set_view().remove(key@),
    {
        byte_map_insert(&mut self.map, *key, value);
        let n: usize = self.set.len();
        let mut kept: Vec<crate::Hash> = Vec::new();
        let mut i: usize = 0;
        proof {
            assert(key_set(kept@) =~= key_set(self.set@.take(0)).remove(key@));
        }
        while i < n
            invariant
                i <= n,
                n == self.set@.len(),
                self.map_view() == old(self).map_view().insert(key@, value@),
                self.set@ == old(self).set@,
                key_set(kept@) == key_set(self.set@.take(i as int)).remove(key@),
            decreases n - i,
        {
            let ghost kept_before = kept@;
            let ghost prefix = self.set@.take(i as int);
            let x: crate::Hash = self.set[i];
            if !hash_eq(&x, key) {
                kept.push(x);
                proof {
                    lemma_key_set_push(kept_before, x);
                    lemma_key_set_push(self.set@.take(i as int), x);
                    assert(self.set@.take(i + 1) =~= self.set@.take(i as int).push(x));
                    assert(key_set(kept@) =~= key_set(self.set@.take(i + 1)).remove(key@));
                }
            } else {
                proof {
                    lemma_key_set_push(self.set@.take(i as int), x);
                    assert(self.set@.take(i + 1) =~= self.set@.take(i as int).push(x));
                    assert(key_set(kept@) =~= key_set(self.set@.take(i + 1)).remove(key@));
                }
            }
            i = i + 1;
        }
        proof {
            assert(self.set@.take(n as int) =~= self.set@);
        }
        self.set = kept;
    }

    /// Record a pending delete.
    fn delete(&mut self, key: &crate::Hash)
        ensures
            final (self).set_view() == old(self).set_view().insert(key@),
            final (self).map_view() == old(self).map_view(),
    {
        let ghost before = self.set@;
        self.set.push(*key);
        proof {
            lemma_key_set_push(before, *key);
        }
    }
}

/// The pairs of a drained entry list, as a map.
pub open spec fn entries_map(s: Seq<(crate::Hash, Vec<u8>)>) -> Map<Seq<u8>, Seq<u8>>
    decreases s.len(),
{
    if s.len() == 0 {
        Map::empty()
    } else {
        entries_map(s.drop_last()).insert(s.last().0@, s.last().1@)
    }
}

/// An entry list with distinct keys denotes the map that pairs each key
/// with its value.
proof fn lemma_entries_map_characterization(s: Seq<(crate::Hash, Vec<u8>)>)
    requires
        forall|i: int, j: int| 0 <= i < j < s.len() ==> s[i].0@ != s[j].0@,
    ensures
        forall|k: Seq<u8>|
            #[trigger] entries_map(s).contains_key(k) <==> exists|i: int|
                0 <= i < s.len() && #[trigger] s[i].0@ == k,
        forall|i: int| 0 <= i < s.len() ==> entries_map(s)[#[trigger] s[i].0@] == s[i].1@,
    decreases s.len(),
{
    if s.len() > 0 {
        lemma_entries_map_characterization(s.drop_last());
        assert forall|k: Seq<u8>| #[trigger]
            entries_map(s).contains_key(k) implies exists|i: int|
            0 <= i < s.len() && #[trigger] s[i].0@ == k by {
            if k == s.last().0@ {
                assert(s[s.len() - 1].0@ == k);
            } else {
                assert(entries_map(s) == entries_map(s.drop_last()).insert(s.last().0@, s.last().1@));
                assert(entries_map(s.drop_last()).contains_key(k));
                let i = choose|i: int|
                    0 <= i < s.drop_last().len() && #[trigger] s.drop_last()[i].0@ == k;
                assert(s.drop_last()[i] == s[i]);
                assert(s[i].0@ == k);
            }
        }
        assert forall|k: Seq<u8>| (exists|i: int| 0 <= i < s.len() && #[trigger] s[i].0@ == k)
            implies #[trigger] entries_map(s).contains_key(k) by {
            let i = choose|i: int| 0 <= i < s.len() && #[trigger] s[i].0@ == k;
            if i < s.len() - 1 {
                assert(s.drop_last()[i].0@ == k);
            }
        }
        assert forall|i: int| 0 <= i < s.len() implies entries_map(s)[#[trigger] s[i].0@]
            == s[i].1@ by {
            if i < s.len() - 1 {
                assert(s.drop_last()[i].0@ == s[i].0@);
                assert(s[i].0@ != s.last().0@);
            }
        }
    }
}

/// A database held wholly in memory: a hashbrown map plus the batch
/// write-cache.
pub struct MemoryDB {
    db: ByteMap,
    batch: MemCache,
    batch_on: bool,
}

impl MemoryDB {
    /// The stored-plus-pending state an open batch shows.
    spec fn batch_view(&self) -> Map<Seq<u8>, Seq<u8>> {
        byte_map_view(self.db).union_prefer_right(self.batch.map_view()).remove_keys(
            self.batch.set_view(),
        )
    }
}

impl Database for MemoryDB {
    /// Outside a batch, the stored map itself; inside one, the stored map
    /// overlaid by pending writes with pending deletes shadowed out.
    closed spec fn view_map(&self) -> Map<Seq<u8>, Seq<u8>> {
        if self.batch_on {
            self.batch_view()
        } else {
            byte_map_view(self.db)
        }
    }

    /// An in-memory backend never fails: its only refusal is a key that
    /// is not digest-wide.
    open spec fn reliable(&self) -> bool {
        true
    }

    fn new(_dbpath: &str) -> (r: Self)
        ensures
            r.view_map() == no_entries(),
    {
        MemoryDB { db: byte_map_new(), batch: MemCache::new(), batch_on: false }
    }

    fn get(&mut self, key: &[u8]) -> (r: Result<Option<Vec<u8>>, Errors>)
        ensures
            r is Err <==> key@.len() != 32,
    {
        if key.len() != 32 {
            // only digest-wide keys are ever stored
            return Err(Errors::new("memory db: key is not digest-wide"));
        }
        let k: crate::Hash = slice_to_hash(key);
        if self.batch_on {
            if self.batch.deleted(&k) {
                return Ok(None);
            }
            match self.batch.get(&k) {
                Some(v) => Ok(Some(v)),
                None => {
                    let r = byte_map_get(&self.db, &k);
                    proof {
                        assert(self.view_map().contains_key(k@) == byte_map_view(
                            self.db,
                        ).contains_key(k@));
                        if byte_map_view(self.db).contains_key(k@) {
                            assert(self.view_map()[k@] == byte_map_view(self.db)[k@]);
                        }
                    }
                    Ok(r)
                },
            }
        } else {
            Ok(byte_map_get(&self.db, &k))
        }
    }

    fn put(&mut self, key: &[u8], value: Vec<u8>) -> (r: Result<(), Errors>)
        ensures
            r is Err <==> key@.len() != 32,
    {
        if key.len() != 32 {
            return Err(Errors::new("memory db: key is not digest-wide"));
        }
        let k: crate::Hash = slice_to_hash(key);
        if self.batch_on {
            let ghost pre = *self;
            self.batch.put(&k, value);
            proof {
                assert(self.view_map() =~= pre.view_map().insert(key@, value@));
            }
        } else {
            let ghost pre = *self;
            byte_map_insert(&mut self.db, k, value);
            proof {
                assert(self.view_map() =~= pre.view_map().insert(key@, value@));
            }
        }
        Ok(())
    }

    fn delete(&mut self, key: &[u8]) -> (r: Result<(), Errors>)
        ensures
            r is Err <==> key@.len() != 32,
    {
        if key.len() != 32 {
            return Err(Errors::new("memory db: key is not digest-wide"));
        }
        let k: crate::Hash = slice_to_hash(key);
        if self.batch_on {
            let ghost pre = *self;
            self.batch.delete(&k);
            proof {
                assert(self.view_map() =~= pre.view_map().remove(key@));
            }
        } else {
            let ghost pre = *self;
            byte_map_remove(&mut self.db, &k);
            proof {
                assert(self.view_map() =~= pre.view_map().remove(key@));
            }
        }
        Ok(())
    }

    fn init_batch(&mut self) -> (r: Result<(), Errors>)
        ensures
            r is Ok,
    {
        if !self.batch_on {
            let ghost pre = *self;
            self.batch.clear();
            self.batch_on = true;
            proof {
                assert(self.view_map() =~= pre.view_map());
            }
        }
        Ok(())
    }

    fn finish_batch(&mut self) -> (r: Result<(), Errors>)
        ensures
            r is Ok,
    {
        if !self.batch_on {
            return Ok(());
        }
        let ghost pre = *self;
        let mut entries: Vec<(crate::Hash, Vec<u8>)> = byte_map_take_entries(&mut self.batch.map);
        let ghost full = entries@;
        proof {
            lemma_entries_map_characterization(full);
            assert(entries_map(full) =~= pre.batch.map_view());
            assert(byte_map_view(self.db).union_prefer_right(entries_map(entries@))
                =~= byte_map_view(pre.db).union_prefer_right(entries_map(full)));
        }
        loop
            invariant
                entries@.len() <= full.len(),
                entries@ == full.take(entries@.len() as int),
                forall|i: int, j: int| 0 <= i < j < full.len() ==> full[i].0@ != full[j].0@,
                byte_map_view(self.db).union_prefer_right(entries_map(entries@))
                    == byte_map_view(pre.db).union_prefer_right(entries_map(full)),
                self.batch.set@ == pre.batch.set@,
                self.batch.map_view() == no_entries(),
                self.batch_on,
            ensures
                entries@.len() == 0,
                byte_map_view(self.db) == byte_map_view(pre.db).union_prefer_right(
                    entries_map(full),
                ),
                self.batch.set@ == pre.batch.set@,
                self.batch.map_view() == no_entries(),
                self.batch_on,
            decreases entries@.len(),
        {
            let ghost before = entries@;
            let p: (crate::Hash, Vec<u8>) = match entries.pop() {
                Some(p) => p,
                None => {
                    proof {
                        assert(entries_map(entries@) =~= Map::<Seq<u8>, Seq<u8>>::empty());
                        assert(byte_map_view(self.db).union_prefer_right(entries_map(entries@))
                            =~= byte_map_view(self.db));
                    }
                    break ;
                },
            };
            let ghost m = before.len() as int;
            let ghost dbv = byte_map_view(self.db);
            byte_map_insert(&mut self.db, p.0, p.1);
            proof {
                assert(before =~= full.take(m));
                assert(full.take(m).drop_last() =~= full.take(m - 1));
                assert(entries@ == before.drop_last());
                assert(entries@ =~= full.take(m - 1));
                assert(forall|i: int, j: int|
                    0 <= i < j < entries@.len() ==> entries@[i].0@ != entries@[j].0@);
                assert(entries_map(before) == entries_map(entries@).insert(p.0@, p.1@));
                lemma_entries_map_characterization(entries@);
                assert(!entries_map(entries@).contains_key(p.0@)) by {
                    if entries_map(entries@).contains_key(p.0@) {
                        let i = choose|i: int|
                            0 <= i < entries@.len() && #[trigger] entries@[i].0@ == p.0@;
                        assert(full[i].0@ == full[m - 1].0@);
                    }
                }
                assert(byte_map_view(self.db).union_prefer_right(entries_map(entries@))
                    =~= dbv.union_prefer_right(entries_map(before)));
            }
        }
        let ghost afterins = byte_map_view(self.db);
        loop
            invariant
                byte_map_view(self.db).remove_keys(key_set(self.batch.set@)) == afterins.remove_keys(
                    key_set(pre.batch.set@),
                ),
                self.batch.map_view() == no_entries(),
                self.batch_on,
            ensures
                byte_map_view(self.db) == afterins.remove_keys(key_set(pre.batch.set@)),
                self.batch.map_view() == no_entries(),
                self.batch.set@.len() == 0,
            decreases self.batch.set@.len(),
        {
            let ghost before = self.batch.set@;
            let k: crate::Hash = match self.batch.set.pop() {
                Some(k) => k,
                None => {
                    proof {
                        assert(key_set(self.batch.set@) =~= Set::<Seq<u8>>::empty());
                        assert(byte_map_view(self.db).remove_keys(key_set(self.batch.set@))
                            =~= byte_map_view(self.db));
                    }
                    break ;
                },
            };
            let ghost dbv = byte_map_view(self.db);
            byte_map_remove(&mut self.db, &k);
            proof {
                lemma_key_set_push(self.batch.set@, k);
                assert(before =~= self.batch.set@.push(k));
                assert(byte_map_view(self.db).remove_keys(key_set(self.batch.set@))
                    =~= dbv.remove_keys(key_set(before)));
            }
        }
        self.batch_on = false;
        proof {
            assert(byte_map_view(self.db) =~= pre.view_map());
        }
        Ok(())
    }
}

} // verus!