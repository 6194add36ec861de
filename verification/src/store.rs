//! Trusted interface to the sled embedded store: a handle on the store and
//! handles on its named key spaces, each modelled as a mapping from key
//! bytes to value bytes. Storage failures abort, as the callers of this
//! chain expect; everything else is stated over the mapping.

use vstd::prelude::*;

verus! {

#[verifier::external_type_specification]
#[verifier::external_body]
pub struct ExSledDb(sled::Db);

#[verifier::external_type_specification]
#[verifier::external_body]
pub struct ExSledTree(sled::Tree);

/// A handle on the whole persistent store.
pub struct KvDb {
    pub db: sled::Db,
}

/// A handle on one named key space of the store. The contents name below
/// is a function of the handle value, so two live handles on one key
/// space would carry unrelated contents; keep one live handle per key
/// space, as this crate does.
pub struct KvTree {
    pub tree: sled::Tree,
}

/// What a key space holds: a mapping from key bytes to value bytes.
pub uninterp spec fn kv_map(t: KvTree) -> Map<Seq<u8>, Seq<u8>>;

/// The empty mapping: what a cleared key space holds.
pub open spec fn kv_empty() -> Map<Seq<u8>, Seq<u8>> {
    Map::empty()
}

impl KvDb {
    /// Relies on sled::open: opens the store at `path`, creating it if
    /// none exists there.
    #[verifier::external_body]
    pub fn open(path: &str) -> KvDb {
        KvDb { db: sled::open(path).unwrap() }
    }

    /// Relies on sled::Config::temporary: opens a store backed by files
    /// that are removed when the handle is dropped.
    #[verifier::external_body]
    pub fn open_temporary() -> KvDb {
        KvDb { db: sled::Config::new().temporary(true).open().unwrap() }
    }

    /// Relies on sled::Db::clone: another handle on the same store.
    /// Nothing is promised of how the handles' key spaces relate.
    #[verifier::external_body]
    pub fn clone_handle(&self) -> KvDb {
        KvDb { db: self.db.clone() }
    }

    /// Relies on sled::Db::open_tree: opens the named key space. Nothing
    /// is promised of its contents: they are whatever the store holds.
    #[verifier::external_body]
    pub fn open_tree(&self, name: &str) -> KvTree {
        KvTree { tree: self.db.open_tree(name).unwrap() }
    }
}

impl KvTree {
    /// Relies on sled::Tree::get: returns the value stored under `key`,
    /// or `None` where the mapping has no such key.
    #[verifier::external_body]
    pub fn get(&self, key: &[u8]) -> (r: Option<Vec<u8>>)
        ensures
            kv_map(*self).contains_key(key@) ==> r is Some && r->0@ == kv_map(*self)[key@],
            !kv_map(*self).contains_key(key@) ==> r is None,
    {
        match self.tree.get(key).unwrap() {
            Some(v) => Some(v.to_vec()),
            None => None,
        }
    }

    /// Relies on sled::Tree::insert: stores `value` under `key`,
    /// replacing any previous value.
    #[verifier::external_body]
    pub fn insert(&mut self, key: &[u8], value: &[u8])
        ensures
            kv_map(*final(self)) == kv_map(*old(self)).insert(key@, value@),
    {
        let _ = self.tree.insert(key, value).unwrap();
    }

    /// Relies on sled::Tree::apply_batch and sled::Batch::insert: stores
    /// the two pairs as one atomically applied batch, so that a crash
    /// never leaves one write durable without the other.
    #[verifier::external_body]
    pub fn insert_pair(&mut self, k1: &[u8], v1: &[u8], k2: &[u8], v2: &[u8])
        ensures
            kv_map(*final(self)) == kv_map(*old(self)).insert(k1@, v1@).insert(k2@, v2@),
    {
        let mut batch = sled::Batch::default();
        batch.insert(k1, v1);
        batch.insert(k2, v2);
        self.tree.apply_batch(batch).unwrap();
    }

    /// Relies on sled::Tree::clear: removes every pair.
    #[verifier::external_body]
    pub fn clear(&mut self)
        ensures
            kv_map(*final(self)) == kv_empty(),
    {
        self.tree.clear().unwrap();
    }

    /// Relies on sled::Tree::iter: yields every stored pair exactly once.
    /// No order is promised of the result.
    #[verifier::external_body]
    pub fn entries(&self) -> (r: Vec<(Vec<u8>, Vec<u8>)>)
        ensures
            forall|i: int, j: int|
                #![trigger r@[i], r@[j]]
                0 <= i < j < r@.len() ==> r@[i].0@ != r@[j].0@,
            forall|i: int|
                0 <= i < r@.len() ==> kv_map(*self).contains_key(#[trigger] r@[i].0@) && kv_map(
                    *self,
                )[r@[i].0@] == r@[i].1@,
            forall|k: Seq<u8>|
                #[trigger] kv_map(*self).contains_key(k) ==> exists|i: int|
                    0 <= i < r@.len() && #[trigger] r@[i].0@ == k,
    {
        let mut out: Vec<(Vec<u8>, Vec<u8>)> = Vec::new();
        for item in self.tree.iter() {
            let (k, v) = item.unwrap();
            out.push((k.to_vec(), v.to_vec()));
        }
        out
    }
}

} // verus!
