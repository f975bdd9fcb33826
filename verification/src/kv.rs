use vstd::prelude::*;

use crate::bytes::lex_lt;
use crate::bytes::prefix_pred;
use crate::bytes::range_pred;
use crate::bytes::sorted_filtered_entries;
use crate::error::Error;
use crate::error::ErrorKind;

verus! {

// ---------------------------------------------------------------------------
// The ordered key/value engine.
//
// The engine itself is an external collaborator: an on-disk collection of
// ordered byte-keyed trees. It is held behind the `Store` handle and modeled
// by `store_view`, the map from keyspace name to the keyspace's contents.
// Every access goes through the trusted wrappers below; everything built on
// them is verified against this model.
// ---------------------------------------------------------------------------

/// A handle to the embedded ordered key/value engine.
#[verifier::external_body]
pub struct Store {
    db: sled::Db,
}

/// What the store holds: for each keyspace name, the map from key bytes to
/// value bytes. A keyspace that was never written is the empty map.
pub uninterp spec fn store_view(s: Store) -> Map<Seq<char>, Map<Seq<u8>, Seq<u8>>>;

/// The contents of one keyspace of view `v`; absent keyspaces are empty.
pub open spec fn tree_of(v: Map<Seq<char>, Map<Seq<u8>, Seq<u8>>>, t: Seq<char>) -> Map<
    Seq<u8>,
    Seq<u8>,
> {
    if v.contains_key(t) {
        v[t]
    } else {
        Map::empty()
    }
}

/// A store view holds finitely many keyspaces, each with finitely many
/// entries. True of every store the engine can hand out.
pub open spec fn store_finite(v: Map<Seq<char>, Map<Seq<u8>, Seq<u8>>>) -> bool {
    &&& v.dom().finite()
    &&& forall|t: Seq<char>| v.contains_key(t) ==> (#[trigger] v[t]).dom().finite()
}

/// The view of an entry listing returned by a scan.
pub open spec fn entries_view(es: Seq<(Vec<u8>, Vec<u8>)>) -> Seq<(Seq<u8>, Seq<u8>)> {
    es.map_values(|p: (Vec<u8>, Vec<u8>)| (p.0@, p.1@))
}

impl Store {
    /// Opens a fresh store backed by temporary files that are removed when
    /// the handle is dropped.
    ///
    /// Relies on `sled::Config::temporary` and `sled::Config::open`: a
    /// temporary store starts at a fresh salted path, so it opens empty.
    #[verifier::external_body]
    pub fn temporary() -> (r: Result<Store, Error>)
        ensures
            match r {
                Ok(s) => store_view(s) == Map::<Seq<char>, Map<Seq<u8>, Seq<u8>>>::empty(),
                Err(e) => e.kind_spec() == ErrorKind::SledError,
            },
    {
        match sled::Config::new().temporary(true).open() {
            Ok(db) => Ok(Store { db }),
            Err(e) => Err(Error::new(ErrorKind::SledError, format!("{}", e))),
        }
    }

    /// Opens the store at the given file-system path.
    ///
    /// Relies on `sled::open`: it recovers the trees persisted at that path,
    /// each a finite ordered map.
    #[verifier::external_body]
    pub fn open(path: &str) -> (r: Result<Store, Error>)
        ensures
            r matches Ok(s) ==> store_finite(store_view(s)),
            r matches Err(e) ==> e.kind_spec() == ErrorKind::SledError,
    {
        match sled::open(path) {
            Ok(db) => Ok(Store { db }),
            Err(e) => Err(Error::new(ErrorKind::SledError, format!("{}", e))),
        }
    }

    /// Reads the value stored under `key` in keyspace `tree`.
    ///
    /// Relies on `sled::Db::open_tree` and `sled::Tree::get`: a point read of
    /// the named tree.
    #[verifier::external_body]
    pub fn kv_get(&self, tree: &str, key: &[u8]) -> (r: Result<Option<Vec<u8>>, Error>)
        ensures
            r matches Ok(o) ==> o matches Some(v) ==> tree_of(store_view(*self), tree@).contains_pair(
                key@,
                v@,
            ),
            r matches Ok(o) ==> o is None ==> !tree_of(store_view(*self), tree@).contains_key(key@),
            r matches Err(e) ==> e.kind_spec() == ErrorKind::SledError,
    {
        match self.db.open_tree(tree).and_then(|t| t.get(key)) {
            Ok(o) => Ok(o.map(|v| v.as_ref().to_vec())),
            Err(e) => Err(Error::new(ErrorKind::SledError, format!("{}", e))),
        }
    }

    /// Tells whether `key` is present in keyspace `tree`, without reading it.
    ///
    /// Relies on `sled::Db::open_tree` and `sled::Tree::contains_key`.
    #[verifier::external_body]
    pub fn kv_contains(&self, tree: &str, key: &[u8]) -> (r: Result<bool, Error>)
        ensures
            r matches Ok(b) ==> b == tree_of(store_view(*self), tree@).contains_key(key@),
            r matches Err(e) ==> e.kind_spec() == ErrorKind::SledError,
    {
        match self.db.open_tree(tree).and_then(|t| t.contains_key(key)) {
            Ok(b) => Ok(b),
            Err(e) => Err(Error::new(ErrorKind::SledError, format!("{}", e))),
        }
    }

    /// The number of entries in keyspace `tree`.
    ///
    /// Relies on `sled::Db::open_tree` and `sled::Tree::len`, which counts
    /// by scanning; a mid-scan engine fault is not surfaced by sled, so the
    /// count is that of a fault-free scan.
    #[verifier::external_body]
    pub fn kv_len(&self, tree: &str) -> (r: Result<usize, Error>)
        ensures
            r matches Ok(n) ==> n == tree_of(store_view(*self), tree@).dom().len(),
            r matches Err(e) ==> e.kind_spec() == ErrorKind::SledError,
    {
        match self.db.open_tree(tree) {
            Ok(t) => Ok(t.len()),
            Err(e) => Err(Error::new(ErrorKind::SledError, format!("{}", e))),
        }
    }

    /// Stores `val` under `key` in keyspace `tree`, overwriting any previous
    /// value.
    ///
    /// Relies on `sled::Db::open_tree` and `sled::Tree::insert`.
    #[verifier::external_body]
    pub fn kv_insert(&mut self, tree: &str, key: &[u8], val: &[u8]) -> (r: Result<(), Error>)
        ensures
            r matches Ok(u) ==> store_view(*final(self)) == store_view(*old(self)).insert(
                tree@,
                tree_of(store_view(*old(self)), tree@).insert(key@, val@),
            ),
            r matches Err(e) ==> e.kind_spec() == ErrorKind::SledError,
    {
        match self.db.open_tree(tree).and_then(|t| t.insert(key, val)) {
            Ok(_) => Ok(()),
            Err(e) => Err(Error::new(ErrorKind::SledError, format!("{}", e))),
        }
    }

    /// Deletes the entry under `key` in keyspace `tree`; absent keys are a
    /// no-op.
    ///
    /// Relies on `sled::Db::open_tree` and `sled::Tree::remove`.
    #[verifier::external_body]
    pub fn kv_remove(&mut self, tree: &str, key: &[u8]) -> (r: Result<(), Error>)
        ensures
            r matches Ok(u) ==> store_view(*final(self)) == store_view(*old(self)).insert(
                tree@,
                tree_of(store_view(*old(self)), tree@).remove(key@),
            ),
            r matches Err(e) ==> e.kind_spec() == ErrorKind::SledError,
    {
        match self.db.open_tree(tree).and_then(|t| t.remove(key)) {
            Ok(_) => Ok(()),
            Err(e) => Err(Error::new(ErrorKind::SledError, format!("{}", e))),
        }
    }

    /// Lists the entries of keyspace `tree` whose keys start with `prefix`,
    /// in ascending key order. An empty prefix lists the whole keyspace.
    ///
    /// Relies on `sled::Db::open_tree` and `sled::Tree::scan_prefix`: the
    /// iterator yields exactly the prefixed entries, in ascending
    /// lexicographic byte order of their keys.
    #[verifier::external_body]
    pub fn kv_scan_prefix(&self, tree: &str, prefix: &[u8]) -> (r: Result<
        Vec<(Vec<u8>, Vec<u8>)>,
        Error,
    >)
        ensures
            r matches Ok(es) ==> sorted_filtered_entries(
                tree_of(store_view(*self), tree@),
                prefix_pred(prefix@),
                entries_view(es@),
            ),
            r matches Err(e) ==> e.kind_spec() == ErrorKind::SledError,
    {
        let t = match self.db.open_tree(tree) {
            Ok(t) => t,
            Err(e) => return Err(Error::new(ErrorKind::SledError, format!("{}", e))),
        };
        let mut out = Vec::new();
        for item in t.scan_prefix(prefix) {
            match item {
                Ok((k, v)) => out.push((k.as_ref().to_vec(), v.as_ref().to_vec())),
                Err(e) => return Err(Error::new(ErrorKind::SledError, format!("{}", e))),
            }
        }
        Ok(out)
    }

    /// Lists the entries of keyspace `tree` whose keys lie in `[lo, hi)`, in
    /// ascending key order.
    ///
    /// Relies on `sled::Db::open_tree` and `sled::Tree::range`: the iterator
    /// yields exactly the entries of the half-open key range, in ascending
    /// lexicographic byte order of their keys.
    #[verifier::external_body]
    pub fn kv_range(&self, tree: &str, lo: &[u8], hi: &[u8]) -> (r: Result<
        Vec<(Vec<u8>, Vec<u8>)>,
        Error,
    >)
        ensures
            r matches Ok(es) ==> sorted_filtered_entries(
                tree_of(store_view(*self), tree@),
                range_pred(lo@, hi@),
                entries_view(es@),
            ),
            r matches Err(e) ==> e.kind_spec() == ErrorKind::SledError,
    {
        let t = match self.db.open_tree(tree) {
            Ok(t) => t,
            Err(e) => return Err(Error::new(ErrorKind::SledError, format!("{}", e))),
        };
        let mut out = Vec::new();
        for item in t.range(lo..hi) {
            match item {
                Ok((k, v)) => out.push((k.as_ref().to_vec(), v.as_ref().to_vec())),
                Err(e) => return Err(Error::new(ErrorKind::SledError, format!("{}", e))),
            }
        }
        Ok(out)
    }

    /// The entry of keyspace `tree` with the greatest key, if any.
    ///
    /// Relies on `sled::Db::open_tree` and `sled::Tree::last`.
    #[verifier::external_body]
    pub fn kv_last(&self, tree: &str) -> (r: Result<Option<(Vec<u8>, Vec<u8>)>, Error>)
        ensures
            r matches Ok(o) ==> o matches Some(kv) ==> tree_of(
                store_view(*self),
                tree@,
            ).contains_pair(kv.0@, kv.1@) && forall|k2: Seq<u8>|
                tree_of(store_view(*self), tree@).contains_key(k2) ==> k2 == kv.0@ || lex_lt(
                    k2,
                    kv.0@,
                ),
            r matches Ok(o) ==> o is None ==> forall|k2: Seq<u8>|
                !tree_of(store_view(*self), tree@).contains_key(k2),
            r matches Err(e) ==> e.kind_spec() == ErrorKind::SledError,
    {
        match self.db.open_tree(tree).and_then(|t| t.last()) {
            Ok(o) => Ok(o.map(|(k, v)| (k.as_ref().to_vec(), v.as_ref().to_vec()))),
            Err(e) => Err(Error::new(ErrorKind::SledError, format!("{}", e))),
        }
    }
}

} // verus!
