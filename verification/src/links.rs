use vstd::prelude::*;

use crate::bytes::AsBytes;
use crate::entity::Entity;
use crate::entity::get_each_u8;
use crate::entity::get_from_u8_array;
use crate::entity::key_bytes_of;
use crate::entity::remove_from_u8_array;
use crate::error::Error;
use crate::error::ErrorKind;
use crate::kv::Store;
use crate::kv::store_finite;
use crate::kv::store_view;
use crate::kv::tree_of;
use crate::relation::all_removed;
use crate::relation::got_list;
use crate::relation::lemma_all_removed_snoc;
use crate::relation::node_removed;

verus! {

// ---------------------------------------------------------------------------
// Key-carrying references to records.
//
// A record can hold a reference to one other record, or to many, as stored
// key bytes; the referenced values are loaded on demand and dropped before
// the reference itself is persisted.
// ---------------------------------------------------------------------------

/// A reference to one record of `T`, by key bytes, with the record itself
/// once loaded.
pub struct RelationSingle<T> {
    pub value: Option<T>,
    pub key: Vec<u8>,
}

impl<T: Entity> RelationSingle<T> {
    /// Builds a loaded reference to `val`.
    pub fn new(val: T) -> (r: RelationSingle<T>)
        ensures
            r.key@ == key_bytes_of(&val),
            r.value matches Some(x) && x == val,
    {
        let key = val.get_key().as_bytes();
        RelationSingle { value: Some(val), key }
    }

    /// Builds an unloaded reference to the record with the given key.
    pub fn from_key(key: T::Key) -> (r: RelationSingle<T>)
        ensures
            r.key@ == key.bytes_spec(),
            r.value is None,
    {
        RelationSingle { value: None, key: key.as_bytes() }
    }

    /// Loads the referenced record if it is not loaded yet. An absent record
    /// leaves the reference unloaded.
    pub fn restore(&mut self, store: &Store) -> (r: Result<(), Error>)
        ensures
            final(self).key@ == old(self).key@,
            old(self).value is Some ==> *final(self) == *old(self),
            r matches Ok(u) ==> match final(self).value {
                Some(rec) => old(self).value is Some || (tree_of(
                    store_view(*store),
                    T::name_spec(),
                ).contains_key(old(self).key@) && rec@ == T::dec_view(
                    tree_of(store_view(*store), T::name_spec())[old(self).key@],
                )),
                None => old(self).value is None && !tree_of(
                    store_view(*store),
                    T::name_spec(),
                ).contains_key(old(self).key@),
            },
            r matches Err(e) ==> e.kind_spec() == ErrorKind::SledError || e.kind_spec()
                == ErrorKind::SerializationError,
    {
        match &self.value {
            Some(x) => Ok(()),
            None => {
                match get_from_u8_array::<T>(self.key.as_slice(), store) {
                    Ok(o) => {
                        self.value = o;
                        Ok(())
                    },
                    Err(e) => Err(e),
                }
            },
        }
    }

    /// Removes the referenced record, subject to the declared integrity
    /// constraints, and drops the loaded value.
    pub fn remove(&mut self, store: &mut Store) -> (r: Result<(), Error>)
        requires
            store_finite(store_view(*old(store))),
        ensures
            final(self).value is None,
            final(self).key@ == old(self).key@,
            r matches Ok(u) ==> store_finite(store_view(*final(store))) && node_removed(
                store_view(*old(store)),
                T::name_spec(),
                old(self).key@,
                store_view(*final(store)),
            ),
            r matches Err(e) ==> (e.kind_spec() == ErrorKind::IntegrityError || e.kind_spec()
                == ErrorKind::UnregisteredEntity) ==> store_view(*final(store)) == store_view(
                *old(store),
            ),
    {
        self.value = None;
        remove_from_u8_array::<T>(self.key.as_slice(), store)
    }
}

/// A strict prefix of the listed keys was removed, each a completed
/// removal, reaching view `vm`.
pub open spec fn removed_prefix<T: Entity>(
    v0: Map<Seq<char>, Map<Seq<u8>, Seq<u8>>>,
    keys: Seq<Vec<u8>>,
    i: int,
    vm: Map<Seq<char>, Map<Seq<u8>, Seq<u8>>>,
) -> bool {
    0 <= i < keys.len() && all_removed(
        v0,
        T::name_spec(),
        keys.map_values(|k: Vec<u8>| k@).subrange(0, i),
        0,
        vm,
    )
}

/// A reference to many records of `T`, by key bytes, with the records
/// themselves once loaded.
pub struct RelationMany<T> {
    pub values: Option<Vec<T>>,
    pub keys: Vec<Vec<u8>>,
}

impl<T: Entity> RelationMany<T> {
    /// Builds an unloaded reference to the records with the given keys.
    pub fn from_keys(keys: Vec<Vec<u8>>) -> (r: RelationMany<T>)
        ensures
            r.keys@ == keys@,
            r.values is None,
    {
        RelationMany { values: None, keys }
    }

    /// Loads the referenced records if they are not loaded yet, in key
    /// order, skipping absent ones.
    pub fn restore(&mut self, store: &Store) -> (r: Result<(), Error>)
        ensures
            final(self).keys@ == old(self).keys@,
            old(self).values is Some ==> *final(self) == *old(self),
            r matches Ok(u) ==> old(self).values is Some || (final(self).values matches Some(list)
                && got_list::<T>(
                store_view(*store),
                old(self).keys@.map_values(|k: Vec<u8>| k@),
            ) == Some(list@.map_values(|rec: T| rec@))),
            r matches Err(e) ==> e.kind_spec() == ErrorKind::SledError || e.kind_spec()
                == ErrorKind::SerializationError,
    {
        match &self.values {
            Some(x) => Ok(()),
            None => {
                match get_each_u8::<T>(&self.keys, store) {
                    Ok(list) => {
                        self.values = Some(list);
                        Ok(())
                    },
                    Err(e) => Err(e),
                }
            },
        }
    }

    /// Removes every referenced record in key order, subject to the declared
    /// integrity constraints, stopping at the first failure. The reference
    /// itself, its key list and any loaded values are left as they are.
    pub fn remove_all(&mut self, store: &mut Store) -> (r: Result<(), Error>)
        requires
            store_finite(store_view(*old(store))),
        ensures
            *final(self) == *old(self),
            r matches Ok(u) ==> store_finite(store_view(*final(store))) && all_removed(
                store_view(*old(store)),
                T::name_spec(),
                old(self).keys@.map_values(|k: Vec<u8>| k@),
                0,
                store_view(*final(store)),
            ),
            r matches Err(e) ==> exists|i: int, vm: Map<Seq<char>, Map<Seq<u8>, Seq<u8>>>|
                #[trigger] removed_prefix::<T>(
                    store_view(*old(store)),
                    old(self).keys@,
                    i,
                    vm,
                ) && ((e.kind_spec() == ErrorKind::IntegrityError || e.kind_spec()
                    == ErrorKind::UnregisteredEntity) ==> store_view(*final(store)) == vm),
    {
        let ghost v0 = store_view(*store);
        let ghost kv = self.keys@.map_values(|k: Vec<u8>| k@);
        let mut i: usize = 0;
        proof {
            assert(all_removed(v0, T::name_spec(), kv.subrange(0, 0), 0, v0));
        }
        while i < self.keys.len()
            invariant
                *self == *old(self),
                v0 == store_view(*old(store)),
                kv == self.keys@.map_values(|k: Vec<u8>| k@),
                0 <= i <= self.keys@.len(),
                store_finite(store_view(*store)),
                all_removed(v0, T::name_spec(), kv.subrange(0, i as int), 0, store_view(*store)),
            decreases self.keys@.len() - i,
        {
            let ghost vcur = store_view(*store);
            match remove_from_u8_array::<T>(self.keys[i].as_slice(), store) {
                Ok(u) => {
                    proof {
                        assert(kv[i as int] == self.keys@[i as int]@);
                        assert(node_removed(vcur, T::name_spec(), kv[i as int], store_view(*store)));
                        lemma_all_removed_snoc(
                            v0,
                            T::name_spec(),
                            kv.subrange(0, i as int),
                            kv[i as int],
                            vcur,
                            store_view(*store),
                        );
                        assert(kv.subrange(0, i as int).push(kv[i as int]) =~= kv.subrange(
                            0,
                            i + 1,
                        ));
                    }
                },
                Err(e) => {
                    proof {
                        assert(removed_prefix::<T>(v0, self.keys@, i as int, vcur));
                    }
                    return Err(e);
                },
            }
            i = i + 1;
        }
        proof {
            assert(kv.subrange(0, kv.len() as int) =~= kv);
        }
        Ok(())
    }
}

} // verus!