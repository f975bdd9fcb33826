use vstd::prelude::*;
use vstd::string::StrSliceExecFns;
use vstd::utf8::encode_utf8;

use crate::bytes::AsBytes;
use crate::codec::dec_family;
use crate::codec::enc_family;
use crate::descriptor::DeletionBehaviour;
use crate::descriptor::FamilyDescriptor;
use crate::descriptor::FamilyView;
use crate::descriptor::tree_list_view;
use crate::error::Error;
use crate::error::ErrorKind;
use crate::bytes::be32;
use crate::bytes::be32_val;
use crate::bytes::has_prefix;
use crate::bytes::lex_lt;
use crate::bytes::prefix_pred;
use crate::bytes::range_pred;
use crate::bytes::read_u32_be;
use crate::bytes::sorted_filtered_entries;
use crate::kv::Store;
use crate::kv::entries_view;
use crate::kv::store_finite;
use crate::kv::store_view;
use crate::kv::tree_of;
use crate::model::Node;
use crate::model::chk_ok;
use crate::model::plan_set;
use crate::codec::dec_relations;
use crate::codec::decode_relations;
use crate::model::SView;
use crate::model::fault_reach;
use crate::relation::rekey_from;
use crate::model::msg_unregistered;
use crate::relation::rel_tree_spec;
use crate::relation::Relation;
use crate::relation::node_removed;
use crate::relation::nodes_plan_shape;
use crate::relation::plan_pruned;
use crate::relation::removal_ok;

verus! {

// ---------------------------------------------------------------------------
// The entity abstraction.
//
// An entity type declares a keyspace name, a typed key, a binary record
// form, and its sibling and child families. Everything a contract needs is
// available as a spec-level counterpart, and two laws tie the executable
// pieces together: the record codec round-trips, and the keyspace name is
// valid (non-empty and outside the reserved prefix).
// ---------------------------------------------------------------------------

/// A keyspace name a caller may choose: non-empty and not starting with the
/// reserved `__$` prefix.
pub open spec fn valid_store_name(n: Seq<char>) -> bool {
    &&& n.len() > 0
    &&& !(n.len() >= 3 && n[0] == '_' && n[1] == '_' && n[2] == '$')
}

/// The `Entity` trait provides document-store capabilities for any record
/// type that implements it.
pub trait Entity: Sized + View {
    /// The type of the key for this document store.
    type Key: AsBytes;

    /// The keyspace name, as a mathematical value.
    spec fn name_spec() -> Seq<char>;

    /// This record's key, as a mathematical value.
    spec fn key_spec(&self) -> Self::Key;

    /// This record's stored binary form, as a mathematical value.
    spec fn rec_enc(&self) -> Seq<u8>;

    /// Whether a stored binary form decodes to a record.
    spec fn dec_ok(b: Seq<u8>) -> bool;

    /// The record a stored binary form decodes to, as a mathematical value.
    spec fn dec_view(b: Seq<u8>) -> Self::V;

    /// Whether this record's parts are small enough to encode; true of every
    /// record that exists in memory.
    spec fn rec_wf(&self) -> bool;

    /// The declared sibling keyspaces, as a mathematical value.
    spec fn sibling_trees_spec() -> Seq<(Seq<char>, DeletionBehaviour)>;

    /// The declared child keyspaces, as a mathematical value.
    spec fn child_trees_spec() -> Seq<(Seq<char>, DeletionBehaviour)>;

    /// The name of the keyspace that holds records of this type. It must be
    /// unique across entity types.
    fn store_name() -> (r: &'static str)
        ensures
            r@ == Self::name_spec(),
    ;

    /// A reference to the key of this instance.
    fn get_key(&self) -> (k: &Self::Key)
        ensures
            *k == self.key_spec(),
    ;

    /// Changes this instance's key to the given one.
    fn set_key(&mut self, key: &Self::Key)
        ensures
            final(self).key_spec() == *key,
    ;

    /// This record's stored binary form.
    fn to_bytes(&self) -> (r: Vec<u8>)
        ensures
            r@ == self.rec_enc(),
    ;

    /// Reads a record back from its stored binary form.
    fn from_bytes(b: &[u8]) -> (r: Option<Self>)
        ensures
            match r {
                Some(rec) => Self::dec_ok(b@) && rec@ == Self::dec_view(b@),
                None => !Self::dec_ok(b@),
            },
    ;

    /// The sibling keyspaces of this type, with the deletion behaviour to
    /// apply to the sibling record when a record of this type is removed.
    fn get_sibling_trees() -> (r: Vec<(String, DeletionBehaviour)>)
        ensures
            tree_list_view(r@) == Self::sibling_trees_spec(),
    ;

    /// The child keyspaces of this type, with the deletion behaviour to
    /// apply to the child records when a record of this type is removed.
    fn get_child_trees() -> (r: Vec<(String, DeletionBehaviour)>)
        ensures
            tree_list_view(r@) == Self::child_trees_spec(),
    ;

    /// The record codec reads back what it wrote.
    proof fn law_codec(r: &Self)
        requires
            r.rec_wf(),
        ensures
            Self::dec_ok(r.rec_enc()),
            Self::dec_view(r.rec_enc()) == r@,
    ;

    /// The keyspace name is caller-choosable: non-empty and outside the
    /// reserved prefix.
    proof fn law_store_name()
        ensures
            valid_store_name(Self::name_spec()),
    ;
}

/// The key bytes under which a record is stored.
pub open spec fn key_bytes_of<E: Entity>(e: &E) -> Seq<u8> {
    e.key_spec().bytes_spec()
}

// ---------------------------------------------------------------------------
// The registry keyspace.
// ---------------------------------------------------------------------------

/// The reserved keyspace that holds the family descriptor of every
/// registered entity type, keyed by keyspace name.
pub fn family_tree_name() -> (r: &'static str)
    ensures
        r@ == family_tree_spec(),
{
    "__$family_rel"
}

/// The name of the registry keyspace.
pub open spec fn family_tree_spec() -> Seq<char> {
    "__$family_rel"@
}

/// The family descriptor of entity type `E`, as a mathematical value.
pub open spec fn family_view_of<E: Entity>() -> FamilyView {
    FamilyView {
        name: E::name_spec(),
        siblings: E::sibling_trees_spec(),
        children: E::child_trees_spec(),
    }
}

/// The stored family descriptor for keyspace name `t` in store view `v`:
/// `None` when the type was never registered, `Some(None)` when the stored
/// bytes do not decode, and `Some(Some(f))` otherwise.
pub open spec fn fam_of(
    v: Map<Seq<char>, Map<Seq<u8>, Seq<u8>>>,
    t: Seq<char>,
) -> Option<Option<FamilyView>> {
    let reg = tree_of(v, family_tree_spec());
    let kb = encode_utf8(t);
    if reg.contains_key(kb) {
        Some(dec_family(reg[kb]))
    } else {
        None
    }
}

/// Registers entity type `E`: writes (or overwrites) its family descriptor
/// in the registry keyspace. Idempotent; must be called once per process for
/// every type whose records will be removed.
pub fn register<E: Entity>(store: &mut Store) -> (r: Result<(), Error>)
    ensures
        r matches Ok(u) ==> store_view(*final(store)) == store_view(*old(store)).insert(
            family_tree_spec(),
            tree_of(store_view(*old(store)), family_tree_spec()).insert(
                encode_utf8(E::name_spec()),
                enc_family(family_view_of::<E>()),
            ),
        ),
        r matches Err(e) ==> e.kind_spec() == ErrorKind::SledError,
{
    let desc = FamilyDescriptor {
        tree_name: E::store_name().to_owned(),
        sibling_trees: E::get_sibling_trees(),
        child_trees: E::get_child_trees(),
    };
    let bytes = desc.encode();
    let name_key = E::store_name().as_bytes_vec();
    assert(desc@ == family_view_of::<E>());
    store.kv_insert(family_tree_name(), name_key.as_slice(), bytes.as_slice())
}

// ---------------------------------------------------------------------------
// Typed persistence.
// ---------------------------------------------------------------------------

/// Saves a record to its keyspace under its key; an existing record under
/// the same key is overwritten.
pub fn save<E: Entity>(e: &E, store: &mut Store) -> (r: Result<(), Error>)
    ensures
        r matches Ok(u) ==> store_view(*final(store)) == store_view(*old(store)).insert(
            E::name_spec(),
            tree_of(store_view(*old(store)), E::name_spec()).insert(key_bytes_of(e), e.rec_enc()),
        ),
        r matches Err(err) ==> err.kind_spec() == ErrorKind::SledError,
{
    let kb = e.get_key().as_bytes();
    let vb = e.to_bytes();
    store.kv_insert(E::store_name(), kb.as_slice(), vb.as_slice())
}

/// Reads the record stored under raw key bytes in `E`'s keyspace.
pub fn get_from_u8_array<E: Entity>(key: &[u8], store: &Store) -> (r: Result<Option<E>, Error>)
    ensures
        r matches Ok(o) ==> match o {
            Some(rec) => tree_of(store_view(*store), E::name_spec()).contains_key(key@)
                && E::dec_ok(tree_of(store_view(*store), E::name_spec())[key@]) && rec@
                == E::dec_view(tree_of(store_view(*store), E::name_spec())[key@]),
            None => !tree_of(store_view(*store), E::name_spec()).contains_key(key@),
        },
        r matches Err(e) ==> e.kind_spec() == ErrorKind::SledError || (e.kind_spec()
            == ErrorKind::SerializationError && tree_of(
            store_view(*store),
            E::name_spec(),
        ).contains_key(key@) && !E::dec_ok(
            tree_of(store_view(*store), E::name_spec())[key@],
        )),
{
    match store.kv_get(E::store_name(), key) {
        Err(e) => Err(e),
        Ok(None) => Ok(None),
        Ok(Some(v)) => match E::from_bytes(v.as_slice()) {
            Some(rec) => Ok(Some(rec)),
            None => Err(
                Error::new(ErrorKind::SerializationError, E::store_name().to_owned()),
            ),
        },
    }
}

/// Retrieves the record with the given key, if present.
pub fn get<E: Entity>(key: &E::Key, store: &Store) -> (r: Result<Option<E>, Error>)
    ensures
        r matches Ok(o) ==> match o {
            Some(rec) => tree_of(store_view(*store), E::name_spec()).contains_key(
                key.bytes_spec(),
            ) && E::dec_ok(tree_of(store_view(*store), E::name_spec())[key.bytes_spec()]) && rec@
                == E::dec_view(tree_of(store_view(*store), E::name_spec())[key.bytes_spec()]),
            None => !tree_of(store_view(*store), E::name_spec()).contains_key(key.bytes_spec()),
        },
        r matches Err(e) ==> e.kind_spec() == ErrorKind::SledError || (e.kind_spec()
            == ErrorKind::SerializationError && tree_of(
            store_view(*store),
            E::name_spec(),
        ).contains_key(key.bytes_spec()) && !E::dec_ok(
            tree_of(store_view(*store), E::name_spec())[key.bytes_spec()],
        )),
{
    let kb = key.as_bytes();
    get_from_u8_array::<E>(kb.as_slice(), store)
}

/// Tells whether a record with the given key exists, without reading it.
pub fn exists_key<E: Entity>(key: &E::Key, store: &Store) -> (r: Result<bool, Error>)
    ensures
        r matches Ok(b) ==> b == tree_of(store_view(*store), E::name_spec()).contains_key(
            key.bytes_spec(),
        ),
        r matches Err(e) ==> e.kind_spec() == ErrorKind::SledError,
{
    let kb = key.as_bytes();
    store.kv_contains(E::store_name(), kb.as_slice())
}

/// The number of records in `E`'s keyspace.
pub fn get_count<E: Entity>(store: &Store) -> (r: Result<usize, Error>)
    ensures
        r matches Ok(n) ==> n == tree_of(store_view(*store), E::name_spec()).dom().len(),
        r matches Err(e) ==> e.kind_spec() == ErrorKind::SledError,
{
    store.kv_len(E::store_name())
}


// ---------------------------------------------------------------------------
// Listing, ranges and pagination.
// ---------------------------------------------------------------------------

/// Decodes a listing of stored entries into records.
fn decode_entries<E: Entity>(es: &Vec<(Vec<u8>, Vec<u8>)>, tree: &str) -> (r: Result<
    Vec<E>,
    Error,
>)
    ensures
        r matches Ok(list) ==> list@.len() == es@.len() && forall|i: int|
            0 <= i < es@.len() ==> E::dec_ok((#[trigger] entries_view(es@)[i]).1) && list@[i]@
                == E::dec_view(entries_view(es@)[i].1),
        r matches Err(e) ==> e.kind_spec() == ErrorKind::SerializationError && exists|i: int|
            0 <= i < es@.len() && !E::dec_ok((#[trigger] entries_view(es@)[i]).1),
{
    let mut out: Vec<E> = Vec::new();
    let mut i: usize = 0;
    while i < es.len()
        invariant
            0 <= i <= es@.len(),
            out@.len() == i,
            forall|m: int|
                0 <= m < i ==> E::dec_ok((#[trigger] entries_view(es@)[m]).1) && out@[m]@
                    == E::dec_view(entries_view(es@)[m].1),
        decreases es@.len() - i,
    {
        assert(entries_view(es@)[i as int] == (es@[i as int].0@, es@[i as int].1@));
        match E::from_bytes(es[i].1.as_slice()) {
            Some(rec) => {
                out.push(rec);
                assert(E::dec_ok(entries_view(es@)[i as int].1) && out@[i as int]@ == E::dec_view(
                    entries_view(es@)[i as int].1,
                ));
            },
            None => {
                return Err(Error::new(ErrorKind::SerializationError, tree.to_owned()));
            },
        }
        i = i + 1;
    }
    Ok(out)
}

/// Retrieves all records of `E`'s keyspace, in ascending key order.
pub fn get_all<E: Entity>(store: &Store) -> (r: Result<Vec<E>, Error>)
    ensures
        r matches Ok(list) ==> exists|es: Seq<(Seq<u8>, Seq<u8>)>|
            #![trigger es.len()]
            sorted_filtered_entries(
                tree_of(store_view(*store), E::name_spec()),
                prefix_pred(Seq::<u8>::empty()),
                es,
            ) && list@.len() == es.len() && forall|i: int|
                0 <= i < es.len() ==> E::dec_ok((#[trigger] es[i]).1) && list@[i]@ == E::dec_view(
                    es[i].1,
                ),
        r matches Err(e) ==> e.kind_spec() == ErrorKind::SledError || e.kind_spec()
            == ErrorKind::SerializationError,
{
    let empty: Vec<u8> = Vec::new();
    let es = match store.kv_scan_prefix(E::store_name(), empty.as_slice()) {
        Ok(es) => es,
        Err(e) => {
            return Err(e);
        },
    };
    proof {
        assert(empty@ =~= Seq::<u8>::empty());
    }
    let out = decode_entries::<E>(&es, E::store_name());
    proof {
        if out is Ok {
            let esv = entries_view(es@);
            let list = out->Ok_0;
            assert(esv.len() == es@.len());
            assert(sorted_filtered_entries(
                tree_of(store_view(*store), E::name_spec()),
                prefix_pred(Seq::<u8>::empty()),
                esv,
            ) && list@.len() == esv.len() && forall|i: int|
                0 <= i < esv.len() ==> E::dec_ok((#[trigger] esv[i]).1) && list@[i]@
                    == E::dec_view(esv[i].1));
        }
    }
    out
}

/// Retrieves the records whose key bytes start with the byte form of `key`,
/// in ascending key order; used for child enumeration.
pub fn get_with_prefix<E: Entity, P: AsBytes>(key: &P, store: &Store) -> (r: Result<
    Vec<E>,
    Error,
>)
    ensures
        r matches Ok(list) ==> exists|es: Seq<(Seq<u8>, Seq<u8>)>|
            #![trigger es.len()]
            sorted_filtered_entries(
                tree_of(store_view(*store), E::name_spec()),
                prefix_pred(key.bytes_spec()),
                es,
            ) && list@.len() == es.len() && forall|i: int|
                0 <= i < es.len() ==> E::dec_ok((#[trigger] es[i]).1) && list@[i]@ == E::dec_view(
                    es[i].1,
                ),
        r matches Err(e) ==> e.kind_spec() == ErrorKind::SledError || e.kind_spec()
            == ErrorKind::SerializationError,
{
    let kb = key.as_bytes();
    let es = match store.kv_scan_prefix(E::store_name(), kb.as_slice()) {
        Ok(es) => es,
        Err(e) => {
            return Err(e);
        },
    };
    let out = decode_entries::<E>(&es, E::store_name());
    proof {
        if out is Ok {
            let esv = entries_view(es@);
            let list = out->Ok_0;
            assert(esv.len() == es@.len());
            assert(sorted_filtered_entries(
                tree_of(store_view(*store), E::name_spec()),
                prefix_pred(key.bytes_spec()),
                esv,
            ) && list@.len() == esv.len() && forall|i: int|
                0 <= i < esv.len() ==> E::dec_ok((#[trigger] esv[i]).1) && list@[i]@
                    == E::dec_view(esv[i].1));
        }
    }
    out
}

/// Retrieves the records whose key bytes lie in `[start, end)`, in ascending
/// key order.
pub fn get_in_range<E: Entity, A: AsBytes, B: AsBytes>(start: &A, end: &B, store: &Store) -> (r:
    Result<Vec<E>, Error>)
    ensures
        r matches Ok(list) ==> exists|es: Seq<(Seq<u8>, Seq<u8>)>|
            #![trigger es.len()]
            sorted_filtered_entries(
                tree_of(store_view(*store), E::name_spec()),
                range_pred(start.bytes_spec(), end.bytes_spec()),
                es,
            ) && list@.len() == es.len() && forall|i: int|
                0 <= i < es.len() ==> E::dec_ok((#[trigger] es[i]).1) && list@[i]@ == E::dec_view(
                    es[i].1,
                ),
        r matches Err(e) ==> e.kind_spec() == ErrorKind::SledError || e.kind_spec()
            == ErrorKind::SerializationError,
{
    let lo = start.as_bytes();
    let hi = end.as_bytes();
    let es = match store.kv_range(E::store_name(), lo.as_slice(), hi.as_slice()) {
        Ok(es) => es,
        Err(e) => {
            return Err(e);
        },
    };
    let out = decode_entries::<E>(&es, E::store_name());
    proof {
        if out is Ok {
            let esv = entries_view(es@);
            let list = out->Ok_0;
            assert(esv.len() == es@.len());
            assert(sorted_filtered_entries(
                tree_of(store_view(*store), E::name_spec()),
                range_pred(start.bytes_spec(), end.bytes_spec()),
                esv,
            ) && list@.len() == esv.len() && forall|i: int|
                0 <= i < esv.len() ==> E::dec_ok((#[trigger] esv[i]).1) && list@[i]@
                    == E::dec_view(esv[i].1));
        }
    }
    out
}

/// Takes the window `[start, start + count)` of a listing, clamped to its
/// length.
fn window_from_start(es: Vec<(Vec<u8>, Vec<u8>)>, start: usize, count: usize) -> (r: Vec<
    (Vec<u8>, Vec<u8>),
>)
    ensures
        entries_view(r@) == entries_view(es@).subrange(
            if start as int <= es@.len() {
                start as int
            } else {
                es@.len() as int
            },
            if start + count <= es@.len() {
                start + count
            } else {
                es@.len() as int
            },
        ),
{
    let lo = if start <= es.len() {
        start
    } else {
        es.len()
    };
    let hi = if count <= es.len() - lo && start <= es.len() {
        start + count
    } else {
        es.len()
    };
    let mut out: Vec<(Vec<u8>, Vec<u8>)> = Vec::new();
    let mut i: usize = lo;
    while i < hi
        invariant
            lo <= i <= hi <= es@.len(),
            entries_view(out@) == entries_view(es@).subrange(lo as int, i as int),
        decreases hi - i,
    {
        let kb = crate::bytes::AsBytes::as_bytes(&es[i].0);
        let vb = crate::bytes::AsBytes::as_bytes(&es[i].1);
        assert(kb@ == es@[i as int].0@ && vb@ == es@[i as int].1@);
        out.push((kb, vb));
        proof {
            assert(out@.len() == i + 1 - lo) by {
                assert(entries_view(es@).subrange(lo as int, i as int).len() == i - lo);
            }
            assert(entries_view(out@).len() == i + 1 - lo);
            assert forall|m: int| 0 <= m < i + 1 - lo implies entries_view(out@)[m]
                == entries_view(es@).subrange(lo as int, i + 1)[m] by {
                if m < i - lo {
                    assert(entries_view(out@)[m] == entries_view(es@).subrange(
                        lo as int,
                        i as int,
                    )[m]);
                }
            }
            assert(entries_view(out@) =~= entries_view(es@).subrange(lo as int, i + 1));
        }
        i = i + 1;
    }
    proof {
        assert(entries_view(out@) =~= entries_view(es@).subrange(lo as int, hi as int));
    }
    out
}

/// Retrieves up to `count` records starting at index `start` of the
/// ascending listing (of the whole keyspace, or of the records prefixed by
/// `parent`'s key bytes).
pub fn get_from_start<E: Entity, P: AsBytes>(
    start: usize,
    count: usize,
    parent: Option<&P>,
    store: &Store,
) -> (r: Result<Vec<E>, Error>)
    ensures
        r matches Err(e) ==> e.kind_spec() == ErrorKind::SledError || e.kind_spec()
            == ErrorKind::SerializationError,
        r matches Ok(list) ==> exists|es: Seq<(Seq<u8>, Seq<u8>)>|
            #![trigger es.len()]
            sorted_filtered_entries(
                tree_of(store_view(*store), E::name_spec()),
                match parent {
                    Some(p) => prefix_pred(p.bytes_spec()),
                    None => prefix_pred(Seq::<u8>::empty()),
                },
                es,
            ) && ({
                let lo = if start as int <= es.len() {
                    start as int
                } else {
                    es.len() as int
                };
                let hi = if start + count <= es.len() {
                    start + count
                } else {
                    es.len() as int
                };
                list@.len() == hi - lo && forall|i: int|
                    0 <= i < list@.len() ==> E::dec_ok((#[trigger] es[lo + i]).1) && list@[i]@
                        == E::dec_view(es[lo + i].1)
            }),
{
    let prefix: Vec<u8> = match parent {
        Some(p) => p.as_bytes(),
        None => Vec::new(),
    };
    let es = match store.kv_scan_prefix(E::store_name(), prefix.as_slice()) {
        Ok(es) => es,
        Err(e) => {
            return Err(e);
        },
    };
    proof {
        match parent {
            Some(p) => {
                assert(prefix@ == p.bytes_spec());
            },
            None => {
                assert(prefix@ =~= Seq::<u8>::empty());
            },
        }
    }
    let ghost esv = entries_view(es@);
    let win = window_from_start(es, start, count);
    let out = decode_entries::<E>(&win, E::store_name());
    proof {
        if out is Ok {
            let list = out->Ok_0;
            let lo = if start as int <= esv.len() { start as int } else { esv.len() as int };
            let hi = if start + count <= esv.len() { start + count } else { esv.len() as int };
            assert(esv.len() == es@.len());
            assert(entries_view(win@) == esv.subrange(lo, hi));
            assert(list@.len() == hi - lo);
            assert forall|i: int| 0 <= i < list@.len() implies E::dec_ok(
                (#[trigger] esv[lo + i]).1,
            ) && list@[i]@ == E::dec_view(esv[lo + i].1) by {
                assert(entries_view(win@)[i] == esv.subrange(lo, hi)[i]);
                assert(esv.subrange(lo, hi)[i] == esv[lo + i]);
            }
            assert(sorted_filtered_entries(
                tree_of(store_view(*store), E::name_spec()),
                match parent {
                    Some(p) => prefix_pred(p.bytes_spec()),
                    None => prefix_pred(Seq::<u8>::empty()),
                },
                esv,
            ) && list@.len() == hi - lo && forall|i: int|
                0 <= i < list@.len() ==> E::dec_ok((#[trigger] esv[lo + i]).1) && list@[i]@
                    == E::dec_view(esv[lo + i].1));
        }
    }
    out
}

/// Retrieves up to `count` records ending at index `start` from the end of
/// the ascending listing, returned in ascending order.
pub fn get_from_end<E: Entity, P: AsBytes>(
    start: usize,
    count: usize,
    parent: Option<&P>,
    store: &Store,
) -> (r: Result<Vec<E>, Error>)
    ensures
        r matches Err(e) ==> e.kind_spec() == ErrorKind::SledError || e.kind_spec()
            == ErrorKind::SerializationError,
        r matches Ok(list) ==> exists|es: Seq<(Seq<u8>, Seq<u8>)>|
            #![trigger es.len()]
            sorted_filtered_entries(
                tree_of(store_view(*store), E::name_spec()),
                match parent {
                    Some(p) => prefix_pred(p.bytes_spec()),
                    None => prefix_pred(Seq::<u8>::empty()),
                },
                es,
            ) && ({
                let hi = if start as int <= es.len() {
                    es.len() - start
                } else {
                    0int
                };
                let lo = if start + count <= es.len() {
                    es.len() - start - count
                } else {
                    0int
                };
                list@.len() == hi - lo && forall|i: int|
                    0 <= i < list@.len() ==> E::dec_ok((#[trigger] es[lo + i]).1) && list@[i]@
                        == E::dec_view(es[lo + i].1)
            }),
{
    let prefix: Vec<u8> = match parent {
        Some(p) => p.as_bytes(),
        None => Vec::new(),
    };
    let es = match store.kv_scan_prefix(E::store_name(), prefix.as_slice()) {
        Ok(es) => es,
        Err(e) => {
            return Err(e);
        },
    };
    proof {
        match parent {
            Some(p) => {
                assert(prefix@ == p.bytes_spec());
            },
            None => {
                assert(prefix@ =~= Seq::<u8>::empty());
            },
        }
    }
    let lo = if start <= es.len() {
        let rem = es.len() - start;
        if count <= rem {
            rem - count
        } else {
            0
        }
    } else {
        0
    };
    let cnt = if start <= es.len() {
        es.len() - start - lo
    } else {
        0
    };
    let ghost esv = entries_view(es@);
    let win = window_from_start(es, lo, cnt);
    let out = decode_entries::<E>(&win, E::store_name());
    proof {
        if out is Ok {
            let list = out->Ok_0;
            let hi2 = if start as int <= esv.len() { esv.len() - start } else { 0int };
            let lo2 = if start + count <= esv.len() { esv.len() - start - count } else { 0int };
            assert(esv.len() == es@.len());
            assert(lo == lo2 && lo + cnt == hi2);
            assert(entries_view(win@) == esv.subrange(lo2, hi2));
            assert(0 <= lo2 <= hi2 <= esv.len());
            assert(win@.len() == hi2 - lo2) by {
                assert(entries_view(win@).len() == win@.len());
                assert(esv.subrange(lo2, hi2).len() == hi2 - lo2);
            }
            assert(list@.len() == hi2 - lo2);
            assert forall|i: int| 0 <= i < list@.len() implies E::dec_ok(
                (#[trigger] esv[lo2 + i]).1,
            ) && list@[i]@ == E::dec_view(esv[lo2 + i].1) by {
                assert(entries_view(win@)[i] == esv.subrange(lo2, hi2)[i]);
                assert(esv.subrange(lo2, hi2)[i] == esv[lo2 + i]);
            }
            assert(sorted_filtered_entries(
                tree_of(store_view(*store), E::name_spec()),
                match parent {
                    Some(p) => prefix_pred(p.bytes_spec()),
                    None => prefix_pred(Seq::<u8>::empty()),
                },
                esv,
            ) && list@.len() == hi2 - lo2 && forall|i: int|
                0 <= i < list@.len() ==> E::dec_ok((#[trigger] esv[lo2 + i]).1) && list@[i]@
                    == E::dec_view(esv[lo2 + i].1));
        }
    }
    out
}

// ---------------------------------------------------------------------------
// Removal.
// ---------------------------------------------------------------------------

/// Checks whether the record with key bytes `key` could be removed, without
/// writing anything.
pub fn can_be_removed<E: Entity>(key: &[u8], store: &Store) -> (r: Result<(), Error>)
    requires
        store_finite(store_view(*store)),
    ensures
        r matches Ok(u) ==> chk_ok(
            store_view(*store),
            (E::name_spec(), key@),
            (E::name_spec(), key@),
            Set::<Node>::empty(),
        ),
        r matches Err(e) ==> e.kind_spec() == ErrorKind::SledError || ((e.kind_spec()
            == ErrorKind::SerializationError || e.kind_spec() == ErrorKind::IntegrityError
            || e.kind_spec() == ErrorKind::UnregisteredEntity) && !chk_ok(
            store_view(*store),
            (E::name_spec(), key@),
            (E::name_spec(), key@),
            Set::<Node>::empty(),
        ) && fault_reach(
            store_view(*store),
            (E::name_spec(), key@),
            (E::name_spec(), key@),
            Set::<Node>::empty(),
            e.kind_spec(),
            e.message_spec(),
        )),
        r matches Err(e) ==> (e.kind_spec() != ErrorKind::SledError
            && crate::relation::rel_desc_of(store_view(*store), E::name_spec(), key@) is None
            ==> e.kind_spec() == ErrorKind::SerializationError && e.message_spec()
            == rel_tree_spec(E::name_spec())),
        r matches Err(e) ==> (e.kind_spec() != ErrorKind::SledError
            && crate::relation::rel_desc_of(store_view(*store), E::name_spec(), key@) is Some
            && fam_of(store_view(*store), E::name_spec()) is None ==> e.kind_spec()
            == ErrorKind::UnregisteredEntity && e.message_spec() == msg_unregistered(
            E::name_spec(),
        )),
        r matches Err(e) ==> (e.kind_spec() != ErrorKind::SledError
            && crate::relation::rel_desc_of(store_view(*store), E::name_spec(), key@) is Some
            && (fam_of(store_view(*store), E::name_spec()) matches Some(ff2) && ff2 is None)
            ==> e.kind_spec() == ErrorKind::SerializationError && e.message_spec()
            == E::name_spec()),
{
    let empty_path: Vec<(String, Vec<u8>)> = Vec::new();
    let ghost node = (E::name_spec(), key@);
    proof {
        assert(crate::relation::nodes_view(empty_path@) =~= Seq::<Node>::empty());
        assert(Seq::<Node>::empty().to_set() =~= Set::<Node>::empty());
        assert(crate::model::universe(store_view(*store), node).contains(node));
    }
    match Relation::can_be_deleted(E::store_name(), key, &empty_path, store, Ghost(node)) {
        Ok(plan) => Ok(()),
        Err(e) => Err(e),
    }
}

/// Removes from the relation graph and the keyspaces everything the removal
/// of the record with key bytes `key` carries away. The record's own
/// keyspace entry is removed by the caller.
pub fn pre_remove<E: Entity>(key: &[u8], store: &mut Store) -> (r: Result<(), Error>)
    requires
        store_finite(store_view(*old(store))),
    ensures
        ({
            let v0 = store_view(*old(store));
            let node = (E::name_spec(), key@);
            match r {
                Ok(u) => store_finite(store_view(*final(store))) && exists|p: Seq<Node>|
                    removal_ok(v0, node, p, store_view(*final(store))),
                Err(e) => e.kind_spec() == ErrorKind::SledError || ((e.kind_spec()
                    == ErrorKind::IntegrityError || e.kind_spec()
                    == ErrorKind::UnregisteredEntity) && !chk_ok(
                    v0,
                    node,
                    node,
                    Set::<Node>::empty(),
                ) && store_view(*final(store)) == v0 && fault_reach(
                    v0,
                    node,
                    node,
                    Set::<Node>::empty(),
                    e.kind_spec(),
                    e.message_spec(),
                )) || (e.kind_spec() == ErrorKind::SerializationError && ((!chk_ok(
                    v0,
                    node,
                    node,
                    Set::<Node>::empty(),
                ) && fault_reach(
                    v0,
                    node,
                    node,
                    Set::<Node>::empty(),
                    e.kind_spec(),
                    e.message_spec(),
                )) || (exists|p: Seq<Node>|
                    nodes_plan_shape(v0, node, p) && plan_pruned(v0, p, 0) is None))),
            }
        }),
            ({
                let v0 = store_view(*old(store));
                let node = (E::name_spec(), key@);
                &&& (r matches Err(e) ==> (e.kind_spec() != ErrorKind::SledError
                    && crate::relation::rel_desc_of(v0, node.0, node.1) is None ==> e.kind_spec()
                    == ErrorKind::SerializationError && e.message_spec() == rel_tree_spec(node.0)))
                &&& (r matches Err(e) ==> (e.kind_spec() != ErrorKind::SledError
                    && crate::relation::rel_desc_of(v0, node.0, node.1) is Some && fam_of(
                    v0,
                    node.0,
                ) is None ==> e.kind_spec() == ErrorKind::UnregisteredEntity && e.message_spec()
                    == msg_unregistered(node.0)))
                &&& (r matches Err(e) ==> (e.kind_spec() != ErrorKind::SledError
                    && crate::relation::rel_desc_of(v0, node.0, node.1) is Some && (fam_of(
                    v0,
                    node.0,
                ) matches Some(ff2) && ff2 is None) ==> e.kind_spec()
                    == ErrorKind::SerializationError && e.message_spec() == node.0))
            }),
{
    Relation::remove_planned(E::store_name(), key, store)
}

/// Removes the record with the given raw key bytes, subject to the declared
/// integrity constraints: removal is planned first, cascades are applied,
/// and an integrity violation aborts before anything is written.
pub fn remove_from_u8_array<E: Entity>(key: &[u8], store: &mut Store) -> (r: Result<(), Error>)
    requires
        store_finite(store_view(*old(store))),
    ensures
        ({
            let v0 = store_view(*old(store));
            let node = (E::name_spec(), key@);
            match r {
                Ok(u) => store_finite(store_view(*final(store))) && exists|
                    p: Seq<Node>,
                    vmid: Map<Seq<char>, Map<Seq<u8>, Seq<u8>>>,
                |
                    removal_ok(v0, node, p, vmid) && store_view(*final(store)) == vmid.insert(
                        E::name_spec(),
                        tree_of(vmid, E::name_spec()).remove(key@),
                    ),
                Err(e) => e.kind_spec() == ErrorKind::SledError || ((e.kind_spec()
                    == ErrorKind::IntegrityError || e.kind_spec()
                    == ErrorKind::UnregisteredEntity) && !chk_ok(
                    v0,
                    node,
                    node,
                    Set::<Node>::empty(),
                ) && store_view(*final(store)) == v0 && fault_reach(
                    v0,
                    node,
                    node,
                    Set::<Node>::empty(),
                    e.kind_spec(),
                    e.message_spec(),
                )) || (e.kind_spec() == ErrorKind::SerializationError && ((!chk_ok(
                    v0,
                    node,
                    node,
                    Set::<Node>::empty(),
                ) && fault_reach(
                    v0,
                    node,
                    node,
                    Set::<Node>::empty(),
                    e.kind_spec(),
                    e.message_spec(),
                )) || (exists|p: Seq<Node>|
                    nodes_plan_shape(v0, node, p) && plan_pruned(v0, p, 0) is None))),
            }
        }),
            ({
                let v0 = store_view(*old(store));
                let node = (E::name_spec(), key@);
                &&& (r matches Err(e) ==> (e.kind_spec() != ErrorKind::SledError
                    && crate::relation::rel_desc_of(v0, node.0, node.1) is None ==> e.kind_spec()
                    == ErrorKind::SerializationError && e.message_spec() == rel_tree_spec(node.0)))
                &&& (r matches Err(e) ==> (e.kind_spec() != ErrorKind::SledError
                    && crate::relation::rel_desc_of(v0, node.0, node.1) is Some && fam_of(
                    v0,
                    node.0,
                ) is None ==> e.kind_spec() == ErrorKind::UnregisteredEntity && e.message_spec()
                    == msg_unregistered(node.0)))
                &&& (r matches Err(e) ==> (e.kind_spec() != ErrorKind::SledError
                    && crate::relation::rel_desc_of(v0, node.0, node.1) is Some && (fam_of(
                    v0,
                    node.0,
                ) matches Some(ff2) && ff2 is None) ==> e.kind_spec()
                    == ErrorKind::SerializationError && e.message_spec() == node.0))
            }),
{
    match pre_remove::<E>(key, store) {
        Ok(u) => {},
        Err(e) => {
            return Err(e);
        },
    }
    store.kv_remove(E::store_name(), key)
}

/// Removes the record with the given key, subject to the declared integrity
/// constraints.
pub fn remove<E: Entity>(key: &E::Key, store: &mut Store) -> (r: Result<(), Error>)
    requires
        store_finite(store_view(*old(store))),
    ensures
        ({
            let v0 = store_view(*old(store));
            let node = (E::name_spec(), key.bytes_spec());
            match r {
                Ok(u) => store_finite(store_view(*final(store))) && exists|
                    p: Seq<Node>,
                    vmid: Map<Seq<char>, Map<Seq<u8>, Seq<u8>>>,
                |
                    removal_ok(v0, node, p, vmid) && store_view(*final(store)) == vmid.insert(
                        E::name_spec(),
                        tree_of(vmid, E::name_spec()).remove(key.bytes_spec()),
                    ),
                Err(e) => e.kind_spec() == ErrorKind::SledError || ((e.kind_spec()
                    == ErrorKind::IntegrityError || e.kind_spec()
                    == ErrorKind::UnregisteredEntity) && !chk_ok(
                    v0,
                    node,
                    node,
                    Set::<Node>::empty(),
                ) && store_view(*final(store)) == v0 && fault_reach(
                    v0,
                    node,
                    node,
                    Set::<Node>::empty(),
                    e.kind_spec(),
                    e.message_spec(),
                )) || (e.kind_spec() == ErrorKind::SerializationError && ((!chk_ok(
                    v0,
                    node,
                    node,
                    Set::<Node>::empty(),
                ) && fault_reach(
                    v0,
                    node,
                    node,
                    Set::<Node>::empty(),
                    e.kind_spec(),
                    e.message_spec(),
                )) || (exists|p: Seq<Node>|
                    nodes_plan_shape(v0, node, p) && plan_pruned(v0, p, 0) is None))),
            }
        }),
            ({
                let v0 = store_view(*old(store));
                let node = (E::name_spec(), key.bytes_spec());
                &&& (r matches Err(e) ==> (e.kind_spec() != ErrorKind::SledError
                    && crate::relation::rel_desc_of(v0, node.0, node.1) is None ==> e.kind_spec()
                    == ErrorKind::SerializationError && e.message_spec() == rel_tree_spec(node.0)))
                &&& (r matches Err(e) ==> (e.kind_spec() != ErrorKind::SledError
                    && crate::relation::rel_desc_of(v0, node.0, node.1) is Some && fam_of(
                    v0,
                    node.0,
                ) is None ==> e.kind_spec() == ErrorKind::UnregisteredEntity && e.message_spec()
                    == msg_unregistered(node.0)))
                &&& (r matches Err(e) ==> (e.kind_spec() != ErrorKind::SledError
                    && crate::relation::rel_desc_of(v0, node.0, node.1) is Some && (fam_of(
                    v0,
                    node.0,
                ) matches Some(ff2) && ff2 is None) ==> e.kind_spec()
                    == ErrorKind::SerializationError && e.message_spec() == node.0))
            }),
{
    let kb = key.as_bytes();
    remove_from_u8_array::<E>(kb.as_slice(), store)
}


// ---------------------------------------------------------------------------
// Key issuance and families.
// ---------------------------------------------------------------------------

/// The next auto-incremented key can be issued: the keyspace is empty, or
/// its greatest key is a four-byte value below the maximum.
pub open spec fn next_key_ok(tree: Map<Seq<u8>, Seq<u8>>) -> bool {
    ||| (forall|k: Seq<u8>| !tree.contains_key(k))
    ||| (exists|k: Seq<u8>|
        #![trigger tree.contains_key(k)]
        tree.contains_key(k) && k.len() == 4 && be32_val(k) < 0xffff_ffffu32 && forall|k2: Seq<u8>|
            tree.contains_key(k2) ==> k2 == k || lex_lt(k2, k))
}

/// The next auto-incremented key of a keyspace: one past the greatest
/// stored key, or zero for an empty keyspace.
pub open spec fn next_key_spec(tree: Map<Seq<u8>, Seq<u8>>) -> u32 {
    if forall|k: Seq<u8>| !tree.contains_key(k) {
        0u32
    } else {
        let k = choose|k: Seq<u8>|
            #![trigger tree.contains_key(k)]
            tree.contains_key(k) && forall|k2: Seq<u8>|
                tree.contains_key(k2) ==> k2 == k || lex_lt(k2, k);
        (be32_val(k) + 1) as u32
    }
}

/// Returns a key that is currently not used in `E`'s keyspace: one past the
/// greatest stored key, or zero for an empty keyspace.
pub fn get_next_key<E: Entity<Key = u32>>(store: &Store) -> (r: Result<u32, Error>)
    requires
        next_key_ok(tree_of(store_view(*store), E::name_spec())),
    ensures
        r matches Ok(n) ==> n == next_key_spec(tree_of(store_view(*store), E::name_spec())),
        r matches Err(e) ==> e.kind_spec() == ErrorKind::SledError,
{
    let ghost tree = tree_of(store_view(*store), E::name_spec());
    match store.kv_last(E::store_name()) {
        Err(e) => Err(e),
        Ok(None) => Ok(0),
        Ok(Some((kb, vb))) => {
            proof {
                let k = choose|k: Seq<u8>|
                    #![trigger tree.contains_key(k)]
                    tree.contains_key(k) && k.len() == 4 && be32_val(k) < 0xffff_ffffu32 && forall|
                        k2: Seq<u8>,
                    | tree.contains_key(k2) ==> k2 == k || lex_lt(k2, k);
                if kb@ != k {
                    crate::bytes::lemma_lex_lt_total(kb@, k);
                    crate::bytes::lemma_lex_lt_irreflexive(k);
                    crate::bytes::lemma_lex_lt_transitive(k, kb@, k);
                    assert(false);
                }
                assert(kb@.len() == 4);
                if !(forall|k2: Seq<u8>| !tree.contains_key(k2)) {
                    let kc = choose|kc: Seq<u8>|
                        #![trigger tree.contains_key(kc)]
                        tree.contains_key(kc) && forall|k2: Seq<u8>|
                            tree.contains_key(k2) ==> k2 == kc || lex_lt(k2, kc);
                    if kc != k {
                        crate::bytes::lemma_lex_lt_total(kc, k);
                        crate::bytes::lemma_lex_lt_irreflexive(k);
                        crate::bytes::lemma_lex_lt_transitive(k, kc, k);
                        assert(false);
                    }
                }
            }
            let n = read_u32_be(kb.as_slice(), 0);
            proof {
                assert(kb@.subrange(0, 4) =~= kb@);
            }
            Ok(n + 1)
        },
    }
}

/// Saves `e` under a fresh auto-incremented key and returns that key.
pub fn save_next<E: Entity<Key = u32>>(e: &mut E, store: &mut Store) -> (r: Result<u32, Error>)
    requires
        next_key_ok(tree_of(store_view(*old(store)), E::name_spec())),
    ensures
        ({
            let v0 = store_view(*old(store));
            match r {
                Ok(n) => n == next_key_spec(tree_of(v0, E::name_spec())) && final(e).key_spec()
                    == n && store_view(*final(store)) == v0.insert(
                    E::name_spec(),
                    tree_of(v0, E::name_spec()).insert(be32(n), final(e).rec_enc()),
                ),
                Err(err) => err.kind_spec() == ErrorKind::SledError,
            }
        }),
{
    let next_key = match get_next_key::<E>(store) {
        Ok(n) => n,
        Err(err) => {
            return Err(err);
        },
    };
    e.set_key(&next_key);
    match save(e, store) {
        Ok(u) => Ok(next_key),
        Err(err) => Err(err),
    }
}

/// Saves `sibling` in its own keyspace after setting its key to `e`'s key.
pub fn save_sibling<E: Entity, S: Entity<Key = E::Key>>(
    e: &E,
    sibling: &mut S,
    store: &mut Store,
) -> (r: Result<(), Error>)
    ensures
        final(sibling).key_spec() == e.key_spec(),
        r matches Ok(u) ==> store_view(*final(store)) == store_view(*old(store)).insert(
            S::name_spec(),
            tree_of(store_view(*old(store)), S::name_spec()).insert(
                key_bytes_of(e),
                final(sibling).rec_enc(),
            ),
        ),
        r matches Err(err) ==> err.kind_spec() == ErrorKind::SledError,
{
    sibling.set_key(e.get_key());
    save(sibling, store)
}

/// Retrieves the record of `S` stored under the same key as `e`, if any.
pub fn get_sibling<E: Entity, S: Entity<Key = E::Key>>(e: &E, store: &Store) -> (r: Result<
    Option<S>,
    Error,
>)
    ensures
        r matches Ok(o) ==> match o {
            Some(rec) => tree_of(store_view(*store), S::name_spec()).contains_key(key_bytes_of(e))
                && S::dec_ok(tree_of(store_view(*store), S::name_spec())[key_bytes_of(e)]) && rec@
                == S::dec_view(tree_of(store_view(*store), S::name_spec())[key_bytes_of(e)]),
            None => !tree_of(store_view(*store), S::name_spec()).contains_key(key_bytes_of(e)),
        },
        r matches Err(err) ==> err.kind_spec() == ErrorKind::SledError || err.kind_spec()
            == ErrorKind::SerializationError,
{
    get::<S>(e.get_key(), store)
}

/// The next child tail for a child keyspace: four bytes past the end of the
/// greatest stored key, plus one, or zero for an empty keyspace.
pub open spec fn child_next_ok(tree: Map<Seq<u8>, Seq<u8>>) -> bool {
    ||| (forall|k: Seq<u8>| !tree.contains_key(k))
    ||| (exists|k: Seq<u8>|
        #![trigger tree.contains_key(k)]
        tree.contains_key(k) && k.len() >= 4 && be32_val(
            k.subrange(k.len() - 4, k.len() as int),
        ) < 0xffff_ffffu32 && forall|k2: Seq<u8>|
            tree.contains_key(k2) ==> k2 == k || lex_lt(k2, k))
}

/// The next child tail of a child keyspace.
pub open spec fn child_next_spec(tree: Map<Seq<u8>, Seq<u8>>) -> u32 {
    if forall|k: Seq<u8>| !tree.contains_key(k) {
        0u32
    } else {
        let k = choose|k: Seq<u8>|
            #![trigger tree.contains_key(k)]
            tree.contains_key(k) && forall|k2: Seq<u8>|
                tree.contains_key(k2) ==> k2 == k || lex_lt(k2, k);
        (be32_val(k.subrange(k.len() - 4, k.len() as int)) + 1) as u32
    }
}

/// Saves `child` in its own keyspace as a child of `e`: its key becomes
/// `e`'s key paired with a fresh tail, one past the greatest tail stored in
/// the whole child keyspace.
pub fn save_child<E: Entity, C: Entity<Key = (E::Key, u32)>>(
    e: &E,
    child: &mut C,
    store: &mut Store,
) -> (r: Result<u32, Error>)
    requires
        child_next_ok(tree_of(store_view(*old(store)), C::name_spec())),
    ensures
        ({
            let v0 = store_view(*old(store));
            match r {
                Ok(n) => n == child_next_spec(tree_of(v0, C::name_spec()))
                    && final(child).key_spec().1 == n && final(child).key_spec().0.bytes_spec()
                    == e.key_spec().bytes_spec() && store_view(*final(store)) == v0.insert(
                    C::name_spec(),
                    tree_of(v0, C::name_spec()).insert(
                        e.key_spec().bytes_spec() + be32(n),
                        final(child).rec_enc(),
                    ),
                ),
                Err(err) => err.kind_spec() == ErrorKind::SledError,
            }
        }),
{
    let ghost tree = tree_of(store_view(*store), C::name_spec());
    let increment: u32 = match store.kv_last(C::store_name()) {
        Err(err) => {
            return Err(err);
        },
        Ok(None) => 0,
        Ok(Some((kb, vb))) => {
            proof {
                let k = choose|k: Seq<u8>|
                    #![trigger tree.contains_key(k)]
                    tree.contains_key(k) && k.len() >= 4 && be32_val(
                        k.subrange(k.len() - 4, k.len() as int),
                    ) < 0xffff_ffffu32 && forall|k2: Seq<u8>|
                        tree.contains_key(k2) ==> k2 == k || lex_lt(k2, k);
                if kb@ != k {
                    crate::bytes::lemma_lex_lt_total(kb@, k);
                    crate::bytes::lemma_lex_lt_irreflexive(k);
                    crate::bytes::lemma_lex_lt_transitive(k, kb@, k);
                    assert(false);
                }
                if !(forall|k2: Seq<u8>| !tree.contains_key(k2)) {
                    let kc = choose|kc: Seq<u8>|
                        #![trigger tree.contains_key(kc)]
                        tree.contains_key(kc) && forall|k2: Seq<u8>|
                            tree.contains_key(k2) ==> k2 == kc || lex_lt(k2, kc);
                    if kc != k {
                        crate::bytes::lemma_lex_lt_total(kc, k);
                        crate::bytes::lemma_lex_lt_irreflexive(k);
                        crate::bytes::lemma_lex_lt_transitive(k, kc, k);
                        assert(false);
                    }
                }
            }
            let tail = read_u32_be(kb.as_slice(), kb.len() - 4);
            proof {
                assert(kb@.subrange(kb@.len() - 4, kb@.len() as int) =~= kb@.subrange(
                    kb@.len() - 4,
                    kb@.len() - 4 + 4,
                ));
            }
            tail + 1
        },
    };
    let key = (e.get_key().dup(), increment);
    child.set_key(&key);
    match save(child, store) {
        Ok(u) => {
            proof {
                assert(key_bytes_of(child) == e.key_spec().bytes_spec() + be32(increment));
            }
            Ok(increment)
        },
        Err(err) => Err(err),
    }
}

/// One child record moved under a new parent prefix: its scanned value
/// reappears under `newk` followed by `k`'s tail past `oldlen`, and the old
/// entry goes away.
pub open spec fn moved_one(
    v: SView,
    t2: Seq<char>,
    oldlen: int,
    newk: Seq<u8>,
    k: Seq<u8>,
    val: Seq<u8>,
) -> SView {
    v.insert(t2, tree_of(v, t2).insert(newk + k.skip(oldlen), val).remove(k))
}

/// The listed child entries moved in order under the new parent prefix.
pub open spec fn child_keys_moved(
    v: SView,
    t2: Seq<char>,
    oldk: Seq<u8>,
    newk: Seq<u8>,
    es: Seq<(Seq<u8>, Seq<u8>)>,
    i: int,
) -> SView
    decreases es.len() - i,
{
    if i < 0 || i >= es.len() {
        v
    } else {
        child_keys_moved(
            moved_one(v, t2, oldk.len() as int, newk, es[i].0, es[i].1),
            t2,
            oldk,
            newk,
            es,
            i + 1,
        )
    }
}

/// The store view after relocating, keyspace by keyspace from index `i` on,
/// every record of the declared child keyspaces whose key starts with
/// `oldk` to the same tail under `newk`. Each keyspace's records are taken
/// from its sorted prefixed listing at that point of the relocation.
pub open spec fn subtree_relocated_v(
    v: SView,
    trees: Seq<(Seq<char>, DeletionBehaviour)>,
    i: int,
    oldk: Seq<u8>,
    newk: Seq<u8>,
) -> SView
    decreases trees.len() - i,
{
    if i < 0 || i >= trees.len() {
        v
    } else {
        let es = choose|es: Seq<(Seq<u8>, Seq<u8>)>|
            sorted_filtered_entries(tree_of(v, trees[i].0), prefix_pred(oldk), es);
        subtree_relocated_v(
            child_keys_moved(v, trees[i].0, oldk, newk, es, 0),
            trees,
            i + 1,
            oldk,
            newk,
        )
    }
}

/// Relocates, in each listed child keyspace, every record whose key starts
/// with `oldk` to the same tail under `newk`.
fn relocate_children(
    trees: &Vec<(String, DeletionBehaviour)>,
    oldk: &[u8],
    newk: &[u8],
    store: &mut Store,
) -> (r: Result<(), Error>)
    ensures
        r matches Ok(u) ==> store_view(*final(store)) == subtree_relocated_v(
            store_view(*old(store)),
            tree_list_view(trees@),
            0,
            oldk@,
            newk@,
        ),
        r matches Err(e) ==> e.kind_spec() == ErrorKind::SledError,
{
    let ghost v0 = store_view(*store);
    let ghost lv = tree_list_view(trees@);
    let tlen = trees.len();
    let mut i: usize = 0;
    while i < tlen
        invariant
            v0 == store_view(*old(store)),
            lv == tree_list_view(trees@),
            tlen == trees.len(),
            0 <= i <= tlen,
            subtree_relocated_v(v0, lv, 0, oldk@, newk@) == subtree_relocated_v(
                store_view(*store),
                lv,
                i as int,
                oldk@,
                newk@,
            ),
        decreases tlen - i,
    {
        let ghost vtree = store_view(*store);
        let t2: String = trees[i].0.clone();
        proof {
            assert(lv[i as int].0 == t2@);
        }
        let es = match store.kv_scan_prefix(t2.as_str(), oldk) {
            Ok(es) => es,
            Err(e) => {
                return Err(e);
            },
        };
        let ghost esv = entries_view(es@);
        let ghost chosen = choose|es2: Seq<(Seq<u8>, Seq<u8>)>|
            sorted_filtered_entries(tree_of(vtree, t2@), prefix_pred(oldk@), es2);
        proof {
            crate::bytes::lemma_sorted_entries_unique(
                tree_of(vtree, t2@),
                prefix_pred(oldk@),
                chosen,
                esv,
            );
        }
        let n = es.len();
        let mut m: usize = 0;
        while m < n
            invariant
                lv == tree_list_view(trees@),
                tlen == trees.len(),
                0 <= i < tlen,
                lv[i as int].0 == t2@,
                n == es@.len(),
                esv == entries_view(es@),
                sorted_filtered_entries(tree_of(vtree, t2@), prefix_pred(oldk@), esv),
                0 <= m <= n,
                child_keys_moved(vtree, t2@, oldk@, newk@, esv, 0) == child_keys_moved(
                    store_view(*store),
                    t2@,
                    oldk@,
                    newk@,
                    esv,
                    m as int,
                ),
            decreases n - m,
        {
            proof {
                assert(esv[m as int] == (es@[m as int].0@, es@[m as int].1@));
                assert(prefix_pred(oldk@)(esv[m as int].0));
                assert(has_prefix(esv[m as int].0, oldk@));
            }
            let suffix = vstd::slice::slice_subrange(
                es[m].0.as_slice(),
                oldk.len(),
                es[m].0.len(),
            );
            let mut nk: Vec<u8> = vstd::slice::slice_to_vec(newk);
            crate::codec::push_slice(&mut nk, suffix);
            proof {
                assert(nk@ =~= newk@ + esv[m as int].0.skip(oldk@.len() as int));
            }
            let ghost vcur = store_view(*store);
            match store.kv_insert(t2.as_str(), nk.as_slice(), es[m].1.as_slice()) {
                Ok(u) => {},
                Err(e) => {
                    return Err(e);
                },
            }
            match store.kv_remove(t2.as_str(), es[m].0.as_slice()) {
                Ok(u) => {},
                Err(e) => {
                    return Err(e);
                },
            }
            proof {
                assert(store_view(*store) =~~= moved_one(
                    vcur,
                    t2@,
                    oldk@.len() as int,
                    newk@,
                    esv[m as int].0,
                    esv[m as int].1,
                ));
                assert(child_keys_moved(vcur, t2@, oldk@, newk@, esv, m as int)
                    == child_keys_moved(store_view(*store), t2@, oldk@, newk@, esv, m + 1));
            }
            m = m + 1;
        }
        proof {
            assert(subtree_relocated_v(vtree, lv, i as int, oldk@, newk@) == subtree_relocated_v(
                store_view(*store),
                lv,
                i + 1,
                oldk@,
                newk@,
            )) by {
                assert(child_keys_moved(vtree, t2@, oldk@, newk@, chosen, 0) == store_view(
                    *store,
                ));
            }
        }
        i = i + 1;
    }
    Ok(())
}

/// Re-parents `child` to `e`: the child's record moves to the key made of
/// `e`'s key and a fresh tail, its relation descriptor moves with it, every
/// peer's mirror edges are re-pointed at the new key keeping their
/// behaviours and names, and the child's own children, in its declared
/// child keyspaces, move under the new key.
pub fn adopt_child<E: Entity, C: Entity<Key = (E::Key, u32)>>(
    e: &E,
    child: &mut C,
    store: &mut Store,
) -> (r: Result<u32, Error>)
    requires
        child_next_ok(tree_of(store_view(*old(store)), C::name_spec())),
    ensures
        ({
            let v0 = store_view(*old(store));
            let ctree = C::name_spec();
            let oldkb = old(child).key_spec().bytes_spec();
            let rt = rel_tree_spec(ctree);
            let tree0 = tree_of(v0, ctree);
            let treeless = tree0.remove(oldkb);
            match r {
                Ok(n) => tree0.contains_key(oldkb) && n == child_next_spec(tree0)
                    && final(child).key_spec().1 == n && final(child).key_spec().0.bytes_spec()
                    == e.key_spec().bytes_spec() && ({
                    let newkb = e.key_spec().bytes_spec() + be32(n);
                    let v1 = v0.insert(ctree, treeless);
                    let v2 = v1.insert(
                        ctree,
                        tree_of(v1, ctree).insert(newkb, final(child).rec_enc()),
                    );
                    if tree_of(v0, rt).contains_key(oldkb) {
                        let b = tree_of(v0, rt)[oldkb];
                        dec_relations(b) matches Some(d) && ({
                            let v3 = v2.insert(rt, tree_of(v2, rt).insert(newkb, b));
                            let v4 = v3.insert(rt, tree_of(v3, rt).remove(oldkb));
                            rekey_from(v4, ctree, oldkb, newkb, d, 0, 0) matches Some(v5)
                                && store_view(*final(store)) == subtree_relocated_v(
                                v5,
                                C::child_trees_spec(),
                                0,
                                oldkb,
                                newkb,
                            )
                        })
                    } else {
                        store_view(*final(store)) == subtree_relocated_v(
                            v2,
                            C::child_trees_spec(),
                            0,
                            oldkb,
                            newkb,
                        )
                    }
                }),
                Err(err) => err.kind_spec() == ErrorKind::SledError || (err.kind_spec()
                    == ErrorKind::NotFound && !tree0.contains_key(oldkb) && store_view(
                    *final(store),
                ) == v0) || (err.kind_spec() == ErrorKind::SerializationError && tree_of(
                    v0,
                    rt,
                ).contains_key(oldkb) && (dec_relations(tree_of(v0, rt)[oldkb]) is None
                    ==> store_view(*final(store)) == v0) && (dec_relations(
                    tree_of(v0, rt)[oldkb],
                ) matches Some(d) ==> exists|n: u32|
                    #![trigger be32(n)]
                    {
                        let newkb = e.key_spec().bytes_spec() + be32(n);
                        let v1 = v0.insert(ctree, treeless);
                        let v2 = v1.insert(
                            ctree,
                            tree_of(v1, ctree).insert(newkb, final(child).rec_enc()),
                        );
                        let b = tree_of(v0, rt)[oldkb];
                        let v3 = v2.insert(rt, tree_of(v2, rt).insert(newkb, b));
                        let v4 = v3.insert(rt, tree_of(v3, rt).remove(oldkb));
                        rekey_from(v4, ctree, oldkb, newkb, d, 0, 0) is None
                    })),
            }
        }),
{
    let ghost v0 = store_view(*store);
    let ghost ctree = C::name_spec();
    let ghost oldkbs = old(child).key_spec().bytes_spec();
    let old_kb = child.get_key().as_bytes();
    let present = match store.kv_contains(C::store_name(), old_kb.as_slice()) {
        Ok(b) => b,
        Err(err) => {
            return Err(err);
        },
    };
    if !present {
        return Err(Error::new(ErrorKind::NotFound, C::store_name().to_owned()));
    }
    let rt = crate::relation::Relation::tree_name(C::store_name());
    let desc_bytes = match store.kv_get(rt.as_str(), old_kb.as_slice()) {
        Ok(o) => o,
        Err(err) => {
            return Err(err);
        },
    };
    let desc = match &desc_bytes {
        None => None,
        Some(bytes) => match decode_relations(bytes.as_slice()) {
            Some(er) => Some(er),
            None => {
                return Err(Error::new(ErrorKind::SerializationError, rt));
            },
        },
    };
    let ghost tree0 = tree_of(v0, ctree);
    let increment: u32 = match store.kv_last(C::store_name()) {
        Err(err) => {
            return Err(err);
        },
        Ok(None) => 0,
        Ok(Some((kb, vb))) => {
            proof {
                let k = choose|k: Seq<u8>|
                    #![trigger tree0.contains_key(k)]
                    tree0.contains_key(k) && k.len() >= 4 && be32_val(
                        k.subrange(k.len() - 4, k.len() as int),
                    ) < 0xffff_ffffu32 && forall|k2: Seq<u8>|
                        tree0.contains_key(k2) ==> k2 == k || lex_lt(k2, k);
                if kb@ != k {
                    crate::bytes::lemma_lex_lt_total(kb@, k);
                    crate::bytes::lemma_lex_lt_irreflexive(k);
                    crate::bytes::lemma_lex_lt_transitive(k, kb@, k);
                    assert(false);
                }
                if !(forall|k2: Seq<u8>| !tree0.contains_key(k2)) {
                    let kc = choose|kc: Seq<u8>|
                        #![trigger tree0.contains_key(kc)]
                        tree0.contains_key(kc) && forall|k2: Seq<u8>|
                            tree0.contains_key(k2) ==> k2 == kc || lex_lt(k2, kc);
                    if kc != k {
                        crate::bytes::lemma_lex_lt_total(kc, k);
                        crate::bytes::lemma_lex_lt_irreflexive(k);
                        crate::bytes::lemma_lex_lt_transitive(k, kc, k);
                        assert(false);
                    }
                }
            }
            let tail = read_u32_be(kb.as_slice(), kb.len() - 4);
            proof {
                assert(kb@.subrange(kb@.len() - 4, kb@.len() as int) =~= kb@.subrange(
                    kb@.len() - 4,
                    kb@.len() - 4 + 4,
                ));
            }
            tail + 1
        },
    };
    match store.kv_remove(C::store_name(), old_kb.as_slice()) {
        Ok(u) => {},
        Err(err) => {
            return Err(err);
        },
    }
    let key = (e.get_key().dup(), increment);
    child.set_key(&key);
    match save(child, store) {
        Ok(u) => {},
        Err(err) => {
            return Err(err);
        },
    }
    proof {
        assert(key_bytes_of(child) == e.key_spec().bytes_spec() + be32(increment));
    }
    match desc_bytes {
        None => {
            proof {
                assert(!tree_of(v0, rel_tree_spec(ctree)).contains_key(oldkbs));
            }
            let new_kb = child.get_key().as_bytes();
            let ctrees = C::get_child_trees();
            match relocate_children(&ctrees, old_kb.as_slice(), new_kb.as_slice(), store) {
                Ok(u) => Ok(increment),
                Err(err) => Err(err),
            }
        },
        Some(bytes) => {
            let er = match desc {
                Some(er) => er,
                None => {
                    return Err(Error::new(ErrorKind::SerializationError, rt));
                },
            };
            let new_kb = child.get_key().as_bytes();
            match store.kv_insert(rt.as_str(), new_kb.as_slice(), bytes.as_slice()) {
                Ok(u) => {},
                Err(err) => {
                    return Err(err);
                },
            }
            match store.kv_remove(rt.as_str(), old_kb.as_slice()) {
                Ok(u) => {},
                Err(err) => {
                    return Err(err);
                },
            }
            let ghost v4 = store_view(*store);
            match Relation::rekey_mirrors(
                C::store_name(),
                old_kb.as_slice(),
                new_kb.as_slice(),
                &er,
                store,
            ) {
                Ok(u) => {},
                Err(err) => {
                    proof {
                        if err.kind_spec() == ErrorKind::SerializationError {
                            assert(rekey_from(v4, ctree, oldkbs, new_kb@, er@, 0, 0) is None);
                        }
                    }
                    return Err(err);
                },
            }
            let ctrees = C::get_child_trees();
            match relocate_children(&ctrees, old_kb.as_slice(), new_kb.as_slice(), store) {
                Ok(u) => Ok(increment),
                Err(err) => Err(err),
            }
        },
    }
}

/// Retrieves the children of `e` in `C`'s keyspace, in ascending key order.
pub fn get_children<E: Entity, C: Entity<Key = (E::Key, u32)>>(e: &E, store: &Store) -> (r:
    Result<Vec<C>, Error>)
    ensures
        r matches Ok(list) ==> exists|es: Seq<(Seq<u8>, Seq<u8>)>|
            #![trigger es.len()]
            sorted_filtered_entries(
                tree_of(store_view(*store), C::name_spec()),
                prefix_pred(e.key_spec().bytes_spec()),
                es,
            ) && list@.len() == es.len() && forall|i: int|
                0 <= i < es.len() ==> C::dec_ok((#[trigger] es[i]).1) && list@[i]@ == C::dec_view(
                    es[i].1,
                ),
        r matches Err(err) ==> err.kind_spec() == ErrorKind::SledError || err.kind_spec()
            == ErrorKind::SerializationError,
{
    get_with_prefix::<C, E::Key>(e.get_key(), store)
}

// ---------------------------------------------------------------------------
// Batch reads, updates and imports.
// ---------------------------------------------------------------------------

/// Retrieves the records stored under the given raw keys, in the order of
/// the keys; absent keys are silently skipped.
pub fn get_each_u8<E: Entity>(keys: &Vec<Vec<u8>>, store: &Store) -> (r: Result<Vec<E>, Error>)
    ensures
        r matches Ok(list) ==> crate::relation::got_list::<E>(
            store_view(*store),
            keys@.map_values(|k: Vec<u8>| k@),
        ) == Some(list@.map_values(|rec: E| rec@)),
        r matches Err(e) ==> e.kind_spec() == ErrorKind::SledError || e.kind_spec()
            == ErrorKind::SerializationError,
{
    let ghost v = store_view(*store);
    let ghost kv = keys@.map_values(|k: Vec<u8>| k@);
    let mut out: Vec<E> = Vec::new();
    let mut i: usize = 0;
    proof {
        assert(kv.subrange(0, kv.len() as int) =~= kv);
        match crate::relation::got_list::<E>(v, kv) {
            Some(rest) => {
                assert(out@.map_values(|rec: E| rec@) + rest =~= rest);
            },
            None => {},
        }
    }
    while i < keys.len()
        invariant
            v == store_view(*store),
            kv == keys@.map_values(|k: Vec<u8>| k@),
            0 <= i <= keys@.len(),
            crate::relation::got_list::<E>(v, kv) == (match crate::relation::got_list::<E>(
                v,
                kv.subrange(i as int, kv.len() as int),
            ) {
                Some(rest) => Some(out@.map_values(|rec: E| rec@) + rest),
                None => None,
            }),
        decreases keys@.len() - i,
    {
        let ghost sub = kv.subrange(i as int, kv.len() as int);
        proof {
            assert(sub[0] == kv[i as int]);
            assert(kv[i as int] == keys@[i as int]@);
            assert(sub.drop_first() =~= kv.subrange(i + 1, kv.len() as int));
        }
        match get_from_u8_array::<E>(keys[i].as_slice(), store) {
            Ok(Some(rec)) => {
                let ghost pre_views = out@.map_values(|x: E| x@);
                out.push(rec);
                proof {
                    let views = out@.map_values(|x: E| x@);
                    assert(views =~= pre_views.push(out@[out@.len() - 1]@));
                    match crate::relation::got_list::<E>(v, kv.subrange(i + 1, kv.len() as int)) {
                        Some(rest) => {
                            assert(views + rest =~= pre_views + (seq![out@[out@.len() - 1]@]
                                + rest));
                        },
                        None => {},
                    }
                }
            },
            Ok(None) => {},
            Err(e) => {
                return Err(e);
            },
        }
        i = i + 1;
    }
    proof {
        assert(kv.subrange(kv.len() as int, kv.len() as int) =~= Seq::<Seq<u8>>::empty());
        assert(crate::relation::got_list::<E>(v, kv.subrange(kv.len() as int, kv.len() as int))
            == Some(Seq::<E::V>::empty()));
        assert(out@.map_values(|x: E| x@) + Seq::<E::V>::empty() =~= out@.map_values(
            |x: E| x@,
        ));
    }
    Ok(out)
}

/// Retrieves the records stored under the given keys, in the order of the
/// keys; absent keys are silently skipped.
pub fn get_each<E: Entity>(keys: &Vec<E::Key>, store: &Store) -> (r: Result<Vec<E>, Error>)
    ensures
        r matches Ok(list) ==> crate::relation::got_list::<E>(
            store_view(*store),
            keys@.map_values(|k: E::Key| k.bytes_spec()),
        ) == Some(list@.map_values(|rec: E| rec@)),
        r matches Err(e) ==> e.kind_spec() == ErrorKind::SledError || e.kind_spec()
            == ErrorKind::SerializationError,
{
    let mut raw: Vec<Vec<u8>> = Vec::new();
    let mut i: usize = 0;
    while i < keys.len()
        invariant
            0 <= i <= keys@.len(),
            raw@.map_values(|k: Vec<u8>| k@) == keys@.subrange(0, i as int).map_values(
                |k: E::Key| k.bytes_spec(),
            ),
        decreases keys@.len() - i,
    {
        let kb = keys[i].as_bytes();
        assert(kb@ == keys@[i as int].bytes_spec());
        raw.push(kb);
        proof {
            assert(raw@.len() == i + 1) by {
                assert(keys@.subrange(0, i as int).map_values(
                    |k: E::Key| k.bytes_spec(),
                ).len() == i);
            }
            assert forall|m: int| 0 <= m < i + 1 implies (#[trigger] raw@[m])@ == keys@.subrange(
                0,
                i + 1,
            ).map_values(|k: E::Key| k.bytes_spec())[m] by {
                if m < i {
                    assert(raw@.map_values(|k: Vec<u8>| k@)[m] == keys@.subrange(
                        0,
                        i as int,
                    ).map_values(|k: E::Key| k.bytes_spec())[m]);
                    assert(raw@.map_values(|k: Vec<u8>| k@)[m] == raw@[m]@);
                }
            }
            assert(raw@.map_values(|k: Vec<u8>| k@) =~= keys@.subrange(0, i + 1).map_values(
                |k: E::Key| k.bytes_spec(),
            ));
        }
        i = i + 1;
    }
    proof {
        assert(keys@.subrange(0, keys@.len() as int) =~= keys@);
    }
    get_each_u8::<E>(&raw, store)
}

/// Applies `f` to the record stored under `key`, if present, and stores the
/// result back under the same key; absent keys are a no-op.
pub fn update<E: Entity, F: Fn(E) -> E>(key: &E::Key, f: F, store: &mut Store) -> (r: Result<
    (),
    Error,
>)
    requires
        forall|x: E| f.requires((x,)),
    ensures
        ({
            let v0 = store_view(*old(store));
            let kb = key.bytes_spec();
            let tree = tree_of(v0, E::name_spec());
            match r {
                Ok(u) => (!tree.contains_key(kb) && store_view(*final(store)) == v0) || (
                tree.contains_key(kb) && E::dec_ok(tree[kb]) && exists|rec: E, rec2: E|
                    rec@ == E::dec_view(tree[kb]) && #[trigger] f.ensures((rec,), rec2)
                        && store_view(*final(store)) == v0.insert(
                        E::name_spec(),
                        tree.insert(kb, rec2.rec_enc()),
                    )),
                Err(e) => e.kind_spec() == ErrorKind::SledError || e.kind_spec()
                    == ErrorKind::SerializationError,
            }
        }),
{
    let kb = key.as_bytes();
    match get_from_u8_array::<E>(kb.as_slice(), store) {
        Err(e) => Err(e),
        Ok(None) => Ok(()),
        Ok(Some(rec)) => {
            let rec2 = f(rec);
            let vb = rec2.to_bytes();
            store.kv_insert(E::store_name(), kb.as_slice(), vb.as_slice())
        },
    }
}

/// Saves every record of `records`, in order; existing records under the
/// same keys are overwritten. Used to restore an exported keyspace; it does
/// not touch the relation graph.
pub fn import_records<E: Entity>(records: &Vec<E>, store: &mut Store) -> (r: Result<(), Error>)
    ensures
        r matches Ok(u) ==> store_view(*final(store)) == saved_all(
            store_view(*old(store)),
            records@,
            0,
        ),
        r matches Err(e) ==> e.kind_spec() == ErrorKind::SledError,
{
    let mut i: usize = 0;
    while i < records.len()
        invariant
            0 <= i <= records@.len(),
            saved_all(store_view(*old(store)), records@, 0) == saved_all(
                store_view(*store),
                records@,
                i as int,
            ),
        decreases records@.len() - i,
    {
        let ghost vcur = store_view(*store);
        match save(&records[i], store) {
            Ok(u) => {},
            Err(e) => {
                return Err(e);
            },
        }
        i = i + 1;
    }
    Ok(())
}

/// The store view after saving each record of `rs` from index `i` on.
pub open spec fn saved_all<E: Entity>(
    v: Map<Seq<char>, Map<Seq<u8>, Seq<u8>>>,
    rs: Seq<E>,
    i: int,
) -> Map<Seq<char>, Map<Seq<u8>, Seq<u8>>>
    decreases rs.len() - i,
{
    if i < 0 || i >= rs.len() {
        v
    } else {
        saved_all(
            v.insert(
                E::name_spec(),
                tree_of(v, E::name_spec()).insert(rs[i].key_spec().bytes_spec(), rs[i].rec_enc()),
            ),
            rs,
            i + 1,
        )
    }
}


// ---------------------------------------------------------------------------
// Filtered scans: convenience operations over a full keyspace scan.
// ---------------------------------------------------------------------------


/// The elements kept by a sequence of decisions, in order.
pub open spec fn kept_views<A>(views: Seq<A>, ds: Seq<bool>) -> Seq<A>
    recommends
        views.len() == ds.len(),
    decreases views.len(),
{
    if views.len() == 0 || ds.len() == 0 {
        Seq::empty()
    } else {
        let rest = kept_views(views.drop_last(), ds.drop_last());
        if ds.last() {
            rest.push(views.last())
        } else {
            rest
        }
    }
}

/// One more decision extends the kept elements by the element or not.
pub proof fn lemma_kept_views_snoc<A>(views: Seq<A>, ds: Seq<bool>, x: A, b: bool)
    requires
        views.len() == ds.len(),
    ensures
        kept_views(views.push(x), ds.push(b)) == (if b {
            kept_views(views, ds).push(x)
        } else {
            kept_views(views, ds)
        }),
{
    assert(views.push(x).drop_last() =~= views);
    assert(ds.push(b).drop_last() =~= ds);
    if views.push(x).len() == 0 || ds.push(b).len() == 0 {
    } else {
        assert(views.push(x).last() == x && ds.push(b).last() == b);
    }
}

/// Saving one more record extends the save fold by one insertion.
pub proof fn lemma_saved_all_snoc<E: Entity>(
    v: Map<Seq<char>, Map<Seq<u8>, Seq<u8>>>,
    ms: Seq<E>,
    m: E,
)
    ensures
        saved_all(v, ms.push(m), 0) == ({
            let vm = saved_all(v, ms, 0);
            vm.insert(
                E::name_spec(),
                tree_of(vm, E::name_spec()).insert(m.key_spec().bytes_spec(), m.rec_enc()),
            )
        }),
{
    lemma_saved_all_snoc_from(v, ms, m, 0);
}

proof fn lemma_saved_all_snoc_from<E: Entity>(
    v: Map<Seq<char>, Map<Seq<u8>, Seq<u8>>>,
    ms: Seq<E>,
    m: E,
    i: int,
)
    requires
        0 <= i <= ms.len(),
    ensures
        saved_all(v, ms.push(m), i) == ({
            let vm = saved_all(v, ms, i);
            vm.insert(
                E::name_spec(),
                tree_of(vm, E::name_spec()).insert(m.key_spec().bytes_spec(), m.rec_enc()),
            )
        }),
    decreases ms.len() - i,
{
    let p = ms.push(m);
    if i >= ms.len() {
        assert(p[i] == m);
        assert(saved_all(v, ms, i) == v);
        let vm = v.insert(
            E::name_spec(),
            tree_of(v, E::name_spec()).insert(m.key_spec().bytes_spec(), m.rec_enc()),
        );
        assert(saved_all(vm, p, i + 1) == vm);
        assert(saved_all(v, p, i) == vm);
    } else {
        assert(p[i] == ms[i]);
        let v2 = v.insert(
            E::name_spec(),
            tree_of(v, E::name_spec()).insert(ms[i].key_spec().bytes_spec(), ms[i].rec_enc()),
        );
        assert(saved_all(v, p, i) == saved_all(v2, p, i + 1));
        assert(saved_all(v, ms, i) == saved_all(v2, ms, i + 1));
        lemma_saved_all_snoc_from(v2, ms, m, i + 1);
    }
}

/// The condition `f` accepted this record when it was scanned.
pub open spec fn passed_filter<E, F: Fn(&E) -> bool>(f: F, rec: E) -> bool {
    exists|x: &E, b: bool| #[trigger] f.ensures((x,), b) && b && *x == rec
}

/// The condition `f` gave verdict `b` on a record with value `vv`.
pub open spec fn decided<E: Entity, F: Fn(&E) -> bool>(f: F, vv: E::V, b: bool) -> bool {
    exists|x: &E| x@ == vv && #[trigger] f.ensures((x,), b)
}

/// A completed filtered scan: `es` lists the whole keyspace in order, every
/// entry decodes, `ds` records the condition's verdict on each record, and
/// `listv` holds exactly the accepted records' values, in order.
pub open spec fn filter_scan<E: Entity, F: Fn(&E) -> bool>(
    tree: Map<Seq<u8>, Seq<u8>>,
    f: F,
    es: Seq<(Seq<u8>, Seq<u8>)>,
    ds: Seq<bool>,
    listv: Seq<E::V>,
) -> bool {
    &&& sorted_filtered_entries(tree, prefix_pred(Seq::<u8>::empty()), es)
    &&& ds.len() == es.len()
    &&& forall|i: int| 0 <= i < es.len() ==> E::dec_ok((#[trigger] es[i]).1)
    &&& forall|i: int|
        0 <= i < es.len() ==> decided::<E, F>(f, E::dec_view((#[trigger] es[i]).1), ds[i])
    &&& listv == kept_views(es.map_values(|p: (Seq<u8>, Seq<u8>)| E::dec_view(p.1)), ds)
}

/// Retrieves the records matching a condition, in ascending key order. The
/// whole keyspace is scanned: every stored record is decoded, shown to the
/// condition, and kept exactly when the condition accepts it.
pub fn get_with_filter<E: Entity, F: Fn(&E) -> bool>(f: F, store: &Store) -> (r: Result<
    Vec<E>,
    Error,
>)
    requires
        forall|x: &E| f.requires((x,)),
    ensures
        r matches Ok(list) ==> forall|m: int|
            0 <= m < list@.len() ==> #[trigger] passed_filter(f, list@[m]),
        r matches Ok(list) ==> exists|es: Seq<(Seq<u8>, Seq<u8>)>, ds: Seq<bool>|
            #![trigger es.len(), ds.len()]
            filter_scan::<E, F>(
                tree_of(store_view(*store), E::name_spec()),
                f,
                es,
                ds,
                list@.map_values(|rec: E| rec@),
            ),
        r matches Err(e) ==> e.kind_spec() == ErrorKind::SledError || e.kind_spec()
            == ErrorKind::SerializationError,
{
    let mut rest = match get_all::<E>(store) {
        Ok(all) => all,
        Err(e) => {
            return Err(e);
        },
    };
    let ghost allv = rest@;
    let ghost es = choose|es: Seq<(Seq<u8>, Seq<u8>)>|
        #![trigger es.len()]
        sorted_filtered_entries(
            tree_of(store_view(*store), E::name_spec()),
            prefix_pred(Seq::<u8>::empty()),
            es,
        ) && allv.len() == es.len() && forall|i: int|
            0 <= i < es.len() ==> E::dec_ok((#[trigger] es[i]).1) && allv[i]@ == E::dec_view(
                es[i].1,
            );
    let ghost dvs = es.map_values(|p: (Seq<u8>, Seq<u8>)| E::dec_view(p.1));
    let ghost mut ds = Seq::<bool>::empty();
    let n = rest.len();
    let mut out: Vec<E> = Vec::new();
    let mut i: usize = 0;
    proof {
        assert(dvs.subrange(0, 0) =~= Seq::<E::V>::empty());
        assert(out@.map_values(|rec: E| rec@) =~= kept_views(dvs.subrange(0, 0), ds));
        assert(rest@ =~= allv.subrange(0, n as int));
    }
    while i < n
        invariant
            forall|x: &E| f.requires((x,)),
            n == allv.len(),
            es.len() == n,
            dvs == es.map_values(|p: (Seq<u8>, Seq<u8>)| E::dec_view(p.1)),
            sorted_filtered_entries(
                tree_of(store_view(*store), E::name_spec()),
                prefix_pred(Seq::<u8>::empty()),
                es,
            ),
            forall|m: int|
                0 <= m < es.len() ==> E::dec_ok((#[trigger] es[m]).1) && allv[m]@ == E::dec_view(
                    es[m].1,
                ),
            0 <= i <= n,
            ds.len() == i,
            rest@ == allv.subrange(i as int, n as int),
            forall|m: int|
                0 <= m < i ==> decided::<E, F>(f, E::dec_view((#[trigger] es[m]).1), ds[m]),
            out@.map_values(|rec: E| rec@) == kept_views(dvs.subrange(0, i as int), ds),
            forall|m: int|
                0 <= m < out@.len() ==> #[trigger] passed_filter(f, out@[m]),
        decreases n - i,
    {
        let ghost pre_rest = rest@;
        let rec = rest.remove(0);
        proof {
            assert(rec == allv[i as int]);
            assert(rest@ =~= allv.subrange(i + 1, n as int));
        }
        let keep = f(&rec);
        proof {
            assert(rec@ == dvs[i as int]);
            let pre_ds = ds;
            ds = ds.push(keep);
            assert(dvs.subrange(0, i as int).push(dvs[i as int]) =~= dvs.subrange(0, i + 1));
            lemma_kept_views_snoc(dvs.subrange(0, i as int), pre_ds, dvs[i as int], keep);
            assert forall|m: int|
                0 <= m < i + 1 implies decided::<E, F>(
                f,
                E::dec_view((#[trigger] es[m]).1),
                ds[m],
            ) by {
                if m < i {
                    assert(decided::<E, F>(f, E::dec_view(es[m].1), pre_ds[m]));
                    assert(ds[m] == pre_ds[m]);
                } else {
                    assert((&rec)@ == E::dec_view(es[m].1) && f.ensures((&rec,), ds[m]));
                }
            }
        }
        if keep {
            let ghost pre = out@;
            out.push(rec);
            proof {
                assert(out@.map_values(|r2: E| r2@) =~= pre.map_values(|r2: E| r2@).push(
                    dvs[i as int],
                ));
                assert(passed_filter(f, rec)) by {
                    assert(f.ensures((&rec,), keep) && keep && *(&rec) == rec);
                }
                assert forall|m: int| 0 <= m < out@.len() implies #[trigger] passed_filter(
                    f,
                    out@[m],
                ) by {
                    if m < out@.len() - 1 {
                        assert(out@[m] == pre[m]);
                        assert(passed_filter(f, pre[m]));
                    } else {
                        assert(out@[m] == rec);
                    }
                }
            }
        } else {
            proof {
                assert(out@.map_values(|r2: E| r2@) == kept_views(dvs.subrange(0, i + 1), ds));
            }
        }
        i = i + 1;
    }
    proof {
        assert(dvs.subrange(0, n as int) =~= dvs);
        assert(filter_scan::<E, F>(
            tree_of(store_view(*store), E::name_spec()),
            f,
            es,
            ds,
            out@.map_values(|rec: E| rec@),
        ));
    }
    Ok(out)
}

/// A completed filtered update: the candidates are exactly the records of
/// the old keyspace the condition accepted, in key order; each was rewritten
/// by the modifier, and the results were saved in order.
pub open spec fn updated_all<E: Entity, F: Fn(&E) -> bool, M: Fn(E) -> E>(
    v0: SView,
    filter: F,
    modifier: M,
    cands: Seq<E>,
    ms: Seq<E>,
    vfinal: SView,
) -> bool {
    &&& exists|es: Seq<(Seq<u8>, Seq<u8>)>, ds: Seq<bool>|
        #![trigger es.len(), ds.len()]
        filter_scan::<E, F>(
            tree_of(v0, E::name_spec()),
            filter,
            es,
            ds,
            cands.map_values(|rec: E| rec@),
        )
    &&& forall|i: int| 0 <= i < cands.len() ==> passed_filter(filter, #[trigger] cands[i])
    &&& ms.len() == cands.len()
    &&& forall|i: int| 0 <= i < cands.len() ==> #[trigger] modifier.ensures((cands[i],), ms[i])
    &&& vfinal == saved_all(v0, ms, 0)
}

/// Applies `modifier` to every record matching `filter` and saves the
/// results back, in key order. The whole keyspace is scanned.
pub fn filter_update<E: Entity, F: Fn(&E) -> bool, M: Fn(E) -> E>(
    filter: F,
    modifier: M,
    store: &mut Store,
) -> (r: Result<(), Error>)
    requires
        forall|x: &E| filter.requires((x,)),
        forall|x: E| modifier.requires((x,)),
    ensures
        r matches Ok(u) ==> exists|cands: Seq<E>, ms: Seq<E>|
            #![trigger cands.len(), ms.len()]
            updated_all(
                store_view(*old(store)),
                filter,
                modifier,
                cands,
                ms,
                store_view(*final(store)),
            ),
        r matches Err(e) ==> e.kind_spec() == ErrorKind::SledError || e.kind_spec()
            == ErrorKind::SerializationError,
{
    let ghost v0 = store_view(*store);
    let mut matched = match get_with_filter::<E, F>(filter, &*store) {
        Ok(list) => list,
        Err(e) => {
            return Err(e);
        },
    };
    let ghost cands = matched@;
    proof {
        let (es, ds) = choose|es: Seq<(Seq<u8>, Seq<u8>)>, ds: Seq<bool>|
            #![trigger es.len(), ds.len()]
            filter_scan::<E, F>(
                tree_of(v0, E::name_spec()),
                filter,
                es,
                ds,
                matched@.map_values(|rec: E| rec@),
            );
        assert(filter_scan::<E, F>(
            tree_of(v0, E::name_spec()),
            filter,
            es,
            ds,
            cands.map_values(|rec: E| rec@),
        ));
    }
    let ghost mut ms = Seq::<E>::empty();
    let n = matched.len();
    let mut i: usize = 0;
    proof {
        assert(saved_all(v0, ms, 0) == v0);
    }
    while i < n
        invariant
            forall|x: E| modifier.requires((x,)),
            n == cands.len(),
            0 <= i <= n,
            matched@ == cands.subrange(i as int, n as int),
            ms.len() == i,
            forall|m: int| 0 <= m < cands.len() ==> passed_filter(filter, #[trigger] cands[m]),
            forall|m: int| 0 <= m < i ==> #[trigger] modifier.ensures((cands[m],), ms[m]),
            store_view(*store) == saved_all(v0, ms, 0),
        decreases n - i,
    {
        let rec = matched.remove(0);
        proof {
            assert(rec == cands[i as int]);
            assert(matched@ =~= cands.subrange(i + 1, n as int));
        }
        let rec2 = modifier(rec);
        match save(&rec2, store) {
            Ok(u) => {},
            Err(e) => {
                return Err(e);
            },
        }
        proof {
            let pre_ms = ms;
            ms = ms.push(rec2);
            lemma_saved_all_snoc(v0, pre_ms, rec2);
            assert(store_view(*store) == saved_all(v0, ms, 0));
            assert forall|m: int| 0 <= m < i + 1 implies #[trigger] modifier.ensures(
                (cands[m],),
                ms[m],
            ) by {
                if m < i {
                    assert(modifier.ensures((cands[m],), pre_ms[m]));
                }
            }
        }
        i = i + 1;
    }
    proof {
        assert(updated_all(v0, filter, modifier, cands, ms, store_view(*store)));
    }
    Ok(())
}

/// The records `cands[i..]` were handled in order: one whose removal the
/// plan admits was removed whole, one whose plan is refused stayed, with
/// nothing written for it.
pub open spec fn selective_removed<E: Entity>(
    v: SView,
    cands: Seq<E>,
    kept: Seq<bool>,
    i: int,
    v2: SView,
) -> bool
    decreases cands.len() - i,
{
    if i < 0 || i >= cands.len() || kept.len() != cands.len() {
        v2 == v
    } else if kept[i] {
        exists|vm: SView|
            #[trigger] node_removed(v, E::name_spec(), cands[i].key_spec().bytes_spec(), vm)
                && selective_removed(vm, cands, kept, i + 1, v2)
    } else {
        !chk_ok(
            v,
            (E::name_spec(), cands[i].key_spec().bytes_spec()),
            (E::name_spec(), cands[i].key_spec().bytes_spec()),
            Set::<Node>::empty(),
        ) && selective_removed(v, cands, kept, i + 1, v2)
    }
}

proof fn lemma_selective_removed_snoc_from<E: Entity>(
    v0: SView,
    cands: Seq<E>,
    kept: Seq<bool>,
    x: E,
    b: bool,
    vcur: SView,
    vnew: SView,
    i: int,
)
    requires
        kept.len() == cands.len(),
        0 <= i <= cands.len(),
        selective_removed::<E>(v0, cands, kept, i, vcur),
        b ==> node_removed(vcur, E::name_spec(), x.key_spec().bytes_spec(), vnew),
        !b ==> !chk_ok(
            vcur,
            (E::name_spec(), x.key_spec().bytes_spec()),
            (E::name_spec(), x.key_spec().bytes_spec()),
            Set::<Node>::empty(),
        ) && vnew == vcur,
    ensures
        selective_removed::<E>(v0, cands.push(x), kept.push(b), i, vnew),
    decreases cands.len() - i,
{
    let cp = cands.push(x);
    let kp = kept.push(b);
    assert(kp.len() == cp.len());
    if i >= cands.len() {
        assert(vcur == v0);
        assert(cp[i] == x && kp[i] == b);
        assert(selective_removed::<E>(vnew, cp, kp, i + 1, vnew));
        if b {
            assert(node_removed(v0, E::name_spec(), cp[i].key_spec().bytes_spec(), vnew)
                && selective_removed::<E>(vnew, cp, kp, i + 1, vnew));
        } else {
            assert(vnew == v0);
            assert(!chk_ok(
                v0,
                (E::name_spec(), cp[i].key_spec().bytes_spec()),
                (E::name_spec(), cp[i].key_spec().bytes_spec()),
                Set::<Node>::empty(),
            ));
            assert(selective_removed::<E>(v0, cp, kp, i + 1, vnew));
        }
    } else {
        assert(cp[i] == cands[i] && kp[i] == kept[i]);
        if kept[i] {
            let vm = choose|vm: SView|
                #[trigger] node_removed(
                    v0,
                    E::name_spec(),
                    cands[i].key_spec().bytes_spec(),
                    vm,
                ) && selective_removed::<E>(vm, cands, kept, i + 1, vcur);
            lemma_selective_removed_snoc_from::<E>(vm, cands, kept, x, b, vcur, vnew, i + 1);
            assert(node_removed(v0, E::name_spec(), cp[i].key_spec().bytes_spec(), vm)
                && selective_removed::<E>(vm, cp, kp, i + 1, vnew));
        } else {
            lemma_selective_removed_snoc_from::<E>(v0, cands, kept, x, b, vcur, vnew, i + 1);
        }
    }
}

/// Removes every record matching a condition, in key order, subject to the
/// declared integrity constraints, and returns the removed records: the
/// candidates are exactly the accepted records of the keyspace, and one
/// whose removal the plan refuses stays and is left out of the result.
pub fn filter_remove<E: Entity, F: Fn(&E) -> bool>(f: F, store: &mut Store) -> (r: Result<
    Vec<E>,
    Error,
>)
    requires
        store_finite(store_view(*old(store))),
        forall|x: &E| f.requires((x,)),
    ensures
        r matches Ok(list) ==> exists|cands: Seq<E>, kept: Seq<bool>|
            #![trigger cands.len(), kept.len()]
            (exists|es: Seq<(Seq<u8>, Seq<u8>)>, ds: Seq<bool>|
                #![trigger es.len(), ds.len()]
                filter_scan::<E, F>(
                    tree_of(store_view(*old(store)), E::name_spec()),
                    f,
                    es,
                    ds,
                    cands.map_values(|rec: E| rec@),
                )) && (forall|m: int|
                0 <= m < cands.len() ==> passed_filter(f, #[trigger] cands[m])) && kept.len()
                == cands.len() && selective_removed::<E>(
                store_view(*old(store)),
                cands,
                kept,
                0,
                store_view(*final(store)),
            ) && list@ == kept_views(cands, kept),
        r matches Err(e) ==> e.kind_spec() == ErrorKind::SledError || e.kind_spec()
            == ErrorKind::SerializationError,
{
    let ghost v0 = store_view(*store);
    let mut matched = match get_with_filter::<E, F>(f, &*store) {
        Ok(list) => list,
        Err(e) => {
            return Err(e);
        },
    };
    let ghost allcands = matched@;
    proof {
        let (es, ds) = choose|es: Seq<(Seq<u8>, Seq<u8>)>, ds: Seq<bool>|
            #![trigger es.len(), ds.len()]
            filter_scan::<E, F>(
                tree_of(v0, E::name_spec()),
                f,
                es,
                ds,
                matched@.map_values(|rec: E| rec@),
            );
        assert(filter_scan::<E, F>(
            tree_of(v0, E::name_spec()),
            f,
            es,
            ds,
            allcands.map_values(|rec: E| rec@),
        ));
    }
    let ghost mut kept = Seq::<bool>::empty();
    let n = matched.len();
    let mut out: Vec<E> = Vec::new();
    let mut i: usize = 0;
    proof {
        assert(allcands.subrange(0, 0) =~= Seq::<E>::empty());
        assert(selective_removed::<E>(v0, allcands.subrange(0, 0), kept, 0, v0));
        assert(out@ =~= kept_views(allcands.subrange(0, 0), kept));
    }
    while i < n
        invariant
            n == allcands.len(),
            0 <= i <= n,
            matched@ == allcands.subrange(i as int, n as int),
            kept.len() == i,
            store_finite(store_view(*store)),
            forall|m: int|
                0 <= m < allcands.len() ==> passed_filter(f, #[trigger] allcands[m]),
            selective_removed::<E>(v0, allcands.subrange(0, i as int), kept, 0, store_view(*store)),
            out@ == kept_views(allcands.subrange(0, i as int), kept),
        decreases n - i,
    {
        let rec = matched.remove(0);
        proof {
            assert(rec == allcands[i as int]);
            assert(matched@ =~= allcands.subrange(i + 1, n as int));
        }
        let ghost vcur = store_view(*store);
        let ghost pre_kept = kept;
        let removed = match remove::<E>(rec.get_key(), store) {
            Ok(u) => true,
            Err(e) => {
                if e.kind() == ErrorKind::IntegrityError || e.kind()
                    == ErrorKind::UnregisteredEntity {
                    // the record stays; planning a refused removal writes nothing
                    false
                } else {
                    return Err(e);
                }
            },
        };
        proof {
            kept = kept.push(removed);
            if removed {
                assert(node_removed(
                    vcur,
                    E::name_spec(),
                    rec.key_spec().bytes_spec(),
                    store_view(*store),
                ));
            }
            lemma_selective_removed_snoc_from::<E>(
                v0,
                allcands.subrange(0, i as int),
                pre_kept,
                rec,
                removed,
                vcur,
                store_view(*store),
                0,
            );
            assert(allcands.subrange(0, i as int).push(rec) =~= allcands.subrange(0, i + 1));
            lemma_kept_views_snoc(allcands.subrange(0, i as int), pre_kept, rec, removed);
        }
        if removed {
            out.push(rec);
        }
        proof {
            assert(out@ == kept_views(allcands.subrange(0, i + 1), kept));
        }
        i = i + 1;
    }
    proof {
        assert(allcands.subrange(0, n as int) =~= allcands);
        assert((forall|m: int|
            0 <= m < allcands.len() ==> passed_filter(f, #[trigger] allcands[m])) && kept.len()
            == allcands.len() && selective_removed::<E>(
            v0,
            allcands,
            kept,
            0,
            store_view(*store),
        ) && out@ == kept_views(allcands, kept));
    }
    Ok(out)
}

/// The records with keys `keys[i..]` of keyspace `t` were handled in order:
/// one whose removal the plan admits was removed whole, one whose plan is
/// refused stayed, with nothing written for it.
pub open spec fn prefixed_swept(v: SView, t: Seq<char>, keys: Seq<Seq<u8>>, i: int, v2: SView) -> bool
    decreases keys.len() - i,
{
    if i < 0 || i >= keys.len() {
        v2 == v
    } else {
        ||| (!chk_ok(v, (t, keys[i]), (t, keys[i]), Set::<Node>::empty()) && prefixed_swept(
            v,
            t,
            keys,
            i + 1,
            v2,
        ))
        ||| (exists|vm: SView|
            #[trigger] node_removed(v, t, keys[i], vm) && prefixed_swept(vm, t, keys, i + 1, v2))
    }
}

proof fn lemma_prefixed_swept_snoc_from(
    v0: SView,
    t: Seq<char>,
    keys: Seq<Seq<u8>>,
    x: Seq<u8>,
    removed: bool,
    vcur: SView,
    vnew: SView,
    i: int,
)
    requires
        0 <= i <= keys.len(),
        prefixed_swept(v0, t, keys, i, vcur),
        removed ==> node_removed(vcur, t, x, vnew),
        !removed ==> !chk_ok(vcur, (t, x), (t, x), Set::<Node>::empty()) && vnew == vcur,
    ensures
        prefixed_swept(v0, t, keys.push(x), i, vnew),
    decreases keys.len() - i,
{
    let kp = keys.push(x);
    if i >= keys.len() {
        assert(vcur == v0);
        assert(kp[i] == x);
        assert(prefixed_swept(vnew, t, kp, i + 1, vnew));
        if removed {
            assert(node_removed(v0, t, kp[i], vnew) && prefixed_swept(vnew, t, kp, i + 1, vnew));
        }
    } else {
        assert(kp[i] == keys[i]);
        if exists|vm: SView|
            #[trigger] node_removed(v0, t, keys[i], vm) && prefixed_swept(vm, t, keys, i + 1, vcur) {
            let vm = choose|vm: SView|
                #[trigger] node_removed(v0, t, keys[i], vm) && prefixed_swept(
                    vm,
                    t,
                    keys,
                    i + 1,
                    vcur,
                );
            lemma_prefixed_swept_snoc_from(vm, t, keys, x, removed, vcur, vnew, i + 1);
        } else {
            lemma_prefixed_swept_snoc_from(v0, t, keys, x, removed, vcur, vnew, i + 1);
        }
    }
}

/// Removes every record whose key bytes start with `prefix` from keyspace
/// `tree_name`, in key order, subject to the declared integrity
/// constraints: a record whose removal the plan refuses stays.
pub fn remove_prefixed_in_tree(tree_name: &str, prefix: &[u8], store: &mut Store) -> (r: Result<
    (),
    Error,
>)
    requires
        store_finite(store_view(*old(store))),
    ensures
        r matches Ok(u) ==> exists|es: Seq<(Seq<u8>, Seq<u8>)>|
            #![trigger es.len()]
            sorted_filtered_entries(
                tree_of(store_view(*old(store)), tree_name@),
                prefix_pred(prefix@),
                es,
            ) && prefixed_swept(
                store_view(*old(store)),
                tree_name@,
                es.map_values(|p: (Seq<u8>, Seq<u8>)| p.0),
                0,
                store_view(*final(store)),
            ),
        r matches Err(e) ==> e.kind_spec() == ErrorKind::SledError || e.kind_spec()
            == ErrorKind::SerializationError,
{
    let ghost v0 = store_view(*store);
    let es = match store.kv_scan_prefix(tree_name, prefix) {
        Ok(es) => es,
        Err(e) => {
            return Err(e);
        },
    };
    let ghost esv = entries_view(es@);
    let ghost keysv = esv.map_values(|p: (Seq<u8>, Seq<u8>)| p.0);
    let n = es.len();
    let mut i: usize = 0;
    proof {
        assert(keysv.subrange(0, 0) =~= Seq::<Seq<u8>>::empty());
        assert(prefixed_swept(v0, tree_name@, keysv.subrange(0, 0), 0, v0));
    }
    while i < n
        invariant
            v0 == store_view(*old(store)),
            n == es@.len(),
            esv == entries_view(es@),
            keysv == esv.map_values(|p: (Seq<u8>, Seq<u8>)| p.0),
            0 <= i <= n,
            store_finite(store_view(*store)),
            prefixed_swept(v0, tree_name@, keysv.subrange(0, i as int), 0, store_view(*store)),
        decreases n - i,
    {
        proof {
            assert(esv[i as int] == (es@[i as int].0@, es@[i as int].1@));
            assert(keysv[i as int] == es@[i as int].0@);
        }
        let ghost vcur = store_view(*store);
        let removed = match Relation::remove_planned(tree_name, es[i].0.as_slice(), store) {
            Ok(u) => {
                match store.kv_remove(tree_name, es[i].0.as_slice()) {
                    Ok(u2) => true,
                    Err(e) => {
                        return Err(e);
                    },
                }
            },
            Err(e) => {
                if e.kind() == ErrorKind::IntegrityError || e.kind()
                    == ErrorKind::UnregisteredEntity {
                    // the record stays; planning a refused removal writes nothing
                    false
                } else {
                    return Err(e);
                }
            },
        };
        proof {
            if removed {
                assert(node_removed(vcur, tree_name@, keysv[i as int], store_view(*store)));
            }
            lemma_prefixed_swept_snoc_from(
                v0,
                tree_name@,
                keysv.subrange(0, i as int),
                keysv[i as int],
                removed,
                vcur,
                store_view(*store),
                0,
            );
            assert(keysv.subrange(0, i as int).push(keysv[i as int]) =~= keysv.subrange(
                0,
                i + 1,
            ));
        }
        i = i + 1;
    }
    proof {
        assert(keysv.subrange(0, n as int) =~= keysv);
    }
    Ok(())
}

/// Removes every record of `E` whose key bytes start with the byte form of
/// `prefix`, subject to the declared integrity constraints.
pub fn remove_prefixed<E: Entity, P: AsBytes>(prefix: &P, store: &mut Store) -> (r: Result<
    (),
    Error,
>)
    requires
        store_finite(store_view(*old(store))),
    ensures
        r matches Err(e) ==> e.kind_spec() == ErrorKind::SledError || e.kind_spec()
            == ErrorKind::SerializationError,
{
    let pb = prefix.as_bytes();
    remove_prefixed_in_tree(E::store_name(), pb.as_slice(), store)
}

} // verus!
