use vstd::prelude::*;
use vstd::string::StrSliceExecFns;
use vstd::string::StringExecFns;
use vstd::utf8::encode_utf8;

use crate::bytes::AsBytes;
use crate::codec::dec_relations;
use crate::codec::decode_relations;
use crate::codec::enc_relations;
use crate::descriptor::DeletionBehaviour;
use crate::descriptor::EntityRelations;
use crate::descriptor::FamilyDescriptor;
use crate::descriptor::RelationEdge;
use crate::descriptor::RelationsView;
use crate::descriptor::er_add;
use crate::descriptor::er_rekey;
use crate::descriptor::er_remove_key;
use crate::descriptor::find_group_from;
use crate::descriptor::opt_str_view;
use crate::bytes::has_prefix;
use crate::codec::decode_family;
use crate::descriptor::FamilyView;
use crate::descriptor::RelationDescriptor;
use crate::entity::Entity;
use crate::entity::fam_of;
use crate::entity::family_tree_name;
use crate::entity::key_bytes_of;
use crate::entity::get_each_u8;
use crate::entity::get_from_u8_array;
use crate::error::Error;
use crate::error::ErrorKind;
use crate::kv::Store;
use crate::kv::store_finite;
use crate::kv::store_view;
use crate::kv::tree_of;
use crate::model::Node;
use crate::model::SView;
use crate::model::chk_ok;
use crate::model::desc_edges;
use crate::model::edge_ok;
use crate::model::sib_ok;
use crate::model::child_ok;
use crate::model::fault_reach;
use crate::model::msg_constrained_child;
use crate::model::msg_constrained_related;
use crate::model::msg_constrained_sibling;
use crate::model::msg_unregistered;
use crate::model::in_plan;
use crate::model::model_guard;
use crate::model::plan_set;
use crate::model::universe;
use crate::model::lemma_universe_finite;
use crate::model::lemma_desc_provenance;
use vstd::set_lib::lemma_len_subset;
use vstd::slice::slice_to_vec;

verus! {

// ---------------------------------------------------------------------------
// The relation graph.
//
// For every keyspace `t` an auxiliary keyspace holds the relation descriptor
// of each of `t`'s records, under the same key bytes. An absent entry stands
// for the empty descriptor. Free relations are always created and removed in
// mirrored pairs: each endpoint's descriptor names the other.
// ---------------------------------------------------------------------------

/// Namespace for the operations on the relation graph.
pub struct Relation;

/// The name of the auxiliary keyspace holding relation descriptors for
/// records of keyspace `t`.
pub open spec fn rel_tree_spec(t: Seq<char>) -> Seq<char> {
    "__$rel_"@ + t
}

/// The relation descriptor of `(t, k)` in store view `v`: `None` when its
/// stored bytes do not decode; the empty descriptor when nothing is stored.
pub open spec fn rel_desc_of(
    v: Map<Seq<char>, Map<Seq<u8>, Seq<u8>>>,
    t: Seq<char>,
    k: Seq<u8>,
) -> Option<RelationsView> {
    let tree = tree_of(v, rel_tree_spec(t));
    if tree.contains_key(k) {
        dec_relations(tree[k])
    } else {
        Some(Seq::empty())
    }
}

/// The store view after writing descriptor `d` for `(t, k)`.
pub open spec fn rel_desc_saved(
    v: Map<Seq<char>, Map<Seq<u8>, Seq<u8>>>,
    t: Seq<char>,
    k: Seq<u8>,
    d: RelationsView,
) -> Map<Seq<char>, Map<Seq<u8>, Seq<u8>>> {
    v.insert(rel_tree_spec(t), tree_of(v, rel_tree_spec(t)).insert(k, enc_relations(d)))
}

/// The store view after adding the one-way edge `(t1, k1) -> (t2, k2)` with
/// behaviour `b` and name `n`; `None` when the stored descriptor of
/// `(t1, k1)` does not decode.
pub open spec fn link_added(
    v: Map<Seq<char>, Map<Seq<u8>, Seq<u8>>>,
    t1: Seq<char>,
    k1: Seq<u8>,
    t2: Seq<char>,
    k2: Seq<u8>,
    b: DeletionBehaviour,
    n: Option<Seq<char>>,
) -> Option<Map<Seq<char>, Map<Seq<u8>, Seq<u8>>>> {
    match rel_desc_of(v, t1, k1) {
        None => None,
        Some(d) => Some(rel_desc_saved(v, t1, k1, er_add(d, t2, k2, b, n))),
    }
}

/// The store view after removing every edge `(t1, k1) -> (t2, k2)`, whatever
/// its name; `None` when the stored descriptor of `(t1, k1)` does not decode.
pub open spec fn link_removed(
    v: Map<Seq<char>, Map<Seq<u8>, Seq<u8>>>,
    t1: Seq<char>,
    k1: Seq<u8>,
    t2: Seq<char>,
    k2: Seq<u8>,
) -> Option<Map<Seq<char>, Map<Seq<u8>, Seq<u8>>>> {
    match rel_desc_of(v, t1, k1) {
        None => None,
        Some(d) => Some(rel_desc_saved(v, t1, k1, er_remove_key(d, t2, k2))),
    }
}

/// The peer keys listed in the group of `d` named `t`, in order.
pub open spec fn group_keys(d: RelationsView, t: Seq<char>) -> Seq<Seq<u8>> {
    match find_group_from(d, t, 0) {
        None => Seq::empty(),
        Some(i) => d[i].1.map_values(|e: RelationEdge| e.key),
    }
}

/// The peer keys listed in the group of `d` named `t` whose edges carry the
/// name `n`, in order.
pub open spec fn group_keys_with_name(d: RelationsView, t: Seq<char>, n: Seq<char>) -> Seq<
    Seq<u8>,
> {
    match find_group_from(d, t, 0) {
        None => Seq::empty(),
        Some(i) => d[i].1.filter(|e: RelationEdge| e.name == Some(n)).map_values(
            |e: RelationEdge| e.key,
        ),
    }
}

/// The records stored under `keys` in `E`'s keyspace of view `v`, as
/// mathematical values, in the order of `keys`, skipping absent ones; `None`
/// when a stored record does not decode.
pub open spec fn got_list<E: Entity>(
    v: Map<Seq<char>, Map<Seq<u8>, Seq<u8>>>,
    keys: Seq<Seq<u8>>,
) -> Option<Seq<E::V>>
    decreases keys.len(),
{
    if keys.len() == 0 {
        Some(Seq::empty())
    } else {
        let tree = tree_of(v, E::name_spec());
        let head: Option<Seq<E::V>> = if tree.contains_key(keys[0]) {
            if E::dec_ok(tree[keys[0]]) {
                Some(seq![E::dec_view(tree[keys[0]])])
            } else {
                None
            }
        } else {
            Some(Seq::empty())
        };
        match head {
            None => None,
            Some(h) => match got_list::<E>(v, keys.drop_first()) {
                None => None,
                Some(rest) => Some(h + rest),
            },
        }
    }
}

impl Relation {
    /// The name of the auxiliary keyspace holding relation descriptors for
    /// records of the given keyspace.
    pub fn tree_name(entity_tree: &str) -> (r: String)
        ensures
            r@ == rel_tree_spec(entity_tree@),
    {
        String::from_str("__$rel_").concat(entity_tree)
    }

    /// Reads the relation descriptor of the record with key bytes `e` in
    /// keyspace `tree_name`.
    pub fn relations_with_key_and_tree_name(tree_name: &str, e: &[u8], store: &Store) -> (r:
        Result<EntityRelations, Error>)
        ensures
            r matches Ok(er) ==> rel_desc_of(store_view(*store), tree_name@, e@) == Some(er@),
            r matches Err(err) ==> err.kind_spec() == ErrorKind::SledError || (err.kind_spec()
                == ErrorKind::SerializationError && rel_desc_of(
                store_view(*store),
                tree_name@,
                e@,
            ) is None && err.message_spec() == rel_tree_spec(tree_name@)),
    {
        let rt = Relation::tree_name(tree_name);
        match store.kv_get(rt.as_str(), e) {
            Err(err) => Err(err),
            Ok(None) => {
                let er = EntityRelations::default();
                proof {
                    assert(er@ =~= Seq::<(Seq<char>, Seq<RelationEdge>)>::empty());
                }
                Ok(er)
            },
            Ok(Some(bytes)) => match decode_relations(bytes.as_slice()) {
                Some(er) => Ok(er),
                None => Err(Error::new(ErrorKind::SerializationError, rt)),
            },
        }
    }

    /// Reads the relation descriptor of the record with key bytes `key` in
    /// `E`'s keyspace.
    pub fn relations_with_key<E: Entity>(key: &[u8], store: &Store) -> (r: Result<
        EntityRelations,
        Error,
    >)
        ensures
            r matches Ok(er) ==> rel_desc_of(store_view(*store), E::name_spec(), key@) == Some(
                er@,
            ),
            r matches Err(err) ==> err.kind_spec() == ErrorKind::SledError || err.kind_spec()
                == ErrorKind::SerializationError,
    {
        Relation::relations_with_key_and_tree_name(E::store_name(), key, store)
    }

    /// Reads the relation descriptor of record `e`.
    pub fn relations<E: Entity>(e: &E, store: &Store) -> (r: Result<EntityRelations, Error>)
        ensures
            r matches Ok(er) ==> rel_desc_of(store_view(*store), E::name_spec(), key_bytes_of(e))
                == Some(er@),
            r matches Err(err) ==> err.kind_spec() == ErrorKind::SledError || err.kind_spec()
                == ErrorKind::SerializationError,
    {
        let kb = e.get_key().as_bytes();
        Relation::relations_with_key::<E>(kb.as_slice(), store)
    }

    /// Writes descriptor `r_d` for the record with key bytes `e` in keyspace
    /// `tree_name`.
    pub fn save_descriptor_with_key_and_tree_name(
        tree_name: &str,
        e: &[u8],
        r_d: &EntityRelations,
        store: &mut Store,
    ) -> (r: Result<(), Error>)
        ensures
            r matches Ok(u) ==> store_view(*final(store)) == rel_desc_saved(
                store_view(*old(store)),
                tree_name@,
                e@,
                r_d@,
            ),
            r matches Err(err) ==> err.kind_spec() == ErrorKind::SledError,
    {
        let rt = Relation::tree_name(tree_name);
        let bytes = r_d.encode();
        store.kv_insert(rt.as_str(), e, bytes.as_slice())
    }

    /// Writes descriptor `r_d` for record `e`.
    pub fn save_descriptor<E: Entity>(e: &E, r_d: &EntityRelations, store: &mut Store) -> (r:
        Result<(), Error>)
        ensures
            r matches Ok(u) ==> store_view(*final(store)) == rel_desc_saved(
                store_view(*old(store)),
                E::name_spec(),
                key_bytes_of(e),
                r_d@,
            ),
            r matches Err(err) ==> err.kind_spec() == ErrorKind::SledError,
    {
        let kb = e.get_key().as_bytes();
        Relation::save_descriptor_with_key_and_tree_name(E::store_name(), kb.as_slice(), r_d, store)
    }

    /// Adds the one-way edge `e1 -> e2` to `e1`'s descriptor.
    fn create_link<E1: Entity, E2: Entity>(
        e1: &E1,
        e2: &E2,
        e1_to_e2: DeletionBehaviour,
        name: Option<&str>,
        store: &mut Store,
    ) -> (r: Result<(), Error>)
        ensures
            r matches Ok(u) ==> link_added(
                store_view(*old(store)),
                E1::name_spec(),
                key_bytes_of(e1),
                E2::name_spec(),
                key_bytes_of(e2),
                e1_to_e2,
                opt_str_view(name),
            ) == Some(store_view(*final(store))),
            r matches Err(err) ==> err.kind_spec() == ErrorKind::SledError || (err.kind_spec()
                == ErrorKind::SerializationError && store_view(*final(store)) == store_view(
                *old(store),
            )),
    {
        let mut e1_descriptor = match Relation::relations::<E1>(e1, store) {
            Ok(d) => d,
            Err(err) => {
                return Err(err);
            },
        };
        let kb2 = e2.get_key().as_bytes();
        e1_descriptor.add_related_by_key(E2::store_name(), kb2.as_slice(), e1_to_e2, name);
        Relation::save_descriptor::<E1>(e1, &e1_descriptor, store)
    }

    /// Removes the one-way edges `k1 -> k2` (by key, whatever the name) from
    /// the descriptor of the record with key bytes `e1` in `tree1`.
    fn remove_link_with_keys_and_tree_names(
        tree1: &str,
        e1: &[u8],
        tree2: &str,
        e2: &[u8],
        store: &mut Store,
    ) -> (r: Result<(), Error>)
        ensures
            r matches Ok(u) ==> link_removed(store_view(*old(store)), tree1@, e1@, tree2@, e2@)
                == Some(store_view(*final(store))),
            r matches Err(err) ==> err.kind_spec() == ErrorKind::SledError || (err.kind_spec()
                == ErrorKind::SerializationError && store_view(*final(store)) == store_view(
                *old(store),
            ) && link_removed(store_view(*old(store)), tree1@, e1@, tree2@, e2@) is None),
    {
        let mut e1_descriptor = match Relation::relations_with_key_and_tree_name(
            tree1,
            e1,
            store,
        ) {
            Ok(d) => d,
            Err(err) => {
                return Err(err);
            },
        };
        e1_descriptor.remove_related_by_key_and_tree_name(tree2, e2);
        Relation::save_descriptor_with_key_and_tree_name(tree1, e1, &e1_descriptor, store)
    }

    /// Creates a free relation between `e1` and `e2`: each side records an
    /// edge towards the other, with its own deletion behaviour and the shared
    /// optional name.
    pub fn create<E1: Entity, E2: Entity>(
        e1: &E1,
        e2: &E2,
        e1_to_e2: DeletionBehaviour,
        e2_to_e1: DeletionBehaviour,
        name: Option<&str>,
        store: &mut Store,
    ) -> (r: Result<(), Error>)
        ensures
            r matches Ok(u) ==> exists|mid: Map<Seq<char>, Map<Seq<u8>, Seq<u8>>>|
                link_added(
                    store_view(*old(store)),
                    E1::name_spec(),
                    key_bytes_of(e1),
                    E2::name_spec(),
                    key_bytes_of(e2),
                    e1_to_e2,
                    opt_str_view(name),
                ) == Some(mid) && link_added(
                    mid,
                    E2::name_spec(),
                    key_bytes_of(e2),
                    E1::name_spec(),
                    key_bytes_of(e1),
                    e2_to_e1,
                    opt_str_view(name),
                ) == Some(store_view(*final(store))),
            r matches Err(err) ==> err.kind_spec() == ErrorKind::SledError || err.kind_spec()
                == ErrorKind::SerializationError,
    {
        match Relation::create_link(e1, e2, e1_to_e2, name, store) {
            Ok(u) => {},
            Err(err) => {
                return Err(err);
            },
        }
        Relation::create_link(e2, e1, e2_to_e1, name, store)
    }

    /// Removes the free relation between `e1` and `e2`: the edges are removed
    /// from both descriptors, whatever their names.
    #[verifier::rlimit(50)]
    pub fn remove<E1: Entity, E2: Entity>(e1: &E1, e2: &E2, store: &mut Store) -> (r: Result<
        (),
        Error,
    >)
        ensures
            r matches Ok(u) ==> exists|mid: Map<Seq<char>, Map<Seq<u8>, Seq<u8>>>|
                link_removed(
                    store_view(*old(store)),
                    E1::name_spec(),
                    key_bytes_of(e1),
                    E2::name_spec(),
                    key_bytes_of(e2),
                ) == Some(mid) && link_removed(
                    mid,
                    E2::name_spec(),
                    key_bytes_of(e2),
                    E1::name_spec(),
                    key_bytes_of(e1),
                ) == Some(store_view(*final(store))),
            r matches Err(err) ==> err.kind_spec() == ErrorKind::SledError || err.kind_spec()
                == ErrorKind::SerializationError,
    {
        let kb1 = e1.get_key().as_bytes();
        let kb2 = e2.get_key().as_bytes();
        let t1 = E1::store_name();
        let t2 = E2::store_name();
        let ghost v0 = store_view(*store);
        let r = Relation::remove_by_keys_and_tree_names(
            t1,
            kb1.as_slice(),
            t2,
            kb2.as_slice(),
            store,
        );
        proof {
            if r is Ok {
                let mid = choose|mid: Map<Seq<char>, Map<Seq<u8>, Seq<u8>>>|
                    link_removed(v0, t1@, kb1@, t2@, kb2@) == Some(mid) && link_removed(
                        mid,
                        t2@,
                        kb2@,
                        t1@,
                        kb1@,
                    ) == Some(store_view(*store));
                assert(link_removed(
                    v0,
                    E1::name_spec(),
                    key_bytes_of(e1),
                    E2::name_spec(),
                    key_bytes_of(e2),
                ) == Some(mid) && link_removed(
                    mid,
                    E2::name_spec(),
                    key_bytes_of(e2),
                    E1::name_spec(),
                    key_bytes_of(e1),
                ) == Some(store_view(*store)));
            }
        }
        r
    }

    /// Removes the free relation between the records with key bytes `e1` of
    /// `E1` and `e2` of `E2`.
    pub fn remove_by_keys<E1: Entity, E2: Entity>(e1: &[u8], e2: &[u8], store: &mut Store) -> (r:
        Result<(), Error>)
        ensures
            r matches Ok(u) ==> exists|mid: Map<Seq<char>, Map<Seq<u8>, Seq<u8>>>|
                link_removed(store_view(*old(store)), E1::name_spec(), e1@, E2::name_spec(), e2@)
                    == Some(mid) && link_removed(mid, E2::name_spec(), e2@, E1::name_spec(), e1@)
                    == Some(store_view(*final(store))),
            r matches Err(err) ==> err.kind_spec() == ErrorKind::SledError || err.kind_spec()
                == ErrorKind::SerializationError,
    {
        Relation::remove_by_keys_and_tree_names(
            E1::store_name(),
            e1,
            E2::store_name(),
            e2,
            store,
        )
    }

    /// Removes the free relation between the records with key bytes `e1` of
    /// keyspace `tree1` and `e2` of keyspace `tree2`.
    pub fn remove_by_keys_and_tree_names(
        tree1: &str,
        e1: &[u8],
        tree2: &str,
        e2: &[u8],
        store: &mut Store,
    ) -> (r: Result<(), Error>)
        ensures
            r matches Ok(u) ==> exists|mid: Map<Seq<char>, Map<Seq<u8>, Seq<u8>>>|
                link_removed(store_view(*old(store)), tree1@, e1@, tree2@, e2@) == Some(mid)
                    && link_removed(mid, tree2@, e2@, tree1@, e1@) == Some(
                    store_view(*final(store)),
                ),
            r matches Err(err) ==> err.kind_spec() == ErrorKind::SledError || err.kind_spec()
                == ErrorKind::SerializationError,
    {
        match Relation::remove_link_with_keys_and_tree_names(tree1, e1, tree2, e2, store) {
            Ok(u) => {},
            Err(err) => {
                return Err(err);
            },
        }
        Relation::remove_link_with_keys_and_tree_names(tree2, e2, tree1, e1, store)
    }
}


// ---------------------------------------------------------------------------
// Node lists: the ancestor path and the plan, as executable values.
// ---------------------------------------------------------------------------

/// The view of a list of record addresses.
pub open spec fn nodes_view(s: Seq<(String, Vec<u8>)>) -> Seq<Node> {
    s.map_values(|p: (String, Vec<u8>)| (p.0@, p.1@))
}

/// Whether the list holds the address `(t, k)`.
fn contains_node(v: &Vec<(String, Vec<u8>)>, t: &str, k: &[u8]) -> (r: bool)
    ensures
        r == nodes_view(v@).contains((t@, k@)),
{
    let ts: String = t.to_owned();
    let mut i: usize = 0;
    while i < v.len()
        invariant
            0 <= i <= v@.len(),
            ts@ == t@,
            forall|m: int| 0 <= m < i ==> nodes_view(v@)[m] != (t@, k@),
        decreases v@.len() - i,
    {
        if v[i].0 == ts && crate::descriptor::bytes_eq(v[i].1.as_slice(), k) {
            assert(nodes_view(v@)[i as int] == (t@, k@));
            return true;
        }
        assert(nodes_view(v@)[i as int] == (v@[i as int].0@, v@[i as int].1@));
        i = i + 1;
    }
    proof {
        if nodes_view(v@).contains((t@, k@)) {
            let m = choose|m: int| 0 <= m < nodes_view(v@).len() && nodes_view(v@)[m] == (t@, k@);
            assert(false);
        }
    }
    false
}

/// An exact copy of a list of addresses.
fn copy_nodes(v: &Vec<(String, Vec<u8>)>) -> (r: Vec<(String, Vec<u8>)>)
    ensures
        nodes_view(r@) == nodes_view(v@),
{
    let mut r: Vec<(String, Vec<u8>)> = Vec::new();
    let mut i: usize = 0;
    while i < v.len()
        invariant
            0 <= i <= v@.len(),
            nodes_view(r@) == nodes_view(v@).subrange(0, i as int),
        decreases v@.len() - i,
    {
        let nm = v[i].0.clone();
        let kb = slice_to_vec(v[i].1.as_slice());
        assert(nm@ == v@[i as int].0@ && kb@ == v@[i as int].1@);
        r.push((nm, kb));
        proof {
            assert(r@.len() == i + 1) by {
                assert(nodes_view(v@).subrange(0, i as int).len() == i);
            }
            assert(nodes_view(r@).len() == i + 1);
            assert forall|m: int| 0 <= m < i + 1 implies nodes_view(r@)[m] == nodes_view(
                v@,
            ).subrange(0, i + 1)[m] by {
                if m < i {
                    assert(nodes_view(r@)[m] == nodes_view(v@).subrange(0, i as int)[m]);
                }
            }
            assert(nodes_view(r@) =~= nodes_view(v@).subrange(0, i + 1));
        }
        i = i + 1;
    }
    assert(nodes_view(v@).subrange(0, v@.len() as int) =~= nodes_view(v@));
    r
}

/// A pushed address extends the address set by one element.
proof fn lemma_nodes_to_set_push(s: Seq<Node>, x: Node)
    ensures
        s.push(x).to_set() == s.to_set().insert(x),
{
    let p = s.push(x);
    assert forall|a: Node| p.to_set().contains(a) implies s.to_set().insert(x).contains(a) by {
        let m = choose|m: int| 0 <= m < p.len() && p[m] == a;
        if m < p.len() - 1 {
            assert(s[m] == a);
        }
    }
    assert forall|a: Node| s.to_set().insert(x).contains(a) implies p.to_set().contains(a) by {
        if s.to_set().contains(a) {
            let m = choose|m: int| 0 <= m < s.len() && s[m] == a;
            assert(p[m] == a);
        } else {
            assert(p[p.len() - 1] == a);
        }
    }
    assert(p.to_set() =~= s.to_set().insert(x));
}

/// Adds to `acc` the addresses of `sub` it does not already hold.
fn merge_nodes(acc: &mut Vec<(String, Vec<u8>)>, sub: &Vec<(String, Vec<u8>)>)
    requires
        nodes_view(old(acc)@).no_duplicates(),
    ensures
        nodes_view(final(acc)@).no_duplicates(),
        nodes_view(final(acc)@).to_set() == nodes_view(old(acc)@).to_set().union(
            nodes_view(sub@).to_set(),
        ),
{
    let mut i: usize = 0;
    while i < sub.len()
        invariant
            0 <= i <= sub@.len(),
            nodes_view(acc@).no_duplicates(),
            nodes_view(acc@).to_set() == nodes_view(old(acc)@).to_set().union(
                nodes_view(sub@).subrange(0, i as int).to_set(),
            ),
        decreases sub@.len() - i,
    {
        let ghost pre = nodes_view(acc@);
        let ghost x = nodes_view(sub@)[i as int];
        proof {
            let pre_sub = nodes_view(sub@).subrange(0, i as int);
            let cur_sub = nodes_view(sub@).subrange(0, i + 1);
            assert(cur_sub.drop_last() =~= pre_sub);
            assert(cur_sub.last() == x);
            assert(pre_sub.push(x) =~= cur_sub);
            lemma_nodes_to_set_push(pre_sub, x);
        }
        let n = (sub[i].0.clone(), slice_to_vec(sub[i].1.as_slice()));
        assert((n.0@, n.1@) == x);
        if !contains_node(acc, n.0.as_str(), n.1.as_slice()) {
            assert(!pre.contains(x));
            acc.push(n);
            proof {
                assert(nodes_view(acc@) =~= pre.push(x));
                lemma_nodes_to_set_push(pre, x);
                assert(nodes_view(acc@).no_duplicates()) by {
                    let cur = pre.push(x);
                    assert forall|a: int, b: int|
                        0 <= a < b < cur.len() implies cur[a] != cur[b] by {
                        if b < cur.len() - 1 {
                            assert(pre[a] == cur[a] && pre[b] == cur[b]);
                        } else {
                            assert(cur[b] == x && cur[a] == pre[a]);
                            assert(pre.contains(pre[a]));
                        }
                    }
                }
                assert(nodes_view(acc@).to_set() =~= nodes_view(old(acc)@).to_set().union(
                    nodes_view(sub@).subrange(0, i + 1).to_set(),
                ));
            }
        } else {
            proof {
                assert(pre.to_set().contains(x));
                assert(nodes_view(acc@).to_set() =~= nodes_view(old(acc)@).to_set().union(
                    nodes_view(sub@).subrange(0, i + 1).to_set(),
                ));
            }
        }
        i = i + 1;
    }
    assert(nodes_view(sub@).subrange(0, sub@.len() as int) =~= nodes_view(sub@));
}

impl FamilyDescriptor {
    /// Reads the stored family descriptor for the given keyspace name, if the
    /// type was registered.
    pub fn get_by_name(tree_name: &str, store: &Store) -> (r: Result<
        Option<FamilyDescriptor>,
        Error,
    >)
        ensures
            r matches Ok(o) ==> match o {
                Some(f) => crate::entity::fam_of(store_view(*store), tree_name@) == Some(
                    Some(f@),
                ),
                None => crate::entity::fam_of(store_view(*store), tree_name@) is None,
            },
            r matches Err(e) ==> e.kind_spec() == ErrorKind::SledError || (e.kind_spec()
                == ErrorKind::SerializationError && crate::entity::fam_of(
                store_view(*store),
                tree_name@,
            ) == Some(None::<FamilyView>) && e.message_spec() == tree_name@),
    {
        let kb = tree_name.as_bytes_vec();
        match store.kv_get(family_tree_name(), kb.as_slice()) {
            Err(e) => Err(e),
            Ok(None) => Ok(None),
            Ok(Some(bytes)) => match decode_family(bytes.as_slice()) {
                Some(f) => Ok(Some(f)),
                None => Err(
                    Error::new(ErrorKind::SerializationError, tree_name.to_owned()),
                ),
            },
        }
    }

    /// Reads the stored family descriptor for the given keyspace name.
    pub fn get(tree_name: &String, store: &Store) -> (r: Result<Option<FamilyDescriptor>, Error>)
        ensures
            r matches Ok(o) ==> match o {
                Some(f) => crate::entity::fam_of(store_view(*store), tree_name@) == Some(
                    Some(f@),
                ),
                None => crate::entity::fam_of(store_view(*store), tree_name@) is None,
            },
            r matches Err(e) ==> e.kind_spec() == ErrorKind::SledError || e.kind_spec()
                == ErrorKind::SerializationError,
    {
        FamilyDescriptor::get_by_name(tree_name.as_str(), store)
    }

    /// Writes this family descriptor to the registry keyspace under its own
    /// keyspace name.
    pub fn save(&self, store: &mut Store) -> (r: Result<(), Error>)
        ensures
            r matches Ok(u) ==> store_view(*final(store)) == store_view(*old(store)).insert(
                crate::entity::family_tree_spec(),
                tree_of(store_view(*old(store)), crate::entity::family_tree_spec()).insert(
                    encode_utf8(self.tree_name@),
                    crate::codec::enc_family(self@),
                ),
            ),
            r matches Err(e) ==> e.kind_spec() == ErrorKind::SledError,
    {
        let bytes = self.encode();
        let kb = self.tree_name.as_str().as_bytes_vec();
        store.kv_insert(family_tree_name(), kb.as_slice(), bytes.as_slice())
    }

    /// Tells whether a family descriptor is registered for the given
    /// keyspace name.
    pub fn exists_key(tree_name: &String, store: &Store) -> (r: Result<bool, Error>)
        ensures
            r matches Ok(b) ==> b == (crate::entity::fam_of(store_view(*store), tree_name@)
                is Some),
            r matches Err(e) ==> e.kind_spec() == ErrorKind::SledError,
    {
        let kb = tree_name.as_str().as_bytes_vec();
        store.kv_contains(family_tree_name(), kb.as_slice())
    }
}


// ---------------------------------------------------------------------------
// The deletion planner.
// ---------------------------------------------------------------------------

/// The running state of a plan under construction: no duplicates, the
/// starting node is in it, and everything in it belongs to the plan the
/// model prescribes.
pub open spec fn plan_inv(
    v: SView,
    root: Node,
    node: Node,
    path: Set<Node>,
    plan: Seq<(String, Vec<u8>)>,
) -> bool {
    &&& nodes_view(plan).no_duplicates()
    &&& nodes_view(plan).to_set().contains(node)
    &&& forall|x: Node|
        nodes_view(plan).to_set().contains(x) ==> in_plan(v, root, node, path, x)
}

impl Relation {
    /// Plans the removal of the record with key bytes `e1` in keyspace
    /// `tree_name`, given the ancestor path `already_checked` of records
    /// whose removal is already planned upstream. On success the returned
    /// list holds every record the removal carries away, the starting record
    /// included; on an integrity violation, an unregistered entity or an
    /// undecodable descriptor the planning fails before anything is written.
    #[verifier::rlimit(100)]
    pub fn can_be_deleted(
        tree_name: &str,
        e1: &[u8],
        already_checked: &Vec<(String, Vec<u8>)>,
        store: &Store,
        Ghost(root): Ghost<Node>,
    ) -> (r: Result<Vec<(String, Vec<u8>)>, Error>)
        requires
            model_guard(
                store_view(*store),
                root,
                (tree_name@, e1@),
                nodes_view(already_checked@).to_set(),
            ),
            nodes_view(already_checked@).no_duplicates(),
        ensures
            ({
                let v = store_view(*store);
                let node = (tree_name@, e1@);
                let path = nodes_view(already_checked@).to_set();
                match r {
                    Ok(plan) => chk_ok(v, root, node, path) && nodes_view(
                        plan@,
                    ).no_duplicates() && nodes_view(plan@).to_set() == plan_set(
                        v,
                        root,
                        node,
                        path,
                    ),
                    Err(e) => e.kind_spec() == ErrorKind::SledError || ((e.kind_spec()
                        == ErrorKind::SerializationError || e.kind_spec()
                        == ErrorKind::IntegrityError || e.kind_spec()
                        == ErrorKind::UnregisteredEntity) && !chk_ok(v, root, node, path)
                        && fault_reach(v, root, node, path, e.kind_spec(), e.message_spec())),
                }
            }),
            nodes_view(already_checked@).to_set().contains((tree_name@, e1@)) ==> (r matches Ok(
                plan,
            ) && plan@.len() == 0),
            r matches Err(e) ==> (e.kind_spec() != ErrorKind::SledError && rel_desc_of(
                store_view(*store),
                tree_name@,
                e1@,
            ) is None ==> e.kind_spec() == ErrorKind::SerializationError && e.message_spec()
                == rel_tree_spec(tree_name@)),
            r matches Err(e) ==> (e.kind_spec() != ErrorKind::SledError && rel_desc_of(
                store_view(*store),
                tree_name@,
                e1@,
            ) is Some && crate::entity::fam_of(store_view(*store), tree_name@) is None
                ==> e.kind_spec() == ErrorKind::UnregisteredEntity && e.message_spec()
                == msg_unregistered(tree_name@)),
            r matches Err(e) ==> (e.kind_spec() != ErrorKind::SledError && rel_desc_of(
                store_view(*store),
                tree_name@,
                e1@,
            ) is Some && crate::entity::fam_of(store_view(*store), tree_name@) == Some(
                None::<FamilyView>,
            ) ==> e.kind_spec() == ErrorKind::SerializationError && e.message_spec()
                == tree_name@),
        decreases
                universe(store_view(*store), root).len() - nodes_view(
                    already_checked@,
                ).to_set().len(),
                0int,
    {
        let ghost v = store_view(*store);
        let ghost node = (tree_name@, e1@);
        let ghost path = nodes_view(already_checked@).to_set();

        if contains_node(already_checked, tree_name, e1) {
            let empty: Vec<(String, Vec<u8>)> = Vec::new();
            proof {
                assert(path.contains(node));
                assert(chk_ok(v, root, node, path));
                assert(nodes_view(empty@) =~= Seq::<Node>::empty());
                assert forall|n: Node| !in_plan(v, root, node, path, n) by {}
                assert(nodes_view(empty@).to_set() =~= plan_set(v, root, node, path));
            }
            return Ok(empty);
        }
        assert(!path.contains(node)) by {
            if path.contains(node) {
                let m = choose|m: int|
                    0 <= m < nodes_view(already_checked@).len() && nodes_view(
                        already_checked@,
                    )[m] == node;
            }
        }

        let descriptor = match Relation::relations_with_key_and_tree_name(tree_name, e1, store) {
            Ok(d) => d,
            Err(err) => {
                proof {
                    if err.kind_spec() == ErrorKind::SerializationError {
                        assert(!chk_ok(v, root, node, path));
                        assert(fault_reach(
                            v,
                            root,
                            node,
                            path,
                            ErrorKind::SerializationError,
                            rel_tree_spec(node.0),
                        ));
                    }
                }
                return Err(err);
            },
        };
        let fam = match FamilyDescriptor::get_by_name(tree_name, store) {
            Ok(Some(f)) => f,
            Ok(None) => {
                let message = String::from_str("Trying to use unregistered entity ").concat(
                    tree_name,
                );
                proof {
                    assert(!chk_ok(v, root, node, path));
                    assert(message@ == msg_unregistered(node.0));
                    assert(fault_reach(
                        v,
                        root,
                        node,
                        path,
                        ErrorKind::UnregisteredEntity,
                        message@,
                    ));
                }
                return Err(Error::new(ErrorKind::UnregisteredEntity, message));
            },
            Err(err) => {
                proof {
                    if err.kind_spec() == ErrorKind::SerializationError {
                        assert(!chk_ok(v, root, node, path));
                        assert(fault_reach(
                            v,
                            root,
                            node,
                            path,
                            ErrorKind::SerializationError,
                            node.0,
                        ));
                    }
                }
                return Err(err);
            },
        };

        let mut new_checked = copy_nodes(already_checked);
        new_checked.push((tree_name.to_owned(), slice_to_vec(e1)));
        let ghost path1 = path.insert(node);
        proof {
            assert(nodes_view(new_checked@) =~= nodes_view(already_checked@).push(node));
            lemma_nodes_to_set_push(nodes_view(already_checked@), node);
            assert(nodes_view(new_checked@).no_duplicates()) by {
                let pre = nodes_view(already_checked@);
                let cur = nodes_view(new_checked@);
                assert forall|a: int, b: int| 0 <= a < b < cur.len() implies cur[a] != cur[b] by {
                    if b < cur.len() - 1 {
                        assert(pre[a] == cur[a] && pre[b] == cur[b]);
                    } else {
                        assert(cur[b] == node && cur[a] == pre[a]);
                        assert(pre.contains(pre[a]));
                    }
                }
            }
        }

        proof {
            vstd::set::axiom_set_insert_len(path, node);
            assert(path1.len() == path.len() + 1);
            lemma_universe_finite(v, root);
            lemma_len_subset(path1, universe(v, root));
        }
        let mut plan: Vec<(String, Vec<u8>)> = Vec::new();
        plan.push((tree_name.to_owned(), slice_to_vec(e1)));
        proof {
            assert(nodes_view(plan@) =~= Seq::<Node>::empty().push(node));
            lemma_nodes_to_set_push(Seq::<Node>::empty(), node);
            assert(Seq::<Node>::empty().to_set() =~= Set::<Node>::empty());
            assert(nodes_view(plan@).to_set() =~= Set::<Node>::empty().insert(node));
            assert(in_plan(v, root, node, path, node));
            assert(plan_inv(v, root, node, path, plan@));
        }

        match Relation::plan_free_edges(
            &descriptor,
            &new_checked,
            &mut plan,
            store,
            Ghost(root),
            Ghost(node),
            Ghost(path),
        ) {
            Ok(u) => {},
            Err(err) => {
                proof {
                    if err.kind_spec() != ErrorKind::SledError {
                        let te = choose|te: (Seq<char>, RelationEdge)|
                            #[trigger] desc_edges(descriptor@).contains(te) && !edge_ok(
                                v,
                                root,
                                path1,
                                te,
                            );
                        assert(rel_desc_of(v, node.0, node.1)->Some_0 == descriptor@);
                        assert(desc_edges(rel_desc_of(v, node.0, node.1)->Some_0).contains(te)
                            && !edge_ok(v, root, path1, te));
                        assert(!chk_ok(v, root, node, path));
                    }
                }
                return Err(err);
            },
        }
        match Relation::plan_siblings(
            &fam.sibling_trees,
            e1,
            &new_checked,
            &mut plan,
            store,
            Ghost(root),
            Ghost(node),
            Ghost(path),
        ) {
            Ok(u) => {},
            Err(err) => {
                proof {
                    if err.kind_spec() != ErrorKind::SledError {
                        let i = choose|i: int|
                            0 <= i < fam@.siblings.len() && !sib_ok(
                                v,
                                root,
                                node.1,
                                path1,
                                #[trigger] fam@.siblings[i],
                            );
                        let fv = fam_of(v, node.0)->Some_0->Some_0;
                        assert(fv == fam@);
                        assert(0 <= i < fv.siblings.len() && !sib_ok(
                            v,
                            root,
                            node.1,
                            path1,
                            fv.siblings[i],
                        ));
                        assert(!chk_ok(v, root, node, path));
                    }
                }
                return Err(err);
            },
        }
        match Relation::plan_children(
            &fam.child_trees,
            e1,
            &new_checked,
            &mut plan,
            store,
            Ghost(root),
            Ghost(node),
            Ghost(path),
        ) {
            Ok(u) => {},
            Err(err) => {
                proof {
                    if err.kind_spec() != ErrorKind::SledError {
                        let i = choose|i: int|
                            0 <= i < fam@.children.len() && !child_ok(
                                v,
                                root,
                                node.1,
                                path1,
                                #[trigger] fam@.children[i],
                            );
                        let fv = fam_of(v, node.0)->Some_0->Some_0;
                        assert(fv == fam@);
                        assert(0 <= i < fv.children.len() && !child_ok(
                            v,
                            root,
                            node.1,
                            path1,
                            fv.children[i],
                        ));
                        assert(!chk_ok(v, root, node, path));
                    }
                }
                return Err(err);
            },
        }

        proof {
            assert(chk_ok(v, root, node, path));
            assert forall|n: Node| in_plan(v, root, node, path, n) implies nodes_view(
                plan@,
            ).to_set().contains(n) by {
                if n != node {
                    let d = descriptor@;
                    let f = fam@;
                    if exists|te: (Seq<char>, RelationEdge)|
                        #[trigger] desc_edges(d).contains(te) && te.1.behaviour is Cascade
                            && in_plan(v, root, (te.0, te.1.key), path1, n) {
                        let te = choose|te: (Seq<char>, RelationEdge)|
                            #[trigger] desc_edges(d).contains(te) && te.1.behaviour is Cascade
                                && in_plan(v, root, (te.0, te.1.key), path1, n);
                        assert(plan_set(v, root, (te.0, te.1.key), path1).contains(n));
                    } else if exists|i: int|
                        0 <= i < f.siblings.len() && (#[trigger] f.siblings[i]).1 is Cascade
                            && tree_of(v, f.siblings[i].0).contains_key(node.1) && in_plan(
                            v,
                            root,
                            (f.siblings[i].0, node.1),
                            path1,
                            n,
                        ) {
                        let i = choose|i: int|
                            0 <= i < f.siblings.len() && (#[trigger] f.siblings[i]).1 is Cascade
                                && tree_of(v, f.siblings[i].0).contains_key(node.1) && in_plan(
                                v,
                                root,
                                (f.siblings[i].0, node.1),
                                path1,
                                n,
                            );
                        assert(plan_set(v, root, (f.siblings[i].0, node.1), path1).contains(n));
                    } else {
                        let (i, ck) = choose|i: int, ck: Seq<u8>|
                            #![trigger f.children[i], has_prefix(ck, node.1)]
                            0 <= i < f.children.len() && f.children[i].1 is Cascade && tree_of(
                                v,
                                f.children[i].0,
                            ).contains_key(ck) && has_prefix(ck, node.1) && in_plan(
                                v,
                                root,
                                (f.children[i].0, ck),
                                path1,
                                n,
                            );
                        assert(plan_set(v, root, (f.children[i].0, ck), path1).contains(n));
                    }
                }
            }
            assert(nodes_view(plan@).to_set() =~= plan_set(v, root, node, path));
        }
        Ok(plan)
    }
}


impl Relation {
    /// Checks the outgoing free edges of `node` (whose decoded descriptor is
    /// `descriptor`) and extends the plan through the cascading ones.
    #[verifier::rlimit(100)]
    fn plan_free_edges(
        descriptor: &EntityRelations,
        new_checked: &Vec<(String, Vec<u8>)>,
        plan: &mut Vec<(String, Vec<u8>)>,
        store: &Store,
        Ghost(root): Ghost<Node>,
        Ghost(node): Ghost<Node>,
        Ghost(path): Ghost<Set<Node>>,
    ) -> (r: Result<(), Error>)
        requires
            store_finite(store_view(*store)),
            path.finite(),
            path.subset_of(universe(store_view(*store), root)),
            universe(store_view(*store), root).contains(node),
            !path.contains(node),
            nodes_view(new_checked@).to_set() == path.insert(node),
            nodes_view(new_checked@).no_duplicates(),
            rel_desc_of(store_view(*store), node.0, node.1) == Some(descriptor@),
            plan_inv(store_view(*store), root, node, path, old(plan)@),
        ensures
            ({
                let v = store_view(*store);
                let path1 = path.insert(node);
                let d = descriptor@;
                match r {
                    Ok(u) => plan_inv(v, root, node, path, final(plan)@) && nodes_view(
                        old(plan)@,
                    ).to_set().subset_of(nodes_view(final(plan)@).to_set()) && (forall|
                        te: (Seq<char>, RelationEdge),
                    |
                        #[trigger] desc_edges(d).contains(te) ==> edge_ok(v, root, path1, te)) && (
                    forall|te: (Seq<char>, RelationEdge)|
                        #[trigger] desc_edges(d).contains(te) && te.1.behaviour is Cascade
                            ==> plan_set(v, root, (te.0, te.1.key), path1).subset_of(
                            nodes_view(final(plan)@).to_set(),
                        )),
                    Err(e) => e.kind_spec() == ErrorKind::SledError || ((e.kind_spec()
                        == ErrorKind::SerializationError || e.kind_spec()
                        == ErrorKind::IntegrityError || e.kind_spec()
                        == ErrorKind::UnregisteredEntity) && (exists|
                        te: (Seq<char>, RelationEdge),
                    |
                        #[trigger] desc_edges(d).contains(te) && !edge_ok(v, root, path1, te))
                        && fault_reach(v, root, node, path, e.kind_spec(), e.message_spec())),
                }
            }),
        decreases
                universe(store_view(*store), root).len() - nodes_view(
                    new_checked@,
                ).to_set().len(),
                1int,
    {
        let ghost v = store_view(*store);
        let ghost path1 = path.insert(node);
        let ghost d = descriptor@;
        proof {
            lemma_desc_provenance(v, node.0, node.1, d);
        }
        let glen = descriptor.related_entities.len();
        let mut gi: usize = 0;
        while gi < glen
            invariant
                store_finite(v),
                v == store_view(*store),
                path.finite(),
                path.subset_of(universe(v, root)),
                universe(v, root).contains(node),
                !path.contains(node),
                path1 == path.insert(node),
                nodes_view(new_checked@).to_set() == path1,
                nodes_view(new_checked@).no_duplicates(),
                rel_desc_of(v, node.0, node.1) == Some(d),
                d == descriptor@,
                glen == descriptor.related_entities.len(),
                0 <= gi <= glen,
                plan_inv(v, root, node, path, plan@),
                nodes_view(old(plan)@).to_set().subset_of(nodes_view(plan@).to_set()),
                forall|a: int, b: int|
                    0 <= a < gi && 0 <= b < d[a].1.len() ==> edge_ok(
                        v,
                        root,
                        path1,
                        (d[a].0, #[trigger] d[a].1[b]),
                    ),
                forall|a: int, b: int|
                    0 <= a < gi && 0 <= b < d[a].1.len() && (#[trigger] d[a].1[b]).behaviour
                        is Cascade ==> plan_set(v, root, (d[a].0, d[a].1[b].key), path1).subset_of(
                        nodes_view(plan@).to_set(),
                    ),
            decreases glen - gi,
        {
            let elen = descriptor.related_entities[gi].1.len();
            let mut ei: usize = 0;
            while ei < elen
                invariant
                    store_finite(v),
                    v == store_view(*store),
                    path.finite(),
                    path.subset_of(universe(v, root)),
                    universe(v, root).contains(node),
                    !path.contains(node),
                    path1 == path.insert(node),
                    nodes_view(new_checked@).to_set() == path1,
                    nodes_view(new_checked@).no_duplicates(),
                    rel_desc_of(v, node.0, node.1) == Some(d),
                    d == descriptor@,
                    glen == descriptor.related_entities.len(),
                    0 <= gi < glen,
                    elen == descriptor.related_entities[gi as int].1.len(),
                    0 <= ei <= elen,
                    plan_inv(v, root, node, path, plan@),
                    nodes_view(old(plan)@).to_set().subset_of(nodes_view(plan@).to_set()),
                    forall|a: int, b: int|
                        0 <= a < gi && 0 <= b < d[a].1.len() ==> edge_ok(
                            v,
                            root,
                            path1,
                            (d[a].0, #[trigger] d[a].1[b]),
                        ),
                    forall|a: int, b: int|
                        0 <= a < gi && 0 <= b < d[a].1.len() && (#[trigger] d[a].1[b]).behaviour
                            is Cascade ==> plan_set(v, root, (d[a].0, d[a].1[b].key), path1).subset_of(
                            nodes_view(plan@).to_set(),
                        ),
                    forall|b: int|
                        0 <= b < ei ==> edge_ok(
                            v,
                            root,
                            path1,
                            (d[gi as int].0, #[trigger] d[gi as int].1[b]),
                        ),
                    forall|b: int|
                        0 <= b < ei && (#[trigger] d[gi as int].1[b]).behaviour is Cascade
                            ==> plan_set(v, root, (d[gi as int].0, d[gi as int].1[b].key), path1).subset_of(
                            nodes_view(plan@).to_set(),
                        ),
                decreases elen - ei,
            {
                let ghost te = (d[gi as int].0, d[gi as int].1[ei as int]);
                proof {
                    assert(d[gi as int] == (descriptor.related_entities@[gi as int].0@,
                        descriptor.related_entities@[gi as int].1@.map_values(
                        |rd: RelationDescriptor| rd@,
                    )));
                    assert(d[gi as int].1[ei as int] == descriptor.related_entities@[gi as int].1@[ei as int]@);
                    assert(desc_edges(d).contains(te)) by {
                        assert(0 <= gi < d.len() && 0 <= ei < d[gi as int].1.len() && d[gi as int].0
                            == te.0 && d[gi as int].1[ei as int] == te.1);
                    }
                }
                let behaviour = descriptor.related_entities[gi].1[ei].deletion_behaviour;
                match behaviour {
                    DeletionBehaviour::Error => {
                        let gname: String = descriptor.related_entities[gi].0.clone();
                        let inside = contains_node(
                            new_checked,
                            gname.as_str(),
                            descriptor.related_entities[gi].1[ei].key.as_slice(),
                        );
                        proof {
                            lemma_nodes_contains_set(nodes_view(new_checked@), (te.0, te.1.key));
                        }
                        if !inside {
                            let message = String::from_str(
                                "Constrained related entity exists in ",
                            ).concat(gname.as_str());
                            proof {
                                assert(!edge_ok(v, root, path1, te));
                                assert(rel_desc_of(v, node.0, node.1)->Some_0 == d);
                                assert(desc_edges(rel_desc_of(v, node.0, node.1)->Some_0).contains(
                                    te,
                                ) && message@ == msg_constrained_related(te.0) && te.1.behaviour
                                    is Error && !path1.contains((te.0, te.1.key)));
                                assert(fault_reach(
                                    v,
                                    root,
                                    node,
                                    path,
                                    ErrorKind::IntegrityError,
                                    message@,
                                ));
                            }
                            return Err(Error::new(ErrorKind::IntegrityError, message));
                        }
                        assert(edge_ok(v, root, path1, te));
                    },
                    DeletionBehaviour::BreakLink => {
                        assert(edge_ok(v, root, path1, te));
                    },
                    DeletionBehaviour::Cascade => {
                        let gname: String = descriptor.related_entities[gi].0.clone();
                        proof {
                            lemma_desc_provenance(v, node.0, node.1, d);
                            assert(universe(v, root).contains((te.0, te.1.key)));
                        }
                        match Relation::can_be_deleted(
                            gname.as_str(),
                            descriptor.related_entities[gi].1[ei].key.as_slice(),
                            new_checked,
                            store,
                            Ghost(root),
                        ) {
                            Err(err) => {
                                proof {
                                    if err.kind_spec() != ErrorKind::SledError {
                                        assert(!chk_ok(v, root, (te.0, te.1.key), path1));
                                        assert(!edge_ok(v, root, path1, te));
                                        assert(rel_desc_of(v, node.0, node.1)->Some_0 == d);
                                        assert(desc_edges(
                                            rel_desc_of(v, node.0, node.1)->Some_0,
                                        ).contains(te) && te.1.behaviour is Cascade && fault_reach(
                                            v,
                                            root,
                                            (te.0, te.1.key),
                                            path1,
                                            err.kind_spec(),
                                            err.message_spec(),
                                        ));
                                        assert(fault_reach(
                                            v,
                                            root,
                                            node,
                                            path,
                                            err.kind_spec(),
                                            err.message_spec(),
                                        ));
                                    }
                                }
                                return Err(err);
                            },
                            Ok(sub) => {
                                proof {
                                    assert(chk_ok(v, root, (te.0, te.1.key), path1));
                                    assert(edge_ok(v, root, path1, te));
                                }
                                let ghost pre_set = nodes_view(plan@).to_set();
                                merge_nodes(plan, &sub);
                                proof {
                                    assert forall|x: Node|
                                        nodes_view(plan@).to_set().contains(x) implies in_plan(
                                        v,
                                        root,
                                        node,
                                        path,
                                        x,
                                    ) by {
                                        if !pre_set.contains(x) {
                                            assert(nodes_view(sub@).to_set().contains(x));
                                            assert(in_plan(v, root, (te.0, te.1.key), path1, x));
                                            assert(rel_desc_of(v, node.0, node.1)->Some_0 == d);
                                            assert(desc_edges(
                                                rel_desc_of(v, node.0, node.1)->Some_0,
                                            ).contains(te) && te.1.behaviour is Cascade && in_plan(
                                                v,
                                                root,
                                                (te.0, te.1.key),
                                                path1,
                                                x,
                                            ));
                                            assert(in_plan(v, root, node, path, x));
                                        }
                                    }
                                }
                            },
                        }
                    },
                }
                ei = ei + 1;
            }
            gi = gi + 1;
        }
        proof {
            assert forall|te: (Seq<char>, RelationEdge)| #[trigger]
                desc_edges(d).contains(te) implies edge_ok(v, root, path1, te) by {
                let (a, b) = choose|a: int, b: int|
                    0 <= a < d.len() && 0 <= b < (#[trigger] d[a]).1.len() && d[a].0 == te.0 && (
                    #[trigger] d[a].1[b]) == te.1;
                assert(edge_ok(v, root, path1, (d[a].0, d[a].1[b])));
            }
            assert forall|te: (Seq<char>, RelationEdge)| #[trigger]
                desc_edges(d).contains(te) && te.1.behaviour is Cascade implies plan_set(
                v,
                root,
                (te.0, te.1.key),
                path1,
            ).subset_of(nodes_view(plan@).to_set()) by {
                let (a, b) = choose|a: int, b: int|
                    0 <= a < d.len() && 0 <= b < (#[trigger] d[a]).1.len() && d[a].0 == te.0 && (
                    #[trigger] d[a].1[b]) == te.1;
                assert(plan_set(v, root, (d[a].0, d[a].1[b].key), path1).subset_of(
                    nodes_view(plan@).to_set(),
                ));
            }
        }
        Ok(())
    }
}

/// A sequence's membership matches its set form.
proof fn lemma_nodes_contains_set(s: Seq<Node>, x: Node)
    ensures
        s.contains(x) == s.to_set().contains(x),
{
}


impl Relation {
    /// Checks the declared sibling keyspaces of `node`'s type and extends
    /// the plan through the cascading ones.
    #[verifier::rlimit(100)]
    fn plan_siblings(
        siblings: &Vec<(String, DeletionBehaviour)>,
        e1: &[u8],
        new_checked: &Vec<(String, Vec<u8>)>,
        plan: &mut Vec<(String, Vec<u8>)>,
        store: &Store,
        Ghost(root): Ghost<Node>,
        Ghost(node): Ghost<Node>,
        Ghost(path): Ghost<Set<Node>>,
    ) -> (r: Result<(), Error>)
        requires
            store_finite(store_view(*store)),
            path.finite(),
            path.subset_of(universe(store_view(*store), root)),
            universe(store_view(*store), root).contains(node),
            !path.contains(node),
            e1@ == node.1,
            nodes_view(new_checked@).to_set() == path.insert(node),
            nodes_view(new_checked@).no_duplicates(),
            plan_inv(store_view(*store), root, node, path, old(plan)@),
            rel_desc_of(store_view(*store), node.0, node.1) is Some,
            fam_of(store_view(*store), node.0) matches Some(ff) && ff matches Some(fv)
                && fv.siblings == crate::descriptor::tree_list_view(siblings@),
        ensures
            ({
                let v = store_view(*store);
                let path1 = path.insert(node);
                let l = crate::descriptor::tree_list_view(siblings@);
                match r {
                    Ok(u) => plan_inv(v, root, node, path, final(plan)@) && nodes_view(
                        old(plan)@,
                    ).to_set().subset_of(nodes_view(final(plan)@).to_set()) && (forall|i: int|
                        0 <= i < l.len() ==> sib_ok(v, root, node.1, path1, #[trigger] l[i])) && (
                    forall|i: int|
                        0 <= i < l.len() && (#[trigger] l[i]).1 is Cascade && tree_of(
                            v,
                            l[i].0,
                        ).contains_key(node.1) ==> plan_set(v, root, (l[i].0, node.1), path1).subset_of(
                            nodes_view(final(plan)@).to_set(),
                        )),
                    Err(e) => e.kind_spec() == ErrorKind::SledError || ((e.kind_spec()
                        == ErrorKind::SerializationError || e.kind_spec()
                        == ErrorKind::IntegrityError || e.kind_spec()
                        == ErrorKind::UnregisteredEntity) && (exists|i: int|
                        0 <= i < l.len() && !sib_ok(v, root, node.1, path1, #[trigger] l[i]))
                        && fault_reach(v, root, node, path, e.kind_spec(), e.message_spec())),
                }
            }),
        decreases
                universe(store_view(*store), root).len() - nodes_view(
                    new_checked@,
                ).to_set().len(),
                1int,
    {
        let ghost v = store_view(*store);
        let ghost path1 = path.insert(node);
        let ghost l = crate::descriptor::tree_list_view(siblings@);
        let slen = siblings.len();
        let mut si: usize = 0;
        while si < slen
            invariant
                store_finite(v),
                v == store_view(*store),
                path.finite(),
                path.subset_of(universe(v, root)),
                universe(v, root).contains(node),
                !path.contains(node),
                path1 == path.insert(node),
                e1@ == node.1,
                nodes_view(new_checked@).to_set() == path1,
                nodes_view(new_checked@).no_duplicates(),
                rel_desc_of(v, node.0, node.1) is Some,
                fam_of(v, node.0) matches Some(ff) && ff matches Some(fv) && fv.siblings == l,
                l == crate::descriptor::tree_list_view(siblings@),
                slen == siblings.len(),
                0 <= si <= slen,
                plan_inv(v, root, node, path, plan@),
                nodes_view(old(plan)@).to_set().subset_of(nodes_view(plan@).to_set()),
                forall|i: int|
                    0 <= i < si ==> sib_ok(v, root, node.1, path1, #[trigger] l[i]),
                forall|i: int|
                    0 <= i < si && (#[trigger] l[i]).1 is Cascade && tree_of(
                        v,
                        l[i].0,
                    ).contains_key(node.1) ==> plan_set(v, root, (l[i].0, node.1), path1).subset_of(
                        nodes_view(plan@).to_set(),
                    ),
            decreases slen - si,
        {
            let ghost entry = l[si as int];
            proof {
                assert(entry == (siblings@[si as int].0@, siblings@[si as int].1));
            }
            let t2: String = siblings[si].0.clone();
            let behaviour = siblings[si].1;
            match behaviour {
                DeletionBehaviour::Error => {
                    let present = match store.kv_contains(t2.as_str(), e1) {
                        Ok(b) => b,
                        Err(err) => {
                            return Err(err);
                        },
                    };
                    if present {
                        let inside = contains_node(new_checked, t2.as_str(), e1);
                        proof {
                            lemma_nodes_contains_set(
                                nodes_view(new_checked@),
                                (entry.0, node.1),
                            );
                        }
                        if !inside {
                            let message = String::from_str(
                                "Constrained sibling entity exists in ",
                            ).concat(t2.as_str());
                            proof {
                                assert(!sib_ok(v, root, node.1, path1, entry));
                                let fv = fam_of(v, node.0)->Some_0->Some_0;
                                assert(fv.siblings == l);
                                assert(0 <= si < fv.siblings.len() && (#[trigger]
                                fv.siblings[si as int]).1 is Error && message@
                                    == msg_constrained_sibling(fv.siblings[si as int].0)
                                    && tree_of(v, fv.siblings[si as int].0).contains_key(node.1)
                                    && !path1.contains((fv.siblings[si as int].0, node.1)));
                                assert(fault_reach(
                                    v,
                                    root,
                                    node,
                                    path,
                                    ErrorKind::IntegrityError,
                                    message@,
                                ));
                            }
                            return Err(Error::new(ErrorKind::IntegrityError, message));
                        }
                    }
                    assert(sib_ok(v, root, node.1, path1, entry));
                },
                DeletionBehaviour::BreakLink => {
                    assert(sib_ok(v, root, node.1, path1, entry));
                },
                DeletionBehaviour::Cascade => {
                    let present = match store.kv_contains(t2.as_str(), e1) {
                        Ok(b) => b,
                        Err(err) => {
                            return Err(err);
                        },
                    };
                    if present {
                        proof {
                            assert(v.contains_key(entry.0) && v[entry.0].contains_key(node.1));
                            assert(universe(v, root).contains((entry.0, node.1)));
                        }
                        match Relation::can_be_deleted(
                            t2.as_str(),
                            e1,
                            new_checked,
                            store,
                            Ghost(root),
                        ) {
                            Err(err) => {
                                proof {
                                    if err.kind_spec() != ErrorKind::SledError {
                                        assert(!chk_ok(v, root, (entry.0, node.1), path1));
                                        assert(!sib_ok(v, root, node.1, path1, entry));
                                        let fv = fam_of(v, node.0)->Some_0->Some_0;
                                        assert(fv.siblings == l);
                                        assert(0 <= si < fv.siblings.len() && (#[trigger]
                                        fv.siblings[si as int]).1 is Cascade && tree_of(
                                            v,
                                            fv.siblings[si as int].0,
                                        ).contains_key(node.1) && fault_reach(
                                            v,
                                            root,
                                            (fv.siblings[si as int].0, node.1),
                                            path1,
                                            err.kind_spec(),
                                            err.message_spec(),
                                        ));
                                        assert(fault_reach(
                                            v,
                                            root,
                                            node,
                                            path,
                                            err.kind_spec(),
                                            err.message_spec(),
                                        ));
                                    }
                                }
                                return Err(err);
                            },
                            Ok(sub) => {
                                proof {
                                    assert(sib_ok(v, root, node.1, path1, entry));
                                }
                                let ghost pre_set = nodes_view(plan@).to_set();
                                merge_nodes(plan, &sub);
                                proof {
                                    assert forall|x: Node|
                                        nodes_view(plan@).to_set().contains(x) implies in_plan(
                                        v,
                                        root,
                                        node,
                                        path,
                                        x,
                                    ) by {
                                        if !pre_set.contains(x) {
                                            assert(nodes_view(sub@).to_set().contains(x));
                                            assert(in_plan(v, root, (entry.0, node.1), path1, x));
                                            let f = fam_of(v, node.0)->Some_0->Some_0;
                                            assert(f.siblings == l);
                                            assert(0 <= si < f.siblings.len() && (#[trigger]
                                            f.siblings[si as int]).1 is Cascade && tree_of(
                                                v,
                                                f.siblings[si as int].0,
                                            ).contains_key(node.1) && in_plan(
                                                v,
                                                root,
                                                (f.siblings[si as int].0, node.1),
                                                path1,
                                                x,
                                            ));
                                            assert(in_plan(v, root, node, path, x));
                                        }
                                    }
                                }
                            },
                        }
                    } else {
                        assert(sib_ok(v, root, node.1, path1, entry));
                    }
                },
            }
            si = si + 1;
        }
        Ok(())
    }
}


impl Relation {
    /// Checks the declared child keyspaces of `node`'s type and extends the
    /// plan through the cascading children.
    #[verifier::rlimit(100)]
    fn plan_children(
        children: &Vec<(String, DeletionBehaviour)>,
        e1: &[u8],
        new_checked: &Vec<(String, Vec<u8>)>,
        plan: &mut Vec<(String, Vec<u8>)>,
        store: &Store,
        Ghost(root): Ghost<Node>,
        Ghost(node): Ghost<Node>,
        Ghost(path): Ghost<Set<Node>>,
    ) -> (r: Result<(), Error>)
        requires
            store_finite(store_view(*store)),
            path.finite(),
            path.subset_of(universe(store_view(*store), root)),
            universe(store_view(*store), root).contains(node),
            !path.contains(node),
            e1@ == node.1,
            nodes_view(new_checked@).to_set() == path.insert(node),
            nodes_view(new_checked@).no_duplicates(),
            plan_inv(store_view(*store), root, node, path, old(plan)@),
            rel_desc_of(store_view(*store), node.0, node.1) is Some,
            fam_of(store_view(*store), node.0) matches Some(ff) && ff matches Some(fv)
                && fv.children == crate::descriptor::tree_list_view(children@),
        ensures
            ({
                let v = store_view(*store);
                let path1 = path.insert(node);
                let l = crate::descriptor::tree_list_view(children@);
                match r {
                    Ok(u) => plan_inv(v, root, node, path, final(plan)@) && nodes_view(
                        old(plan)@,
                    ).to_set().subset_of(nodes_view(final(plan)@).to_set()) && (forall|i: int|
                        0 <= i < l.len() ==> child_ok(v, root, node.1, path1, #[trigger] l[i]))
                        && (forall|i: int, ck: Seq<u8>|
                        #![trigger l[i], has_prefix(ck, node.1)]
                        0 <= i < l.len() && l[i].1 is Cascade && tree_of(v, l[i].0).contains_key(
                            ck,
                        ) && has_prefix(ck, node.1) ==> plan_set(v, root, (l[i].0, ck), path1).subset_of(
                            nodes_view(final(plan)@).to_set(),
                        )),
                    Err(e) => e.kind_spec() == ErrorKind::SledError || ((e.kind_spec()
                        == ErrorKind::SerializationError || e.kind_spec()
                        == ErrorKind::IntegrityError || e.kind_spec()
                        == ErrorKind::UnregisteredEntity) && (exists|i: int|
                        0 <= i < l.len() && !child_ok(v, root, node.1, path1, #[trigger] l[i]))
                        && fault_reach(v, root, node, path, e.kind_spec(), e.message_spec())),
                }
            }),
        decreases
                universe(store_view(*store), root).len() - nodes_view(
                    new_checked@,
                ).to_set().len(),
                1int,
    {
        let ghost v = store_view(*store);
        let ghost path1 = path.insert(node);
        let ghost l = crate::descriptor::tree_list_view(children@);
        let clen = children.len();
        let mut ci: usize = 0;
        while ci < clen
            invariant
                store_finite(v),
                v == store_view(*store),
                path.finite(),
                path.subset_of(universe(v, root)),
                universe(v, root).contains(node),
                !path.contains(node),
                path1 == path.insert(node),
                e1@ == node.1,
                nodes_view(new_checked@).to_set() == path1,
                nodes_view(new_checked@).no_duplicates(),
                rel_desc_of(v, node.0, node.1) is Some,
                fam_of(v, node.0) matches Some(ff) && ff matches Some(fv) && fv.children == l,
                l == crate::descriptor::tree_list_view(children@),
                clen == children.len(),
                0 <= ci <= clen,
                plan_inv(v, root, node, path, plan@),
                nodes_view(old(plan)@).to_set().subset_of(nodes_view(plan@).to_set()),
                forall|i: int|
                    0 <= i < ci ==> child_ok(v, root, node.1, path1, #[trigger] l[i]),
                forall|i: int, ck: Seq<u8>|
                    #![trigger l[i], has_prefix(ck, node.1)]
                    0 <= i < ci && l[i].1 is Cascade && tree_of(v, l[i].0).contains_key(ck)
                        && has_prefix(ck, node.1) ==> plan_set(v, root, (l[i].0, ck), path1).subset_of(
                        nodes_view(plan@).to_set(),
                    ),
            decreases clen - ci,
        {
            let ghost entry = l[ci as int];
            proof {
                assert(entry == (children@[ci as int].0@, children@[ci as int].1));
            }
            let t2: String = children[ci].0.clone();
            let behaviour = children[ci].1;
            match behaviour {
                DeletionBehaviour::Error => {
                    let es = match store.kv_scan_prefix(t2.as_str(), e1) {
                        Ok(es) => es,
                        Err(err) => {
                            return Err(err);
                        },
                    };
                    let ghost esv = crate::kv::entries_view(es@);
                    if es.len() > 0 {
                        let message = String::from_str(
                            "Constrained child entity exists in ",
                        ).concat(t2.as_str());
                        proof {
                            assert(esv[0] == (es@[0].0@, es@[0].1@));
                            assert(tree_of(v, entry.0).contains_key(esv[0].0) && has_prefix(
                                esv[0].0,
                                node.1,
                            ));
                            assert(!child_ok(v, root, node.1, path1, entry));
                            let fv = fam_of(v, node.0)->Some_0->Some_0;
                            assert(fv.children == l);
                            assert(0 <= ci < fv.children.len() && fv.children[ci as int].1
                                is Error && message@ == msg_constrained_child(
                                fv.children[ci as int].0,
                            ) && tree_of(v, fv.children[ci as int].0).contains_key(esv[0].0)
                                && has_prefix(esv[0].0, node.1));
                            assert(fault_reach(
                                v,
                                root,
                                node,
                                path,
                                ErrorKind::IntegrityError,
                                message@,
                            ));
                        }
                        return Err(Error::new(ErrorKind::IntegrityError, message));
                    }
                    proof {
                        assert(child_ok(v, root, node.1, path1, entry)) by {
                            if exists|ck: Seq<u8>|
                                tree_of(v, entry.0).contains_key(ck) && has_prefix(ck, node.1) {
                                let ck = choose|ck: Seq<u8>|
                                    tree_of(v, entry.0).contains_key(ck) && has_prefix(
                                        ck,
                                        node.1,
                                    );
                                assert(exists|m: int|
                                    0 <= m < esv.len() && (#[trigger] esv[m]).0 == ck);
                                assert(false);
                            }
                        }
                    }
                },
                DeletionBehaviour::BreakLink => {
                    assert(child_ok(v, root, node.1, path1, entry));
                },
                DeletionBehaviour::Cascade => {
                    let es = match store.kv_scan_prefix(t2.as_str(), e1) {
                        Ok(es) => es,
                        Err(err) => {
                            return Err(err);
                        },
                    };
                    let ghost esv = crate::kv::entries_view(es@);
                    let eslen = es.len();
                    let mut m: usize = 0;
                    while m < eslen
                        invariant
                            store_finite(v),
                            v == store_view(*store),
                            path.finite(),
                            path.subset_of(universe(v, root)),
                            universe(v, root).contains(node),
                            !path.contains(node),
                            path1 == path.insert(node),
                            e1@ == node.1,
                            nodes_view(new_checked@).to_set() == path1,
                            nodes_view(new_checked@).no_duplicates(),
                            rel_desc_of(v, node.0, node.1) is Some,
                            fam_of(v, node.0) matches Some(ff) && ff matches Some(fv)
                                && fv.children == l,
                            l == crate::descriptor::tree_list_view(children@),
                            0 <= ci < l.len(),
                            entry == l[ci as int],
                            entry.0 == t2@,
                            entry.1 is Cascade,
                            esv == crate::kv::entries_view(es@),
                            crate::bytes::sorted_filtered_entries(
                                tree_of(v, t2@),
                                |k: Seq<u8>| has_prefix(k, e1@),
                                esv,
                            ),
                            eslen == es.len(),
                            0 <= m <= eslen,
                            plan_inv(v, root, node, path, plan@),
                            nodes_view(old(plan)@).to_set().subset_of(nodes_view(plan@).to_set()),
                            forall|i: int|
                                0 <= i < ci ==> child_ok(v, root, node.1, path1, #[trigger] l[i]),
                            forall|i: int, ck: Seq<u8>|
                                #![trigger l[i], has_prefix(ck, node.1)]
                                0 <= i < ci && l[i].1 is Cascade && tree_of(v, l[i].0).contains_key(
                                    ck,
                                ) && has_prefix(ck, node.1) ==> plan_set(
                                    v,
                                    root,
                                    (l[i].0, ck),
                                    path1,
                                ).subset_of(nodes_view(plan@).to_set()),
                            forall|b: int|
                                0 <= b < m ==> chk_ok(v, root, (entry.0, (#[trigger] esv[b]).0), path1),
                            forall|b: int|
                                0 <= b < m ==> plan_set(
                                    v,
                                    root,
                                    (entry.0, (#[trigger] esv[b]).0),
                                    path1,
                                ).subset_of(nodes_view(plan@).to_set()),
                        decreases eslen - m,
                    {
                        proof {
                            assert(esv[m as int] == (es@[m as int].0@, es@[m as int].1@));
                            assert(tree_of(v, entry.0).contains_key(esv[m as int].0));
                            assert(v.contains_key(entry.0) && v[entry.0].contains_key(
                                esv[m as int].0,
                            ));
                            assert(universe(v, root).contains((entry.0, esv[m as int].0)));
                        }
                        match Relation::can_be_deleted(
                            t2.as_str(),
                            es[m].0.as_slice(),
                            new_checked,
                            store,
                            Ghost(root),
                        ) {
                            Err(err) => {
                                proof {
                                    if err.kind_spec() != ErrorKind::SledError {
                                        assert(!chk_ok(v, root, (entry.0, esv[m as int].0), path1));
                                        assert(tree_of(v, entry.0).contains_key(esv[m as int].0)
                                            && has_prefix(esv[m as int].0, node.1));
                                        assert(!child_ok(v, root, node.1, path1, entry));
                                        let fv = fam_of(v, node.0)->Some_0->Some_0;
                                        assert(fv.children == l);
                                        assert(0 <= ci < fv.children.len() && fv.children[ci as int].1
                                            is Cascade && tree_of(
                                            v,
                                            fv.children[ci as int].0,
                                        ).contains_key(esv[m as int].0) && has_prefix(
                                            esv[m as int].0,
                                            node.1,
                                        ) && fault_reach(
                                            v,
                                            root,
                                            (fv.children[ci as int].0, esv[m as int].0),
                                            path1,
                                            err.kind_spec(),
                                            err.message_spec(),
                                        ));
                                        assert(fault_reach(
                                            v,
                                            root,
                                            node,
                                            path,
                                            err.kind_spec(),
                                            err.message_spec(),
                                        ));
                                    }
                                }
                                return Err(err);
                            },
                            Ok(sub) => {
                                let ghost pre_set = nodes_view(plan@).to_set();
                                merge_nodes(plan, &sub);
                                proof {
                                    assert forall|x: Node|
                                        nodes_view(plan@).to_set().contains(x) implies in_plan(
                                        v,
                                        root,
                                        node,
                                        path,
                                        x,
                                    ) by {
                                        if !pre_set.contains(x) {
                                            assert(nodes_view(sub@).to_set().contains(x));
                                            assert(in_plan(
                                                v,
                                                root,
                                                (entry.0, esv[m as int].0),
                                                path1,
                                                x,
                                            ));
                                            let f = fam_of(v, node.0)->Some_0->Some_0;
                                            assert(f.children == l);
                                            assert(0 <= ci < f.children.len() && f.children[ci as int].1
                                                is Cascade && tree_of(
                                                v,
                                                f.children[ci as int].0,
                                            ).contains_key(esv[m as int].0) && has_prefix(
                                                esv[m as int].0,
                                                node.1,
                                            ) && in_plan(
                                                v,
                                                root,
                                                (f.children[ci as int].0, esv[m as int].0),
                                                path1,
                                                x,
                                            ));
                                            assert(in_plan(v, root, node, path, x));
                                        }
                                    }
                                }
                            },
                        }
                        m = m + 1;
                    }
                    proof {
                        assert(child_ok(v, root, node.1, path1, entry)) by {
                            assert forall|ck: Seq<u8>|
                                (tree_of(v, entry.0).contains_key(ck) && has_prefix(
                                    ck,
                                    node.1,
                                )) implies chk_ok(v, root, (entry.0, ck), path1) by {
                                let b = choose|b: int|
                                    0 <= b < esv.len() && (#[trigger] esv[b]).0 == ck;
                            }
                        }
                        assert forall|ck: Seq<u8>|
                            (entry.1 is Cascade && tree_of(v, entry.0).contains_key(ck)
                                && has_prefix(ck, node.1)) implies plan_set(
                            v,
                            root,
                            (entry.0, ck),
                            path1,
                        ).subset_of(nodes_view(plan@).to_set()) by {
                            let b = choose|b: int| 0 <= b < esv.len() && (#[trigger] esv[b]).0 == ck;
                        }
                    }
                },
            }
            ci = ci + 1;
        }
        Ok(())
    }
}


// ---------------------------------------------------------------------------
// The deletion executor.
// ---------------------------------------------------------------------------

/// The store views reached while pruning the mirror edges of the descriptor
/// `d` of `(t, k)`, group by group and edge by edge from `(g, e)` on:
/// every peer's descriptor loses its edges towards `(t, k)`. `None` when a
/// peer descriptor does not decode.
pub open spec fn prune_from(
    v: SView,
    t: Seq<char>,
    k: Seq<u8>,
    d: RelationsView,
    g: int,
    e: int,
) -> Option<SView>
    decreases d.len() - g, d.len() - g, ({
        if 0 <= g < d.len() {
            d[g].1.len() - e
        } else {
            0int
        }
    }),
{
    if g < 0 || g >= d.len() {
        Some(v)
    } else if e < 0 || e >= d[g].1.len() {
        prune_from(v, t, k, d, g + 1, 0)
    } else {
        match link_removed(v, d[g].0, d[g].1[e].key, t, k) {
            None => None,
            Some(v2) => prune_from(v2, t, k, d, g, e + 1),
        }
    }
}

/// The store view after removing `(t, k)` from the relation graph: its
/// mirror edges are pruned from every peer it names, and its own descriptor
/// entry is deleted. `None` when a descriptor does not decode.
pub open spec fn entry_pruned(v: SView, t: Seq<char>, k: Seq<u8>) -> Option<SView> {
    match rel_desc_of(v, t, k) {
        None => None,
        Some(d) => match prune_from(v, t, k, d, 0, 0) {
            None => None,
            Some(v2) => Some(
                v2.insert(rel_tree_spec(t), tree_of(v2, rel_tree_spec(t)).remove(k)),
            ),
        },
    }
}

/// The store view after removing every planned node from the relation
/// graph, in plan order.
pub open spec fn plan_pruned(v: SView, p: Seq<Node>, i: int) -> Option<SView>
    decreases p.len() - i,
{
    if i < 0 || i >= p.len() {
        Some(v)
    } else {
        match entry_pruned(v, p[i].0, p[i].1) {
            None => None,
            Some(v2) => plan_pruned(v2, p, i + 1),
        }
    }
}

/// The store view after removing every planned record, in plan order.
pub open spec fn records_removed(v: SView, p: Seq<Node>, i: int) -> SView
    decreases p.len() - i,
{
    if i < 0 || i >= p.len() {
        v
    } else {
        records_removed(
            v.insert(p[i].0, tree_of(v, p[i].0).remove(p[i].1)),
            p,
            i + 1,
        )
    }
}

/// A sequence that is the removal plan of `node` over view `v`: admissible,
/// without duplicates, and holding exactly the planned records.
pub open spec fn nodes_plan_shape(v: SView, node: Node, p: Seq<Node>) -> bool {
    &&& chk_ok(v, node, node, Set::<Node>::empty())
    &&& p.no_duplicates()
    &&& p.to_set() == plan_set(v, node, node, Set::<Node>::empty())
}

/// One completed removal of the record `(t, k)`: the plan was admissible,
/// the relation graph was pruned, the planned records were removed, and the
/// record's own keyspace entry was deleted.
pub open spec fn node_removed(v: SView, t: Seq<char>, k: Seq<u8>, v2: SView) -> bool {
    exists|p: Seq<Node>, vmid: SView|
        #[trigger] removal_ok(v, (t, k), p, vmid) && v2 == vmid.insert(
            t,
            tree_of(vmid, t).remove(k),
        )
}

/// The records with keys `keys[i..]` of keyspace `t` were removed in order,
/// each a completed removal, turning view `v` into view `v2`.
pub open spec fn all_removed(v: SView, t: Seq<char>, keys: Seq<Seq<u8>>, i: int, v2: SView) -> bool
    decreases keys.len() - i,
{
    if i < 0 || i >= keys.len() {
        v2 == v
    } else {
        exists|vm: SView| #[trigger] node_removed(v, t, keys[i], vm) && all_removed(vm, t, keys, i + 1, v2)
    }
}

/// Extends a chain of completed removals by one more.
pub proof fn lemma_all_removed_snoc(
    v0: SView,
    t: Seq<char>,
    ks: Seq<Seq<u8>>,
    x: Seq<u8>,
    vcur: SView,
    vnew: SView,
)
    requires
        all_removed(v0, t, ks, 0, vcur),
        node_removed(vcur, t, x, vnew),
    ensures
        all_removed(v0, t, ks.push(x), 0, vnew),
{
    lemma_all_removed_snoc_from(v0, t, ks, x, vcur, vnew, 0);
}

proof fn lemma_all_removed_snoc_from(
    v0: SView,
    t: Seq<char>,
    ks: Seq<Seq<u8>>,
    x: Seq<u8>,
    vcur: SView,
    vnew: SView,
    i: int,
)
    requires
        0 <= i <= ks.len(),
        all_removed(v0, t, ks, i, vcur),
        node_removed(vcur, t, x, vnew),
    ensures
        all_removed(v0, t, ks.push(x), i, vnew),
    decreases ks.len() - i,
{
    let p = ks.push(x);
    if i >= ks.len() {
        assert(vcur == v0);
        assert(p[i] == x);
        assert(node_removed(v0, t, p[i], vnew) && all_removed(vnew, t, p, i + 1, vnew));
    } else {
        let vm = choose|vm: SView|
            #[trigger] node_removed(v0, t, ks[i], vm) && all_removed(vm, t, ks, i + 1, vcur);
        lemma_all_removed_snoc_from(vm, t, ks, x, vcur, vnew, i + 1);
        assert(p[i] == ks[i]);
        assert(node_removed(v0, t, p[i], vm) && all_removed(vm, t, p, i + 1, vnew));
    }
}

/// A completed removal: planning succeeded with plan `p`, the relation graph
/// was pruned, and the planned records were removed.
pub open spec fn removal_ok(v0: SView, node: Node, p: Seq<Node>, vfinal: SView) -> bool {
    &&& chk_ok(v0, node, node, Set::empty())
    &&& p.no_duplicates()
    &&& p.to_set() == plan_set(v0, node, node, Set::empty())
    &&& match plan_pruned(v0, p, 0) {
        Some(v1) => vfinal == records_removed(v1, p, 0),
        None => false,
    }
}

impl Relation {
    /// Removes the record with key bytes `key` in keyspace `tree_name` from
    /// the relation graph: every peer its descriptor names loses its edges
    /// towards the record, and the record's own descriptor entry is deleted.
    #[verifier::rlimit(100)]
    pub fn remove_entity_entry_raw(tree_name: &str, key: &[u8], store: &mut Store) -> (r: Result<
        (),
        Error,
    >)
        ensures
            r matches Ok(u) ==> entry_pruned(store_view(*old(store)), tree_name@, key@) == Some(
                store_view(*final(store)),
            ),
            r matches Err(e) ==> e.kind_spec() == ErrorKind::SledError || (e.kind_spec()
                == ErrorKind::SerializationError && entry_pruned(
                store_view(*old(store)),
                tree_name@,
                key@,
            ) is None),
    {
        let ghost v0 = store_view(*store);
        let ghost t = tree_name@;
        let ghost k = key@;
        let descriptor = match Relation::relations_with_key_and_tree_name(
            tree_name,
            key,
            store,
        ) {
            Ok(d) => d,
            Err(err) => {
                return Err(err);
            },
        };
        let ghost d = descriptor@;
        let glen = descriptor.related_entities.len();
        let mut gi: usize = 0;
        while gi < glen
            invariant
                v0 == store_view(*old(store)),
                t == tree_name@,
                k == key@,
                rel_desc_of(v0, t, k) == Some(d),
                d == descriptor@,
                glen == descriptor.related_entities.len(),
                0 <= gi <= glen,
                prune_from(v0, t, k, d, 0, 0) == prune_from(
                    store_view(*store),
                    t,
                    k,
                    d,
                    gi as int,
                    0,
                ),
            decreases glen - gi,
        {
            let elen = descriptor.related_entities[gi].1.len();
            let mut ei: usize = 0;
            while ei < elen
                invariant
                    v0 == store_view(*old(store)),
                    t == tree_name@,
                    k == key@,
                    rel_desc_of(v0, t, k) == Some(d),
                    d == descriptor@,
                    glen == descriptor.related_entities.len(),
                    0 <= gi < glen,
                    elen == descriptor.related_entities[gi as int].1.len(),
                    0 <= ei <= elen,
                    prune_from(v0, t, k, d, 0, 0) == prune_from(
                        store_view(*store),
                        t,
                        k,
                        d,
                        gi as int,
                        ei as int,
                    ),
                decreases elen - ei,
            {
                proof {
                    assert(d[gi as int].0 == descriptor.related_entities@[gi as int].0@);
                    assert(d[gi as int].1[ei as int]
                        == descriptor.related_entities@[gi as int].1@[ei as int]@);
                }
                let ghost vcur = store_view(*store);
                let gname: String = descriptor.related_entities[gi].0.clone();
                match Relation::remove_link_with_keys_and_tree_names(
                    gname.as_str(),
                    descriptor.related_entities[gi].1[ei].key.as_slice(),
                    tree_name,
                    key,
                    store,
                ) {
                    Ok(u) => {
                        proof {
                            assert(link_removed(vcur, d[gi as int].0, d[gi as int].1[ei as int].key, t, k)
                                == Some(store_view(*store)));
                            assert(prune_from(vcur, t, k, d, gi as int, ei as int) == prune_from(
                                store_view(*store),
                                t,
                                k,
                                d,
                                gi as int,
                                ei + 1,
                            ));
                        }
                    },
                    Err(err) => {
                        proof {
                            if err.kind_spec() == ErrorKind::SerializationError {
                                assert(link_removed(vcur, d[gi as int].0,
                                    d[gi as int].1[ei as int].key, t, k) is None);
                                assert(prune_from(vcur, t, k, d, gi as int, ei as int) is None);
                                assert(prune_from(v0, t, k, d, 0, 0) is None);
                                assert(rel_desc_of(v0, t, k) == Some(d));
                                assert(entry_pruned(v0, t, k) is None);
                            }
                        }
                        return Err(err);
                    },
                }
                ei = ei + 1;
            }
            proof {
                assert(prune_from(store_view(*store), t, k, d, gi as int, elen as int)
                    == prune_from(store_view(*store), t, k, d, gi + 1, 0));
            }
            gi = gi + 1;
        }
        let rt = Relation::tree_name(tree_name);
        match store.kv_remove(rt.as_str(), key) {
            Ok(u) => {},
            Err(err) => {
                return Err(err);
            },
        }
        proof {
            assert(entry_pruned(v0, t, k) == Some(store_view(*store)));
        }
        Ok(())
    }

    /// Plans the removal of the record with key bytes `key` in keyspace
    /// `tree_name` and, if admissible, prunes the relation graph and removes
    /// every planned record. Nothing is written when planning fails.
    pub fn remove_planned(tree_name: &str, key: &[u8], store: &mut Store) -> (r: Result<
        (),
        Error,
    >)
        requires
            store_finite(store_view(*old(store))),
        ensures
            ({
                let v0 = store_view(*old(store));
                let node = (tree_name@, key@);
                match r {
                    Ok(u) => store_finite(store_view(*final(store))) && exists|p: Seq<Node>|
                        removal_ok(v0, node, p, store_view(*final(store))),
                    Err(e) => e.kind_spec() == ErrorKind::SledError || ((e.kind_spec()
                        == ErrorKind::IntegrityError || e.kind_spec()
                        == ErrorKind::UnregisteredEntity) && !chk_ok(
                        v0,
                        node,
                        node,
                        Set::empty(),
                    ) && store_view(*final(store)) == v0 && fault_reach(
                        v0,
                        node,
                        node,
                        Set::empty(),
                        e.kind_spec(),
                        e.message_spec(),
                    )) || (e.kind_spec() == ErrorKind::SerializationError && ((!chk_ok(
                        v0,
                        node,
                        node,
                        Set::empty(),
                    ) && fault_reach(
                        v0,
                        node,
                        node,
                        Set::empty(),
                        e.kind_spec(),
                        e.message_spec(),
                    )) || (exists|p: Seq<Node>|
                        nodes_plan_shape(v0, node, p) && plan_pruned(v0, p, 0) is None))),
                }
            }),
            ({
                let v0 = store_view(*old(store));
                let node = (tree_name@, key@);
                &&& (r matches Err(e) ==> (e.kind_spec() != ErrorKind::SledError && rel_desc_of(
                    v0,
                    node.0,
                    node.1,
                ) is None ==> e.kind_spec() == ErrorKind::SerializationError && e.message_spec()
                    == rel_tree_spec(node.0)))
                &&& (r matches Err(e) ==> (e.kind_spec() != ErrorKind::SledError && rel_desc_of(
                    v0,
                    node.0,
                    node.1,
                ) is Some && crate::entity::fam_of(v0, node.0) is None ==> e.kind_spec()
                    == ErrorKind::UnregisteredEntity && e.message_spec() == msg_unregistered(
                    node.0,
                )))
                &&& (r matches Err(e) ==> (e.kind_spec() != ErrorKind::SledError && rel_desc_of(
                    v0,
                    node.0,
                    node.1,
                ) is Some && crate::entity::fam_of(v0, node.0) == Some(None::<FamilyView>)
                    ==> e.kind_spec() == ErrorKind::SerializationError && e.message_spec()
                    == node.0))
            }),
    {
        let ghost v0 = store_view(*store);
        let ghost node = (tree_name@, key@);
        let empty_path: Vec<(String, Vec<u8>)> = Vec::new();
        proof {
            assert(nodes_view(empty_path@) =~= Seq::<Node>::empty());
            assert(Seq::<Node>::empty().to_set() =~= Set::<Node>::empty());
            assert(universe(v0, node).contains(node));
        }
        let plan = match Relation::can_be_deleted(tree_name, key, &empty_path, store, Ghost(node)) {
            Ok(p) => p,
            Err(err) => {
                return Err(err);
            },
        };
        proof {
            assert(rel_desc_of(v0, node.0, node.1) is Some && (crate::entity::fam_of(v0, node.0)
                matches Some(ff2) && ff2 is Some)) by {
                assert(chk_ok(v0, node, node, Set::<Node>::empty()));
                assert(universe(v0, node).contains(node));
            }
        }
        let ghost pv = nodes_view(plan@);
        let plen = plan.len();
        let mut i: usize = 0;
        while i < plen
            invariant
                v0 == store_view(*old(store)),
                node == (tree_name@, key@),
                chk_ok(v0, node, node, Set::<Node>::empty()),
                rel_desc_of(v0, node.0, node.1) is Some,
                crate::entity::fam_of(v0, node.0) matches Some(ff2) && ff2 is Some,
                pv.no_duplicates(),
                pv.to_set() == plan_set(v0, node, node, Set::<Node>::empty()),
                plen == plan.len(),
                pv == nodes_view(plan@),
                0 <= i <= plen,
                plan_pruned(v0, pv, 0) == plan_pruned(store_view(*store), pv, i as int),
            decreases plen - i,
        {
            proof {
                assert(pv[i as int] == (plan@[i as int].0@, plan@[i as int].1@));
            }
            let ghost vcur = store_view(*store);
            match Relation::remove_entity_entry_raw(
                plan[i].0.as_str(),
                plan[i].1.as_slice(),
                store,
            ) {
                Ok(u) => {},
                Err(err) => {
                    proof {
                        if err.kind_spec() == ErrorKind::SerializationError {
                            assert(entry_pruned(vcur, pv[i as int].0, pv[i as int].1) is None);
                            assert(plan_pruned(vcur, pv, i as int) is None);
                            assert(plan_pruned(v0, pv, 0) is None);
                            assert(nodes_plan_shape(v0, node, pv));
                        }
                    }
                    return Err(err);
                },
            }
            i = i + 1;
        }
        let ghost v1opt = plan_pruned(v0, pv, 0);
        proof {
            assert(v1opt == Some(store_view(*store)));
        }
        let ghost v1 = store_view(*store);
        let mut j: usize = 0;
        while j < plen
            invariant
                v0 == store_view(*old(store)),
                node == (tree_name@, key@),
                chk_ok(v0, node, node, Set::<Node>::empty()),
                rel_desc_of(v0, node.0, node.1) is Some,
                crate::entity::fam_of(v0, node.0) matches Some(ff2) && ff2 is Some,
                pv.no_duplicates(),
                pv.to_set() == plan_set(v0, node, node, Set::<Node>::empty()),
                plan_pruned(v0, pv, 0) == Some(v1),
                plen == plan.len(),
                pv == nodes_view(plan@),
                0 <= j <= plen,
                records_removed(v1, pv, 0) == records_removed(store_view(*store), pv, j as int),
            decreases plen - j,
        {
            proof {
                assert(pv[j as int] == (plan@[j as int].0@, plan@[j as int].1@));
            }
            match store.kv_remove(plan[j].0.as_str(), plan[j].1.as_slice()) {
                Ok(u) => {},
                Err(err) => {
                    return Err(err);
                },
            }
            j = j + 1;
        }
        proof {
            assert(records_removed(v1, pv, 0) == store_view(*store));
            assert(removal_ok(v0, node, pv, store_view(*store)));
            lemma_removal_keeps_finite(v0, node, pv, store_view(*store));
        }
        Ok(())
    }
}


// ---------------------------------------------------------------------------
// Reading related records.
// ---------------------------------------------------------------------------

/// Extracts the peer keys of the group of `er` named `tree`, in order.
fn keys_of_group(er: &EntityRelations, tree: &str) -> (r: Vec<Vec<u8>>)
    ensures
        r@.map_values(|k: Vec<u8>| k@) == group_keys(er@, tree@),
{
    let ghost v0 = er@;
    let tn: String = tree.to_owned();
    let len = er.related_entities.len();
    let mut i: usize = 0;
    while i < len && !(er.related_entities[i].0 == tn)
        invariant
            len == er.related_entities.len(),
            v0 == er@,
            tn@ == tree@,
            0 <= i <= len,
            forall|m: int| 0 <= m < i ==> (#[trigger] v0[m]).0 != tree@,
        decreases len - i,
    {
        assert(v0[i as int].0 == er.related_entities@[i as int].0@);
        i = i + 1;
    }
    proof {
        crate::descriptor::lemma_find_group_prefix(v0, tree@, i as int);
    }
    let mut out: Vec<Vec<u8>> = Vec::new();
    if i == len {
        proof {
            assert(out@.map_values(|k: Vec<u8>| k@) =~= group_keys(v0, tree@));
        }
        return out;
    }
    assert(find_group_from(v0, tree@, 0) == Some(i as int));
    let g = &er.related_entities[i].1;
    let ghost gv = v0[i as int].1;
    let glen = g.len();
    let mut j: usize = 0;
    while j < glen
        invariant
            glen == g@.len(),
            gv == v0[i as int].1,
            0 <= i < er.related_entities@.len(),
            g == &er.related_entities[i as int].1,
            v0 == er@,
            gv.len() == g@.len(),
            0 <= j <= glen,
            out@.map_values(|k: Vec<u8>| k@) == gv.subrange(0, j as int).map_values(
                |e: RelationEdge| e.key,
            ),
        decreases glen - j,
    {
        let kb = slice_to_vec(g[j].key.as_slice());
        proof {
            assert(gv[j as int] == g@[j as int]@);
        }
        out.push(kb);
        proof {
            assert(out@.len() == j + 1) by {
                assert(gv.subrange(0, j as int).map_values(|e: RelationEdge| e.key).len() == j);
            }
            assert forall|m: int| 0 <= m < j + 1 implies (#[trigger] out@[m])@ == gv.subrange(
                0,
                j + 1,
            ).map_values(|e: RelationEdge| e.key)[m] by {
                if m < j {
                    assert(out@.map_values(|k: Vec<u8>| k@)[m] == gv.subrange(0, j as int).map_values(
                        |e: RelationEdge| e.key,
                    )[m]);
                    assert(out@.map_values(|k: Vec<u8>| k@)[m] == out@[m]@);
                }
            }
            assert(out@.map_values(|k: Vec<u8>| k@) =~= gv.subrange(0, j + 1).map_values(
                |e: RelationEdge| e.key,
            ));
        }
        j = j + 1;
    }
    proof {
        assert(gv.subrange(0, gv.len() as int) =~= gv);
    }
    out
}

impl Relation {
    /// Retrieves the records of `E2` that `e1` is related to, in the order
    /// the edges were created; dangling edges are silently skipped.
    pub fn get<E1: Entity, E2: Entity>(e1: &E1, store: &Store) -> (r: Result<Vec<E2>, Error>)
        ensures
            r matches Ok(list) ==> exists|d: RelationsView|
                #[trigger] rel_desc_of(store_view(*store), E1::name_spec(), key_bytes_of(e1))
                    == Some(d) && got_list::<E2>(store_view(*store), group_keys(d, E2::name_spec()))
                    == Some(list@.map_values(|rec: E2| rec@)),
            r matches Err(err) ==> err.kind_spec() == ErrorKind::SledError || err.kind_spec()
                == ErrorKind::SerializationError,
    {
        let referers = match Relation::relations::<E1>(e1, store) {
            Ok(er) => er,
            Err(err) => {
                return Err(err);
            },
        };
        let keys = keys_of_group(&referers, E2::store_name());
        get_each_u8::<E2>(&keys, store)
    }

    /// Retrieves the records of `E2` that `e1` is related to through edges
    /// carrying the given name, in creation order.
    pub fn get_with_name<E1: Entity, E2: Entity>(e1: &E1, name: &str, store: &Store) -> (r:
        Result<Vec<E2>, Error>)
        ensures
            r matches Ok(list) ==> exists|d: RelationsView|
                #[trigger] rel_desc_of(store_view(*store), E1::name_spec(), key_bytes_of(e1))
                    == Some(d) && got_list::<E2>(
                    store_view(*store),
                    group_keys_with_name(d, E2::name_spec(), name@),
                ) == Some(list@.map_values(|rec: E2| rec@)),
            r matches Err(err) ==> err.kind_spec() == ErrorKind::SledError || err.kind_spec()
                == ErrorKind::SerializationError,
    {
        let referers = match Relation::relations::<E1>(e1, store) {
            Ok(er) => er,
            Err(err) => {
                return Err(err);
            },
        };
        let keys = keys_of_group_with_name(&referers, E2::store_name(), name);
        get_each_u8::<E2>(&keys, store)
    }

    /// Retrieves the record of the first edge towards `E2`'s keyspace, if
    /// that edge exists and its record is stored.
    pub fn get_one<E1: Entity, E2: Entity>(e1: &E1, store: &Store) -> (r: Result<
        Option<E2>,
        Error,
    >)
        ensures
            r matches Ok(o) ==> exists|d: RelationsView|
                #[trigger] rel_desc_of(store_view(*store), E1::name_spec(), key_bytes_of(e1))
                    == Some(d) && ({
                    let ks = group_keys(d, E2::name_spec());
                    let tree = tree_of(store_view(*store), E2::name_spec());
                    match o {
                        Some(rec) => ks.len() > 0 && tree.contains_key(ks[0]) && E2::dec_ok(
                            tree[ks[0]],
                        ) && rec@ == E2::dec_view(tree[ks[0]]),
                        None => ks.len() == 0 || !tree.contains_key(ks[0]),
                    }
                }),
            r matches Err(err) ==> err.kind_spec() == ErrorKind::SledError || err.kind_spec()
                == ErrorKind::SerializationError,
    {
        let referers = match Relation::relations::<E1>(e1, store) {
            Ok(er) => er,
            Err(err) => {
                return Err(err);
            },
        };
        let keys = keys_of_group(&referers, E2::store_name());
        if keys.len() > 0 {
            get_from_u8_array::<E2>(keys[0].as_slice(), store)
        } else {
            Ok(None)
        }
    }

    /// Retrieves the record of the first edge towards `E2`'s keyspace that
    /// carries the given name, if that edge exists and its record is stored.
    pub fn get_one_with_name<E1: Entity, E2: Entity>(e1: &E1, name: &str, store: &Store) -> (r:
        Result<Option<E2>, Error>)
        ensures
            r matches Ok(o) ==> exists|d: RelationsView|
                #[trigger] rel_desc_of(store_view(*store), E1::name_spec(), key_bytes_of(e1))
                    == Some(d) && ({
                    let ks = group_keys_with_name(d, E2::name_spec(), name@);
                    let tree = tree_of(store_view(*store), E2::name_spec());
                    match o {
                        Some(rec) => ks.len() > 0 && tree.contains_key(ks[0]) && E2::dec_ok(
                            tree[ks[0]],
                        ) && rec@ == E2::dec_view(tree[ks[0]]),
                        None => ks.len() == 0 || !tree.contains_key(ks[0]),
                    }
                }),
            r matches Err(err) ==> err.kind_spec() == ErrorKind::SledError || err.kind_spec()
                == ErrorKind::SerializationError,
    {
        let referers = match Relation::relations::<E1>(e1, store) {
            Ok(er) => er,
            Err(err) => {
                return Err(err);
            },
        };
        let keys = keys_of_group_with_name(&referers, E2::store_name(), name);
        if keys.len() > 0 {
            get_from_u8_array::<E2>(keys[0].as_slice(), store)
        } else {
            Ok(None)
        }
    }
}

/// Extracts the peer keys of the group of `er` named `tree` whose edges
/// carry the name `name`, in order.
fn keys_of_group_with_name(er: &EntityRelations, tree: &str, name: &str) -> (r: Vec<Vec<u8>>)
    ensures
        r@.map_values(|k: Vec<u8>| k@) == group_keys_with_name(er@, tree@, name@),
{
    let ghost v0 = er@;
    let tn: String = tree.to_owned();
    let len = er.related_entities.len();
    let mut i: usize = 0;
    while i < len && !(er.related_entities[i].0 == tn)
        invariant
            len == er.related_entities.len(),
            v0 == er@,
            tn@ == tree@,
            0 <= i <= len,
            forall|m: int| 0 <= m < i ==> (#[trigger] v0[m]).0 != tree@,
        decreases len - i,
    {
        assert(v0[i as int].0 == er.related_entities@[i as int].0@);
        i = i + 1;
    }
    proof {
        crate::descriptor::lemma_find_group_prefix(v0, tree@, i as int);
    }
    let mut out: Vec<Vec<u8>> = Vec::new();
    if i == len {
        proof {
            assert(out@.map_values(|k: Vec<u8>| k@) =~= group_keys_with_name(v0, tree@, name@));
        }
        return out;
    }
    assert(find_group_from(v0, tree@, 0) == Some(i as int));
    let g = &er.related_entities[i].1;
    let ghost gv = v0[i as int].1;
    let ghost p = |e: RelationEdge| e.name == Some(name@);
    let glen = g.len();
    let mut j: usize = 0;
    while j < glen
        invariant
            glen == g@.len(),
            gv == v0[i as int].1,
            0 <= i < er.related_entities@.len(),
            g == &er.related_entities[i as int].1,
            v0 == er@,
            gv.len() == g@.len(),
            p == (|e: RelationEdge| e.name == Some(name@)),
            0 <= j <= glen,
            out@.map_values(|k: Vec<u8>| k@) == gv.subrange(0, j as int).filter(p).map_values(
                |e: RelationEdge| e.key,
            ),
        decreases glen - j,
    {
        proof {
            reveal(Seq::<RelationEdge>::filter);
            assert(gv[j as int] == g@[j as int]@);
            assert(gv.subrange(0, j + 1).drop_last() =~= gv.subrange(0, j as int));
            assert(gv.subrange(0, j + 1).last() == gv[j as int]);
        }
        if opt_name_matches(&g[j].name, name) {
            let kb = slice_to_vec(g[j].key.as_slice());
            out.push(kb);
            proof {
                let pre = gv.subrange(0, j as int).filter(p);
                assert(gv.subrange(0, j + 1).filter(p) == pre.push(gv[j as int]));
                assert(out@.len() == pre.map_values(|e: RelationEdge| e.key).len() + 1);
                assert forall|m: int| 0 <= m < out@.len() implies (#[trigger] out@[m])@
                    == gv.subrange(0, j + 1).filter(p).map_values(|e: RelationEdge| e.key)[m] by {
                    if m < out@.len() - 1 {
                        assert(out@.map_values(|k: Vec<u8>| k@)[m] == pre.map_values(
                            |e: RelationEdge| e.key,
                        )[m]);
                        assert(out@.map_values(|k: Vec<u8>| k@)[m] == out@[m]@);
                    } else {
                        assert(gv.subrange(0, j + 1).filter(p)[m] == gv[j as int]);
                    }
                }
                assert(out@.map_values(|k: Vec<u8>| k@) =~= gv.subrange(0, j + 1).filter(
                    p,
                ).map_values(|e: RelationEdge| e.key));
            }
        } else {
            proof {
                assert(gv.subrange(0, j + 1).filter(p) == gv.subrange(0, j as int).filter(p));
            }
        }
        j = j + 1;
    }
    proof {
        assert(gv.subrange(0, gv.len() as int) =~= gv);
    }
    out
}

/// Whether an optional stored name is exactly the given one.
fn opt_name_matches(a: &Option<String>, name: &str) -> (r: bool)
    ensures
        r == ((match a {
            Some(s) => Some(s@),
            None => None,
        }) == Some(name@)),
{
    match a {
        Some(s) => {
            let ns: String = name.to_owned();
            *s == ns
        },
        None => false,
    }
}


/// Whether the byte string `k` occurs in `keys`.
fn keys_contain(keys: &Vec<Vec<u8>>, k: &[u8]) -> (r: bool)
    ensures
        r == keys@.map_values(|x: Vec<u8>| x@).contains(k@),
{
    let ghost kv = keys@.map_values(|x: Vec<u8>| x@);
    let mut i: usize = 0;
    while i < keys.len()
        invariant
            kv == keys@.map_values(|x: Vec<u8>| x@),
            0 <= i <= keys@.len(),
            forall|m: int| 0 <= m < i ==> kv[m] != k@,
        decreases keys@.len() - i,
    {
        if crate::descriptor::bytes_eq(keys[i].as_slice(), k) {
            assert(kv[i as int] == k@);
            return true;
        }
        assert(kv[i as int] == keys@[i as int]@);
        i = i + 1;
    }
    proof {
        if kv.contains(k@) {
            let m = choose|m: int| 0 <= m < kv.len() && kv[m] == k@;
            assert(false);
        }
    }
    false
}

impl Relation {
    /// Whether `e1` has an outgoing edge towards `e2`, under any name.
    pub fn is_related_to<E1: Entity, E2: Entity>(e1: &E1, e2: &E2, store: &Store) -> (r: Result<
        bool,
        Error,
    >)
        ensures
            r matches Ok(b) ==> exists|d: RelationsView|
                #[trigger] rel_desc_of(store_view(*store), E1::name_spec(), key_bytes_of(e1))
                    == Some(d) && b == group_keys(d, E2::name_spec()).contains(key_bytes_of(e2)),
            r matches Err(err) ==> err.kind_spec() == ErrorKind::SledError || err.kind_spec()
                == ErrorKind::SerializationError,
    {
        let referers = match Relation::relations::<E1>(e1, store) {
            Ok(er) => er,
            Err(err) => {
                return Err(err);
            },
        };
        let keys = keys_of_group(&referers, E2::store_name());
        let kb = e2.get_key().as_bytes();
        Ok(keys_contain(&keys, kb.as_slice()))
    }

    /// Whether `e1` has an outgoing edge towards `e2` carrying the given
    /// name.
    pub fn is_related_to_with_name<E1: Entity, E2: Entity>(
        e1: &E1,
        e2: &E2,
        name: &str,
        store: &Store,
    ) -> (r: Result<bool, Error>)
        ensures
            r matches Ok(b) ==> exists|d: RelationsView|
                #[trigger] rel_desc_of(store_view(*store), E1::name_spec(), key_bytes_of(e1))
                    == Some(d) && b == group_keys_with_name(d, E2::name_spec(), name@).contains(
                    key_bytes_of(e2),
                ),
            r matches Err(err) ==> err.kind_spec() == ErrorKind::SledError || err.kind_spec()
                == ErrorKind::SerializationError,
    {
        let referers = match Relation::relations::<E1>(e1, store) {
            Ok(er) => er,
            Err(err) => {
                return Err(err);
            },
        };
        let keys = keys_of_group_with_name(&referers, E2::store_name(), name);
        let kb = e2.get_key().as_bytes();
        Ok(keys_contain(&keys, kb.as_slice()))
    }

    /// Whether `e1` has an outgoing edge towards `e2` carrying one of the
    /// given names.
    pub fn is_related_to_with_any_name<E1: Entity, E2: Entity>(
        e1: &E1,
        e2: &E2,
        names: &Vec<String>,
        store: &Store,
    ) -> (r: Result<bool, Error>)
        ensures
            r matches Ok(b) ==> (names@.len() == 0 ==> !b) && (names@.len() > 0 ==> exists|
                d: RelationsView,
            |
                #[trigger] rel_desc_of(store_view(*store), E1::name_spec(), key_bytes_of(e1))
                    == Some(d) && (b <==> exists|i: int|
                    0 <= i < names@.len() && group_keys_with_name(
                        d,
                        E2::name_spec(),
                        (#[trigger] names@[i])@,
                    ).contains(key_bytes_of(e2)))),
            r matches Err(err) ==> err.kind_spec() == ErrorKind::SledError || err.kind_spec()
                == ErrorKind::SerializationError,
    {
        let ghost v = store_view(*store);
        let mut i: usize = 0;
        while i < names.len()
            invariant
                v == store_view(*store),
                0 <= i <= names@.len(),
                i > 0 ==> exists|d: RelationsView|
                    #[trigger] rel_desc_of(v, E1::name_spec(), key_bytes_of(e1)) == Some(d)
                        && forall|m: int|
                        0 <= m < i ==> !group_keys_with_name(
                            d,
                            E2::name_spec(),
                            (#[trigger] names@[m])@,
                        ).contains(key_bytes_of(e2)),
            decreases names@.len() - i,
        {
            match Relation::is_related_to_with_name::<E1, E2>(
                e1,
                e2,
                names[i].as_str(),
                store,
            ) {
                Ok(true) => {
                    proof {
                        let d = choose|d: RelationsView|
                            #[trigger] rel_desc_of(v, E1::name_spec(), key_bytes_of(e1)) == Some(d)
                                && true == group_keys_with_name(
                                d,
                                E2::name_spec(),
                                names@[i as int]@,
                            ).contains(key_bytes_of(e2));
                        assert(0 <= i < names@.len() && group_keys_with_name(
                            d,
                            E2::name_spec(),
                            names@[i as int]@,
                        ).contains(key_bytes_of(e2)));
                    }
                    return Ok(true);
                },
                Ok(false) => {
                    proof {
                        let d = choose|d: RelationsView|
                            #[trigger] rel_desc_of(v, E1::name_spec(), key_bytes_of(e1)) == Some(d)
                                && false == group_keys_with_name(
                                d,
                                E2::name_spec(),
                                names@[i as int]@,
                            ).contains(key_bytes_of(e2));
                        assert(rel_desc_of(v, E1::name_spec(), key_bytes_of(e1)) == Some(d));
                        assert forall|m: int| 0 <= m < i + 1 implies !group_keys_with_name(
                            d,
                            E2::name_spec(),
                            (#[trigger] names@[m])@,
                        ).contains(key_bytes_of(e2)) by {
                            if m < i {
                                let d0 = choose|d0: RelationsView|
                                    #[trigger] rel_desc_of(v, E1::name_spec(), key_bytes_of(e1))
                                        == Some(d0) && forall|m2: int|
                                        0 <= m2 < i ==> !group_keys_with_name(
                                            d0,
                                            E2::name_spec(),
                                            (#[trigger] names@[m2])@,
                                        ).contains(key_bytes_of(e2));
                                assert(d0 == d);
                            }
                        }
                    }
                },
                Err(err) => {
                    return Err(err);
                },
            }
            i = i + 1;
        }
        Ok(false)
    }
}


/// Writing a descriptor keeps the store finite.
proof fn lemma_link_removed_finite(v: SView, t1: Seq<char>, k1: Seq<u8>, t2: Seq<char>, k2: Seq<u8>)
    requires
        store_finite(v),
        link_removed(v, t1, k1, t2, k2) is Some,
    ensures
        store_finite(link_removed(v, t1, k1, t2, k2)->Some_0),
{
}

/// Pruning mirror edges keeps the store finite.
proof fn lemma_prune_from_finite(v: SView, t: Seq<char>, k: Seq<u8>, d: RelationsView, g: int, e: int)
    requires
        store_finite(v),
        prune_from(v, t, k, d, g, e) is Some,
    ensures
        store_finite(prune_from(v, t, k, d, g, e)->Some_0),
    decreases d.len() - g, d.len() - g, ({
        if 0 <= g < d.len() {
            d[g].1.len() - e
        } else {
            0int
        }
    }),
{
    if g < 0 || g >= d.len() {
    } else if e < 0 || e >= d[g].1.len() {
        lemma_prune_from_finite(v, t, k, d, g + 1, 0);
    } else {
        match link_removed(v, d[g].0, d[g].1[e].key, t, k) {
            None => {},
            Some(v2) => {
                lemma_link_removed_finite(v, d[g].0, d[g].1[e].key, t, k);
                lemma_prune_from_finite(v2, t, k, d, g, e + 1);
            },
        }
    }
}

/// Removing a record from the relation graph keeps the store finite.
proof fn lemma_entry_pruned_finite(v: SView, t: Seq<char>, k: Seq<u8>)
    requires
        store_finite(v),
        entry_pruned(v, t, k) is Some,
    ensures
        store_finite(entry_pruned(v, t, k)->Some_0),
{
    match rel_desc_of(v, t, k) {
        None => {},
        Some(d) => {
            match prune_from(v, t, k, d, 0, 0) {
                None => {},
                Some(v2) => {
                    lemma_prune_from_finite(v, t, k, d, 0, 0);
                },
            }
        },
    }
}

/// Pruning a whole plan keeps the store finite.
proof fn lemma_plan_pruned_finite(v: SView, p: Seq<Node>, i: int)
    requires
        store_finite(v),
        plan_pruned(v, p, i) is Some,
    ensures
        store_finite(plan_pruned(v, p, i)->Some_0),
    decreases p.len() - i,
{
    if i < 0 || i >= p.len() {
    } else {
        match entry_pruned(v, p[i].0, p[i].1) {
            None => {},
            Some(v2) => {
                lemma_entry_pruned_finite(v, p[i].0, p[i].1);
                lemma_plan_pruned_finite(v2, p, i + 1);
            },
        }
    }
}

/// Removing the planned records keeps the store finite.
proof fn lemma_records_removed_finite(v: SView, p: Seq<Node>, i: int)
    requires
        store_finite(v),
    ensures
        store_finite(records_removed(v, p, i)),
    decreases p.len() - i,
{
    if i < 0 || i >= p.len() {
    } else {
        lemma_records_removed_finite(
            v.insert(p[i].0, tree_of(v, p[i].0).remove(p[i].1)),
            p,
            i + 1,
        );
    }
}

/// A completed removal keeps the store finite.
pub proof fn lemma_removal_keeps_finite(v0: SView, node: Node, p: Seq<Node>, vfinal: SView)
    requires
        store_finite(v0),
        removal_ok(v0, node, p, vfinal),
    ensures
        store_finite(vfinal),
{
    lemma_plan_pruned_finite(v0, p, 0);
    lemma_records_removed_finite(plan_pruned(v0, p, 0)->Some_0, p, 0);
}


/// The store view after re-keying, in the descriptor of `(t2, k2)`, every
/// edge towards `(ctree, oldk)` to point at `(ctree, newk)`; `None` when
/// that descriptor does not decode.
pub open spec fn link_rekeyed(
    v: SView,
    t2: Seq<char>,
    k2: Seq<u8>,
    ctree: Seq<char>,
    oldk: Seq<u8>,
    newk: Seq<u8>,
) -> Option<SView> {
    match rel_desc_of(v, t2, k2) {
        None => None,
        Some(d2) => Some(rel_desc_saved(v, t2, k2, er_rekey(d2, ctree, oldk, newk))),
    }
}

/// The store views reached while re-keying the mirror edges named by the
/// descriptor `d` of a record of `ctree` that moved from `oldk` to `newk`,
/// group by group and edge by edge from `(g, e)` on.
pub open spec fn rekey_from(
    v: SView,
    ctree: Seq<char>,
    oldk: Seq<u8>,
    newk: Seq<u8>,
    d: RelationsView,
    g: int,
    e: int,
) -> Option<SView>
    decreases d.len() - g, d.len() - g, ({
        if 0 <= g < d.len() {
            d[g].1.len() - e
        } else {
            0int
        }
    }),
{
    if g < 0 || g >= d.len() {
        Some(v)
    } else if e < 0 || e >= d[g].1.len() {
        rekey_from(v, ctree, oldk, newk, d, g + 1, 0)
    } else {
        match link_rekeyed(v, d[g].0, d[g].1[e].key, ctree, oldk, newk) {
            None => None,
            Some(v2) => rekey_from(v2, ctree, oldk, newk, d, g, e + 1),
        }
    }
}

impl Relation {
    /// Re-keys the mirror edges of a moved record: every peer named by the
    /// record's descriptor has its edges towards the old key re-pointed at
    /// the new key, keeping behaviour and name.
    #[verifier::rlimit(100)]
    pub fn rekey_mirrors(
        ctree: &str,
        oldk: &[u8],
        newk: &[u8],
        descriptor: &EntityRelations,
        store: &mut Store,
    ) -> (r: Result<(), Error>)
        ensures
            r matches Ok(u) ==> rekey_from(
                store_view(*old(store)),
                ctree@,
                oldk@,
                newk@,
                descriptor@,
                0,
                0,
            ) == Some(store_view(*final(store))),
            r matches Err(e) ==> e.kind_spec() == ErrorKind::SledError || (e.kind_spec()
                == ErrorKind::SerializationError && rekey_from(
                store_view(*old(store)),
                ctree@,
                oldk@,
                newk@,
                descriptor@,
                0,
                0,
            ) is None),
    {
        let ghost v0 = store_view(*store);
        let ghost d = descriptor@;
        let glen = descriptor.related_entities.len();
        let mut gi: usize = 0;
        while gi < glen
            invariant
                v0 == store_view(*old(store)),
                d == descriptor@,
                glen == descriptor.related_entities.len(),
                0 <= gi <= glen,
                rekey_from(v0, ctree@, oldk@, newk@, d, 0, 0) == rekey_from(
                    store_view(*store),
                    ctree@,
                    oldk@,
                    newk@,
                    d,
                    gi as int,
                    0,
                ),
            decreases glen - gi,
        {
            let elen = descriptor.related_entities[gi].1.len();
            let mut ei: usize = 0;
            while ei < elen
                invariant
                    v0 == store_view(*old(store)),
                    d == descriptor@,
                    glen == descriptor.related_entities.len(),
                    0 <= gi < glen,
                    elen == descriptor.related_entities[gi as int].1.len(),
                    0 <= ei <= elen,
                    rekey_from(v0, ctree@, oldk@, newk@, d, 0, 0) == rekey_from(
                        store_view(*store),
                        ctree@,
                        oldk@,
                        newk@,
                        d,
                        gi as int,
                        ei as int,
                    ),
                decreases elen - ei,
            {
                proof {
                    assert(d[gi as int].0 == descriptor.related_entities@[gi as int].0@);
                    assert(d[gi as int].1[ei as int]
                        == descriptor.related_entities@[gi as int].1@[ei as int]@);
                }
                let ghost vcur = store_view(*store);
                let gname: String = descriptor.related_entities[gi].0.clone();
                let mut peer = match Relation::relations_with_key_and_tree_name(
                    gname.as_str(),
                    descriptor.related_entities[gi].1[ei].key.as_slice(),
                    store,
                ) {
                    Ok(p) => p,
                    Err(err) => {
                        proof {
                            if err.kind_spec() == ErrorKind::SerializationError {
                                assert(link_rekeyed(vcur, d[gi as int].0,
                                    d[gi as int].1[ei as int].key, ctree@, oldk@, newk@) is None);
                                assert(rekey_from(vcur, ctree@, oldk@, newk@, d, gi as int, ei as int)
                                    is None);
                                assert(rekey_from(v0, ctree@, oldk@, newk@, d, 0, 0) is None);
                            }
                        }
                        return Err(err);
                    },
                };
                peer.rekey_related_by_key_and_tree_name(ctree, oldk, newk);
                match Relation::save_descriptor_with_key_and_tree_name(
                    gname.as_str(),
                    descriptor.related_entities[gi].1[ei].key.as_slice(),
                    &peer,
                    store,
                ) {
                    Ok(u) => {
                        proof {
                            assert(link_rekeyed(vcur, d[gi as int].0,
                                d[gi as int].1[ei as int].key, ctree@, oldk@, newk@) == Some(
                                store_view(*store),
                            ));
                            assert(rekey_from(vcur, ctree@, oldk@, newk@, d, gi as int, ei as int)
                                == rekey_from(
                                store_view(*store),
                                ctree@,
                                oldk@,
                                newk@,
                                d,
                                gi as int,
                                ei + 1,
                            ));
                        }
                    },
                    Err(err) => {
                        return Err(err);
                    },
                }
                ei = ei + 1;
            }
            proof {
                assert(rekey_from(store_view(*store), ctree@, oldk@, newk@, d, gi as int, elen as int)
                    == rekey_from(store_view(*store), ctree@, oldk@, newk@, d, gi + 1, 0));
            }
            gi = gi + 1;
        }
        Ok(())
    }
}


impl EntityRelations {
    /// Inserts or updates the edge towards record `e`, identified by its key
    /// bytes and the given name, with the given behaviour.
    pub fn add_related<EE: Entity>(
        &mut self,
        e: &EE,
        behaviour: DeletionBehaviour,
        name: Option<&str>,
    )
        ensures
            final(self)@ == er_add(
                old(self)@,
                EE::name_spec(),
                key_bytes_of(e),
                behaviour,
                opt_str_view(name),
            ),
    {
        let kb = e.get_key().as_bytes();
        self.add_related_by_key(EE::store_name(), kb.as_slice(), behaviour, name);
    }

    /// Removes every edge towards the record of `EE` with key bytes `e`,
    /// whatever its name.
    pub fn remove_related_by_key<EE: Entity>(&mut self, e: &[u8])
        ensures
            final(self)@ == er_remove_key(old(self)@, EE::name_spec(), e@),
    {
        self.remove_related_by_key_and_tree_name(EE::store_name(), e);
    }

    /// Removes every edge towards the record of `EE` with key bytes `e` that
    /// carries the given name.
    pub fn remove_related_by_key_with_name<EE: Entity>(&mut self, e: &[u8], name: &str)
        ensures
            final(self)@ == crate::descriptor::er_remove_key_name(
                old(self)@,
                EE::name_spec(),
                e@,
                Some(name@),
            ),
    {
        self.remove_related_by_key_and_tree_name_with_name(EE::store_name(), e, name);
    }
}

} // verus!
