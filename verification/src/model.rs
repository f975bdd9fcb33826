use vstd::prelude::*;
use vstd::set_lib::lemma_len_subset;

use crate::bytes::has_prefix;
use crate::codec::dec_relations;
use crate::descriptor::DeletionBehaviour;
use crate::descriptor::RelationEdge;
use crate::descriptor::RelationsView;
use crate::entity::fam_of;
use crate::error::ErrorKind;
use crate::kv::store_finite;
use crate::kv::tree_of;
use crate::relation::rel_desc_of;

verus! {

// ---------------------------------------------------------------------------
// The deletion-planning model.
//
// Removal of a record is planned before anything is written. The model below
// defines, over a store view, which removals are admissible and which records
// a removal carries away. A node is a record address: its keyspace name and
// its key bytes. Starting from the node to remove, the plan follows the
// node's outgoing free edges, its type's sibling keyspaces and its type's
// child keyspaces. An `Error` behaviour forbids the removal while the
// constrained peer exists and is not itself on the ancestor path; `Cascade`
// extends the plan through the peer; `BreakLink` leaves the peer alone. The
// ancestor path breaks cycles: a node already on the path is admissible and
// contributes nothing new.
// ---------------------------------------------------------------------------

/// A record address: keyspace name and key bytes.
pub type Node = (Seq<char>, Seq<u8>);

/// A store view.
pub type SView = Map<Seq<char>, Map<Seq<u8>, Seq<u8>>>;

/// Every record address present in the store.
pub open spec fn store_nodes(v: SView) -> Set<Node> {
    Set::new(|p: Node| v.contains_key(p.0) && v[p.0].contains_key(p.1))
}

/// The addressed targets of one decoded relation descriptor, with the edges
/// that carry them.
pub open spec fn desc_edges(d: RelationsView) -> Set<(Seq<char>, RelationEdge)> {
    Set::new(
        |p: (Seq<char>, RelationEdge)|
            exists|i: int, j: int|
                0 <= i < d.len() && 0 <= j < (#[trigger] d[i]).1.len() && d[i].0 == p.0 && (
                #[trigger] d[i].1[j]) == p.1,
    )
}

/// Every record address named as a target by any stored value, read as a
/// relation descriptor.
pub open spec fn desc_targets(v: SView) -> Set<Node> {
    Set::new(
        |p: Node|
            exists|t: Seq<char>, k: Seq<u8>|
                #![trigger v[t][k]]
                v.contains_key(t) && v[t].contains_key(k) && match dec_relations(v[t][k]) {
                    Some(d) => exists|e: RelationEdge|
                        #[trigger] desc_edges(d).contains((p.0, e)) && e.key == p.1,
                    None => false,
                },
    )
}

/// Every record address a deletion plan rooted at `root` can ever reach.
pub open spec fn universe(v: SView, root: Node) -> Set<Node> {
    store_nodes(v).union(desc_targets(v)).insert(root)
}

// ---------------------------------------------------------------------------
// Finiteness of the universe, which bounds the planner's traversal.
// ---------------------------------------------------------------------------

/// The dependent pair set over a finite index set with finite fibres is
/// finite.
pub proof fn lemma_dependent_pairs_finite<A, B>(s: Set<A>, f: spec_fn(A) -> Set<B>)
    requires
        s.finite(),
        forall|a: A| s.contains(a) ==> (#[trigger] f(a)).finite(),
    ensures
        Set::<(A, B)>::new(|p: (A, B)| s.contains(p.0) && f(p.0).contains(p.1)).finite(),
    decreases s.len(),
{
    let pairs = Set::<(A, B)>::new(|p: (A, B)| s.contains(p.0) && f(p.0).contains(p.1));
    if s.len() == 0 {
        s.lemma_len0_is_empty();
        assert(pairs =~= Set::<(A, B)>::empty());
    } else {
        let a = s.choose();
        let s2 = s.remove(a);
        let rest = Set::<(A, B)>::new(|p: (A, B)| s2.contains(p.0) && f(p.0).contains(p.1));
        lemma_dependent_pairs_finite(s2, f);
        let fibre = f(a).map(|b: B| (a, b));
        f(a).lemma_map_finite(|b: B| (a, b));
        assert(pairs =~= rest.union(fibre)) by {
            assert forall|p: (A, B)| pairs.contains(p) implies rest.union(fibre).contains(p) by {
                if p.0 == a {
                    assert(fibre.contains(p)) by {
                        assert(f(a).contains(p.1) && p == (a, p.1));
                    }
                }
            }
            assert forall|p: (A, B)| rest.union(fibre).contains(p) implies pairs.contains(p) by {
                if fibre.contains(p) {
                    let b = choose|b: B| #[trigger] f(a).contains(b) && p == (a, b);
                    assert(s.contains(a) && f(p.0).contains(p.1));
                }
            }
        }
    }
}

/// The addresses present in a finite store form a finite set.
pub proof fn lemma_store_nodes_finite(v: SView)
    requires
        store_finite(v),
    ensures
        store_nodes(v).finite(),
{
    let f = |t: Seq<char>| v[t].dom();
    lemma_dependent_pairs_finite(v.dom(), f);
    let pairs = Set::<Node>::new(|p: Node| v.dom().contains(p.0) && f(p.0).contains(p.1));
    assert(store_nodes(v) =~= pairs);
}

/// The targets of one descriptor form a finite set.
pub proof fn lemma_desc_edges_finite(d: RelationsView)
    ensures
        desc_edges(d).finite(),
    decreases d.len(),
{
    if d.len() == 0 {
        assert(desc_edges(d) =~= Set::<(Seq<char>, RelationEdge)>::empty());
    } else {
        let front = d.drop_last();
        lemma_desc_edges_finite(front);
        let last = d.last();
        let lastset = last.1.to_set().map(|e: RelationEdge| (last.0, e));
        last.1.to_set().lemma_map_finite(|e: RelationEdge| (last.0, e));
        assert(desc_edges(d) =~= desc_edges(front).union(lastset)) by {
            assert forall|p: (Seq<char>, RelationEdge)| desc_edges(d).contains(p) implies desc_edges(
                front,
            ).union(lastset).contains(p) by {
                let (i, j) = choose|i: int, j: int|
                    0 <= i < d.len() && 0 <= j < (#[trigger] d[i]).1.len() && d[i].0 == p.0 && (
                    #[trigger] d[i].1[j]) == p.1;
                if i < d.len() - 1 {
                    assert(front[i] == d[i]);
                    assert(desc_edges(front).contains(p));
                } else {
                    assert(d[i] == last);
                    assert(last.1.to_set().contains(p.1)) by {
                        assert(last.1[j] == p.1);
                    }
                    assert(lastset.contains((last.0, p.1)));
                }
            }
            assert forall|p: (Seq<char>, RelationEdge)|
                desc_edges(front).union(lastset).contains(p) implies desc_edges(d).contains(p) by {
                if desc_edges(front).contains(p) {
                    let (i, j) = choose|i: int, j: int|
                        0 <= i < front.len() && 0 <= j < (#[trigger] front[i]).1.len() && front[i].0
                            == p.0 && (#[trigger] front[i].1[j]) == p.1;
                    assert(d[i] == front[i]);
                    assert(0 <= i < d.len() && 0 <= j < d[i].1.len() && d[i].0 == p.0 && d[i].1[j]
                        == p.1);
                } else {
                    let e = choose|e: RelationEdge| last.1.to_set().contains(e) && p == (last.0, e);
                    let j = choose|j: int| 0 <= j < last.1.len() && last.1[j] == e;
                    let i = d.len() - 1;
                    assert(0 <= i < d.len() && 0 <= j < d[i].1.len() && d[i].0 == p.0 && d[i].1[j]
                        == p.1);
                }
            }
        }
    }
}

/// The addresses named by stored descriptors of a finite store form a finite
/// set.
pub proof fn lemma_desc_targets_finite(v: SView)
    requires
        store_finite(v),
    ensures
        desc_targets(v).finite(),
{
    lemma_store_nodes_finite(v);
    let f = |q: Node|
        match dec_relations(v[q.0][q.1]) {
            Some(d) => desc_edges(d).map(|e: (Seq<char>, RelationEdge)| (e.0, e.1.key)),
            None => Set::<Node>::empty(),
        };
    assert forall|q: Node| store_nodes(v).contains(q) implies (#[trigger] f(q)).finite() by {
        match dec_relations(v[q.0][q.1]) {
            Some(d) => {
                lemma_desc_edges_finite(d);
                desc_edges(d).lemma_map_finite(|e: (Seq<char>, RelationEdge)| (e.0, e.1.key));
            },
            None => {},
        }
    }
    lemma_dependent_pairs_finite(store_nodes(v), f);
    let pairs = Set::<(Node, Node)>::new(
        |p: (Node, Node)| store_nodes(v).contains(p.0) && f(p.0).contains(p.1),
    );
    pairs.lemma_map_finite(|p: (Node, Node)| p.1);
    let proj = pairs.map(|p: (Node, Node)| p.1);
    assert(desc_targets(v) =~= proj) by {
        assert forall|n: Node| desc_targets(v).contains(n) implies proj.contains(n) by {
            let (t, k) = choose|t: Seq<char>, k: Seq<u8>|
                #![trigger v[t][k]]
                v.contains_key(t) && v[t].contains_key(k) && match dec_relations(v[t][k]) {
                    Some(d) => exists|e: RelationEdge|
                        desc_edges(d).contains((n.0, e)) && e.key == n.1,
                    None => false,
                };
            match dec_relations(v[t][k]) {
                Some(d) => {
                    let e = choose|e: RelationEdge|
                        desc_edges(d).contains((n.0, e)) && e.key == n.1;
                    assert(f((t, k)).contains(n)) by {
                        assert(desc_edges(d).map(
                            |q: (Seq<char>, RelationEdge)| (q.0, q.1.key),
                        ).contains(((n.0, e).0, (n.0, e).1.key)));
                    }
                    assert(pairs.contains(((t, k), n)));
                    assert(proj.contains(n)) by {
                        assert(pairs.map(|p: (Node, Node)| p.1).contains(pairs.choose()
                            .1) || true);
                        assert(exists|p: (Node, Node)| pairs.contains(p) && p.1 == n) by {
                            assert(pairs.contains(((t, k), n)));
                        }
                    }
                },
                None => {},
            }
        }
        assert forall|n: Node| proj.contains(n) implies desc_targets(v).contains(n) by {
            let p = choose|p: (Node, Node)| pairs.contains(p) && p.1 == n;
            let q = p.0;
            match dec_relations(v[q.0][q.1]) {
                Some(d) => {
                    let e = choose|e: (Seq<char>, RelationEdge)|
                        desc_edges(d).contains(e) && (e.0, e.1.key) == n;
                    assert(desc_edges(d).contains((n.0, e.1)) && e.1.key == n.1);
                },
                None => {
                    assert(f(q) =~= Set::<Node>::empty());
                    assert(false);
                },
            }
        }
    }
}

/// The universe of a deletion plan is finite.
pub proof fn lemma_universe_finite(v: SView, root: Node)
    requires
        store_finite(v),
    ensures
        universe(v, root).finite(),
{
    lemma_store_nodes_finite(v);
    lemma_desc_targets_finite(v);
}

// ---------------------------------------------------------------------------
// Admissibility and the plan.
// ---------------------------------------------------------------------------

/// The guard under which the model is defined: a finite store, an ancestor
/// path inside the universe, and a node inside the universe.
pub open spec fn model_guard(v: SView, root: Node, node: Node, path: Set<Node>) -> bool {
    &&& store_finite(v)
    &&& path.finite()
    &&& path.subset_of(universe(v, root))
    &&& universe(v, root).contains(node)
}

/// Whether removing `node` is admissible, given the ancestor path `path` of
/// nodes whose removal is already planned upstream.
pub open spec fn chk_ok(v: SView, root: Node, node: Node, path: Set<Node>) -> bool
    decreases universe(v, root).len() - path.len(), 0int,
    when model_guard(v, root, node, path)
    via chk_ok_dec
{
    if path.contains(node) {
        true
    } else {
        let path1 = path.insert(node);
        match rel_desc_of(v, node.0, node.1) {
            None => false,
            Some(d) => match fam_of(v, node.0) {
                None => false,
                Some(None) => false,
                Some(Some(f)) => {
                    &&& (forall|te: (Seq<char>, RelationEdge)|
                        desc_edges(d).contains(te) ==> edge_ok(v, root, path1, te))
                    &&& (forall|i: int|
                        0 <= i < f.siblings.len() ==> sib_ok(
                            v,
                            root,
                            node.1,
                            path1,
                            #[trigger] f.siblings[i],
                        ))
                    &&& (forall|i: int|
                        0 <= i < f.children.len() ==> child_ok(
                            v,
                            root,
                            node.1,
                            path1,
                            #[trigger] f.children[i],
                        ))
                },
            },
        }
    }
}

/// Whether one outgoing free edge admits the removal.
pub open spec fn edge_ok(v: SView, root: Node, path1: Set<Node>, te: (Seq<char>, RelationEdge)) -> bool
    decreases universe(v, root).len() - path1.len(), 1int,
    when store_finite(v) && path1.finite() && path1.subset_of(universe(v, root)) && (te.1.behaviour
        is Cascade ==> universe(v, root).contains((te.0, te.1.key)))
    via edge_ok_dec
{
    match te.1.behaviour {
        DeletionBehaviour::Error => path1.contains((te.0, te.1.key)),
        DeletionBehaviour::BreakLink => true,
        DeletionBehaviour::Cascade => chk_ok(v, root, (te.0, te.1.key), path1),
    }
}

/// Whether one declared sibling keyspace admits the removal of the record
/// with key `k`.
pub open spec fn sib_ok(
    v: SView,
    root: Node,
    k: Seq<u8>,
    path1: Set<Node>,
    entry: (Seq<char>, DeletionBehaviour),
) -> bool
    decreases universe(v, root).len() - path1.len(), 1int,
    when store_finite(v) && path1.finite() && path1.subset_of(universe(v, root))
    via sib_ok_dec
{
    match entry.1 {
        DeletionBehaviour::Error => tree_of(v, entry.0).contains_key(k) ==> path1.contains(
            (entry.0, k),
        ),
        DeletionBehaviour::BreakLink => true,
        DeletionBehaviour::Cascade => tree_of(v, entry.0).contains_key(k) ==> chk_ok(
            v,
            root,
            (entry.0, k),
            path1,
        ),
    }
}

/// Whether one declared child keyspace admits the removal of the record with
/// key `k`.
pub open spec fn child_ok(
    v: SView,
    root: Node,
    k: Seq<u8>,
    path1: Set<Node>,
    entry: (Seq<char>, DeletionBehaviour),
) -> bool
    decreases universe(v, root).len() - path1.len(), 1int,
    when store_finite(v) && path1.finite() && path1.subset_of(universe(v, root))
    via child_ok_dec
{
    match entry.1 {
        DeletionBehaviour::Error => !(exists|ck: Seq<u8>|
            tree_of(v, entry.0).contains_key(ck) && has_prefix(ck, k)),
        DeletionBehaviour::BreakLink => true,
        DeletionBehaviour::Cascade => forall|ck: Seq<u8>|
            (tree_of(v, entry.0).contains_key(ck) && has_prefix(ck, k)) ==> chk_ok(
                v,
                root,
                (entry.0, ck),
                path1,
            ),
    }
}

#[via_fn]
proof fn chk_ok_dec(v: SView, root: Node, node: Node, path: Set<Node>) {
    lemma_universe_finite(v, root);
    if !path.contains(node) {
        let path1 = path.insert(node);
        lemma_len_subset(path1, universe(v, root));
        match rel_desc_of(v, node.0, node.1) {
            None => {},
            Some(d) => {
                lemma_desc_provenance(v, node.0, node.1, d);
            },
        }
    }
}

#[via_fn]
proof fn edge_ok_dec(v: SView, root: Node, path1: Set<Node>, te: (Seq<char>, RelationEdge)) {
    lemma_universe_finite(v, root);
    lemma_len_subset(path1, universe(v, root));
}

#[via_fn]
proof fn sib_ok_dec(
    v: SView,
    root: Node,
    k: Seq<u8>,
    path1: Set<Node>,
    entry: (Seq<char>, DeletionBehaviour),
) {
    lemma_universe_finite(v, root);
    lemma_len_subset(path1, universe(v, root));
}

#[via_fn]
proof fn child_ok_dec(
    v: SView,
    root: Node,
    k: Seq<u8>,
    path1: Set<Node>,
    entry: (Seq<char>, DeletionBehaviour),
) {
    lemma_universe_finite(v, root);
    lemma_len_subset(path1, universe(v, root));
}

/// Every target of the descriptor stored for `(t, k)` lies in the universe.
pub proof fn lemma_desc_provenance(v: SView, t: Seq<char>, k: Seq<u8>, d: RelationsView)
    requires
        rel_desc_of(v, t, k) == Some(d),
    ensures
        forall|te: (Seq<char>, RelationEdge)| #[trigger]
            desc_edges(d).contains(te) ==> forall|root: Node|
                universe(v, root).contains((te.0, te.1.key)),
{
    let rt = crate::relation::rel_tree_spec(t);
    let tree = tree_of(v, rt);
    assert forall|te: (Seq<char>, RelationEdge)| #[trigger] desc_edges(d).contains(te) implies forall|
        root: Node,
    | universe(v, root).contains((te.0, te.1.key)) by {
        if tree.contains_key(k) {
            assert(v.contains_key(rt) && v[rt].contains_key(k));
            assert(dec_relations(v[rt][k]) == Some(d));
            assert forall|root: Node| universe(v, root).contains((te.0, te.1.key)) by {
                let p = (te.0, te.1.key);
                assert(dec_relations(v[rt][k]) == Some(d));
                assert(desc_edges(dec_relations(v[rt][k])->Some_0).contains((p.0, te.1))
                    && te.1.key == p.1);
                assert(desc_targets(v).contains(p)) by {
                    assert(v.contains_key(rt) && v[rt].contains_key(k) && match dec_relations(
                        v[rt][k],
                    ) {
                        Some(dd) => exists|e: RelationEdge|
                            #[trigger] desc_edges(dd).contains((p.0, e)) && e.key == p.1,
                        None => false,
                    });
                }
            }
        } else {
            assert(d =~= Seq::<(Seq<char>, Seq<RelationEdge>)>::empty());
            let (i, j) = choose|i: int, j: int|
                0 <= i < d.len() && 0 <= j < (#[trigger] d[i]).1.len() && d[i].0 == te.0 && (
                #[trigger] d[i].1[j]) == te.1;
            assert(false);
        }
    }
}

// ---------------------------------------------------------------------------
// Plan membership.
// ---------------------------------------------------------------------------

/// Whether `n` is carried away by the removal of `node` under ancestor path
/// `path`: it is `node` itself, or is reached through a cascade.
pub open spec fn in_plan(v: SView, root: Node, node: Node, path: Set<Node>, n: Node) -> bool
    decreases universe(v, root).len() - path.len(),
    when model_guard(v, root, node, path)
    via in_plan_dec
{
    if path.contains(node) {
        false
    } else {
        let path1 = path.insert(node);
        n == node || (match rel_desc_of(v, node.0, node.1) {
            None => false,
            Some(d) => {
                ||| (exists|te: (Seq<char>, RelationEdge)|
                    #[trigger] desc_edges(d).contains(te) && te.1.behaviour is Cascade && in_plan(
                        v,
                        root,
                        (te.0, te.1.key),
                        path1,
                        n,
                    ))
                ||| (match fam_of(v, node.0) {
                    Some(Some(f)) => {
                        ||| (exists|i: int|
                            0 <= i < f.siblings.len() && (#[trigger] f.siblings[i]).1 is Cascade
                                && tree_of(v, f.siblings[i].0).contains_key(node.1) && in_plan(
                                v,
                                root,
                                (f.siblings[i].0, node.1),
                                path1,
                                n,
                            ))
                        ||| (exists|i: int, ck: Seq<u8>|
                            #![trigger f.children[i], has_prefix(ck, node.1)]
                            0 <= i < f.children.len() && f.children[i].1 is Cascade && tree_of(
                                v,
                                f.children[i].0,
                            ).contains_key(ck) && has_prefix(ck, node.1) && in_plan(
                                v,
                                root,
                                (f.children[i].0, ck),
                                path1,
                                n,
                            ))
                    },
                    _ => false,
                })
            },
        })
    }
}

#[via_fn]
proof fn in_plan_dec(v: SView, root: Node, node: Node, path: Set<Node>, n: Node) {
    lemma_universe_finite(v, root);
    if !path.contains(node) {
        let path1 = path.insert(node);
        lemma_len_subset(path1, universe(v, root));
        match rel_desc_of(v, node.0, node.1) {
            None => {},
            Some(d) => {
                lemma_desc_provenance(v, node.0, node.1, d);
            },
        }
    }
}

/// The set of records carried away by the removal of `node`.
pub open spec fn plan_set(v: SView, root: Node, node: Node, path: Set<Node>) -> Set<Node> {
    Set::new(|n: Node| in_plan(v, root, node, path, n))
}


// ---------------------------------------------------------------------------
// Fault witnesses.
//
// When planning refuses a removal, the error's kind and message are part of
// the observable surface: an integrity violation names the constrained
// keyspace, an unregistered type names its keyspace, an undecodable
// descriptor names what failed to decode. `fault_reach` says that a fault of
// the given kind, naming keyspace `t`, is reachable from `node` along the
// planner's traversal.
// ---------------------------------------------------------------------------

/// The message of a removal refused by an `Error` free edge into keyspace
/// `t`.
pub open spec fn msg_constrained_related(t: Seq<char>) -> Seq<char> {
    "Constrained related entity exists in "@ + t
}

/// The message of a removal refused by an `Error` sibling declaration into
/// keyspace `t`.
pub open spec fn msg_constrained_sibling(t: Seq<char>) -> Seq<char> {
    "Constrained sibling entity exists in "@ + t
}

/// The message of a removal refused by an `Error` child declaration into
/// keyspace `t`.
pub open spec fn msg_constrained_child(t: Seq<char>) -> Seq<char> {
    "Constrained child entity exists in "@ + t
}

/// The message of a removal refused because the type was never registered.
pub open spec fn msg_unregistered(t: Seq<char>) -> Seq<char> {
    "Trying to use unregistered entity "@ + t
}

/// A fault of kind `kind`, reported with message `t`, is reachable from
/// `node` under ancestor path `path`: the node's own descriptor or family
/// fails to decode or is absent, one of its `Error` constraints is violated
/// (the message then names the constrained keyspace), or a cascade leads to
/// a node where such a fault is reachable.
pub open spec fn fault_reach(
    v: SView,
    root: Node,
    node: Node,
    path: Set<Node>,
    kind: ErrorKind,
    t: Seq<char>,
) -> bool
    decreases universe(v, root).len() - path.len(),
    when model_guard(v, root, node, path)
    via fault_reach_dec
{
    if path.contains(node) {
        false
    } else {
        let path1 = path.insert(node);
        match rel_desc_of(v, node.0, node.1) {
            None => kind == ErrorKind::SerializationError && t == crate::relation::rel_tree_spec(
                node.0,
            ),
            Some(d) => {
                ||| (match fam_of(v, node.0) {
                    None => kind == ErrorKind::UnregisteredEntity && t == msg_unregistered(node.0),
                    Some(ff) => match ff {
                        None => kind == ErrorKind::SerializationError && t == node.0,
                        Some(f) => false,
                    },
                })
                ||| (kind == ErrorKind::IntegrityError && exists|te: (Seq<char>, RelationEdge)|
                    #[trigger] desc_edges(d).contains(te) && t == msg_constrained_related(te.0)
                        && te.1.behaviour is Error && !path1.contains((te.0, te.1.key)))
                ||| (exists|te: (Seq<char>, RelationEdge)|
                    #[trigger] desc_edges(d).contains(te) && te.1.behaviour is Cascade
                        && fault_reach(v, root, (te.0, te.1.key), path1, kind, t))
                ||| (match fam_of(v, node.0) {
                    Some(ff) => match ff {
                        Some(f) => {
                            ||| (kind == ErrorKind::IntegrityError && exists|i: int|
                                0 <= i < f.siblings.len() && (#[trigger] f.siblings[i]).1
                                    is Error && t == msg_constrained_sibling(f.siblings[i].0)
                                    && tree_of(v, f.siblings[i].0).contains_key(node.1)
                                    && !path1.contains((f.siblings[i].0, node.1)))
                            ||| (exists|i: int|
                                0 <= i < f.siblings.len() && (#[trigger] f.siblings[i]).1
                                    is Cascade && tree_of(v, f.siblings[i].0).contains_key(node.1)
                                    && fault_reach(
                                    v,
                                    root,
                                    (f.siblings[i].0, node.1),
                                    path1,
                                    kind,
                                    t,
                                ))
                            ||| (kind == ErrorKind::IntegrityError && exists|i: int, ck: Seq<u8>|
                                #![trigger f.children[i], has_prefix(ck, node.1)]
                                0 <= i < f.children.len() && f.children[i].1 is Error && t
                                    == msg_constrained_child(f.children[i].0)
                                    && tree_of(v, f.children[i].0).contains_key(ck) && has_prefix(
                                    ck,
                                    node.1,
                                ))
                            ||| (exists|i: int, ck: Seq<u8>|
                                #![trigger f.children[i], has_prefix(ck, node.1)]
                                0 <= i < f.children.len() && f.children[i].1 is Cascade && tree_of(
                                    v,
                                    f.children[i].0,
                                ).contains_key(ck) && has_prefix(ck, node.1) && fault_reach(
                                    v,
                                    root,
                                    (f.children[i].0, ck),
                                    path1,
                                    kind,
                                    t,
                                ))
                        },
                        None => false,
                    },
                    None => false,
                })
            },
        }
    }
}

#[via_fn]
proof fn fault_reach_dec(
    v: SView,
    root: Node,
    node: Node,
    path: Set<Node>,
    kind: ErrorKind,
    t: Seq<char>,
) {
    lemma_universe_finite(v, root);
    if !path.contains(node) {
        let path1 = path.insert(node);
        lemma_len_subset(path1, universe(v, root));
        match rel_desc_of(v, node.0, node.1) {
            None => {},
            Some(d) => {
                lemma_desc_provenance(v, node.0, node.1, d);
            },
        }
    }
}

} // verus!
