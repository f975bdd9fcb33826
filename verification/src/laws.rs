use vstd::prelude::*;

use crate::bytes::AsBytes;
use crate::bytes::be32;
use crate::bytes::be32_val;
use crate::bytes::lemma_be32_roundtrip;
use crate::bytes::lemma_lex_lt_irreflexive;
use crate::bytes::lemma_lex_lt_total;
use crate::bytes::lemma_lex_lt_transitive;
use crate::bytes::has_prefix;
use crate::bytes::lemma_sorted_entries_unique;
use crate::bytes::lex_lt;
use crate::bytes::prefix_pred;
use crate::bytes::sorted_filtered_entries;
use crate::entity::Entity;
use crate::entity::child_next_ok;
use crate::entity::child_next_spec;
use crate::entity::key_bytes_of;
use crate::entity::lemma_saved_all_snoc;
use crate::entity::next_key_ok;
use crate::entity::saved_all;
use crate::entity::next_key_spec;
use crate::error::ErrorKind;
use crate::kv::store_finite;
use crate::kv::tree_of;
use crate::descriptor::RelationEdge;
use crate::descriptor::RelationsView;
use crate::model::Node;
use crate::model::SView;
use crate::model::chk_ok;
use crate::model::desc_edges;
use crate::model::edge_ok;
use crate::model::fault_reach;
use crate::model::in_plan;
use crate::model::lemma_desc_provenance;
use crate::model::lemma_universe_finite;
use crate::model::msg_constrained_related;
use crate::model::plan_set;
use crate::model::universe;
use crate::codec::fits_u64;
use crate::codec::lemma_relations_roundtrip;
use crate::codec::rel_bounded;
use crate::codec::str_bounded;
use crate::descriptor::er_add;
use crate::descriptor::er_remove_key;
use crate::descriptor::find_group_from;
use crate::relation::group_keys;
use crate::relation::link_added;
use crate::relation::link_removed;
use crate::relation::rel_desc_of;
use crate::relation::rel_desc_saved;
use crate::relation::rel_tree_spec;
use crate::entity::fam_of;
use vstd::set_lib::lemma_len_subset;

verus! {

// ---------------------------------------------------------------------------
// Laws of the store.
//
// Each proof function below states a property of the library over the store
// model: what a save makes a get return, how auto-incremented keys and child
// tails progress. They are stated once and proved for every input their
// hypotheses admit.
// ---------------------------------------------------------------------------

/// A record read back under its own key is the record that was saved: after
/// the effect of `save(r)`, the keyspace holds `r`'s encoding under `r`'s
/// key bytes, and decoding returns `r`'s value.
pub proof fn lemma_save_then_get<E: Entity>(
    v: Map<Seq<char>, Map<Seq<u8>, Seq<u8>>>,
    r: &E,
)
    requires
        r.rec_wf(),
    ensures
        ({
            let v1 = v.insert(
                E::name_spec(),
                tree_of(v, E::name_spec()).insert(key_bytes_of(r), r.rec_enc()),
            );
            let tree1 = tree_of(v1, E::name_spec());
            tree1.contains_key(key_bytes_of(r)) && E::dec_ok(tree1[key_bytes_of(r)])
                && E::dec_view(tree1[key_bytes_of(r)]) == r@
        }),
{
    E::law_codec(r);
}

/// Strictly larger numbers have strictly larger big-endian key bytes.
pub proof fn lemma_be32_order(a: u32, b: u32)
    requires
        a < b,
    ensures
        lex_lt(be32(a), be32(b)),
{
    let a3 = (a >> 24) as u8;
    let a2 = (a >> 16) as u8;
    let a1 = (a >> 8) as u8;
    let a0 = a as u8;
    let b3 = (b >> 24) as u8;
    let b2 = (b >> 16) as u8;
    let b1 = (b >> 8) as u8;
    let b0 = b as u8;
    assert((a3 < b3) || (a3 == b3 && a2 < b2) || (a3 == b3 && a2 == b2 && a1 < b1) || (a3 == b3
        && a2 == b2 && a1 == b1 && a0 < b0)) by (bit_vector)
        requires
            a < b,
            a3 == (a >> 24) as u8,
            a2 == (a >> 16) as u8,
            a1 == (a >> 8) as u8,
            a0 == a as u8,
            b3 == (b >> 24) as u8,
            b2 == (b >> 16) as u8,
            b1 == (b >> 8) as u8,
            b0 == b as u8,
    ;
    reveal_with_fuel(lex_lt, 6);
    let sa = be32(a);
    let sb = be32(b);
    assert(sa.drop_first() =~= seq![a2, a1, a0]);
    assert(sb.drop_first() =~= seq![b2, b1, b0]);
    assert(seq![a2, a1, a0].drop_first() =~= seq![a1, a0]);
    assert(seq![b2, b1, b0].drop_first() =~= seq![b1, b0]);
    assert(seq![a1, a0].drop_first() =~= seq![a0]);
    assert(seq![b1, b0].drop_first() =~= seq![b0]);
    assert(seq![a0].drop_first() =~= Seq::<u8>::empty());
    assert(lex_lt(sa, sb));
}

/// The keyspace whose keys are exactly the auto-incremented keys below `n`.
pub open spec fn counted_keys(tree: Map<Seq<u8>, Seq<u8>>, n: u32) -> bool {
    forall|k: Seq<u8>| #[trigger]
        tree.contains_key(k) <==> exists|i: u32| i < n && k == be32(i)
}

/// Auto-incremented keys count up from zero: a keyspace holding exactly the
/// keys below `n` issues `n` next, and saving under `n` yields a keyspace
/// holding exactly the keys below `n + 1`. Starting from the empty keyspace,
/// successive saves therefore receive the keys `0, 1, 2, ...` in order.
pub proof fn lemma_save_next_progression(tree: Map<Seq<u8>, Seq<u8>>, n: u32, vb: Seq<u8>)
    requires
        counted_keys(tree, n),
        n < 0xffff_ffffu32,
    ensures
        next_key_ok(tree),
        next_key_spec(tree) == n,
        counted_keys(tree.insert(be32(n), vb), (n + 1) as u32),
{
    if n == 0 {
        assert forall|k: Seq<u8>| !tree.contains_key(k) by {
            if tree.contains_key(k) {
                let i = choose|i: u32| i < n && k == be32(i);
            }
        }
    } else {
        let m = be32((n - 1) as u32);
        assert(tree.contains_key(m)) by {
            assert(((n - 1) as u32) < n && m == be32((n - 1) as u32));
        }
        lemma_be32_roundtrip((n - 1) as u32);
        assert forall|k2: Seq<u8>| tree.contains_key(k2) implies k2 == m || lex_lt(k2, m) by {
            let i = choose|i: u32| i < n && k2 == be32(i);
            if i < n - 1 {
                lemma_be32_order(i, (n - 1) as u32);
            }
        }
        assert(next_key_ok(tree)) by {
            assert(tree.contains_key(m) && m.len() == 4 && be32_val(m) < 0xffff_ffffu32 && forall|
                k2: Seq<u8>,
            | tree.contains_key(k2) ==> k2 == m || lex_lt(k2, m));
        }
        assert(!(forall|k: Seq<u8>| !tree.contains_key(k)));
        let kc = choose|kc: Seq<u8>|
            #![trigger tree.contains_key(kc)]
            tree.contains_key(kc) && forall|k2: Seq<u8>|
                tree.contains_key(k2) ==> k2 == kc || lex_lt(k2, kc);
        assert(tree.contains_key(m) && forall|k2: Seq<u8>|
            tree.contains_key(k2) ==> k2 == m || lex_lt(k2, m));
        if kc != m {
            lemma_lex_lt_total(kc, m);
            lemma_lex_lt_transitive(m, kc, m);
            lemma_lex_lt_irreflexive(m);
            assert(false);
        }
        assert(next_key_spec(tree) == (be32_val(m) + 1) as u32);
    }
    let tree2 = tree.insert(be32(n), vb);
    assert forall|k: Seq<u8>| #[trigger]
        tree2.contains_key(k) <==> exists|i: u32| i < n + 1 && k == be32(i) by {
        if tree2.contains_key(k) {
            if k == be32(n) {
                assert(n < ((n + 1) as u32) && k == be32(n));
            } else {
                let i = choose|i: u32| i < n && k == be32(i);
                assert(i < ((n + 1) as u32) && k == be32(i));
            }
        }
        if exists|i: u32| i < n + 1 && k == be32(i) {
            let i = choose|i: u32| i < n + 1 && k == be32(i);
            if i < n {
                assert(tree.contains_key(k));
            }
        }
    }
}

/// Child tails count up from zero under one parent: the first child saved
/// into an empty child keyspace gets tail `0`, and the next one tail `1`, so
/// its keys come out as `(parent, 0)` then `(parent, 1)`.
pub proof fn lemma_save_child_tails(tree: Map<Seq<u8>, Seq<u8>>, pb: Seq<u8>, vb: Seq<u8>)
    requires
        forall|k: Seq<u8>| !tree.contains_key(k),
    ensures
        child_next_ok(tree),
        child_next_spec(tree) == 0,
        child_next_ok(tree.insert(pb + be32(0), vb)),
        child_next_spec(tree.insert(pb + be32(0), vb)) == 1,
{
    let k0 = pb + be32(0);
    let tree2 = tree.insert(k0, vb);
    assert(k0.subrange(k0.len() - 4, k0.len() as int) =~= be32(0));
    lemma_be32_roundtrip(0);
    assert forall|k2: Seq<u8>| tree2.contains_key(k2) implies k2 == k0 || lex_lt(k2, k0) by {}
    assert(child_next_ok(tree2)) by {
        assert(tree2.contains_key(k0) && k0.len() >= 4 && be32_val(
            k0.subrange(k0.len() - 4, k0.len() as int),
        ) < 0xffff_ffffu32 && forall|k2: Seq<u8>|
            tree2.contains_key(k2) ==> k2 == k0 || lex_lt(k2, k0));
    }
    assert(!(forall|k: Seq<u8>| !tree2.contains_key(k))) by {
        assert(tree2.contains_key(k0));
    }
    let kc = choose|kc: Seq<u8>|
        #![trigger tree2.contains_key(kc)]
        tree2.contains_key(kc) && forall|k2: Seq<u8>|
            tree2.contains_key(k2) ==> k2 == kc || lex_lt(k2, kc);
    assert(tree2.contains_key(k0) && forall|k2: Seq<u8>|
        tree2.contains_key(k2) ==> k2 == k0 || lex_lt(k2, k0));
    if kc != k0 {
        lemma_lex_lt_total(kc, k0);
        lemma_lex_lt_transitive(k0, kc, k0);
        lemma_lex_lt_irreflexive(k0);
        assert(false);
    }
    assert(child_next_spec(tree2) == (be32_val(be32(0)) + 1) as u32);
}


/// An `Error` edge towards a record that is not itself being removed blocks
/// the removal: planning the removal of `b` fails while its descriptor
/// carries an `Error` edge towards a peer other than `b`.
pub proof fn lemma_error_edge_blocks_removal(
    v: SView,
    b: Node,
    db: RelationsView,
    ta: Seq<char>,
    e: RelationEdge,
)
    requires
        store_finite(v),
        rel_desc_of(v, b.0, b.1) == Some(db),
        desc_edges(db).contains((ta, e)),
        e.behaviour is Error,
        (ta, e.key) != b,
    ensures
        !chk_ok(v, b, b, Set::<Node>::empty()),
{
    let path = Set::<Node>::empty();
    let path1 = path.insert(b);
    assert(universe(v, b).contains(b));
    assert(path.finite() && path.subset_of(universe(v, b)));
    if chk_ok(v, b, b, path) {
        assert(!path.contains(b));
        match fam_of(v, b.0) {
            Some(ff) => match ff {
                Some(f) => {
                    assert(rel_desc_of(v, b.0, b.1)->Some_0 == db);
                    assert(desc_edges(rel_desc_of(v, b.0, b.1)->Some_0).contains((ta, e)));
                    assert(edge_ok(v, b, path1, (ta, e)));
                    assert(path1.contains((ta, e.key)));
                    assert(false);
                },
                None => {
                    assert(false);
                },
            },
            None => {
                assert(false);
            },
        }
    }
}

/// The mirrored three-cycle shape: each record's descriptor holds exactly
/// the forward and the mirror edge, all `Cascade`, and every family is
/// empty.
pub open spec fn mirrored_cycle_shape(
    v: SView,
    a: Node,
    b: Node,
    c: Node,
    eab: RelationEdge,
    eac: RelationEdge,
    ebc: RelationEdge,
    eba: RelationEdge,
    eca: RelationEdge,
    ecb: RelationEdge,
) -> bool {
    &&& store_finite(v)
    &&& a != b && b != c && a != c
    &&& (rel_desc_of(v, a.0, a.1) matches Some(da) && desc_edges(da) == Set::<(
        Seq<char>,
        RelationEdge,
    )>::empty().insert((b.0, eab)).insert((c.0, eac)))
    &&& (rel_desc_of(v, b.0, b.1) matches Some(db) && desc_edges(db) == Set::<(
        Seq<char>,
        RelationEdge,
    )>::empty().insert((c.0, ebc)).insert((a.0, eba)))
    &&& (rel_desc_of(v, c.0, c.1) matches Some(dc) && desc_edges(dc) == Set::<(
        Seq<char>,
        RelationEdge,
    )>::empty().insert((a.0, eca)).insert((b.0, ecb)))
    &&& eab.behaviour is Cascade && eab.key == b.1
    &&& eac.behaviour is Cascade && eac.key == c.1
    &&& ebc.behaviour is Cascade && ebc.key == c.1
    &&& eba.behaviour is Cascade && eba.key == a.1
    &&& eca.behaviour is Cascade && eca.key == a.1
    &&& ecb.behaviour is Cascade && ecb.key == b.1
    &&& (fam_of(v, a.0) matches Some(fa) && fa matches Some(ffa) && ffa.siblings.len() == 0
        && ffa.children.len() == 0)
    &&& (fam_of(v, b.0) matches Some(fb) && fb matches Some(ffb) && ffb.siblings.len() == 0
        && ffb.children.len() == 0)
    &&& (fam_of(v, c.0) matches Some(fc) && fc matches Some(ffc) && ffc.siblings.len() == 0
        && ffc.children.len() == 0)
}

/// A mirrored cascade cycle is removed whole: for records `a -> b -> c -> a`
/// whose forward and mirror edges all carry `Cascade` and whose types
/// declare no sibling or child keyspaces, removing `a` is admissible and
/// carries away exactly `a`, `b` and `c`.
#[verifier::rlimit(100)]
pub proof fn lemma_cascade_cycle_mirrored(
    v: SView,
    a: Node,
    b: Node,
    c: Node,
    eab: RelationEdge,
    eac: RelationEdge,
    ebc: RelationEdge,
    eba: RelationEdge,
    eca: RelationEdge,
    ecb: RelationEdge,
)
    requires
        mirrored_cycle_shape(v, a, b, c, eab, eac, ebc, eba, eca, ecb),
    ensures
        chk_ok(v, a, a, Set::<Node>::empty()),
        plan_set(v, a, a, Set::<Node>::empty()) == Set::<Node>::empty().insert(a).insert(
            b,
        ).insert(c),
{
    let da = rel_desc_of(v, a.0, a.1)->Some_0;
    let db = rel_desc_of(v, b.0, b.1)->Some_0;
    let dc = rel_desc_of(v, c.0, c.1)->Some_0;
    lemma_universe_finite(v, a);
    lemma_desc_provenance(v, a.0, a.1, da);
    lemma_desc_provenance(v, b.0, b.1, db);
    lemma_desc_provenance(v, c.0, c.1, dc);
    let p0 = Set::<Node>::empty();
    let pa = p0.insert(a);
    let pab = pa.insert(b);
    let pac = pa.insert(c);
    let pabc = pab.insert(c);
    let pacb = pac.insert(b);
    assert(desc_edges(da).contains((b.0, eab)));
    assert(desc_edges(da).contains((c.0, eac)));
    assert(desc_edges(db).contains((c.0, ebc)));
    assert(desc_edges(db).contains((a.0, eba)));
    assert(desc_edges(dc).contains((a.0, eca)));
    assert(desc_edges(dc).contains((b.0, ecb)));
    assert(universe(v, a).contains(a));
    assert(universe(v, a).contains(b)) by {
        assert(universe(v, a).contains(((b.0, eab).0, (b.0, eab).1.key)));
    }
    assert(universe(v, a).contains(c)) by {
        assert(universe(v, a).contains(((c.0, eac).0, (c.0, eac).1.key)));
    }
    assert(pabc.finite() && pabc.subset_of(universe(v, a)));
    assert(pacb.finite() && pacb.subset_of(universe(v, a)));
    lemma_len_subset(pabc, universe(v, a));
    lemma_len_subset(pacb, universe(v, a));

    // admissibility, innermost nodes first: a node already on the path is
    // always admissible
    assert(chk_ok(v, a, c, pab)) by {
        assert forall|te: (Seq<char>, RelationEdge)|
            desc_edges(dc).contains(te) implies edge_ok(v, a, pabc, te) by {
            assert(te == (a.0, eca) || te == (b.0, ecb));
            if te == (a.0, eca) {
                assert(chk_ok(v, a, (a.0, eca.key), pabc));
            } else {
                assert(chk_ok(v, a, (b.0, ecb.key), pabc));
            }
        }
    }
    assert(chk_ok(v, a, b, pac)) by {
        assert forall|te: (Seq<char>, RelationEdge)|
            desc_edges(db).contains(te) implies edge_ok(v, a, pacb, te) by {
            assert(te == (c.0, ebc) || te == (a.0, eba));
            if te == (c.0, ebc) {
                assert(chk_ok(v, a, (c.0, ebc.key), pacb));
            } else {
                assert(chk_ok(v, a, (a.0, eba.key), pacb));
            }
        }
    }
    assert(chk_ok(v, a, b, pa)) by {
        assert forall|te: (Seq<char>, RelationEdge)|
            desc_edges(db).contains(te) implies edge_ok(v, a, pab, te) by {
            assert(te == (c.0, ebc) || te == (a.0, eba));
            if te == (c.0, ebc) {
                assert(chk_ok(v, a, (c.0, ebc.key), pab));
            } else {
                assert(chk_ok(v, a, (a.0, eba.key), pab));
            }
        }
    }
    assert(chk_ok(v, a, c, pa)) by {
        assert forall|te: (Seq<char>, RelationEdge)|
            desc_edges(dc).contains(te) implies edge_ok(v, a, pac, te) by {
            assert(te == (a.0, eca) || te == (b.0, ecb));
            if te == (a.0, eca) {
                assert(chk_ok(v, a, (a.0, eca.key), pac));
            } else {
                assert(chk_ok(v, a, (b.0, ecb.key), pac));
            }
        }
    }
    assert(chk_ok(v, a, a, p0)) by {
        assert forall|te: (Seq<char>, RelationEdge)|
            desc_edges(da).contains(te) implies edge_ok(v, a, pa, te) by {
            assert(te == (b.0, eab) || te == (c.0, eac));
            if te == (b.0, eab) {
                assert(chk_ok(v, a, (b.0, eab.key), pa));
            } else {
                assert(chk_ok(v, a, (c.0, eac.key), pa));
            }
        }
    }

    // the plan holds the three records
    assert(in_plan(v, a, a, p0, a));
    assert(in_plan(v, a, b, pa, b));
    assert(in_plan(v, a, a, p0, b)) by {
        assert(desc_edges(da).contains((b.0, eab)) && eab.behaviour is Cascade && in_plan(
            v,
            a,
            (b.0, eab.key),
            pa,
            b,
        ));
    }
    assert(in_plan(v, a, c, pa, c));
    assert(in_plan(v, a, a, p0, c)) by {
        assert(desc_edges(da).contains((c.0, eac)) && eac.behaviour is Cascade && in_plan(
            v,
            a,
            (c.0, eac.key),
            pa,
            c,
        ));
    }

    // and nothing more
    lemma_cycle_plan_bound(v, a, b, c, eab, eac, ebc, eba, eca, ecb);
    assert(plan_set(v, a, a, p0) =~= Set::<Node>::empty().insert(a).insert(b).insert(c));
}

/// A record distinct from a node is not carried away through that node
/// when it is not carried through any of the node's cascade edges and the
/// node's type declares no sibling or child keyspaces.
proof fn lemma_not_in_plan_step(v: SView, root: Node, node: Node, path: Set<Node>, n: Node)
    requires
        store_finite(v),
        path.finite(),
        path.subset_of(universe(v, root)),
        universe(v, root).contains(node),
        n != node,
        rel_desc_of(v, node.0, node.1) is Some,
        fam_of(v, node.0) matches Some(f0) && f0 matches Some(f) && f.siblings.len() == 0
            && f.children.len() == 0,
        forall|te: (Seq<char>, RelationEdge)|
            #[trigger] desc_edges(rel_desc_of(v, node.0, node.1)->Some_0).contains(te)
                && te.1.behaviour is Cascade ==> !in_plan(
                v,
                root,
                (te.0, te.1.key),
                path.insert(node),
                n,
            ),
    ensures
        !in_plan(v, root, node, path, n),
{
    if !path.contains(node) {
        let path1 = path.insert(node);
        let d = rel_desc_of(v, node.0, node.1)->Some_0;
        if in_plan(v, root, node, path, n) {
            let f = fam_of(v, node.0)->Some_0->Some_0;
            assert(f.siblings.len() == 0 && f.children.len() == 0);
            if exists|te: (Seq<char>, RelationEdge)|
                #[trigger] desc_edges(d).contains(te) && te.1.behaviour is Cascade && in_plan(
                    v,
                    root,
                    (te.0, te.1.key),
                    path1,
                    n,
                ) {
                let te = choose|te: (Seq<char>, RelationEdge)|
                    #[trigger] desc_edges(d).contains(te) && te.1.behaviour is Cascade && in_plan(
                        v,
                        root,
                        (te.0, te.1.key),
                        path1,
                        n,
                    );
                assert(false);
            }
            assert(false);
        }
    }
}

#[verifier::rlimit(100)]
proof fn lemma_cycle_plan_bound(
    v: SView,
    a: Node,
    b: Node,
    c: Node,
    eab: RelationEdge,
    eac: RelationEdge,
    ebc: RelationEdge,
    eba: RelationEdge,
    eca: RelationEdge,
    ecb: RelationEdge,
)
    requires
        mirrored_cycle_shape(v, a, b, c, eab, eac, ebc, eba, eca, ecb),
    ensures
        forall|n: Node|
            in_plan(v, a, a, Set::<Node>::empty(), n) ==> n == a || n == b || n == c,
{
    let p0 = Set::<Node>::empty();
    let pa = p0.insert(a);
    let pab = pa.insert(b);
    let pac = pa.insert(c);
    let pabc = pab.insert(c);
    let pacb = pac.insert(b);
    let da = rel_desc_of(v, a.0, a.1)->Some_0;
    let db = rel_desc_of(v, b.0, b.1)->Some_0;
    let dc = rel_desc_of(v, c.0, c.1)->Some_0;
    lemma_universe_finite(v, a);
    lemma_desc_provenance(v, a.0, a.1, da);
    lemma_desc_provenance(v, b.0, b.1, db);
    lemma_desc_provenance(v, c.0, c.1, dc);
    assert(desc_edges(da).contains((b.0, eab)));
    assert(desc_edges(da).contains((c.0, eac)));
    assert(universe(v, a).contains(a));
    assert(universe(v, a).contains(b)) by {
        assert(universe(v, a).contains(((b.0, eab).0, (b.0, eab).1.key)));
    }
    assert(universe(v, a).contains(c)) by {
        assert(universe(v, a).contains(((c.0, eac).0, (c.0, eac).1.key)));
    }
    assert(pabc.finite() && pabc.subset_of(universe(v, a)));
    assert(pacb.finite() && pacb.subset_of(universe(v, a)));
    lemma_len_subset(pabc, universe(v, a));
    lemma_len_subset(pacb, universe(v, a));
    assert forall|n: Node| in_plan(v, a, a, p0, n) implies n == a || n == b || n == c by {
        if n != a && n != b && n != c {
            assert(!in_plan(v, a, a, pabc, n));
            assert(!in_plan(v, a, b, pabc, n));
            assert(!in_plan(v, a, c, pabc, n));
            assert(!in_plan(v, a, a, pacb, n));
            assert(!in_plan(v, a, b, pacb, n));
            assert(!in_plan(v, a, c, pacb, n));
            assert(!in_plan(v, a, c, pab, n)) by {
                assert(pab.insert(c) == pabc);
                assert forall|te: (Seq<char>, RelationEdge)|
                    #[trigger] desc_edges(dc).contains(te) && te.1.behaviour is Cascade
                        implies !in_plan(v, a, (te.0, te.1.key), pabc, n) by {
                    assert(te == (a.0, eca) || te == (b.0, ecb));
                }
                lemma_not_in_plan_step(v, a, c, pab, n);
            }
            assert(!in_plan(v, a, b, pac, n)) by {
                assert(pac.insert(b) == pacb);
                assert forall|te: (Seq<char>, RelationEdge)|
                    #[trigger] desc_edges(db).contains(te) && te.1.behaviour is Cascade
                        implies !in_plan(v, a, (te.0, te.1.key), pacb, n) by {
                    assert(te == (c.0, ebc) || te == (a.0, eba));
                }
                lemma_not_in_plan_step(v, a, b, pac, n);
            }
            assert(!in_plan(v, a, b, pa, n)) by {
                assert(pa.insert(b) == pab);
                assert forall|te: (Seq<char>, RelationEdge)|
                    #[trigger] desc_edges(db).contains(te) && te.1.behaviour is Cascade
                        implies !in_plan(v, a, (te.0, te.1.key), pab, n) by {
                    assert(te == (c.0, ebc) || te == (a.0, eba));
                }
                lemma_not_in_plan_step(v, a, b, pa, n);
            }
            assert(!in_plan(v, a, c, pa, n)) by {
                assert(pa.insert(c) == pac);
                assert forall|te: (Seq<char>, RelationEdge)|
                    #[trigger] desc_edges(dc).contains(te) && te.1.behaviour is Cascade
                        implies !in_plan(v, a, (te.0, te.1.key), pac, n) by {
                    assert(te == (a.0, eca) || te == (b.0, ecb));
                }
                lemma_not_in_plan_step(v, a, c, pa, n);
            }
            assert(!in_plan(v, a, a, p0, n)) by {
                assert(p0.insert(a) == pa);
                assert forall|te: (Seq<char>, RelationEdge)|
                    #[trigger] desc_edges(da).contains(te) && te.1.behaviour is Cascade
                        implies !in_plan(v, a, (te.0, te.1.key), pa, n) by {
                    assert(te == (b.0, eab) || te == (c.0, eac));
                }
                lemma_not_in_plan_step(v, a, a, p0, n);
            }
        }
    }
}


/// The refusal names the constrained keyspace: when `b`'s descriptor holds
/// exactly one edge, an `Error` edge towards a peer other than `b`, and its
/// type declares no sibling or child keyspaces, the only fault planning can
/// reach is an integrity violation whose message is the constrained-related
/// sentence naming that edge's keyspace — so the error that `remove` reports
/// carries exactly that message.
pub proof fn lemma_error_edge_names_keyspace(
    v: SView,
    b: Node,
    db: RelationsView,
    ta: Seq<char>,
    e: RelationEdge,
    kind: ErrorKind,
    t: Seq<char>,
)
    requires
        store_finite(v),
        rel_desc_of(v, b.0, b.1) == Some(db),
        desc_edges(db) == Set::<(Seq<char>, RelationEdge)>::empty().insert((ta, e)),
        e.behaviour is Error,
        (ta, e.key) != b,
        fam_of(v, b.0) matches Some(f0) && f0 matches Some(f) && f.siblings.len() == 0
            && f.children.len() == 0,
        fault_reach(v, b, b, Set::<Node>::empty(), kind, t),
    ensures
        kind == ErrorKind::IntegrityError,
        t == msg_constrained_related(ta),
{
    let path = Set::<Node>::empty();
    let path1 = path.insert(b);
    assert(universe(v, b).contains(b));
    let dd = rel_desc_of(v, b.0, b.1)->Some_0;
    assert(dd == db);
    let f = fam_of(v, b.0)->Some_0->Some_0;
    if exists|te: (Seq<char>, RelationEdge)|
        #[trigger] desc_edges(dd).contains(te) && te.1.behaviour is Cascade && fault_reach(
            v,
            b,
            (te.0, te.1.key),
            path1,
            kind,
            t,
        ) {
        let te = choose|te: (Seq<char>, RelationEdge)|
            #[trigger] desc_edges(dd).contains(te) && te.1.behaviour is Cascade && fault_reach(
                v,
                b,
                (te.0, te.1.key),
                path1,
                kind,
                t,
            );
        assert(te == (ta, e));
        assert(false);
    }
    assert(kind == ErrorKind::IntegrityError && exists|te: (Seq<char>, RelationEdge)|
        #[trigger] desc_edges(dd).contains(te) && t == msg_constrained_related(te.0)
            && te.1.behaviour is Error && !path1.contains((te.0, te.1.key)));
    let te = choose|te: (Seq<char>, RelationEdge)|
        #[trigger] desc_edges(dd).contains(te) && t == msg_constrained_related(te.0)
            && te.1.behaviour is Error && !path1.contains((te.0, te.1.key));
    assert(te == (ta, e));
}

/// A cascade cycle is removed whole and the planning of its removal
/// terminates: for records `a -> b -> c -> a` whose outgoing edges all carry
/// `Cascade` and whose types declare no sibling or child keyspaces, removing
/// `a` is admissible and carries away exactly `a`, `b` and `c`.
pub proof fn lemma_cascade_cycle(
    v: SView,
    a: Node,
    b: Node,
    c: Node,
    ea: RelationEdge,
    eb: RelationEdge,
    ec: RelationEdge,
)
    requires
        store_finite(v),
        a != b && b != c && a != c,
        rel_desc_of(v, a.0, a.1) matches Some(da) && desc_edges(da) == Set::<(
            Seq<char>,
            RelationEdge,
        )>::empty().insert((b.0, ea)),
        rel_desc_of(v, b.0, b.1) matches Some(db) && desc_edges(db) == Set::<(
            Seq<char>,
            RelationEdge,
        )>::empty().insert((c.0, eb)),
        rel_desc_of(v, c.0, c.1) matches Some(dc) && desc_edges(dc) == Set::<(
            Seq<char>,
            RelationEdge,
        )>::empty().insert((a.0, ec)),
        ea.behaviour is Cascade && ea.key == b.1,
        eb.behaviour is Cascade && eb.key == c.1,
        ec.behaviour is Cascade && ec.key == a.1,
        fam_of(v, a.0) matches Some(fa) && fa matches Some(ffa) && ffa.siblings.len() == 0
            && ffa.children.len() == 0,
        fam_of(v, b.0) matches Some(fb) && fb matches Some(ffb) && ffb.siblings.len() == 0
            && ffb.children.len() == 0,
        fam_of(v, c.0) matches Some(fc) && fc matches Some(ffc) && ffc.siblings.len() == 0
            && ffc.children.len() == 0,
    ensures
        chk_ok(v, a, a, Set::<Node>::empty()),
        plan_set(v, a, a, Set::<Node>::empty()) == Set::<Node>::empty().insert(a).insert(
            b,
        ).insert(c),
{
    let da = rel_desc_of(v, a.0, a.1)->Some_0;
    let db = rel_desc_of(v, b.0, b.1)->Some_0;
    let dc = rel_desc_of(v, c.0, c.1)->Some_0;
    lemma_universe_finite(v, a);
    lemma_desc_provenance(v, a.0, a.1, da);
    lemma_desc_provenance(v, b.0, b.1, db);
    lemma_desc_provenance(v, c.0, c.1, dc);
    let p0 = Set::<Node>::empty();
    let p1 = p0.insert(a);
    let p2 = p1.insert(b);
    let p3 = p2.insert(c);
    assert(desc_edges(da).contains((b.0, ea)));
    assert(desc_edges(db).contains((c.0, eb)));
    assert(desc_edges(dc).contains((a.0, ec)));
    assert(universe(v, a).contains(a));
    assert(universe(v, a).contains(b)) by {
        assert(universe(v, a).contains(((b.0, ea).0, (b.0, ea).1.key)));
    }
    assert(universe(v, a).contains(c)) by {
        assert(universe(v, a).contains(((c.0, eb).0, (c.0, eb).1.key)));
    }
    assert(p3.finite() && p3.subset_of(universe(v, a)));
    lemma_len_subset(p3, universe(v, a));

    // admissibility, innermost step first: `a` is already on the path
    assert(chk_ok(v, a, a, p3));
    assert(chk_ok(v, a, c, p2)) by {
        assert forall|te: (Seq<char>, RelationEdge)|
            desc_edges(dc).contains(te) implies edge_ok(v, a, p3, te) by {
            assert(te == (a.0, ec));
            assert(chk_ok(v, a, (a.0, ec.key), p3));
        }
    }
    assert(chk_ok(v, a, b, p1)) by {
        assert forall|te: (Seq<char>, RelationEdge)|
            desc_edges(db).contains(te) implies edge_ok(v, a, p2, te) by {
            assert(te == (c.0, eb));
            assert(chk_ok(v, a, (c.0, eb.key), p2));
        }
    }
    assert(chk_ok(v, a, a, p0)) by {
        assert forall|te: (Seq<char>, RelationEdge)|
            desc_edges(da).contains(te) implies edge_ok(v, a, p1, te) by {
            assert(te == (b.0, ea));
            assert(chk_ok(v, a, (b.0, ea.key), p1));
        }
    }

    // the plan holds the three records
    assert(in_plan(v, a, a, p0, a));
    assert(in_plan(v, a, b, p1, b));
    assert(in_plan(v, a, a, p0, b)) by {
        assert(desc_edges(da).contains((b.0, ea)) && ea.behaviour is Cascade && in_plan(
            v,
            a,
            (b.0, ea.key),
            p1,
            b,
        ));
    }
    assert(in_plan(v, a, c, p2, c));
    assert(in_plan(v, a, b, p1, c)) by {
        assert(desc_edges(db).contains((c.0, eb)) && eb.behaviour is Cascade && in_plan(
            v,
            a,
            (c.0, eb.key),
            p2,
            c,
        ));
    }
    assert(in_plan(v, a, a, p0, c)) by {
        assert(desc_edges(da).contains((b.0, ea)) && ea.behaviour is Cascade && in_plan(
            v,
            a,
            (b.0, ea.key),
            p1,
            c,
        ));
    }

    // and nothing more
    assert forall|n: Node| in_plan(v, a, a, p0, n) implies n == a || n == b || n == c by {
        if n != a {
            assert(in_plan(v, a, b, p1, n));
            if n != b {
                assert(in_plan(v, a, c, p2, n));
                if n != c {
                    assert(in_plan(v, a, a, p3, n));
                    assert(false);
                }
            }
        }
    }
    assert(plan_set(v, a, a, p0) =~= Set::<Node>::empty().insert(a).insert(b).insert(c));
}


/// Auxiliary keyspace names are as distinct as the keyspaces they serve.
pub proof fn lemma_rel_tree_injective(t1: Seq<char>, t2: Seq<char>)
    requires
        rel_tree_spec(t1) == rel_tree_spec(t2),
    ensures
        t1 == t2,
{
    let p = "__$rel_"@;
    assert((p + t1).subrange(p.len() as int, (p + t1).len() as int) =~= t1);
    assert((p + t2).subrange(p.len() as int, (p + t2).len() as int) =~= t2);
}

/// A free relation is created as a mirrored pair and removed as one: from
/// two records with empty descriptors, creating the relation makes each
/// descriptor name the other endpoint, and removing it again leaves both
/// peer lists empty.
#[verifier::rlimit(100)]
pub proof fn lemma_relation_mirror_pair(
    v: SView,
    t1: Seq<char>,
    k1: Seq<u8>,
    t2: Seq<char>,
    k2: Seq<u8>,
    p1: crate::descriptor::DeletionBehaviour,
    p2: crate::descriptor::DeletionBehaviour,
    n: Option<Seq<char>>,
)
    requires
        !(t1 == t2 && k1 == k2),
        rel_desc_of(v, t1, k1) == Some(Seq::<(Seq<char>, Seq<RelationEdge>)>::empty()),
        rel_desc_of(v, t2, k2) == Some(Seq::<(Seq<char>, Seq<RelationEdge>)>::empty()),
        fits_u64(k1.len()),
        fits_u64(k2.len()),
        match n {
            Some(s) => str_bounded(s),
            None => true,
        },
        str_bounded(t1),
        str_bounded(t2),
    ensures
        ({
            let e0 = Seq::<(Seq<char>, Seq<RelationEdge>)>::empty();
            let d1 = er_add(e0, t2, k2, p1, n);
            let d2 = er_add(e0, t1, k1, p2, n);
            &&& link_added(v, t1, k1, t2, k2, p1, n) matches Some(v1) && ({
                &&& link_added(v1, t2, k2, t1, k1, p2, n) matches Some(v2) && ({
                    &&& rel_desc_of(v2, t1, k1) == Some(d1)
                    &&& rel_desc_of(v2, t2, k2) == Some(d2)
                    &&& group_keys(d1, t2).contains(k2)
                    &&& group_keys(d2, t1).contains(k1)
                    &&& link_removed(v2, t1, k1, t2, k2) matches Some(v3) && ({
                        &&& link_removed(v3, t2, k2, t1, k1) matches Some(v4) && ({
                            &&& rel_desc_of(v4, t1, k1) matches Some(d1r) && group_keys(
                                d1r,
                                t2,
                            ) == Seq::<Seq<u8>>::empty()
                            &&& rel_desc_of(v4, t2, k2) matches Some(d2r) && group_keys(
                                d2r,
                                t1,
                            ) == Seq::<Seq<u8>>::empty()
                        })
                    })
                })
            })
        }),
{
    let e0 = Seq::<(Seq<char>, Seq<RelationEdge>)>::empty();
    let edge1 = RelationEdge { key: k2, behaviour: p1, name: n };
    let edge2 = RelationEdge { key: k1, behaviour: p2, name: n };
    let d1 = er_add(e0, t2, k2, p1, n);
    let d2 = er_add(e0, t1, k1, p2, n);
    assert(find_group_from(e0, t2, 0) is None);
    assert(find_group_from(e0, t1, 0) is None);
    assert(d1 == e0.push((t2, seq![edge1])));
    assert(d2 == e0.push((t1, seq![edge2])));
    assert(rel_bounded(d1)) by {
        assert(forall|i: int| 0 <= i < d1.len() ==> #[trigger] d1[i] == (t2, seq![edge1]));
        assert(forall|j: int| 0 <= j < seq![edge1].len() ==> #[trigger] seq![edge1][j] == edge1);
    }
    assert(rel_bounded(d2)) by {
        assert(forall|i: int| 0 <= i < d2.len() ==> #[trigger] d2[i] == (t1, seq![edge2]));
        assert(forall|j: int| 0 <= j < seq![edge2].len() ==> #[trigger] seq![edge2][j] == edge2);
    }
    lemma_relations_roundtrip(d1);
    lemma_relations_roundtrip(d2);

    // distinct descriptor slots: either different auxiliary keyspaces, or
    // the same one at different keys
    let rt1 = rel_tree_spec(t1);
    let rt2 = rel_tree_spec(t2);
    if t1 != t2 {
        if rt1 == rt2 {
            lemma_rel_tree_injective(t1, t2);
            assert(false);
        }
    }

    let v1 = rel_desc_saved(v, t1, k1, d1);
    assert(link_added(v, t1, k1, t2, k2, p1, n) == Some(v1));
    assert(rel_desc_of(v1, t2, k2) == Some(e0)) by {
        if rt1 == rt2 {
            assert(t1 == t2 && k1 != k2);
            assert(tree_of(v1, rt2)[k2] == tree_of(v, rt2)[k2]);
            assert(tree_of(v1, rt2).contains_key(k2) == tree_of(v, rt2).contains_key(k2));
        } else {
            assert(tree_of(v1, rt2) == tree_of(v, rt2));
        }
    }
    let v2 = rel_desc_saved(v1, t2, k2, d2);
    assert(link_added(v1, t2, k2, t1, k1, p2, n) == Some(v2));
    assert(rel_desc_of(v2, t1, k1) == Some(d1)) by {
        if rt1 == rt2 {
            assert(tree_of(v2, rt1)[k1] == tree_of(v1, rt1)[k1]);
            assert(tree_of(v1, rt1).contains_key(k1));
        } else {
            assert(tree_of(v2, rt1) == tree_of(v1, rt1));
        }
        assert(tree_of(v1, rt1)[k1] == crate::codec::enc_relations(d1));
    }
    assert(rel_desc_of(v2, t2, k2) == Some(d2)) by {
        assert(tree_of(v2, rt2)[k2] == crate::codec::enc_relations(d2));
    }
    assert(group_keys(d1, t2).contains(k2)) by {
        assert(find_group_from(d1, t2, 0) == Some(0int));
        assert(d1[0].1.map_values(|e: RelationEdge| e.key)[0] == k2);
    }
    assert(group_keys(d2, t1).contains(k1)) by {
        assert(find_group_from(d2, t1, 0) == Some(0int));
        assert(d2[0].1.map_values(|e: RelationEdge| e.key)[0] == k1);
    }

    // removal: each side's peer list empties again
    let d1r = er_remove_key(d1, t2, k2);
    let d2r = er_remove_key(d2, t1, k1);
    assert(d1r == d1.update(0, (t2, d1[0].1.filter(|e: RelationEdge| e.key != k2))));
    assert(d1[0].1.filter(|e: RelationEdge| e.key != k2) =~= Seq::<RelationEdge>::empty()) by {
        reveal(Seq::<RelationEdge>::filter);
        let p = |e: RelationEdge| e.key != k2;
        assert(d1[0].1.drop_last() =~= Seq::<RelationEdge>::empty());
        assert(Seq::<RelationEdge>::empty().filter(p) =~= Seq::<RelationEdge>::empty());
        assert(d1[0].1.last() == edge1);
        assert(!p(edge1));
    }
    assert(d2r == d2.update(0, (t1, d2[0].1.filter(|e: RelationEdge| e.key != k1))));
    assert(d2[0].1.filter(|e: RelationEdge| e.key != k1) =~= Seq::<RelationEdge>::empty()) by {
        reveal(Seq::<RelationEdge>::filter);
        let p = |e: RelationEdge| e.key != k1;
        assert(d2[0].1.drop_last() =~= Seq::<RelationEdge>::empty());
        assert(Seq::<RelationEdge>::empty().filter(p) =~= Seq::<RelationEdge>::empty());
        assert(d2[0].1.last() == edge2);
        assert(!p(edge2));
    }
    assert(rel_bounded(d1r)) by {
        assert(forall|i: int|
            0 <= i < d1r.len() ==> #[trigger] d1r[i] == (t2, Seq::<RelationEdge>::empty()));
    }
    assert(rel_bounded(d2r)) by {
        assert(forall|i: int|
            0 <= i < d2r.len() ==> #[trigger] d2r[i] == (t1, Seq::<RelationEdge>::empty()));
    }
    lemma_relations_roundtrip(d1r);
    lemma_relations_roundtrip(d2r);

    let v3 = rel_desc_saved(v2, t1, k1, d1r);
    assert(link_removed(v2, t1, k1, t2, k2) == Some(v3));
    assert(rel_desc_of(v3, t2, k2) == Some(d2)) by {
        if rt1 == rt2 {
            assert(tree_of(v3, rt2)[k2] == tree_of(v2, rt2)[k2]);
            assert(tree_of(v2, rt2).contains_key(k2));
        } else {
            assert(tree_of(v3, rt2) == tree_of(v2, rt2));
        }
    }
    let v4 = rel_desc_saved(v3, t2, k2, d2r);
    assert(link_removed(v3, t2, k2, t1, k1) == Some(v4));
    assert(rel_desc_of(v4, t1, k1) == Some(d1r)) by {
        if rt1 == rt2 {
            assert(tree_of(v4, rt1)[k1] == tree_of(v3, rt1)[k1]);
            assert(tree_of(v3, rt1).contains_key(k1));
        } else {
            assert(tree_of(v4, rt1) == tree_of(v3, rt1));
        }
        assert(tree_of(v3, rt1)[k1] == crate::codec::enc_relations(d1r));
    }
    assert(rel_desc_of(v4, t2, k2) == Some(d2r)) by {
        assert(tree_of(v4, rt2)[k2] == crate::codec::enc_relations(d2r));
    }
    assert(group_keys(d1r, t2) =~= Seq::<Seq<u8>>::empty()) by {
        assert(find_group_from(d1r, t2, 0) == Some(0int));
    }
    assert(group_keys(d2r, t1) =~= Seq::<Seq<u8>>::empty()) by {
        assert(find_group_from(d2r, t1, 0) == Some(0int));
    }
}


/// The index of the last record of `rs` stored under key bytes `k`, or a
/// negative number when none is.
pub open spec fn last_with_key<E: Entity>(rs: Seq<E>, k: Seq<u8>) -> int
    decreases rs.len(),
{
    if rs.len() == 0 {
        -1
    } else if rs.last().key_spec().bytes_spec() == k {
        rs.len() - 1
    } else {
        last_with_key(rs.drop_last(), k)
    }
}

/// Importing a record list is a last-write-wins fold on its keyspace: a key
/// carried by some record ends up holding the encoding of the last record
/// with that key; every other key keeps what the target keyspace held.
/// Imported into an empty keyspace and listed back with `get_all`, the
/// keyspace is therefore, as a set of records, exactly the last-write-wins
/// fold of the imported list — the import/export round trip.
pub proof fn lemma_import_effect<E: Entity>(
    v: Map<Seq<char>, Map<Seq<u8>, Seq<u8>>>,
    rs: Seq<E>,
    k: Seq<u8>,
)
    ensures
        last_with_key(rs, k) < rs.len(),
        tree_of(saved_all(v, rs, 0), E::name_spec()).contains_key(k) <==> (last_with_key(rs, k)
            >= 0 || tree_of(v, E::name_spec()).contains_key(k)),
        last_with_key(rs, k) >= 0 ==> tree_of(saved_all(v, rs, 0), E::name_spec())[k]
            == rs[last_with_key(rs, k)].rec_enc(),
        last_with_key(rs, k) < 0 && tree_of(v, E::name_spec()).contains_key(k) ==> tree_of(
            saved_all(v, rs, 0),
            E::name_spec(),
        )[k] == tree_of(v, E::name_spec())[k],
    decreases rs.len(),
{
    if rs.len() == 0 {
        assert(saved_all(v, rs, 0) == v);
    } else {
        let front = rs.drop_last();
        let m = rs.last();
        lemma_import_effect::<E>(v, front, k);
        lemma_saved_all_snoc::<E>(v, front, m);
        assert(front.push(m) =~= rs);
        let vmid = saved_all(v, front, 0);
        assert(saved_all(v, rs, 0) == vmid.insert(
            E::name_spec(),
            tree_of(vmid, E::name_spec()).insert(m.key_spec().bytes_spec(), m.rec_enc()),
        ));
        if m.key_spec().bytes_spec() == k {
            assert(last_with_key(rs, k) == rs.len() - 1);
            assert(rs[rs.len() - 1] == m);
        } else {
            assert(last_with_key(rs, k) == last_with_key(front, k));
            if last_with_key(front, k) >= 0 {
                assert(rs[last_with_key(rs, k)] == front[last_with_key(front, k)]);
            }
        }
    }
}


/// A shared prefix preserves the order of what follows it.
pub proof fn lemma_lex_lt_prefix(p: Seq<u8>, x: Seq<u8>, y: Seq<u8>)
    requires
        lex_lt(x, y),
    ensures
        lex_lt(p + x, p + y),
    decreases p.len(),
{
    if p.len() == 0 {
        assert(p + x =~= x);
        assert(p + y =~= y);
    } else {
        lemma_lex_lt_prefix(p.drop_first(), x, y);
        assert((p + x).drop_first() =~= p.drop_first() + x);
        assert((p + y).drop_first() =~= p.drop_first() + y);
        assert((p + x)[0] == p[0] && (p + y)[0] == p[0]);
        assert((p + x).len() > 0 && (p + y).len() > 0);
    }
}

/// After two child saves into an empty child keyspace, listing the parent's
/// children returns exactly the records under `(parent, 0)` then
/// `(parent, 1)`, in that order: the sorted prefixed listing of the
/// keyspace is pinned.
pub proof fn lemma_two_children_listing(
    tree: Map<Seq<u8>, Seq<u8>>,
    pb: Seq<u8>,
    v0b: Seq<u8>,
    v1b: Seq<u8>,
    es: Seq<(Seq<u8>, Seq<u8>)>,
)
    requires
        forall|k: Seq<u8>| #[trigger]
            tree.contains_key(k) <==> (k == pb + be32(0) || k == pb + be32(1)),
        tree[pb + be32(0)] == v0b,
        tree[pb + be32(1)] == v1b,
        sorted_filtered_entries(tree, prefix_pred(pb), es),
    ensures
        es == seq![(pb + be32(0), v0b), (pb + be32(1), v1b)],
{
    let w = seq![(pb + be32(0), v0b), (pb + be32(1), v1b)];
    assert(sorted_filtered_entries(tree, prefix_pred(pb), w)) by {
        assert(has_prefix(pb + be32(0), pb)) by {
            assert((pb + be32(0)).subrange(0, pb.len() as int) =~= pb);
        }
        assert(has_prefix(pb + be32(1), pb)) by {
            assert((pb + be32(1)).subrange(0, pb.len() as int) =~= pb);
        }
        assert(tree.contains_key(pb + be32(0)) && tree.contains_key(pb + be32(1)));
        assert(lex_lt(pb + be32(0), pb + be32(1))) by {
            lemma_be32_order(0, 1);
            lemma_lex_lt_prefix(pb, be32(0), be32(1));
        }
        assert forall|k: Seq<u8>| #[trigger] tree.contains_key(k) && prefix_pred(pb)(
            k,
        ) implies exists|i: int| 0 <= i < w.len() && (#[trigger] w[i]).0 == k by {
            if k == pb + be32(0) {
                assert(w[0].0 == k);
            } else {
                assert(w[1].0 == k);
            }
        }
    }
    lemma_sorted_entries_unique(tree, prefix_pred(pb), es, w);
}

} // verus!
