use vstd::prelude::*;
use vstd::utf8::decode_utf8;
use vstd::utf8::encode_utf8;
use vstd::utf8::valid_utf8;

use vstd::slice::slice_subrange;
use vstd::slice::slice_to_vec;
use vstd::string::StrSliceExecFns;

use crate::bytes::be64;
use crate::bytes::be64_val;
use crate::bytes::lemma_be64_roundtrip;
use crate::bytes::push_u64_be;
use crate::bytes::read_u64_be;
use crate::descriptor::EntityRelations;
use crate::descriptor::FamilyDescriptor;
use crate::descriptor::RelationDescriptor;
use crate::descriptor::DeletionBehaviour;
use crate::descriptor::FamilyView;
use crate::descriptor::RelationEdge;
use crate::descriptor::RelationsView;

verus! {

// ---------------------------------------------------------------------------
// The binary codec for descriptors.
//
// Descriptors are persisted in a deterministic, length-prefixed binary form:
// byte strings carry their length as eight big-endian bytes; strings are
// their UTF-8 bytes as a byte string; lists carry their element count and
// then the elements; a deletion behaviour is one byte; an optional name is a
// presence byte followed by the name. Decoding rejects anything the encoder
// cannot produce, and consumes the whole input.
// ---------------------------------------------------------------------------

pub open spec fn enc_bytes(s: Seq<u8>) -> Seq<u8> {
    be64(s.len() as u64) + s
}

pub open spec fn enc_str(s: Seq<char>) -> Seq<u8> {
    enc_bytes(encode_utf8(s))
}

pub open spec fn policy_byte(b: DeletionBehaviour) -> u8 {
    match b {
        DeletionBehaviour::Error => 0,
        DeletionBehaviour::BreakLink => 1,
        DeletionBehaviour::Cascade => 2,
    }
}

pub open spec fn enc_opt_str(n: Option<Seq<char>>) -> Seq<u8> {
    match n {
        None => seq![0u8],
        Some(s) => seq![1u8] + enc_str(s),
    }
}

pub open spec fn enc_edge(e: RelationEdge) -> Seq<u8> {
    enc_bytes(e.key) + seq![policy_byte(e.behaviour)] + enc_opt_str(e.name)
}

pub open spec fn enc_edges(g: Seq<RelationEdge>) -> Seq<u8>
    decreases g.len(),
{
    if g.len() == 0 {
        Seq::empty()
    } else {
        enc_edge(g[0]) + enc_edges(g.drop_first())
    }
}

pub open spec fn enc_group(t: Seq<char>, g: Seq<RelationEdge>) -> Seq<u8> {
    enc_str(t) + be64(g.len() as u64) + enc_edges(g)
}

pub open spec fn enc_groups(v: RelationsView) -> Seq<u8>
    decreases v.len(),
{
    if v.len() == 0 {
        Seq::empty()
    } else {
        enc_group(v[0].0, v[0].1) + enc_groups(v.drop_first())
    }
}

/// The stored form of a relation descriptor.
pub open spec fn enc_relations(v: RelationsView) -> Seq<u8> {
    be64(v.len() as u64) + enc_groups(v)
}

pub open spec fn enc_tree_pair(p: (Seq<char>, DeletionBehaviour)) -> Seq<u8> {
    enc_str(p.0) + seq![policy_byte(p.1)]
}

pub open spec fn enc_tree_list(l: Seq<(Seq<char>, DeletionBehaviour)>) -> Seq<u8>
    decreases l.len(),
{
    if l.len() == 0 {
        Seq::empty()
    } else {
        enc_tree_pair(l[0]) + enc_tree_list(l.drop_first())
    }
}

/// The stored form of a family descriptor.
pub open spec fn enc_family(f: FamilyView) -> Seq<u8> {
    enc_str(f.name) + be64(f.siblings.len() as u64) + enc_tree_list(f.siblings) + be64(
        f.children.len() as u64,
    ) + enc_tree_list(f.children)
}

// ---------------------------------------------------------------------------
// Boundedness: what must hold of a value for its encoding to decode back.
// Every value that fits in memory satisfies it; only spec-level reasoning
// needs it spelled out.
// ---------------------------------------------------------------------------

pub open spec fn fits_u64(n: nat) -> bool {
    n < 0x1_0000_0000_0000_0000
}

pub open spec fn str_bounded(s: Seq<char>) -> bool {
    fits_u64(encode_utf8(s).len())
}

pub open spec fn edge_bounded(e: RelationEdge) -> bool {
    &&& fits_u64(e.key.len())
    &&& match e.name {
        Some(s) => str_bounded(s),
        None => true,
    }
}

pub open spec fn rel_bounded(v: RelationsView) -> bool {
    &&& fits_u64(v.len())
    &&& forall|i: int|
        0 <= i < v.len() ==> str_bounded((#[trigger] v[i]).0) && fits_u64(v[i].1.len()) && forall|
            j: int,
        | 0 <= j < v[i].1.len() ==> edge_bounded(#[trigger] v[i].1[j])
}

pub open spec fn tree_list_bounded(l: Seq<(Seq<char>, DeletionBehaviour)>) -> bool {
    forall|i: int| 0 <= i < l.len() ==> str_bounded((#[trigger] l[i]).0)
}

pub open spec fn fam_bounded(f: FamilyView) -> bool {
    &&& str_bounded(f.name)
    &&& fits_u64(f.siblings.len()) && tree_list_bounded(f.siblings)
    &&& fits_u64(f.children.len()) && tree_list_bounded(f.children)
}

// ---------------------------------------------------------------------------
// Decoders. Each reads at a position and yields the value with the position
// after it, or nothing.
// ---------------------------------------------------------------------------

pub open spec fn dec_u64_at(b: Seq<u8>, i: int) -> Option<(u64, int)> {
    if 0 <= i && i + 8 <= b.len() {
        Some((be64_val(b.subrange(i, i + 8)), i + 8))
    } else {
        None
    }
}

pub open spec fn dec_bytes_at(b: Seq<u8>, i: int) -> Option<(Seq<u8>, int)> {
    match dec_u64_at(b, i) {
        None => None,
        Some((n, j)) => if j + n <= b.len() {
            Some((b.subrange(j, j + n), j + n))
        } else {
            None
        },
    }
}

pub open spec fn dec_str_at(b: Seq<u8>, i: int) -> Option<(Seq<char>, int)> {
    match dec_bytes_at(b, i) {
        None => None,
        Some((bs, j)) => if valid_utf8(bs) {
            Some((decode_utf8(bs), j))
        } else {
            None
        },
    }
}

pub open spec fn dec_policy_at(b: Seq<u8>, i: int) -> Option<(DeletionBehaviour, int)> {
    if 0 <= i && i < b.len() {
        if b[i] == 0 {
            Some((DeletionBehaviour::Error, i + 1))
        } else if b[i] == 1 {
            Some((DeletionBehaviour::BreakLink, i + 1))
        } else if b[i] == 2 {
            Some((DeletionBehaviour::Cascade, i + 1))
        } else {
            None
        }
    } else {
        None
    }
}

pub open spec fn dec_opt_str_at(b: Seq<u8>, i: int) -> Option<(Option<Seq<char>>, int)> {
    if 0 <= i && i < b.len() {
        if b[i] == 0 {
            Some((None, i + 1))
        } else if b[i] == 1 {
            match dec_str_at(b, i + 1) {
                None => None,
                Some((s, j)) => Some((Some(s), j)),
            }
        } else {
            None
        }
    } else {
        None
    }
}

pub open spec fn dec_edge_at(b: Seq<u8>, i: int) -> Option<(RelationEdge, int)> {
    match dec_bytes_at(b, i) {
        None => None,
        Some((k, j)) => match dec_policy_at(b, j) {
            None => None,
            Some((p, j2)) => match dec_opt_str_at(b, j2) {
                None => None,
                Some((n, j3)) => Some((RelationEdge { key: k, behaviour: p, name: n }, j3)),
            },
        },
    }
}

pub open spec fn dec_edges_at(b: Seq<u8>, i: int, n: u64) -> Option<(Seq<RelationEdge>, int)>
    decreases n,
{
    if n == 0 {
        Some((Seq::empty(), i))
    } else {
        match dec_edge_at(b, i) {
            None => None,
            Some((e, j)) => match dec_edges_at(b, j, (n - 1) as u64) {
                None => None,
                Some((rest, k)) => Some((seq![e] + rest, k)),
            },
        }
    }
}

pub open spec fn dec_group_at(b: Seq<u8>, i: int) -> Option<((Seq<char>, Seq<RelationEdge>), int)> {
    match dec_str_at(b, i) {
        None => None,
        Some((t, j)) => match dec_u64_at(b, j) {
            None => None,
            Some((n, j2)) => match dec_edges_at(b, j2, n) {
                None => None,
                Some((g, j3)) => Some(((t, g), j3)),
            },
        },
    }
}

pub open spec fn dec_groups_at(b: Seq<u8>, i: int, n: u64) -> Option<(RelationsView, int)>
    decreases n,
{
    if n == 0 {
        Some((Seq::empty(), i))
    } else {
        match dec_group_at(b, i) {
            None => None,
            Some((g, j)) => match dec_groups_at(b, j, (n - 1) as u64) {
                None => None,
                Some((rest, k)) => Some((seq![g] + rest, k)),
            },
        }
    }
}

/// The relation descriptor stored as `b`, if `b` is a whole stored
/// descriptor.
pub open spec fn dec_relations(b: Seq<u8>) -> Option<RelationsView> {
    match dec_u64_at(b, 0) {
        None => None,
        Some((n, j)) => match dec_groups_at(b, j, n) {
            None => None,
            Some((v, k)) => if k == b.len() {
                Some(v)
            } else {
                None
            },
        },
    }
}

pub open spec fn dec_tree_pair_at(b: Seq<u8>, i: int) -> Option<
    ((Seq<char>, DeletionBehaviour), int),
> {
    match dec_str_at(b, i) {
        None => None,
        Some((t, j)) => match dec_policy_at(b, j) {
            None => None,
            Some((p, j2)) => Some(((t, p), j2)),
        },
    }
}

pub open spec fn dec_tree_list_at(b: Seq<u8>, i: int, n: u64) -> Option<
    (Seq<(Seq<char>, DeletionBehaviour)>, int),
>
    decreases n,
{
    if n == 0 {
        Some((Seq::empty(), i))
    } else {
        match dec_tree_pair_at(b, i) {
            None => None,
            Some((p, j)) => match dec_tree_list_at(b, j, (n - 1) as u64) {
                None => None,
                Some((rest, k)) => Some((seq![p] + rest, k)),
            },
        }
    }
}

/// The family descriptor stored as `b`, if `b` is a whole stored descriptor.
pub open spec fn dec_family(b: Seq<u8>) -> Option<FamilyView> {
    match dec_str_at(b, 0) {
        None => None,
        Some((name, i)) => match dec_u64_at(b, i) {
            None => None,
            Some((ns, j)) => match dec_tree_list_at(b, j, ns) {
                None => None,
                Some((sibs, j2)) => match dec_u64_at(b, j2) {
                    None => None,
                    Some((nc, j3)) => match dec_tree_list_at(b, j3, nc) {
                        None => None,
                        Some((chs, j4)) => if j4 == b.len() {
                            Some(FamilyView { name, siblings: sibs, children: chs })
                        } else {
                            None
                        },
                    },
                },
            },
        },
    }
}

// ---------------------------------------------------------------------------
// Round trip: decoding reads back exactly what the encoder wrote, at any
// position of any enclosing byte string.
// ---------------------------------------------------------------------------

pub proof fn lemma_dec_u64_frame(b: Seq<u8>, i: int, x: u64)
    requires
        0 <= i,
        i + 8 <= b.len(),
        b.subrange(i, i + 8) == be64(x),
    ensures
        dec_u64_at(b, i) == Some((x, i + 8)),
{
    lemma_be64_roundtrip(x);
}

pub proof fn lemma_dec_bytes_frame(b: Seq<u8>, i: int, s: Seq<u8>)
    requires
        0 <= i,
        fits_u64(s.len()),
        i + 8 + s.len() <= b.len(),
        b.subrange(i, i + 8 + s.len()) == enc_bytes(s),
    ensures
        dec_bytes_at(b, i) == Some((s, i + 8 + s.len())),
{
    let whole = b.subrange(i, i + 8 + s.len());
    assert(b.subrange(i, i + 8) =~= whole.subrange(0, 8));
    assert(whole.subrange(0, 8) =~= be64(s.len() as u64));
    lemma_dec_u64_frame(b, i, s.len() as u64);
    assert(b.subrange(i + 8, i + 8 + s.len()) =~= whole.subrange(8, 8 + s.len() as int));
    assert(whole.subrange(8, 8 + s.len() as int) =~= s);
}

pub proof fn lemma_dec_str_frame(b: Seq<u8>, i: int, s: Seq<char>)
    requires
        0 <= i,
        str_bounded(s),
        i + enc_str(s).len() <= b.len(),
        b.subrange(i, i + enc_str(s).len()) == enc_str(s),
    ensures
        dec_str_at(b, i) == Some((s, i + enc_str(s).len())),
{
    broadcast use vstd::utf8::group_utf8_lib;

    lemma_dec_bytes_frame(b, i, encode_utf8(s));
    assert(valid_utf8(encode_utf8(s)));
    assert(decode_utf8(encode_utf8(s)) == s);
}

pub proof fn lemma_dec_policy_frame(b: Seq<u8>, i: int, p: DeletionBehaviour)
    requires
        0 <= i,
        i < b.len(),
        b[i] == policy_byte(p),
    ensures
        dec_policy_at(b, i) == Some((p, i + 1)),
{
}

pub proof fn lemma_dec_opt_str_frame(b: Seq<u8>, i: int, n: Option<Seq<char>>)
    requires
        0 <= i,
        match n {
            Some(s) => str_bounded(s),
            None => true,
        },
        i + enc_opt_str(n).len() <= b.len(),
        b.subrange(i, i + enc_opt_str(n).len()) == enc_opt_str(n),
    ensures
        dec_opt_str_at(b, i) == Some((n, i + enc_opt_str(n).len())),
{
    let e = enc_opt_str(n);
    assert(b[i] == e[0]);
    match n {
        None => {
        },
        Some(s) => {
            assert(b.subrange(i + 1, i + 1 + enc_str(s).len()) =~= e.subrange(
                1,
                1 + enc_str(s).len() as int,
            ));
            assert(e.subrange(1, 1 + enc_str(s).len() as int) =~= enc_str(s));
            lemma_dec_str_frame(b, i + 1, s);
        },
    }
}

pub proof fn lemma_dec_edge_frame(b: Seq<u8>, i: int, e: RelationEdge)
    requires
        0 <= i,
        edge_bounded(e),
        i + enc_edge(e).len() <= b.len(),
        b.subrange(i, i + enc_edge(e).len()) == enc_edge(e),
    ensures
        dec_edge_at(b, i) == Some((e, i + enc_edge(e).len())),
{
    let whole = enc_edge(e);
    let l1 = enc_bytes(e.key).len() as int;
    let l2 = 1int;
    let l3 = enc_opt_str(e.name).len() as int;
    assert(b.subrange(i, i + l1) =~= whole.subrange(0, l1));
    assert(whole.subrange(0, l1) =~= enc_bytes(e.key));
    lemma_dec_bytes_frame(b, i, e.key);
    assert(b[i + l1] == whole[l1]);
    assert(whole[l1] == policy_byte(e.behaviour));
    lemma_dec_policy_frame(b, i + l1, e.behaviour);
    assert(b.subrange(i + l1 + 1, i + l1 + 1 + l3) =~= whole.subrange(l1 + 1, l1 + 1 + l3));
    assert(whole.subrange(l1 + 1, l1 + 1 + l3) =~= enc_opt_str(e.name));
    lemma_dec_opt_str_frame(b, i + l1 + 1, e.name);
}

pub proof fn lemma_dec_edges_frame(b: Seq<u8>, i: int, g: Seq<RelationEdge>)
    requires
        0 <= i,
        fits_u64(g.len()),
        forall|j: int| 0 <= j < g.len() ==> edge_bounded(#[trigger] g[j]),
        i + enc_edges(g).len() <= b.len(),
        b.subrange(i, i + enc_edges(g).len()) == enc_edges(g),
    ensures
        dec_edges_at(b, i, g.len() as u64) == Some((g, i + enc_edges(g).len())),
    decreases g.len(),
{
    if g.len() == 0 {
        assert(g =~= Seq::<RelationEdge>::empty());
    } else {
        let whole = enc_edges(g);
        let l1 = enc_edge(g[0]).len() as int;
        let rest = enc_edges(g.drop_first());
        assert(b.subrange(i, i + l1) =~= whole.subrange(0, l1));
        assert(whole.subrange(0, l1) =~= enc_edge(g[0]));
        lemma_dec_edge_frame(b, i, g[0]);
        assert(b.subrange(i + l1, i + l1 + rest.len() as int) =~= whole.subrange(l1, l1 + rest.len() as int));
        assert(whole.subrange(l1, l1 + rest.len() as int) =~= rest);
        lemma_dec_edges_frame(b, i + l1, g.drop_first());
        assert(seq![g[0]] + g.drop_first() =~= g);
    }
}

pub proof fn lemma_dec_group_frame(b: Seq<u8>, i: int, t: Seq<char>, g: Seq<RelationEdge>)
    requires
        0 <= i,
        str_bounded(t),
        fits_u64(g.len()),
        forall|j: int| 0 <= j < g.len() ==> edge_bounded(#[trigger] g[j]),
        i + enc_group(t, g).len() <= b.len(),
        b.subrange(i, i + enc_group(t, g).len()) == enc_group(t, g),
    ensures
        dec_group_at(b, i) == Some(((t, g), i + enc_group(t, g).len())),
{
    let whole = enc_group(t, g);
    let l1 = enc_str(t).len() as int;
    let l3 = enc_edges(g).len() as int;
    assert(b.subrange(i, i + l1) =~= whole.subrange(0, l1));
    assert(whole.subrange(0, l1) =~= enc_str(t));
    lemma_dec_str_frame(b, i, t);
    assert(b.subrange(i + l1, i + l1 + 8) =~= whole.subrange(l1, l1 + 8));
    assert(whole.subrange(l1, l1 + 8) =~= be64(g.len() as u64));
    lemma_dec_u64_frame(b, i + l1, g.len() as u64);
    assert(b.subrange(i + l1 + 8, i + l1 + 8 + l3) =~= whole.subrange(l1 + 8, l1 + 8 + l3));
    assert(whole.subrange(l1 + 8, l1 + 8 + l3) =~= enc_edges(g));
    lemma_dec_edges_frame(b, i + l1 + 8, g);
}

pub proof fn lemma_dec_groups_frame(b: Seq<u8>, i: int, v: RelationsView)
    requires
        0 <= i,
        rel_bounded(v),
        i + enc_groups(v).len() <= b.len(),
        b.subrange(i, i + enc_groups(v).len()) == enc_groups(v),
    ensures
        dec_groups_at(b, i, v.len() as u64) == Some((v, i + enc_groups(v).len())),
    decreases v.len(),
{
    if v.len() == 0 {
        assert(v =~= Seq::<(Seq<char>, Seq<RelationEdge>)>::empty());
    } else {
        let whole = enc_groups(v);
        let l1 = enc_group(v[0].0, v[0].1).len() as int;
        let rest = enc_groups(v.drop_first());
        assert(b.subrange(i, i + l1) =~= whole.subrange(0, l1));
        assert(whole.subrange(0, l1) =~= enc_group(v[0].0, v[0].1));
        lemma_dec_group_frame(b, i, v[0].0, v[0].1);
        assert(b.subrange(i + l1, i + l1 + rest.len() as int) =~= whole.subrange(l1, l1 + rest.len() as int));
        assert(whole.subrange(l1, l1 + rest.len() as int) =~= rest);
        assert(rel_bounded(v.drop_first())) by {
            assert(forall|m: int|
                0 <= m < v.drop_first().len() ==> #[trigger] v.drop_first()[m] == v[m + 1]);
        }
        lemma_dec_groups_frame(b, i + l1, v.drop_first());
        assert((v.drop_first().len() as u64) == (v.len() as u64 - 1) as u64);
        assert(seq![(v[0].0, v[0].1)] + v.drop_first() =~= v);
    }
}

/// Decoding a stored relation descriptor reads back the descriptor.
pub proof fn lemma_relations_roundtrip(v: RelationsView)
    requires
        rel_bounded(v),
    ensures
        dec_relations(enc_relations(v)) == Some(v),
{
    let b = enc_relations(v);
    assert(b.subrange(0, 8) =~= be64(v.len() as u64));
    lemma_dec_u64_frame(b, 0, v.len() as u64);
    assert(b.subrange(8, 8 + enc_groups(v).len() as int) =~= enc_groups(v));
    lemma_dec_groups_frame(b, 8, v);
}

pub proof fn lemma_dec_tree_pair_frame(b: Seq<u8>, i: int, p: (Seq<char>, DeletionBehaviour))
    requires
        0 <= i,
        str_bounded(p.0),
        i + enc_tree_pair(p).len() <= b.len(),
        b.subrange(i, i + enc_tree_pair(p).len()) == enc_tree_pair(p),
    ensures
        dec_tree_pair_at(b, i) == Some((p, i + enc_tree_pair(p).len())),
{
    let whole = enc_tree_pair(p);
    let l1 = enc_str(p.0).len() as int;
    assert(b.subrange(i, i + l1) =~= whole.subrange(0, l1));
    assert(whole.subrange(0, l1) =~= enc_str(p.0));
    lemma_dec_str_frame(b, i, p.0);
    assert(b[i + l1] == whole[l1]);
    assert(whole[l1] == policy_byte(p.1));
    lemma_dec_policy_frame(b, i + l1, p.1);
    assert((p.0, p.1) == p);
}

pub proof fn lemma_dec_tree_list_frame(b: Seq<u8>, i: int, l: Seq<(Seq<char>, DeletionBehaviour)>)
    requires
        0 <= i,
        fits_u64(l.len()),
        tree_list_bounded(l),
        i + enc_tree_list(l).len() <= b.len(),
        b.subrange(i, i + enc_tree_list(l).len()) == enc_tree_list(l),
    ensures
        dec_tree_list_at(b, i, l.len() as u64) == Some((l, i + enc_tree_list(l).len())),
    decreases l.len(),
{
    if l.len() == 0 {
        assert(l =~= Seq::<(Seq<char>, DeletionBehaviour)>::empty());
    } else {
        let whole = enc_tree_list(l);
        let l1 = enc_tree_pair(l[0]).len() as int;
        let rest = enc_tree_list(l.drop_first());
        assert(b.subrange(i, i + l1) =~= whole.subrange(0, l1));
        assert(whole.subrange(0, l1) =~= enc_tree_pair(l[0]));
        lemma_dec_tree_pair_frame(b, i, l[0]);
        assert(b.subrange(i + l1, i + l1 + rest.len() as int) =~= whole.subrange(l1, l1 + rest.len() as int));
        assert(whole.subrange(l1, l1 + rest.len() as int) =~= rest);
        assert(tree_list_bounded(l.drop_first())) by {
            assert(forall|m: int|
                0 <= m < l.drop_first().len() ==> #[trigger] l.drop_first()[m] == l[m + 1]);
        }
        lemma_dec_tree_list_frame(b, i + l1, l.drop_first());
        assert(seq![l[0]] + l.drop_first() =~= l);
    }
}

/// Decoding a stored family descriptor reads back the descriptor.
pub proof fn lemma_family_roundtrip(f: FamilyView)
    requires
        fam_bounded(f),
    ensures
        dec_family(enc_family(f)) == Some(f),
{
    let b = enc_family(f);
    let l1 = enc_str(f.name).len() as int;
    let l2 = enc_tree_list(f.siblings).len() as int;
    let l3 = enc_tree_list(f.children).len() as int;
    assert(b.subrange(0, l1) =~= enc_str(f.name));
    lemma_dec_str_frame(b, 0, f.name);
    assert(b.subrange(l1, l1 + 8) =~= be64(f.siblings.len() as u64));
    lemma_dec_u64_frame(b, l1, f.siblings.len() as u64);
    assert(b.subrange(l1 + 8, l1 + 8 + l2) =~= enc_tree_list(f.siblings));
    lemma_dec_tree_list_frame(b, l1 + 8, f.siblings);
    assert(b.subrange(l1 + 8 + l2, l1 + 8 + l2 + 8) =~= be64(f.children.len() as u64));
    lemma_dec_u64_frame(b, l1 + 8 + l2, f.children.len() as u64);
    assert(b.subrange(l1 + 8 + l2 + 8, l1 + 8 + l2 + 8 + l3) =~= enc_tree_list(f.children));
    lemma_dec_tree_list_frame(b, l1 + 8 + l2 + 8, f.children);
    assert(dec_family(b) == Some(FamilyView { name: f.name, siblings: f.siblings, children: f.children }));
    assert(FamilyView { name: f.name, siblings: f.siblings, children: f.children } == f);
}


// ---------------------------------------------------------------------------
// Executable encoders.
// ---------------------------------------------------------------------------

/// Appends the bytes of `s` to `out`.
pub(crate) fn push_slice(out: &mut Vec<u8>, s: &[u8])
    ensures
        final(out)@ == old(out)@ + s@,
{
    let mut i: usize = 0;
    while i < s.len()
        invariant
            0 <= i <= s@.len(),
            out@ == old(out)@ + s@.subrange(0, i as int),
        decreases s@.len() - i,
    {
        out.push(s[i]);
        assert(out@ =~= old(out)@ + s@.subrange(0, i + 1));
        i = i + 1;
    }
    assert(out@ =~= old(out)@ + s@);
}

/// Appends a length-prefixed byte string to `out`.
fn push_chunk(out: &mut Vec<u8>, s: &[u8])
    ensures
        final(out)@ == old(out)@ + enc_bytes(s@),
{
    push_u64_be(out, s.len() as u64);
    push_slice(out, s);
    assert(out@ =~= old(out)@ + enc_bytes(s@));
}

/// Appends a length-prefixed string to `out`.
pub(crate) fn push_string_chunk(out: &mut Vec<u8>, s: &str)
    ensures
        final(out)@ == old(out)@ + enc_str(s@),
{
    let bs = s.as_bytes_vec();
    push_chunk(out, bs.as_slice());
}

/// Appends a deletion behaviour to `out`.
fn push_policy(out: &mut Vec<u8>, b: DeletionBehaviour)
    ensures
        final(out)@ == old(out)@ + seq![policy_byte(b)],
{
    match b {
        DeletionBehaviour::Error => out.push(0u8),
        DeletionBehaviour::BreakLink => out.push(1u8),
        DeletionBehaviour::Cascade => out.push(2u8),
    }
    assert(out@ =~= old(out)@ + seq![policy_byte(b)]);
}

/// Appends an optional name to `out`.
fn push_opt_name(out: &mut Vec<u8>, n: &Option<String>)
    ensures
        final(out)@ == old(out)@ + enc_opt_str(
            match n {
                Some(s) => Some(s@),
                None => None,
            },
        ),
{
    match n {
        None => {
            out.push(0u8);
            assert(out@ =~= old(out)@ + seq![0u8]);
        },
        Some(s) => {
            out.push(1u8);
            assert(out@ =~= old(out)@ + seq![1u8]);
            push_string_chunk(out, s.as_str());
            assert(out@ =~= old(out)@ + (seq![1u8] + enc_str(s@)));
        },
    }
}

proof fn lemma_enc_edges_snoc(g: Seq<RelationEdge>, e: RelationEdge)
    ensures
        enc_edges(g.push(e)) == enc_edges(g) + enc_edge(e),
    decreases g.len(),
{
    if g.len() == 0 {
        assert(g.push(e).drop_first() =~= Seq::<RelationEdge>::empty());
        assert(g.push(e)[0] == e);
        assert(enc_edges(Seq::<RelationEdge>::empty()) == Seq::<u8>::empty());
        assert(enc_edges(g.push(e)) =~= enc_edges(g) + enc_edge(e));
    } else {
        assert(g.push(e).drop_first() =~= g.drop_first().push(e));
        lemma_enc_edges_snoc(g.drop_first(), e);
        assert(enc_edges(g.push(e)) =~= enc_edges(g) + enc_edge(e));
    }
}

proof fn lemma_enc_groups_snoc(v: RelationsView, g: (Seq<char>, Seq<RelationEdge>))
    ensures
        enc_groups(v.push(g)) == enc_groups(v) + enc_group(g.0, g.1),
    decreases v.len(),
{
    if v.len() == 0 {
        assert(v.push(g).drop_first() =~= Seq::<(Seq<char>, Seq<RelationEdge>)>::empty());
        assert(v.push(g)[0] == g);
        assert(enc_groups(Seq::<(Seq<char>, Seq<RelationEdge>)>::empty()) == Seq::<u8>::empty());
        assert(enc_groups(v.push(g)) =~= enc_groups(v) + enc_group(g.0, g.1));
    } else {
        assert(v.push(g).drop_first() =~= v.drop_first().push(g));
        lemma_enc_groups_snoc(v.drop_first(), g);
        assert(enc_groups(v.push(g)) =~= enc_groups(v) + enc_group(g.0, g.1));
    }
}

proof fn lemma_enc_tree_list_snoc(l: Seq<(Seq<char>, DeletionBehaviour)>, p: (Seq<char>, DeletionBehaviour))
    ensures
        enc_tree_list(l.push(p)) == enc_tree_list(l) + enc_tree_pair(p),
    decreases l.len(),
{
    if l.len() == 0 {
        assert(l.push(p).drop_first() =~= Seq::<(Seq<char>, DeletionBehaviour)>::empty());
        assert(l.push(p)[0] == p);
        assert(enc_tree_list(Seq::<(Seq<char>, DeletionBehaviour)>::empty()) == Seq::<u8>::empty());
        assert(enc_tree_list(l.push(p)) =~= enc_tree_list(l) + enc_tree_pair(p));
    } else {
        assert(l.push(p).drop_first() =~= l.drop_first().push(p));
        lemma_enc_tree_list_snoc(l.drop_first(), p);
        assert(enc_tree_list(l.push(p)) =~= enc_tree_list(l) + enc_tree_pair(p));
    }
}

/// Appends the edges of `g` to `out`.
fn push_edges(out: &mut Vec<u8>, g: &Vec<RelationDescriptor>)
    ensures
        final(out)@ == old(out)@ + enc_edges(g@.map_values(|rd: RelationDescriptor| rd@)),
{
    let ghost gv = g@.map_values(|rd: RelationDescriptor| rd@);
    let mut j: usize = 0;
    assert(out@ =~= old(out)@ + enc_edges(gv.subrange(0, 0)));
    while j < g.len()
        invariant
            0 <= j <= g@.len(),
            gv == g@.map_values(|rd: RelationDescriptor| rd@),
            out@ == old(out)@ + enc_edges(gv.subrange(0, j as int)),
        decreases g@.len() - j,
    {
        let rd = &g[j];
        push_chunk(out, rd.key.as_slice());
        push_policy(out, rd.deletion_behaviour);
        push_opt_name(out, &rd.name);
        proof {
            lemma_enc_edges_snoc(gv.subrange(0, j as int), gv[j as int]);
            assert(gv.subrange(0, j as int).push(gv[j as int]) =~= gv.subrange(0, j + 1));
            assert(out@ =~= old(out)@ + enc_edges(gv.subrange(0, j + 1)));
        }
        j = j + 1;
    }
    assert(gv.subrange(0, g@.len() as int) =~= gv);
}

impl EntityRelations {
    /// The stored binary form of this descriptor.
    pub fn encode(&self) -> (r: Vec<u8>)
        ensures
            r@ == enc_relations(self@),
    {
        let mut out: Vec<u8> = Vec::new();
        push_u64_be(&mut out, self.related_entities.len() as u64);
        let ghost v = self@;
        let mut i: usize = 0;
        assert(out@ =~= be64(v.len() as u64) + enc_groups(v.subrange(0, 0)));
        while i < self.related_entities.len()
            invariant
                0 <= i <= self.related_entities@.len(),
                v == self@,
                v.len() == self.related_entities@.len(),
                out@ == be64(v.len() as u64) + enc_groups(v.subrange(0, i as int)),
            decreases self.related_entities@.len() - i,
        {
            let g = &self.related_entities[i];
            push_string_chunk(&mut out, g.0.as_str());
            push_u64_be(&mut out, g.1.len() as u64);
            push_edges(&mut out, &g.1);
            proof {
                lemma_enc_groups_snoc(v.subrange(0, i as int), v[i as int]);
                assert(v.subrange(0, i as int).push(v[i as int]) =~= v.subrange(0, i + 1));
                assert(out@ =~= be64(v.len() as u64) + enc_groups(v.subrange(0, i + 1)));
            }
            i = i + 1;
        }
        assert(v.subrange(0, v.len() as int) =~= v);
        out
    }
}

/// Appends a declared keyspace list to `out`.
fn push_tree_list(out: &mut Vec<u8>, l: &Vec<(String, DeletionBehaviour)>)
    ensures
        final(out)@ == old(out)@ + be64(l@.len() as u64) + enc_tree_list(
            crate::descriptor::tree_list_view(l@),
        ),
{
    let ghost lv = crate::descriptor::tree_list_view(l@);
    push_u64_be(out, l.len() as u64);
    let mut i: usize = 0;
    assert(out@ =~= old(out)@ + be64(l@.len() as u64) + enc_tree_list(lv.subrange(0, 0)));
    while i < l.len()
        invariant
            0 <= i <= l@.len(),
            lv == crate::descriptor::tree_list_view(l@),
            lv.len() == l@.len(),
            out@ == old(out)@ + be64(l@.len() as u64) + enc_tree_list(lv.subrange(0, i as int)),
        decreases l@.len() - i,
    {
        push_string_chunk(out, l[i].0.as_str());
        push_policy(out, l[i].1);
        proof {
            lemma_enc_tree_list_snoc(lv.subrange(0, i as int), lv[i as int]);
            assert(lv.subrange(0, i as int).push(lv[i as int]) =~= lv.subrange(0, i + 1));
            assert(out@ =~= old(out)@ + be64(l@.len() as u64) + enc_tree_list(
                lv.subrange(0, i + 1),
            ));
        }
        i = i + 1;
    }
    assert(lv.subrange(0, lv.len() as int) =~= lv);
}

impl FamilyDescriptor {
    /// The stored binary form of this descriptor.
    pub fn encode(&self) -> (r: Vec<u8>)
        ensures
            r@ == enc_family(self@),
    {
        let mut out: Vec<u8> = Vec::new();
        push_string_chunk(&mut out, self.tree_name.as_str());
        push_tree_list(&mut out, &self.sibling_trees);
        push_tree_list(&mut out, &self.child_trees);
        assert(out@ =~= enc_family(self@));
        out
    }
}

// ---------------------------------------------------------------------------
// Executable decoders.
// ---------------------------------------------------------------------------

/// Rebuilds a string from its UTF-8 bytes.
///
/// Relies on `String::from_utf8`: it accepts exactly the byte strings that
/// are valid UTF-8 and returns the string they encode.
#[verifier::external_body]
fn string_from_utf8(b: Vec<u8>) -> (r: Option<String>)
    ensures
        match r {
            Some(s) => valid_utf8(b@) && s@ == decode_utf8(b@),
            None => !valid_utf8(b@),
        },
{
    String::from_utf8(b).ok()
}

fn take_u64(b: &[u8], i: usize) -> (r: Option<(u64, usize)>)
    ensures
        match r {
            Some(p) => dec_u64_at(b@, i as int) == Some((p.0, p.1 as int)) && p.1 <= b@.len(),
            None => dec_u64_at(b@, i as int) is None,
        },
{
    if b.len() >= 8 && i <= b.len() - 8 {
        Some((read_u64_be(b, i), i + 8))
    } else {
        None
    }
}

fn take_chunk(b: &[u8], i: usize) -> (r: Option<(Vec<u8>, usize)>)
    ensures
        match r {
            Some(p) => dec_bytes_at(b@, i as int) == Some((p.0@, p.1 as int)) && p.1 <= b@.len(),
            None => dec_bytes_at(b@, i as int) is None,
        },
{
    match take_u64(b, i) {
        None => None,
        Some((n, j)) => {
            let rem = (b.len() - j) as u64;
            if n <= rem {
                let m = n as usize;
                let part = slice_subrange(b, j, j + m);
                Some((slice_to_vec(part), j + m))
            } else {
                None
            }
        },
    }
}

pub(crate) fn take_string(b: &[u8], i: usize) -> (r: Option<(String, usize)>)
    ensures
        match r {
            Some(p) => dec_str_at(b@, i as int) == Some((p.0@, p.1 as int)) && p.1 <= b@.len(),
            None => dec_str_at(b@, i as int) is None,
        },
{
    match take_chunk(b, i) {
        None => None,
        Some((bs, j)) => match string_from_utf8(bs) {
            None => None,
            Some(s) => Some((s, j)),
        },
    }
}

fn take_policy(b: &[u8], i: usize) -> (r: Option<(DeletionBehaviour, usize)>)
    ensures
        match r {
            Some(p) => dec_policy_at(b@, i as int) == Some((p.0, p.1 as int)) && p.1 <= b@.len(),
            None => dec_policy_at(b@, i as int) is None,
        },
{
    if i < b.len() {
        if b[i] == 0 {
            Some((DeletionBehaviour::Error, i + 1))
        } else if b[i] == 1 {
            Some((DeletionBehaviour::BreakLink, i + 1))
        } else if b[i] == 2 {
            Some((DeletionBehaviour::Cascade, i + 1))
        } else {
            None
        }
    } else {
        None
    }
}

fn take_opt_name(b: &[u8], i: usize) -> (r: Option<(Option<String>, usize)>)
    ensures
        match r {
            Some(p) => dec_opt_str_at(b@, i as int) == Some(
                (
                    match p.0 {
                        Some(s) => Some(s@),
                        None => None,
                    },
                    p.1 as int,
                ),
            ) && p.1 <= b@.len(),
            None => dec_opt_str_at(b@, i as int) is None,
        },
{
    if i < b.len() {
        if b[i] == 0 {
            Some((None, i + 1))
        } else if b[i] == 1 {
            match take_string(b, i + 1) {
                None => None,
                Some((s, j)) => Some((Some(s), j)),
            }
        } else {
            None
        }
    } else {
        None
    }
}

fn take_edge(b: &[u8], i: usize) -> (r: Option<(RelationDescriptor, usize)>)
    ensures
        match r {
            Some(p) => dec_edge_at(b@, i as int) == Some((p.0@, p.1 as int)) && p.1 <= b@.len(),
            None => dec_edge_at(b@, i as int) is None,
        },
{
    match take_chunk(b, i) {
        None => None,
        Some((k, j)) => match take_policy(b, j) {
            None => None,
            Some((pol, j2)) => match take_opt_name(b, j2) {
                None => None,
                Some((n, j3)) => Some(
                    (RelationDescriptor { key: k, deletion_behaviour: pol, name: n }, j3),
                ),
            },
        },
    }
}

fn take_edges(b: &[u8], i: usize, n: u64) -> (r: Option<(Vec<RelationDescriptor>, usize)>)
    ensures
        match r {
            Some(p) => dec_edges_at(b@, i as int, n) == Some(
                (p.0@.map_values(|rd: RelationDescriptor| rd@), p.1 as int),
            ),
            None => dec_edges_at(b@, i as int, n) is None,
        },
{
    let mut acc: Vec<RelationDescriptor> = Vec::new();
    let mut cur: usize = i;
    let mut left: u64 = n;
    loop
        invariant
            left <= n,
            dec_edges_at(b@, i as int, n) == (match dec_edges_at(b@, cur as int, left) {
                Some(p) => Some(
                    ((acc@.map_values(|rd: RelationDescriptor| rd@) + p.0), p.1),
                ),
                None => None,
            }),
        decreases left,
    {
        if left == 0 {
            proof {
                assert(acc@.map_values(|rd: RelationDescriptor| rd@) + Seq::<
                    RelationEdge,
                >::empty() =~= acc@.map_values(|rd: RelationDescriptor| rd@));
            }
            return Some((acc, cur));
        }
        match take_edge(b, cur) {
            None => {
                return None;
            },
            Some((rd, j)) => {
                proof {
                    let av = acc@.map_values(|x: RelationDescriptor| x@);
                    let av2 = acc@.push(rd).map_values(|x: RelationDescriptor| x@);
                    assert(av2 =~= av.push(rd@));
                    match dec_edges_at(b@, j as int, (left - 1) as u64) {
                        Some(p) => {
                            assert(av2 + p.0 =~= av + (seq![rd@] + p.0));
                        },
                        None => {},
                    }
                }
                acc.push(rd);
                cur = j;
                left = left - 1;
            },
        }
    }
}

fn take_group(b: &[u8], i: usize) -> (r: Option<((String, Vec<RelationDescriptor>), usize)>)
    ensures
        match r {
            Some(p) => dec_group_at(b@, i as int) == Some(
                (
                    ((p.0).0@, (p.0).1@.map_values(|rd: RelationDescriptor| rd@)),
                    p.1 as int,
                ),
            ),
            None => dec_group_at(b@, i as int) is None,
        },
{
    match take_string(b, i) {
        None => None,
        Some((t, j)) => match take_u64(b, j) {
            None => None,
            Some((n, j2)) => match take_edges(b, j2, n) {
                None => None,
                Some((g, j3)) => Some(((t, g), j3)),
            },
        },
    }
}


/// The view of a group list under construction.
pub open spec fn groups_view(s: Seq<(String, Vec<RelationDescriptor>)>) -> RelationsView {
    s.map_values(
        |g: (String, Vec<RelationDescriptor>)|
            (g.0@, g.1@.map_values(|rd: RelationDescriptor| rd@)),
    )
}

/// Reads a stored relation descriptor back, if `b` is one.
pub fn decode_relations(b: &[u8]) -> (r: Option<EntityRelations>)
    ensures
        match r {
            Some(er) => dec_relations(b@) == Some(er@),
            None => dec_relations(b@) is None,
        },
{
    let (n, mut cur) = match take_u64(b, 0) {
        None => {
            return None;
        },
        Some(p) => p,
    };
    let mut acc: Vec<(String, Vec<RelationDescriptor>)> = Vec::new();
    let mut left: u64 = n;
    let ghost start = cur as int;
    loop
        invariant
            left <= n,
            dec_groups_at(b@, start, n) == (match dec_groups_at(b@, cur as int, left) {
                Some(p) => Some((groups_view(acc@) + p.0, p.1)),
                None => None,
            }),
            dec_u64_at(b@, 0) == Some((n, start)),
        decreases left,
    {
        if left == 0 {
            if cur == b.len() {
                proof {
                    assert(groups_view(acc@) + Seq::<(Seq<char>, Seq<RelationEdge>)>::empty()
                        =~= groups_view(acc@));
                }
                let er = EntityRelations { related_entities: acc };
                return Some(er);
            } else {
                return None;
            }
        }
        match take_group(b, cur) {
            None => {
                return None;
            },
            Some((g, j)) => {
                proof {
                    let av = groups_view(acc@);
                    let av2 = groups_view(acc@.push(g));
                    assert(av2 =~= av.push((g.0@, g.1@.map_values(|rd: RelationDescriptor| rd@))));
                    match dec_groups_at(b@, j as int, (left - 1) as u64) {
                        Some(p) => {
                            assert(av2 + p.0 =~= av + (seq![
                                (g.0@, g.1@.map_values(|rd: RelationDescriptor| rd@)),
                            ] + p.0));
                        },
                        None => {},
                    }
                }
                acc.push(g);
                cur = j;
                left = left - 1;
            },
        }
    }
}

fn take_tree_pair(b: &[u8], i: usize) -> (r: Option<((String, DeletionBehaviour), usize)>)
    ensures
        match r {
            Some(p) => dec_tree_pair_at(b@, i as int) == Some(
                (((p.0).0@, (p.0).1), p.1 as int),
            ) && p.1 <= b@.len(),
            None => dec_tree_pair_at(b@, i as int) is None,
        },
{
    match take_string(b, i) {
        None => None,
        Some((t, j)) => match take_policy(b, j) {
            None => None,
            Some((pol, j2)) => Some(((t, pol), j2)),
        },
    }
}

fn take_tree_list(b: &[u8], i: usize, n: u64) -> (r: Option<(Vec<(String, DeletionBehaviour)>, usize)>)
    ensures
        match r {
            Some(p) => dec_tree_list_at(b@, i as int, n) == Some(
                (crate::descriptor::tree_list_view(p.0@), p.1 as int),
            ),
            None => dec_tree_list_at(b@, i as int, n) is None,
        },
{
    let mut acc: Vec<(String, DeletionBehaviour)> = Vec::new();
    let mut cur: usize = i;
    let mut left: u64 = n;
    loop
        invariant
            left <= n,
            dec_tree_list_at(b@, i as int, n) == (match dec_tree_list_at(b@, cur as int, left) {
                Some(p) => Some(
                    (crate::descriptor::tree_list_view(acc@) + p.0, p.1),
                ),
                None => None,
            }),
        decreases left,
    {
        if left == 0 {
            proof {
                assert(crate::descriptor::tree_list_view(acc@) + Seq::<
                    (Seq<char>, DeletionBehaviour),
                >::empty() =~= crate::descriptor::tree_list_view(acc@));
            }
            return Some((acc, cur));
        }
        match take_tree_pair(b, cur) {
            None => {
                return None;
            },
            Some((p, j)) => {
                proof {
                    let av = crate::descriptor::tree_list_view(acc@);
                    let av2 = crate::descriptor::tree_list_view(acc@.push(p));
                    assert(av2 =~= av.push((p.0@, p.1)));
                    match dec_tree_list_at(b@, j as int, (left - 1) as u64) {
                        Some(q) => {
                            assert(av2 + q.0 =~= av + (seq![(p.0@, p.1)] + q.0));
                        },
                        None => {},
                    }
                }
                acc.push(p);
                cur = j;
                left = left - 1;
            },
        }
    }
}

/// Reads a stored family descriptor back, if `b` is one.
pub fn decode_family(b: &[u8]) -> (r: Option<FamilyDescriptor>)
    ensures
        match r {
            Some(f) => dec_family(b@) == Some(f@),
            None => dec_family(b@) is None,
        },
{
    let (name, i) = match take_string(b, 0) {
        None => {
            return None;
        },
        Some(p) => p,
    };
    let (ns, j) = match take_u64(b, i) {
        None => {
            return None;
        },
        Some(p) => p,
    };
    let (sibs, j2) = match take_tree_list(b, j, ns) {
        None => {
            return None;
        },
        Some(p) => p,
    };
    let (nc, j3) = match take_u64(b, j2) {
        None => {
            return None;
        },
        Some(p) => p,
    };
    let (chs, j4) = match take_tree_list(b, j3, nc) {
        None => {
            return None;
        },
        Some(p) => p,
    };
    if j4 == b.len() {
        Some(FamilyDescriptor { tree_name: name, sibling_trees: sibs, child_trees: chs })
    } else {
        None
    }
}

} // verus!
