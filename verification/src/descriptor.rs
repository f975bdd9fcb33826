use vstd::prelude::*;
use vstd::slice::slice_to_vec;

verus! {

// ---------------------------------------------------------------------------
// Relation descriptors.
//
// A relation descriptor records, for one entity instance, its outgoing free
// edges grouped by the peer's keyspace: for each peer keyspace a list of
// edges, each edge naming the peer's key bytes, the deletion behaviour to
// apply to the peer when this instance is removed, and an optional edge
// name. Edge identity is the pair (peer key, name): re-creating an edge with
// the same identity overwrites its behaviour.
//
// A family descriptor records, for one entity type, its declared sibling and
// child keyspaces with their deletion behaviours.
// ---------------------------------------------------------------------------

/// How the database behaves towards a related entity when an entity is
/// removed.
#[derive(PartialEq, Eq, Structural, Clone, Copy, Debug)]
pub enum DeletionBehaviour {
    /// Trying to remove the current entity while a related one still exists
    /// results in an error.
    Error,
    /// Related entities are left untouched, but the link between the two
    /// entities is removed.
    BreakLink,
    /// Related entities are also removed if the current one is removed.
    Cascade,
}

/// The mathematical value of one outgoing edge.
pub struct RelationEdge {
    pub key: Seq<u8>,
    pub behaviour: DeletionBehaviour,
    pub name: Option<Seq<char>>,
}

/// The mathematical value of a relation descriptor: the groups in insertion
/// order, each a peer keyspace name with its edges in insertion order.
pub type RelationsView = Seq<(Seq<char>, Seq<RelationEdge>)>;

/// The mathematical value of a family descriptor.
pub struct FamilyView {
    pub name: Seq<char>,
    pub siblings: Seq<(Seq<char>, DeletionBehaviour)>,
    pub children: Seq<(Seq<char>, DeletionBehaviour)>,
}

/// The view of an optional borrowed name.
pub open spec fn opt_str_view(n: Option<&str>) -> Option<Seq<char>> {
    match n {
        Some(s) => Some(s@),
        None => None,
    }
}

/// One outgoing edge of a relation descriptor.
#[derive(Debug)]
pub struct RelationDescriptor {
    pub key: Vec<u8>,
    pub deletion_behaviour: DeletionBehaviour,
    pub name: Option<String>,
}

impl View for RelationDescriptor {
    type V = RelationEdge;

    open spec fn view(&self) -> RelationEdge {
        RelationEdge {
            key: self.key@,
            behaviour: self.deletion_behaviour,
            name: match self.name {
                Some(s) => Some(s@),
                None => None,
            },
        }
    }
}

impl RelationDescriptor {
    /// Builds an edge record towards the peer with the given key bytes.
    pub fn new(key: &[u8], deletion_behaviour: DeletionBehaviour, name: Option<&str>) -> (r:
        RelationDescriptor)
        ensures
            r@ == (RelationEdge { key: key@, behaviour: deletion_behaviour, name: opt_str_view(name) }),
    {
        RelationDescriptor {
            key: slice_to_vec(key),
            deletion_behaviour,
            name: match name {
                Some(s) => Some(s.to_owned()),
                None => None,
            },
        }
    }

    /// An exact copy of this edge record.
    pub fn duplicate(&self) -> (r: RelationDescriptor)
        ensures
            r@ == self@,
    {
        RelationDescriptor {
            key: slice_to_vec(self.key.as_slice()),
            deletion_behaviour: self.deletion_behaviour,
            name: match &self.name {
                Some(s) => Some(s.clone()),
                None => None,
            },
        }
    }
}

/// The relation descriptor of one entity instance: its outgoing edges,
/// grouped by peer keyspace, in insertion order.
#[derive(Debug)]
pub struct EntityRelations {
    pub related_entities: Vec<(String, Vec<RelationDescriptor>)>,
}

impl View for EntityRelations {
    type V = RelationsView;

    open spec fn view(&self) -> RelationsView {
        self.related_entities@.map_values(
            |g: (String, Vec<RelationDescriptor>)|
                (g.0@, g.1@.map_values(|rd: RelationDescriptor| rd@)),
        )
    }
}

impl Default for EntityRelations {
    /// The empty descriptor: no outgoing edges.
    fn default() -> (r: EntityRelations)
        ensures
            r@ == Seq::<(Seq<char>, Seq<RelationEdge>)>::empty(),
    {
        let r = EntityRelations { related_entities: Vec::new() };
        proof {
            assert(r@ =~= Seq::<(Seq<char>, Seq<RelationEdge>)>::empty());
        }
        r
    }
}

// ---------------------------------------------------------------------------
// Spec-level descriptor operations. The executable methods below are proved
// to implement exactly these.
// ---------------------------------------------------------------------------

/// Index of the first group named `t` at or after `i`, if any.
pub open spec fn find_group_from(v: RelationsView, t: Seq<char>, i: int) -> Option<int>
    decreases v.len() - i,
{
    if i < 0 || i >= v.len() {
        None
    } else if v[i].0 == t {
        Some(i)
    } else {
        find_group_from(v, t, i + 1)
    }
}

/// Index of the first edge with identity `(k, n)` at or after `j`, if any.
pub open spec fn find_edge_from(g: Seq<RelationEdge>, k: Seq<u8>, n: Option<Seq<char>>, j: int) -> Option<
    int,
>
    decreases g.len() - j,
{
    if j < 0 || j >= g.len() {
        None
    } else if g[j].key == k && g[j].name == n {
        Some(j)
    } else {
        find_edge_from(g, k, n, j + 1)
    }
}

/// The descriptor after inserting or updating the edge `t -> (k, n)` with
/// behaviour `b`: a new group or a new edge is appended at the end; an edge
/// with the same identity has its behaviour overwritten in place.
pub open spec fn er_add(
    v: RelationsView,
    t: Seq<char>,
    k: Seq<u8>,
    b: DeletionBehaviour,
    n: Option<Seq<char>>,
) -> RelationsView {
    let e = RelationEdge { key: k, behaviour: b, name: n };
    match find_group_from(v, t, 0) {
        None => v.push((t, seq![e])),
        Some(i) => match find_edge_from(v[i].1, k, n, 0) {
            None => v.update(i, (v[i].0, v[i].1.push(e))),
            Some(j) => v.update(i, (v[i].0, v[i].1.update(j, e))),
        },
    }
}

/// The descriptor after removing every edge towards key `k` in group `t`,
/// whatever its name.
pub open spec fn er_remove_key(v: RelationsView, t: Seq<char>, k: Seq<u8>) -> RelationsView {
    match find_group_from(v, t, 0) {
        None => v,
        Some(i) => v.update(i, (v[i].0, v[i].1.filter(|e: RelationEdge| e.key != k))),
    }
}

/// The descriptor after removing every edge with identity `(k, n)` in group
/// `t`.
pub open spec fn er_remove_key_name(
    v: RelationsView,
    t: Seq<char>,
    k: Seq<u8>,
    n: Option<Seq<char>>,
) -> RelationsView {
    match find_group_from(v, t, 0) {
        None => v,
        Some(i) => v.update(i, (v[i].0, v[i].1.filter(|e: RelationEdge| !(e.key == k && e.name == n)))),
    }
}

/// The edge with its peer key replaced when it pointed at `oldk`.
pub open spec fn edge_rekeyed(e: RelationEdge, oldk: Seq<u8>, newk: Seq<u8>) -> RelationEdge {
    if e.key == oldk {
        RelationEdge { key: newk, behaviour: e.behaviour, name: e.name }
    } else {
        e
    }
}

/// The descriptor after re-keying, in group `t`, every edge towards `oldk`
/// to point at `newk` instead, keeping behaviour and name.
pub open spec fn er_rekey(v: RelationsView, t: Seq<char>, oldk: Seq<u8>, newk: Seq<u8>) -> RelationsView {
    match find_group_from(v, t, 0) {
        None => v,
        Some(i) => v.update(
            i,
            (v[i].0, v[i].1.map_values(|e: RelationEdge| edge_rekeyed(e, oldk, newk))),
        ),
    }
}

/// The set of `(keyspace, key)` pairs the descriptor points at.
pub open spec fn er_targets(v: RelationsView) -> Set<(Seq<char>, Seq<u8>)> {
    Set::new(
        |p: (Seq<char>, Seq<u8>)|
            exists|i: int, j: int|
                0 <= i < v.len() && 0 <= j < (#[trigger] v[i]).1.len() && v[i].0 == p.0 && (
                #[trigger] v[i].1[j]).key == p.1,
    )
}

pub proof fn lemma_find_group_prefix(v: RelationsView, t: Seq<char>, i: int)
    requires
        0 <= i <= v.len(),
        forall|m: int| 0 <= m < i ==> (#[trigger] v[m]).0 != t,
    ensures
        find_group_from(v, t, 0) == find_group_from(v, t, i),
    decreases i,
{
    if i > 0 {
        lemma_find_group_prefix(v, t, i - 1);
        lemma_find_group_step(v, t, i - 1);
    }
}

proof fn lemma_find_group_step(v: RelationsView, t: Seq<char>, i: int)
    requires
        0 <= i < v.len(),
        v[i].0 != t,
    ensures
        find_group_from(v, t, i) == find_group_from(v, t, i + 1),
{
}

proof fn lemma_find_edge_prefix(g: Seq<RelationEdge>, k: Seq<u8>, n: Option<Seq<char>>, j: int)
    requires
        0 <= j <= g.len(),
        forall|m: int| 0 <= m < j ==> !((#[trigger] g[m]).key == k && g[m].name == n),
    ensures
        find_edge_from(g, k, n, 0) == find_edge_from(g, k, n, j),
    decreases j,
{
    if j > 0 {
        lemma_find_edge_prefix(g, k, n, j - 1);
    }
}

// ---------------------------------------------------------------------------
// Executable descriptor operations.
// ---------------------------------------------------------------------------

/// Compares an optional owned name with an optional borrowed one.
fn opt_name_eq(a: &Option<String>, b: &Option<&str>) -> (r: bool)
    ensures
        r == ((match a {
            Some(s) => Some(s@),
            None => None,
        }) == opt_str_view(*b)),
{
    match (a, b) {
        (Some(x), Some(y)) => {
            let ys: String = (*y).to_owned();
            let r = *x == ys;
            r
        },
        (None, None) => true,
        _ => false,
    }
}

impl EntityRelations {
    /// Inserts or updates the edge towards `(tree_name, key)` with identity
    /// `(key, name)`: appended at the end of its group (or of a fresh group),
    /// unless an edge with the same identity exists, whose behaviour is then
    /// overwritten.
    pub fn add_related_by_key(
        &mut self,
        tree_name: &str,
        key: &[u8],
        behaviour: DeletionBehaviour,
        name: Option<&str>,
    )
        ensures
            final(self)@ == er_add(old(self)@, tree_name@, key@, behaviour, opt_str_view(name)),
    {
        let ghost v0 = self@;
        let tn: String = tree_name.to_owned();
        let len = self.related_entities.len();
        let mut i: usize = 0;
        while i < len && !(self.related_entities[i].0 == tn)
            invariant
                len == self.related_entities.len(),
                *self == *old(self),
                v0 == self@,
                tn@ == tree_name@,
                0 <= i <= len,
                forall|m: int| 0 <= m < i ==> (#[trigger] v0[m]).0 != tree_name@,
            decreases len - i,
        {
            assert(v0[i as int].0 == self.related_entities@[i as int].0@);
            i = i + 1;
        }
        proof {
            lemma_find_group_prefix(v0, tree_name@, i as int);
        }
        if i == len {
            // no group for this keyspace yet
            let mut edges: Vec<RelationDescriptor> = Vec::new();
            edges.push(RelationDescriptor::new(key, behaviour, name));
            self.related_entities.push((tn, edges));
            proof {
                assert(find_group_from(v0, tree_name@, 0) is None);
                assert(self@ =~~= er_add(v0, tree_name@, key@, behaviour, opt_str_view(name)));
            }
        } else {
            assert(v0[i as int].0 == tree_name@);
            assert(find_group_from(v0, tree_name@, 0) == Some(i as int));
            let gi = i;
            let glen = self.related_entities[gi].1.len();
            let ghost g0 = v0[gi as int].1;
            let mut j: usize = 0;
            while j < glen && !(bytes_eq(self.related_entities[gi].1[j].key.as_slice(), key)
                && opt_name_eq(&self.related_entities[gi].1[j].name, &name))
                invariant
                    *self == *old(self),
                    gi < self.related_entities@.len(),
                    glen == self.related_entities[gi as int].1.len(),
                    g0 == v0[gi as int].1,
                    v0 == self@,
                    0 <= j <= glen,
                    forall|m: int|
                        0 <= m < j ==> !((#[trigger] g0[m]).key == key@ && g0[m].name
                            == opt_str_view(name)),
                decreases glen - j,
            {
                assert(g0[j as int] == self.related_entities@[gi as int].1@[j as int]@);
                j = j + 1;
            }
            proof {
                lemma_find_edge_prefix(g0, key@, opt_str_view(name), j as int);
            }
            let rd = RelationDescriptor::new(key, behaviour, name);
            if j == glen {
                assert(find_edge_from(g0, key@, opt_str_view(name), 0) is None);
                self.related_entities[gi].1.push(rd);
                proof {
                    assert(self@ =~~= er_add(v0, tree_name@, key@, behaviour, opt_str_view(name)));
                }
            } else {
                assert(find_edge_from(g0, key@, opt_str_view(name), 0) == Some(j as int));
                self.related_entities[gi].1[j] = rd;
                proof {
                    assert(self@ =~~= er_add(v0, tree_name@, key@, behaviour, opt_str_view(name)));
                }
            }
        }
    }
}

/// Compares two byte strings.
pub fn bytes_eq(a: &[u8], b: &[u8]) -> (r: bool)
    ensures
        r == (a@ == b@),
{
    if a.len() != b.len() {
        proof {
            if a@ == b@ {
                assert(a@.len() == b@.len());
            }
        }
        return false;
    }
    let mut i: usize = 0;
    while i < a.len()
        invariant
            a@.len() == b@.len(),
            0 <= i <= a@.len(),
            forall|m: int| 0 <= m < i ==> a@[m] == b@[m],
        decreases a@.len() - i,
    {
        if a[i] != b[i] {
            return false;
        }
        i = i + 1;
    }
    proof {
        assert(a@ =~= b@);
    }
    true
}




/// The family descriptor of one entity type: its declared sibling and child
/// keyspaces, each with the deletion behaviour applied when a record of this
/// type is removed.
#[derive(Debug)]
pub struct FamilyDescriptor {
    pub tree_name: String,
    pub sibling_trees: Vec<(String, DeletionBehaviour)>,
    pub child_trees: Vec<(String, DeletionBehaviour)>,
}

/// The view of a declared keyspace list.
pub open spec fn tree_list_view(v: Seq<(String, DeletionBehaviour)>) -> Seq<
    (Seq<char>, DeletionBehaviour),
> {
    v.map_values(|p: (String, DeletionBehaviour)| (p.0@, p.1))
}

impl View for FamilyDescriptor {
    type V = FamilyView;

    open spec fn view(&self) -> FamilyView {
        FamilyView {
            name: self.tree_name@,
            siblings: tree_list_view(self.sibling_trees@),
            children: tree_list_view(self.child_trees@),
        }
    }
}

impl EntityRelations {
    /// Removes every edge towards key `e` in group `tree`, whatever its
    /// name. Removing an absent edge is a no-op.
    pub fn remove_related_by_key_and_tree_name(&mut self, tree: &str, e: &[u8])
        ensures
            final(self)@ == er_remove_key(old(self)@, tree@, e@),
    {
        let ghost v0 = self@;
        let tn: String = tree.to_owned();
        let len = self.related_entities.len();
        let mut i: usize = 0;
        while i < len && !(self.related_entities[i].0 == tn)
            invariant
                len == self.related_entities.len(),
                *self == *old(self),
                v0 == self@,
                tn@ == tree@,
                0 <= i <= len,
                forall|m: int| 0 <= m < i ==> (#[trigger] v0[m]).0 != tree@,
            decreases len - i,
        {
            assert(v0[i as int].0 == self.related_entities@[i as int].0@);
            i = i + 1;
        }
        proof {
            lemma_find_group_prefix(v0, tree@, i as int);
        }
        if i < len {
            assert(find_group_from(v0, tree@, 0) == Some(i as int));
            let ng = group_without_key(&self.related_entities[i].1, e);
            self.related_entities[i].1 = ng;
            proof {
                assert(self@ =~~= er_remove_key(v0, tree@, e@));
            }
        } else {
            assert(find_group_from(v0, tree@, 0) is None);
        }
    }

    /// Removes every edge with identity `(e, name)` in group `tree`.
    /// Removing an absent edge is a no-op.
    pub fn remove_related_by_key_and_tree_name_with_name(&mut self, tree: &str, e: &[u8], name: &str)
        ensures
            final(self)@ == er_remove_key_name(old(self)@, tree@, e@, Some(name@)),
    {
        let ghost v0 = self@;
        let tn: String = tree.to_owned();
        let len = self.related_entities.len();
        let mut i: usize = 0;
        while i < len && !(self.related_entities[i].0 == tn)
            invariant
                len == self.related_entities.len(),
                *self == *old(self),
                v0 == self@,
                tn@ == tree@,
                0 <= i <= len,
                forall|m: int| 0 <= m < i ==> (#[trigger] v0[m]).0 != tree@,
            decreases len - i,
        {
            assert(v0[i as int].0 == self.related_entities@[i as int].0@);
            i = i + 1;
        }
        proof {
            lemma_find_group_prefix(v0, tree@, i as int);
        }
        if i < len {
            assert(find_group_from(v0, tree@, 0) == Some(i as int));
            let ng = group_without_key_name(&self.related_entities[i].1, e, name);
            self.related_entities[i].1 = ng;
            proof {
                assert(self@ =~~= er_remove_key_name(v0, tree@, e@, Some(name@)));
            }
        } else {
            assert(find_group_from(v0, tree@, 0) is None);
        }
    }
}

/// The edges of `g` whose peer key is not `key`, in order.
fn group_without_key(g: &Vec<RelationDescriptor>, key: &[u8]) -> (r: Vec<RelationDescriptor>)
    ensures
        r@.map_values(|rd: RelationDescriptor| rd@) == g@.map_values(
            |rd: RelationDescriptor| rd@,
        ).filter(|e: RelationEdge| e.key != key@),
{
    let ghost gv = g@.map_values(|rd: RelationDescriptor| rd@);
    let ghost p = |e: RelationEdge| e.key != key@;
    let mut r: Vec<RelationDescriptor> = Vec::new();
    let mut j: usize = 0;
    while j < g.len()
        invariant
            0 <= j <= g@.len(),
            gv == g@.map_values(|rd: RelationDescriptor| rd@),
            p == (|e: RelationEdge| e.key != key@),
            r@.map_values(|rd: RelationDescriptor| rd@) == gv.subrange(0, j as int).filter(p),
        decreases g@.len() - j,
    {
        proof {
            reveal(Seq::<RelationEdge>::filter);
            assert(gv.subrange(0, j + 1).drop_last() =~= gv.subrange(0, j as int));
            assert(gv.subrange(0, j + 1).last() == gv[j as int]);
        }
        if !bytes_eq(g[j].key.as_slice(), key) {
            r.push(g[j].duplicate());
            assert(r@.map_values(|rd: RelationDescriptor| rd@) =~= gv.subrange(0, j + 1).filter(p));
        } else {
            assert(r@.map_values(|rd: RelationDescriptor| rd@) =~= gv.subrange(0, j + 1).filter(p));
        }
        j = j + 1;
    }
    proof {
        reveal(Seq::<RelationEdge>::filter);
        assert(gv.subrange(0, g@.len() as int) =~= gv);
    }
    r
}

/// The edges of `g` whose identity is not `(key, Some(name))`, in order.
fn group_without_key_name(g: &Vec<RelationDescriptor>, key: &[u8], name: &str) -> (r: Vec<
    RelationDescriptor,
>)
    ensures
        r@.map_values(|rd: RelationDescriptor| rd@) == g@.map_values(
            |rd: RelationDescriptor| rd@,
        ).filter(|e: RelationEdge| !(e.key == key@ && e.name == Some(name@))),
{
    let ghost gv = g@.map_values(|rd: RelationDescriptor| rd@);
    let ghost p = |e: RelationEdge| !(e.key == key@ && e.name == Some(name@));
    let mut r: Vec<RelationDescriptor> = Vec::new();
    let mut j: usize = 0;
    while j < g.len()
        invariant
            0 <= j <= g@.len(),
            gv == g@.map_values(|rd: RelationDescriptor| rd@),
            p == (|e: RelationEdge| !(e.key == key@ && e.name == Some(name@))),
            r@.map_values(|rd: RelationDescriptor| rd@) == gv.subrange(0, j as int).filter(p),
        decreases g@.len() - j,
    {
        proof {
            reveal(Seq::<RelationEdge>::filter);
            assert(gv.subrange(0, j + 1).drop_last() =~= gv.subrange(0, j as int));
            assert(gv.subrange(0, j + 1).last() == gv[j as int]);
        }
        if !(bytes_eq(g[j].key.as_slice(), key) && opt_name_eq(&g[j].name, &Some(name))) {
            r.push(g[j].duplicate());
            assert(r@.map_values(|rd: RelationDescriptor| rd@) =~= gv.subrange(0, j + 1).filter(p));
        } else {
            assert(r@.map_values(|rd: RelationDescriptor| rd@) =~= gv.subrange(0, j + 1).filter(p));
        }
        j = j + 1;
    }
    proof {
        reveal(Seq::<RelationEdge>::filter);
        assert(gv.subrange(0, g@.len() as int) =~= gv);
    }
    r
}


impl EntityRelations {
    /// Re-keys, in group `tree`, every edge towards `oldk` to point at
    /// `newk` instead, keeping behaviour and name. Used when the peer record
    /// itself moves to a new key.
    pub fn rekey_related_by_key_and_tree_name(&mut self, tree: &str, oldk: &[u8], newk: &[u8])
        ensures
            final(self)@ == er_rekey(old(self)@, tree@, oldk@, newk@),
    {
        let ghost v0 = self@;
        let tn: String = tree.to_owned();
        let len = self.related_entities.len();
        let mut i: usize = 0;
        while i < len && !(self.related_entities[i].0 == tn)
            invariant
                len == self.related_entities.len(),
                *self == *old(self),
                v0 == self@,
                tn@ == tree@,
                0 <= i <= len,
                forall|m: int| 0 <= m < i ==> (#[trigger] v0[m]).0 != tree@,
            decreases len - i,
        {
            assert(v0[i as int].0 == self.related_entities@[i as int].0@);
            i = i + 1;
        }
        proof {
            lemma_find_group_prefix(v0, tree@, i as int);
        }
        if i < len {
            assert(find_group_from(v0, tree@, 0) == Some(i as int));
            let ng = group_rekeyed(&self.related_entities[i].1, oldk, newk);
            self.related_entities[i].1 = ng;
            proof {
                assert(self@ =~~= er_rekey(v0, tree@, oldk@, newk@));
            }
        } else {
            assert(find_group_from(v0, tree@, 0) is None);
        }
    }
}

/// The edges of `g` with every peer key equal to `oldk` replaced by `newk`.
fn group_rekeyed(g: &Vec<RelationDescriptor>, oldk: &[u8], newk: &[u8]) -> (r: Vec<
    RelationDescriptor,
>)
    ensures
        r@.map_values(|rd: RelationDescriptor| rd@) == g@.map_values(
            |rd: RelationDescriptor| rd@,
        ).map_values(|e: RelationEdge| edge_rekeyed(e, oldk@, newk@)),
{
    let ghost gv = g@.map_values(|rd: RelationDescriptor| rd@);
    let mut r: Vec<RelationDescriptor> = Vec::new();
    let mut j: usize = 0;
    while j < g.len()
        invariant
            0 <= j <= g@.len(),
            gv == g@.map_values(|rd: RelationDescriptor| rd@),
            gv.len() == g@.len(),
            r@.len() == j,
            forall|m: int|
                0 <= m < j ==> (#[trigger] r@[m])@ == edge_rekeyed(gv[m], oldk@, newk@),
        decreases g@.len() - j,
    {
        proof {
            assert(gv[j as int] == g@[j as int]@);
        }
        let same = bytes_eq(g[j].key.as_slice(), oldk);
        let nk: &[u8] = if same {
            newk
        } else {
            g[j].key.as_slice()
        };
        let rd = RelationDescriptor {
            key: slice_to_vec(nk),
            deletion_behaviour: g[j].deletion_behaviour,
            name: match &g[j].name {
                Some(s) => Some(s.clone()),
                None => None,
            },
        };
        assert(rd@ == edge_rekeyed(gv[j as int], oldk@, newk@));
        r.push(rd);
        j = j + 1;
    }
    proof {
        assert(r@.map_values(|rd: RelationDescriptor| rd@) =~= gv.map_values(
            |e: RelationEdge| edge_rekeyed(e, oldk@, newk@),
        ));
    }
    r
}

} // verus!
