use vstd::prelude::*;
use vstd::utf8::encode_utf8;

use crate::bytes::AsBytes;
use crate::bytes::be32;
use crate::bytes::be32_val;
use crate::bytes::lemma_be32_roundtrip;
use crate::bytes::read_u32_be;
use crate::codec::dec_str_at;
use crate::codec::enc_str;
use crate::codec::str_bounded;
use crate::codec::lemma_dec_str_frame;
use crate::codec::take_string;
use crate::descriptor::DeletionBehaviour;
use crate::descriptor::tree_list_view;
use crate::entity::Entity;
use crate::entity::valid_store_name;

verus! {

// ---------------------------------------------------------------------------
// Ready-made entity types.
//
// A small family of record types wired together through sibling, child and
// free relations, used to exercise the store end to end. Their keyspaces:
// records of `entity_1` cascade onto their `entity_3` siblings; records of
// `entity_3` are constrained by their `entity_1` siblings and by their
// children in `child_entity_2`; records of `entity_2` cascade onto their
// children in `child_entity_1`.
// ---------------------------------------------------------------------------

/// A record keyed by a `u32`.
pub struct Entity3 {
    pub id: u32,
}

impl View for Entity3 {
    type V = u32;

    open spec fn view(&self) -> u32 {
        self.id
    }
}

impl Entity for Entity3 {
    type Key = u32;

    open spec fn name_spec() -> Seq<char> {
        "entity_3"@
    }

    open spec fn key_spec(&self) -> u32 {
        self.id
    }

    open spec fn rec_enc(&self) -> Seq<u8> {
        be32(self.id)
    }

    open spec fn dec_ok(b: Seq<u8>) -> bool {
        b.len() == 4
    }

    open spec fn dec_view(b: Seq<u8>) -> u32 {
        be32_val(b)
    }

    open spec fn rec_wf(&self) -> bool {
        true
    }

    open spec fn sibling_trees_spec() -> Seq<(Seq<char>, DeletionBehaviour)> {
        seq![("entity_1"@, DeletionBehaviour::Error)]
    }

    open spec fn child_trees_spec() -> Seq<(Seq<char>, DeletionBehaviour)> {
        seq![("child_entity_2"@, DeletionBehaviour::Error)]
    }

    fn store_name() -> (r: &'static str) {
        "entity_3"
    }

    fn get_key(&self) -> (k: &u32) {
        &self.id
    }

    fn set_key(&mut self, key: &u32) {
        self.id = *key;
    }

    fn to_bytes(&self) -> (r: Vec<u8>) {
        let mut out: Vec<u8> = Vec::new();
        crate::bytes::push_u32_be(&mut out, self.id);
        out
    }

    fn from_bytes(b: &[u8]) -> (r: Option<Entity3>) {
        if b.len() == 4 {
            let id = read_u32_be(b, 0);
            proof {
                assert(b@.subrange(0, 4) =~= b@);
            }
            Some(Entity3 { id })
        } else {
            None
        }
    }

    fn get_sibling_trees() -> (r: Vec<(String, DeletionBehaviour)>) {
        let mut out: Vec<(String, DeletionBehaviour)> = Vec::new();
        out.push(("entity_1".to_owned(), DeletionBehaviour::Error));
        proof {
            assert(tree_list_view(out@) =~= Self::sibling_trees_spec());
        }
        out
    }

    fn get_child_trees() -> (r: Vec<(String, DeletionBehaviour)>) {
        let mut out: Vec<(String, DeletionBehaviour)> = Vec::new();
        out.push(("child_entity_2".to_owned(), DeletionBehaviour::Error));
        proof {
            assert(tree_list_view(out@) =~= Self::child_trees_spec());
        }
        out
    }

    proof fn law_codec(r: &Self) {
        lemma_be32_roundtrip(r.id);
        assert(Self::dec_view(r.rec_enc()) == be32_val(be32(r.id)));
    }

    proof fn law_store_name() {
        reveal_strlit("entity_3");
        assert(valid_store_name("entity_3"@));
    }
}

/// A record keyed by a `u32`.
pub struct Entity4 {
    pub id: u32,
}

impl View for Entity4 {
    type V = u32;

    open spec fn view(&self) -> u32 {
        self.id
    }
}

impl Entity for Entity4 {
    type Key = u32;

    open spec fn name_spec() -> Seq<char> {
        "entity_4"@
    }

    open spec fn key_spec(&self) -> u32 {
        self.id
    }

    open spec fn rec_enc(&self) -> Seq<u8> {
        be32(self.id)
    }

    open spec fn dec_ok(b: Seq<u8>) -> bool {
        b.len() == 4
    }

    open spec fn dec_view(b: Seq<u8>) -> u32 {
        be32_val(b)
    }

    open spec fn rec_wf(&self) -> bool {
        true
    }

    open spec fn sibling_trees_spec() -> Seq<(Seq<char>, DeletionBehaviour)> {
        Seq::empty()
    }

    open spec fn child_trees_spec() -> Seq<(Seq<char>, DeletionBehaviour)> {
        Seq::empty()
    }

    fn store_name() -> (r: &'static str) {
        "entity_4"
    }

    fn get_key(&self) -> (k: &u32) {
        &self.id
    }

    fn set_key(&mut self, key: &u32) {
        self.id = *key;
    }

    fn to_bytes(&self) -> (r: Vec<u8>) {
        let mut out: Vec<u8> = Vec::new();
        crate::bytes::push_u32_be(&mut out, self.id);
        out
    }

    fn from_bytes(b: &[u8]) -> (r: Option<Entity4>) {
        if b.len() == 4 {
            let id = read_u32_be(b, 0);
            proof {
                assert(b@.subrange(0, 4) =~= b@);
            }
            Some(Entity4 { id })
        } else {
            None
        }
    }

    fn get_sibling_trees() -> (r: Vec<(String, DeletionBehaviour)>) {
        let mut out: Vec<(String, DeletionBehaviour)> = Vec::new();
        // no declared keyspaces
        proof {
            assert(tree_list_view(out@) =~= Self::sibling_trees_spec());
        }
        out
    }

    fn get_child_trees() -> (r: Vec<(String, DeletionBehaviour)>) {
        let mut out: Vec<(String, DeletionBehaviour)> = Vec::new();
        // no declared keyspaces
        proof {
            assert(tree_list_view(out@) =~= Self::child_trees_spec());
        }
        out
    }

    proof fn law_codec(r: &Self) {
        lemma_be32_roundtrip(r.id);
        assert(Self::dec_view(r.rec_enc()) == be32_val(be32(r.id)));
    }

    proof fn law_store_name() {
        reveal_strlit("entity_4");
        assert(valid_store_name("entity_4"@));
    }
}


/// A record keyed by a `u32`, carrying a text property; its `entity_3`
/// sibling cascades away with it.
pub struct Entity1 {
    pub id: u32,
    pub prop1: String,
}

impl View for Entity1 {
    type V = (u32, Seq<char>);

    open spec fn view(&self) -> (u32, Seq<char>) {
        (self.id, self.prop1@)
    }
}

impl Entity for Entity1 {
    type Key = u32;

    open spec fn name_spec() -> Seq<char> {
        "entity_1"@
    }

    open spec fn key_spec(&self) -> u32 {
        self.id
    }

    open spec fn rec_enc(&self) -> Seq<u8> {
        be32(self.id) + enc_str(self.prop1@)
    }

    open spec fn dec_ok(b: Seq<u8>) -> bool {
        b.len() >= 4 && (match dec_str_at(b, 4) {
            Some((s, j)) => j == b.len(),
            None => false,
        })
    }

    open spec fn dec_view(b: Seq<u8>) -> (u32, Seq<char>) {
        (be32_val(b.subrange(0, 4)), dec_str_at(b, 4)->Some_0.0)
    }

    open spec fn rec_wf(&self) -> bool {
        str_bounded(self.prop1@)
    }

    open spec fn sibling_trees_spec() -> Seq<(Seq<char>, DeletionBehaviour)> {
        seq![("entity_3"@, DeletionBehaviour::Cascade)]
    }

    open spec fn child_trees_spec() -> Seq<(Seq<char>, DeletionBehaviour)> {
        Seq::empty()
    }

    fn store_name() -> (r: &'static str) {
        "entity_1"
    }

    fn get_key(&self) -> (k: &u32) {
        &self.id
    }

    fn set_key(&mut self, key: &u32) {
        self.id = *key;
    }

    fn to_bytes(&self) -> (r: Vec<u8>) {
        let mut out: Vec<u8> = Vec::new();
        crate::bytes::push_u32_be(&mut out, self.id);
        crate::codec::push_string_chunk(&mut out, self.prop1.as_str());
        assert(out@ =~= self.rec_enc());
        out
    }

    fn from_bytes(b: &[u8]) -> (r: Option<Entity1>) {
        if b.len() < 4 {
            return None;
        }
        let id = read_u32_be(b, 0);
        match take_string(b, 4) {
            Some((s, j)) => {
                if j == b.len() {
                    Some(Entity1 { id, prop1: s })
                } else {
                    None
                }
            },
            None => None,
        }
    }

    fn get_sibling_trees() -> (r: Vec<(String, DeletionBehaviour)>) {
        let mut out: Vec<(String, DeletionBehaviour)> = Vec::new();
        out.push(("entity_3".to_owned(), DeletionBehaviour::Cascade));
        proof {
            assert(tree_list_view(out@) =~= Self::sibling_trees_spec());
        }
        out
    }

    fn get_child_trees() -> (r: Vec<(String, DeletionBehaviour)>) {
        let out: Vec<(String, DeletionBehaviour)> = Vec::new();
        proof {
            assert(tree_list_view(out@) =~= Self::child_trees_spec());
        }
        out
    }

    proof fn law_codec(r: &Self) {
        let b = r.rec_enc();
        assert(b.subrange(0, 4) =~= be32(r.id));
        lemma_be32_roundtrip(r.id);
        assert(b.subrange(4, 4 + enc_str(r.prop1@).len() as int) =~= enc_str(r.prop1@));
        lemma_dec_str_frame(b, 4, r.prop1@);
    }

    proof fn law_store_name() {
        reveal_strlit("entity_1");
        assert(valid_store_name("entity_1"@));
    }
}

/// A record keyed by a string, carrying a numeric property; its children in
/// `child_entity_1` cascade away with it.
pub struct Entity2 {
    pub id: String,
    pub prop2: u32,
}

impl View for Entity2 {
    type V = (Seq<char>, u32);

    open spec fn view(&self) -> (Seq<char>, u32) {
        (self.id@, self.prop2)
    }
}

impl Entity for Entity2 {
    type Key = String;

    open spec fn name_spec() -> Seq<char> {
        "entity_2"@
    }

    open spec fn key_spec(&self) -> String {
        self.id
    }

    open spec fn rec_enc(&self) -> Seq<u8> {
        enc_str(self.id@) + be32(self.prop2)
    }

    open spec fn dec_ok(b: Seq<u8>) -> bool {
        match dec_str_at(b, 0) {
            Some((s, j)) => j + 4 == b.len(),
            None => false,
        }
    }

    open spec fn dec_view(b: Seq<u8>) -> (Seq<char>, u32) {
        let (s, j) = dec_str_at(b, 0)->Some_0;
        (s, be32_val(b.subrange(j, j + 4)))
    }

    open spec fn rec_wf(&self) -> bool {
        str_bounded(self.id@)
    }

    open spec fn sibling_trees_spec() -> Seq<(Seq<char>, DeletionBehaviour)> {
        Seq::empty()
    }

    open spec fn child_trees_spec() -> Seq<(Seq<char>, DeletionBehaviour)> {
        seq![("child_entity_1"@, DeletionBehaviour::Cascade)]
    }

    fn store_name() -> (r: &'static str) {
        "entity_2"
    }

    fn get_key(&self) -> (k: &String) {
        &self.id
    }

    fn set_key(&mut self, key: &String) {
        self.id = key.clone();
    }

    fn to_bytes(&self) -> (r: Vec<u8>) {
        let mut out: Vec<u8> = Vec::new();
        crate::codec::push_string_chunk(&mut out, self.id.as_str());
        crate::bytes::push_u32_be(&mut out, self.prop2);
        assert(out@ =~= self.rec_enc());
        out
    }

    fn from_bytes(b: &[u8]) -> (r: Option<Entity2>) {
        match take_string(b, 0) {
            Some((s, j)) => {
                if b.len() >= 4 && j == b.len() - 4 {
                    let p = read_u32_be(b, j);
                    Some(Entity2 { id: s, prop2: p })
                } else {
                    None
                }
            },
            None => None,
        }
    }

    fn get_sibling_trees() -> (r: Vec<(String, DeletionBehaviour)>) {
        let out: Vec<(String, DeletionBehaviour)> = Vec::new();
        proof {
            assert(tree_list_view(out@) =~= Self::sibling_trees_spec());
        }
        out
    }

    fn get_child_trees() -> (r: Vec<(String, DeletionBehaviour)>) {
        let mut out: Vec<(String, DeletionBehaviour)> = Vec::new();
        out.push(("child_entity_1".to_owned(), DeletionBehaviour::Cascade));
        proof {
            assert(tree_list_view(out@) =~= Self::child_trees_spec());
        }
        out
    }

    proof fn law_codec(r: &Self) {
        let b = r.rec_enc();
        let l = enc_str(r.id@).len() as int;
        assert(b.subrange(0, l) =~= enc_str(r.id@));
        lemma_dec_str_frame(b, 0, r.id@);
        assert(b.subrange(l, l + 4) =~= be32(r.prop2));
        lemma_be32_roundtrip(r.prop2);
    }

    proof fn law_store_name() {
        reveal_strlit("entity_2");
        assert(valid_store_name("entity_2"@));
    }
}

/// A child record of `entity_2`: keyed by the parent's string key and a
/// numeric tail.
pub struct ChildEntity1 {
    pub id: (String, u32),
}

impl View for ChildEntity1 {
    type V = (Seq<char>, u32);

    open spec fn view(&self) -> (Seq<char>, u32) {
        (self.id.0@, self.id.1)
    }
}

impl Entity for ChildEntity1 {
    type Key = (String, u32);

    open spec fn name_spec() -> Seq<char> {
        "child_entity_1"@
    }

    open spec fn key_spec(&self) -> (String, u32) {
        self.id
    }

    open spec fn rec_enc(&self) -> Seq<u8> {
        enc_str(self.id.0@) + be32(self.id.1)
    }

    open spec fn dec_ok(b: Seq<u8>) -> bool {
        match dec_str_at(b, 0) {
            Some((s, j)) => j + 4 == b.len(),
            None => false,
        }
    }

    open spec fn dec_view(b: Seq<u8>) -> (Seq<char>, u32) {
        let (s, j) = dec_str_at(b, 0)->Some_0;
        (s, be32_val(b.subrange(j, j + 4)))
    }

    open spec fn rec_wf(&self) -> bool {
        str_bounded(self.id.0@)
    }

    open spec fn sibling_trees_spec() -> Seq<(Seq<char>, DeletionBehaviour)> {
        Seq::empty()
    }

    open spec fn child_trees_spec() -> Seq<(Seq<char>, DeletionBehaviour)> {
        seq![("grand_child_entity"@, DeletionBehaviour::Cascade)]
    }

    fn store_name() -> (r: &'static str) {
        "child_entity_1"
    }

    fn get_key(&self) -> (k: &(String, u32)) {
        &self.id
    }

    fn set_key(&mut self, key: &(String, u32)) {
        self.id = (key.0.clone(), key.1);
    }

    fn to_bytes(&self) -> (r: Vec<u8>) {
        let mut out: Vec<u8> = Vec::new();
        crate::codec::push_string_chunk(&mut out, self.id.0.as_str());
        crate::bytes::push_u32_be(&mut out, self.id.1);
        assert(out@ =~= self.rec_enc());
        out
    }

    fn from_bytes(b: &[u8]) -> (r: Option<ChildEntity1>) {
        match take_string(b, 0) {
            Some((s, j)) => {
                if b.len() >= 4 && j == b.len() - 4 {
                    let p = read_u32_be(b, j);
                    Some(ChildEntity1 { id: (s, p) })
                } else {
                    None
                }
            },
            None => None,
        }
    }

    fn get_sibling_trees() -> (r: Vec<(String, DeletionBehaviour)>) {
        let out: Vec<(String, DeletionBehaviour)> = Vec::new();
        proof {
            assert(tree_list_view(out@) =~= Self::sibling_trees_spec());
        }
        out
    }

    fn get_child_trees() -> (r: Vec<(String, DeletionBehaviour)>) {
        let mut out: Vec<(String, DeletionBehaviour)> = Vec::new();
        out.push(("grand_child_entity".to_owned(), DeletionBehaviour::Cascade));
        proof {
            assert(tree_list_view(out@) =~= Self::child_trees_spec());
        }
        out
    }

    proof fn law_codec(r: &Self) {
        let b = r.rec_enc();
        let l = enc_str(r.id.0@).len() as int;
        assert(b.subrange(0, l) =~= enc_str(r.id.0@));
        lemma_dec_str_frame(b, 0, r.id.0@);
        assert(b.subrange(l, l + 4) =~= be32(r.id.1));
        lemma_be32_roundtrip(r.id.1);
    }

    proof fn law_store_name() {
        reveal_strlit("child_entity_1");
        assert(valid_store_name("child_entity_1"@));
    }
}

/// A child record of `child_entity_1`: keyed by its parent's full key and a
/// numeric tail.
pub struct GrandChildEntity {
    pub id: ((String, u32), u32),
}

impl View for GrandChildEntity {
    type V = ((Seq<char>, u32), u32);

    open spec fn view(&self) -> ((Seq<char>, u32), u32) {
        ((self.id.0.0@, self.id.0.1), self.id.1)
    }
}

impl Entity for GrandChildEntity {
    type Key = ((String, u32), u32);

    open spec fn name_spec() -> Seq<char> {
        "grand_child_entity"@
    }

    open spec fn key_spec(&self) -> ((String, u32), u32) {
        self.id
    }

    open spec fn rec_enc(&self) -> Seq<u8> {
        enc_str(self.id.0.0@) + be32(self.id.0.1) + be32(self.id.1)
    }

    open spec fn dec_ok(b: Seq<u8>) -> bool {
        match dec_str_at(b, 0) {
            Some((s, j)) => j + 8 == b.len(),
            None => false,
        }
    }

    open spec fn dec_view(b: Seq<u8>) -> ((Seq<char>, u32), u32) {
        let (s, j) = dec_str_at(b, 0)->Some_0;
        ((s, be32_val(b.subrange(j, j + 4))), be32_val(b.subrange(j + 4, j + 8)))
    }

    open spec fn rec_wf(&self) -> bool {
        str_bounded(self.id.0.0@)
    }

    open spec fn sibling_trees_spec() -> Seq<(Seq<char>, DeletionBehaviour)> {
        Seq::empty()
    }

    open spec fn child_trees_spec() -> Seq<(Seq<char>, DeletionBehaviour)> {
        Seq::empty()
    }

    fn store_name() -> (r: &'static str) {
        "grand_child_entity"
    }

    fn get_key(&self) -> (k: &((String, u32), u32)) {
        &self.id
    }

    fn set_key(&mut self, key: &((String, u32), u32)) {
        self.id = ((key.0.0.clone(), key.0.1), key.1);
    }

    fn to_bytes(&self) -> (r: Vec<u8>) {
        let mut out: Vec<u8> = Vec::new();
        crate::codec::push_string_chunk(&mut out, self.id.0.0.as_str());
        crate::bytes::push_u32_be(&mut out, self.id.0.1);
        crate::bytes::push_u32_be(&mut out, self.id.1);
        assert(out@ =~= self.rec_enc());
        out
    }

    fn from_bytes(b: &[u8]) -> (r: Option<GrandChildEntity>) {
        match take_string(b, 0) {
            Some((s, j)) => {
                if b.len() >= 8 && j == b.len() - 8 {
                    let p = read_u32_be(b, j);
                    let q = read_u32_be(b, j + 4);
                    Some(GrandChildEntity { id: ((s, p), q) })
                } else {
                    None
                }
            },
            None => None,
        }
    }

    fn get_sibling_trees() -> (r: Vec<(String, DeletionBehaviour)>) {
        let out: Vec<(String, DeletionBehaviour)> = Vec::new();
        proof {
            assert(tree_list_view(out@) =~= Self::sibling_trees_spec());
        }
        out
    }

    fn get_child_trees() -> (r: Vec<(String, DeletionBehaviour)>) {
        let out: Vec<(String, DeletionBehaviour)> = Vec::new();
        proof {
            assert(tree_list_view(out@) =~= Self::child_trees_spec());
        }
        out
    }

    proof fn law_codec(r: &Self) {
        let b = r.rec_enc();
        let l = enc_str(r.id.0.0@).len() as int;
        assert(b.subrange(0, l) =~= enc_str(r.id.0.0@));
        lemma_dec_str_frame(b, 0, r.id.0.0@);
        assert(b.subrange(l, l + 4) =~= be32(r.id.0.1));
        assert(b.subrange(l + 4, l + 8) =~= be32(r.id.1));
        lemma_be32_roundtrip(r.id.0.1);
        lemma_be32_roundtrip(r.id.1);
    }

    proof fn law_store_name() {
        reveal_strlit("grand_child_entity");
        assert(valid_store_name("grand_child_entity"@));
    }
}

/// A child record of `entity_3`: keyed by the parent's numeric key and a
/// numeric tail.
pub struct ChildEntity2 {
    pub id: (u32, u32),
}

impl View for ChildEntity2 {
    type V = (u32, u32);

    open spec fn view(&self) -> (u32, u32) {
        self.id
    }
}

impl Entity for ChildEntity2 {
    type Key = (u32, u32);

    open spec fn name_spec() -> Seq<char> {
        "child_entity_2"@
    }

    open spec fn key_spec(&self) -> (u32, u32) {
        self.id
    }

    open spec fn rec_enc(&self) -> Seq<u8> {
        be32(self.id.0) + be32(self.id.1)
    }

    open spec fn dec_ok(b: Seq<u8>) -> bool {
        b.len() == 8
    }

    open spec fn dec_view(b: Seq<u8>) -> (u32, u32) {
        (be32_val(b.subrange(0, 4)), be32_val(b.subrange(4, 8)))
    }

    open spec fn rec_wf(&self) -> bool {
        true
    }

    open spec fn sibling_trees_spec() -> Seq<(Seq<char>, DeletionBehaviour)> {
        Seq::empty()
    }

    open spec fn child_trees_spec() -> Seq<(Seq<char>, DeletionBehaviour)> {
        Seq::empty()
    }

    fn store_name() -> (r: &'static str) {
        "child_entity_2"
    }

    fn get_key(&self) -> (k: &(u32, u32)) {
        &self.id
    }

    fn set_key(&mut self, key: &(u32, u32)) {
        self.id = *key;
    }

    fn to_bytes(&self) -> (r: Vec<u8>) {
        let mut out: Vec<u8> = Vec::new();
        crate::bytes::push_u32_be(&mut out, self.id.0);
        crate::bytes::push_u32_be(&mut out, self.id.1);
        assert(out@ =~= self.rec_enc());
        out
    }

    fn from_bytes(b: &[u8]) -> (r: Option<ChildEntity2>) {
        if b.len() == 8 {
            let a = read_u32_be(b, 0);
            let c = read_u32_be(b, 4);
            Some(ChildEntity2 { id: (a, c) })
        } else {
            None
        }
    }

    fn get_sibling_trees() -> (r: Vec<(String, DeletionBehaviour)>) {
        let out: Vec<(String, DeletionBehaviour)> = Vec::new();
        proof {
            assert(tree_list_view(out@) =~= Self::sibling_trees_spec());
        }
        out
    }

    fn get_child_trees() -> (r: Vec<(String, DeletionBehaviour)>) {
        let out: Vec<(String, DeletionBehaviour)> = Vec::new();
        proof {
            assert(tree_list_view(out@) =~= Self::child_trees_spec());
        }
        out
    }

    proof fn law_codec(r: &Self) {
        let b = r.rec_enc();
        assert(b.subrange(0, 4) =~= be32(r.id.0));
        assert(b.subrange(4, 8) =~= be32(r.id.1));
        lemma_be32_roundtrip(r.id.0);
        lemma_be32_roundtrip(r.id.1);
    }

    proof fn law_store_name() {
        reveal_strlit("child_entity_2");
        assert(valid_store_name("child_entity_2"@));
    }
}

} // verus!
