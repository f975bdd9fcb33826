use vstd::prelude::*;
use vstd::string::StrSliceExecFns;
use vstd::utf8::encode_utf8;

verus! {

// ---------------------------------------------------------------------------
// Lexicographic order on byte sequences.
//
// This is the order in which the storage engine keeps and iterates keys, so
// every contract about ranges, prefixes, first/last entries and pagination is
// phrased over it.
// ---------------------------------------------------------------------------

/// Strict lexicographic order on byte sequences: a proper prefix sorts first.
pub open spec fn lex_lt(a: Seq<u8>, b: Seq<u8>) -> bool
    decreases a.len(),
{
    if b.len() == 0 {
        false
    } else if a.len() == 0 {
        true
    } else if a[0] < b[0] {
        true
    } else if a[0] > b[0] {
        false
    } else {
        lex_lt(a.drop_first(), b.drop_first())
    }
}

pub proof fn lemma_lex_lt_irreflexive(a: Seq<u8>)
    ensures
        !lex_lt(a, a),
    decreases a.len(),
{
    if a.len() > 0 {
        lemma_lex_lt_irreflexive(a.drop_first());
    }
}

pub proof fn lemma_lex_lt_transitive(a: Seq<u8>, b: Seq<u8>, c: Seq<u8>)
    requires
        lex_lt(a, b),
        lex_lt(b, c),
    ensures
        lex_lt(a, c),
    decreases a.len(),
{
    if a.len() > 0 && b.len() > 0 && c.len() > 0 && a[0] == b[0] && b[0] == c[0] {
        lemma_lex_lt_transitive(a.drop_first(), b.drop_first(), c.drop_first());
    }
}

pub proof fn lemma_lex_lt_total(a: Seq<u8>, b: Seq<u8>)
    requires
        a != b,
    ensures
        lex_lt(a, b) || lex_lt(b, a),
    decreases a.len(),
{
    if a.len() == 0 && b.len() == 0 {
        assert(a =~= b);
    }
    if a.len() != 0 && b.len() != 0 && a[0] == b[0] {
        if a.drop_first() == b.drop_first() {
            assert(a.drop_first().len() == a.len() - 1);
            assert(b.drop_first().len() == b.len() - 1);
            assert(a.len() == b.len());
            assert forall|i: int| 0 <= i < a.len() implies a[i] == b[i] by {
                if i > 0 {
                    assert(a[i] == a.drop_first()[i - 1]);
                    assert(b[i] == b.drop_first()[i - 1]);
                }
            }
            assert(a =~= b);
        }
        lemma_lex_lt_total(a.drop_first(), b.drop_first());
    }
}

/// `p` is a prefix of `k`.
pub open spec fn has_prefix(k: Seq<u8>, p: Seq<u8>) -> bool {
    p.len() <= k.len() && k.subrange(0, p.len() as int) == p
}

/// The key filter that keeps the keys starting with `p`.
pub open spec fn prefix_pred(p: Seq<u8>) -> spec_fn(Seq<u8>) -> bool {
    |k: Seq<u8>| has_prefix(k, p)
}

/// The key filter that keeps the keys in `[lo, hi)`.
pub open spec fn range_pred(lo: Seq<u8>, hi: Seq<u8>) -> spec_fn(Seq<u8>) -> bool {
    |k: Seq<u8>| !lex_lt(k, lo) && lex_lt(k, hi)
}

/// The empty prefix keeps every key.
pub proof fn lemma_empty_prefix_total(k: Seq<u8>)
    ensures
        prefix_pred(Seq::<u8>::empty())(k),
{
    assert(k.subrange(0, 0) =~= Seq::<u8>::empty());
}

// ---------------------------------------------------------------------------
// Big-endian encodings of fixed-width integers.
// ---------------------------------------------------------------------------

/// The four big-endian bytes of a `u32`.
pub open spec fn be32(x: u32) -> Seq<u8> {
    seq![(x >> 24) as u8, (x >> 16) as u8, (x >> 8) as u8, x as u8]
}

/// The `u32` read back from four big-endian bytes.
pub open spec fn be32_val(s: Seq<u8>) -> u32
    recommends
        s.len() == 4,
{
    ((s[0] as u32) << 24) | ((s[1] as u32) << 16) | ((s[2] as u32) << 8) | (s[3] as u32)
}

pub proof fn lemma_be32_roundtrip(x: u32)
    ensures
        be32_val(be32(x)) == x,
{
    assert((((x >> 24) as u8 as u32) << 24) | (((x >> 16) as u8 as u32) << 16) | (((x
        >> 8) as u8 as u32) << 8) | (x as u8 as u32) == x) by (bit_vector);
}

/// The eight big-endian bytes of a `u64`.
pub open spec fn be64(x: u64) -> Seq<u8> {
    seq![
        (x >> 56) as u8,
        (x >> 48) as u8,
        (x >> 40) as u8,
        (x >> 32) as u8,
        (x >> 24) as u8,
        (x >> 16) as u8,
        (x >> 8) as u8,
        x as u8,
    ]
}

/// The `u64` read back from eight big-endian bytes.
pub open spec fn be64_val(s: Seq<u8>) -> u64
    recommends
        s.len() == 8,
{
    ((s[0] as u64) << 56) | ((s[1] as u64) << 48) | ((s[2] as u64) << 40) | ((s[3] as u64) << 32)
        | ((s[4] as u64) << 24) | ((s[5] as u64) << 16) | ((s[6] as u64) << 8) | (s[7] as u64)
}

pub proof fn lemma_be64_roundtrip(x: u64)
    ensures
        be64_val(be64(x)) == x,
{
    assert((((x >> 56) as u8 as u64) << 56) | (((x >> 48) as u8 as u64) << 48) | (((x
        >> 40) as u8 as u64) << 40) | (((x >> 32) as u8 as u64) << 32) | (((x
        >> 24) as u8 as u64) << 24) | (((x >> 16) as u8 as u64) << 16) | (((x
        >> 8) as u8 as u64) << 8) | (x as u8 as u64) == x) by (bit_vector);
}

/// Appends the four big-endian bytes of `x` to `out`.
pub fn push_u32_be(out: &mut Vec<u8>, x: u32)
    ensures
        final(out)@ == old(out)@ + be32(x),
{
    out.push((x >> 24) as u8);
    out.push((x >> 16) as u8);
    out.push((x >> 8) as u8);
    out.push(x as u8);
    assert(final(out)@ =~= old(out)@ + be32(x));
}

/// Appends the eight big-endian bytes of `x` to `out`.
pub fn push_u64_be(out: &mut Vec<u8>, x: u64)
    ensures
        final(out)@ == old(out)@ + be64(x),
{
    out.push((x >> 56) as u8);
    out.push((x >> 48) as u8);
    out.push((x >> 40) as u8);
    out.push((x >> 32) as u8);
    out.push((x >> 24) as u8);
    out.push((x >> 16) as u8);
    out.push((x >> 8) as u8);
    out.push(x as u8);
    assert(final(out)@ =~= old(out)@ + be64(x));
}

/// Reads a `u32` from the four big-endian bytes at `at` in `b`.
pub fn read_u32_be(b: &[u8], at: usize) -> (r: u32)
    requires
        at + 4 <= b@.len(),
    ensures
        r == be32_val(b@.subrange(at as int, at + 4)),
{
    let r = ((b[at] as u32) << 24) | ((b[at + 1] as u32) << 16) | ((b[at + 2] as u32) << 8) | (b[at
        + 3] as u32);
    proof {
        let s = b@.subrange(at as int, at + 4);
        assert(s[0] == b@[at as int] && s[1] == b@[at + 1] && s[2] == b@[at + 2] && s[3] == b@[at
            + 3]);
    }
    r
}

/// Reads a `u64` from the eight big-endian bytes at `at` in `b`.
pub fn read_u64_be(b: &[u8], at: usize) -> (r: u64)
    requires
        at + 8 <= b@.len(),
    ensures
        r == be64_val(b@.subrange(at as int, at + 8)),
{
    let r = ((b[at] as u64) << 56) | ((b[at + 1] as u64) << 48) | ((b[at + 2] as u64) << 40) | ((b[at
        + 3] as u64) << 32) | ((b[at + 4] as u64) << 24) | ((b[at + 5] as u64) << 16) | ((b[at
        + 6] as u64) << 8) | (b[at + 7] as u64);
    proof {
        let s = b@.subrange(at as int, at + 8);
        assert(s[0] == b@[at as int] && s[1] == b@[at + 1] && s[2] == b@[at + 2] && s[3] == b@[at
            + 3] && s[4] == b@[at + 4] && s[5] == b@[at + 5] && s[6] == b@[at + 6] && s[7] == b@[at
            + 7]);
    }
    r
}

// ---------------------------------------------------------------------------
// Typed keys.
//
// Every key type converts to a byte form; the byte form is what the storage
// engine orders and what every keyspace is addressed by.
// ---------------------------------------------------------------------------

/// Conversion of a typed key to its stable byte form.
///
/// Unsigned integers use big-endian bytes, so their byte order matches their
/// numeric order. Signed integers use their raw big-endian two's-complement
/// bytes, so negative values sort after positive ones. Strings use their
/// UTF-8 bytes, unterminated. Pairs concatenate the parts without a
/// separator, so a pair key supports prefix scans by its first part whenever
/// that part has fixed width.
pub trait AsBytes: Sized {
    /// The byte form, as a mathematical value.
    spec fn bytes_spec(&self) -> Seq<u8>;

    /// Returns a new binary representation of `self` as a `Vec<u8>`.
    fn as_bytes(&self) -> (r: Vec<u8>)
        ensures
            r@ == self.bytes_spec(),
    ;

    /// Returns an owned key with the same byte form.
    fn dup(&self) -> (r: Self)
        ensures
            r.bytes_spec() == self.bytes_spec(),
    ;
}

impl AsBytes for u32 {
    fn dup(&self) -> (r: Self) {
        *self
    }

    open spec fn bytes_spec(&self) -> Seq<u8> {
        be32(*self)
    }

    fn as_bytes(&self) -> (r: Vec<u8>) {
        let mut out: Vec<u8> = Vec::new();
        push_u32_be(&mut out, *self);
        out
    }
}

impl AsBytes for u64 {
    fn dup(&self) -> (r: Self) {
        *self
    }

    open spec fn bytes_spec(&self) -> Seq<u8> {
        be64(*self)
    }

    fn as_bytes(&self) -> (r: Vec<u8>) {
        let mut out: Vec<u8> = Vec::new();
        push_u64_be(&mut out, *self);
        out
    }
}

impl AsBytes for i32 {
    fn dup(&self) -> (r: Self) {
        *self
    }

    open spec fn bytes_spec(&self) -> Seq<u8> {
        be32(*self as u32)
    }

    fn as_bytes(&self) -> (r: Vec<u8>) {
        let mut out: Vec<u8> = Vec::new();
        push_u32_be(&mut out, *self as u32);
        out
    }
}

impl AsBytes for i64 {
    fn dup(&self) -> (r: Self) {
        *self
    }

    open spec fn bytes_spec(&self) -> Seq<u8> {
        be64(*self as u64)
    }

    fn as_bytes(&self) -> (r: Vec<u8>) {
        let mut out: Vec<u8> = Vec::new();
        push_u64_be(&mut out, *self as u64);
        out
    }
}

impl AsBytes for String {
    fn dup(&self) -> (r: Self) {
        self.clone()
    }

    open spec fn bytes_spec(&self) -> Seq<u8> {
        encode_utf8(self@)
    }

    fn as_bytes(&self) -> (r: Vec<u8>) {
        self.as_str().as_bytes_vec()
    }
}

impl AsBytes for Vec<u8> {
    fn dup(&self) -> (r: Self) {
        self.as_bytes()
    }

    open spec fn bytes_spec(&self) -> Seq<u8> {
        self@
    }

    fn as_bytes(&self) -> (r: Vec<u8>) {
        let mut out: Vec<u8> = Vec::new();
        let mut i: usize = 0;
        while i < self.len()
            invariant
                i <= self@.len(),
                out@ == self@.subrange(0, i as int),
            decreases self@.len() - i,
        {
            out.push(self[i]);
            i = i + 1;
            assert(out@ =~= self@.subrange(0, i as int));
        }
        assert(out@ =~= self@);
        out
    }
}

impl<K1: AsBytes, K2: AsBytes> AsBytes for (K1, K2) {
    fn dup(&self) -> (r: Self) {
        (self.0.dup(), self.1.dup())
    }

    open spec fn bytes_spec(&self) -> Seq<u8> {
        self.0.bytes_spec() + self.1.bytes_spec()
    }

    fn as_bytes(&self) -> (r: Vec<u8>) {
        let mut a = self.0.as_bytes();
        let mut b = self.1.as_bytes();
        a.append(&mut b);
        a
    }
}

// ---------------------------------------------------------------------------
// Ordered entry listings.
// ---------------------------------------------------------------------------

/// `es` lists exactly the entries of `m` whose keys satisfy `p`, in strictly
/// ascending lexicographic key order.
pub open spec fn sorted_filtered_entries(
    m: Map<Seq<u8>, Seq<u8>>,
    p: spec_fn(Seq<u8>) -> bool,
    es: Seq<(Seq<u8>, Seq<u8>)>,
) -> bool {
    &&& forall|i: int|
        0 <= i < es.len() ==> p((#[trigger] es[i]).0) && m.contains_pair(es[i].0, es[i].1)
    &&& forall|k: Seq<u8>|
        #[trigger] m.contains_key(k) && p(k) ==> exists|i: int|
            0 <= i < es.len() && (#[trigger] es[i]).0 == k
    &&& forall|i: int, j: int| 0 <= i < j < es.len() ==> lex_lt(es[i].0, es[j].0)
}

/// Two sorted listings of the same filtered map are the same sequence.
pub proof fn lemma_sorted_entries_unique(
    m: Map<Seq<u8>, Seq<u8>>,
    p: spec_fn(Seq<u8>) -> bool,
    es1: Seq<(Seq<u8>, Seq<u8>)>,
    es2: Seq<(Seq<u8>, Seq<u8>)>,
)
    requires
        sorted_filtered_entries(m, p, es1),
        sorted_filtered_entries(m, p, es2),
    ensures
        es1 == es2,
    decreases es1.len(),
{
    if es1.len() == 0 {
        if es2.len() > 0 {
            assert(m.contains_key(es2[0].0) && p(es2[0].0));
        }
        assert(es1 =~= es2);
    } else {
        assert(m.contains_key(es1[0].0) && p(es1[0].0));
        let j = choose|j: int| 0 <= j < es2.len() && (#[trigger] es2[j]).0 == es1[0].0;
        if j > 0 {
            assert(lex_lt(es2[0].0, es2[j].0));
            assert(m.contains_key(es2[0].0) && p(es2[0].0));
            let i = choose|i: int| 0 <= i < es1.len() && (#[trigger] es1[i]).0 == es2[0].0;
            if i == 0 {
                lemma_lex_lt_irreflexive(es2[0].0);
                assert(false);
            } else {
                assert(lex_lt(es1[0].0, es1[i].0));
                lemma_lex_lt_transitive(es1[0].0, es2[0].0, es1[0].0);
                lemma_lex_lt_irreflexive(es1[0].0);
                assert(false);
            }
        }
        assert(es2.len() > 0 && es2[0].0 == es1[0].0);
        assert(es1[0].1 == es2[0].1) by {
            assert(m.contains_pair(es1[0].0, es1[0].1));
            assert(m.contains_pair(es2[0].0, es2[0].1));
        }
        let k0 = es1[0].0;
        let q: spec_fn(Seq<u8>) -> bool = |k: Seq<u8>| p(k) && k != k0;
        assert(sorted_filtered_entries(m, q, es1.drop_first())) by {
            lemma_tail_sorted(m, p, es1);
        }
        assert(sorted_filtered_entries(m, q, es2.drop_first())) by {
            lemma_tail_sorted(m, p, es2);
        }
        lemma_sorted_entries_unique(m, q, es1.drop_first(), es2.drop_first());
        assert(es1 =~= es2) by {
            assert(es1[0] == es2[0]);
            assert(forall|i: int|
                1 <= i < es1.len() ==> es1[i] == es1.drop_first()[i - 1] && #[trigger] es2[i]
                    == es2.drop_first()[i - 1]);
        }
    }
}

proof fn lemma_tail_sorted(
    m: Map<Seq<u8>, Seq<u8>>,
    p: spec_fn(Seq<u8>) -> bool,
    es: Seq<(Seq<u8>, Seq<u8>)>,
)
    requires
        sorted_filtered_entries(m, p, es),
        es.len() > 0,
    ensures
        sorted_filtered_entries(m, |k: Seq<u8>| p(k) && k != es[0].0, es.drop_first()),
{
    let k0 = es[0].0;
    let tail = es.drop_first();
    assert forall|i: int| 0 <= i < tail.len() implies (p((#[trigger] tail[i]).0) && tail[i].0 != k0
        && m.contains_pair(tail[i].0, tail[i].1)) by {
        assert(tail[i] == es[i + 1]);
        assert(lex_lt(es[0].0, es[i + 1].0));
        if tail[i].0 == k0 {
            lemma_lex_lt_irreflexive(k0);
        }
    }
    assert forall|k: Seq<u8>| #[trigger] m.contains_key(k) && p(k) && k != k0 implies exists|i: int|
        0 <= i < tail.len() && (#[trigger] tail[i]).0 == k by {
        let i = choose|i: int| 0 <= i < es.len() && (#[trigger] es[i]).0 == k;
        assert(i != 0);
        assert(tail[i - 1] == es[i]);
        assert(0 <= i - 1 < tail.len() && tail[i - 1].0 == k);
    }
    assert forall|i: int, j: int| 0 <= i < j < tail.len() implies lex_lt(
        (#[trigger] tail[i]).0,
        (#[trigger] tail[j]).0,
    ) by {
        assert(tail[i] == es[i + 1] && tail[j] == es[j + 1]);
    }
}

} // verus!
