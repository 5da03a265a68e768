//! Byte strings: the handle type of the `bytes` crate with what is assumed of
//! it, and the order in which byte strings are compared.

use bytes::Bytes;
use vstd::prelude::*;

verus! {

/// `bytes::Bytes`, a handle on a run of bytes. Nothing is known of a handle
/// but what `content` says of it.
#[verifier::external_type_specification]
#[verifier::external_body]
pub struct ExBytes(Bytes);

/// The bytes that a `Bytes` handle denotes, in order.
pub uninterp spec fn content(b: Bytes) -> Seq<u8>;

/// `Bytes::copy_from_slice`: a fresh handle that denotes a copy of `data`.
#[verifier::external_body]
pub(crate) fn copy_of(data: &[u8]) -> (r: Bytes)
    ensures
        content(r) == data@,
{
    Bytes::copy_from_slice(data)
}

/// `Bytes::slice` on the range `begin..end`: a handle that denotes that part
/// of `b`. The call panics unless `begin <= end <= b.len()`, which the
/// precondition rules out.
#[verifier::external_body]
pub(crate) fn sub_bytes(b: &Bytes, begin: usize, end: usize) -> (r: Bytes)
    requires
        begin <= end <= content(*b).len(),
    ensures
        content(r) == content(*b).subrange(begin as int, end as int),
{
    b.slice(begin..end)
}

/// `AsRef<[u8]>::as_ref` of `Bytes`: the denoted bytes as a borrowed slice.
#[verifier::external_body]
pub(crate) fn as_slice(b: &Bytes) -> (r: &[u8])
    ensures
        r@ == content(*b),
{
    b.as_ref()
}

/// `Clone::clone` of `Bytes`: a second handle that denotes the same bytes.
#[verifier::external_body]
pub(crate) fn share(b: &Bytes) -> (r: Bytes)
    ensures
        content(r) == content(*b),
{
    b.clone()
}

/// What an optional byte string denotes.
pub open spec fn opt_content(b: Option<Bytes>) -> Option<Seq<u8>> {
    match b {
        Some(x) => Some(content(x)),
        None => None,
    }
}

/// Strict lexicographic order on byte strings: a proper prefix comes first,
/// otherwise the first differing byte decides.
pub open spec fn lex_lt(a: Seq<u8>, b: Seq<u8>) -> bool
    decreases a.len(),
{
    if b.len() == 0 {
        false
    } else if a.len() == 0 {
        true
    } else if a[0] != b[0] {
        a[0] < b[0]
    } else {
        lex_lt(a.drop_first(), b.drop_first())
    }
}

pub proof fn lemma_lex_irreflexive(a: Seq<u8>)
    ensures
        !lex_lt(a, a),
    decreases a.len(),
{
    if a.len() > 0 {
        lemma_lex_irreflexive(a.drop_first());
    }
}

pub proof fn lemma_lex_transitive(a: Seq<u8>, b: Seq<u8>, c: Seq<u8>)
    requires
        lex_lt(a, b),
        lex_lt(b, c),
    ensures
        lex_lt(a, c),
    decreases a.len(),
{
    if a.len() > 0 && a[0] == b[0] && b[0] == c[0] {
        lemma_lex_transitive(a.drop_first(), b.drop_first(), c.drop_first());
    }
}

pub proof fn lemma_lex_total(a: Seq<u8>, b: Seq<u8>)
    ensures
        lex_lt(a, b) || lex_lt(b, a) || a == b,
    decreases a.len(),
{
    if a.len() > 0 && b.len() > 0 && a[0] == b[0] {
        lemma_lex_total(a.drop_first(), b.drop_first());
        if a.drop_first() == b.drop_first() {
            assert(a =~= seq![a[0]] + a.drop_first());
            assert(b =~= seq![b[0]] + b.drop_first());
        }
    } else if a.len() == 0 && b.len() == 0 {
        assert(a =~= b);
    }
}

/// How two byte strings stand to each other in lexicographic order.
#[derive(Clone, Copy, Debug, PartialEq, Eq, Structural)]
pub enum Rank {
    Before,
    Same,
    After,
}

pub open spec fn rank_of(a: Seq<u8>, b: Seq<u8>) -> Rank {
    if a == b {
        Rank::Same
    } else if lex_lt(a, b) {
        Rank::Before
    } else {
        Rank::After
    }
}

proof fn lemma_lex_skip(a: Seq<u8>, b: Seq<u8>, k: int)
    requires
        0 <= k <= a.len(),
        k <= b.len(),
        a.subrange(0, k) == b.subrange(0, k),
    ensures
        lex_lt(a, b) == lex_lt(a.subrange(k, a.len() as int), b.subrange(k, b.len() as int)),
    decreases k,
{
    if k == 0 {
        assert(a.subrange(0, a.len() as int) =~= a);
        assert(b.subrange(0, b.len() as int) =~= b);
    } else {
        assert(a[0] == a.subrange(0, k)[0]);
        assert(b[0] == b.subrange(0, k)[0]);
        let a1 = a.drop_first();
        let b1 = b.drop_first();
        assert(a1.subrange(0, k - 1) =~= a.subrange(0, k).drop_first());
        assert(b1.subrange(0, k - 1) =~= b.subrange(0, k).drop_first());
        lemma_lex_skip(a1, b1, k - 1);
        assert(a1.subrange(k - 1, a1.len() as int) =~= a.subrange(k, a.len() as int));
        assert(b1.subrange(k - 1, b1.len() as int) =~= b.subrange(k, b.len() as int));
    }
}

/// Compares two byte strings lexicographically.
pub fn rank(a: &[u8], b: &[u8]) -> (r: Rank)
    ensures
        r == rank_of(a@, b@),
{
    let mut i: usize = 0;
    while i < a.len() && i < b.len()
        invariant
            i <= a.len(),
            i <= b.len(),
            a@.subrange(0, i as int) == b@.subrange(0, i as int),
        decreases a.len() - i,
    {
        if a[i] != b[i] {
            proof {
                lemma_lex_skip(a@, b@, i as int);
                let ra = a@.subrange(i as int, a@.len() as int);
                let rb = b@.subrange(i as int, b@.len() as int);
                assert(ra[0] == a@[i as int]);
                assert(rb[0] == b@[i as int]);
            }
            return if a[i] < b[i] {
                Rank::Before
            } else {
                Rank::After
            };
        }
        proof {
            assert(a@.subrange(0, i + 1) =~= a@.subrange(0, i as int).push(a@[i as int]));
            assert(b@.subrange(0, i + 1) =~= b@.subrange(0, i as int).push(b@[i as int]));
        }
        i += 1;
    }
    proof {
        lemma_lex_skip(a@, b@, i as int);
        let ra = a@.subrange(i as int, a@.len() as int);
        let rb = b@.subrange(i as int, b@.len() as int);
        if a@.len() == b@.len() {
            assert(a@ =~= a@.subrange(0, i as int));
            assert(b@ =~= b@.subrange(0, i as int));
        } else if i == a@.len() {
            assert(ra.len() == 0);
            assert(rb.len() > 0);
        } else {
            assert(rb.len() == 0);
        }
    }
    if a.len() == b.len() {
        Rank::Same
    } else if i == a.len() {
        Rank::Before
    } else {
        Rank::After
    }
}

/// Whether two handles denote the same bytes.
pub fn same_bytes(a: &Bytes, b: &Bytes) -> (r: bool)
    ensures
        r == (content(*a) == content(*b)),
{
    rank(as_slice(a), as_slice(b)) == Rank::Same
}

/// A second handle on an optional byte string.
pub fn share_opt(b: &Option<Bytes>) -> (r: Option<Bytes>)
    ensures
        opt_content(r) == opt_content(*b),
{
    match b {
        Some(x) => Some(share(x)),
        None => None,
    }
}

} // verus!
