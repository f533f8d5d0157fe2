//! Keys are byte strings ordered lexicographically.
use vstd::prelude::*;
use core::cmp::Ordering;

verus! {

/// `a` sorts before `b`: at the first byte where they differ `a`'s is smaller,
/// or `a` is a proper prefix of `b`.
pub open spec fn key_lt(a: Seq<u8>, b: Seq<u8>) -> bool
    decreases a.len(),
{
    if a.len() == 0 {
        b.len() > 0
    } else if b.len() == 0 {
        false
    } else if a[0] != b[0] {
        a[0] < b[0]
    } else {
        key_lt(a.skip(1), b.skip(1))
    }
}

pub proof fn lemma_key_lt_irreflexive(a: Seq<u8>)
    ensures
        !key_lt(a, a),
    decreases a.len(),
{
    if a.len() > 0 {
        lemma_key_lt_irreflexive(a.skip(1));
    }
}

pub proof fn lemma_key_lt_transitive(a: Seq<u8>, b: Seq<u8>, c: Seq<u8>)
    requires
        key_lt(a, b),
        key_lt(b, c),
    ensures
        key_lt(a, c),
    decreases a.len(),
{
    if a.len() > 0 && b.len() > 0 && c.len() > 0 && a[0] == b[0] && b[0] == c[0] {
        lemma_key_lt_transitive(a.skip(1), b.skip(1), c.skip(1));
    }
}

/// Two different keys are ordered one way or the other, never both.
pub proof fn lemma_key_lt_total(a: Seq<u8>, b: Seq<u8>)
    ensures
        a != b ==> (key_lt(a, b) || key_lt(b, a)),
        !(key_lt(a, b) && key_lt(b, a)),
    decreases a.len(),
{
    if a.len() > 0 && b.len() > 0 && a[0] == b[0] {
        lemma_key_lt_total(a.skip(1), b.skip(1));
        if a.skip(1) == b.skip(1) {
            assert(a =~= seq![a[0]] + a.skip(1));
            assert(b =~= seq![b[0]] + b.skip(1));
        }
    } else if a.len() == 0 && b.len() == 0 {
        assert(a =~= b);
    }
}

/// Compares two keys.
pub fn compare_keys(a: &Vec<u8>, b: &Vec<u8>) -> (r: Ordering)
    ensures
        (r == Ordering::Less) == key_lt(a@, b@),
        (r == Ordering::Equal) == (a@ == b@),
        (r == Ordering::Greater) == key_lt(b@, a@),
{
    proof {
        lemma_key_lt_total(a@, b@);
        lemma_key_lt_irreflexive(a@);
    }
    let mut i: usize = 0;
    assert(a@.skip(0) =~= a@ && b@.skip(0) =~= b@);
    while i < a.len() && i < b.len() && a[i] == b[i]
        invariant
            i <= a@.len(),
            i <= b@.len(),
            a@.subrange(0, i as int) == b@.subrange(0, i as int),
            key_lt(a@, b@) == key_lt(a@.skip(i as int), b@.skip(i as int)),
            key_lt(b@, a@) == key_lt(b@.skip(i as int), a@.skip(i as int)),
        decreases a@.len() - i,
    {
        assert(a@.skip(i as int).skip(1) =~= a@.skip(i + 1));
        assert(b@.skip(i as int).skip(1) =~= b@.skip(i + 1));
        assert(a@.subrange(0, i + 1) =~= a@.subrange(0, i as int).push(a@[i as int]));
        assert(b@.subrange(0, i + 1) =~= b@.subrange(0, i as int).push(b@[i as int]));
        i += 1;
    }
    if i == a.len() && i == b.len() {
        assert(a@ =~= a@.subrange(0, i as int));
        assert(b@ =~= b@.subrange(0, i as int));
        Ordering::Equal
    } else if i == a.len() {
        assert(a@ != b@ && a@.len() < b@.len());
        Ordering::Less
    } else if i == b.len() {
        assert(a@ != b@ && a@.len() > b@.len());
        Ordering::Greater
    } else if a[i] < b[i] {
        assert(a@[i as int] != b@[i as int]);
        Ordering::Less
    } else {
        assert(a@[i as int] != b@[i as int]);
        Ordering::Greater
    }
}

/// One end of a key range.
pub enum KeyBound {
    Included(Vec<u8>),
    Excluded(Vec<u8>),
    Unbounded,
}

/// `k` lies before the range that starts at `lo`.
pub open spec fn below_start(k: Seq<u8>, lo: KeyBound) -> bool {
    match lo {
        KeyBound::Included(x) => key_lt(k, x@),
        KeyBound::Excluded(x) => !key_lt(x@, k),
        KeyBound::Unbounded => false,
    }
}

/// `k` lies after the range that ends at `hi`.
pub open spec fn above_end(k: Seq<u8>, hi: KeyBound) -> bool {
    match hi {
        KeyBound::Included(x) => key_lt(x@, k),
        KeyBound::Excluded(x) => !key_lt(k, x@),
        KeyBound::Unbounded => false,
    }
}

pub open spec fn in_range(k: Seq<u8>, lo: KeyBound, hi: KeyBound) -> bool {
    !below_start(k, lo) && !above_end(k, hi)
}

} // verus!
