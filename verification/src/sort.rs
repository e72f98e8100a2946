//! Sorting by lexicographic triple keys.
use vstd::prelude::*;
use vstd::relations::{sorted_by, total_ordering};

verus! {

broadcast use vstd::seq_lib::group_to_multiset_ensures;

pub type Key = (u64, u64, u64);

/// Lexicographic order on triples.
pub open spec fn key_le(a: Key, b: Key) -> bool {
    a.0 < b.0 || (a.0 == b.0 && (a.1 < b.1 || (a.1 == b.1 && a.2 <= b.2)))
}

pub open spec fn key_order() -> spec_fn(Key, Key) -> bool {
    |a: Key, b: Key| key_le(a, b)
}

pub proof fn lemma_key_order_total()
    ensures
        total_ordering(key_order()),
{
    assert forall|x: Key, y: Key| #[trigger] key_order()(x, y) && #[trigger] key_order()(y, x) implies x == y by {
        assert(x.0 == y.0 && x.1 == y.1 && x.2 == y.2);
    }
}

fn key_leq(a: &Key, b: &Key) -> (r: bool)
    ensures
        r == key_le(*a, *b),
{
    a.0 < b.0 || (a.0 == b.0 && (a.1 < b.1 || (a.1 == b.1 && a.2 <= b.2)))
}

/// The keys in ascending lexicographic order (the unique sorted
/// permutation, [`Seq::sort_by`] under [`key_order`]).
pub fn sort_keys(v: &Vec<Key>) -> (r: Vec<Key>)
    ensures
        r@ == v@.sort_by(key_order()),
{
    let mut out: Vec<Key> = Vec::new();
    let mut i: usize = 0;
    assert(v@.take(0) =~= Seq::<Key>::empty());
    while i < v.len()
        invariant
            i <= v@.len(),
            sorted_by(out@, key_order()),
            out@.to_multiset() == v@.take(i as int).to_multiset(),
        decreases v@.len() - i,
    {
        let x = v[i];
        let mut pos: usize = 0;
        while pos < out.len() && key_leq(&out[pos], &x)
            invariant
                pos <= out@.len(),
                forall|k: int| 0 <= k < pos ==> key_le(#[trigger] out@[k], x),
            decreases out@.len() - pos,
        {
            pos += 1;
        }
        let ghost before = out@;
        out.insert(pos, x);
        proof {
            assert forall|a: int, b: int| 0 <= a < b < out@.len() implies #[trigger] key_order()(out@[a], out@[b]) by {
                if b < pos {
                    assert(key_order()(before[a], before[b]));
                } else if b == pos {
                    assert(key_le(before[a], x));
                } else if a == pos {
                    assert(!key_le(before[pos as int], x));
                    assert(key_order()(before[pos as int], before[b - 1]) || pos as int == b - 1);
                } else if a < pos {
                    assert(key_le(before[a], x));
                    assert(!key_le(before[pos as int], x));
                    assert(key_order()(before[pos as int], before[b - 1]) || pos as int == b - 1);
                } else {
                    assert(key_order()(before[a - 1], before[b - 1]));
                }
            }
            assert(v@.take(i + 1) =~= v@.take(i as int).push(x));
        }
        i += 1;
    }
    proof {
        assert(v@.take(v@.len() as int) =~= v@);
        lemma_key_order_total();
        v@.lemma_sort_by_ensures(key_order());
        vstd::seq_lib::lemma_sorted_unique(out@, v@.sort_by(key_order()), key_order());
    }
    out
}

} // verus!
