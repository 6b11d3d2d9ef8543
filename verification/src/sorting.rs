//! Stable sorting of registry entries by their identifier.
use vstd::prelude::*;
use vstd::seq_lib::*;

verus! {

/// An entry that carries an identifier to be sorted by.
pub trait KeyedEntry {
    spec fn key(&self) -> u32;

    fn entry_key(&self) -> (r: u32)
        ensures
            r == self.key(),
    ;
}

/// Keys never decrease along `s`.
pub open spec fn sorted_by_key<T: KeyedEntry>(s: Seq<T>) -> bool {
    forall|i: int, j: int| 0 <= i < j < s.len() ==> s[i].key() <= s[j].key()
}

/// Selects the entries whose key is `k`.
pub open spec fn has_key<T: KeyedEntry>(k: u32) -> spec_fn(T) -> bool {
    |x: T| x.key() == k
}

/// `r` is `s` sorted by key, stably: for every key, the entries with that key
/// appear in `r` in the same order as in `s`.
pub open spec fn stable_sort_of<T: KeyedEntry>(s: Seq<T>, r: Seq<T>) -> bool {
    &&& sorted_by_key(r)
    &&& r.to_multiset() == s.to_multiset()
    &&& forall|k: u32| #[trigger] r.filter(has_key::<T>(k)) == s.filter(has_key::<T>(k))
}

proof fn lemma_filter_insert<T: KeyedEntry>(s: Seq<T>, pos: int, e: T, k: u32)
    requires
        0 <= pos <= s.len(),
        forall|i: int| pos <= i < s.len() ==> s[i].key() > e.key(),
    ensures
        s.insert(pos, e).filter(has_key::<T>(k)) == if e.key() == k {
            s.filter(has_key::<T>(k)).push(e)
        } else {
            s.filter(has_key::<T>(k))
        },
{
    broadcast use group_seq_properties;
    broadcast use Seq::filter_distributes_over_add, Seq::lemma_filter_push;

    let p = has_key::<T>(k);
    let a = s.take(pos);
    let b = s.skip(pos);
    assert(s == a + b);
    assert(s.insert(pos, e) == a.push(e) + b);
    Seq::filter_distributes_over_add(a, b, p);
    Seq::filter_distributes_over_add(a.push(e), b, p);
    if e.key() == k {
        assert(b.all(|x: T| !p(x))) by {
            assert forall|i: int| 0 <= i < b.len() implies !p(b[i]) by {
                assert(b[i] == s[pos + i]);
            }
        }
        b.lemma_all_neg_filter_empty(p);
        assert(b.filter(p) =~= Seq::<T>::empty());
        assert(a.filter(p).push(e) + b.filter(p) == a.filter(p).push(e));
        assert(a.filter(p) + b.filter(p) == a.filter(p));
    }
}

/// Sort `v` by key, keeping entries with equal keys in the order they had.
pub fn sort_by_key<T: KeyedEntry>(v: &mut Vec<T>)
    ensures
        stable_sort_of(old(v)@, final(v)@),
        sorted_by_key(old(v)@) ==> final(v)@ == old(v)@,
{
    broadcast use group_seq_properties;
    broadcast use Seq::lemma_filter_prepend, to_multiset_insert, group_to_multiset_ensures;

    let ghost orig = v@;
    let mut src: Vec<T> = Vec::new();
    std::mem::swap(v, &mut src);
    assert(src@ == orig);
    assert(v@ =~= orig.take(0));
    while src.len() > 0
        invariant
            sorted_by_key(v@),
            v@.len() + src@.len() == orig.len(),
            src@ == orig.skip(v@.len() as int),
            v@.to_multiset().add(src@.to_multiset()) == orig.to_multiset(),
            forall|k: u32|
                #[trigger] v@.filter(has_key::<T>(k)) + src@.filter(has_key::<T>(k)) == orig.filter(
                    has_key::<T>(k),
                ),
            sorted_by_key(orig) ==> v@ == orig.take(v@.len() as int),
        decreases src@.len(),
    {
        let ghost v0 = v@;
        let ghost src0 = src@;
        let e = src.remove(0);
        assert(src0 == seq![e] + src@);
        let key = e.entry_key();
        let mut pos = v.len();
        while pos > 0 && v[pos - 1].entry_key() > key
            invariant
                v@ == v0,
                pos <= v@.len(),
                key == e.key(),
                forall|i: int| pos <= i < v@.len() ==> v@[i].key() > key,
            decreases pos,
        {
            pos = pos - 1;
        }
        proof {
            assert forall|i: int| 0 <= i < pos implies v0[i].key() <= key by {
                if pos > 0 {
                    assert(v0[pos - 1].key() <= key);
                    if i < pos - 1 {
                        assert(v0[i].key() <= v0[pos - 1].key());
                    }
                }
            }
            if sorted_by_key(orig) {
                let n = v0.len() as int;
                assert(orig[n] == e);
                if n > 0 {
                    assert(v0[n - 1] == orig[n - 1]);
                    assert(orig[n - 1].key() <= orig[n].key());
                }
                assert(pos == v0.len());
            }
            assert forall|k: u32| true implies #[trigger] v0.insert(pos as int, e).filter(has_key::<T>(k))
                + src@.filter(has_key::<T>(k)) == orig.filter(has_key::<T>(k)) by {
                lemma_filter_insert(v0, pos as int, e, k);
                src@.lemma_filter_prepend(e, has_key::<T>(k));
                assert(src0.filter(has_key::<T>(k)) == (if has_key::<T>(k)(e) {
                    seq![e]
                } else {
                    Seq::empty()
                }) + src@.filter(has_key::<T>(k)));
                assert(v0.filter(has_key::<T>(k)) + src0.filter(has_key::<T>(k)) == orig.filter(
                    has_key::<T>(k),
                ));
                if e.key() == k {
                    assert(v0.filter(has_key::<T>(k)).push(e) + src@.filter(has_key::<T>(k))
                        =~= v0.filter(has_key::<T>(k)) + (seq![e] + src@.filter(has_key::<T>(k))));
                } else {
                    assert(Seq::<T>::empty() + src@.filter(has_key::<T>(k)) =~= src@.filter(
                        has_key::<T>(k),
                    ));
                }
            }
            assert(src0.to_multiset() == src@.to_multiset().insert(e)) by {
                assert(src0 =~= src@.insert(0, e));
                to_multiset_insert(src@, 0, e);
            }
        }
        v.insert(pos, e);
        proof {
            assert(v@ == v0.insert(pos as int, e));
            assert forall|i: int, j: int| 0 <= i < j < v@.len() implies v@[i].key() <= v@[j].key() by {
                if i < pos && j < pos {
                    assert(v@[i] == v0[i] && v@[j] == v0[j]);
                } else if i < pos && j == pos {
                } else if i < pos {
                    assert(v@[i] == v0[i] && v@[j] == v0[j - 1]);
                } else if i == pos {
                    assert(v@[j] == v0[j - 1]);
                } else {
                    assert(v@[i] == v0[i - 1] && v@[j] == v0[j - 1]);
                }
            }
            assert(v@.to_multiset() == v0.to_multiset().insert(e)) by {
                to_multiset_insert(v0, pos as int, e);
            }
            assert(v0.to_multiset().add(src0.to_multiset()) == orig.to_multiset());
            assert(v@.to_multiset().add(src@.to_multiset()) =~= orig.to_multiset());
            assert(src@ =~= orig.skip(v@.len() as int));
            if sorted_by_key(orig) {
                assert(v@ =~= orig.take(v@.len() as int));
            }
        }
    }
    proof {
        assert(src@ =~= Seq::<T>::empty());
        assert(v@.to_multiset().add(Seq::<T>::empty().to_multiset()) =~= v@.to_multiset());
        assert forall|k: u32| #[trigger] v@.filter(has_key::<T>(k)) == orig.filter(has_key::<T>(k)) by {
            assert(v@.filter(has_key::<T>(k)) + src@.filter(has_key::<T>(k)) == orig.filter(
                has_key::<T>(k),
            ));
            assert(src@.filter(has_key::<T>(k)) =~= Seq::<T>::empty());
            assert(v@.filter(has_key::<T>(k)) + Seq::<T>::empty() =~= v@.filter(has_key::<T>(k)));
        }
        if sorted_by_key(orig) {
            assert(v@ =~= orig);
        }
    }
}

} // verus!

verus! {

impl KeyedEntry for u32 {
    open spec fn key(&self) -> u32 {
        *self
    }

    fn entry_key(&self) -> (r: u32) {
        *self
    }
}

} // verus!
