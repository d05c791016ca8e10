//! Stable sorting by an integer key.
use vstd::prelude::*;

verus! {

/// `x` inserted into `s` after every item whose key is at most `x`'s: the
/// insertion step of a stable insertion sort.
pub open spec fn insert_by_key<T>(s: Seq<(u64, T)>, x: (u64, T)) -> Seq<(u64, T)>
    decreases s.len(),
{
    if s.len() == 0 {
        seq![x]
    } else if s.last().0 <= x.0 {
        s.push(x)
    } else {
        insert_by_key(s.drop_last(), x).push(s.last())
    }
}

/// `s` stably sorted by ascending key: items with equal keys keep their
/// relative order.
pub open spec fn sorted_by_key<T>(s: Seq<(u64, T)>) -> Seq<(u64, T)>
    decreases s.len(),
{
    if s.len() == 0 {
        seq![]
    } else {
        insert_by_key(sorted_by_key(s.drop_last()), s.last())
    }
}

proof fn lemma_insert_at<T>(s: Seq<(u64, T)>, x: (u64, T), p: int)
    requires
        0 <= p <= s.len(),
        forall|j: int| p <= j < s.len() ==> s[j].0 > x.0,
        p == 0 || s[p - 1].0 <= x.0,
    ensures
        insert_by_key(s, x) == s.insert(p, x),
    decreases s.len(),
{
    if s.len() == 0 {
        assert(s.insert(p, x) =~= seq![x]);
    } else if p == s.len() {
        assert(s.insert(p, x) =~= s.push(x));
    } else {
        lemma_insert_at(s.drop_last(), x, p);
        assert(s.drop_last().insert(p, x).push(s.last()) =~= s.insert(p, x));
    }
}

/// Items stably sorted by ascending key.
pub fn sort_by_key<T>(items: Vec<(u64, T)>) -> (r: Vec<(u64, T)>)
    ensures
        r@ == sorted_by_key(items@),
{
    let ghost orig = items@;
    let mut rest = items;
    let mut out: Vec<(u64, T)> = Vec::new();
    let ghost done: int = 0;
    assert(orig.take(0) =~= Seq::<(u64, T)>::empty());
    while rest.len() > 0
        invariant
            0 <= done <= orig.len(),
            rest@ == orig.skip(done),
            out@ == sorted_by_key(orig.take(done)),
        decreases rest@.len(),
    {
        let x = rest.remove(0);
        proof {
            assert(x == orig[done]);
            assert(rest@ =~= orig.skip(done + 1));
            assert(orig.take(done + 1).drop_last() =~= orig.take(done));
            assert(orig.take(done + 1).last() == x);
        }
        let mut p = out.len();
        while p > 0 && out[p - 1].0 > x.0
            invariant
                p <= out@.len(),
                forall|j: int| p <= j < out@.len() ==> out@[j].0 > x.0,
            decreases p,
        {
            p = p - 1;
        }
        proof {
            lemma_insert_at(out@, x, p as int);
        }
        out.insert(p, x);
        proof {
            done = done + 1;
        }
    }
    proof {
        assert(orig.take(done) =~= orig);
    }
    out
}


proof fn lemma_insert_elements<T>(s: Seq<(u64, T)>, x: (u64, T))
    ensures
        insert_by_key(s, x).len() == s.len() + 1,
        forall|i: int|
            0 <= i < insert_by_key(s, x).len() ==> (#[trigger] insert_by_key(s, x)[i] == x || s.contains(
                insert_by_key(s, x)[i],
            )),
    decreases s.len(),
{
    if s.len() > 0 && s.last().0 > x.0 {
        lemma_insert_elements(s.drop_last(), x);
        let r = insert_by_key(s, x);
        assert forall|i: int| 0 <= i < r.len() implies (#[trigger] r[i] == x || s.contains(r[i])) by {
            if i < r.len() - 1 {
                let a = insert_by_key(s.drop_last(), x);
                assert(r[i] == a[i]);
                if a[i] != x {
                    let j = choose|j: int| 0 <= j < s.drop_last().len() && s.drop_last()[j] == a[i];
                    assert(s[j] == a[i]);
                }
            } else {
                assert(r[i] == s[s.len() - 1]);
            }
        }
    } else if s.len() > 0 {
        let r = insert_by_key(s, x);
        assert forall|i: int| 0 <= i < r.len() implies (#[trigger] r[i] == x || s.contains(r[i])) by {
            if i < s.len() {
                assert(r[i] == s[i]);
            }
        }
    }
}

/// Sorting keeps the length, and every item of the result is an item of the
/// input.
pub proof fn lemma_sorted_elements<T>(s: Seq<(u64, T)>)
    ensures
        sorted_by_key(s).len() == s.len(),
        forall|i: int| 0 <= i < s.len() ==> s.contains(#[trigger] sorted_by_key(s)[i]),
    decreases s.len(),
{
    if s.len() > 0 {
        let t = s.drop_last();
        lemma_sorted_elements(t);
        lemma_insert_elements(sorted_by_key(t), s.last());
        assert forall|i: int| 0 <= i < s.len() implies s.contains(#[trigger] sorted_by_key(s)[i]) by {
            let e = sorted_by_key(s)[i];
            if e == s.last() {
                assert(s[s.len() - 1] == e);
            } else {
                assert(sorted_by_key(t).contains(e));
                let k = choose|k: int| 0 <= k < sorted_by_key(t).len() && sorted_by_key(t)[k] == e;
                assert(t.contains(sorted_by_key(t)[k]));
                let j = choose|j: int| 0 <= j < t.len() && t[j] == e;
                assert(s[j] == e);
            }
        }
    }
}


/// The keys of `s` ascend.
pub open spec fn keys_ascend<T>(s: Seq<(u64, T)>) -> bool {
    forall|i: int, j: int| 0 <= i < j < s.len() ==> s[i].0 <= s[j].0
}

proof fn lemma_insert_sorted<T>(s: Seq<(u64, T)>, x: (u64, T))
    requires
        keys_ascend(s),
    ensures
        keys_ascend(insert_by_key(s, x)),
        insert_by_key(s, x).to_multiset() == s.to_multiset().insert(x),
    decreases s.len(),
{
    broadcast use vstd::seq_lib::group_to_multiset_ensures;

    if s.len() == 0 {
        assert(seq![x] =~= Seq::<(u64, T)>::empty().push(x));
        assert(Seq::<(u64, T)>::empty().to_multiset() =~= vstd::multiset::Multiset::empty());
        assert(s =~= Seq::<(u64, T)>::empty());
    } else if s.last().0 <= x.0 {
    } else {
        let t = s.drop_last();
        lemma_insert_sorted(t, x);
        lemma_insert_elements(t, x);
        let a = insert_by_key(t, x);
        assert forall|i: int| 0 <= i < a.len() implies a[i].0 <= s.last().0 by {
            if a[i] != x {
                let j = choose|j: int| 0 <= j < t.len() && t[j] == a[i];
                assert(s[j] == a[i]);
            }
        }
        assert(s =~= t.push(s.last()));
        assert(a.push(s.last()).to_multiset() =~= s.to_multiset().insert(x)) by {
            broadcast use vstd::multiset::group_multiset_axioms;

        }
    }
}

/// Sorting by key orders the keys ascending and keeps every item exactly
/// as often as the input holds it.
pub proof fn lemma_sorted_by_key_sorted<T>(s: Seq<(u64, T)>)
    ensures
        keys_ascend(sorted_by_key(s)),
        sorted_by_key(s).to_multiset() == s.to_multiset(),
    decreases s.len(),
{
    broadcast use vstd::seq_lib::group_to_multiset_ensures;

    if s.len() == 0 {
        assert(sorted_by_key(s) =~= s);
    } else {
        let t = s.drop_last();
        lemma_sorted_by_key_sorted(t);
        lemma_insert_sorted(sorted_by_key(t), s.last());
        assert(s =~= t.push(s.last()));
    }
}

} // verus!
