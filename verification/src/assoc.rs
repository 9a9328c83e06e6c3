//! Lists of keyed values in which a key stands at most once.

use crate::text;
use vstd::prelude::*;

verus! {

/// The list without a key.
pub open spec fn without<K, V>(s: Seq<(K, V)>, key: K) -> Seq<(K, V)>
    decreases s.len(),
{
    if s.len() == 0 {
        s
    } else if s.last().0 == key {
        without(s.drop_last(), key)
    } else {
        without(s.drop_last(), key).push(s.last())
    }
}

/// The value of a key.
pub open spec fn lookup<K, V>(s: Seq<(K, V)>, key: K) -> Option<V>
    decreases s.len(),
{
    if s.len() == 0 {
        None
    } else if s.last().0 == key {
        Some(s.last().1)
    } else {
        lookup(s.drop_last(), key)
    }
}

/// The list with a value for a key in place of any it had.
pub open spec fn put<K, V>(s: Seq<(K, V)>, key: K, value: V) -> Seq<(K, V)> {
    without(s, key).push((key, value))
}

/// A key that was taken out has no value; the others keep theirs.
pub proof fn lemma_without<K, V>(s: Seq<(K, V)>, key: K, other: K)
    ensures
        lookup(without(s, key), other) == (if other == key {
            None
        } else {
            lookup(s, other)
        }),
    decreases s.len(),
{
    if s.len() > 0 {
        lemma_without(s.drop_last(), key, other);
        if s.last().0 != key {
            assert(without(s, key).drop_last() =~= without(s.drop_last(), key));
        }
    }
}

/// The key of a step: turn and step.
pub type StepKey = (u64, u64);

/// Takes a step out of a list.
pub fn remove_step(v: &mut Vec<(StepKey, u64)>, key: StepKey)
    ensures
        final(v)@ == without(old(v)@, key),
{
    let ghost before = v@;
    let mut out: Vec<(StepKey, u64)> = Vec::new();
    let mut i: usize = 0;
    assert(before.take(0) =~= Seq::<(StepKey, u64)>::empty());
    while i < v.len()
        invariant
            i <= v@.len(),
            v@ == before,
            out@ == without(before.take(i as int), key),
        decreases v@.len() - i,
    {
        let ghost next = before.take(i + 1);
        assert(next.drop_last() =~= before.take(i as int));
        let e: (StepKey, u64) = v[i];
        if !(e.0.0 == key.0 && e.0.1 == key.1) {
            out.push(e);
        }
        i = i + 1;
    }
    assert(before.take(i as int) =~= before);
    *v = out;
}

/// The value of a step.
pub fn find_step(v: &Vec<(StepKey, u64)>, key: StepKey) -> (r: Option<u64>)
    ensures
        r == lookup(v@, key),
{
    let mut n: usize = v.len();
    assert(v@.take(n as int) =~= v@);
    while n > 0
        invariant
            n <= v@.len(),
            lookup(v@, key) == lookup(v@.take(n as int), key),
        decreases n,
    {
        assert(v@.take(n as int).drop_last() =~= v@.take(n - 1));
        let e: (StepKey, u64) = v[n - 1];
        if e.0.0 == key.0 && e.0.1 == key.1 {
            return Some(e.1);
        }
        n = n - 1;
    }
    None
}

/// Takes a name out of a list.
pub fn remove_name(v: &mut Vec<(String, u64)>, key: &str)
    ensures
        final(v).deep_view() == without(old(v).deep_view(), key@),
{
    let ghost before = v.deep_view();
    let mut out: Vec<(String, u64)> = Vec::new();
    let mut i: usize = 0;
    assert(before.take(0) =~= Seq::<(Seq<char>, u64)>::empty());
    assert(out.deep_view() =~= Seq::<(Seq<char>, u64)>::empty());
    while i < v.len()
        invariant
            i <= v@.len(),
            v.deep_view() == before,
            out.deep_view() == without(before.take(i as int), key@),
        decreases v@.len() - i,
    {
        let ghost next = before.take(i + 1);
        let ghost done = out.deep_view();
        assert(next.drop_last() =~= before.take(i as int));
        assert(next.last() == (v@[i as int].0@, v@[i as int].1));
        if !text::same(v[i].0.as_str(), key) {
            out.push((v[i].0.clone(), v[i].1));
            assert(out.deep_view() =~= done.push(next.last()));
        }
        i = i + 1;
    }
    assert(before.take(i as int) =~= before);
    *v = out;
}

/// The value of a name.
pub fn find_name(v: &Vec<(String, u64)>, key: &str) -> (r: Option<u64>)
    ensures
        r == lookup(v.deep_view(), key@),
{
    let ghost all = v.deep_view();
    let mut n: usize = v.len();
    assert(all.take(n as int) =~= all);
    while n > 0
        invariant
            n <= v@.len(),
            all == v.deep_view(),
            lookup(all, key@) == lookup(all.take(n as int), key@),
        decreases n,
    {
        assert(all.take(n as int).drop_last() =~= all.take(n - 1));
        assert(all[n - 1] == (v@[n - 1].0@, v@[n - 1].1));
        if text::same(v[n - 1].0.as_str(), key) {
            return Some(v[n - 1].1);
        }
        n = n - 1;
    }
    None
}

} // verus!
