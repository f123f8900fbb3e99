//! String-keyed association lists with unique keys: the store's stand-in
//! for a hash map, with an exact lookup model.

use vstd::prelude::*;

use vstd::pervasive::VecAdditionalExecFns;

verus! {

/// Whether no two entries share a key.
pub open spec fn keys_unique<V>(s: Seq<(String, V)>) -> bool {
    forall|i: int, j: int| 0 <= i < j < s.len() ==> (#[trigger] s[i]).0@ != (#[trigger] s[j]).0@
}

/// The value stored under a key: the first entry that bears it.
pub open spec fn spec_lookup<V>(s: Seq<(String, V)>, key: Seq<char>) -> Option<V>
    decreases s.len(),
{
    if s.len() == 0 {
        None
    } else if s[0].0@ == key {
        Some(s[0].1)
    } else {
        spec_lookup(s.skip(1), key)
    }
}

/// Where a key sits, the lookup returns that entry's value; where it sits
/// nowhere, the lookup returns None.
pub proof fn lemma_lookup_index<V>(s: Seq<(String, V)>, key: Seq<char>)
    requires
        keys_unique(s),
    ensures
        (forall|i: int| 0 <= i < s.len() ==> (#[trigger] s[i]).0@ != key) ==> spec_lookup(s, key)
            is None,
        forall|i: int|
            0 <= i < s.len() && (#[trigger] s[i]).0@ == key ==> spec_lookup(s, key) == Some(
                s[i].1,
            ),
    decreases s.len(),
{
    if s.len() > 0 {
        let t = s.skip(1);
        assert(forall|i: int| 0 <= i < t.len() ==> #[trigger] t[i] == s[i + 1]);
        lemma_lookup_index(t, key);
        assert forall|i: int| 0 <= i < s.len() && (#[trigger] s[i]).0@ == key implies spec_lookup(
            s,
            key,
        ) == Some(s[i].1) by {
            if s[0].0@ == key {
                assert(i == 0);
            } else {
                assert(t[i - 1] == s[i]);
            }
        }
    }
}

/// The position of the entry bearing a key, if any.
pub fn find_key<V>(v: &Vec<(String, V)>, key: &String) -> (r: Option<usize>)
    requires
        keys_unique(v@),
    ensures
        r matches Some(i) ==> i < v@.len() && v@[i as int].0@ == key@ && spec_lookup(v@, key@)
            == Some(v@[i as int].1),
        r is None ==> spec_lookup(v@, key@) is None,
{
    let mut i: usize = 0;
    while i < v.len()
        invariant
            0 <= i <= v@.len(),
            forall|k: int| 0 <= k < i ==> (#[trigger] v@[k]).0@ != key@,
            keys_unique(v@),
        decreases v@.len() - i,
    {
        if v[i].0 == *key {
            proof {
                lemma_lookup_index(v@, key@);
            }
            return Some(i);
        }
        i = i + 1;
    }
    proof {
        lemma_lookup_index(v@, key@);
    }
    None
}

/// Stores a value under a key, replacing what the key held before.
pub fn insert_value<V>(v: &mut Vec<(String, V)>, key: String, value: V)
    requires
        keys_unique(old(v)@),
    ensures
        keys_unique(final(v)@),
        spec_lookup(final(v)@, key@) == Some(value),
        forall|k: Seq<char>| k != key@ ==> spec_lookup(final(v)@, k) == spec_lookup(old(v)@, k),
{
    proof {
        lemma_lookup_index(old(v)@, key@);
    }
    let found = find_key(v, &key);
    match found {
        Some(i) => {
            v.set(i, (key, value));
            proof {
                lemma_insert_set_props(old(v)@, v@, i as int);
            }
        },
        None => {
            v.push((key, value));
            proof {
                lemma_insert_push_props(old(v)@, v@);
            }
        },
    }
}

/// Replacing the entry at a position changes the lookup for its key alone
/// (the new entry keeps the old entry's key's slot, under a new key).
proof fn lemma_insert_set_props<V>(pre: Seq<(String, V)>, post: Seq<(String, V)>, i: int)
    requires
        keys_unique(pre),
        0 <= i < pre.len(),
        post == pre.update(i, post[i]),
        forall|j: int| 0 <= j < pre.len() && (#[trigger] pre[j]).0@ == post[i].0@ ==> j == i,
    ensures
        keys_unique(post),
        spec_lookup(post, post[i].0@) == Some(post[i].1),
        forall|k: Seq<char>|
            k != post[i].0@ && k != pre[i].0@ ==> spec_lookup(post, k) == spec_lookup(pre, k),
        pre[i].0@ != post[i].0@ ==> spec_lookup(post, pre[i].0@) is None,
{
    assert(keys_unique(post)) by {
        assert(forall|a: int|
            0 <= a < post.len() && a != i ==> (#[trigger] post[a]) == pre[a]);
    }
    lemma_lookup_index(post, post[i].0@);
    lemma_lookup_index(pre, pre[i].0@);
    if pre[i].0@ != post[i].0@ {
        lemma_lookup_index(post, pre[i].0@);
    }
    assert forall|k: Seq<char>| k != post[i].0@ && k != pre[i].0@ implies spec_lookup(post, k)
        == spec_lookup(pre, k) by {
        lemma_lookup_other(pre, post, k);
    }
}

/// Appending a fresh key changes the lookup for that key alone.
proof fn lemma_insert_push_props<V>(pre: Seq<(String, V)>, post: Seq<(String, V)>)
    requires
        keys_unique(pre),
        post == pre.push(post.last()),
        spec_lookup(pre, post.last().0@) is None,
    ensures
        keys_unique(post),
        spec_lookup(post, post.last().0@) == Some(post.last().1),
        forall|k: Seq<char>|
            k != post.last().0@ ==> spec_lookup(post, k) == spec_lookup(pre, k),
{
    lemma_lookup_index(pre, post.last().0@);
    assert(keys_unique(post)) by {
        assert(forall|a: int| 0 <= a < pre.len() ==> (#[trigger] post[a]) == pre[a]);
    }
    lemma_lookup_index(post, post.last().0@);
    assert forall|k: Seq<char>| k != post.last().0@ implies spec_lookup(post, k) == spec_lookup(
        pre,
        k,
    ) by {
        lemma_lookup_other(pre, post, k);
    }
}

/// Two lists that agree on every entry bearing a key agree on its lookup:
/// stated for a list and a pointwise edit of it that leaves `k`'s entries
/// alone.
proof fn lemma_lookup_other<V>(pre: Seq<(String, V)>, post: Seq<(String, V)>, k: Seq<char>)
    requires
        forall|a: int|
            0 <= a < pre.len() && ((#[trigger] pre[a]).0@ == k || (#[trigger] post[a]).0@ == k)
                ==> post[a] == pre[a],
        pre.len() <= post.len(),
        forall|a: int| pre.len() <= a < post.len() ==> (#[trigger] post[a]).0@ != k,
    ensures
        spec_lookup(post, k) == spec_lookup(pre, k),
    decreases pre.len(),
{
    if pre.len() == 0 {
        lemma_lookup_absent(post, k);
    } else {
        if pre[0].0@ == k || post[0].0@ == k {
            assert(post[0] == pre[0]);
        }
        if post[0].0@ != k {
            let pret = pre.skip(1);
            let postt = post.skip(1);
            assert(forall|a: int| 0 <= a < pret.len() ==> (#[trigger] pret[a]) == pre[a + 1]);
            assert(forall|a: int| 0 <= a < postt.len() ==> (#[trigger] postt[a]) == post[a + 1]);
            lemma_lookup_other(pret, postt, k);
        }
    }
}

/// A key no entry bears looks up to None.
proof fn lemma_lookup_absent<V>(s: Seq<(String, V)>, k: Seq<char>)
    requires
        forall|a: int| 0 <= a < s.len() ==> (#[trigger] s[a]).0@ != k,
    ensures
        spec_lookup(s, k) is None,
    decreases s.len(),
{
    if s.len() > 0 {
        let t = s.skip(1);
        assert(forall|a: int| 0 <= a < t.len() ==> (#[trigger] t[a]) == s[a + 1]);
        lemma_lookup_absent(t, k);
    }
}

/// Drops a key's entry, handing back the value it held.
pub fn remove_key<V>(v: &mut Vec<(String, V)>, key: &String) -> (r: Option<V>)
    requires
        keys_unique(old(v)@),
    ensures
        keys_unique(final(v)@),
        r == spec_lookup(old(v)@, key@),
        spec_lookup(final(v)@, key@) is None,
        forall|k: Seq<char>| k != key@ ==> spec_lookup(final(v)@, k) == spec_lookup(old(v)@, k),
{
    let found = find_key(v, key);
    match found {
        Some(i) => {
            let ghost pre = v@;
            let entry = v.remove(i);
            proof {
                assert(keys_unique(v@)) by {
                    assert(forall|a: int|
                        0 <= a < v@.len() ==> (#[trigger] v@[a]) == (if a < i as int {
                            pre[a]
                        } else {
                            pre[a + 1]
                        }));
                }
                lemma_lookup_remove(pre, v@, i as int, key@);
            }
            Some(entry.1)
        },
        None => None,
    }
}

/// Dropping the one entry that bears a key leaves every other key's
/// lookup as it was and that key's lookup empty.
proof fn lemma_lookup_remove<V>(pre: Seq<(String, V)>, post: Seq<(String, V)>, i: int, key: Seq<char>)
    requires
        keys_unique(pre),
        0 <= i < pre.len(),
        pre[i].0@ == key,
        post == pre.remove(i),
    ensures
        spec_lookup(post, key) is None,
        forall|k: Seq<char>| k != key ==> spec_lookup(post, k) == spec_lookup(pre, k),
    decreases pre.len(),
{
    if i == 0 {
        assert(post =~= pre.skip(1));
        assert(forall|a: int| 0 <= a < post.len() ==> (#[trigger] post[a]) == pre[a + 1]);
        assert forall|a: int| 0 <= a < post.len() implies (#[trigger] post[a]).0@ != key by {
            assert(post[a] == pre[a + 1]);
        }
        lemma_lookup_absent(post, key);
        assert forall|k: Seq<char>| k != key implies spec_lookup(post, k) == spec_lookup(
            pre,
            k,
        ) by {
            assert(spec_lookup(pre, k) == spec_lookup(pre.skip(1), k));
        }
    } else {
        let pret = pre.skip(1);
        let postt = post.skip(1);
        assert(forall|a: int| 0 <= a < pret.len() ==> (#[trigger] pret[a]) == pre[a + 1]);
        assert(postt =~= pret.remove(i - 1));
        assert(post[0] == pre[0]);
        assert(keys_unique(pret));
        lemma_lookup_remove(pret, postt, i - 1, key);
        assert(post[0].0@ != key);
        assert forall|k: Seq<char>| k != key implies spec_lookup(post, k) == spec_lookup(
            pre,
            k,
        ) by {
            if post[0].0@ != k {
                assert(spec_lookup(pre, k) == spec_lookup(pret, k));
                assert(spec_lookup(post, k) == spec_lookup(postt, k));
            }
        }
    }
}

} // verus!
