//! Sequences of `(key, value)` entries with unique keys: the model of both
//! a collection's documents and the database's registry.
use vstd::prelude::*;

verus! {

/// Some entry of `s` has key `k`.
pub open spec fn has_key<V>(s: Seq<(Seq<char>, V)>, k: Seq<char>) -> bool {
    exists|i: int| 0 <= i < s.len() && #[trigger] s[i].0 == k
}

/// The position of an entry with key `k` (meaningful where `has_key(s, k)`).
pub open spec fn key_index<V>(s: Seq<(Seq<char>, V)>, k: Seq<char>) -> int {
    choose|i: int| 0 <= i < s.len() && #[trigger] s[i].0 == k
}

/// No two entries of `s` share a key.
pub open spec fn unique_keys<V>(s: Seq<(Seq<char>, V)>) -> bool {
    forall|i: int, j: int| 0 <= i < j < s.len() ==> #[trigger] s[i].0 != #[trigger] s[j].0
}

/// The value stored under `k`, if any.
pub open spec fn lookup<V>(s: Seq<(Seq<char>, V)>, k: Seq<char>) -> Option<V> {
    if has_key(s, k) {
        Some(s[key_index(s, k)].1)
    } else {
        None
    }
}

/// `s` with `v` stored under `k`: the entry of `k` is replaced in place, or a
/// new entry is appended.
pub open spec fn put<V>(s: Seq<(Seq<char>, V)>, k: Seq<char>, v: V) -> Seq<(Seq<char>, V)> {
    if has_key(s, k) {
        s.update(key_index(s, k), (k, v))
    } else {
        s.push((k, v))
    }
}

/// `s` without the entry of `k`; the other entries keep their order.
pub open spec fn drop_key<V>(s: Seq<(Seq<char>, V)>, k: Seq<char>) -> Seq<(Seq<char>, V)> {
    if has_key(s, k) {
        s.remove(key_index(s, k))
    } else {
        s
    }
}

/// With unique keys, the entry of `k` is the only one at which `k` stands.
pub proof fn lemma_key_index<V>(s: Seq<(Seq<char>, V)>, k: Seq<char>, i: int)
    requires
        unique_keys(s),
        0 <= i < s.len(),
        s[i].0 == k,
    ensures
        has_key(s, k),
        key_index(s, k) == i,
{
    let j = key_index(s, k);
    assert(0 <= j < s.len() && s[j].0 == k);
}

/// Storing keeps keys unique, makes `k` map to `v`, and leaves every other
/// key as it was.
pub proof fn lemma_put<V>(s: Seq<(Seq<char>, V)>, k: Seq<char>, v: V)
    requires
        unique_keys(s),
    ensures
        unique_keys(put(s, k, v)),
        lookup(put(s, k, v), k) == Some(v),
        forall|k2: Seq<char>| k2 != k ==> lookup(#[trigger] put(s, k, v), k2) == lookup(s, k2),
{
    let r = put(s, k, v);
    if has_key(s, k) {
        let i = key_index(s, k);
        lemma_key_index(r, k, i);
        assert forall|k2: Seq<char>| k2 != k implies lookup(#[trigger] put(s, k, v), k2) == lookup(
            s,
            k2,
        ) by {
            if has_key(s, k2) {
                let j = key_index(s, k2);
                lemma_key_index(r, k2, j);
            }
            if has_key(r, k2) {
                let j = key_index(r, k2);
                assert(s[j].0 == k2);
            }
        }
    } else {
        let i = s.len() as int;
        assert(unique_keys(r));
        lemma_key_index(r, k, i);
        assert forall|k2: Seq<char>| k2 != k implies lookup(#[trigger] put(s, k, v), k2) == lookup(
            s,
            k2,
        ) by {
            if has_key(s, k2) {
                let j = key_index(s, k2);
                lemma_key_index(r, k2, j);
            }
            if has_key(r, k2) {
                let j = key_index(r, k2);
                assert(s[j].0 == k2);
            }
        }
    }
}

/// Dropping keeps keys unique, leaves no entry of `k`, and leaves every other
/// key as it was.
pub proof fn lemma_drop_key<V>(s: Seq<(Seq<char>, V)>, k: Seq<char>)
    requires
        unique_keys(s),
    ensures
        unique_keys(drop_key(s, k)),
        !has_key(drop_key(s, k), k),
        lookup(drop_key(s, k), k) == None::<V>,
        forall|k2: Seq<char>| k2 != k ==> lookup(#[trigger] drop_key(s, k), k2) == lookup(s, k2),
{
    let r = drop_key(s, k);
    if has_key(s, k) {
        let i = key_index(s, k);
        assert forall|k2: Seq<char>| k2 != k implies lookup(#[trigger] drop_key(s, k), k2) == lookup(
            s,
            k2,
        ) by {
            if has_key(s, k2) {
                let j = key_index(s, k2);
                assert(j != i);
                let rj = if j < i { j } else { j - 1 };
                assert(r[rj] == s[j]);
                lemma_key_index(s, k2, j);
            }
            if has_key(r, k2) {
                let j = key_index(r, k2);
                let sj = if j < i { j } else { j + 1 };
                assert(r[j] == s[sj]);
            }
        }
        assert forall|a: int, b: int| 0 <= a < b < r.len() implies #[trigger] r[a].0
            != #[trigger] r[b].0 by {
            let sa = if a < i { a } else { a + 1 };
            let sb = if b < i { b } else { b + 1 };
            assert(r[a] == s[sa] && r[b] == s[sb]);
        }
        if has_key(r, k) {
            let j = key_index(r, k);
            let sj = if j < i { j } else { j + 1 };
            assert(r[j] == s[sj]);
        }
    }
}

/// Storing twice under one key leaves what storing the second value alone
/// leaves: the first value is gone.
pub proof fn lemma_put_twice<V>(s: Seq<(Seq<char>, V)>, k: Seq<char>, v1: V, v2: V)
    requires
        unique_keys(s),
    ensures
        put(put(s, k, v1), k, v2) == put(s, k, v2),
{
    let r1 = put(s, k, v1);
    lemma_put(s, k, v1);
    if has_key(s, k) {
        let i = key_index(s, k);
        lemma_key_index(r1, k, i);
        assert(put(r1, k, v2) =~= put(s, k, v2));
    } else {
        lemma_key_index(r1, k, s.len() as int);
        assert(put(r1, k, v2) =~= put(s, k, v2));
    }
}

} // verus!
