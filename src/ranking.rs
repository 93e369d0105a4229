//! Ranking of scored entries: a stable sort by descending score rank, cut to
//! the first `n` entries.
use crate::score::{is_nan_bits, rank_key_spec, stays_before, stays_before_spec};
use vstd::prelude::*;

verus! {

/// What an exec scored entry stands for: an id and a score bit pattern.
pub open spec fn entry_view(e: (String, u32)) -> (Seq<char>, u32) {
    (e.0@, e.1)
}

/// The view of a sequence of exec scored entries.
pub open spec fn entries_view(v: Seq<(String, u32)>) -> Seq<(Seq<char>, u32)> {
    v.map_values(|e: (String, u32)| entry_view(e))
}

/// Places `x` in `s` after every leading entry that stays before it.
pub open spec fn insert_ranked(s: Seq<(Seq<char>, u32)>, x: (Seq<char>, u32)) -> Seq<
    (Seq<char>, u32),
>
    decreases s.len(),
{
    if s.len() == 0 {
        seq![x]
    } else if stays_before_spec(s[0].1, x.1) {
        seq![s[0]] + insert_ranked(s.drop_first(), x)
    } else {
        seq![x] + s
    }
}

/// The entries of `s` sorted by `stays_before_spec`, each inserted in turn
/// after the entries that stay before it: numbers by descending rank, and
/// entries that compare equal (equal rank, or not-a-number on either side)
/// keep their order in `s`.
pub open spec fn ranked(s: Seq<(Seq<char>, u32)>) -> Seq<(Seq<char>, u32)>
    decreases s.len(),
{
    if s.len() == 0 {
        s
    } else {
        insert_ranked(ranked(s.drop_last()), s.last())
    }
}

/// The first `n` entries of `ranked(s)`, or all of them where there are fewer.
pub open spec fn top_ranked(s: Seq<(Seq<char>, u32)>, n: nat) -> Seq<(Seq<char>, u32)> {
    if n < s.len() {
        ranked(s).take(n as int)
    } else {
        ranked(s)
    }
}

/// Ranks of the numbers never increase along `s`; not-a-number entries may
/// stand anywhere.
pub open spec fn is_ranked(s: Seq<(Seq<char>, u32)>) -> bool {
    forall|i: int, j: int|
        0 <= i < j < s.len() && !is_nan_bits(#[trigger] s[i].1) && !is_nan_bits(#[trigger] s[j].1)
            ==> rank_key_spec(s[i].1) >= rank_key_spec(s[j].1)
}

/// Where the scan of `insert_ranked` stops, the entry goes in.
proof fn lemma_insert_ranked_at(s: Seq<(Seq<char>, u32)>, x: (Seq<char>, u32), j: int)
    requires
        0 <= j <= s.len(),
        forall|i: int| 0 <= i < j ==> stays_before_spec(#[trigger] s[i].1, x.1),
        j < s.len() ==> !stays_before_spec(s[j].1, x.1),
    ensures
        insert_ranked(s, x) == s.insert(j, x),
    decreases s.len(),
{
    if s.len() == 0 {
        assert(s.insert(j, x) =~= seq![x]);
    } else if j == 0 {
        assert(s.insert(j, x) =~= seq![x] + s);
    } else {
        let t = s.drop_first();
        assert forall|i: int| 0 <= i < j - 1 implies stays_before_spec(#[trigger] t[i].1, x.1) by {
            assert(t[i] == s[i + 1]);
        }
        lemma_insert_ranked_at(t, x, j - 1);
        assert(s.insert(j, x) =~= seq![s[0]] + t.insert(j - 1, x));
    }
}

/// Inserting adds exactly one entry, and every entry comes from `s` or is `x`.
proof fn lemma_insert_ranked_contents(s: Seq<(Seq<char>, u32)>, x: (Seq<char>, u32))
    ensures
        insert_ranked(s, x).len() == s.len() + 1,
        insert_ranked(s, x).to_multiset() =~= s.to_multiset().insert(x),
        is_ranked(s) ==> is_ranked(insert_ranked(s, x)),
    decreases s.len(),
{
    broadcast use vstd::seq_lib::group_to_multiset_ensures;

    let r = insert_ranked(s, x);
    if s.len() == 0 {
        assert(r =~= seq![x]);
        assert(seq![x] =~= Seq::<(Seq<char>, u32)>::empty().push(x));
    } else if stays_before_spec(s[0].1, x.1) {
        let t = s.drop_first();
        lemma_insert_ranked_contents(t, x);
        let rt = insert_ranked(t, x);
        assert(s =~= seq![s[0]] + t);
        vstd::seq_lib::lemma_multiset_commutative(seq![s[0]], t);
        vstd::seq_lib::lemma_multiset_commutative(seq![s[0]], rt);
        if is_ranked(s) {
            assert forall|i: int, j: int|
                0 <= i < j < r.len() && !is_nan_bits(#[trigger] r[i].1) && !is_nan_bits(
                    #[trigger] r[j].1,
                ) implies rank_key_spec(r[i].1) >= rank_key_spec(r[j].1) by {
                if i > 0 {
                    assert(r[i] == rt[i - 1]);
                    assert(r[j] == rt[j - 1]);
                } else {
                    assert(r[j] == rt[j - 1]);
                    assert(rt.to_multiset().count(rt[j - 1]) > 0);
                    assert(t.to_multiset().insert(x).count(rt[j - 1]) > 0);
                    if rt[j - 1] != x {
                        assert(t.to_multiset().count(rt[j - 1]) > 0);
                        assert(t.contains(rt[j - 1]));
                        let k = choose|k: int| 0 <= k < t.len() && t[k] == rt[j - 1];
                        assert(t[k] == s[k + 1]);
                    }
                }
            }
        }
    } else {
        assert(r =~= seq![x] + s);
        vstd::seq_lib::lemma_multiset_commutative(seq![x], s);
        assert(seq![x] =~= Seq::<(Seq<char>, u32)>::empty().push(x));
        if is_ranked(s) {
            assert forall|i: int, j: int|
                0 <= i < j < r.len() && !is_nan_bits(#[trigger] r[i].1) && !is_nan_bits(
                    #[trigger] r[j].1,
                ) implies rank_key_spec(r[i].1) >= rank_key_spec(r[j].1) by {
                if i > 0 {
                    assert(r[i] == s[i - 1]);
                    assert(r[j] == s[j - 1]);
                } else {
                    assert(r[j] == s[j - 1]);
                    if j > 1 {
                        assert(!is_nan_bits(s[0].1));
                    }
                }
            }
        }
    }
}

/// Ranking permutes its input and orders it by non-increasing rank.
pub proof fn lemma_ranked(s: Seq<(Seq<char>, u32)>)
    ensures
        ranked(s).len() == s.len(),
        ranked(s).to_multiset() =~= s.to_multiset(),
        is_ranked(ranked(s)),
    decreases s.len(),
{
    broadcast use vstd::seq_lib::group_to_multiset_ensures;

    if s.len() > 0 {
        lemma_ranked(s.drop_last());
        lemma_insert_ranked_contents(ranked(s.drop_last()), s.last());
        assert(s.drop_last().push(s.last()) =~= s);
    }
}

/// Ranks `scored` and keeps the first `top_n` entries.
pub fn rank_top(scored: &Vec<(String, u32)>, top_n: usize) -> (r: Vec<(String, u32)>)
    ensures
        entries_view(r@) == top_ranked(entries_view(scored@), top_n as nat),
{
    let ghost sv = entries_view(scored@);
    let mut out: Vec<(String, u32)> = Vec::new();
    let mut i: usize = 0;
    while i < scored.len()
        invariant
            i <= scored.len(),
            sv == entries_view(scored@),
            entries_view(out@) == ranked(sv.take(i as int)),
        decreases scored.len() - i,
    {
        let x = (scored[i].0.clone(), scored[i].1);
        let mut j: usize = 0;
        while j < out.len() && stays_before(out[j].1, x.1)
            invariant
                j <= out.len(),
                forall|t: int| 0 <= t < j ==> stays_before_spec(#[trigger] out@[t].1, x.1),
            decreases out.len() - j,
        {
            j = j + 1;
        }
        let ghost before = entries_view(out@);
        proof {
            lemma_insert_ranked_at(before, entry_view(x), j as int);
            assert(sv.take(i as int + 1).drop_last() =~= sv.take(i as int));
        }
        out.insert(j, x);
        assert(entries_view(out@) =~= before.insert(j as int, entry_view(x)));
        i = i + 1;
    }
    assert(sv.take(i as int) =~= sv);
    proof {
        lemma_ranked(sv);
    }
    out.truncate(top_n);
    proof {
        if (top_n as nat) < sv.len() {
            assert(entries_view(out@) =~= ranked(sv).take(top_n as int));
        }
    }
    out
}

} // verus!
