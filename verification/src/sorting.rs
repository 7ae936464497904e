//! Verified insertion sorts for level buffers and for weighted item pairs.
//!
//! The sort of a sequence is itself defined as a spec-level insertion sort,
//! so the executable sorts can promise their exact result, not merely
//! sortedness.

use vstd::prelude::*;

verus! {

/// Lexicographic order on an item together with its weight.
pub open spec fn le_pair(a: (i64, usize), b: (i64, usize)) -> bool {
    a.0 < b.0 || (a.0 == b.0 && a.1 <= b.1)
}

/// The sequence is ascending.
pub open spec fn sorted(s: Seq<i64>) -> bool {
    forall|i: int, j: int| 0 <= i < j < s.len() ==> s[i] <= s[j]
}

/// The sequence of pairs is ascending under `le_pair`.
pub open spec fn sorted_pairs(s: Seq<(i64, usize)>) -> bool {
    forall|i: int, j: int| 0 <= i < j < s.len() ==> le_pair(s[i], s[j])
}

/// Insert `x` into an ascending sequence, after every element `<= x`.
pub open spec fn insert_sorted(s: Seq<i64>, x: i64) -> Seq<i64>
    decreases s.len(),
{
    if s.len() == 0 {
        seq![x]
    } else if s[0] <= x {
        seq![s[0]] + insert_sorted(s.drop_first(), x)
    } else {
        seq![x] + s
    }
}

/// The ascending permutation of `s`, built by repeated insertion.
pub open spec fn sort_spec(s: Seq<i64>) -> Seq<i64>
    decreases s.len(),
{
    if s.len() == 0 {
        Seq::empty()
    } else {
        insert_sorted(sort_spec(s.drop_last()), s.last())
    }
}

/// Insert a pair into a `le_pair`-ascending sequence.
pub open spec fn insert_sorted_pair(s: Seq<(i64, usize)>, x: (i64, usize)) -> Seq<(i64, usize)>
    decreases s.len(),
{
    if s.len() == 0 {
        seq![x]
    } else if le_pair(s[0], x) {
        seq![s[0]] + insert_sorted_pair(s.drop_first(), x)
    } else {
        seq![x] + s
    }
}

/// The `le_pair`-ascending permutation of `s`.
pub open spec fn sort_pairs_spec(s: Seq<(i64, usize)>) -> Seq<(i64, usize)>
    decreases s.len(),
{
    if s.len() == 0 {
        Seq::empty()
    } else {
        insert_sorted_pair(sort_pairs_spec(s.drop_last()), s.last())
    }
}

pub proof fn lemma_insert_sorted_props(s: Seq<i64>, x: i64)
    requires
        sorted(s),
    ensures
        sorted(insert_sorted(s, x)),
        insert_sorted(s, x).len() == s.len() + 1,
        insert_sorted(s, x).to_multiset() == s.to_multiset().insert(x),
    decreases s.len(),
{
    broadcast use vstd::seq_lib::group_to_multiset_ensures;

    if s.len() == 0 {
        assert(seq![x] =~= Seq::empty().push(x));
        assert(seq![x].to_multiset() =~= s.to_multiset().insert(x));
    } else if s[0] <= x {
        assert(sorted(s.drop_first()));
        lemma_insert_sorted_props(s.drop_first(), x);
        let t = insert_sorted(s.drop_first(), x);
        let r = seq![s[0]] + t;
        assert forall|i: int, j: int| 0 <= i < j < r.len() implies r[i] <= r[j] by {
            if i == 0 {
                if j - 1 < s.drop_first().len() + 1 {
                    lemma_insert_sorted_elements(s.drop_first(), x, j - 1);
                }
            }
        }
        assert(r.to_multiset() =~= s.to_multiset().insert(x)) by {
            lemma_multiset_cons(s, x);
            assert(s =~= seq![s[0]] + s.drop_first());
            vstd::seq_lib::lemma_multiset_commutative(seq![s[0]], s.drop_first());
        }
    } else {
        let r = seq![x] + s;
        assert(sorted(r));
        assert(r.to_multiset() =~= s.to_multiset().insert(x)) by {
            lemma_multiset_cons_front(s, x);
        }
    }
}

/// Every element of `insert_sorted(s, x)` is `x` or an element of `s`,
/// and elements at the front stay bounded by `x` or by elements of `s`.
proof fn lemma_insert_sorted_elements(s: Seq<i64>, x: i64, i: int)
    requires
        sorted(s),
        0 <= i < insert_sorted(s, x).len(),
    ensures
        insert_sorted(s, x)[i] == x || s.contains(insert_sorted(s, x)[i]),
    decreases s.len(),
{
    if s.len() == 0 {
    } else if s[0] <= x {
        if i == 0 {
            assert(s.contains(s[0]));
        } else {
            assert(sorted(s.drop_first()));
            lemma_insert_sorted_elements(s.drop_first(), x, i - 1);
            let v = insert_sorted(s, x)[i];
            if v != x {
                let j = choose|j: int|
                    0 <= j < s.drop_first().len() && s.drop_first()[j] == v;
                assert(s[j + 1] == v);
            }
        }
    } else {
        if i != 0 {
            assert(s.contains(s[i - 1]));
        }
    }
}

proof fn lemma_multiset_cons(s: Seq<i64>, x: i64)
    requires
        s.len() > 0,
    ensures
        (seq![s[0]] + insert_sorted(s.drop_first(), x)).to_multiset()
            == seq![s[0]].to_multiset().add(insert_sorted(s.drop_first(), x).to_multiset()),
{
    vstd::seq_lib::lemma_multiset_commutative(seq![s[0]], insert_sorted(s.drop_first(), x));
}

proof fn lemma_multiset_cons_front(s: Seq<i64>, x: i64)
    ensures
        (seq![x] + s).to_multiset() == seq![x].to_multiset().add(s.to_multiset()),
{
    vstd::seq_lib::lemma_multiset_commutative(seq![x], s);
}

pub proof fn lemma_sort_spec_props(s: Seq<i64>)
    ensures
        sorted(sort_spec(s)),
        sort_spec(s).len() == s.len(),
        sort_spec(s).to_multiset() == s.to_multiset(),
    decreases s.len(),
{
    broadcast use vstd::seq_lib::group_to_multiset_ensures;

    if s.len() == 0 {
        assert(sort_spec(s).to_multiset() =~= s.to_multiset());
    } else {
        lemma_sort_spec_props(s.drop_last());
        lemma_insert_sorted_props(sort_spec(s.drop_last()), s.last());
        assert(s.drop_last().push(s.last()) =~= s);
        assert(s.drop_last().to_multiset().insert(s.last()) =~= s.to_multiset());
    }
}

pub proof fn lemma_insert_sorted_pair_props(s: Seq<(i64, usize)>, x: (i64, usize))
    requires
        sorted_pairs(s),
    ensures
        sorted_pairs(insert_sorted_pair(s, x)),
        insert_sorted_pair(s, x).len() == s.len() + 1,
    decreases s.len(),
{
    if s.len() == 0 {
    } else if le_pair(s[0], x) {
        assert(sorted_pairs(s.drop_first()));
        lemma_insert_sorted_pair_props(s.drop_first(), x);
        let t = insert_sorted_pair(s.drop_first(), x);
        let r = seq![s[0]] + t;
        assert forall|i: int, j: int| 0 <= i < j < r.len() implies le_pair(r[i], r[j]) by {
            if i == 0 {
                lemma_insert_sorted_pair_elements(s.drop_first(), x, j - 1);
            }
        }
    } else {
        let r = seq![x] + s;
        assert forall|i: int, j: int| 0 <= i < j < r.len() implies le_pair(r[i], r[j]) by {
            if i == 0 {
                if j > 1 {
                    assert(le_pair(s[0], s[j - 1]));
                }
            }
        }
    }
}

proof fn lemma_insert_sorted_pair_elements(s: Seq<(i64, usize)>, x: (i64, usize), i: int)
    requires
        sorted_pairs(s),
        0 <= i < insert_sorted_pair(s, x).len(),
    ensures
        insert_sorted_pair(s, x)[i] == x || s.contains(insert_sorted_pair(s, x)[i]),
    decreases s.len(),
{
    if s.len() == 0 {
    } else if le_pair(s[0], x) {
        if i == 0 {
            assert(s.contains(s[0]));
        } else {
            assert(sorted_pairs(s.drop_first()));
            lemma_insert_sorted_pair_elements(s.drop_first(), x, i - 1);
            let v = insert_sorted_pair(s, x)[i];
            if v != x {
                let j = choose|j: int|
                    0 <= j < s.drop_first().len() && s.drop_first()[j] == v;
                assert(s[j + 1] == v);
            }
        }
    } else {
        if i != 0 {
            assert(s.contains(s[i - 1]));
        }
    }
}

pub proof fn lemma_sort_pairs_spec_props(s: Seq<(i64, usize)>)
    ensures
        sorted_pairs(sort_pairs_spec(s)),
        sort_pairs_spec(s).len() == s.len(),
    decreases s.len(),
{
    if s.len() > 0 {
        lemma_sort_pairs_spec_props(s.drop_last());
        lemma_insert_sorted_pair_props(sort_pairs_spec(s.drop_last()), s.last());
    }
}

/// Sorting a buffer of at most one element changes nothing.
pub proof fn lemma_sort_spec_singleton(s: Seq<i64>)
    requires
        s.len() <= 1,
    ensures
        sort_spec(s) == s,
{
    if s.len() == 0 {
        assert(sort_spec(s) =~= s);
    } else {
        assert(s.drop_last().len() == 0);
        assert(sort_spec(s.drop_last()) =~= Seq::<i64>::empty());
        assert(insert_sorted(Seq::<i64>::empty(), s.last()) =~= s);
    }
}

/// Inserting at the scan position `j` (after every element `<= x`, before
/// the first element `> x`) is the same as the recursive insertion.
proof fn lemma_insert_at(s: Seq<i64>, x: i64, j: int)
    requires
        sorted(s),
        0 <= j <= s.len(),
        forall|t: int| 0 <= t < j ==> s[t] <= x,
        j < s.len() ==> s[j] > x,
    ensures
        insert_sorted(s, x) == s.insert(j, x),
    decreases s.len(),
{
    if s.len() == 0 {
        assert(insert_sorted(s, x) =~= s.insert(0, x));
    } else if j == 0 {
        assert(insert_sorted(s, x) =~= s.insert(0, x));
    } else {
        assert(s[0] <= x);
        assert(sorted(s.drop_first()));
        lemma_insert_at(s.drop_first(), x, j - 1);
        assert(seq![s[0]] + s.drop_first().insert(j - 1, x) =~= s.insert(j, x));
    }
}

proof fn lemma_insert_at_pair(s: Seq<(i64, usize)>, x: (i64, usize), j: int)
    requires
        sorted_pairs(s),
        0 <= j <= s.len(),
        forall|t: int| 0 <= t < j ==> le_pair(#[trigger] s[t], x),
        j < s.len() ==> !le_pair(s[j], x),
    ensures
        insert_sorted_pair(s, x) == s.insert(j, x),
    decreases s.len(),
{
    if s.len() == 0 {
        assert(insert_sorted_pair(s, x) =~= s.insert(0, x));
    } else if j == 0 {
        assert(insert_sorted_pair(s, x) =~= s.insert(0, x));
    } else {
        assert(le_pair(s[0], x));
        assert(sorted_pairs(s.drop_first()));
        lemma_insert_at_pair(s.drop_first(), x, j - 1);
        assert(seq![s[0]] + s.drop_first().insert(j - 1, x) =~= s.insert(j, x));
    }
}

/// Sort a level buffer in place, ascending.
pub fn sort_in_place(v: &mut Vec<i64>)
    ensures
        final(v)@ == sort_spec(old(v)@),
{
    let mut out: Vec<i64> = Vec::new();
    let mut i: usize = 0;
    while i < v.len()
        invariant
            i <= v@.len(),
            out@ == sort_spec(v@.take(i as int)),
        decreases v@.len() - i,
    {
        proof {
            lemma_sort_spec_props(v@.take(i as int));
        }
        let x = v[i];
        let mut j: usize = 0;
        while j < out.len() && out[j] <= x
            invariant
                j <= out@.len(),
                forall|t: int| 0 <= t < j ==> out@[t] <= x,
            decreases out@.len() - j,
        {
            j += 1;
        }
        proof {
            lemma_insert_at(out@, x, j as int);
            assert(v@.take(i + 1).drop_last() =~= v@.take(i as int));
            assert(v@.take(i + 1).last() == x);
        }
        out.insert(j, x);
        i += 1;
    }
    proof {
        assert(v@.take(v@.len() as int) =~= v@);
    }
    *v = out;
}

/// Sort weighted item pairs, ascending under `le_pair`.
pub fn sort_pairs(v: &Vec<(i64, usize)>) -> (r: Vec<(i64, usize)>)
    ensures
        r@ == sort_pairs_spec(v@),
{
    let mut out: Vec<(i64, usize)> = Vec::new();
    let mut i: usize = 0;
    while i < v.len()
        invariant
            i <= v@.len(),
            out@ == sort_pairs_spec(v@.take(i as int)),
        decreases v@.len() - i,
    {
        proof {
            lemma_sort_pairs_spec_props(v@.take(i as int));
        }
        let x = v[i];
        let mut j: usize = 0;
        while j < out.len() && (out[j].0 < x.0 || (out[j].0 == x.0 && out[j].1 <= x.1))
            invariant
                j <= out@.len(),
                forall|t: int| 0 <= t < j ==> le_pair(#[trigger] out@[t], x),
            decreases out@.len() - j,
        {
            j += 1;
        }
        proof {
            lemma_insert_at_pair(out@, x, j as int);
            assert(v@.take(i + 1).drop_last() =~= v@.take(i as int));
            assert(v@.take(i + 1).last() == x);
        }
        out.insert(j, x);
        i += 1;
    }
    proof {
        assert(v@.take(v@.len() as int) =~= v@);
    }
    out
}

} // verus!
