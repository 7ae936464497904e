use kll::sketch::Compact;
use kll::sketch::KLL;

// Construction validation: the decay factor must lie in (1/2, 1].

#[test]
fn construction_rejects_small_c() {
    // c = 3/10 = 0.3
    assert!(KLL::new(50, 3, 10).is_err());
}

#[test]
fn construction_rejects_large_c() {
    // c = 3/2 = 1.5
    assert!(KLL::new(50, 3, 2).is_err());
}

#[test]
fn construction_rejects_boundary_half() {
    // c = 1/2 exactly is outside (1/2, 1]
    assert!(KLL::new(50, 1, 2).is_err());
}

#[test]
fn construction_accepts_three_quarters() {
    // c = 3/4 = 0.75
    assert!(KLL::new(50, 3, 4).is_ok());
}

#[test]
fn construction_accepts_one() {
    // c = 1 is the inclusive upper end
    assert!(KLL::new(10, 1, 1).is_ok());
}

// Empty-sketch queries return nothing.

#[test]
fn empty_sketch_queries() {
    let s = KLL::new(50, 3, 4).unwrap();
    assert!(s.cdf().is_empty());
    assert!(s.ranks().is_empty());
    assert_eq!(s.rank(-100), 0);
    assert_eq!(s.rank(0), 0);
    assert_eq!(s.rank(i64::MAX), 0);
    assert_eq!(s.size(), 0);
    assert_eq!(s.num_levels(), 1);
}

// Concrete scenario: k = 50, c = 0.7, the integers 1..=10.

#[test]
fn ten_integers_ranks_and_cdf() {
    let mut s = KLL::new(50, 7, 10).unwrap();
    for i in 1..=10i64 {
        s.update(i);
    }
    assert_eq!(s.rank(5), 4);
    assert_eq!(s.rank(11), 10);
    let cdf = s.cdf();
    assert_eq!(cdf.len(), 10);
    for (i, row) in cdf.iter().enumerate() {
        assert_eq!(row.0, i as i64 + 1);
        assert_eq!(row.1.num, i + 1);
        assert_eq!(row.1.den, 10);
    }
    assert_eq!(cdf[9].1.num, cdf[9].1.den);
    let ranks = s.ranks();
    assert_eq!(ranks.len(), 10);
    assert_eq!(ranks[9], (10, 10));
    assert_eq!(s.size(), 10);
}

// Rank monotonicity on concrete values.

#[test]
fn rank_is_monotone() {
    let mut s = KLL::new(50, 7, 10).unwrap();
    for i in 1..=10i64 {
        s.update(i);
    }
    assert_eq!(s.rank(3), 2);
    assert_eq!(s.rank(7), 6);
    assert!(s.rank(3) <= s.rank(7));
    let mut prev: usize = 0;
    for v in -3..15i64 {
        let r = s.rank(v);
        assert!(prev <= r);
        prev = r;
    }
}

// Compaction through the `Compact` trait: the buffer is sorted, shrinks
// by exactly two, and one of its two largest elements is promoted.

#[test]
fn compact_removes_two_promotes_one() {
    let mut v: Vec<i64> = vec![3, 1, 2];
    let r = v.compact();
    assert_eq!(v, vec![1]);
    assert!(r == Some(2) || r == Some(3));
}

#[test]
fn compact_larger_buffer() {
    let mut v: Vec<i64> = vec![5, 9, 1, 7, 3];
    let r = v.compact();
    assert_eq!(v, vec![1, 3, 5]);
    assert!(r == Some(7) || r == Some(9));
}

#[test]
fn compact_on_singleton_sorts_and_promotes_nothing() {
    let mut v: Vec<i64> = vec![5];
    assert_eq!(v.compact(), None);
    assert_eq!(v, vec![5]);
}

#[test]
fn compact_on_empty_promotes_nothing() {
    let mut v: Vec<i64> = Vec::new();
    assert_eq!(v.compact(), None);
    assert!(v.is_empty());
}

// Capacity monotonicity, observed through the public accessor: with
// c < 1 the capacity grows from the bottom level to the top.

#[test]
fn capacities_increase_with_height() {
    let mut s = KLL::new(2, 3, 4).unwrap();
    for i in 1..=9i64 {
        s.update(i);
    }
    assert_eq!(s.num_levels(), 3);
    // floor(2 * (3/4)^2) + 1 = 1 + 1, floor(2 * 3/4) + 1 = 1 + 1, 2 + 1
    assert_eq!(s.capacity(0), 2);
    assert_eq!(s.capacity(1), 2);
    assert_eq!(s.capacity(2), 3);
}

// The capacity is the exact power rounded once: floor(k * c^depth) + 1.

#[test]
fn capacity_is_exact_single_floor() {
    // k = 5, c = 9/10, three levels: the bottom capacity is
    // floor(5 * 81/100) + 1 = floor(4.05) + 1 = 5.  Rounding at every
    // decay step instead would give floor(floor(4.5) * 9/10) + 1 = 4.
    let mut s = KLL::new(5, 9, 10).unwrap();
    for i in 1..=200i64 {
        if s.num_levels() >= 3 {
            break;
        }
        s.update(i);
    }
    assert_eq!(s.num_levels(), 3);
    assert_eq!(s.capacity(0), 5);
    assert_eq!(s.capacity(1), 5);
    assert_eq!(s.capacity(2), 6);
}

// Growth: small k forces compaction and level growth quickly.

fn grown_sketch() -> KLL {
    let mut s = KLL::new(2, 3, 4).unwrap();
    for i in 1..=9i64 {
        s.update(i);
    }
    s
}

#[test]
fn small_k_grows_levels() {
    let s = grown_sketch();
    assert!(s.num_levels() >= 3);
}

// Merge of a fresh sketch with a grown one: the fresh sketch reaches at
// least as many levels as the grown one.

#[test]
fn merge_grows_smaller_sketch() {
    let grown = grown_sketch();
    let grown_levels = grown.num_levels();
    assert!(grown_levels >= 3);
    let mut fresh = KLL::new(2, 3, 4).unwrap();
    assert_eq!(fresh.num_levels(), 1);
    fresh.merge(&grown);
    assert!(fresh.num_levels() >= grown_levels);
}

// Merge conservativeness: the total weighted count after a merge is the
// sum of the inputs' weighted counts.  The last entry of `ranks` is the
// total weight.

fn total_weight(s: &KLL) -> usize {
    s.ranks().last().map(|r| r.1).unwrap_or(0)
}

#[test]
fn merge_conserves_total_weight() {
    let mut a = KLL::new(50, 3, 4).unwrap();
    for i in 1..=5i64 {
        a.update(i);
    }
    let mut b = KLL::new(50, 3, 4).unwrap();
    for i in 10..=15i64 {
        b.update(i);
    }
    let wa = total_weight(&a);
    let wb = total_weight(&b);
    assert_eq!(wa, 5);
    assert_eq!(wb, 6);
    a.merge(&b);
    assert_eq!(total_weight(&a), wa + wb);
    assert_eq!(a.size(), 11);
}

#[test]
fn merge_conserves_weight_across_compaction() {
    // Small k, so the merge itself compacts: items leave, but the total
    // logical weight is conserved exactly.
    let mut a = grown_sketch();
    let b = grown_sketch();
    let wa = total_weight(&a);
    let wb = total_weight(&b);
    assert_eq!(wa, 9);
    a.merge(&b);
    assert_eq!(total_weight(&a), wa + wb);
}

#[test]
fn merge_of_two_empty_sketches_is_empty() {
    let mut a = KLL::new(50, 3, 4).unwrap();
    let b = KLL::new(50, 3, 4).unwrap();
    a.merge(&b);
    assert!(a.cdf().is_empty());
    assert!(a.ranks().is_empty());
    assert_eq!(a.rank(7), 0);
}

// CDF well-formedness on a sketch whose levels carry distinct weights.

#[test]
fn cdf_fractions_are_monotone_and_end_at_one() {
    let mut s = grown_sketch();
    for i in 6..=9i64 {
        s.update(i);
    }
    let cdf = s.cdf();
    assert!(!cdf.is_empty());
    let total = total_weight(&s);
    let mut prev: usize = 0;
    for row in cdf.iter() {
        assert_eq!(row.1.den, total);
        assert!(prev <= row.1.num);
        assert!(row.1.num <= row.1.den);
        prev = row.1.num;
    }
    let last = cdf.last().unwrap();
    assert_eq!(last.1.num, last.1.den);
}

// The tracked size stays consistent with the stored items, both along
// the incremental update path and after a merge recomputes it.

#[test]
fn size_stays_consistent() {
    let mut s = KLL::new(1, 3, 4).unwrap();
    for i in 1..=20i64 {
        s.update(i);
        assert_eq!(s.size(), s.ranks().len());
    }
    let other = grown_sketch();
    s.merge(&other);
    assert_eq!(s.size(), s.ranks().len());
}

// Each update adds exactly one unit of logical weight, and compaction
// conserves it: after any number of updates the total weight equals the
// number of updates, however many compactions ran.

#[test]
fn total_weight_counts_updates() {
    let mut s = KLL::new(1, 3, 4).unwrap();
    for i in 1..=50i64 {
        s.update(i);
    }
    assert_eq!(total_weight(&s), 50);
    assert_eq!(s.rank(i64::MAX), 50);
    let cdf = s.cdf();
    let last = cdf.last().unwrap();
    assert_eq!(last.1.num, last.1.den);
    assert_eq!(last.1.den, 50);
}

// A sketch can reach a state where the lowest full level is a single
// element below the top: compression then changes nothing, and a merge
// that drains into that state still returns, conserving everything.

#[test]
fn merge_returns_even_when_compaction_is_stuck() {
    let mut s = KLL::new(1, 3, 4).unwrap();
    for i in 1..=5i64 {
        s.update(i);
    }
    let w = total_weight(&s);
    assert_eq!(w, 5);
    let empty = KLL::new(1, 3, 4).unwrap();
    s.merge(&empty);
    assert_eq!(total_weight(&s), w);
    assert_eq!(s.size(), s.ranks().len());
}

// The verified sorts themselves.

#[test]
fn sort_in_place_sorts() {
    let mut v: Vec<i64> = vec![5, -1, 3, 3, 0];
    kll::sorting::sort_in_place(&mut v);
    assert_eq!(v, vec![-1, 0, 3, 3, 5]);
}

#[test]
fn sort_pairs_sorts_lexicographically() {
    let v: Vec<(i64, usize)> = vec![(3, 1), (1, 4), (3, 0), (-2, 7)];
    let r = kll::sorting::sort_pairs(&v);
    assert_eq!(r, vec![(-2, 7), (1, 4), (3, 0), (3, 1)]);
}
