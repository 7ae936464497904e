//! The quantile sketch itself: level store, capacity policy, ingestion,
//! randomized compaction, merge, and the query engine.
//!
//! The compaction decay factor `c` is a rational number `num / den` in the
//! open-closed interval `(1/2, 1]`.  The capacity of the level at height
//! `h`, when there are `n` levels, is `floor(k * c^depth) + 1` with
//! `depth = n - 1 - h`: a single rounding of the exact power
//! `k * num^depth / den^depth`, which the code computes with exact
//! big-integer arithmetic.  The capacity therefore shrinks as the
//! distance from the top level grows, and is recomputed against the
//! current level count whenever a level is added.

use vstd::prelude::*;
use vstd::arithmetic::power::pow;
use vstd::arithmetic::power2::pow2;
use vstd::multiset::Multiset;

use crate::bignat::bn_val;
use crate::bignat::bn_from;
use crate::bignat::bn_mul_small;
use crate::bignat::bn_le;
use crate::bignat::bn_copy;
use crate::bignat::bn_pad;

use crate::sorting::sort_spec;
use crate::sorting::sort_in_place;
use crate::sorting::sort_pairs_spec;
use crate::sorting::sort_pairs;

verus! {

/// The most levels a sketch can ever hold: a non-empty level at height `h`
/// weighs at least `2^h`, and the total weight is kept within `usize`.
pub const LEVEL_LIMIT: usize = 65;

/// Construction fails with this error when `c` lies outside `(1/2, 1]`.
#[derive(Clone, Copy, Debug, PartialEq, Eq, Structural)]
pub struct ConfigurationError;

/// A normalized cumulative weight: `num / den` of the total.
#[derive(Clone, Copy, Debug, PartialEq, Eq, Structural)]
pub struct Fraction {
    pub num: usize,
    pub den: usize,
}

/// The mathematical state of a sketch: the configuration, the level
/// contents from height 0 upward, and the two tracked sizes.
#[verifier::ext_equal]
pub struct Model {
    pub k: nat,
    pub num: nat,
    pub den: nat,
    pub levels: Seq<Seq<i64>>,
    pub size: nat,
    pub max_size: nat,
}

/// `c = num / den` lies in `(1/2, 1]`.
pub open spec fn valid_c(num: nat, den: nat) -> bool {
    1 <= den && num <= den && den < 2 * num
}

/// The configuration is valid and small enough that every capacity
/// computation and capacity sum fits in `usize`.
pub open spec fn config_ok(k: nat, num: nat, den: nat) -> bool {
    &&& 1 <= k
    &&& valid_c(num, den)
    &&& k * den <= usize::MAX
    &&& (LEVEL_LIMIT as nat) * (k + 1) <= usize::MAX
}

/// The capacity weight at `depth` levels below the top:
/// `floor(k * c^depth)`, the exact power rounded down once.
pub open spec fn cap_w(k: nat, num: nat, den: nat, depth: nat) -> nat
    recommends
        1 <= den,
{
    ((k * pow(num as int, depth)) / pow(den as int, depth)) as nat
}

/// The capacity of the level at height `h` when there are `n` levels.
pub open spec fn cap_at(k: nat, num: nat, den: nat, n: nat, h: int) -> nat
    recommends
        0 <= h < n,
{
    cap_w(k, num, den, (n - 1 - h) as nat) + 1
}

/// The sum of all level capacities for `n` levels, by increasing depth.
pub open spec fn max_size_spec(k: nat, num: nat, den: nat, n: nat) -> nat
    decreases n,
{
    if n == 0 {
        0
    } else {
        max_size_spec(k, num, den, (n - 1) as nat) + cap_w(k, num, den, (n - 1) as nat) + 1
    }
}

/// The number of stored items from height `h` upward.
pub open spec fn count_from(s: Seq<Seq<i64>>, h: int) -> nat
    decreases s.len() - h,
{
    if h < 0 || h >= s.len() {
        0
    } else {
        s[h].len() + count_from(s, h + 1)
    }
}

/// The total logical weight from height `h` upward: each item at height
/// `j` counts for `2^j` original insertions.
pub open spec fn wtotal_from(s: Seq<Seq<i64>>, h: int) -> nat
    decreases s.len() - h,
{
    if h < 0 || h >= s.len() {
        0
    } else {
        pow2(h as nat) * s[h].len() + wtotal_from(s, h + 1)
    }
}

/// The total logical weight of all levels.
pub open spec fn wtotal(s: Seq<Seq<i64>>) -> nat {
    wtotal_from(s, 0)
}

/// How many elements of `l` are strictly below `v`.
pub open spec fn count_lt(l: Seq<i64>, v: i64) -> nat
    decreases l.len(),
{
    if l.len() == 0 {
        0
    } else {
        count_lt(l.drop_last(), v) + if l.last() < v {
            1nat
        } else {
            0nat
        }
    }
}

/// The weighted count of stored items strictly below `v`, from height `h`
/// upward.
pub open spec fn rank_from(s: Seq<Seq<i64>>, v: i64, h: int) -> nat
    decreases s.len() - h,
{
    if h < 0 || h >= s.len() {
        0
    } else {
        pow2(h as nat) * count_lt(s[h], v) + rank_from(s, v, h + 1)
    }
}

/// The approximate rank of `v`: its weighted strictly-less count.
pub open spec fn rank_spec(s: Seq<Seq<i64>>, v: i64) -> nat {
    rank_from(s, v, 0)
}

/// Every item of a level paired with that level's weight.
pub open spec fn level_pairs(l: Seq<i64>, w: usize) -> Seq<(i64, usize)> {
    l.map_values(|x: i64| (x, w))
}

/// All stored items with their weights, from height `h` upward.
pub open spec fn weighted_from(s: Seq<Seq<i64>>, h: int) -> Seq<(i64, usize)>
    decreases s.len() - h,
{
    if h < 0 || h >= s.len() {
        Seq::empty()
    } else {
        level_pairs(s[h], pow2(h as nat) as usize) + weighted_from(s, h + 1)
    }
}

/// The sum of the weights of a pair sequence.
pub open spec fn sum_w(s: Seq<(i64, usize)>) -> nat
    decreases s.len(),
{
    if s.len() == 0 {
        0
    } else {
        sum_w(s.drop_last()) + s.last().1 as nat
    }
}

/// Each pair replaced by its item and the cumulative weight so far.
pub open spec fn ranks_of(s: Seq<(i64, usize)>) -> Seq<(i64, usize)> {
    Seq::new(s.len(), |i: int| (s[i].0, sum_w(s.take(i + 1)) as usize))
}

/// Each pair replaced by its item and the cumulative weight as a
/// fraction of the total weight.
pub open spec fn cdf_of(s: Seq<(i64, usize)>) -> Seq<(i64, Fraction)> {
    Seq::new(
        s.len(),
        |i: int|
            (
                s[i].0,
                Fraction { num: sum_w(s.take(i + 1)) as usize, den: sum_w(s) as usize },
            ),
    )
}

/// What `ranks` returns: the weighted items sorted ascending, with a
/// running cumulative weight.
pub open spec fn ranks_spec(s: Seq<Seq<i64>>) -> Seq<(i64, usize)> {
    ranks_of(sort_pairs_spec(weighted_from(s, 0)))
}

/// What `cdf` returns: the weighted items sorted ascending, with the
/// normalized running cumulative weight.
pub open spec fn cdf_spec(s: Seq<Seq<i64>>) -> Seq<(i64, Fraction)> {
    cdf_of(sort_pairs_spec(weighted_from(s, 0)))
}

/// The multiset of every stored value from height `h` upward.
pub open spec fn values_from(s: Seq<Seq<i64>>, h: int) -> Multiset<i64>
    decreases s.len() - h,
{
    if h < 0 || h >= s.len() {
        Multiset::empty()
    } else {
        s[h].to_multiset().add(values_from(s, h + 1))
    }
}

/// The multiset of every stored value, all levels together.
pub open spec fn values(s: Seq<Seq<i64>>) -> Multiset<i64> {
    values_from(s, 0)
}

/// The sketch invariant.
pub open spec fn model_inv(m: Model) -> bool {
    &&& config_ok(m.k, m.num, m.den)
    &&& 1 <= m.levels.len() <= LEVEL_LIMIT
    &&& m.size == count_from(m.levels, 0)
    &&& m.max_size == max_size_spec(m.k, m.num, m.den, m.levels.len() as nat)
    &&& wtotal(m.levels) <= usize::MAX
}

/// The state of a freshly constructed sketch: one empty level.
pub open spec fn fresh_model(k: nat, num: nat, den: nat) -> Model {
    Model { k, num, den, levels: seq![Seq::empty()], size: 0, max_size: k + 1 }
}

// ---------------------------------------------------------------------
// Arithmetic facts about the capacity policy and the level sums.
// ---------------------------------------------------------------------

/// Raising a smaller base to the same power gives no more, and powers
/// of naturals are never negative.
proof fn lemma_pow_base_le(a: nat, b: nat, e: nat)
    requires
        a <= b,
    ensures
        0 <= pow(a as int, e) <= pow(b as int, e),
    decreases e,
{
    reveal(pow);
    if e > 0 {
        lemma_pow_base_le(a, b, (e - 1) as nat);
        let pa = pow(a as int, (e - 1) as nat);
        let pb = pow(b as int, (e - 1) as nat);
        assert(0 <= a * pa <= b * pb) by (nonlinear_arith)
            requires
                0 <= pa <= pb,
                0 <= a <= b,
        ;
    }
}

/// Capacity weights never exceed the base parameter `k`.
proof fn lemma_cap_w_le_k(k: nat, num: nat, den: nat, depth: nat)
    requires
        1 <= den,
        num <= den,
    ensures
        cap_w(k, num, den, depth) <= k,
{
    let pn = pow(num as int, depth);
    let pd = pow(den as int, depth);
    lemma_pow_base_le(num, den, depth);
    vstd::arithmetic::power::lemma_pow_positive(den as int, depth);
    assert(k * pn <= k * pd) by (nonlinear_arith)
        requires
            0 <= pn <= pd,
            k >= 0,
    ;
    vstd::arithmetic::div_mod::lemma_div_is_ordered(k * pn, k * pd, pd);
    vstd::arithmetic::div_mod::lemma_div_by_multiple(k as int, pd);
}

/// One step deeper never raises the capacity weight.
proof fn lemma_cap_w_step_le(k: nat, num: nat, den: nat, d: nat)
    requires
        1 <= den,
        num <= den,
    ensures
        cap_w(k, num, den, (d + 1) as nat) <= cap_w(k, num, den, d),
{
    reveal(pow);
    let pn = pow(num as int, d);
    let pd = pow(den as int, d);
    lemma_pow_base_le(num, den, d);
    vstd::arithmetic::power::lemma_pow_positive(den as int, d);
    assert(pow(num as int, (d + 1) as nat) == num * pn);
    assert(pow(den as int, (d + 1) as nat) == den * pd);
    assert(k * (num * pn) <= (k * pn) * den) by (nonlinear_arith)
        requires
            0 <= pn,
            0 <= num <= den,
            k >= 0,
    ;
    assert(den * pd > 0) by (nonlinear_arith)
        requires
            den >= 1,
            pd >= 1,
    ;
    vstd::arithmetic::div_mod::lemma_div_is_ordered(k * (num * pn), (k * pn) * den, den * pd);
    vstd::arithmetic::div_mod::lemma_div_denominator((k * pn) * den, den as int, pd);
    assert(((k * pn) * den) / (den as int) == k * pn) by {
        vstd::arithmetic::div_mod::lemma_div_by_multiple(k * pn, den as int);
    }
    assert(k * (num * pn) == k * pow(num as int, (d + 1) as nat)) by (nonlinear_arith)
        requires
            pow(num as int, (d + 1) as nat) == num * pn,
    ;
}

/// Capacity weights are monotone: deeper is never larger.  Equal weights
/// at different depths do occur where the rounding collapses them.
pub proof fn lemma_cap_w_monotone(k: nat, num: nat, den: nat, d1: nat, d2: nat)
    requires
        1 <= den,
        num <= den,
        d1 <= d2,
    ensures
        cap_w(k, num, den, d2) <= cap_w(k, num, den, d1),
    decreases d2 - d1,
{
    if d1 < d2 {
        lemma_cap_w_step_le(k, num, den, d1);
        lemma_cap_w_monotone(k, num, den, (d1 + 1) as nat, d2);
    }
}

/// The capacity sum for `n` levels is at most `n * (k + 1)`.
proof fn lemma_max_size_le(k: nat, num: nat, den: nat, n: nat)
    requires
        1 <= den,
        num <= den,
    ensures
        max_size_spec(k, num, den, n) <= n * (k + 1),
    decreases n,
{
    if n > 0 {
        lemma_max_size_le(k, num, den, (n - 1) as nat);
        lemma_cap_w_le_k(k, num, den, (n - 1) as nat);
        assert((n - 1) * (k + 1) + (k + 1) == n * (k + 1)) by (nonlinear_arith);
    }
}

/// Two level stacks that agree from height `h` upward have the same sums.
proof fn lemma_sums_agree(s1: Seq<Seq<i64>>, s2: Seq<Seq<i64>>, h: int)
    requires
        s1.len() == s2.len(),
        forall|j: int| h <= j < s1.len() ==> s1[j] == s2[j],
    ensures
        count_from(s1, h) == count_from(s2, h),
        wtotal_from(s1, h) == wtotal_from(s2, h),
    decreases s1.len() - h,
{
    if 0 <= h < s1.len() {
        lemma_sums_agree(s1, s2, h + 1);
    }
}

/// How replacing the level at height `p` changes the sums.
proof fn lemma_sums_update(s: Seq<Seq<i64>>, p: int, t: Seq<i64>, h: int)
    requires
        0 <= h <= p < s.len(),
    ensures
        count_from(s.update(p, t), h) == count_from(s, h) - s[p].len() + t.len(),
        wtotal_from(s.update(p, t), h) == wtotal_from(s, h) - pow2(p as nat) * s[p].len() + pow2(
            p as nat,
        ) * t.len(),
    decreases p - h,
{
    let s2 = s.update(p, t);
    if h == p {
        lemma_sums_agree(s2, s, h + 1);
    } else {
        lemma_sums_update(s, p, t, h + 1);
    }
}

/// Appending an empty level changes neither sum.
proof fn lemma_sums_push_empty(s: Seq<Seq<i64>>, h: int)
    requires
        0 <= h <= s.len(),
    ensures
        count_from(s.push(Seq::empty()), h) == count_from(s, h),
        wtotal_from(s.push(Seq::empty()), h) == wtotal_from(s, h),
    decreases s.len() - h,
{
    let s2 = s.push(Seq::empty());
    if h < s.len() {
        lemma_sums_push_empty(s, h + 1);
        assert(s2[h] == s[h]);
    } else {
        assert(s2[h].len() == 0);
        assert(count_from(s2, h + 1) == 0);
        assert(wtotal_from(s2, h + 1) == 0);
        assert(count_from(s2, h) == 0);
        assert(wtotal_from(s2, h) == pow2(h as nat) * 0);
        vstd::arithmetic::mul::lemma_mul_basics_3(pow2(h as nat) as int);
    }
}

/// A single level's weight is bounded by the total weight.
proof fn lemma_wtotal_lower(s: Seq<Seq<i64>>, p: int, h: int)
    requires
        0 <= h <= p < s.len(),
    ensures
        pow2(p as nat) * s[p].len() <= wtotal_from(s, h),
    decreases p - h,
{
    if h < p {
        lemma_wtotal_lower(s, p, h + 1);
    }
}

/// The item count never exceeds the total weight.
proof fn lemma_count_le_wtotal(s: Seq<Seq<i64>>, h: int)
    requires
        0 <= h,
    ensures
        count_from(s, h) <= wtotal_from(s, h),
    decreases s.len() - h,
{
    if h < s.len() {
        lemma_count_le_wtotal(s, h + 1);
        vstd::arithmetic::power2::lemma_pow2_pos(h as nat);
        let l = s[h].len();
        assert(l <= pow2(h as nat) * l) by (nonlinear_arith)
            requires
                pow2(h as nat) >= 1,
        ;
    }
}

// ---------------------------------------------------------------------
// The compaction step, as a relation on models.
// ---------------------------------------------------------------------

/// A level is at or over its capacity; compression acts on the lowest
/// such level.
pub open spec fn eligible(m: Model, h: int) -> bool {
    &&& 0 <= h < m.levels.len()
    &&& m.levels[h].len() >= cap_at(m.k, m.num, m.den, m.levels.len() as nat, h)
}

/// The lowest ripe level at or above height `h`, if any.
pub open spec fn first_eligible_from(m: Model, h: int) -> Option<int>
    decreases m.levels.len() - h,
{
    if h < 0 || h >= m.levels.len() {
        None
    } else if eligible(m, h) {
        Some(h)
    } else {
        first_eligible_from(m, h + 1)
    }
}

/// The lowest ripe level, if any.
pub open spec fn first_eligible(m: Model) -> Option<int> {
    first_eligible_from(m, 0)
}

/// Appending one empty level and recomputing the capacity sum.
pub open spec fn grow_model(m: Model) -> Model {
    Model {
        levels: m.levels.push(Seq::empty()),
        max_size: max_size_spec(m.k, m.num, m.den, (m.levels.len() + 1) as nat),
        ..m
    }
}

/// The element of the sorted level that the coin flip promotes: the
/// second largest on true, the largest on false.
pub open spec fn promoted_value(l: Seq<i64>, coin: bool) -> i64
    recommends
        l.len() >= 2,
{
    let s = sort_spec(l);
    if coin {
        s[s.len() - 2]
    } else {
        s[s.len() - 1]
    }
}

/// Compacting the level at height `h`: its sorted contents minus the two
/// largest stay, and the promoted survivor joins level `h + 1`.
pub open spec fn compact_levels(ls: Seq<Seq<i64>>, h: int, coin: bool) -> Seq<Seq<i64>>
    recommends
        0 <= h,
        h + 1 < ls.len(),
        ls[h].len() >= 2,
{
    let s = sort_spec(ls[h]);
    ls.update(h, s.take(s.len() - 2)).update(h + 1, ls[h + 1].push(promoted_value(ls[h], coin)))
}

/// One compression pass: find the lowest level at or over capacity, grow
/// first if it is the top, then compact it and promote the survivor.  A
/// level of fewer than two elements is only sorted (which changes
/// nothing observable), and nothing is promoted; without a full level
/// nothing changes at all.
pub open spec fn compress_step(pre: Model, coin: bool) -> Model {
    match first_eligible(pre) {
        Option::None => pre,
        Option::Some(h) => {
            let g = if h + 1 == pre.levels.len() {
                grow_model(pre)
            } else {
                pre
            };
            if pre.levels[h].len() < 2 {
                Model { levels: g.levels.update(h, sort_spec(g.levels[h])), ..g }
            } else {
                Model {
                    levels: compact_levels(g.levels, h, coin),
                    size: (pre.size - 1) as nat,
                    ..g
                }
            }
        },
    }
}

/// Repeated compression passes, one per coin.
pub open spec fn compress_iter(m: Model, coins: Seq<bool>) -> Model
    decreases coins.len(),
{
    if coins.len() == 0 {
        m
    } else {
        compress_iter(compress_step(m, coins.first()), coins.drop_first())
    }
}

/// A state that compression can no longer change: the lowest full level
/// holds a single element and is not the top.
pub open spec fn compress_stuck(m: Model) -> bool {
    forall|c: bool| compress_step(m, c) == m
}

proof fn lemma_compress_iter_push(m: Model, coins: Seq<bool>, c: bool)
    ensures
        compress_iter(m, coins.push(c)) == compress_step(compress_iter(m, coins), c),
    decreases coins.len(),
{
    if coins.len() == 0 {
        assert(coins.push(c).first() == c);
        assert(coins.push(c).drop_first() =~= Seq::<bool>::empty());
        assert(compress_iter(compress_step(m, c), Seq::<bool>::empty()) == compress_step(m, c));
    } else {
        assert(coins.push(c).first() == coins.first());
        assert(coins.push(c).drop_first() =~= coins.drop_first().push(c));
        lemma_compress_iter_push(compress_step(m, coins.first()), coins.drop_first(), c);
    }
}

/// The level at `j`, or an empty level beyond the top.
pub open spec fn level_or_empty(s: Seq<Seq<i64>>, j: int) -> Seq<i64> {
    if 0 <= j < s.len() {
        s[j]
    } else {
        Seq::empty()
    }
}

/// The levelwise concatenation of two level stacks, as tall as the
/// taller one.
pub open spec fn merged_levels(a: Seq<Seq<i64>>, b: Seq<Seq<i64>>) -> Seq<Seq<i64>> {
    Seq::new(
        if a.len() >= b.len() {
            a.len()
        } else {
            b.len()
        },
        |j: int| level_or_empty(a, j) + level_or_empty(b, j),
    )
}

/// Everything `first_eligible_from` promises about its result.
proof fn lemma_first_eligible_from(m: Model, h: int)
    requires
        0 <= h,
    ensures
        match first_eligible_from(m, h) {
            Option::Some(e) => {
                &&& h <= e < m.levels.len()
                &&& eligible(m, e)
                &&& forall|j: int| h <= j < e ==> !#[trigger] eligible(m, j)
            },
            Option::None => forall|j: int| h <= j < m.levels.len() ==> !#[trigger] eligible(m, j),
        },
    decreases m.levels.len() - h,
{
    if h < m.levels.len() && !eligible(m, h) {
        lemma_first_eligible_from(m, h + 1);
    }
}

/// No level holds fewer than zero items below `v`.
proof fn lemma_count_lt_le_len(l: Seq<i64>, v: i64)
    ensures
        count_lt(l, v) <= l.len(),
    decreases l.len(),
{
    if l.len() > 0 {
        lemma_count_lt_le_len(l.drop_last(), v);
    }
}

/// The weighted rank never exceeds the total weight.
proof fn lemma_rank_le_wtotal(s: Seq<Seq<i64>>, v: i64, h: int)
    requires
        0 <= h,
    ensures
        rank_from(s, v, h) <= wtotal_from(s, h),
    decreases s.len() - h,
{
    if h < s.len() {
        lemma_rank_le_wtotal(s, v, h + 1);
        lemma_count_lt_le_len(s[h], v);
        assert(pow2(h as nat) * count_lt(s[h], v) <= pow2(h as nat) * s[h].len())
            by (nonlinear_arith)
            requires
                count_lt(s[h], v) <= s[h].len(),
        ;
    }
}

/// Weight sums split across concatenation.
proof fn lemma_sum_w_concat(a: Seq<(i64, usize)>, b: Seq<(i64, usize)>)
    ensures
        sum_w(a + b) == sum_w(a) + sum_w(b),
    decreases b.len(),
{
    if b.len() == 0 {
        assert(a + b =~= a);
    } else {
        lemma_sum_w_concat(a, b.drop_last());
        assert((a + b).drop_last() =~= a + b.drop_last());
    }
}

/// A single pair sums to its own weight.
proof fn lemma_sum_w_single(x: (i64, usize))
    ensures
        sum_w(seq![x]) == x.1,
{
    let s = seq![x];
    assert(s.len() == 1);
    assert(s.last() == x);
    assert(s.drop_last() =~= Seq::<(i64, usize)>::empty());
    assert(sum_w(s.drop_last()) == 0);
    assert(sum_w(s) == sum_w(s.drop_last()) + x.1);
}

/// Inserting a pair adds exactly its weight to the sum.
proof fn lemma_sum_w_insert(s: Seq<(i64, usize)>, x: (i64, usize))
    ensures
        sum_w(crate::sorting::insert_sorted_pair(s, x)) == sum_w(s) + x.1,
    decreases s.len(),
{
    if s.len() == 0 {
        lemma_sum_w_single(x);
    } else if crate::sorting::le_pair(s[0], x) {
        let df = s.drop_first();
        let t = crate::sorting::insert_sorted_pair(df, x);
        lemma_sum_w_insert(df, x);
        lemma_sum_w_concat(seq![s[0]], t);
        lemma_sum_w_concat(seq![s[0]], df);
        assert(seq![s[0]] + df =~= s);
        lemma_sum_w_single(s[0]);
        assert(crate::sorting::insert_sorted_pair(s, x) == seq![s[0]] + t);
        assert(sum_w(seq![s[0]] + t) == sum_w(seq![s[0]]) + sum_w(t));
    } else {
        lemma_sum_w_concat(seq![x], s);
        lemma_sum_w_single(x);
    }
}

/// Sorting the pairs leaves the weight sum unchanged.
proof fn lemma_sum_w_sorted(s: Seq<(i64, usize)>)
    ensures
        sum_w(sort_pairs_spec(s)) == sum_w(s),
    decreases s.len(),
{
    if s.len() > 0 {
        lemma_sum_w_sorted(s.drop_last());
        lemma_sum_w_insert(sort_pairs_spec(s.drop_last()), s.last());
    }
}

/// One more element of the prefix adds exactly its weight.
proof fn lemma_sum_w_take_step(s: Seq<(i64, usize)>, i: int)
    requires
        0 <= i < s.len(),
    ensures
        sum_w(s.take(i + 1)) == sum_w(s.take(i)) + s[i].1,
{
    assert(s.take(i + 1).drop_last() =~= s.take(i));
}

/// Weight sums of prefixes are monotone.
proof fn lemma_sum_w_take_mono(s: Seq<(i64, usize)>, i: int, j: int)
    requires
        0 <= i <= j <= s.len(),
    ensures
        sum_w(s.take(i)) <= sum_w(s.take(j)),
    decreases j - i,
{
    if i < j {
        lemma_sum_w_take_step(s, i);
        lemma_sum_w_take_mono(s, i + 1, j);
    }
}

/// A whole-sequence prefix is the sequence itself.
proof fn lemma_sum_w_take_all(s: Seq<(i64, usize)>)
    ensures
        sum_w(s.take(s.len() as int)) == sum_w(s),
{
    assert(s.take(s.len() as int) =~= s);
}

/// A level's pairs sum to its weight times its length.
proof fn lemma_level_pairs_sum(l: Seq<i64>, w: usize)
    ensures
        level_pairs(l, w).len() == l.len(),
        sum_w(level_pairs(l, w)) == w * l.len(),
    decreases l.len(),
{
    if l.len() == 0 {
        assert(w * 0 == 0) by (nonlinear_arith);
    } else {
        lemma_level_pairs_sum(l.drop_last(), w);
        assert(level_pairs(l, w).drop_last() =~= level_pairs(l.drop_last(), w));
        assert(w * (l.len() - 1) + w == w * l.len()) by (nonlinear_arith);
    }
}

/// The weighted pair list has one entry per stored item and carries the
/// total weight, as long as that total fits in `usize`.
proof fn lemma_weighted_sums(s: Seq<Seq<i64>>, h: int)
    requires
        0 <= h,
        wtotal_from(s, 0) <= usize::MAX,
    ensures
        weighted_from(s, h).len() == count_from(s, h),
        sum_w(weighted_from(s, h)) == wtotal_from(s, h),
    decreases s.len() - h,
{
    if h < s.len() {
        lemma_weighted_sums(s, h + 1);
        let w = pow2(h as nat) as usize;
        lemma_level_pairs_sum(s[h], w);
        lemma_sum_w_concat(level_pairs(s[h], w), weighted_from(s, h + 1));
        if s[h].len() > 0 {
            lemma_wtotal_lower(s, h, 0);
            assert(pow2(h as nat) <= pow2(h as nat) * s[h].len()) by (nonlinear_arith)
                requires
                    s[h].len() >= 1,
            ;
            assert(pow2(h as nat) <= usize::MAX);
            assert(w == pow2(h as nat));
        } else {
            assert(w * s[h].len() == 0) by (nonlinear_arith)
                requires
                    s[h].len() == 0,
            ;
            assert(pow2(h as nat) * s[h].len() == 0) by (nonlinear_arith)
                requires
                    s[h].len() == 0,
            ;
        }
    }
}

/// Two level stacks that agree from height `h` upward hold the same
/// values there.
proof fn lemma_values_agree(s1: Seq<Seq<i64>>, s2: Seq<Seq<i64>>, h: int)
    requires
        s1.len() == s2.len(),
        forall|j: int| h <= j < s1.len() ==> s1[j] == s2[j],
    ensures
        values_from(s1, h) == values_from(s2, h),
    decreases s1.len() - h,
{
    if 0 <= h < s1.len() {
        lemma_values_agree(s1, s2, h + 1);
    }
}

/// How replacing the level at height `p` changes the stored values.
proof fn lemma_values_update(s: Seq<Seq<i64>>, p: int, t: Seq<i64>, h: int)
    requires
        0 <= h <= p < s.len(),
    ensures
        values_from(s.update(p, t), h).add(s[p].to_multiset()) == values_from(s, h).add(
            t.to_multiset(),
        ),
    decreases p - h,
{
    broadcast use vstd::multiset::group_multiset_axioms;

    let s2 = s.update(p, t);
    if h == p {
        lemma_values_agree(s2, s, h + 1);
        assert(values_from(s2, h) == t.to_multiset().add(values_from(s, h + 1)));
        assert(values_from(s, h) == s[p].to_multiset().add(values_from(s, h + 1)));
        assert forall|v: i64|
            values_from(s2, h).add(s[p].to_multiset()).count(v) == values_from(s, h).add(
                t.to_multiset(),
            ).count(v) by {
            assert(t.to_multiset().add(values_from(s, h + 1)).count(v) == t.to_multiset().count(v)
                + values_from(s, h + 1).count(v));
            assert(s[p].to_multiset().add(values_from(s, h + 1)).count(v) == s[p].to_multiset()
                .count(v) + values_from(s, h + 1).count(v));
        }
        assert(values_from(s2, h).add(s[p].to_multiset()) =~= values_from(s, h).add(
            t.to_multiset(),
        ));
    } else {
        lemma_values_update(s, p, t, h + 1);
        assert(values_from(s2, h) == s[h].to_multiset().add(values_from(s2, h + 1)));
        assert(values_from(s, h) == s[h].to_multiset().add(values_from(s, h + 1)));
        assert forall|v: i64|
            values_from(s2, h).add(s[p].to_multiset()).count(v) == values_from(s, h).add(
                t.to_multiset(),
            ).count(v) by {
            assert(values_from(s2, h + 1).add(s[p].to_multiset()).count(v) == values_from(
                s,
                h + 1,
            ).add(t.to_multiset()).count(v));
            assert(s[h].to_multiset().add(values_from(s2, h + 1)).count(v) == s[h].to_multiset()
                .count(v) + values_from(s2, h + 1).count(v));
            assert(s[h].to_multiset().add(values_from(s, h + 1)).count(v) == s[h].to_multiset()
                .count(v) + values_from(s, h + 1).count(v));
        }
        assert(values_from(s2, h).add(s[p].to_multiset()) =~= values_from(s, h).add(
            t.to_multiset(),
        ));
    }
}

/// Appending an empty level adds no values.
proof fn lemma_values_push_empty(s: Seq<Seq<i64>>, h: int)
    requires
        0 <= h <= s.len(),
    ensures
        values_from(s.push(Seq::empty()), h) == values_from(s, h),
    decreases s.len() - h,
{
    broadcast use vstd::multiset::group_multiset_axioms;
    broadcast use vstd::seq_lib::group_to_multiset_ensures;

    let s2 = s.push(Seq::empty());
    if h < s.len() {
        lemma_values_push_empty(s, h + 1);
        assert(s2[h] == s[h]);
    } else {
        assert(s2[h].len() == 0);
        assert(s2[h].to_multiset().len() == 0);
        assert(s2[h].to_multiset() =~= Multiset::<i64>::empty());
        assert(values_from(s2, h + 1) == Multiset::<i64>::empty());
        assert(values_from(s2, h) =~= Multiset::<i64>::empty());
    }
}

/// The values of levels that are the levelwise concatenation of two
/// stacks.
proof fn lemma_values_concat(s: Seq<Seq<i64>>, a: Seq<Seq<i64>>, b: Seq<Seq<i64>>, h: int)
    requires
        0 <= h,
        s.len() == a.len(),
        b.len() <= a.len(),
        forall|j: int| 0 <= j < b.len() ==> #[trigger] s[j] == a[j] + b[j],
        forall|j: int| b.len() <= j < a.len() ==> #[trigger] s[j] == a[j],
    ensures
        values_from(s, h) == values_from(a, h).add(values_from(b, h)),
    decreases s.len() - h,
{
    broadcast use vstd::multiset::group_multiset_axioms;

    if h < s.len() {
        lemma_values_concat(s, a, b, h + 1);
        if h < b.len() {
            vstd::seq_lib::lemma_multiset_commutative(a[h], b[h]);
        }
        assert(values_from(s, h) =~= values_from(a, h).add(values_from(b, h)));
    } else {
        assert(values_from(s, h) =~= values_from(a, h).add(values_from(b, h)));
    }
}

/// One compression pass never invents a stored value: two copies of the
/// level's largest values leave and one of them returns one level up.
pub proof fn lemma_compress_step_values(pre: Model, coin: bool)
    requires
        model_inv(pre),
    ensures
        values(compress_step(pre, coin).levels).subset_of(values(pre.levels)),
{
    broadcast use vstd::multiset::group_multiset_axioms;
    broadcast use vstd::seq_lib::group_to_multiset_ensures;

    lemma_first_eligible_from(pre, 0);
    match first_eligible(pre) {
        Option::None => {},
        Option::Some(h) => {
            let n = pre.levels.len() as int;
            assert(eligible(pre, h));
            let grew = h + 1 == n;
            let g = if grew {
                grow_model(pre)
            } else {
                pre
            };
            if grew {
                lemma_ripe_top_bound(pre, h);
                lemma_values_push_empty(pre.levels, 0);
            }
            assert(g.levels[h] == pre.levels[h]);
            assert(values_from(g.levels, 0) == values_from(pre.levels, 0));
            let l = g.levels[h];
            let s = sort_spec(l);
            crate::sorting::lemma_sort_spec_props(l);
            if l.len() < 2 {
                let l1 = g.levels.update(h, s);
                lemma_values_update(g.levels, h, s, 0);
                let post = compress_step(pre, coin);
                assert(post.levels =~~= l1);
                assert forall|v: i64|
                    values(l1).count(v) <= values(pre.levels).count(v) by {
                    assert(values_from(l1, 0).add(l.to_multiset()).count(v) == values_from(
                        l1,
                        0,
                    ).count(v) + l.to_multiset().count(v));
                    assert(values_from(g.levels, 0).add(s.to_multiset()).count(v) == values_from(
                        g.levels,
                        0,
                    ).count(v) + s.to_multiset().count(v));
                }
                assert(values(post.levels).subset_of(values(pre.levels)));
            } else {
            let kept = s.take(s.len() - 2);
            assert(s.take(s.len() - 1).push(s[s.len() - 1]) =~= s);
            assert(kept.push(s[s.len() - 2]) =~= s.take(s.len() - 1));
            assert(s.to_multiset() == kept.to_multiset().insert(s[s.len() - 2]).insert(
                s[s.len() - 1],
            ));
            let l1 = g.levels.update(h, kept);
            lemma_values_update(g.levels, h, kept, 0);
            assert(l1[h + 1] == g.levels[h + 1]);
            let pv = promoted_value(pre.levels[h], coin);
            let l2 = l1.update(h + 1, l1[h + 1].push(pv));
            lemma_values_update(l1, h + 1, l1[h + 1].push(pv), 0);
            assert(l1[h + 1].push(pv).to_multiset() == l1[h + 1].to_multiset().insert(pv));
            let post = compress_step(pre, coin);
            assert(post.levels =~~= l2);
            assert forall|v: i64|
                values(l2).count(v) <= values(pre.levels).count(v) by {
                assert(values_from(l2, 0).add(l1[h + 1].to_multiset()).count(v) == values_from(
                    l2,
                    0,
                ).count(v) + l1[h + 1].to_multiset().count(v));
                assert(values_from(l1, 0).add(l1[h + 1].push(pv).to_multiset()).count(v)
                    == values_from(l1, 0).count(v) + l1[h + 1].push(pv).to_multiset().count(v));
                assert(l1[h + 1].to_multiset().insert(pv).count(v) == l1[h + 1].to_multiset()
                    .count(v) + if v == pv {
                    1nat
                } else {
                    0nat
                });
                assert(values_from(l1, 0).add(g.levels[h].to_multiset()).count(v) == values_from(
                    l1,
                    0,
                ).count(v) + g.levels[h].to_multiset().count(v));
                assert(values_from(g.levels, 0).add(kept.to_multiset()).count(v) == values_from(
                    g.levels,
                    0,
                ).count(v) + kept.to_multiset().count(v));
                assert(kept.to_multiset().insert(s[s.len() - 2]).count(v) == kept.to_multiset()
                    .count(v) + if v == s[s.len() - 2] {
                    1nat
                } else {
                    0nat
                });
                assert(kept.to_multiset().insert(s[s.len() - 2]).insert(s[s.len() - 1]).count(v)
                    == kept.to_multiset().insert(s[s.len() - 2]).count(v) + if v == s[s.len()
                    - 1] {
                    1nat
                } else {
                    0nat
                });
            }
            assert(values(post.levels).subset_of(values(pre.levels)));
            }
        },
    }
}

/// Summing levels that are the levelwise concatenation of two stacks.
proof fn lemma_sums_concat(s: Seq<Seq<i64>>, a: Seq<Seq<i64>>, b: Seq<Seq<i64>>, h: int)
    requires
        0 <= h,
        s.len() == a.len(),
        b.len() <= a.len(),
        forall|j: int| 0 <= j < b.len() ==> #[trigger] s[j] == a[j] + b[j],
        forall|j: int| b.len() <= j < a.len() ==> #[trigger] s[j] == a[j],
    ensures
        count_from(s, h) == count_from(a, h) + count_from(b, h),
        wtotal_from(s, h) == wtotal_from(a, h) + wtotal_from(b, h),
    decreases s.len() - h,
{
    if h < s.len() {
        lemma_sums_concat(s, a, b, h + 1);
        if h < b.len() {
            assert(s[h].len() == a[h].len() + b[h].len());
            assert(pow2(h as nat) * (a[h].len() + b[h].len()) == pow2(h as nat) * a[h].len() + pow2(
                h as nat,
            ) * b[h].len()) by (nonlinear_arith);
        }
    }
}

/// If `e` is ripe and nothing below it is, the scan finds exactly `e`.
proof fn lemma_first_eligible_is_from(m: Model, i: int, e: int)
    requires
        0 <= i <= e < m.levels.len(),
        eligible(m, e),
        forall|j: int| i <= j < e ==> !#[trigger] eligible(m, j),
    ensures
        first_eligible_from(m, i) == Some(e),
    decreases e - i,
{
    if i < e {
        lemma_first_eligible_is_from(m, i + 1, e);
    }
}

/// Without a ripe level the scan finds nothing.
proof fn lemma_first_eligible_none_from(m: Model, i: int)
    requires
        0 <= i,
        forall|j: int| i <= j < m.levels.len() ==> !#[trigger] eligible(m, j),
    ensures
        first_eligible_from(m, i) is None,
    decreases m.levels.len() - i,
{
    if i < m.levels.len() {
        lemma_first_eligible_none_from(m, i + 1);
    }
}

/// Without a ripe level the scan finds nothing.
proof fn lemma_first_eligible_is_none(m: Model)
    requires
        forall|j: int| 0 <= j < m.levels.len() ==> !#[trigger] eligible(m, j),
    ensures
        first_eligible(m) is None,
{
    lemma_first_eligible_none_from(m, 0);
}

/// A single level's length is bounded by the stored count.
proof fn lemma_count_lower(s: Seq<Seq<i64>>, p: int, h: int)
    requires
        0 <= h <= p < s.len(),
    ensures
        s[p].len() <= count_from(s, h),
    decreases p - h,
{
    if h < p {
        lemma_count_lower(s, p, h + 1);
    }
}

/// A non-empty level at height `h` keeps `h` well below the level
/// limit, because its weight alone is at least `2^h` and the total
/// weight fits in `usize`.
proof fn lemma_ripe_top_bound(m: Model, h: int)
    requires
        wtotal(m.levels) <= usize::MAX,
        0 <= h < m.levels.len(),
        m.levels[h].len() >= 1,
    ensures
        h + 2 <= LEVEL_LIMIT,
{
    lemma_wtotal_lower(m.levels, h, 0);
    assert(pow2(h as nat) <= pow2(h as nat) * m.levels[h].len()) by (nonlinear_arith)
        requires
            m.levels[h].len() >= 1,
            pow2(h as nat) >= 0,
    ;
    assert(pow2(h as nat) <= usize::MAX);
    vstd::arithmetic::power2::lemma2_to64();
    assert(usize::MAX as nat <= 0xFFFFFFFFFFFFFFFF);
    if h > 64 {
        vstd::arithmetic::power2::lemma_pow2_strictly_increases(64, h as nat);
        assert(false);
    }
    if h == 64 {
        assert(false);
    }
}

/// One compression pass on a ripe sketch preserves the invariant and the
/// total weight, and shrinks the stored count by exactly one.
pub proof fn lemma_compress_step_inv(pre: Model, coin: bool)
    requires
        model_inv(pre),
        first_eligible(pre) is Some,
    ensures
        ({
            let post = compress_step(pre, coin);
            &&& model_inv(post)
            &&& wtotal(post.levels) == wtotal(pre.levels)
            &&& post.size <= pre.size
            &&& post.levels.len() >= pre.levels.len()
            &&& post.k == pre.k
            &&& post.num == pre.num
            &&& post.den == pre.den
        }),
{
    lemma_first_eligible_from(pre, 0);
    match first_eligible(pre) {
        Option::None => {},
        Option::Some(h) => {
            let n = pre.levels.len() as int;
            assert(eligible(pre, h));
            let grew = h + 1 == n;
            let g = if grew {
                grow_model(pre)
            } else {
                pre
            };
            if grew {
                lemma_ripe_top_bound(pre, h);
                lemma_sums_push_empty(pre.levels, 0);
            }
            assert(g.levels[h] == pre.levels[h]);
            assert(count_from(g.levels, 0) == count_from(pre.levels, 0));
            assert(wtotal_from(g.levels, 0) == wtotal_from(pre.levels, 0));
            assert(h + 1 < g.levels.len());
            let l = g.levels[h];
            let s = sort_spec(l);
            crate::sorting::lemma_sort_spec_props(l);
            let post = compress_step(pre, coin);
            if l.len() < 2 {
                let l1 = g.levels.update(h, s);
                lemma_sums_update(g.levels, h, s, 0);
                assert(post.levels =~~= l1);
                assert(pow2(h as nat) * l.len() == pow2(h as nat) * s.len());
                assert(count_from(l1, 0) == count_from(pre.levels, 0));
                assert(wtotal_from(l1, 0) == wtotal_from(pre.levels, 0));
                assert(post.max_size == max_size_spec(post.k, post.num, post.den,
                    post.levels.len() as nat));
                assert(model_inv(post));
            } else {
                let kept = s.take(s.len() - 2);
                let l1 = g.levels.update(h, kept);
                lemma_sums_update(g.levels, h, kept, 0);
                assert(l1[h + 1] == g.levels[h + 1]);
                let pv = promoted_value(pre.levels[h], coin);
                let l2 = l1.update(h + 1, l1[h + 1].push(pv));
                lemma_sums_update(l1, h + 1, l1[h + 1].push(pv), 0);
                assert(pow2((h + 1) as nat) * (l1[h + 1].len() + 1) == pow2((h + 1) as nat) * l1[h
                    + 1].len() + pow2((h + 1) as nat)) by (nonlinear_arith);
                assert(post.levels =~~= l2);
                // the stored count drops by one
                assert(count_from(l2, 0) == count_from(pre.levels, 0) - 1);
                // the weight of two elements at `h` reappears as one at `h + 1`
                vstd::arithmetic::power2::lemma_pow2_unfold((h + 1) as nat);
                assert(pow2(h as nat) * l.len() - pow2(h as nat) * kept.len() == 2 * pow2(
                    h as nat,
                )) by (nonlinear_arith)
                    requires
                        kept.len() == l.len() - 2,
                        l.len() >= 2,
                ;
                assert(wtotal_from(l2, 0) == wtotal_from(pre.levels, 0));
                assert(post.max_size == max_size_spec(post.k, post.num, post.den,
                    post.levels.len() as nat));
                assert(model_inv(post));
            }
        },
    }
}

/// A pass that changes neither the tracked size nor the level count
/// changes nothing at all, whatever the coin: the lowest full level
/// holds one element, is not the top, and sorting it is the identity.
pub proof fn lemma_compress_no_progress(pre: Model, c0: bool)
    requires
        model_inv(pre),
        compress_step(pre, c0).size == pre.size,
        compress_step(pre, c0).levels.len() == pre.levels.len(),
    ensures
        compress_stuck(pre),
{
    lemma_first_eligible_from(pre, 0);
    assert forall|c: bool| compress_step(pre, c) == pre by {
        match first_eligible(pre) {
            Option::None => {},
            Option::Some(h) => {
                let n = pre.levels.len() as int;
                assert(eligible(pre, h));
                let l = pre.levels[h];
                if l.len() >= 2 {
                    lemma_count_lower(pre.levels, h, 0);
                    assert(compress_step(pre, c0).size == pre.size - 1);
                    assert(false);
                }
                if h + 1 == n {
                    assert(compress_step(pre, c0).levels.len() == n + 1);
                    assert(false);
                }
                assert(l.len() == 1);
                crate::sorting::lemma_sort_spec_singleton(l);
                assert(pre.levels.update(h, sort_spec(l)) =~~= pre.levels);
                assert(compress_step(pre, c) =~~= pre);
            },
        }
    }
}

/// Counting below a larger bound never counts fewer elements.
proof fn lemma_count_lt_monotone(l: Seq<i64>, v1: i64, v2: i64)
    requires
        v1 <= v2,
    ensures
        count_lt(l, v1) <= count_lt(l, v2),
    decreases l.len(),
{
    if l.len() > 0 {
        lemma_count_lt_monotone(l.drop_last(), v1, v2);
    }
}

proof fn lemma_rank_from_monotone(s: Seq<Seq<i64>>, v1: i64, v2: i64, h: int)
    requires
        v1 <= v2,
        0 <= h,
    ensures
        rank_from(s, v1, h) <= rank_from(s, v2, h),
    decreases s.len() - h,
{
    if h < s.len() {
        lemma_rank_from_monotone(s, v1, v2, h + 1);
        lemma_count_lt_monotone(s[h], v1, v2);
        assert(pow2(h as nat) * count_lt(s[h], v1) <= pow2(h as nat) * count_lt(s[h], v2))
            by (nonlinear_arith)
            requires
                count_lt(s[h], v1) <= count_lt(s[h], v2),
        ;
    }
}

/// Rank monotonicity: a larger query value never has a smaller rank.
pub proof fn lemma_rank_monotone(s: Seq<Seq<i64>>, v1: i64, v2: i64)
    requires
        v1 <= v2,
    ensures
        rank_spec(s, v1) <= rank_spec(s, v2),
{
    lemma_rank_from_monotone(s, v1, v2, 0);
}

/// Capacity monotonicity: with a strict decay factor `c < 1`, level
/// capacity grows with height, and strictly so wherever the higher
/// level's capacity has not yet bottomed out at one.
pub proof fn lemma_capacity_monotone(k: nat, num: nat, den: nat, n: nat, h1: int, h2: int)
    requires
        1 <= den,
        num < den,
        0 <= h1 < h2 < n,
    ensures
        cap_at(k, num, den, n, h1) <= cap_at(k, num, den, n, h2),
{
    let d1 = (n - 1 - h1) as nat;
    let d2 = (n - 1 - h2) as nat;
    lemma_cap_w_monotone(k, num, den, d2, d1);
}

proof fn lemma_empty_sketch_from(s: Seq<Seq<i64>>, v: i64, h: int)
    requires
        0 <= h,
        forall|j: int| 0 <= j < s.len() ==> (#[trigger] s[j]).len() == 0,
    ensures
        rank_from(s, v, h) == 0,
        count_from(s, h) == 0,
        wtotal_from(s, h) == 0,
        weighted_from(s, h) == Seq::<(i64, usize)>::empty(),
    decreases s.len() - h,
{
    if 0 <= h < s.len() {
        lemma_empty_sketch_from(s, v, h + 1);
        assert(count_lt(s[h], v) == 0);
        assert(pow2(h as nat) * 0 == 0) by (nonlinear_arith);
        assert(level_pairs(s[h], pow2(h as nat) as usize) =~= Seq::<(i64, usize)>::empty());
        assert(weighted_from(s, h) =~= Seq::<(i64, usize)>::empty());
    }
}

/// Empty-sketch queries: with nothing stored, every rank is zero and
/// the rank and distribution lists are empty.
pub proof fn lemma_empty_sketch_queries(s: Seq<Seq<i64>>, v: i64)
    requires
        forall|j: int| 0 <= j < s.len() ==> (#[trigger] s[j]).len() == 0,
    ensures
        rank_spec(s, v) == 0,
        count_from(s, 0) == 0,
        ranks_spec(s) == Seq::<(i64, usize)>::empty(),
        cdf_spec(s) == Seq::<(i64, Fraction)>::empty(),
{
    lemma_empty_sketch_from(s, v, 0);
    assert(sort_pairs_spec(Seq::<(i64, usize)>::empty()) == Seq::<(i64, usize)>::empty());
    assert(ranks_spec(s) =~= Seq::<(i64, usize)>::empty());
    assert(cdf_spec(s) =~= Seq::<(i64, Fraction)>::empty());
}

// ---------------------------------------------------------------------
// The sketch.
// ---------------------------------------------------------------------

/// Relies on rand::random: draws one random boolean for the compaction
/// coin flip; nothing is promised of its value.
#[verifier::external_body]
fn coin() -> bool {
    rand::random()
}

/// A level buffer that can be compacted: sorted, then shrunk by exactly
/// its two largest elements, one of which is returned for promotion.
pub trait Compact {
    /// The buffer's contents.
    spec fn buf(&self) -> Seq<i64>;

    /// Sort the buffer ascending; with fewer than two elements, promote
    /// nothing.  Otherwise remove the two largest elements and return one
    /// of them, chosen by a random coin flip; the rest are untouched.
    fn compact(&mut self) -> (r: Option<i64>)
        ensures
            old(self).buf().len() < 2 ==> r is None && final(self).buf() == sort_spec(
                old(self).buf(),
            ),
            old(self).buf().len() >= 2 ==> ({
                let s = sort_spec(old(self).buf());
                &&& final(self).buf() == s.take(s.len() - 2)
                &&& final(self).buf().len() + 2 == old(self).buf().len()
                &&& (r == Some(s[s.len() - 2]) || r == Some(s[s.len() - 1]))
            }),
    ;
}

impl Compact for Vec<i64> {
    open spec fn buf(&self) -> Seq<i64> {
        self@
    }

    fn compact(&mut self) -> (r: Option<i64>) {
        sort_in_place(self);
        proof {
            crate::sorting::lemma_sort_spec_props(old(self)@);
        }
        if self.len() < 2 {
            return None;
        }
        let ghost s = sort_spec(old(self)@);
        if coin() {
            self.pop();
            let r = self.pop();
            proof {
                assert(self@ =~= s.take(s.len() - 2));
            }
            r
        } else {
            let r = self.pop();
            self.pop();
            proof {
                assert(self@ =~= s.take(s.len() - 2));
            }
            r
        }
    }
}

/// `2^h` as a machine integer.
fn pow2_exec(h: usize) -> (r: usize)
    requires
        pow2(h as nat) <= usize::MAX,
    ensures
        r == pow2(h as nat),
{
    proof {
        vstd::arithmetic::power2::lemma2_to64();
    }
    let mut r: usize = 1;
    let mut i: usize = 0;
    while i < h
        invariant
            i <= h,
            r == pow2(i as nat),
            pow2(h as nat) <= usize::MAX,
        decreases h - i,
    {
        proof {
            vstd::arithmetic::power2::lemma_pow2_unfold((i + 1) as nat);
            if i + 1 < h {
                vstd::arithmetic::power2::lemma_pow2_strictly_increases((i + 1) as nat, h as nat);
            }
            assert(pow2((i + 1) as nat) <= pow2(h as nat));
        }
        r = r * 2;
        i += 1;
    }
    r
}

/// A Karnin-Liberty-Lang streaming quantile sketch over `i64` items.
pub struct KLL {
    k: usize,
    c_num: usize,
    c_den: usize,
    compactors: Vec<Vec<i64>>,
    size: usize,
    max_size: usize,
}

impl KLL {
    /// The mathematical state of the sketch.
    pub closed spec fn model(&self) -> Model {
        Model {
            k: self.k as nat,
            num: self.c_num as nat,
            den: self.c_den as nat,
            levels: self.compactors@.map_values(|v: Vec<i64>| v@),
            size: self.size as nat,
            max_size: self.max_size as nat,
        }
    }

    /// The sketch invariant; see `model_inv`.
    pub open spec fn inv(&self) -> bool {
        model_inv(self.model())
    }

    /// Create a sketch with base capacity `k` and decay factor
    /// `c_num / c_den`, which must lie in `(1/2, 1]`; otherwise
    /// construction fails.  The sketch starts with one empty level.
    pub fn new(k: usize, c_num: usize, c_den: usize) -> (r: Result<KLL, ConfigurationError>)
        requires
            1 <= k,
            k * c_den <= usize::MAX,
            LEVEL_LIMIT * (k + 1) <= usize::MAX,
        ensures
            match r {
                Result::Ok(s) => {
                    &&& valid_c(c_num as nat, c_den as nat)
                    &&& s.inv()
                    &&& s.model() == fresh_model(k as nat, c_num as nat, c_den as nat)
                },
                Result::Err(_) => !valid_c(c_num as nat, c_den as nat),
            },
    {
        if !(c_den >= 1 && c_num <= c_den && c_den - c_num < c_num) {
            return Err(ConfigurationError);
        }
        let mut a = KLL {
            k,
            c_num,
            c_den,
            compactors: Vec::new(),
            size: 0,
            max_size: 0,
        };
        a.grow();
        proof {
            let m = a.model();
            assert(m.levels =~= seq![Seq::<i64>::empty()]);
            assert(m.levels.len() == 1);
            assert(m.levels[0].len() == 0);
            assert(count_from(m.levels, 1) == 0);
            assert(count_from(m.levels, 0) == 0);
            assert(wtotal_from(m.levels, 1) == 0);
            vstd::arithmetic::mul::lemma_mul_basics_3(pow2(0) as int);
            assert(wtotal_from(m.levels, 0) == 0);
            assert(max_size_spec(m.k, m.num, m.den, 1) == max_size_spec(m.k, m.num, m.den, 0)
                + cap_w(m.k, m.num, m.den, 0) + 1);
            vstd::arithmetic::power::lemma_pow0(m.num as int);
            vstd::arithmetic::power::lemma_pow0(m.den as int);
            assert(cap_w(m.k, m.num, m.den, 0) == m.k);
            assert(m.max_size == m.k + 1);
            assert(m =~~= fresh_model(k as nat, c_num as nat, c_den as nat));
        }
        Ok(a)
    }

    /// Append one empty level at the top and recompute the capacity sum
    /// for the new level count.
    fn grow(&mut self)
        requires
            config_ok(old(self).model().k, old(self).model().num, old(self).model().den),
            old(self).model().levels.len() + 1 <= LEVEL_LIMIT,
        ensures
            final(self).model() == grow_model(old(self).model()),
    {
        let ghost gk = self.k as nat;
        let ghost gnum = self.c_num as nat;
        let ghost gden = self.c_den as nat;
        self.compactors.push(Vec::new());
        let n = self.compactors.len();
        let mut sum: usize = 0;
        let mut d: usize = 0;
        while d < n
            invariant
                d <= n,
                n == self.compactors@.len(),
                self.k == gk,
                self.c_num == gnum,
                self.c_den == gden,
                self.model().k == gk,
                self.model().num == gnum,
                self.model().den == gden,
                config_ok(gk, gnum, gden),
                n <= LEVEL_LIMIT,
                sum == max_size_spec(gk, gnum, gden, d as nat),
            decreases n - d,
        {
            let w = self.cap_weight(d);
            proof {
                lemma_cap_w_le_k(gk, gnum, gden, d as nat);
                lemma_max_size_le(gk, gnum, gden, (d + 1) as nat);
                assert((d + 1) * (gk + 1) <= (LEVEL_LIMIT as nat) * (gk + 1)) by (nonlinear_arith)
                    requires
                        0 <= d,
                        d + 1 <= (LEVEL_LIMIT as nat),
                        gk >= 0,
                ;
            }
            sum = sum + w + 1;
            d += 1;
        }
        self.max_size = sum;
        proof {
            let f = |v: Vec<i64>| v@;
            assert(self.compactors@.map_values(f) =~= old(self).compactors@.map_values(f).push(
                Seq::empty(),
            ));
            assert(self.model() =~~= grow_model(old(self).model()));
        }
    }

    /// The capacity of the level at `height` under the current level
    /// count.
    pub fn capacity(&self, height: usize) -> (r: usize)
        requires
            self.inv(),
            height < self.model().levels.len(),
        ensures
            r == cap_at(
                self.model().k,
                self.model().num,
                self.model().den,
                self.model().levels.len() as nat,
                height as int,
            ),
    {
        let ghost gk = self.k as nat;
        let ghost gnum = self.c_num as nat;
        let ghost gden = self.c_den as nat;
        let n = self.compactors.len();
        let depth = n - 1 - height;
        let w = self.cap_weight(depth);
        proof {
            assert(gk + 1 <= (LEVEL_LIMIT as nat) * (gk + 1)) by (nonlinear_arith)
                requires
                    gk >= 0,
            ;
            lemma_cap_w_le_k(gk, gnum, gden, depth as nat);
        }
        w + 1
    }

    /// The capacity weight `floor(k * c^depth)`: the exact rational
    /// power, computed with big-integer arithmetic, rounded down once by
    /// a binary search for the quotient.
    fn cap_weight(&self, depth: usize) -> (w: usize)
        requires
            config_ok(self.model().k, self.model().num, self.model().den),
        ensures
            w == cap_w(self.model().k, self.model().num, self.model().den, depth as nat),
            w <= self.model().k,
    {
        let ghost gk = self.k as nat;
        let ghost gnum = self.c_num as nat;
        let ghost gden = self.c_den as nat;
        let mut a = bn_from(self.k);
        let mut b = bn_from(1);
        let mut j: usize = 0;
        proof {
            vstd::arithmetic::power::lemma_pow0(gnum as int);
            vstd::arithmetic::power::lemma_pow0(gden as int);
        }
        while j < depth
            invariant
                j <= depth,
                self.k == gk,
                self.c_num == gnum,
                self.c_den == gden,
                config_ok(gk, gnum, gden),
                bn_val(a@) == gk * pow(gnum as int, j as nat),
                bn_val(b@) == pow(gden as int, j as nat),
            decreases depth - j,
        {
            let ghost va = bn_val(a@);
            let ghost vb = bn_val(b@);
            a = bn_mul_small(&a, self.c_num);
            b = bn_mul_small(&b, self.c_den);
            j += 1;
            proof {
                let jj = j as nat;
                reveal(pow);
                assert(pow(gnum as int, jj) == gnum * pow(gnum as int, (jj - 1) as nat));
                assert(pow(gden as int, jj) == gden * pow(gden as int, (jj - 1) as nat));
                assert(va * gnum == gk * pow(gnum as int, jj)) by (nonlinear_arith)
                    requires
                        va == gk * pow(gnum as int, (jj - 1) as nat),
                        pow(gnum as int, jj) == gnum * pow(gnum as int, (jj - 1) as nat),
                ;
                assert(vb * gden == pow(gden as int, jj)) by (nonlinear_arith)
                    requires
                        vb == pow(gden as int, (jj - 1) as nat),
                        pow(gden as int, jj) == gden * pow(gden as int, (jj - 1) as nat),
                ;
            }
        }
        let ghost va = bn_val(a@);
        let ghost vb = bn_val(b@);
        proof {
            lemma_pow_base_le(gnum, gden, depth as nat);
            vstd::arithmetic::power::lemma_pow_positive(gden as int, depth as nat);
            assert(gk * pow(gnum as int, depth as nat) <= gk * pow(gden as int, depth as nat))
                by (nonlinear_arith)
                requires
                    0 <= pow(gnum as int, depth as nat) <= pow(gden as int, depth as nat),
                    gk >= 0,
            ;
            assert(gk * vb < (gk + 1) * vb) by (nonlinear_arith)
                requires
                    vb >= 1,
            ;
            assert((0 as nat) * vb <= va) by (nonlinear_arith);
        }
        let mut lo: usize = 0;
        let mut hi: usize = self.k;
        while lo < hi
            invariant
                lo <= hi,
                hi <= gk,
                config_ok(gk, gnum, gden),
                va == bn_val(a@),
                vb == bn_val(b@),
                va == gk * pow(gnum as int, depth as nat),
                vb == pow(gden as int, depth as nat),
                vb >= 1,
                (lo as nat) * vb <= va,
                va < ((hi + 1) as nat) * vb,
            decreases hi - lo,
        {
            proof {
                assert(gk + 1 <= (LEVEL_LIMIT as nat) * (gk + 1)) by (nonlinear_arith)
                    requires
                        gk >= 0,
                ;
            }
            let mid = lo + (hi - lo + 1) / 2;
            let mb = bn_mul_small(&b, mid);
            let mut ap = bn_copy(&a);
            let mut bp = mb;
            let n1 = if ap.len() >= bp.len() {
                ap.len()
            } else {
                bp.len()
            };
            bn_pad(&mut ap, n1);
            bn_pad(&mut bp, n1);
            if bn_le(&bp, &ap) {
                lo = mid;
            } else {
                hi = mid - 1;
                proof {
                    assert(((mid - 1 + 1) as nat) * vb == (mid as nat) * vb);
                }
            }
        }
        proof {
            assert(((lo + 1) as nat) * vb == (lo as nat) * vb + vb) by (nonlinear_arith);
            vstd::arithmetic::div_mod::lemma_fundamental_div_mod_converse(
                va as int,
                vb as int,
                lo as int,
                va - (lo as nat) * vb,
            );
        }
        lo
    }

    /// Append `x` to the level at height `h`.
    fn push_to_level(&mut self, h: usize, x: i64)
        requires
            h < old(self).model().levels.len(),
        ensures
            final(self).model() == (Model {
                levels: old(self).model().levels.update(
                    h as int,
                    old(self).model().levels[h as int].push(x),
                ),
                ..old(self).model()
            }),
    {
        let mut lvl = self.compactors.remove(h);
        lvl.push(x);
        self.compactors.insert(h, lvl);
        proof {
            let f = |v: Vec<i64>| v@;
            let target = Model {
                levels: old(self).model().levels.update(
                    h as int,
                    old(self).model().levels[h as int].push(x),
                ),
                ..old(self).model()
            };
            assert(self.compactors@.map_values(f) =~= target.levels);
            assert(self.model() =~~= target);
        }
    }

    /// Compact the level at height `h` in place, returning the promoted
    /// element if the level had at least two.
    fn compact_at(&mut self, h: usize) -> (r: Option<i64>)
        requires
            h < old(self).model().levels.len(),
        ensures
            ({
                let l = old(self).model().levels[h as int];
                let s = sort_spec(l);
                &&& l.len() < 2 ==> r is None && final(self).model() == (Model {
                    levels: old(self).model().levels.update(h as int, s),
                    ..old(self).model()
                })
                &&& l.len() >= 2 ==> (r == Some(s[s.len() - 2]) || r == Some(s[s.len() - 1]))
                    && final(self).model() == (Model {
                    levels: old(self).model().levels.update(h as int, s.take(s.len() - 2)),
                    ..old(self).model()
                })
            }),
    {
        let mut lvl = self.compactors.remove(h);
        let r = lvl.compact();
        self.compactors.insert(h, lvl);
        proof {
            let f = |v: Vec<i64>| v@;
            let l = old(self).model().levels[h as int];
            let s = sort_spec(l);
            if l.len() < 2 {
                assert(self.compactors@.map_values(f) =~= old(self).model().levels.update(
                    h as int,
                    s,
                ));
                assert(self.model() =~~= (Model {
                    levels: old(self).model().levels.update(h as int, s),
                    ..old(self).model()
                }));
            } else {
                assert(self.compactors@.map_values(f) =~= old(self).model().levels.update(
                    h as int,
                    s.take(s.len() - 2),
                ));
                assert(self.model() =~~= (Model {
                    levels: old(self).model().levels.update(h as int, s.take(s.len() - 2)),
                    ..old(self).model()
                }));
            }
        }
        r
    }

    /// One compression pass: find the lowest level at or over capacity,
    /// grow first when that level is the top, compact it, and promote
    /// the survivor one level up.  A full level of fewer than two
    /// elements is only sorted and promotes nothing; without a full
    /// level nothing changes.
    pub fn compress(&mut self)
        requires
            old(self).inv(),
        ensures
            final(self).inv(),
            exists|coin: bool| final(self).model() == compress_step(old(self).model(), coin),
            final(self).model().k == old(self).model().k,
            final(self).model().num == old(self).model().num,
            final(self).model().den == old(self).model().den,
            wtotal(final(self).model().levels) == wtotal(old(self).model().levels),
            final(self).model().levels.len() >= old(self).model().levels.len(),
            final(self).model().size <= old(self).model().size,
    {
        let ghost pre = self.model();
        let n = self.compactors.len();
        let mut h: usize = 0;
        while h < n
            invariant
                h <= n,
                n == self.model().levels.len(),
                self.model() == pre,
                pre == old(self).model(),
                model_inv(pre),
                forall|j: int| 0 <= j < h ==> !#[trigger] eligible(pre, j),
            decreases n - h,
        {
            let len_h = self.compactors[h].len();
            let cap_h = self.capacity(h);
            if len_h >= cap_h {
                proof {
                    assert(eligible(pre, h as int));
                    lemma_first_eligible_is_from(pre, 0, h as int);
                }
                let grew = h + 1 >= n;
                if grew {
                    proof {
                        lemma_ripe_top_bound(pre, h as int);
                    }
                    self.grow();
                }
                let ghost g = if grew {
                    grow_model(pre)
                } else {
                    pre
                };
                proof {
                    assert(self.model() == g);
                    assert(g.levels[h as int] == pre.levels[h as int]);
                }
                let promoted = self.compact_at(h);
                match promoted {
                    Some(val) => {
                        self.push_to_level(h + 1, val);
                        proof {
                            lemma_count_lower(pre.levels, h as int, 0);
                        }
                        self.size = self.size - 1;
                        proof {
                            let s = sort_spec(g.levels[h as int]);
                            crate::sorting::lemma_sort_spec_props(g.levels[h as int]);
                            let cn = (val == s[s.len() - 2]);
                            let post = compress_step(pre, cn);
                            assert(promoted_value(g.levels[h as int], cn) == val);
                            assert((g.levels.update(h as int, s.take(s.len() - 2)))[h as int + 1]
                                == g.levels[h as int + 1]);
                            assert(self.model().levels =~~= compact_levels(g.levels, h as int, cn));
                            assert(self.model() =~~= post);
                            lemma_compress_step_inv(pre, cn);
                            assert(exists|coin: bool|
                                self.model() == compress_step(pre, coin)) by {
                                assert(self.model() == compress_step(pre, cn));
                            }
                        }
                        return ;
                    },
                    None => {
                        proof {
                            let l = g.levels[h as int];
                            let s = sort_spec(l);
                            assert(l.len() < 2);
                            let post = compress_step(pre, true);
                            assert(self.model().levels =~~= g.levels.update(h as int, s));
                            assert(self.model() =~~= post);
                            lemma_compress_step_inv(pre, true);
                            assert(exists|coin: bool|
                                self.model() == compress_step(pre, coin)) by {
                                assert(self.model() == compress_step(pre, true));
                            }
                        }
                        return ;
                    },
                }
            }
            h += 1;
        }
        proof {
            lemma_first_eligible_is_none(pre);
            assert(self.model() == compress_step(pre, true));
            assert(exists|coin: bool| self.model() == compress_step(pre, coin)) by {
                assert(self.model() == compress_step(pre, true));
            }
        }
    }

    /// Ingest one item: append it to level 0, count it, and, once the
    /// tracked size reaches the capacity sum, run one compression pass.
    pub fn update(&mut self, item: i64)
        requires
            old(self).inv(),
            wtotal(old(self).model().levels) < usize::MAX,
        ensures
            final(self).inv(),
            final(self).model().k == old(self).model().k,
            final(self).model().num == old(self).model().num,
            final(self).model().den == old(self).model().den,
            wtotal(final(self).model().levels) == wtotal(old(self).model().levels) + 1,
            ({
                let mid = Model {
                    levels: old(self).model().levels.update(
                        0,
                        old(self).model().levels[0].push(item),
                    ),
                    size: (old(self).model().size + 1) as nat,
                    ..old(self).model()
                };
                &&& mid.size < mid.max_size ==> final(self).model() == mid
                &&& mid.size >= mid.max_size ==> exists|coin: bool|
                    final(self).model() == compress_step(mid, coin)
            }),
    {
        proof {
            lemma_count_le_wtotal(old(self).model().levels, 0);
        }
        self.push_to_level(0, item);
        self.size = self.size + 1;
        proof {
            let m0 = old(self).model();
            let mid = Model {
                levels: m0.levels.update(0, m0.levels[0].push(item)),
                size: (m0.size + 1) as nat,
                ..m0
            };
            lemma_sums_update(m0.levels, 0, m0.levels[0].push(item), 0);
            vstd::arithmetic::power2::lemma2_to64();
            let a = m0.levels[0].len();
            assert(pow2(0) * a == a) by (nonlinear_arith)
                requires
                    pow2(0) == 1,
            ;
            assert(pow2(0) * (a + 1) == a + 1) by (nonlinear_arith)
                requires
                    pow2(0) == 1,
            ;
            assert(self.model() =~~= mid);
            assert(model_inv(self.model()));
        }
        if self.size >= self.max_size {
            self.compress();
        }
    }

    /// Merge another sketch into this one: grow to at least as many
    /// levels, copy every item over level by level, recompute the stored
    /// count from scratch, and compress until the count falls below the
    /// capacity sum or a pass can change nothing more.  `other` is left
    /// untouched, and the total logical weight afterwards is exactly the
    /// sum of the two inputs' weights.
    pub fn merge(&mut self, other: &KLL)
        requires
            old(self).inv(),
            other.inv(),
            wtotal(old(self).model().levels) + wtotal(other.model().levels) <= usize::MAX,
        ensures
            final(self).inv(),
            final(self).model().k == old(self).model().k,
            final(self).model().num == old(self).model().num,
            final(self).model().den == old(self).model().den,
            wtotal(final(self).model().levels) == wtotal(old(self).model().levels) + wtotal(
                other.model().levels,
            ),
            final(self).model().levels.len() >= other.model().levels.len(),
            final(self).model().levels.len() >= old(self).model().levels.len(),
            final(self).model().size < final(self).model().max_size || compress_stuck(
                final(self).model(),
            ),
            values(final(self).model().levels).subset_of(
                values(old(self).model().levels).add(values(other.model().levels)),
            ),
            ({
                let ml = merged_levels(old(self).model().levels, other.model().levels);
                let mid = Model {
                    levels: ml,
                    size: count_from(ml, 0),
                    max_size: max_size_spec(
                        old(self).model().k,
                        old(self).model().num,
                        old(self).model().den,
                        ml.len() as nat,
                    ),
                    ..old(self).model()
                };
                &&& (exists|coins: Seq<bool>| final(self).model() == compress_iter(mid, coins))
                &&& (mid.size < mid.max_size ==> final(self).model() == mid)
            }),
    {
        while self.compactors.len() < other.compactors.len()
            invariant
                model_inv(self.model()),
                other.inv(),
                self.model().k == old(self).model().k,
                self.model().num == old(self).model().num,
                self.model().den == old(self).model().den,
                self.model().levels.len() >= old(self).model().levels.len(),
                self.model().levels.len() <= (if old(self).model().levels.len()
                    >= other.model().levels.len() {
                    old(self).model().levels.len() as int
                } else {
                    other.model().levels.len() as int
                }),
                forall|j: int|
                    0 <= j < old(self).model().levels.len() ==> #[trigger] self.model().levels[j]
                        == old(self).model().levels[j],
                forall|j: int|
                    old(self).model().levels.len() <= j < self.model().levels.len()
                        ==> #[trigger] self.model().levels[j] == Seq::<i64>::empty(),
                wtotal(self.model().levels) == wtotal(old(self).model().levels),
                values(self.model().levels) == values(old(self).model().levels),
                wtotal(old(self).model().levels) + wtotal(other.model().levels) <= usize::MAX,
            decreases other.compactors@.len() - self.compactors@.len(),
        {
            let ghost m = self.model();
            self.grow();
            proof {
                lemma_sums_push_empty(m.levels, 0);
                lemma_values_push_empty(m.levels, 0);
                assert(model_inv(self.model()));
            }
        }
        let ghost m1 = self.model();
        let on = other.compactors.len();
        let mut h: usize = 0;
        while h < on
            invariant
                h <= on,
                on == other.model().levels.len(),
                other.inv(),
                model_inv(m1),
                m1.k == old(self).model().k,
                m1.num == old(self).model().num,
                m1.den == old(self).model().den,
                m1.levels.len() >= old(self).model().levels.len(),
                m1.levels.len() >= other.model().levels.len(),
                wtotal(m1.levels) == wtotal(old(self).model().levels),
                values(m1.levels) == values(old(self).model().levels),
                wtotal(old(self).model().levels) + wtotal(other.model().levels) <= usize::MAX,
                self.model().k == m1.k,
                self.model().num == m1.num,
                self.model().den == m1.den,
                self.model().size == m1.size,
                self.model().max_size == m1.max_size,
                self.model().levels.len() == m1.levels.len(),
                forall|j: int|
                    0 <= j < h ==> #[trigger] self.model().levels[j] == m1.levels[j]
                        + other.model().levels[j],
                forall|j: int|
                    h <= j < m1.levels.len() ==> #[trigger] self.model().levels[j]
                        == m1.levels[j],
            decreases on - h,
        {
            let ghost prev = self.model();
            let mut lvl = self.compactors.remove(h);
            let mut j: usize = 0;
            while j < other.compactors[h].len()
                invariant
                    h < other.model().levels.len(),
                    j <= other.model().levels[h as int].len(),
                    lvl@ == prev.levels[h as int] + other.model().levels[h as int].take(j as int),
                decreases other.model().levels[h as int].len() - j,
            {
                let x = other.compactors[h][j];
                lvl.push(x);
                proof {
                    assert(other.model().levels[h as int].take(j + 1) =~= other.model().levels[
                        h as int].take(j as int).push(x));
                }
                j += 1;
            }
            proof {
                assert(other.model().levels[h as int].take(
                    other.model().levels[h as int].len() as int,
                ) =~= other.model().levels[h as int]);
            }
            self.compactors.insert(h, lvl);
            proof {
                let f = |v: Vec<i64>| v@;
                assert(self.compactors@.map_values(f) =~= prev.levels.update(
                    h as int,
                    m1.levels[h as int] + other.model().levels[h as int],
                ));
                assert(self.model() =~~= (Model {
                    levels: prev.levels.update(
                        h as int,
                        m1.levels[h as int] + other.model().levels[h as int],
                    ),
                    ..prev
                }));
            }
            h += 1;
        }
        proof {
            lemma_sums_concat(self.model().levels, m1.levels, other.model().levels, 0);
            lemma_values_concat(self.model().levels, m1.levels, other.model().levels, 0);
            lemma_count_le_wtotal(self.model().levels, 0);
        }
        let ghost m2 = self.model();
        let n2 = self.compactors.len();
        let mut total: usize = 0;
        let mut h2: usize = 0;
        while h2 < n2
            invariant
                h2 <= n2,
                n2 == m2.levels.len(),
                self.model() == m2,
                count_from(m2.levels, 0) <= usize::MAX,
                total + count_from(m2.levels, h2 as int) == count_from(m2.levels, 0),
            decreases n2 - h2,
        {
            total = total + self.compactors[h2].len();
            h2 += 1;
        }
        self.size = total;
        proof {
            assert(self.model() =~~= (Model { size: total as nat, ..m2 }));
            assert(model_inv(self.model()));
            let a = old(self).model().levels;
            let b = other.model().levels;
            let ml = merged_levels(a, b);
            assert(m1.levels.len() == ml.len());
            assert forall|j: int| 0 <= j < ml.len() implies self.model().levels[j] =~= ml[j] by {
                if j < b.len() {
                    assert(self.model().levels[j] == m1.levels[j] + b[j]);
                    assert(m1.levels[j] =~= level_or_empty(a, j));
                } else {
                    assert(self.model().levels[j] == m1.levels[j]);
                    assert(m1.levels[j] =~= level_or_empty(a, j));
                    assert(level_or_empty(a, j) + level_or_empty(b, j) =~= level_or_empty(a, j));
                }
            }
            assert(self.model().levels =~~= ml);
            assert(self.model() =~~= (Model {
                levels: ml,
                size: count_from(ml, 0),
                max_size: max_size_spec(
                    old(self).model().k,
                    old(self).model().num,
                    old(self).model().den,
                    ml.len() as nat,
                ),
                ..old(self).model()
            }));
        }
        self.drain();
        proof {
            assert forall|v: i64|
                values(self.model().levels).count(v) <= values(old(self).model().levels).add(
                    values(other.model().levels),
                ).count(v) by {
                assert(values(self.model().levels).count(v) <= values(
                    merged_levels(old(self).model().levels, other.model().levels),
                ).count(v));
            }
        }
    }

    /// Run compression passes until the tracked size falls below the
    /// capacity sum, or until a pass can change nothing more (the lowest
    /// full level is a single element below the top, which compaction
    /// leaves untouched).
    fn drain(&mut self)
        requires
            old(self).inv(),
        ensures
            final(self).inv(),
            final(self).model().k == old(self).model().k,
            final(self).model().num == old(self).model().num,
            final(self).model().den == old(self).model().den,
            wtotal(final(self).model().levels) == wtotal(old(self).model().levels),
            values(final(self).model().levels).subset_of(values(old(self).model().levels)),
            final(self).model().levels.len() >= old(self).model().levels.len(),
            exists|coins: Seq<bool>|
                final(self).model() == compress_iter(old(self).model(), coins),
            old(self).model().size < old(self).model().max_size ==> final(self).model() == old(
                self,
            ).model(),
            final(self).model().size < final(self).model().max_size || compress_stuck(
                final(self).model(),
            ),
    {
        proof {
            assert(self.model() == compress_iter(old(self).model(), Seq::<bool>::empty()));
        }
        loop
            invariant
                model_inv(self.model()),
                self.model().k == old(self).model().k,
                self.model().num == old(self).model().num,
                self.model().den == old(self).model().den,
                wtotal(self.model().levels) == wtotal(old(self).model().levels),
                values(self.model().levels).subset_of(values(old(self).model().levels)),
                self.model().levels.len() >= old(self).model().levels.len(),
                exists|coins: Seq<bool>|
                    self.model() == compress_iter(old(self).model(), coins),
                old(self).model().size < old(self).model().max_size ==> self.model() == old(
                    self,
                ).model(),
            decreases self.model().size, LEVEL_LIMIT + 1 - self.model().levels.len(),
        {
            if self.size < self.max_size {
                return ;
            }
            let s0 = self.size;
            let n0 = self.compactors.len();
            let ghost prev = self.model();
            self.compress();
            proof {
                let c0 = choose|c: bool| self.model() == compress_step(prev, c);
                lemma_compress_step_values(prev, c0);
                assert forall|v: i64|
                    values(self.model().levels).count(v) <= values(
                        old(self).model().levels,
                    ).count(v) by {
                    assert(values(self.model().levels).count(v) <= values(prev.levels).count(v));
                }
                let coins = choose|cs: Seq<bool>|
                    prev == compress_iter(old(self).model(), cs);
                lemma_compress_iter_push(old(self).model(), coins, c0);
                assert(exists|cs: Seq<bool>|
                    self.model() == compress_iter(old(self).model(), cs)) by {
                    assert(self.model() == compress_iter(old(self).model(), coins.push(c0)));
                }
            }
            if self.size == s0 && self.compactors.len() == n0 {
                proof {
                    let c0 = choose|c: bool| self.model() == compress_step(prev, c);
                    lemma_compress_no_progress(prev, c0);
                    assert(self.model() == prev);
                    assert(compress_stuck(self.model()));
                }
                return ;
            }
        }
    }

    /// All stored items paired with their level weights, heights in
    /// order, in level order.
    fn weighted_items(&self) -> (r: Vec<(i64, usize)>)
        requires
            self.inv(),
        ensures
            r@ == weighted_from(self.model().levels, 0),
    {
        let ghost levels = self.model().levels;
        let mut out: Vec<(i64, usize)> = Vec::new();
        let n = self.compactors.len();
        let mut h: usize = 0;
        while h < n
            invariant
                self.inv(),
                levels == self.model().levels,
                h <= n,
                n == levels.len(),
                out@ + weighted_from(levels, h as int) == weighted_from(levels, 0),
            decreases n - h,
        {
            let ghost lvlseq = levels[h as int];
            let ghost w_spec = pow2(h as nat) as usize;
            let len_h = self.compactors[h].len();
            if len_h > 0 {
                proof {
                    lemma_wtotal_lower(levels, h as int, 0);
                    assert(pow2(h as nat) <= pow2(h as nat) * lvlseq.len()) by (nonlinear_arith)
                        requires
                            lvlseq.len() >= 1,
                    ;
                    assert(pow2(h as nat) <= usize::MAX);
                }
                let w = pow2_exec(h);
                let ghost out0 = out@;
                let mut j: usize = 0;
                while j < len_h
                    invariant
                        self.inv(),
                        levels == self.model().levels,
                        h < levels.len(),
                        lvlseq == levels[h as int],
                        len_h == lvlseq.len(),
                        w == w_spec,
                        j <= len_h,
                        out@ == out0 + level_pairs(lvlseq.take(j as int), w_spec),
                    decreases len_h - j,
                {
                    let x = self.compactors[h][j];
                    out.push((x, w));
                    proof {
                        assert(level_pairs(lvlseq.take(j + 1), w_spec) =~= level_pairs(
                            lvlseq.take(j as int),
                            w_spec,
                        ).push((x, w_spec)));
                        assert(out@ =~= out0 + level_pairs(lvlseq.take(j + 1), w_spec));
                    }
                    j += 1;
                }
                proof {
                    assert(lvlseq.take(lvlseq.len() as int) =~= lvlseq);
                    assert(out@ + weighted_from(levels, h + 1) =~= (out0 + level_pairs(
                        lvlseq,
                        w_spec,
                    )) + weighted_from(levels, h + 1));
                    assert(out0 + (level_pairs(lvlseq, w_spec) + weighted_from(levels, h + 1))
                        =~= (out0 + level_pairs(lvlseq, w_spec)) + weighted_from(levels, h + 1));
                }
            } else {
                proof {
                    assert(level_pairs(lvlseq, w_spec) =~= Seq::<(i64, usize)>::empty());
                    assert(out@ + weighted_from(levels, h + 1) =~= out@ + (level_pairs(
                        lvlseq,
                        w_spec,
                    ) + weighted_from(levels, h + 1)));
                }
            }
            h += 1;
        }
        proof {
            assert(out@ + weighted_from(levels, n as int) =~= out@);
        }
        out
    }

    /// The approximate rank of `value`: the weighted count of stored
    /// items strictly below it.
    pub fn rank(&self, value: i64) -> (r: usize)
        requires
            self.inv(),
        ensures
            r == rank_spec(self.model().levels, value),
    {
        let ghost levels = self.model().levels;
        proof {
            lemma_rank_le_wtotal(levels, value, 0);
        }
        let mut r: usize = 0;
        let n = self.compactors.len();
        let mut h: usize = 0;
        while h < n
            invariant
                self.inv(),
                levels == self.model().levels,
                h <= n,
                n == levels.len(),
                rank_from(levels, value, 0) <= usize::MAX,
                r + rank_from(levels, value, h as int) == rank_from(levels, value, 0),
            decreases n - h,
        {
            let ghost lvlseq = levels[h as int];
            let len_h = self.compactors[h].len();
            if len_h > 0 {
                proof {
                    lemma_wtotal_lower(levels, h as int, 0);
                    assert(pow2(h as nat) <= pow2(h as nat) * lvlseq.len()) by (nonlinear_arith)
                        requires
                            lvlseq.len() >= 1,
                    ;
                    assert(pow2(h as nat) <= usize::MAX);
                }
                let w = pow2_exec(h);
                let mut cnt: usize = 0;
                let mut j: usize = 0;
                while j < len_h
                    invariant
                        self.inv(),
                        levels == self.model().levels,
                        h < levels.len(),
                        lvlseq == levels[h as int],
                        len_h == lvlseq.len(),
                        j <= len_h,
                        cnt == count_lt(lvlseq.take(j as int), value),
                        cnt <= j,
                    decreases len_h - j,
                {
                    proof {
                        assert(lvlseq.take(j + 1).drop_last() =~= lvlseq.take(j as int));
                    }
                    if self.compactors[h][j] < value {
                        cnt = cnt + 1;
                    }
                    j += 1;
                }
                proof {
                    assert(lvlseq.take(lvlseq.len() as int) =~= lvlseq);
                    lemma_rank_le_wtotal(levels, value, h as int);
                    assert(rank_from(levels, value, h as int) == pow2(h as nat) * count_lt(
                        lvlseq,
                        value,
                    ) + rank_from(levels, value, h as int + 1));
                }
                r = r + w * cnt;
            } else {
                proof {
                    assert(count_lt(lvlseq, value) == 0);
                    assert(rank_from(levels, value, h as int) == pow2(h as nat) * count_lt(
                        lvlseq,
                        value,
                    ) + rank_from(levels, value, h as int + 1));
                    assert(pow2(h as nat) * 0 == 0) by (nonlinear_arith);
                }
            }
            h += 1;
        }
        r
    }

    /// The raw weighted rank list: every stored item in ascending order,
    /// each with the cumulative weight of the items up to and including
    /// it.
    pub fn ranks(&self) -> (r: Vec<(i64, usize)>)
        requires
            self.inv(),
        ensures
            r@ == ranks_spec(self.model().levels),
            r@.len() == count_from(self.model().levels, 0),
            forall|i: int, j: int| 0 <= i < j < r@.len() ==> r@[i].0 <= r@[j].0,
            forall|i: int, j: int| 0 <= i < j < r@.len() ==> r@[i].1 <= r@[j].1,
            r@.len() > 0 ==> r@[r@.len() - 1].1 == wtotal(self.model().levels),
    {
        let ghost levels = self.model().levels;
        let pairs = self.weighted_items();
        let sorted = sort_pairs(&pairs);
        let ghost sq = sorted@;
        proof {
            lemma_weighted_sums(levels, 0);
            lemma_sum_w_sorted(pairs@);
            crate::sorting::lemma_sort_pairs_spec_props(pairs@);
        }
        let n = sorted.len();
        let mut out: Vec<(i64, usize)> = Vec::new();
        let mut cum: usize = 0;
        let mut i: usize = 0;
        while i < n
            invariant
                i <= n,
                n == sq.len(),
                sq == sorted@,
                sum_w(sq) <= usize::MAX,
                cum == sum_w(sq.take(i as int)),
                out@.len() == i,
                forall|t: int|
                    0 <= t < i ==> #[trigger] out@[t] == (sq[t].0, sum_w(sq.take(t + 1)) as usize),
            decreases n - i,
        {
            proof {
                lemma_sum_w_take_step(sq, i as int);
                lemma_sum_w_take_mono(sq, i + 1, sq.len() as int);
                lemma_sum_w_take_all(sq);
            }
            let p = sorted[i];
            cum = cum + p.1;
            out.push((p.0, cum));
            i += 1;
        }
        proof {
            assert(out@ =~= ranks_of(sq));
            if out@.len() > 0 {
                lemma_sum_w_take_all(sq);
                assert(out@[out@.len() - 1].1 == sum_w(sq.take(sq.len() as int)) as usize);
            }
            assert forall|i2: int, j2: int| 0 <= i2 < j2 < out@.len() implies out@[i2].0
                <= out@[j2].0 by {
                assert(crate::sorting::le_pair(sq[i2], sq[j2]));
            }
            assert forall|i2: int, j2: int| 0 <= i2 < j2 < out@.len() implies out@[i2].1
                <= out@[j2].1 by {
                lemma_sum_w_take_mono(sq, i2 + 1, j2 + 1);
                lemma_sum_w_take_mono(sq, j2 + 1, sq.len() as int);
                lemma_sum_w_take_all(sq);
            }
        }
        out
    }

    /// The weighted empirical distribution: every stored item in
    /// ascending order, each with the cumulative weight up to and
    /// including it as a fraction of the total weight.  For a non-empty
    /// sketch the final fraction is exactly one.
    pub fn cdf(&self) -> (r: Vec<(i64, Fraction)>)
        requires
            self.inv(),
        ensures
            r@ == cdf_spec(self.model().levels),
            r@.len() == count_from(self.model().levels, 0),
            forall|i: int|
                0 <= i < r@.len() ==> (#[trigger] r@[i].1).den == wtotal(self.model().levels)
                    && r@[i].1.num <= r@[i].1.den,
            forall|i: int, j: int| 0 <= i < j < r@.len() ==> r@[i].0 <= r@[j].0,
            forall|i: int, j: int| 0 <= i < j < r@.len() ==> r@[i].1.num <= r@[j].1.num,
            r@.len() > 0 ==> r@[r@.len() - 1].1.num == r@[r@.len() - 1].1.den,
    {
        let ghost levels = self.model().levels;
        let pairs = self.weighted_items();
        let sorted = sort_pairs(&pairs);
        let ghost sq = sorted@;
        proof {
            lemma_weighted_sums(levels, 0);
            lemma_sum_w_sorted(pairs@);
            crate::sorting::lemma_sort_pairs_spec_props(pairs@);
        }
        let n = sorted.len();
        let mut total: usize = 0;
        let mut i: usize = 0;
        while i < n
            invariant
                i <= n,
                n == sq.len(),
                sq == sorted@,
                sum_w(sq) <= usize::MAX,
                total == sum_w(sq.take(i as int)),
            decreases n - i,
        {
            proof {
                lemma_sum_w_take_step(sq, i as int);
                lemma_sum_w_take_mono(sq, i + 1, sq.len() as int);
                lemma_sum_w_take_all(sq);
            }
            total = total + sorted[i].1;
            i += 1;
        }
        proof {
            lemma_sum_w_take_all(sq);
        }
        let mut out: Vec<(i64, Fraction)> = Vec::new();
        let mut cum: usize = 0;
        let mut j: usize = 0;
        while j < n
            invariant
                j <= n,
                n == sq.len(),
                sq == sorted@,
                sum_w(sq) <= usize::MAX,
                total == sum_w(sq),
                cum == sum_w(sq.take(j as int)),
                out@.len() == j,
                forall|t: int|
                    0 <= t < j ==> #[trigger] out@[t] == (
                        sq[t].0,
                        Fraction { num: sum_w(sq.take(t + 1)) as usize, den: sum_w(sq) as usize },
                    ),
            decreases n - j,
        {
            proof {
                lemma_sum_w_take_step(sq, j as int);
                lemma_sum_w_take_mono(sq, j + 1, sq.len() as int);
                lemma_sum_w_take_all(sq);
            }
            let p = sorted[j];
            cum = cum + p.1;
            out.push((p.0, Fraction { num: cum, den: total }));
            j += 1;
        }
        proof {
            assert(out@ =~= cdf_of(sq));
            assert forall|i2: int, j2: int| 0 <= i2 < j2 < out@.len() implies out@[i2].0
                <= out@[j2].0 by {
                assert(crate::sorting::le_pair(sq[i2], sq[j2]));
            }
            assert forall|i2: int|
                0 <= i2 < out@.len() implies (#[trigger] out@[i2].1).den == wtotal(levels)
                && out@[i2].1.num <= out@[i2].1.den by {
                lemma_sum_w_take_mono(sq, i2 + 1, sq.len() as int);
                lemma_sum_w_take_all(sq);
            }
            assert forall|i2: int, j2: int| 0 <= i2 < j2 < out@.len() implies out@[i2].1.num
                <= out@[j2].1.num by {
                lemma_sum_w_take_mono(sq, i2 + 1, j2 + 1);
                lemma_sum_w_take_mono(sq, j2 + 1, sq.len() as int);
                lemma_sum_w_take_all(sq);
            }
            if out@.len() > 0 {
                assert(sq.take(sq.len() as int) =~= sq);
            }
        }
        out
    }

    /// The current number of levels.
    pub fn num_levels(&self) -> (n: usize)
        ensures
            n == self.model().levels.len(),
    {
        self.compactors.len()
    }

    /// The tracked number of stored items.
    pub fn size(&self) -> (s: usize)
        ensures
            s == self.model().size,
    {
        self.size
    }
}

} // verus!
