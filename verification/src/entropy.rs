//! Entropy, split information and information-gain ratio, in fixed point.
//!
//! All quantities are in `SCALE` units (one bit of entropy is `SCALE`), so
//! entropy of a dataset slice, weighted post-split entropy, split information
//! and the gain ratio are plain integers, computed and specified exactly.

use vstd::prelude::*;

verus! {

use vstd::seq_lib::*;
use vstd::arithmetic::div_mod::{lemma_fundamental_div_mod, lemma_multiply_divide_le};
use vstd::arithmetic::power2::{pow2, lemma2_to64};
use crate::counting::{
    count_of,
    distinct_of,
    sum_counts,
    lemma_count_le_len,
    lemma_count_pos,
    lemma_count_push,
    lemma_distinct_membership,
    lemma_partition,
    lemma_sum_counts_take,
};
use crate::data::{
    EntryView,
    Data,
    labels_of,
    values_at,
    group_of,
    distinct_labels,
    distinct_values,
    count_label,
    count_value,
};
use crate::fixed::{spec_log2_fix, lemma_log2_fix_bound, lemma_log2_fix_lower, lemma_log2_fix_self, log2_fix};

broadcast use {vstd::seq_lib::group_filter_ensures, vstd::prelude::Seq::lemma_filter_push};

/// One entropy contribution: `floor(c * log2(n / c) / n)` in fixed point.
pub open spec fn term_of(c: nat, n: nat) -> nat {
    (c * spec_log2_fix(n, c)) / n
}

/// The entropy contributions of the values `dist`, summed over the sequence `ls`.
pub open spec fn entropy_sum(dist: Seq<Seq<char>>, ls: Seq<Seq<char>>) -> nat
    decreases dist.len(),
{
    if dist.len() == 0 {
        0
    } else {
        entropy_sum(dist.drop_last(), ls) + term_of(count_of(ls, dist.last()), ls.len())
    }
}

/// Fixed-point Shannon entropy of the class labels of `d`.
pub open spec fn spec_enthropy(d: Seq<EntryView>) -> nat {
    entropy_sum(distinct_of(labels_of(d)), labels_of(d))
}

/// The exact sum of `c_v * log2_fix(n, c_v)` over the distinct values:
/// the split information scaled by the record count, with no truncating
/// division, so it is zero exactly when there is a single group.
pub open spec fn scaled_split_sum(dist: Seq<Seq<char>>, ls: Seq<Seq<char>>) -> nat
    decreases dist.len(),
{
    if dist.len() == 0 {
        0
    } else {
        scaled_split_sum(dist.drop_last(), ls) + count_of(ls, dist.last()) * spec_log2_fix(
            ls.len(),
            count_of(ls, dist.last()),
        )
    }
}

/// Split information, scaled by the record count: the entropy of the
/// distribution of attribute values, times `d.len()`, in `SCALE` units.
pub open spec fn spec_split_enthropy(d: Seq<EntryView>, attr: int) -> nat {
    scaled_split_sum(distinct_of(values_at(d, attr)), values_at(d, attr))
}

/// One group's contribution to the weighted post-split entropy.
pub open spec fn wterm_of(d: Seq<EntryView>, attr: int, v: Seq<char>) -> nat {
    (group_of(d, attr, v).len() * spec_enthropy(group_of(d, attr, v))) / d.len()
}

/// Weighted post-split entropy, summed over the attribute values `dist`.
pub open spec fn wsum(dist: Seq<Seq<char>>, d: Seq<EntryView>, attr: int) -> nat
    decreases dist.len(),
{
    if dist.len() == 0 {
        0
    } else {
        wsum(dist.drop_last(), d, attr) + wterm_of(d, attr, dist.last())
    }
}

/// Weighted post-split entropy of `d` split by attribute `attr`.
pub open spec fn spec_enthropy_by_attribute(d: Seq<EntryView>, attr: int) -> nat {
    wsum(distinct_of(values_at(d, attr)), d, attr)
}

/// Fixed-point information-gain ratio of attribute `attr` on `d`.
/// A split information of exactly zero yields a gain ratio of zero by
/// definition, never a division error.
pub open spec fn spec_gain(d: Seq<EntryView>, attr: int) -> int {
    let se = spec_split_enthropy(d, attr);
    if se == 0 {
        0
    } else {
        let h = spec_enthropy(d);
        let ha = spec_enthropy_by_attribute(d, attr);
        if h >= ha {
            (((h - ha) * 65536 * d.len()) / (se as int))
        } else {
            -((((ha - h) * 65536 * d.len()) / (se as int)))
        }
    }
}

/// The largest gain ratio among attributes `0 ..= a`, scanned in index order.
pub open spec fn spec_best_gain(d: Seq<EntryView>, a: nat) -> int
    decreases a,
{
    if a == 0 {
        spec_gain(d, 0)
    } else {
        let prev = spec_best_gain(d, (a - 1) as nat);
        let g = spec_gain(d, a as int);
        if g > prev {
            g
        } else {
            prev
        }
    }
}

/// The first attribute among `0 ..= a` attaining the largest gain ratio:
/// a later attribute with merely equal gain ratio does not replace it.
pub open spec fn spec_best_attr(d: Seq<EntryView>, a: nat) -> nat
    decreases a,
{
    if a == 0 {
        0
    } else {
        let prev = spec_best_gain(d, (a - 1) as nat);
        let g = spec_gain(d, a as int);
        if g > prev {
            a
        } else {
            spec_best_attr(d, (a - 1) as nat)
        }
    }
}

pub proof fn lemma_term_le(c: nat, n: nat)
    requires
        1 <= c <= n,
        n < pow2(64),
    ensures
        term_of(c, n) * n <= c * 4194303,
        term_of(c, n) <= 4194303,
{
    let l = spec_log2_fix(n, c);
    lemma_log2_fix_bound(n, c);
    lemma_fundamental_div_mod((c * l) as int, n as int);
    assert(term_of(c, n) * n <= c * l) by (nonlinear_arith)
        requires
            n >= 1,
            term_of(c, n) == (c * l) / n,
            ((c * l) as int) == (n as int) * (((c * l) as int) / (n as int)) + ((c * l) as int) % (
            n as int),
            ((c * l) as int) % (n as int) >= 0,
    ;
    assert(c * l <= c * 4194303) by (nonlinear_arith)
        requires
            l <= 4194303,
            c >= 0,
    ;
    assert(c * 4194303 <= n * 4194303) by (nonlinear_arith)
        requires
            c <= n,
    ;
    lemma_multiply_divide_le((c * l) as int, n as int, 4194303);
}

pub proof fn lemma_entropy_sum_bound(dist: Seq<Seq<char>>, ls: Seq<Seq<char>>)
    requires
        1 <= ls.len() < pow2(64),
        forall|j: int| 0 <= j < dist.len() ==> count_of(ls, #[trigger] dist[j]) >= 1,
    ensures
        entropy_sum(dist, ls) * ls.len() <= sum_counts(dist, ls) * 4194303,
    decreases dist.len(),
{
    if dist.len() == 0 {
        assert(entropy_sum(dist, ls) == 0);
        assert(sum_counts(dist, ls) == 0);
        assert(entropy_sum(dist, ls) * ls.len() <= sum_counts(dist, ls) * 4194303)
            by (nonlinear_arith)
            requires
                entropy_sum(dist, ls) == 0,
                sum_counts(dist, ls) == 0,
        ;
    } else {
        let dl = dist.drop_last();
        assert(forall|j: int| 0 <= j < dl.len() ==> count_of(ls, #[trigger] dl[j]) >= 1) by {
            assert(forall|j: int| 0 <= j < dl.len() ==> dl[j] == dist[j]);
        }
        lemma_entropy_sum_bound(dl, ls);
        let c = count_of(ls, dist.last());
        let n = ls.len();
        assert(dist.last() == dist[dist.len() - 1]);
        lemma_count_le_len(ls, dist.last());
        lemma_term_le(c, n);
        assert(entropy_sum(dist, ls) == entropy_sum(dl, ls) + term_of(c, n));
        assert(sum_counts(dist, ls) == sum_counts(dl, ls) + c);
        assert(entropy_sum(dist, ls) * n <= sum_counts(dist, ls) * 4194303) by (nonlinear_arith)
            requires
                entropy_sum(dist, ls) == entropy_sum(dl, ls) + term_of(c, n),
                sum_counts(dist, ls) == sum_counts(dl, ls) + c,
                entropy_sum(dl, ls) * n <= sum_counts(dl, ls) * 4194303,
                term_of(c, n) * n <= c * 4194303,
        ;
    }
}

/// Entropy never exceeds the largest fixed-point logarithm.
pub proof fn lemma_enthropy_le(d: Seq<EntryView>)
    requires
        1 <= d.len() < pow2(64),
    ensures
        spec_enthropy(d) <= 4194303,
{
    let ls = labels_of(d);
    let dist = distinct_of(ls);
    assert(ls.len() == d.len());
    assert forall|j: int| 0 <= j < dist.len() implies count_of(ls, #[trigger] dist[j]) >= 1 by {
        assert(dist.contains(dist[j]));
        lemma_distinct_membership(ls, dist[j]);
        lemma_count_pos(ls, dist[j]);
    }
    lemma_entropy_sum_bound(dist, ls);
    lemma_partition(ls);
    assert(spec_enthropy(d) <= 4194303) by (nonlinear_arith)
        requires
            spec_enthropy(d) * ls.len() <= sum_counts(dist, ls) * 4194303,
            sum_counts(dist, ls) == ls.len(),
            ls.len() >= 1,
    ;
}

/// A group holds exactly as many records as its value occurs in the dataset.
pub proof fn lemma_group_len(d: Seq<EntryView>, attr: int, v: Seq<char>)
    ensures
        group_of(d, attr, v).len() == count_of(values_at(d, attr), v),
    decreases d.len(),
{
    if d.len() == 0 {
        assert(group_of(d, attr, v).len() <= 0);
        assert(values_at(d, attr).len() == 0);
        assert(count_of(values_at(d, attr), v) <= 0);
    } else {
        let dl = d.drop_last();
        lemma_group_len(dl, attr, v);
        assert(d =~= dl.push(d.last()));
        assert(values_at(d, attr) =~= values_at(dl, attr).push(d.last().0[attr]));
        lemma_count_push(values_at(dl, attr), v, d.last().0[attr]);
        assert(group_of(dl.push(d.last()), attr, v) == if d.last().0[attr] == v {
            group_of(dl, attr, v).push(d.last())
        } else {
            group_of(dl, attr, v)
        });
    }
}

/// A nonempty sequence has a nonempty sequence of distinct values.
pub proof fn lemma_distinct_nonempty(s: Seq<Seq<char>>)
    requires
        s.len() >= 1,
    ensures
        distinct_of(s).len() >= 1,
{
    assert(s.contains(s.last())) by {
        assert(s[s.len() - 1] == s.last());
    }
    lemma_distinct_membership(s, s.last());
}

/// An attribute with a single observed value has split information zero.
pub proof fn lemma_single_group_split(d: Seq<EntryView>, attr: int)
    requires
        1 <= d.len(),
        distinct_of(values_at(d, attr)).len() == 1,
    ensures
        spec_split_enthropy(d, attr) == 0,
{
    let vals = values_at(d, attr);
    let dist = distinct_of(vals);
    lemma_partition(vals);
    assert(dist.drop_last().len() == 0);
    assert(sum_counts(dist.drop_last(), vals) == 0);
    assert(sum_counts(dist, vals) == count_of(vals, dist.last()));
    let n = vals.len();
    let c = count_of(vals, dist.last());
    assert(c == n);
    lemma_log2_fix_self(n);
    assert(n * 0 == 0) by (nonlinear_arith);
    assert(scaled_split_sum(dist.drop_last(), vals) == 0);
    assert(scaled_split_sum(dist, vals) == scaled_split_sum(dist.drop_last(), vals) + c
        * spec_log2_fix(n, c));
}

/// The scaled split sum dominates each of its terms.
proof fn lemma_scaled_sum_elem(dist: Seq<Seq<char>>, ls: Seq<Seq<char>>, i: int)
    requires
        0 <= i < dist.len(),
    ensures
        scaled_split_sum(dist, ls) >= count_of(ls, dist[i]) * spec_log2_fix(
            ls.len(),
            count_of(ls, dist[i]),
        ),
    decreases dist.len(),
{
    let dl = dist.drop_last();
    if i == dist.len() - 1 {
        assert(dist.last() == dist[i]);
    } else {
        assert(dl[i] == dist[i]);
        lemma_scaled_sum_elem(dl, ls, i);
    }
}

/// An attribute with at least two observed values has strictly positive
/// split information: together with `lemma_single_group_split`, the split
/// information is zero exactly when the attribute yields a single group.
pub proof fn lemma_multi_group_split_pos(d: Seq<EntryView>, attr: int)
    requires
        1 <= d.len(),
        distinct_of(values_at(d, attr)).len() >= 2,
    ensures
        spec_split_enthropy(d, attr) >= 65536,
{
    let vals = values_at(d, attr);
    let dist = distinct_of(vals);
    let n = vals.len();
    lemma_partition(vals);
    assert(dist.contains(dist[0]) && dist.contains(dist[1]));
    lemma_distinct_membership(vals, dist[0]);
    lemma_distinct_membership(vals, dist[1]);
    lemma_count_pos(vals, dist[0]);
    lemma_count_pos(vals, dist[1]);
    let c0 = count_of(vals, dist[0]);
    let c1 = count_of(vals, dist[1]);
    // the two groups are disjoint, so together they hold at most n records
    lemma_sum_counts_take(dist, vals, 2);
    assert(dist.take(2).len() == 2);
    assert(dist.take(2).drop_last() =~= dist.take(1));
    assert(dist.take(1).drop_last() =~= dist.take(0));
    assert(dist.take(0).len() == 0);
    assert(sum_counts(dist.take(0), vals) == 0);
    assert(dist.take(1).last() == dist[0]);
    assert(dist.take(2).last() == dist[1]);
    assert(sum_counts(dist.take(1), vals) == sum_counts(dist.take(1).drop_last(), vals)
        + count_of(vals, dist.take(1).last()));
    assert(sum_counts(dist.take(1), vals) == c0);
    assert(sum_counts(dist.take(2), vals) == sum_counts(dist.take(2).drop_last(), vals)
        + count_of(vals, dist.take(2).last()));
    assert(sum_counts(dist.take(2), vals) == c0 + c1);
    assert(c0 + c1 <= n);
    // the smaller of the two fills at most half the records, so its
    // logarithm has integer part at least one
    let i: int = if c0 <= c1 {
        0
    } else {
        1
    };
    let c = count_of(vals, dist[i]);
    assert(2 * c <= n);
    lemma_log2_fix_lower(n, c);
    assert(c * spec_log2_fix(n, c) >= 65536) by (nonlinear_arith)
        requires
            c >= 1,
            spec_log2_fix(n, c) >= 65536,
    ;
    lemma_scaled_sum_elem(dist, vals, i);
}

pub proof fn lemma_wsum_bound(dist: Seq<Seq<char>>, d: Seq<EntryView>, attr: int)
    requires
        1 <= d.len() < pow2(64),
        forall|j: int| 0 <= j < dist.len() ==> count_of(values_at(d, attr), #[trigger] dist[j])
            >= 1,
    ensures
        wsum(dist, d, attr) * d.len() <= sum_counts(dist, values_at(d, attr)) * 4194303,
    decreases dist.len(),
{
    if dist.len() == 0 {
        assert(wsum(dist, d, attr) == 0);
        assert(sum_counts(dist, values_at(d, attr)) == 0);
        assert(wsum(dist, d, attr) * d.len() <= sum_counts(dist, values_at(d, attr)) * 4194303)
            by (nonlinear_arith)
            requires
                wsum(dist, d, attr) == 0,
                sum_counts(dist, values_at(d, attr)) == 0,
        ;
    } else {
        let dl = dist.drop_last();
        assert(forall|j: int|
            0 <= j < dl.len() ==> count_of(values_at(d, attr), #[trigger] dl[j]) >= 1) by {
            assert(forall|j: int| 0 <= j < dl.len() ==> dl[j] == dist[j]);
        }
        lemma_wsum_bound(dl, d, attr);
        let v = dist.last();
        assert(v == dist[dist.len() - 1]);
        let g = group_of(d, attr, v);
        let c = count_of(values_at(d, attr), v);
        lemma_group_len(d, attr, v);
        assert(g.len() == c);
        assert(g.len() <= d.len());
        lemma_enthropy_le(g);
        let h = spec_enthropy(g);
        let n = d.len();
        lemma_fundamental_div_mod((c * h) as int, n as int);
        assert(wterm_of(d, attr, v) * n <= c * h) by (nonlinear_arith)
            requires
                n >= 1,
                wterm_of(d, attr, v) == (c * h) / n,
                ((c * h) as int) == (n as int) * (((c * h) as int) / (n as int)) + ((c * h) as int)
                    % (n as int),
                ((c * h) as int) % (n as int) >= 0,
        ;
        assert(c * h <= c * 4194303) by (nonlinear_arith)
            requires
                h <= 4194303,
                c >= 0,
        ;
        assert(wsum(dist, d, attr) == wsum(dl, d, attr) + wterm_of(d, attr, v));
        assert(sum_counts(dist, values_at(d, attr)) == sum_counts(dl, values_at(d, attr)) + c);
        assert(wsum(dist, d, attr) * n <= sum_counts(dist, values_at(d, attr)) * 4194303)
            by (nonlinear_arith)
            requires
                wsum(dist, d, attr) == wsum(dl, d, attr) + wterm_of(d, attr, v),
                sum_counts(dist, values_at(d, attr)) == sum_counts(dl, values_at(d, attr)) + c,
                wsum(dl, d, attr) * n <= sum_counts(dl, values_at(d, attr)) * 4194303,
                wterm_of(d, attr, v) * n <= c * 4194303,
        ;
    }
}

/// Sums fixed-point entropy terms from per-value occurrence counts.
fn entropy_from_counts(
    counts: &Vec<u64>,
    n: u64,
    dist: Ghost<Seq<Seq<char>>>,
    ls: Ghost<Seq<Seq<char>>>,
) -> (r: u64)
    requires
        dist@ == distinct_of(ls@),
        n == ls@.len(),
        1 <= n,
        counts@.len() == dist@.len(),
        forall|j: int| 0 <= j < counts@.len() ==> counts@[j] == count_of(ls@, dist@[j]),
    ensures
        r == entropy_sum(dist@, ls@),
        r <= 4194303,
{
    proof {
        lemma2_to64();
        lemma_partition(ls@);
        assert forall|j: int| 0 <= j < dist@.len() implies count_of(ls@, #[trigger] dist@[j]) >= 1
        by {
            assert(dist@.contains(dist@[j]));
            lemma_distinct_membership(ls@, dist@[j]);
            lemma_count_pos(ls@, dist@[j]);
        }
    }
    let mut sum: u64 = 0;
    let mut t: usize = 0;
    while t < counts.len()
        invariant
            t <= counts@.len(),
            dist@ == distinct_of(ls@),
            n == ls@.len(),
            1 <= n,
            n < pow2(64),
            counts@.len() == dist@.len(),
            forall|j: int| 0 <= j < counts@.len() ==> counts@[j] == count_of(ls@, dist@[j]),
            forall|j: int| 0 <= j < dist@.len() ==> count_of(ls@, #[trigger] dist@[j]) >= 1,
            sum_counts(dist@, ls@) == ls@.len(),
            sum == entropy_sum(dist@.take(t as int), ls@),
            sum <= 4194303,
        decreases counts@.len() - t,
    {
        let c = counts[t];
        proof {
            assert(counts@[t as int] == count_of(ls@, dist@[t as int]));
            lemma_count_le_len(ls@, dist@[t as int]);
        }
        let l = log2_fix(n, c);
        proof {
            lemma_term_le(c as nat, n as nat);
            assert((c as nat) * (l as nat) < 0x1_0000_0000_0000_0000_0000_0000)
                by (nonlinear_arith)
                requires
                    (c as nat) < 0x1_0000_0000_0000_0000,
                    (l as nat) <= 4194303,
            ;
        }
        let wide: u128 = ((c as u128) * (l as u128)) / (n as u128);
        proof {
            assert(wide == term_of(c as nat, n as nat));
        }
        let term_u: u64 = wide as u64;
        proof {
            assert(dist@.take(t + 1).drop_last() =~= dist@.take(t as int));
            assert(dist@.take(t + 1).last() == dist@[t as int]);
            assert(entropy_sum(dist@.take(t + 1), ls@) == entropy_sum(dist@.take(t as int), ls@)
                + term_of(c as nat, n as nat));
            assert(forall|j: int|
                0 <= j < dist@.take(t + 1).len() ==> count_of(
                    ls@,
                    #[trigger] dist@.take(t + 1)[j],
                ) >= 1) by {
                assert(forall|j: int| 0 <= j < t + 1 ==> dist@.take(t + 1)[j] == dist@[j]);
            }
            lemma_entropy_sum_bound(dist@.take(t + 1), ls@);
            lemma_sum_counts_take(dist@, ls@, t + 1);
            assert(entropy_sum(dist@.take(t + 1), ls@) <= 4194303) by (nonlinear_arith)
                requires
                    entropy_sum(dist@.take(t + 1), ls@) * ls@.len() <= sum_counts(
                        dist@.take(t + 1),
                        ls@,
                    ) * 4194303,
                    sum_counts(dist@.take(t + 1), ls@) <= ls@.len(),
                    ls@.len() >= 1,
            ;
        }
        sum = sum + term_u;
        t = t + 1;
    }
    proof {
        assert(dist@.take(dist@.len() as int) =~= dist@);
    }
    sum
}

/// Fixed-point Shannon entropy of the class distribution of `data`:
/// `SCALE` units are one bit.
pub fn calculate_enthropy(data: &Data) -> (r: u64)
    requires
        1 <= data.deep_view().len(),
    ensures
        r == spec_enthropy(data.deep_view()),
        r <= 4194303,
{
    let ghost dv = data.deep_view();
    let ghost ls = labels_of(dv);
    let ghost dist = distinct_of(ls);
    let keys = distinct_labels(data);
    let n: u64 = data.len() as u64;
    let mut counts: Vec<u64> = Vec::new();
    let mut t: usize = 0;
    while t < keys.len()
        invariant
            counts@.len() == t,
            t <= keys@.len(),
            keys.deep_view() == dist,
            dv == data.deep_view(),
            ls == labels_of(dv),
            dist == distinct_of(ls),
            keys@.len() == dist.len(),
            forall|j: int| 0 <= j < t ==> counts@[j] == count_of(ls, dist[j]),
        decreases keys@.len() - t,
    {
        proof {
            assert(keys.deep_view()[t as int] == keys@[t as int]@);
        }
        let c = count_label(data, &keys[t]);
        counts.push(c);
        t = t + 1;
    }
    entropy_from_counts(&counts, n, Ghost(dist), Ghost(ls))
}

/// Split information of `data` for attribute `attr`, scaled by the record
/// count: the entropy of the sizes of the groups that the attribute's values
/// induce, times the record count, in `SCALE` units. Zero exactly when the
/// attribute yields a single partition group.
pub fn calculate_split_enthropy(data: &Data, attr: usize) -> (r: u128)
    requires
        1 <= data.deep_view().len(),
        forall|i: int| 0 <= i < data.deep_view().len() ==> attr
            < (#[trigger] data.deep_view()[i]).0.len(),
    ensures
        r == spec_split_enthropy(data.deep_view(), attr as int),
        (r == 0) <==> distinct_of(values_at(data.deep_view(), attr as int)).len() == 1,
{
    let ghost dv = data.deep_view();
    let ghost vals = values_at(dv, attr as int);
    let ghost dist = distinct_of(vals);
    let keys = distinct_values(data, attr);
    let n: u64 = data.len() as u64;
    proof {
        lemma_partition(vals);
        assert forall|j: int| 0 <= j < dist.len() implies count_of(vals, #[trigger] dist[j]) >= 1
        by {
            assert(dist.contains(dist[j]));
            lemma_distinct_membership(vals, dist[j]);
            lemma_count_pos(vals, dist[j]);
        }
    }
    let mut sum: u128 = 0;
    let mut t: usize = 0;
    while t < keys.len()
        invariant
            t <= keys@.len(),
            dv == data.deep_view(),
            vals == values_at(dv, attr as int),
            dist == distinct_of(vals),
            keys.deep_view() == dist,
            keys@.len() == dist.len(),
            n == dv.len(),
            1 <= n,
            forall|i: int| 0 <= i < dv.len() ==> attr < (#[trigger] dv[i]).0.len(),
            forall|j: int| 0 <= j < dist.len() ==> count_of(vals, #[trigger] dist[j]) >= 1,
            sum_counts(dist, vals) == vals.len(),
            sum == scaled_split_sum(dist.take(t as int), vals),
            sum <= sum_counts(dist.take(t as int), vals) * 4194303,
        decreases keys@.len() - t,
    {
        proof {
            assert(keys.deep_view()[t as int] == keys@[t as int]@);
        }
        let c = count_value(data, attr, &keys[t]);
        proof {
            assert(c == count_of(vals, dist[t as int]));
            lemma_count_le_len(vals, dist[t as int]);
            lemma2_to64();
        }
        let l = log2_fix(n, c);
        proof {
            lemma_log2_fix_bound(n as nat, c as nat);
            assert((c as nat) * (l as nat) < 0x1_0000_0000_0000_0000_0000_0000)
                by (nonlinear_arith)
                requires
                    (c as nat) < 0x1_0000_0000_0000_0000,
                    (l as nat) <= 4194303,
            ;
            assert(dist.take(t + 1).drop_last() =~= dist.take(t as int));
            assert(dist.take(t + 1).last() == dist[t as int]);
            assert(scaled_split_sum(dist.take(t + 1), vals) == scaled_split_sum(
                dist.take(t as int),
                vals,
            ) + (c as nat) * (l as nat));
            assert(sum_counts(dist.take(t + 1), vals) == sum_counts(dist.take(t as int), vals)
                + c);
            assert((c as nat) * (l as nat) <= (c as nat) * 4194303) by (nonlinear_arith)
                requires
                    (l as nat) <= 4194303,
                    (c as nat) >= 0,
            ;
            assert((sum_counts(dist.take(t as int), vals) + c) * 4194303 == sum_counts(
                dist.take(t as int),
                vals,
            ) * 4194303 + (c as nat) * 4194303) by (nonlinear_arith);
            lemma_sum_counts_take(dist, vals, t + 1);
            assert(sum_counts(dist.take(t + 1), vals) * 4194303 <= vals.len() * 4194303)
                by (nonlinear_arith)
                requires
                    sum_counts(dist.take(t + 1), vals) <= vals.len(),
            ;
            assert(vals.len() * 4194303 < 0x1_0000_0000_0000_0000_0000_0000)
                by (nonlinear_arith)
                requires
                    vals.len() < 0x1_0000_0000_0000_0000,
            ;
        }
        let term_w: u128 = (c as u128) * (l as u128);
        sum = sum + term_w;
        t = t + 1;
    }
    proof {
        assert(dist.take(dist.len() as int) =~= dist);
        assert(vals.len() == dv.len());
        lemma_distinct_nonempty(vals);
        if dist.len() == 1 {
            lemma_single_group_split(dv, attr as int);
        } else {
            lemma_multi_group_split_pos(dv, attr as int);
        }
    }
    sum
}

} // verus!
