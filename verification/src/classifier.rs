//! The decision-tree classifier: dataset partitioning, gain-ratio attribute
//! selection, the purity stopping criterion, recursive tree induction, and
//! prediction by tree traversal.

use vstd::prelude::*;

verus! {

use vstd::seq_lib::*;
use vstd::arithmetic::div_mod::lemma_multiply_divide_le;
use vstd::arithmetic::power2::{pow2, lemma2_to64};
use crate::counting::{
    count_of,
    distinct_of,
    sum_counts,
    lemma_count_pos,
    lemma_count_le_len,
    lemma_distinct_membership,
    lemma_distinct_no_dup,
    lemma_partition,
    lemma_sum_counts_elem,
    lemma_sum_counts_take,
};
use crate::data::{
    Data,
    EntryView,
    labels_of,
    values_at,
    group_of,
    consistent_width,
    positive_label,
    is_positive_label,
    distinct_labels,
    distinct_values,
    count_label,
    filter_by_value,
};
use crate::entropy::{
    spec_gain,
    spec_best_gain,
    spec_best_attr,
    spec_enthropy_by_attribute,
    calculate_enthropy,
    calculate_split_enthropy,
    lemma_single_group_split,
    lemma_distinct_nonempty,
    lemma_group_len,
    lemma_wsum_bound,
    wsum,
    wterm_of,
};
use crate::{Prob, BuildError, PredictError};

broadcast use {vstd::seq_lib::group_filter_ensures, vstd::prelude::Seq::lemma_filter_push};

/// Partitions `data` into groups keyed by the record's value at `attr`;
/// the keys are the distinct observed values in first-occurrence order,
/// and each group keeps its records in dataset order.
pub fn split_by_attribute(data: &Data, attr: usize) -> (result: Vec<(String, Data)>)
    requires
        forall|i: int| 0 <= i < data.deep_view().len() ==> attr
            < (#[trigger] data.deep_view()[i]).0.len(),
    ensures
        ({
            let dv = data.deep_view();
            let dist = distinct_of(values_at(dv, attr as int));
            let rv = result.deep_view();
            &&& rv.len() == dist.len()
            &&& forall|i: int| 0 <= i < rv.len() ==> (#[trigger] rv[i]).0 == dist[i]
            &&& forall|i: int|
                0 <= i < rv.len() ==> (#[trigger] rv[i]).1 == group_of(dv, attr as int, dist[i])
        }),
{
    let ghost dv = data.deep_view();
    let ghost dist = distinct_of(values_at(dv, attr as int));
    let keys = distinct_values(data, attr);
    let mut result: Vec<(String, Data)> = Vec::new();
    let mut t: usize = 0;
    while t < keys.len()
        invariant
            result.deep_view().len() == t,
            t <= keys@.len(),
            dv == data.deep_view(),
            dist == distinct_of(values_at(dv, attr as int)),
            keys.deep_view() == dist,
            keys@.len() == dist.len(),
            forall|i: int| 0 <= i < dv.len() ==> attr < (#[trigger] dv[i]).0.len(),
            forall|i: int| 0 <= i < t ==> (#[trigger] result.deep_view()[i]).0 == dist[i],
            forall|i: int|
                0 <= i < t ==> (#[trigger] result.deep_view()[i]).1 == group_of(
                    dv,
                    attr as int,
                    dist[i],
                ),
        decreases keys@.len() - t,
    {
        let ghost old_rv = result.deep_view();
        let group = filter_by_value(data, attr, &keys[t]);
        let key = keys[t].clone();
        proof {
            assert(keys.deep_view()[t as int] == keys@[t as int]@);
        }
        result.push((key, group));
        proof {
            assert(result.deep_view() =~= old_rv.push((dist[t as int], group_of(
                dv,
                attr as int,
                dist[t as int],
            ))));
        }
        t = t + 1;
    }
    result
}

/// Weighted post-split entropy: the entropy of each group weighted by the
/// group's share of the records.
pub fn calculate_enthropy_by_attribute(data: &Data, attr: usize) -> (r: u64)
    requires
        1 <= data.deep_view().len(),
        forall|i: int| 0 <= i < data.deep_view().len() ==> attr
            < (#[trigger] data.deep_view()[i]).0.len(),
    ensures
        r == spec_enthropy_by_attribute(data.deep_view(), attr as int),
        r <= 4194303,
{
    let ghost dv = data.deep_view();
    let ghost vals = values_at(dv, attr as int);
    let ghost dist = distinct_of(vals);
    let keys = distinct_values(data, attr);
    let n: u64 = data.len() as u64;
    proof {
        lemma2_to64();
        lemma_partition(vals);
        assert forall|j: int| 0 <= j < dist.len() implies count_of(vals, #[trigger] dist[j]) >= 1
        by {
            assert(dist.contains(dist[j]));
            lemma_distinct_membership(vals, dist[j]);
            lemma_count_pos(vals, dist[j]);
        }
    }
    let mut sum: u64 = 0;
    let mut t: usize = 0;
    while t < keys.len()
        invariant
            t <= keys@.len(),
            dv == data.deep_view(),
            vals == values_at(dv, attr as int),
            dist == distinct_of(vals),
            keys.deep_view() == dist,
            keys@.len() == dist.len(),
            n == dv.len(),
            1 <= n,
            n < pow2(64),
            forall|i: int| 0 <= i < dv.len() ==> attr < (#[trigger] dv[i]).0.len(),
            forall|j: int| 0 <= j < dist.len() ==> count_of(vals, #[trigger] dist[j]) >= 1,
            sum_counts(dist, vals) == vals.len(),
            sum == wsum(dist.take(t as int), dv, attr as int),
            sum <= 4194303,
        decreases keys@.len() - t,
    {
        proof {
            assert(keys.deep_view()[t as int] == keys@[t as int]@);
        }
        let group = filter_by_value(data, attr, &keys[t]);
        let ghost g = group_of(dv, attr as int, dist[t as int]);
        proof {
            assert(group.deep_view() == g);
            lemma_group_len(dv, attr as int, dist[t as int]);
            assert(g.len() >= 1);
            assert(group@.len() == group.deep_view().len());
        }
        let h = calculate_enthropy(&group);
        let glen: u64 = group.len() as u64;
        proof {
            assert((glen as nat) * (h as nat) < 0x1_0000_0000_0000_0000_0000_0000)
                by (nonlinear_arith)
                requires
                    (glen as nat) < 0x1_0000_0000_0000_0000,
                    (h as nat) <= 4194303,
            ;
        }
        let wide: u128 = ((glen as u128) * (h as u128)) / (n as u128);
        proof {
            assert(wide == wterm_of(dv, attr as int, dist[t as int]));
            assert((glen as nat) * (h as nat) <= (n as nat) * 4194303) by (nonlinear_arith)
                requires
                    (glen as nat) <= (n as nat),
                    (h as nat) <= 4194303,
            ;
            lemma_multiply_divide_le(((glen as nat) * (h as nat)) as int, n as int, 4194303);
            assert(dist.take(t + 1).drop_last() =~= dist.take(t as int));
            assert(dist.take(t + 1).last() == dist[t as int]);
            assert(wsum(dist.take(t + 1), dv, attr as int) == wsum(dist.take(t as int), dv, attr as int)
                + wterm_of(dv, attr as int, dist[t as int]));
            assert(forall|j: int|
                0 <= j < dist.take(t + 1).len() ==> count_of(
                    vals,
                    #[trigger] dist.take(t + 1)[j],
                ) >= 1) by {
                assert(forall|j: int| 0 <= j < t + 1 ==> dist.take(t + 1)[j] == dist[j]);
            }
            lemma_wsum_bound(dist.take(t + 1), dv, attr as int);
            lemma_sum_counts_take(dist, vals, t + 1);
            assert(wsum(dist.take(t + 1), dv, attr as int) <= 4194303) by (nonlinear_arith)
                requires
                    wsum(dist.take(t + 1), dv, attr as int) * dv.len() <= sum_counts(
                        dist.take(t + 1),
                        vals,
                    ) * 4194303,
                    sum_counts(dist.take(t + 1), vals) <= dv.len(),
                    dv.len() >= 1,
            ;
        }
        let term_u: u64 = wide as u64;
        sum = sum + term_u;
        t = t + 1;
    }
    proof {
        assert(dist.take(dist.len() as int) =~= dist);
    }
    sum
}

/// Fixed-point information-gain ratio of `attr` on `data`. An attribute that
/// produces a single partition group has gain ratio exactly zero, by the
/// explicit floor, not by a division.
pub fn calculate_gain(data: &Data, attr: usize) -> (r: i128)
    requires
        1 <= data.deep_view().len(),
        forall|i: int| 0 <= i < data.deep_view().len() ==> attr
            < (#[trigger] data.deep_view()[i]).0.len(),
    ensures
        r == spec_gain(data.deep_view(), attr as int),
        distinct_of(values_at(data.deep_view(), attr as int)).len() == 1 ==> r == 0,
        r != 0 ==> distinct_of(values_at(data.deep_view(), attr as int)).len() >= 2,
{
    let ghost dv = data.deep_view();
    let ghost dist = distinct_of(values_at(dv, attr as int));
    let enth = calculate_enthropy(data);
    let enth_attr = calculate_enthropy_by_attribute(data, attr);
    let split_enth = calculate_split_enthropy(data, attr);
    let n: u64 = data.len() as u64;
    proof {
        assert(values_at(dv, attr as int).len() == dv.len());
        lemma_distinct_nonempty(values_at(dv, attr as int));
        if dist.len() == 1 {
            lemma_single_group_split(dv, attr as int);
        }
    }
    if split_enth == 0 {
        return 0;
    }
    if enth >= enth_attr {
        let diff = enth - enth_attr;
        proof {
            assert(((diff as nat) * 65536) * (n as nat) < 0x4000_0000_0000_0000_0000_0000_0000)
                by (nonlinear_arith)
                requires
                    (diff as nat) <= 4194303,
                    (n as nat) < 0x1_0000_0000_0000_0000,
            ;
        }
        let num: u128 = ((diff as u128) * 65536) * (n as u128);
        let q = num / split_enth;
        proof {
            vstd::arithmetic::div_mod::lemma_div_nonincreasing(num as int, split_enth as int);
        }
        q as i128
    } else {
        let diff = enth_attr - enth;
        proof {
            assert(((diff as nat) * 65536) * (n as nat) < 0x4000_0000_0000_0000_0000_0000_0000)
                by (nonlinear_arith)
                requires
                    (diff as nat) <= 4194303,
                    (n as nat) < 0x1_0000_0000_0000_0000,
            ;
        }
        let num: u128 = ((diff as u128) * 65536) * (n as u128);
        let q = num / split_enth;
        proof {
            vstd::arithmetic::div_mod::lemma_div_nonincreasing(num as int, split_enth as int);
        }
        -(q as i128)
    }
}

/// The majority label of `data` and how often it occurs: the clearance is
/// the exact rational `count / len`.
pub fn calculate_data_clearance(data: &Data) -> (r: (u64, String))
    requires
        1 <= data.deep_view().len(),
    ensures
        ({
            let ls = labels_of(data.deep_view());
            &&& r.1@ == spec_majority_label(data.deep_view())
            &&& r.0 == count_of(ls, r.1@)
            &&& 1 <= r.0 <= ls.len()
            &&& exists|i: int| 0 <= i < ls.len() && ls[i] == r.1@
            &&& forall|i: int| 0 <= i < ls.len() ==> count_of(ls, #[trigger] ls[i]) <= r.0
        }),
{
    let ghost dv = data.deep_view();
    let ghost ls = labels_of(dv);
    let ghost dist = distinct_of(ls);
    let keys = distinct_labels(data);
    proof {
        assert(ls.len() == dv.len());
        lemma_distinct_nonempty(ls);
        assert(keys@.len() == dist.len());
    }
    let mut best_count: u64 = count_label(data, &keys[0]);
    let mut best_idx: usize = 0;
    proof {
        assert(keys.deep_view()[0] == keys@[0]@);
        assert(best_label_in(dist, ls, 0) == dist[0]);
    }
    let mut t: usize = 1;
    while t < keys.len()
        invariant
            1 <= t <= keys@.len(),
            best_idx < t,
            dv == data.deep_view(),
            ls == labels_of(dv),
            dist == distinct_of(ls),
            keys.deep_view() == dist,
            keys@.len() == dist.len(),
            best_count == count_of(ls, dist[best_idx as int]),
            dist[best_idx as int] == best_label_in(dist, ls, (t - 1) as nat),
            forall|j: int| 0 <= j < t ==> count_of(ls, #[trigger] dist[j]) <= best_count,
        decreases keys@.len() - t,
    {
        proof {
            assert(keys.deep_view()[t as int] == keys@[t as int]@);
        }
        let c = count_label(data, &keys[t]);
        let ghost old_idx = best_idx;
        let ghost old_count = best_count;
        if c > best_count {
            best_count = c;
            best_idx = t;
        }
        proof {
            let prev = best_label_in(dist, ls, (t - 1) as nat);
            assert(prev == dist[old_idx as int]);
            assert(count_of(ls, prev) == old_count);
            assert(count_of(ls, dist[t as int]) == c);
            assert(best_label_in(dist, ls, t as nat) == if count_of(ls, dist[t as int])
                > count_of(ls, prev) {
                dist[t as int]
            } else {
                prev
            });
            assert(dist[best_idx as int] == best_label_in(dist, ls, t as nat));
        }
        t = t + 1;
    }
    let label = keys[best_idx].clone();
    proof {
        assert(label@ == dist[best_idx as int]);
        assert forall|i: int| 0 <= i < ls.len() implies count_of(ls, #[trigger] ls[i])
            <= best_count by {
            assert(ls[i] == ls[i]);
            assert(ls.contains(ls[i]));
            lemma_distinct_membership(ls, ls[i]);
            let j = choose|j: int| 0 <= j < dist.len() && dist[j] == ls[i];
            assert(count_of(ls, dist[j]) <= best_count);
        }
        assert(dist.contains(dist[best_idx as int]));
        lemma_distinct_membership(ls, dist[best_idx as int]);
        lemma_count_pos(ls, dist[best_idx as int]);
        lemma_count_le_len(ls, dist[best_idx as int]);
        let i0 = choose|i: int| 0 <= i < ls.len() && ls[i] == dist[best_idx as int];
        assert(ls[i0] == label@);
        assert(label@ == best_label_in(dist, ls, (dist.len() - 1) as nat));
        assert(label@ == spec_majority_label(dv));
    }
    (best_count, label)
}

/// The multiplicity of the label of record `i` within `d`.
pub open spec fn label_count(d: Seq<EntryView>, i: int) -> nat {
    count_of(labels_of(d), labels_of(d)[i])
}

/// The clearance of `d` reaches the fixed 99% purity threshold.
pub open spec fn pure_enough(d: Seq<EntryView>) -> bool {
    exists|i: int| 0 <= i < d.len() && 100 * label_count(d, i) >= 99 * d.len()
}

/// The first-occurring label of maximal multiplicity among `dist[0 ..= k]`,
/// scanned in order: a later label of merely equal multiplicity does not
/// replace it.
pub open spec fn best_label_in(dist: Seq<Seq<char>>, ls: Seq<Seq<char>>, k: nat) -> Seq<char>
    decreases k,
{
    if k == 0 {
        dist[0]
    } else {
        let prev = best_label_in(dist, ls, (k - 1) as nat);
        if count_of(ls, dist[k as int]) > count_of(ls, prev) {
            dist[k as int]
        } else {
            prev
        }
    }
}

/// The majority label of `d`: the first-occurring label of maximal
/// multiplicity. Pinning the tie-break keeps the built tree a deterministic
/// function of the dataset.
pub open spec fn spec_majority_label(d: Seq<EntryView>) -> Seq<char> {
    let ls = labels_of(d);
    let dist = distinct_of(ls);
    best_label_in(dist, ls, (dist.len() - 1) as nat)
}

/// The probability a leaf built from `d` reports: the clearance itself when
/// the majority label is the positive one, its complement otherwise.
pub open spec fn leaf_prob_ok(d: Seq<EntryView>, p: Prob) -> bool {
    let c = count_of(labels_of(d), spec_majority_label(d));
    &&& p.den == d.len()
    &&& p.num == if spec_majority_label(d) == positive_label() {
        c
    } else {
        (d.len() - c) as nat
    }
}

/// The common attribute count of the records of `d`.
pub open spec fn width_of(d: Seq<EntryView>) -> nat {
    d[0].0.len()
}

/// The payload of a tree node: a terminal probability, or an internal split.
pub enum NodeType {
    Leaf(Prob),
    Stage,
}

/// One node of the decision tree. A `Stage` node carries the attribute it
/// splits on and one child per observed value of that attribute; a `Leaf`
/// carries neither.
pub struct TreeNode {
    pub node_type: NodeType,
    pub children: Option<Vec<(String, TreeNode)>>,
    pub attribute: Option<usize>,
}

/// A decision tree, owning its root exclusively.
pub struct DecisionTreeeClassifier {
    pub root: TreeNode,
}

/// What `build_tree` guarantees of a tree grown from the dataset `d`:
/// a leaf arises exactly under the stopping criteria and reports the
/// clearance-derived probability; a stage splits on the first attribute of
/// maximal gain ratio, keys its children by exactly the distinct observed
/// values of that attribute, and each child is in turn grown from its group.
pub open spec fn tree_ok(node: TreeNode, d: Seq<EntryView>) -> bool
    decreases node,
{
    &&& d.len() >= 1
    &&& match node.node_type {
        NodeType::Leaf(p) => {
            &&& node.children is None
            &&& node.attribute is None
            &&& leaf_prob_ok(d, p)
            &&& (pure_enough(d) || width_of(d) == 0 || spec_best_gain(
                d,
                (width_of(d) - 1) as nat,
            ) == 0)
        },
        NodeType::Stage => {
            &&& !pure_enough(d)
            &&& width_of(d) >= 1
            &&& spec_best_gain(d, (width_of(d) - 1) as nat) != 0
            &&& node.attribute == Some(spec_best_attr(d, (width_of(d) - 1) as nat) as usize)
            &&& node.children is Some
            &&& {
                let ch = node.children.unwrap();
                let a = spec_best_attr(d, (width_of(d) - 1) as nat) as int;
                let dist = distinct_of(values_at(d, a));
                &&& ch@.len() == dist.len()
                &&& forall|i: int| 0 <= i < ch@.len() ==> (#[trigger] ch@[i]).0@ == dist[i]
                &&& forall|i: int|
                    0 <= i < ch@.len() ==> tree_ok((#[trigger] ch@[i]).1, group_of(d, a, dist[i]))
            }
        },
    }
}

/// Structural well-formedness: every stage has an attribute and children
/// with pairwise distinct keys, and every leaf probability lies in [0, 1].
pub open spec fn wf_node(node: TreeNode) -> bool
    decreases node,
{
    match node.node_type {
        NodeType::Leaf(p) => p.valid() && node.children is None && node.attribute is None,
        NodeType::Stage => {
            &&& node.attribute is Some
            &&& node.children is Some
            &&& {
                let ch = node.children.unwrap();
                &&& forall|i: int, j: int|
                    0 <= i < j < ch@.len() ==> (#[trigger] ch@[i]).0@ != (#[trigger] ch@[j]).0@
                &&& forall|i: int| 0 <= i < ch@.len() ==> wf_node((#[trigger] ch@[i]).1)
            }
        },
    }
}

/// The index of the first child of `ch` keyed by `v`, or -1 if none is.
pub open spec fn find_child(ch: Seq<(String, TreeNode)>, v: Seq<char>) -> int
    decreases ch.len(),
{
    if ch.len() == 0 {
        -1
    } else if ch[0].0@ == v {
        0
    } else {
        let r = find_child(ch.drop_first(), v);
        if r == -1 {
            -1
        } else {
            r + 1
        }
    }
}

/// `find_child` returns the first matching index.
pub proof fn lemma_find_child_at(ch: Seq<(String, TreeNode)>, v: Seq<char>, j: int)
    requires
        0 <= j < ch.len(),
        ch[j].0@ == v,
        forall|j2: int| 0 <= j2 < j ==> (#[trigger] ch[j2]).0@ != v,
    ensures
        find_child(ch, v) == j,
    decreases j,
{
    if j == 0 {
    } else {
        assert(ch[0].0@ != v);
        let tail = ch.drop_first();
        assert(tail[j - 1] == ch[j]);
        assert(forall|j2: int| 0 <= j2 < j - 1 ==> (#[trigger] tail[j2]) == ch[j2 + 1]);
        lemma_find_child_at(tail, v, j - 1);
    }
}

/// `find_child` fails exactly when no child is keyed by `v`.
pub proof fn lemma_find_child_none(ch: Seq<(String, TreeNode)>, v: Seq<char>)
    requires
        forall|j2: int| 0 <= j2 < ch.len() ==> (#[trigger] ch[j2]).0@ != v,
    ensures
        find_child(ch, v) == -1,
    decreases ch.len(),
{
    if ch.len() == 0 {
    } else {
        assert(ch[0].0@ != v);
        let tail = ch.drop_first();
        assert(forall|j2: int| 0 <= j2 < tail.len() ==> (#[trigger] tail[j2]) == ch[j2 + 1]);
        lemma_find_child_none(tail, v);
    }
}

/// What prediction returns: the probability of the leaf reached from `node`
/// by following the record's attribute values, or the first failure met.
pub open spec fn spec_predict(node: TreeNode, rec: Seq<Seq<char>>) -> Result<Prob, PredictError>
    decreases node,
{
    match node.node_type {
        NodeType::Leaf(p) => Ok(p),
        NodeType::Stage => {
            if node.attribute is None || node.children is None {
                Err(PredictError::UnseenCategory)
            } else {
                let a = node.attribute.unwrap();
                let ch = node.children.unwrap()@;
                if a >= rec.len() {
                    Err(PredictError::AttributeIndexOutOfRange)
                } else {
                    let f = find_child(ch, rec[a as int]);
                    if 0 <= f < ch.len() {
                        spec_predict(ch[f].1, rec)
                    } else {
                        Err(PredictError::UnseenCategory)
                    }
                }
            }
        },
    }
}

/// The running best over a prefix of attributes is the gain ratio of the
/// attribute it selects, and that attribute lies in the prefix.
pub proof fn lemma_best_gain_is_gain(d: Seq<EntryView>, a: nat)
    ensures
        spec_best_gain(d, a) == spec_gain(d, spec_best_attr(d, a) as int),
        spec_best_attr(d, a) <= a,
    decreases a,
{
    if a != 0 {
        lemma_best_gain_is_gain(d, (a - 1) as nat);
    }
}

/// A nonzero gain ratio requires at least two partition groups.
pub proof fn lemma_gain_nonzero(d: Seq<EntryView>, attr: int)
    requires
        1 <= d.len(),
        spec_gain(d, attr) != 0,
    ensures
        distinct_of(values_at(d, attr)).len() >= 2,
{
    assert(values_at(d, attr).len() == d.len());
    lemma_distinct_nonempty(values_at(d, attr));
    if distinct_of(values_at(d, attr)).len() == 1 {
        lemma_single_group_split(d, attr);
        assert(spec_gain(d, attr) == 0);
    }
}

/// Every tree grown from a dataset is structurally well formed.
pub proof fn lemma_tree_ok_wf(node: TreeNode, d: Seq<EntryView>)
    requires
        tree_ok(node, d),
    ensures
        wf_node(node),
    decreases node,
{
    match node.node_type {
        NodeType::Leaf(p) => {
            lemma_count_le_len(labels_of(d), spec_majority_label(d));
        },
        NodeType::Stage => {
            let ch = node.children.unwrap();
            let a = spec_best_attr(d, (width_of(d) - 1) as nat) as int;
            let dist = distinct_of(values_at(d, a));
            lemma_distinct_no_dup(values_at(d, a));
            assert forall|i: int, j: int| 0 <= i < j < ch@.len() implies (#[trigger] ch@[i]).0@
                != (#[trigger] ch@[j]).0@ by {
                assert(dist[i] != dist[j]);
            }
            assert forall|i: int| 0 <= i < ch@.len() implies wf_node((#[trigger] ch@[i]).1) by {
                lemma_tree_ok_wf(ch@[i].1, group_of(d, a, dist[i]));
            }
        },
    }
}

/// Filtering a dataset keeps every record's attribute count.
pub proof fn lemma_group_consistent(d: Seq<EntryView>, attr: int, v: Seq<char>, w: nat)
    requires
        consistent_width(d, w),
    ensures
        consistent_width(group_of(d, attr, v), w),
    decreases d.len(),
{
    if d.len() == 0 {
        assert(group_of(d, attr, v).len() <= d.len());
    } else {
        let dl = d.drop_last();
        assert(consistent_width(dl, w)) by {
            assert(forall|i: int| 0 <= i < dl.len() ==> dl[i] == d[i]);
        }
        lemma_group_consistent(dl, attr, v, w);
        assert(d =~= dl.push(d.last()));
        let gl = group_of(dl, attr, v);
        assert(group_of(dl.push(d.last()), attr, v) == if d.last().0[attr] == v {
            gl.push(d.last())
        } else {
            gl
        });
        assert(d.last() == d[d.len() - 1]);
        if d.last().0[attr] == v {
            assert forall|i: int| 0 <= i < gl.push(d.last()).len() implies (#[trigger] gl.push(
                d.last(),
            )[i]).0.len() == w by {
                if i < gl.len() {
                    assert(gl.push(d.last())[i] == gl[i]);
                } else {
                    assert(gl.push(d.last())[i] == d.last());
                }
            }
        }
    }
}

/// Builds the leaf for a dataset slice: the probability of the positive
/// label, computed from the majority label and its clearance.
fn make_leaf(data: &Data) -> (node: TreeNode)
    requires
        1 <= data.deep_view().len(),
    ensures
        node.children is None,
        node.attribute is None,
        node.node_type matches NodeType::Leaf(p) && leaf_prob_ok(data.deep_view(), p),
{
    let ghost dv = data.deep_view();
    let ghost ls = labels_of(dv);
    let clearance = calculate_data_clearance(data);
    let n: u64 = data.len() as u64;
    let maxc = clearance.0;
    let num = if is_positive_label(&clearance.1) {
        maxc
    } else {
        n - maxc
    };
    let node = TreeNode {
        node_type: NodeType::Leaf(Prob { num, den: n }),
        children: None,
        attribute: None,
    };
    proof {
        assert(clearance.1@ == spec_majority_label(dv));
        assert(maxc == count_of(ls, spec_majority_label(dv)));
        assert(leaf_prob_ok(dv, Prob { num, den: n }));
    }
    node
}

/// Grows a decision tree from a nonempty dataset of records that agree on
/// their attribute count.
pub fn build_tree(data: &Data) -> (node: TreeNode)
    requires
        1 <= data.deep_view().len(),
        consistent_width(data.deep_view(), width_of(data.deep_view())),
    ensures
        tree_ok(node, data.deep_view()),
    decreases data.deep_view().len(),
{
    let ghost dv = data.deep_view();
    let ghost ls = labels_of(dv);
    let clearance = calculate_data_clearance(data);
    let n: u64 = data.len() as u64;
    let maxc = clearance.0;
    let is_pure = 100u128 * (maxc as u128) >= 99u128 * (n as u128);
    proof {
        assert(is_pure == pure_enough(dv)) by {
            if is_pure {
                let i = choose|i: int| 0 <= i < ls.len() && ls[i] == clearance.1@;
                assert(label_count(dv, i) == count_of(ls, clearance.1@));
                assert(100 * label_count(dv, i) >= 99 * dv.len());
            }
            if pure_enough(dv) {
                let i = choose|i: int|
                    0 <= i < dv.len() && 100 * label_count(dv, i) >= 99 * dv.len();
                assert(count_of(ls, ls[i]) <= maxc);
                assert(100 * (maxc as nat) >= 99 * dv.len());
            }
        }
    }
    if is_pure {
        let node = make_leaf(data);
        return node;
    }
    let width = data[0].0.len();
    proof {
        assert(dv[0].0.len() == data@[0].0@.len());
        assert(width == width_of(dv));
    }
    if width == 0 {
        let node = make_leaf(data);
        return node;
    }
    let mut best_gain = calculate_gain(data, 0);
    let mut best_attr: usize = 0;
    let mut a: usize = 1;
    while a < width
        invariant
            1 <= a <= width,
            best_attr < a,
            dv == data.deep_view(),
            1 <= dv.len(),
            consistent_width(dv, width_of(dv)),
            width == width_of(dv),
            best_gain == spec_best_gain(dv, (a - 1) as nat),
            best_attr == spec_best_attr(dv, (a - 1) as nat),
        decreases width - a,
    {
        let g = calculate_gain(data, a);
        if g > best_gain {
            best_gain = g;
            best_attr = a;
        }
        a = a + 1;
    }
    if best_gain == 0 {
        let node = make_leaf(data);
        return node;
    }
    let groups = split_by_attribute(data, best_attr);
    let ghost aint = best_attr as int;
    let ghost vals = values_at(dv, aint);
    let ghost dist = distinct_of(vals);
    proof {
        lemma_best_gain_is_gain(dv, (width - 1) as nat);
        assert(spec_gain(dv, aint) != 0);
        lemma_gain_nonzero(dv, aint);
        lemma_partition(vals);
        assert forall|j: int| 0 <= j < dist.len() implies count_of(vals, #[trigger] dist[j]) >= 1
        by {
            assert(dist.contains(dist[j]));
            lemma_distinct_membership(vals, dist[j]);
            lemma_count_pos(vals, dist[j]);
        }
    }
    let mut children: Vec<(String, TreeNode)> = Vec::new();
    let mut t: usize = 0;
    while t < groups.len()
        invariant
            children@.len() == t,
            t <= groups@.len(),
            dv == data.deep_view(),
            1 <= dv.len(),
            consistent_width(dv, width_of(dv)),
            width == width_of(dv),
            aint == best_attr as int,
            best_attr < width,
            vals == values_at(dv, aint),
            dist == distinct_of(vals),
            dist.len() >= 2,
            sum_counts(dist, vals) == vals.len(),
            forall|j: int| 0 <= j < dist.len() ==> count_of(vals, #[trigger] dist[j]) >= 1,
            groups.deep_view().len() == dist.len(),
            groups@.len() == dist.len(),
            forall|i: int| 0 <= i < dist.len() ==> (#[trigger] groups.deep_view()[i]).0 == dist[i],
            forall|i: int|
                0 <= i < dist.len() ==> (#[trigger] groups.deep_view()[i]).1 == group_of(
                    dv,
                    aint,
                    dist[i],
                ),
            forall|i: int| 0 <= i < t ==> (#[trigger] children@[i]).0@ == dist[i],
            forall|i: int|
                0 <= i < t ==> tree_ok((#[trigger] children@[i]).1, group_of(dv, aint, dist[i])),
        decreases groups@.len() - t,
    {
        let ghost g = group_of(dv, aint, dist[t as int]);
        proof {
            assert(groups.deep_view()[t as int].1 == g);
            assert(groups@[t as int].1.deep_view() == g);
            lemma_group_len(dv, aint, dist[t as int]);
            lemma_sum_counts_elem(dist, vals, t as int);
            assert(g.len() >= 1);
            assert(g.len() < dv.len());
            lemma_group_consistent(dv, aint, dist[t as int], width_of(dv));
            assert(consistent_width(g, width_of(g))) by {
                assert(g[0].0.len() == width_of(dv));
            }
        }
        let child = build_tree(&groups[t].1);
        let key = groups[t].0.clone();
        proof {
            assert(key@ == groups.deep_view()[t as int].0);
        }
        children.push((key, child));
        t = t + 1;
    }
    let node = TreeNode {
        node_type: NodeType::Stage,
        children: Some(children),
        attribute: Some(best_attr),
    };
    proof {
        assert(spec_best_attr(dv, (width_of(dv) - 1) as nat) as usize == best_attr);
        assert(tree_ok(node, dv));
    }
    node
}

/// Walks the tree for one record: follows the child keyed by the record's
/// value at each stage's attribute, and returns the probability of the leaf
/// it reaches. Fails explicitly on a value never seen during training, or on
/// a record too short for a stage's attribute index.
fn predict_node(node: &TreeNode, record: &Vec<String>) -> (r: Result<Prob, PredictError>)
    requires
        wf_node(*node),
    ensures
        r == spec_predict(*node, record.deep_view()),
    decreases *node,
{
    let ghost rec = record.deep_view();
    match &node.node_type {
        NodeType::Leaf(p) => Ok(*p),
        NodeType::Stage => {
            if node.attribute.is_none() || node.children.is_none() {
                return Err(PredictError::UnseenCategory);
            }
            let a = node.attribute.unwrap();
            let ch = node.children.as_ref().unwrap();
            if a >= record.len() {
                return Err(PredictError::AttributeIndexOutOfRange);
            }
            let mut j: usize = 0;
            while j < ch.len()
                invariant
                    0 <= j <= ch@.len(),
                    a < rec.len(),
                    rec == record.deep_view(),
                    a < record@.len(),
                    node.children == Some(*ch),
                    node.attribute == Some(a),
                    node.node_type is Stage,
                    wf_node(*node),
                    forall|j2: int| 0 <= j2 < j ==> (#[trigger] ch@[j2]).0@ != rec[a as int],
                decreases ch@.len() - j,
            {
                proof {
                    assert(rec[a as int] == record@[a as int]@);
                }
                if ch[j].0 == record[a] {
                    proof {
                        assert((ch@[j as int]).0@ == rec[a as int]);
                        lemma_find_child_at(ch@, rec[a as int], j as int);
                        assert(wf_node(ch@[j as int].1));
                    }
                    let r = predict_node(&ch[j].1, record);
                    proof {
                        assert(find_child(node.children.unwrap()@, rec[a as int]) == j);
                        assert(r == spec_predict(*node, rec));
                    }
                    return r;
                }
                j = j + 1;
            }
            proof {
                lemma_find_child_none(ch@, rec[a as int]);
                assert(find_child(node.children.unwrap()@, rec[a as int]) == -1);
            }
            Err(PredictError::UnseenCategory)
        },
    }
}

impl DecisionTreeeClassifier {
    /// Builds a classifier from a dataset. Fails explicitly on an empty
    /// dataset, or when the records disagree on their attribute count.
    pub fn from_data(data: &Data) -> (r: Result<DecisionTreeeClassifier, BuildError>)
        ensures
            (data.deep_view().len() == 0) <==> (r matches Err(e) && e == BuildError::EmptyDataset),
            (data.deep_view().len() >= 1 && !consistent_width(
                data.deep_view(),
                width_of(data.deep_view()),
            )) <==> (r matches Err(e) && e == BuildError::InconsistentRecordShape),
            (data.deep_view().len() >= 1 && consistent_width(
                data.deep_view(),
                width_of(data.deep_view()),
            )) ==> (r matches Ok(c) && tree_ok(c.root, data.deep_view()) && wf_node(c.root)),
    {
        let ghost dv = data.deep_view();
        if data.len() == 0 {
            return Err(BuildError::EmptyDataset);
        }
        let width = data[0].0.len();
        proof {
            assert(dv[0].0.len() == data@[0].0@.len());
            assert(width == width_of(dv));
        }
        let mut i: usize = 1;
        while i < data.len()
            invariant
                1 <= i <= dv.len(),
                dv == data.deep_view(),
                1 <= dv.len(),
                width == width_of(dv),
                forall|k: int| 0 <= k < i ==> (#[trigger] dv[k]).0.len() == width,
            decreases dv.len() - i,
        {
            proof {
                assert(dv[i as int].0.len() == data@[i as int].0@.len());
            }
            if data[i].0.len() != width {
                return Err(BuildError::InconsistentRecordShape);
            }
            i = i + 1;
        }
        let root = build_tree(data);
        proof {
            lemma_tree_ok_wf(root, dv);
        }
        Ok(DecisionTreeeClassifier { root })
    }

    /// Class-membership probability of the positive label for one record,
    /// read off the leaf that the record's attribute values select.
    pub fn predict(&self, record: &Vec<String>) -> (r: Result<Prob, PredictError>)
        requires
            wf_node(self.root),
        ensures
            r == spec_predict(self.root, record.deep_view()),
    {
        predict_node(&self.root, record)
    }
}

} // verus!
